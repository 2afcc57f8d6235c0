use dupscan::scan_tree;
use dupscan::Body;
use dupscan::Node;
use dupscan::Scan;

const HELLO: &str = "2cf24dba5fb0a30e26e83b2ac5b9e29e1b161e5c1fa7425e73043362938b9824";
const WORLD: &str = "486ea46224d1bb4fb680f34f7c9ad96a8f24ec88be73ea8e5a6c65260e9cb8a7";
const EMPTY: &str = "e3b0c44298fc1c149afbf4c8996fb92427ae41e4649b934ca495991b7852b855";

fn file(path: &'static str, content: &str) -> Node<&'static str> {
    Node { path, body: Body::File(Some(content.as_bytes().to_vec())) }
}

fn unreadable(path: &'static str) -> Node<&'static str> {
    Node { path, body: Body::File(None) }
}

fn dir(path: &'static str, nodes: Vec<Node<&'static str>>) -> Node<&'static str> {
    Node { path, body: Body::Directory(Some(nodes)) }
}

fn locked(path: &'static str) -> Node<&'static str> {
    Node { path, body: Body::Directory(None) }
}

fn link(path: &'static str) -> Node<&'static str> {
    Node { path, body: Body::Symlink }
}

fn device(path: &'static str) -> Node<&'static str> {
    Node { path, body: Body::Other }
}

fn unknown(path: &'static str) -> Node<&'static str> {
    Node { path, body: Body::Unclassified }
}

/// The groups of a scan that succeeded, as pairs of fingerprint and paths.
fn groups_of(scan: &Scan<&'static str>) -> Vec<(String, Vec<&'static str>)> {
    let found = scan.result.as_ref().expect("the scan succeeds");
    found.groups().iter().map(|group| (group.digest.clone(), group.paths.clone())).collect()
}

fn hello_hello_world() -> Node<&'static str> {
    dir(
        "",
        vec![
            dir("a", vec![file("a/1.txt", "hello"), file("a/2.txt", "hello")]),
            dir("b", vec![file("b/3.txt", "world")]),
        ],
    )
}

#[test]
fn two_equal_files_and_one_other() {
    let scan = scan_tree(hello_hello_world());
    assert_eq!(
        groups_of(&scan),
        vec![
            (HELLO.to_string(), vec!["a/1.txt", "a/2.txt"]),
            (WORLD.to_string(), vec!["b/3.txt"]),
        ]
    );
    assert!(scan.unsupported.is_empty());
    let found = scan.result.unwrap();
    assert_eq!(found.len(), 2);
    let duplicates = found.duplicates();
    assert_eq!(duplicates.len(), 1);
    assert_eq!(duplicates[0].paths.len(), 2);
    assert_eq!(duplicates[0].digest, HELLO);
    assert_eq!(duplicates[0].paths, vec!["a/1.txt", "a/2.txt"]);
}

#[test]
fn root_that_cannot_be_listed_gives_nothing() {
    let scan = scan_tree(locked("root"));
    let found = scan.result.expect("no error");
    assert!(found.is_empty());
    assert_eq!(found.len(), 0);
    assert!(found.duplicates().is_empty());
    assert!(scan.unsupported.is_empty());
}

#[test]
fn file_that_vanished_fails_the_scan() {
    let root = dir(
        "root",
        vec![file("root/kept", "hello"), unreadable("root/gone"), file("root/after", "hello")],
    );
    let scan = scan_tree(root);
    let error = scan.result.expect_err("the scan fails");
    assert_eq!(error.path, "root/gone");
}

#[test]
fn failure_deep_in_the_tree_discards_everything() {
    let root = dir(
        "root",
        vec![
            file("root/a", "hello"),
            dir(
                "root/d",
                vec![dir("root/d/e", vec![file("root/d/e/b", "hello"), unreadable("root/d/e/x")])],
            ),
            file("root/c", "hello"),
        ],
    );
    let scan = scan_tree(root);
    assert!(matches!(scan.result, Err(ref error) if error.path == "root/d/e/x"));
}

#[test]
fn first_unreadable_file_is_the_one_named() {
    let root = dir("root", vec![unreadable("root/first"), unreadable("root/second")]);
    let scan = scan_tree(root);
    assert_eq!(scan.result.unwrap_err().path, "root/first");
}

#[test]
fn scanning_twice_gives_the_same() {
    let first = scan_tree(hello_hello_world());
    let second = scan_tree(hello_hello_world());
    assert_eq!(groups_of(&first), groups_of(&second));
    assert_eq!(first.unsupported, second.unsupported);
}

#[test]
fn equal_files_in_different_directories_share_a_group() {
    let root = dir(
        "root",
        vec![
            dir("root/x", vec![dir("root/x/y", vec![file("root/x/y/deep", "same bytes")])]),
            file("root/top", "same bytes"),
            dir("root/z", vec![file("root/z/far", "same bytes")]),
        ],
    );
    let scan = scan_tree(root);
    let groups = groups_of(&scan);
    assert_eq!(groups.len(), 1);
    assert_eq!(groups[0].1, vec!["root/x/y/deep", "root/top", "root/z/far"]);
}

#[test]
fn different_files_stand_in_different_groups() {
    let root = dir("root", vec![file("root/a", "hello"), file("root/b", "hellp")]);
    let scan = scan_tree(root);
    let groups = groups_of(&scan);
    assert_eq!(groups.len(), 2);
    assert_ne!(groups[0].0, groups[1].0);
    assert_eq!(groups[0].1, vec!["root/a"]);
    assert_eq!(groups[1].1, vec!["root/b"]);
}

#[test]
fn empty_directories_count_for_nothing() {
    let scan = scan_tree(dir("root", vec![]));
    assert!(scan.result.expect("no error").is_empty());

    let with = dir(
        "root",
        vec![
            dir("root/empty", vec![]),
            file("root/a", "hello"),
            dir("root/nested", vec![dir("root/nested/empty", vec![])]),
            file("root/b", "hello"),
        ],
    );
    let without = dir("root", vec![file("root/a", "hello"), file("root/b", "hello")]);
    assert_eq!(groups_of(&scan_tree(with)), groups_of(&scan_tree(without)));
}

#[test]
fn unique_files_give_singletons_and_no_duplicates() {
    let root = dir(
        "root",
        vec![
            file("root/a", "one"),
            dir("root/d", vec![file("root/d/b", "two")]),
            file("root/c", "three"),
        ],
    );
    let scan = scan_tree(root);
    let found = scan.result.expect("no error");
    assert_eq!(found.len(), 3);
    for group in found.groups() {
        assert_eq!(group.paths.len(), 1);
    }
    assert!(found.duplicates().is_empty());
}

#[test]
fn links_are_passed_over() {
    let root = dir("root", vec![link("root/dangling"), file("root/a", "hello"), link("root/loop")]);
    let scan = scan_tree(root);
    assert_eq!(groups_of(&scan), vec![(HELLO.to_string(), vec!["root/a"])]);
    assert!(scan.unsupported.is_empty());
}

#[test]
fn unsupported_entries_are_reported_in_order() {
    let root = dir(
        "root",
        vec![
            device("root/dev0"),
            file("root/a", "hello"),
            dir("root/d", vec![device("root/d/sock"), file("root/d/b", "hello")]),
            device("root/fifo"),
        ],
    );
    let scan = scan_tree(root);
    assert_eq!(scan.unsupported, vec!["root/dev0", "root/d/sock", "root/fifo"]);
    assert_eq!(groups_of(&scan), vec![(HELLO.to_string(), vec!["root/a", "root/d/b"])]);
}

#[test]
fn nothing_is_reported_past_the_failure() {
    let root = dir(
        "root",
        vec![device("root/before"), unreadable("root/gone"), device("root/after")],
    );
    let scan = scan_tree(root);
    assert_eq!(scan.unsupported, vec!["root/before"]);
    assert_eq!(scan.result.unwrap_err().path, "root/gone");
}

#[test]
fn entries_of_unknown_kind_are_passed_over() {
    let root = dir("root", vec![unknown("root/odd"), file("root/a", "world"), unknown("")]);
    let scan = scan_tree(root);
    assert_eq!(groups_of(&scan), vec![(WORLD.to_string(), vec!["root/a"])]);
    assert!(scan.unsupported.is_empty());
}

#[test]
fn directory_that_cannot_be_listed_counts_as_empty() {
    let root = dir(
        "root",
        vec![file("root/a", "hello"), locked("root/secret"), file("root/b", "hello")],
    );
    let scan = scan_tree(root);
    assert_eq!(groups_of(&scan), vec![(HELLO.to_string(), vec!["root/a", "root/b"])]);
}

#[test]
fn root_that_is_no_directory_gives_nothing() {
    assert!(scan_tree(file("root", "hello")).result.expect("no error").is_empty());
    assert!(scan_tree(unreadable("root")).result.expect("no error").is_empty());
    assert!(scan_tree(link("root")).result.expect("no error").is_empty());
    let scan = scan_tree(device("root"));
    assert!(scan.result.expect("no error").is_empty());
    assert!(scan.unsupported.is_empty());
}

#[test]
fn paths_come_in_the_order_of_the_walk() {
    let root = dir(
        "root",
        vec![
            file("root/1", "x"),
            dir("root/d", vec![file("root/d/2", "x"), file("root/d/3", "y")]),
            file("root/4", "x"),
            file("root/5", "y"),
        ],
    );
    let scan = scan_tree(root);
    let groups = groups_of(&scan);
    assert_eq!(groups.len(), 2);
    assert_eq!(groups[0].1, vec!["root/1", "root/d/2", "root/4"]);
    assert_eq!(groups[1].1, vec!["root/d/3", "root/5"]);
}

#[test]
fn empty_files_are_duplicates_of_each_other() {
    let root = dir("root", vec![file("root/a", ""), file("root/b", "")]);
    let scan = scan_tree(root);
    assert_eq!(groups_of(&scan), vec![(EMPTY.to_string(), vec!["root/a", "root/b"])]);
}

#[test]
fn fingerprint_is_taken_over_all_the_bytes() {
    let long: String = "a".repeat(100_000);
    let mut other: String = "a".repeat(99_999);
    other.push('b');
    let root = Node {
        path: "root",
        body: Body::Directory(Some(vec![
            Node { path: "root/a", body: Body::File(Some(long.clone().into_bytes())) },
            Node { path: "root/b", body: Body::File(Some(other.into_bytes())) },
            Node { path: "root/c", body: Body::File(Some(long.into_bytes())) },
        ])),
    };
    let scan = scan_tree(root);
    let groups = groups_of(&scan);
    assert_eq!(groups.len(), 2);
    assert_eq!(groups[0].1, vec!["root/a", "root/c"]);
    assert_eq!(groups[1].1, vec!["root/b"]);
}

#[test]
fn paths_may_be_of_any_type() {
    let root = Node {
        path: 0u32,
        body: Body::Directory(Some(vec![
            Node { path: 1u32, body: Body::File(Some(b"hello".to_vec())) },
            Node { path: 2u32, body: Body::Other },
            Node { path: 3u32, body: Body::File(Some(b"hello".to_vec())) },
        ])),
    };
    let scan = scan_tree(root);
    assert_eq!(scan.unsupported, vec![2u32]);
    let found = scan.result.expect("no error");
    assert_eq!(found.groups()[0].paths, vec![1u32, 3u32]);
}

#[test]
fn large_directory_is_grouped_file_by_file() {
    let count: u32 = 2000;
    let mut nodes: Vec<Node<u32>> = Vec::new();
    for i in 0..count {
        let content = format!("content {}", i % 500);
        nodes.push(Node { path: i, body: Body::File(Some(content.into_bytes())) });
    }
    let scan = scan_tree(Node { path: count, body: Body::Directory(Some(nodes)) });
    let found = scan.result.expect("no error");
    assert_eq!(found.len(), 500);
    assert_eq!(found.duplicates().len(), 500);
    assert_eq!(found.groups()[7].paths, vec![7u32, 507, 1007, 1507]);
}

#[test]
fn deep_tree_is_walked_to_the_bottom() {
    let mut node: Node<u32> = Node { path: 0, body: Body::File(Some(b"bottom".to_vec())) };
    for depth in 1..200u32 {
        let beside = Node { path: 1000 + depth, body: Body::File(Some(b"bottom".to_vec())) };
        node = Node { path: depth, body: Body::Directory(Some(vec![node, beside])) };
    }
    let scan = scan_tree(node);
    let found = scan.result.expect("no error");
    assert_eq!(found.len(), 1);
    assert_eq!(found.groups()[0].paths.len(), 200);
    assert_eq!(found.groups()[0].paths[0], 0);
    assert_eq!(found.groups()[0].paths[1], 1001);
    assert_eq!(found.groups()[0].paths[199], 1199);
}
