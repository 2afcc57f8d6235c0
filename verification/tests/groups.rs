use dupscan::ScanResult;

fn listed(found: &ScanResult<&'static str>) -> Vec<(String, Vec<&'static str>)> {
    found.groups().iter().map(|group| (group.digest.clone(), group.paths.clone())).collect()
}

fn pair(digest: &str, paths: Vec<&'static str>) -> (String, Vec<&'static str>) {
    (digest.to_string(), paths)
}

#[test]
fn new_result_is_empty() {
    let found: ScanResult<&'static str> = ScanResult::new();
    assert!(found.is_empty());
    assert_eq!(found.len(), 0);
    assert!(found.groups().is_empty());
    assert!(found.duplicates().is_empty());
    assert!(found.paths_of(&"aa".to_string()).is_none());
}

#[test]
fn record_begins_a_list_or_appends_to_it() {
    let mut found: ScanResult<&'static str> = ScanResult::new();
    found.record("aa".to_string(), "one");
    assert_eq!(listed(&found), vec![pair("aa", vec!["one"])]);
    found.record("bb".to_string(), "two");
    assert_eq!(listed(&found), vec![pair("aa", vec!["one"]), pair("bb", vec!["two"])]);
    found.record("aa".to_string(), "three");
    assert_eq!(listed(&found), vec![pair("aa", vec!["one", "three"]), pair("bb", vec!["two"])]);
    assert_eq!(found.len(), 2);
    assert!(!found.is_empty());
}

#[test]
fn record_keeps_the_same_path_twice() {
    let mut found: ScanResult<&'static str> = ScanResult::new();
    found.record("aa".to_string(), "one");
    found.record("aa".to_string(), "one");
    assert_eq!(listed(&found), vec![pair("aa", vec!["one", "one"])]);
}

#[test]
fn paths_of_finds_the_list_of_a_fingerprint() {
    let mut found: ScanResult<&'static str> = ScanResult::new();
    found.record("aa".to_string(), "one");
    found.record("bb".to_string(), "two");
    found.record("aa".to_string(), "three");
    assert_eq!(found.paths_of(&"aa".to_string()), Some(&vec!["one", "three"]));
    assert_eq!(found.paths_of(&"bb".to_string()), Some(&vec!["two"]));
    assert_eq!(found.paths_of(&"cc".to_string()), None);
    assert_eq!(found.paths_of(&"a".to_string()), None);
}

#[test]
fn merge_appends_list_to_list() {
    let mut found: ScanResult<&'static str> = ScanResult::new();
    found.record("aa".to_string(), "one");
    found.record("bb".to_string(), "two");
    let mut other: ScanResult<&'static str> = ScanResult::new();
    other.record("cc".to_string(), "sub/one");
    other.record("bb".to_string(), "sub/two");
    other.record("cc".to_string(), "sub/three");
    other.record("bb".to_string(), "sub/four");
    found.merge(other);
    assert_eq!(
        listed(&found),
        vec![
            pair("aa", vec!["one"]),
            pair("bb", vec!["two", "sub/two", "sub/four"]),
            pair("cc", vec!["sub/one", "sub/three"]),
        ]
    );
}

#[test]
fn merge_with_an_empty_result_changes_nothing() {
    let mut found: ScanResult<&'static str> = ScanResult::new();
    found.record("aa".to_string(), "one");
    found.merge(ScanResult::new());
    assert_eq!(listed(&found), vec![pair("aa", vec!["one"])]);

    let mut empty: ScanResult<&'static str> = ScanResult::new();
    empty.merge(found);
    assert_eq!(listed(&empty), vec![pair("aa", vec!["one"])]);
}

#[test]
fn merge_is_recording_one_after_the_other() {
    let mut merged: ScanResult<&'static str> = ScanResult::new();
    merged.record("aa".to_string(), "1");
    merged.record("bb".to_string(), "2");
    let mut other: ScanResult<&'static str> = ScanResult::new();
    other.record("bb".to_string(), "3");
    other.record("cc".to_string(), "4");
    other.record("aa".to_string(), "5");
    merged.merge(other);

    let mut flat: ScanResult<&'static str> = ScanResult::new();
    flat.record("aa".to_string(), "1");
    flat.record("bb".to_string(), "2");
    flat.record("bb".to_string(), "3");
    flat.record("cc".to_string(), "4");
    flat.record("aa".to_string(), "5");
    assert_eq!(listed(&merged), listed(&flat));
}

#[test]
fn duplicates_are_the_groups_with_more_than_one_path() {
    let mut found: ScanResult<&'static str> = ScanResult::new();
    found.record("aa".to_string(), "1");
    found.record("bb".to_string(), "2");
    found.record("cc".to_string(), "3");
    found.record("cc".to_string(), "4");
    found.record("aa".to_string(), "5");
    found.record("aa".to_string(), "6");
    let duplicates = found.duplicates();
    assert_eq!(duplicates.len(), 2);
    assert_eq!(duplicates[0].digest, "aa");
    assert_eq!(duplicates[0].paths, vec!["1", "5", "6"]);
    assert_eq!(duplicates[1].digest, "cc");
    assert_eq!(duplicates[1].paths, vec!["3", "4"]);
}

#[test]
fn many_fingerprints_are_kept_apart() {
    let mut found: ScanResult<usize> = ScanResult::new();
    let count: usize = 3000;
    for round in 0..3 {
        for i in 0..count {
            found.record(format!("digest-{}", i), round * count + i);
        }
    }
    assert_eq!(found.len(), count);
    assert_eq!(found.duplicates().len(), count);
    for (i, group) in found.groups().iter().enumerate() {
        assert_eq!(group.digest, format!("digest-{}", i));
        assert_eq!(group.paths, vec![i, count + i, 2 * count + i]);
    }
    assert_eq!(found.paths_of(&"digest-2999".to_string()), Some(&vec![2999, 5999, 8999]));
    assert_eq!(found.paths_of(&"digest-3000".to_string()), None);

    let mut other: ScanResult<usize> = ScanResult::new();
    for i in (0..count).rev() {
        other.record(format!("digest-{}", 2 * i), 9 * count + i);
    }
    found.merge(other);
    assert_eq!(found.len(), count + count / 2);
    assert_eq!(found.groups()[0].paths, vec![0, count, 2 * count, 9 * count]);
    assert_eq!(found.groups()[count].digest, "digest-5998");
    assert_eq!(found.groups()[count].paths, vec![9 * count + 2999]);
}
