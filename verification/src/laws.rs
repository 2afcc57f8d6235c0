//! What holds of every scan.
//!
//! The laws speak of the trace of a tree, which is what a walk meets in it
//! (see [`trace_under`]), and of what [`scan_tree`](crate::walk::scan_tree)
//! returns for it (see [`scanned`]).

use vstd::prelude::*;
use crate::digest::sha256_hex;
use crate::groups::Grouping;
use crate::groups::repeats;
use crate::sightings::lemma_grouped_empty;
use crate::sightings::lemma_grouped_valid;
use crate::sightings::lemma_paths_with_push;
use crate::sightings::paths_with;
use crate::sightings::Sighting;
use crate::sightings::with_digest;
use crate::tree::Body;
use crate::tree::hashed;
use crate::tree::lemma_trace_among_add;
use crate::tree::lemma_trace_among_at;
use crate::tree::Met;
use crate::tree::Node;
use crate::tree::trace_among;
use crate::tree::trace_in;
use crate::tree::trace_under;
use crate::walk::Scan;
use crate::walk::scanned;

verus! {

/// The sighting that a file of the trace gives.
pub open spec fn sighting_of<P>(met: Met<P>) -> Sighting<P> {
    Sighting { digest: sha256_hex(met->content), path: met->File_path }
}

/// No other file of the trace has the path of the file at `i`.
pub open spec fn named_once<P>(trace: Seq<Met<P>>, i: int) -> bool {
    forall|k: int|
        0 <= k < trace.len() && (#[trigger] trace[k]) is File && trace[k]->File_path
            == trace[i]->File_path ==> k == i
}

/// Every file of the trace gives a sighting.
pub proof fn lemma_hashed_files<P>(trace: Seq<Met<P>>)
    ensures
        forall|i: int|
            0 <= i < trace.len() && (#[trigger] trace[i]) is File ==> hashed(trace).contains(
                sighting_of(trace[i]),
            ),
    decreases trace.len(),
{
    if trace.len() > 0 {
        let head = trace.drop_last();
        lemma_hashed_files(head);
        assert forall|i: int| 0 <= i < trace.len() && (#[trigger] trace[i]) is File implies hashed(
            trace,
        ).contains(sighting_of(trace[i])) by {
            if i < head.len() {
                assert(head[i] == trace[i]);
                let k = choose|k: int|
                    0 <= k < hashed(head).len() && hashed(head)[k] == sighting_of(trace[i]);
                assert(hashed(trace)[k] == sighting_of(trace[i]));
            } else {
                assert(hashed(trace)[hashed(head).len() as int] == sighting_of(trace[i]));
            }
        }
    }
}

/// The paths listed under a fingerprint are those of the sightings that have
/// it: each of these is listed, and nothing else is.
pub proof fn lemma_paths_with_sightings<P>(seen: Seq<Sighting<P>>, digest: Seq<char>)
    ensures
        forall|k: int|
            0 <= k < seen.len() && (#[trigger] seen[k]).digest == digest ==> paths_with(
                seen,
                digest,
            ).contains(seen[k].path),
        forall|path: P| #[trigger]
            paths_with(seen, digest).contains(path) ==> seen.contains(Sighting { digest, path }),
{
    let chosen = seen.filter(with_digest(digest));
    assert forall|k: int|
        0 <= k < seen.len() && (#[trigger] seen[k]).digest == digest implies paths_with(
        seen,
        digest,
    ).contains(seen[k].path) by {
        seen.lemma_filter_contains(with_digest(digest), k);
        let j = chosen.index_of(seen[k]);
        assert(paths_with(seen, digest)[j] == seen[k].path);
    }
    assert forall|path: P| #[trigger] paths_with(seen, digest).contains(path) implies seen.contains(
        Sighting { digest, path },
    ) by {
        let j = paths_with(seen, digest).index_of(path);
        seen.lemma_filter_contains_rev(with_digest(digest), chosen[j]);
    }
}

/// Where no two sightings share a fingerprint, at most one path is listed
/// under each.
proof fn lemma_paths_with_unique<P>(seen: Seq<Sighting<P>>, digest: Seq<char>)
    requires
        forall|a: int, b: int|
            0 <= a < b < seen.len() ==> (#[trigger] seen[a]).digest != (#[trigger] seen[b]).digest,
    ensures
        paths_with(seen, digest).len() <= 1,
    decreases seen.len(),
{
    if seen.len() > 0 {
        let head = seen.drop_last();
        let last = seen.last();
        assert(seen =~= head.push(last));
        assert forall|a: int, b: int| 0 <= a < b < head.len() implies (#[trigger] head[a]).digest
            != (#[trigger] head[b]).digest by {}
        lemma_paths_with_unique(head, digest);
        lemma_paths_with_push(head, last, digest);
        if last.digest == digest && paths_with(head, digest).len() > 0 {
            lemma_paths_with_sightings(head, digest);
            let path = paths_with(head, digest)[0];
            assert(paths_with(head, digest).contains(path));
            assert(seen[head.index_of(Sighting { digest, path })].digest == last.digest);
        }
    }
}

/// A scan is a function of what the walk meets: two trees with the same
/// trace are scanned alike.
pub proof fn law_same_trace_same_scan<P>(
    first_root: Node<P>,
    first: Scan<P>,
    second_root: Node<P>,
    second: Scan<P>,
)
    requires
        scanned(first_root, first),
        scanned(second_root, second),
        trace_under(first_root) == trace_under(second_root),
    ensures
        first.unsupported@ == second.unsupported@,
        match (first.result, second.result) {
            (Ok(a), Ok(b)) => a@ == b@,
            (Err(a), Err(b)) => a.path == b.path,
            _ => false,
        },
{
}

/// What the walk meets in an entry of a directory, it meets in the
/// directory. So a file is met however deep it lies below the root, as long
/// as the directories above it can be listed.
pub proof fn law_met_below_is_met<P>(nodes: Seq<Node<P>>, k: int, met: Met<P>)
    requires
        0 <= k < nodes.len(),
        trace_in(nodes[k]).contains(met),
    ensures
        trace_among(nodes).contains(met),
{
    lemma_trace_among_at(nodes, k);
    let head = trace_among(nodes.take(k));
    let at = trace_in(nodes[k]).index_of(met);
    assert(trace_among(nodes)[head.len() + at] == met);
}

/// Scanning a tree twice gives the same twice: the same groups with the same
/// paths in the same order and the same unsupported entries, or the same
/// error.
pub proof fn law_scan_is_repeatable<P>(root: Node<P>, first: Scan<P>, second: Scan<P>)
    requires
        scanned(root, first),
        scanned(root, second),
    ensures
        first.unsupported@ == second.unsupported@,
        match (first.result, second.result) {
            (Ok(a), Ok(b)) => a@ == b@,
            (Err(a), Err(b)) => a.path == b.path,
            _ => false,
        },
{
    law_same_trace_same_scan(root, first, root, second);
}

/// Files with the same bytes stand in the same group, wherever in the tree
/// the walk meets them.
pub proof fn law_same_content_same_group<P>(root: Node<P>, scan: Scan<P>, i: int, j: int)
    requires
        scanned(root, scan),
        scan.result is Ok,
        0 <= i < trace_under(root).len(),
        0 <= j < trace_under(root).len(),
        trace_under(root)[i] is File,
        trace_under(root)[j] is File,
        trace_under(root)[i]->content == trace_under(root)[j]->content,
    ensures
        ({
            let found = scan.result->Ok_0@;
            let digest = sha256_hex(trace_under(root)[i]->content);
            &&& found.has(digest)
            &&& found.paths[digest].contains(trace_under(root)[i]->File_path)
            &&& found.paths[digest].contains(trace_under(root)[j]->File_path)
        }),
{
    let trace = trace_under(root);
    let seen = hashed(trace);
    let digest = sha256_hex(trace[i]->content);
    lemma_hashed_files(trace);
    lemma_paths_with_sightings(seen, digest);
    assert(seen[seen.index_of(sighting_of(trace[i]))].digest == digest);
    assert(seen[seen.index_of(sighting_of(trace[j]))].digest == digest);
}

/// A result holds one group for each fingerprint that a file met has, and
/// no other; no fingerprint has two groups and no group is empty.
pub proof fn law_one_group_per_fingerprint<P>(root: Node<P>, scan: Scan<P>)
    requires
        scanned(root, scan),
        scan.result is Ok,
    ensures
        scan.result->Ok_0@.valid(),
        forall|digest: Seq<char>| #[trigger]
            scan.result->Ok_0@.has(digest) <==> exists|i: int|
                0 <= i < trace_under(root).len() && (#[trigger] trace_under(root)[i]) is File
                    && sha256_hex(trace_under(root)[i]->content) == digest,
{
    let trace = trace_under(root);
    let seen = hashed(trace);
    let found = scan.result->Ok_0@;
    lemma_grouped_valid(seen);
    lemma_hashed_files(trace);
    lemma_hashed_order(trace);
    assert forall|digest: Seq<char>| #[trigger]
        found.has(digest) <==> exists|i: int|
            0 <= i < trace.len() && (#[trigger] trace[i]) is File && sha256_hex(trace[i]->content)
                == digest by {
        lemma_paths_with_sightings(seen, digest);
        if found.has(digest) {
            let path = paths_with(seen, digest)[0];
            assert(paths_with(seen, digest).contains(path));
            let i = place_of(trace, seen.index_of(Sighting { digest, path }));
            assert(trace[i] is File && sha256_hex(trace[i]->content) == digest);
        }
        if exists|i: int|
            0 <= i < trace.len() && (#[trigger] trace[i]) is File && sha256_hex(trace[i]->content)
                == digest {
            let i = choose|i: int|
                0 <= i < trace.len() && (#[trigger] trace[i]) is File && sha256_hex(
                    trace[i]->content,
                ) == digest;
            assert(seen[seen.index_of(sighting_of(trace[i]))].digest == digest);
        }
    }
}

/// Every path in a result is the path of a regular file that the walk met
/// and read, and it stands under the fingerprint of the bytes of that file.
pub proof fn law_only_files_are_listed<P>(root: Node<P>, scan: Scan<P>, digest: Seq<char>, path: P)
    requires
        scanned(root, scan),
        scan.result matches Ok(found) && found@.of(digest).contains(path),
    ensures
        exists|i: int|
            0 <= i < trace_under(root).len() && #[trigger] trace_under(root)[i] == (Met::File {
                path,
                content: trace_under(root)[i]->content,
            }) && sha256_hex(trace_under(root)[i]->content) == digest,
{
    let trace = trace_under(root);
    let seen = hashed(trace);
    lemma_paths_with_sightings(seen, digest);
    lemma_hashed_order(trace);
    let i = place_of(trace, seen.index_of(Sighting { digest, path }));
    assert(trace[i] == Met::File { path, content: trace[i]->content });
}

/// Files whose bytes have different fingerprints stand in different groups:
/// no group lists the paths of both, where each path names one file.
pub proof fn law_different_content_different_groups<P>(
    root: Node<P>,
    scan: Scan<P>,
    i: int,
    j: int,
)
    requires
        scanned(root, scan),
        scan.result is Ok,
        0 <= i < trace_under(root).len(),
        0 <= j < trace_under(root).len(),
        trace_under(root)[i] is File,
        trace_under(root)[j] is File,
        named_once(trace_under(root), i),
        named_once(trace_under(root), j),
        sha256_hex(trace_under(root)[i]->content) != sha256_hex(trace_under(root)[j]->content),
    ensures
        ({
            let found = scan.result->Ok_0@;
            let first = trace_under(root)[i];
            let second = trace_under(root)[j];
            &&& found.of(sha256_hex(first->content)).contains(first->File_path)
            &&& found.of(sha256_hex(second->content)).contains(second->File_path)
            &&& forall|digest: Seq<char>|
                !(found.of(digest).contains(first->File_path) && #[trigger] found.of(
                    digest,
                ).contains(second->File_path))
        }),
{
    let trace = trace_under(root);
    let seen = hashed(trace);
    let found = scan.result->Ok_0@;
    law_same_content_same_group(root, scan, i, i);
    law_same_content_same_group(root, scan, j, j);
    assert forall|digest: Seq<char>|
        !(found.of(digest).contains(trace[i]->File_path) && #[trigger] found.of(digest).contains(
            trace[j]->File_path,
        )) by {
        if found.of(digest).contains(trace[i]->File_path) && found.of(digest).contains(
            trace[j]->File_path,
        ) {
            lemma_paths_with_sightings(seen, digest);
            lemma_hashed_order(trace);
            let a = seen.index_of(Sighting { digest, path: trace[i]->File_path });
            let b = seen.index_of(Sighting { digest, path: trace[j]->File_path });
            assert(place_of(trace, a) == i);
            assert(place_of(trace, b) == j);
        }
    }
}

/// Where all the files met have different fingerprints, every group holds
/// one path, and no group is a group of duplicates.
pub proof fn law_unique_content_no_duplicates<P>(root: Node<P>, scan: Scan<P>)
    requires
        scanned(root, scan),
        scan.result is Ok,
        forall|i: int, j: int|
            0 <= i < j < trace_under(root).len() && (#[trigger] trace_under(root)[i]) is File && (
            #[trigger] trace_under(root)[j]) is File ==> sha256_hex(trace_under(root)[i]->content)
                != sha256_hex(trace_under(root)[j]->content),
    ensures
        ({
            let found = scan.result->Ok_0@;
            &&& forall|digest: Seq<char>| #[trigger]
                found.has(digest) ==> found.paths[digest].len() == 1
            &&& found.duplicated() == Seq::<Seq<char>>::empty()
        }),
{
    let trace = trace_under(root);
    let seen = hashed(trace);
    let found = scan.result->Ok_0@;
    lemma_hashed_order(trace);
    assert forall|a: int, b: int| 0 <= a < b < seen.len() implies (#[trigger] seen[a]).digest != (
    #[trigger] seen[b]).digest by {
        assert(place_of(trace, a) < place_of(trace, b));
    }
    assert forall|digest: Seq<char>| #[trigger] found.has(digest) implies found.paths[digest].len()
        == 1 by {
        lemma_paths_with_unique(seen, digest);
    }
    let twice = found.order.filter(repeats(found.paths));
    if twice.len() > 0 {
        assert(found.has(twice[0]));
    }
}

/// The place in the trace of the file that gave the sighting `k`.
pub open spec fn place_of<P>(trace: Seq<Met<P>>, k: int) -> int
    decreases trace.len(),
{
    if trace.len() == 0 {
        0
    } else if k < hashed(trace.drop_last()).len() {
        place_of(trace.drop_last(), k)
    } else {
        trace.len() - 1
    }
}

/// The sightings stand in the order of their files in the trace.
proof fn lemma_hashed_order<P>(trace: Seq<Met<P>>)
    ensures
        forall|k: int|
            0 <= k < hashed(trace).len() ==> {
                &&& 0 <= #[trigger] place_of(trace, k) < trace.len()
                &&& trace[place_of(trace, k)] is File
                &&& sighting_of(trace[place_of(trace, k)]) == hashed(trace)[k]
            },
        forall|a: int, b: int|
            0 <= a < b < hashed(trace).len() ==> #[trigger] place_of(trace, a) < #[trigger] place_of(
                trace,
                b,
            ),
    decreases trace.len(),
{
    if trace.len() > 0 {
        let head = trace.drop_last();
        lemma_hashed_order(head);
        assert forall|k: int| 0 <= k < hashed(trace).len() implies {
            &&& 0 <= #[trigger] place_of(trace, k) < trace.len()
            &&& trace[place_of(trace, k)] is File
            &&& sighting_of(trace[place_of(trace, k)]) == hashed(trace)[k]
        } by {
            if k < hashed(head).len() {
                assert(trace[place_of(head, k)] == head[place_of(head, k)]);
            }
        }
        assert forall|a: int, b: int| 0 <= a < b < hashed(trace).len() implies #[trigger] place_of(
            trace,
            a,
        ) < #[trigger] place_of(trace, b) by {
            if b < hashed(head).len() {
                assert(place_of(head, a) < place_of(head, b));
            } else {
                assert(place_of(head, a) < head.len());
            }
        }
    }
}

/// An entry at which the walk meets nothing counts for nothing: the
/// directory is walked as if the entry were not there. Such are an empty
/// directory, a directory that cannot be listed, a symbolic link whether its
/// target exists or not, and an entry of unknown kind.
pub proof fn law_silent_entry<P>(nodes: Seq<Node<P>>, k: int)
    requires
        0 <= k < nodes.len(),
        nodes[k].body matches Body::Directory(Some(inner)) ==> trace_among(inner@).len() == 0,
        !(nodes[k].body is File),
        !(nodes[k].body is Other),
    ensures
        trace_in(nodes[k]) == Seq::<Met<P>>::empty(),
        trace_among(nodes.remove(k)) == trace_among(nodes),
{
    lemma_trace_among_at(nodes, k);
    lemma_trace_among_add(nodes.take(k), nodes.skip(k + 1));
    assert(nodes.remove(k) =~= nodes.take(k) + nodes.skip(k + 1));
}

/// A tree in which the walk meets nothing gives the empty result and no
/// error: an empty directory, a directory that holds only such entries as
/// count for nothing, and a root that cannot be listed.
pub proof fn law_nothing_met_nothing_found<P>(root: Node<P>, scan: Scan<P>)
    requires
        scanned(root, scan),
        trace_under(root).len() == 0,
    ensures
        scan.result matches Ok(found) && found@ == Grouping::<P>::empty(),
        scan.unsupported@ == Seq::<P>::empty(),
{
    lemma_grouped_empty::<P>();
    assert(trace_under(root).take(0) =~= Seq::empty());
}

} // verus!
