//! What a sequence of fingerprinted files is grouped into.

use vstd::prelude::*;
use crate::groups::Grouping;
use crate::groups::lacks;

verus! {

/// One regular file that was read: its fingerprint and its path.
pub struct Sighting<P> {
    pub digest: Seq<char>,
    pub path: P,
}

/// The test "this file has the fingerprint `digest`".
pub open spec fn with_digest<P>(digest: Seq<char>) -> spec_fn(Sighting<P>) -> bool {
    |sighting: Sighting<P>| sighting.digest == digest
}

/// The path of a sighting.
pub open spec fn path_of<P>() -> spec_fn(Sighting<P>) -> P {
    |sighting: Sighting<P>| sighting.path
}

/// The paths of the files in `seen` that have the fingerprint `digest`, in
/// the order in which they were seen.
pub open spec fn paths_with<P>(seen: Seq<Sighting<P>>, digest: Seq<char>) -> Seq<P> {
    seen.filter(with_digest(digest)).map_values(path_of())
}

/// The fingerprints in `seen`, each once, in the order of their first sighting.
pub open spec fn first_seen<P>(seen: Seq<Sighting<P>>) -> Seq<Seq<char>>
    decreases seen.len(),
{
    if seen.len() == 0 {
        Seq::empty()
    } else {
        let before = first_seen(seen.drop_last());
        if before.contains(seen.last().digest) {
            before
        } else {
            before.push(seen.last().digest)
        }
    }
}

/// The grouping of the files in `seen`: under each fingerprint that occurs,
/// the paths of the files that have it, in the order in which they were seen.
pub open spec fn grouped<P>(seen: Seq<Sighting<P>>) -> Grouping<P> {
    Grouping {
        order: first_seen(seen),
        paths: Map::new(
            |digest: Seq<char>| paths_with(seen, digest).len() > 0,
            |digest: Seq<char>| paths_with(seen, digest),
        ),
    }
}

/// The paths under a fingerprint, after one more sighting.
pub proof fn lemma_paths_with_push<P>(seen: Seq<Sighting<P>>, last: Sighting<P>, digest: Seq<char>)
    ensures
        paths_with(seen.push(last), digest) == if last.digest == digest {
            paths_with(seen, digest).push(last.path)
        } else {
            paths_with(seen, digest)
        },
{
    seen.lemma_filter_push(last, with_digest(digest));
}

/// The paths under a fingerprint in two sequences, one after the other.
pub proof fn lemma_paths_with_add<P>(a: Seq<Sighting<P>>, b: Seq<Sighting<P>>, digest: Seq<char>)
    ensures
        paths_with(a + b, digest) == paths_with(a, digest) + paths_with(b, digest),
{
    Seq::filter_distributes_over_add(a, b, with_digest(digest));
}

/// A fingerprint stands in `first_seen` exactly if a file in `seen` has it.
pub proof fn lemma_first_seen<P>(seen: Seq<Sighting<P>>)
    ensures
        first_seen(seen).no_duplicates(),
        forall|digest: Seq<char>|
            first_seen(seen).contains(digest) <==> paths_with(seen, digest).len() > 0,
    decreases seen.len(),
{
    if seen.len() == 0 {
        assert forall|digest: Seq<char>| paths_with(seen, digest).len() == 0 by {}
    } else {
        let head = seen.drop_last();
        let last = seen.last();
        let before = first_seen(head);
        lemma_first_seen(head);
        assert(seen =~= head.push(last));
        assert forall|digest: Seq<char>|
            first_seen(seen).contains(digest) <==> paths_with(seen, digest).len() > 0 by {
            lemma_paths_with_push(head, last, digest);
            if !before.contains(last.digest) {
                if digest == last.digest {
                    assert(first_seen(seen)[before.len() as int] == digest);
                } else if before.contains(digest) {
                    assert(first_seen(seen)[before.index_of(digest)] == digest);
                }
            }
        }
    }
}

/// No file gives the empty grouping.
pub proof fn lemma_grouped_empty<P>()
    ensures
        grouped(Seq::<Sighting<P>>::empty()) == Grouping::<P>::empty(),
{
    let seen = Seq::<Sighting<P>>::empty();
    assert forall|digest: Seq<char>| paths_with(seen, digest).len() == 0 by {}
    assert(grouped(seen).paths =~= Map::empty());
}

/// Grouping one more file is recording it.
pub proof fn lemma_grouped_push<P>(seen: Seq<Sighting<P>>, last: Sighting<P>)
    ensures
        grouped(seen.push(last)) == grouped(seen).recorded(last.digest, last.path),
{
    let more = seen.push(last);
    let target = grouped(seen).recorded(last.digest, last.path);
    lemma_first_seen(seen);
    assert(more.drop_last() =~= seen);
    assert forall|digest: Seq<char>| #[trigger]
        grouped(more).paths.dom().contains(digest) <==> target.paths.dom().contains(digest) by {
        lemma_paths_with_push(seen, last, digest);
    }
    assert forall|digest: Seq<char>| grouped(more).paths.dom().contains(digest) implies grouped(
        more,
    ).paths[digest] == target.paths[digest] by {
        lemma_paths_with_push(seen, last, digest);
    }
}

/// Whatever was seen, its grouping is valid.
pub proof fn lemma_grouped_valid<P>(seen: Seq<Sighting<P>>)
    ensures
        grouped(seen).valid(),
{
    lemma_first_seen(seen);
}

/// The order of first sighting in two sequences, one after the other.
proof fn lemma_first_seen_add<P>(a: Seq<Sighting<P>>, b: Seq<Sighting<P>>)
    ensures
        first_seen(a + b) == first_seen(a) + first_seen(b).filter(lacks(grouped(a).paths)),
    decreases b.len(),
{
    if b.len() > 0 {
        let head = b.drop_last();
        lemma_first_seen_add(a, head);
        lemma_first_seen(head);
        lemma_first_seen(a + head);
        assert((a + b).drop_last() =~= a + head);
        first_seen(head).lemma_filter_push(b.last().digest, lacks(grouped(a).paths));
    }
}

/// Grouping two sequences, one after the other, is merging their groupings.
pub proof fn lemma_grouped_add<P>(a: Seq<Sighting<P>>, b: Seq<Sighting<P>>)
    ensures
        grouped(a + b) == grouped(a).merged(grouped(b)),
{
    lemma_first_seen_add(a, b);
    assert forall|digest: Seq<char>| #[trigger]
        paths_with(a + b, digest) == paths_with(a, digest) + paths_with(b, digest) by {
        lemma_paths_with_add(a, b, digest);
    }
    assert(grouped(a + b).paths =~= grouped(a).merged(grouped(b)).paths);
}

} // verus!
