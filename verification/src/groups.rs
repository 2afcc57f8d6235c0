//! Paths grouped by the fingerprint of what the files hold.

use std::collections::hash_map::DefaultHasher;
use std::collections::HashMap;
use std::hash::Hasher;
use vstd::prelude::*;
use vstd::std_specs::hash::DefaultHasherAdditionalSpecFns;
use vstd::utf8::encode_utf8;

verus! {

/// The files found with one fingerprint, in the order in which they were found.
#[derive(Debug)]
pub struct Group<P> {
    /// The fingerprint that the files share.
    pub digest: String,
    /// The paths of the files; at least one.
    pub paths: Vec<P>,
}

/// What a [`ScanResult`] stands for: a list of paths for each fingerprint, and
/// the order in which the fingerprints were first seen.
#[verifier::ext_equal]
pub struct Grouping<P> {
    /// The fingerprints, each once, in the order of their first sighting.
    pub order: Seq<Seq<char>>,
    /// The paths found under each fingerprint, in the order of their sighting.
    pub paths: Map<Seq<char>, Seq<P>>,
}

/// The test "this fingerprint has no list in `paths`".
pub open spec fn lacks<P>(paths: Map<Seq<char>, Seq<P>>) -> spec_fn(Seq<char>) -> bool {
    |digest: Seq<char>| !paths.dom().contains(digest)
}

/// The test "more than one path is listed under this fingerprint".
pub open spec fn repeats<P>(paths: Map<Seq<char>, Seq<P>>) -> spec_fn(Seq<char>) -> bool {
    |digest: Seq<char>| paths.dom().contains(digest) && paths[digest].len() > 1
}

impl<P> Grouping<P> {
    /// The grouping of no file at all.
    pub open spec fn empty() -> Self {
        Grouping { order: Seq::empty(), paths: Map::empty() }
    }

    /// Whether a list is kept for `digest`.
    pub open spec fn has(self, digest: Seq<char>) -> bool {
        self.paths.dom().contains(digest)
    }

    /// The paths listed under `digest`; none where no list is kept for it.
    pub open spec fn of(self, digest: Seq<char>) -> Seq<P> {
        if self.has(digest) {
            self.paths[digest]
        } else {
            Seq::empty()
        }
    }

    /// Every fingerprint stands once in `order`, exactly those have a list,
    /// and no list is empty.
    pub open spec fn valid(self) -> bool {
        &&& self.order.no_duplicates()
        &&& forall|digest: Seq<char>| self.has(digest) <==> self.order.contains(digest)
        &&& forall|digest: Seq<char>| self.has(digest) ==> self.paths[digest].len() > 0
    }

    /// `more` appended to the list of `digest`, which is begun where it is missing.
    pub open spec fn joined(self, digest: Seq<char>, more: Seq<P>) -> Self {
        Grouping {
            order: if self.has(digest) {
                self.order
            } else {
                self.order.push(digest)
            },
            paths: self.paths.insert(digest, self.of(digest) + more),
        }
    }

    /// One more file: `path` appended to the list of `digest`.
    pub open spec fn recorded(self, digest: Seq<char>, path: P) -> Self {
        self.joined(digest, seq![path])
    }

    /// The lists of `other` appended to the lists of `self`, fingerprint by
    /// fingerprint. The fingerprints that are new to `self` follow its own, in
    /// the order that they have in `other`.
    pub open spec fn merged(self, other: Self) -> Self {
        Grouping {
            order: self.order + other.order.filter(lacks(self.paths)),
            paths: Map::new(
                |digest: Seq<char>| self.has(digest) || other.has(digest),
                |digest: Seq<char>| self.of(digest) + other.of(digest),
            ),
        }
    }

    /// The fingerprints under which more than one path is listed, in order.
    pub open spec fn duplicated(self) -> Seq<Seq<char>> {
        self.order.filter(repeats(self.paths))
    }
}

/// Merging into a grouping commutes with one more addition to the grouping
/// that is merged in.
pub proof fn lemma_merged_joined<P>(g: Grouping<P>, h: Grouping<P>, digest: Seq<char>, more: Seq<P>)
    requires
        h.valid(),
        !h.has(digest),
    ensures
        g.merged(h.joined(digest, more)) == g.merged(h).joined(digest, more),
{
    h.order.lemma_filter_push(digest, lacks(g.paths));
}

/// The result of a scan: for each fingerprint that was seen, the paths of the
/// files that have it.
#[derive(Debug)]
pub struct ScanResult<P> {
    /// The groups, in the order in which their fingerprints were first seen.
    groups: Vec<Group<P>>,
    /// Where the groups stand: under the slot of a fingerprint, the places in
    /// `groups` of the groups whose fingerprints have that slot.
    index: HashMap<u64, Vec<usize>>,
}

/// The fingerprints of a list of groups, in its order.
pub open spec fn digests_of<P>(groups: Seq<Group<P>>) -> Seq<Seq<char>> {
    Seq::new(groups.len(), |i: int| groups[i].digest@)
}

/// The grouping that a list of groups with distinct fingerprints stands for.
pub open spec fn grouping_of<P>(groups: Seq<Group<P>>) -> Grouping<P> {
    let order = digests_of(groups);
    Grouping {
        order,
        paths: Map::new(
            |digest: Seq<char>| order.contains(digest),
            |digest: Seq<char>| groups[order.index_of(digest)].paths@,
        ),
    }
}

/// No fingerprint stands twice in the list and no group is empty.
pub open spec fn well_kept<P>(groups: Seq<Group<P>>) -> bool {
    &&& digests_of(groups).no_duplicates()
    &&& forall|i: int| 0 <= i < groups.len() ==> (#[trigger] groups[i]).paths@.len() > 0
}

/// A well kept list of groups stands for a valid grouping, in which each
/// group is found under its fingerprint.
proof fn lemma_grouping_valid<P>(groups: Seq<Group<P>>)
    requires
        well_kept(groups),
    ensures
        grouping_of(groups).valid(),
        forall|i: int|
            0 <= i < groups.len() ==> grouping_of(groups).paths[#[trigger] groups[i].digest@]
                == groups[i].paths@,
{
    let order = digests_of(groups);
    assert forall|i: int| 0 <= i < groups.len() implies grouping_of(
        groups,
    ).paths[#[trigger] groups[i].digest@] == groups[i].paths@ by {
        assert(order[i] == groups[i].digest@);
    }
}

/// A group that gains paths gives the grouping with those paths joined.
proof fn lemma_grown<P>(before: Seq<Group<P>>, after: Seq<Group<P>>, at: int, more: Seq<P>)
    requires
        well_kept(before),
        0 <= at < before.len(),
        after.len() == before.len(),
        forall|i: int| 0 <= i < before.len() ==> (#[trigger] after[i]).digest@ == before[i].digest@,
        forall|i: int|
            0 <= i < before.len() && i != at ==> (#[trigger] after[i]).paths@ == before[i].paths@,
        after[at].paths@ == before[at].paths@ + more,
    ensures
        well_kept(after),
        grouping_of(after) == grouping_of(before).joined(before[at].digest@, more),
{
    let digest = before[at].digest@;
    assert(digests_of(after) =~= digests_of(before));
    assert(digests_of(before)[at] == digest);
}

/// A new group at the end gives the grouping with its paths joined.
proof fn lemma_begun<P>(before: Seq<Group<P>>, group: Group<P>)
    requires
        well_kept(before),
        !digests_of(before).contains(group.digest@),
        group.paths@.len() > 0,
    ensures
        well_kept(before.push(group)),
        grouping_of(before.push(group)) == grouping_of(before).joined(group.digest@, group.paths@),
{
    let after = before.push(group);
    let digest = group.digest@;
    assert(digests_of(after) =~= digests_of(before).push(digest));
    let target = grouping_of(before).joined(digest, group.paths@);
    assert forall|d: Seq<char>| #[trigger]
        grouping_of(after).paths.dom().contains(d) <==> target.paths.dom().contains(d) by {
        if digests_of(before).contains(d) {
            assert(digests_of(after)[digests_of(before).index_of(d)] == d);
        }
        if d == digest {
            assert(digests_of(after)[before.len() as int] == d);
        }
    }
}

/// What the first `k` of a list of groups are, and what the next one adds.
proof fn lemma_prefix<P>(groups: Seq<Group<P>>, k: int)
    requires
        well_kept(groups),
        0 <= k < groups.len(),
    ensures
        well_kept(groups.take(k)),
        !digests_of(groups.take(k)).contains(groups[k].digest@),
        groups.take(k + 1) == groups.take(k).push(groups[k]),
        digests_of(groups.take(k + 1)) == digests_of(groups.take(k)).push(groups[k].digest@),
{
    let head = groups.take(k);
    assert forall|i: int, j: int|
        0 <= i < head.len() && 0 <= j < head.len() && i != j implies digests_of(head)[i]
        != digests_of(head)[j] by {
        assert(digests_of(groups)[i] == digests_of(head)[i]);
        assert(digests_of(groups)[j] == digests_of(head)[j]);
    }
    if digests_of(head).contains(groups[k].digest@) {
        let i = digests_of(head).index_of(groups[k].digest@);
        assert(digests_of(groups)[i] == digests_of(head)[i]);
        assert(digests_of(groups)[k] == groups[k].digest@);
    }
}

/// The number under which the index keeps a fingerprint: the hash that the
/// default hasher of the standard library gives for its bytes.
spec fn slot_of(digest: Seq<char>) -> u64 {
    DefaultHasher::spec_finish(seq![encode_utf8(digest)])
}

/// The index leads to every group, and to nothing but groups: the place of
/// each group stands under the slot of its fingerprint, and every place that
/// the index holds is a place in `groups`.
spec fn leads_to<P>(index: Map<u64, Vec<usize>>, groups: Seq<Group<P>>) -> bool {
    &&& forall|i: int|
        0 <= i < groups.len() ==> index.contains_key(slot_of(#[trigger] groups[i].digest@))
            && index[slot_of(groups[i].digest@)]@.contains(i as usize)
    &&& forall|slot: u64, j: int|
        index.contains_key(slot) && 0 <= j < index[slot]@.len() ==> (#[trigger] index[slot]@[j])
            < groups.len()
}

/// The slot of a fingerprint.
fn slot(digest: &String) -> (at: u64)
    ensures
        at == slot_of(digest@),
{
    let mut hasher = DefaultHasher::new();
    hasher.write(digest.as_str().as_bytes());
    hasher.finish()
}

/// Where in `groups` the group of `digest` stands.
fn position<P>(groups: &Vec<Group<P>>, index: &HashMap<u64, Vec<usize>>, digest: &String) -> (at:
    Option<usize>)
    requires
        leads_to(index@, groups@),
    ensures
        match at {
            Some(i) => i < groups.len() && groups[i as int].digest@ == digest@,
            None => !digests_of(groups@).contains(digest@),
        },
{
    let at = slot(digest);
    match index.get(&at) {
        None => {
            assert forall|i: int| 0 <= i < groups.len() implies groups[i].digest@ != digest@ by {}
            None
        },
        Some(places) => {
            let mut j: usize = 0;
            while j < places.len()
                invariant
                    j <= places.len(),
                    leads_to(index@, groups@),
                    index@.contains_key(at),
                    index@[at] == *places,
                    forall|l: int| 0 <= l < j ==> groups[places[l] as int].digest@ != digest@,
                decreases places.len() - j,
            {
                let i = places[j];
                if groups[i].digest == *digest {
                    return Some(i);
                }
                j = j + 1;
            }
            assert forall|i: int| 0 <= i < groups.len() implies groups[i].digest@ != digest@ by {
                if groups[i].digest@ == digest@ {
                    assert(places[places@.index_of(i as usize) as int] == i);
                }
            }
            None
        },
    }
}

/// Puts a group with a new fingerprint at the end of `groups`.
fn begin<P>(groups: &mut Vec<Group<P>>, index: &mut HashMap<u64, Vec<usize>>, group: Group<P>)
    requires
        well_kept(old(groups)@),
        leads_to(old(index)@, old(groups)@),
        !digests_of(old(groups)@).contains(group.digest@),
        group.paths@.len() > 0,
    ensures
        final(groups)@ == old(groups)@.push(group),
        well_kept(final(groups)@),
        leads_to(final(index)@, final(groups)@),
        grouping_of(final(groups)@) == grouping_of(old(groups)@).joined(
            group.digest@,
            group.paths@,
        ),
{
    let ghost before = groups@;
    let ghost led = index@;
    let place = groups.len();
    let at = slot(&group.digest);
    let mut places = match index.remove(&at) {
        Some(places) => places,
        None => Vec::new(),
    };
    let ghost known = places@;
    places.push(place);
    proof {
        lemma_begun(before, group);
        assert forall|i: int| 0 <= i < before.len() + 1 implies led.insert(at, places).contains_key(
            slot_of(#[trigger] before.push(group)[i].digest@),
        ) && led.insert(at, places)[slot_of(before.push(group)[i].digest@)]@.contains(
            i as usize,
        ) by {
            if i < before.len() {
                if slot_of(before[i].digest@) == at {
                    let l = known.index_of(i as usize);
                    assert(places@[l] == i as usize);
                }
            } else {
                assert(places@[known.len() as int] == i as usize);
            }
        }
        assert forall|slot: u64, j: int|
            led.insert(at, places).contains_key(slot) && 0 <= j < led.insert(
                at,
                places,
            )[slot]@.len() implies (#[trigger] led.insert(at, places)[slot]@[j]) < before.len()
            + 1 by {
            if slot != at || j < known.len() {
                assert(led[slot]@[j] < before.len());
            }
        }
    }
    index.insert(at, places);
    groups.push(group);
}

impl<P> View for ScanResult<P> {
    type V = Grouping<P>;

    closed spec fn view(&self) -> Grouping<P> {
        grouping_of(self.groups@)
    }
}

impl<P> ScanResult<P> {
    #[verifier::type_invariant]
    spec fn kept(self) -> bool {
        well_kept(self.groups@) && leads_to(self.index@, self.groups@)
    }

    /// A result that holds no file yet.
    pub fn new() -> (found: Self)
        ensures
            found@ == Grouping::<P>::empty(),
    {
        ScanResult { groups: Vec::new(), index: HashMap::new() }
    }

    /// Adds one file: `path` goes to the end of the list of `digest`, which
    /// is begun if this is the first file with that fingerprint.
    pub fn record(&mut self, digest: String, path: P)
        ensures
            final(self)@ == old(self)@.recorded(digest@, path),
            final(self)@.valid(),
    {
        proof {
            use_type_invariant(&*self);
        }
        let mut taken = ScanResult::new();
        std::mem::swap(&mut taken, self);
        let ScanResult { groups, index } = taken;
        let mut groups = groups;
        let mut index = index;
        let ghost before = groups@;
        match position(&groups, &index, &digest) {
            Some(i) => {
                groups[i].paths.push(path);
                proof {
                    assert(groups[i as int].paths@ =~= before[i as int].paths@ + seq![path]);
                    lemma_grown(before, groups@, i as int, seq![path]);
                }
            },
            None => {
                let mut paths: Vec<P> = Vec::new();
                paths.push(path);
                begin(&mut groups, &mut index, Group { digest, paths });
            },
        }
        *self = ScanResult { groups, index };
    }

    /// Takes over what another scan found: each list of `other` goes to the
    /// end of the list that `self` keeps for the same fingerprint, and a
    /// fingerprint that `self` has not seen yet gets a list of its own.
    pub fn merge(&mut self, other: ScanResult<P>)
        ensures
            final(self)@ == old(self)@.merged(other@),
            final(self)@.valid(),
    {
        proof {
            use_type_invariant(&*self);
            use_type_invariant(&other);
        }
        let mut taken = ScanResult::new();
        std::mem::swap(&mut taken, self);
        let ScanResult { groups, index } = taken;
        let mut groups = groups;
        let mut index = index;
        let ghost start = grouping_of(groups@);
        let ghost incoming = other.groups@;
        let more = other.groups;
        for group in it: more
            invariant
                it.seq() == incoming,
                well_kept(incoming),
                well_kept(groups@),
                leads_to(index@, groups@),
                grouping_of(groups@) == start.merged(grouping_of(incoming.take(it.index() as int))),
        {
            let ghost k = it.index() as int;
            let ghost before = groups@;
            proof {
                lemma_prefix(incoming, k);
                lemma_begun(incoming.take(k), group);
                lemma_merged_joined(start, grouping_of(incoming.take(k)), group.digest@, group.paths@);
            }
            match position(&groups, &index, &group.digest) {
                Some(i) => {
                    let mut paths = group.paths;
                    groups[i].paths.append(&mut paths);
                    proof {
                        lemma_grown(before, groups@, i as int, group.paths@);
                    }
                },
                None => {
                    begin(&mut groups, &mut index, group);
                },
            }
        }
        proof {
            assert(incoming.take(incoming.len() as int) =~= incoming);
        }
        *self = ScanResult { groups, index };
    }

    /// The groups, in the order in which their fingerprints were first seen.
    pub fn groups(&self) -> (groups: &Vec<Group<P>>)
        ensures
            self@ == grouping_of(groups@),
            well_kept(groups@),
            self@.valid(),
    {
        proof {
            use_type_invariant(self);
        }
        &self.groups
    }

    /// The number of fingerprints seen.
    pub fn len(&self) -> (n: usize)
        ensures
            n == self@.order.len(),
    {
        self.groups.len()
    }

    /// Whether no file was found.
    pub fn is_empty(&self) -> (none: bool)
        ensures
            none == (self@.order.len() == 0),
    {
        self.groups.len() == 0
    }

    /// The paths of the files with this fingerprint, if any was found.
    pub fn paths_of(&self, digest: &String) -> (paths: Option<&Vec<P>>)
        ensures
            match paths {
                Some(list) => self@.has(digest@) && list@ == self@.paths[digest@],
                None => !self@.has(digest@),
            },
    {
        proof {
            use_type_invariant(self);
        }
        match position(&self.groups, &self.index, digest) {
            Some(i) => {
                assert(digests_of(self.groups@)[i as int] == digest@);
                Some(&self.groups[i].paths)
            },
            None => None,
        }
    }

    /// The groups that hold more than one path: the files that have a
    /// duplicate. They come in the order of [`ScanResult::groups`].
    pub fn duplicates(&self) -> (found: Vec<&Group<P>>)
        ensures
            found@.len() == self@.duplicated().len(),
            forall|k: int|
                0 <= k < found@.len() ==> {
                    &&& (#[trigger] found@[k]).digest@ == self@.duplicated()[k]
                    &&& found@[k].paths@ == self@.paths[self@.duplicated()[k]]
                },
    {
        proof {
            use_type_invariant(self);
            lemma_grouping_valid(self.groups@);
        }
        let ghost twice = repeats(self@.paths);
        let mut found: Vec<&Group<P>> = Vec::new();
        let mut i: usize = 0;
        while i < self.groups.len()
            invariant
                i <= self.groups.len(),
                well_kept(self.groups@),
                twice == repeats(self@.paths),
                self@ == grouping_of(self.groups@),
                self@.valid(),
                forall|j: int|
                    0 <= j < self.groups.len() ==> self@.paths[#[trigger] self.groups[j].digest@]
                        == self.groups[j].paths@,
                found@.len() == digests_of(self.groups@.take(i as int)).filter(twice).len(),
                forall|k: int|
                    0 <= k < found@.len() ==> {
                        &&& (#[trigger] found@[k]).digest@ == digests_of(
                            self.groups@.take(i as int),
                        ).filter(twice)[k]
                        &&& found@[k].paths@ == self@.paths[found@[k].digest@]
                    },
            decreases self.groups.len() - i,
        {
            proof {
                lemma_prefix(self.groups@, i as int);
                digests_of(self.groups@.take(i as int)).lemma_filter_push(
                    self.groups[i as int].digest@,
                    twice,
                );
                assert(digests_of(self.groups@)[i as int] == self.groups[i as int].digest@);
            }
            if self.groups[i].paths.len() > 1 {
                found.push(&self.groups[i]);
            }
            i = i + 1;
        }
        proof {
            assert(self.groups@.take(i as int) =~= self.groups@);
        }
        found
    }
}

} // verus!
