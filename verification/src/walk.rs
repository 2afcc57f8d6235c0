//! The scan of a directory tree held in memory.
//!
//! [`scan_tree`] drives a [`Scanner`] over a [`Node`]: it answers every
//! request of the scanner from the tree, as a program would answer it from
//! the file system.

use vstd::pervasive::unreached;
use vstd::prelude::*;
use crate::digest::sha256_hex;
use crate::groups::Grouping;
use crate::groups::ScanResult;
use crate::scanner::Entry;
use crate::scanner::Event;
use crate::scanner::Kind;
use crate::scanner::Level;
use crate::scanner::Machine;
use crate::scanner::Moved;
use crate::scanner::Phase;
use crate::scanner::ReadError;
use crate::scanner::resume;
use crate::scanner::Scanner;
use crate::sightings::grouped;
use crate::sightings::lemma_grouped_add;
use crate::sightings::lemma_grouped_empty;
use crate::sightings::lemma_grouped_push;
use crate::sightings::Sighting;
use crate::tree::Body;
use crate::tree::halt;
use crate::tree::hashed;
use crate::tree::lemma_halt;
use crate::tree::lemma_halt_add;
use crate::tree::lemma_hashed_add;
use crate::tree::lemma_one_met;
use crate::tree::lemma_trace_among_at;
use crate::tree::lemma_trace_among_take;
use crate::tree::lemma_unsupported_add;
use crate::tree::Met;
use crate::tree::Node;
use crate::tree::trace_among;
use crate::tree::trace_in;
use crate::tree::trace_under;
use crate::tree::unsupported_in;

verus! {

/// What a scan gives.
#[derive(Debug)]
pub struct Scan<P> {
    /// The files grouped by fingerprint, or the file that could not be read.
    pub result: Result<ScanResult<P>, ReadError<P>>,
    /// The entries that are neither file, directory nor link and that the
    /// walk came upon before it ended, in its order.
    pub unsupported: Vec<P>,
}

/// The listing of a directory with these nodes.
pub open spec fn entries_of<P>(nodes: Seq<Node<P>>) -> Seq<Entry<P>> {
    Seq::new(nodes.len(), |i: int| nodes[i].entry())
}

/// What stands at each of these nodes.
pub open spec fn bodies_of<P>(nodes: Seq<Node<P>>) -> Seq<Body<P>> {
    Seq::new(nodes.len(), |i: int| nodes[i].body)
}

/// The kind under which a listing shows what stands at a node.
fn kind_of<P>(body: &Body<P>) -> (kind: Kind)
    ensures
        kind == body.kind(),
{
    match body {
        Body::File(_) => Kind::File,
        Body::Directory(_) => Kind::Directory,
        Body::Symlink => Kind::Symlink,
        Body::Other => Kind::Other,
        Body::Unclassified => Kind::Unclassified,
    }
}

/// Parts the nodes of a directory into its listing and what stands behind
/// each entry.
fn split<P>(nodes: Vec<Node<P>>) -> (parts: (Vec<Entry<P>>, Vec<Body<P>>))
    ensures
        parts.0@ == entries_of(nodes@),
        parts.1@ == bodies_of(nodes@),
{
    let ghost all = nodes@;
    let mut entries: Vec<Entry<P>> = Vec::new();
    let mut bodies: Vec<Body<P>> = Vec::new();
    for node in it: nodes
        invariant
            it.seq() == all,
            entries@.len() == it.index(),
            bodies@.len() == it.index(),
            forall|j: int| 0 <= j < it.index() ==> entries@[j] == all[j].entry(),
            forall|j: int| 0 <= j < it.index() ==> bodies@[j] == all[j].body,
    {
        let kind = kind_of(&node.body);
        entries.push(Entry { path: node.path, kind });
        bodies.push(node.body);
    }
    (entries, bodies)
}

/// The scanner in the middle of a directory: what it does at the next entry.
proof fn lemma_resume_at<P>(
    found: Grouping<P>,
    open: Seq<Level<P>>,
    so_far: Grouping<P>,
    entries: Seq<Entry<P>>,
    i: int,
)
    requires
        0 <= i < entries.len(),
    ensures
        ({
            let here = resume(found, open.push(Level { found: so_far, rest: entries.skip(i) }));
            let stepped = open.push(Level { found: so_far, rest: entries.skip(i + 1) });
            let after = resume(found, stepped);
            match entries[i].kind {
                Kind::File => here == Moved {
                    machine: Machine { found, open: stepped, phase: Phase::Reading(entries[i].path) },
                    unsupported: Seq::empty(),
                },
                Kind::Directory => here == Moved {
                    machine: Machine { found, open: stepped, phase: Phase::Listing(entries[i].path) },
                    unsupported: Seq::empty(),
                },
                Kind::Other => here.machine == after.machine && here.unsupported == seq![
                    entries[i].path,
                ] + after.unsupported,
                _ => here == after,
            }
        }),
{
    let level = Level { found: so_far, rest: entries.skip(i) };
    let stepped = open.push(Level { found: so_far, rest: entries.skip(i + 1) });
    assert(entries.skip(i).drop_first() =~= entries.skip(i + 1));
    assert(open.push(level).drop_last() =~= open);
    assert(stepped.drop_last() =~= open);
}

/// The scanner at the end of a directory: what was found there is merged
/// into the directory above, where the scanner goes on.
proof fn lemma_resume_closed<P>(
    found: Grouping<P>,
    open: Seq<Level<P>>,
    parent: Level<P>,
    inner: Grouping<P>,
)
    ensures
        resume(found, open.push(parent).push(Level { found: inner, rest: Seq::empty() })) == resume(
            found,
            open.push(Level { found: parent.found.merged(inner), rest: parent.rest }),
        ),
{
    let closed = Level { found: inner, rest: Seq::<Entry<P>>::empty() };
    assert(open.push(parent).push(closed).drop_last() =~= open.push(parent));
    assert(open.push(parent).drop_last() =~= open);
}

/// The scanner at the end of the outermost directory: the result is ready.
proof fn lemma_resume_finished<P>(found: Grouping<P>, inner: Grouping<P>)
    ensures
        resume(found, Seq::empty().push(Level { found: inner, rest: Seq::empty() })) == (Moved {
            machine: Machine { found: inner, open: Seq::empty(), phase: Phase::Finished },
            unsupported: Seq::empty(),
        }),
{
    let closed = Level { found: inner, rest: Seq::<Entry<P>>::empty() };
    let stack = Seq::<Level<P>>::empty().push(closed);
    assert(stack.drop_last() =~= Seq::empty());
}

/// What a walk through `nodes` makes of the scanner `before`, which waits for
/// their listing, and of the list of unsupported entries.
spec fn walked<P>(
    before: Machine<P>,
    reported: Seq<P>,
    nodes: Seq<Node<P>>,
    after: Machine<P>,
    unsupported: Seq<P>,
    clean: bool,
) -> bool {
    let trace = trace_among(nodes);
    let closed = Level { found: grouped(hashed(trace)), rest: Seq::empty() };
    let done = resume(before.found, before.open.push(closed));
    &&& clean == (halt(trace) == trace.len())
    &&& clean ==> after == done.machine
    &&& clean ==> unsupported == reported + unsupported_in(trace) + done.unsupported
    &&& !clean ==> trace[halt(trace)] is Unreadable
    &&& !clean ==> after == Machine::failed(trace[halt(trace)]->Unreadable_path)
    &&& !clean ==> unsupported == reported + unsupported_in(trace.take(halt(trace)))
}

/// The scanner half way through a directory: the first `i` of `nodes` are
/// behind it and every file among them was read.
spec fn midway<P>(
    before: Machine<P>,
    reported: Seq<P>,
    nodes: Seq<Node<P>>,
    i: int,
    now: Machine<P>,
    unsupported: Seq<P>,
) -> bool {
    let trace = trace_among(nodes.take(i));
    let level = Level { found: grouped(hashed(trace)), rest: entries_of(nodes).skip(i) };
    let here = resume(before.found, before.open.push(level));
    &&& halt(trace) == trace.len()
    &&& now == here.machine
    &&& unsupported == reported + unsupported_in(trace) + here.unsupported
}

/// A walk that halts in the entry `i` of `nodes` halts there in the whole
/// trace.
proof fn lemma_halts_within<P>(nodes: Seq<Node<P>>, i: int)
    requires
        0 <= i < nodes.len(),
        halt(trace_among(nodes.take(i))) == trace_among(nodes.take(i)).len(),
        halt(trace_in(nodes[i])) < trace_in(nodes[i]).len(),
    ensures
        ({
            let head = trace_among(nodes.take(i));
            let trace = trace_among(nodes);
            let at = halt(trace_in(nodes[i]));
            &&& halt(trace) == head.len() + at
            &&& halt(trace) < trace.len()
            &&& trace[halt(trace)] == trace_in(nodes[i])[at]
            &&& trace.take(halt(trace)) == head + trace_in(nodes[i]).take(at)
        }),
{
    let head = trace_among(nodes.take(i));
    let inner = trace_in(nodes[i]);
    let tail = trace_among(nodes.skip(i + 1));
    lemma_trace_among_at(nodes, i);
    lemma_halt(inner);
    lemma_halt_add(head, inner);
    lemma_halt_add(head + inner, tail);
}

/// Walks through the nodes of one directory, whose listing the scanner waits
/// for, and through all that lies below. Returns whether every file was read.
fn walk<P>(scanner: &mut Scanner<P>, nodes: Vec<Node<P>>, unsupported: &mut Vec<P>) -> (clean: bool)
    requires
        old(scanner)@.phase is Listing,
    ensures
        walked(
            old(scanner)@,
            old(unsupported)@,
            nodes@,
            final(scanner)@,
            final(unsupported)@,
            clean,
        ),
    decreases nodes@,
{
    let ghost before = scanner@;
    let ghost reported = unsupported@;
    let ghost all = nodes@;
    let (entries, bodies) = split(nodes);
    let ghost listed = entries@;
    let mut passed = scanner.step(Event::Listed(entries));
    unsupported.append(&mut passed);
    proof {
        lemma_grouped_empty::<P>();
        assert(listed.skip(0) =~= listed);
    }
    // The scanner has gone on to the first entry that needs work. From here
    // it is answered entry by entry; it has passed by itself over those that
    // need no answer.
    for body in it: bodies
        invariant
            it.seq() == bodies_of(all),
            all == nodes@,
            listed == entries_of(all),
            before == old(scanner)@,
            reported == old(unsupported)@,
            midway(before, reported, all, it.index() as int, scanner@, unsupported@),
    {
        let ghost i = it.index() as int;
        let ghost head = trace_among(all.take(i));
        let ghost so_far = grouped(hashed(head));
        let ghost inner = trace_in(all[i]);
        let ghost said = unsupported@;
        let ghost stepped = before.open.push(Level { found: so_far, rest: listed.skip(i + 1) });
        proof {
            lemma_trace_among_take(all, i);
            lemma_resume_at(before.found, before.open, so_far, listed, i);
            lemma_halt_add(head, inner);
            lemma_hashed_add(head, inner);
            lemma_unsupported_add(head, inner);
            assert(stepped.drop_last() =~= before.open);
        }
        match body {
            Body::File(Some(bytes)) => {
                let ghost sighting = Sighting { digest: sha256_hex(bytes@), path: all[i].path };
                proof {
                    lemma_one_met(Met::File { path: all[i].path, content: bytes@ });
                    assert(hashed(head) + seq![sighting] =~= hashed(head).push(sighting));
                    lemma_grouped_push(hashed(head), sighting);
                }
                let mut passed = scanner.step(Event::Contents(bytes));
                unsupported.append(&mut passed);
            },
            Body::File(None) => {
                proof {
                    lemma_one_met(Met::Unreadable { path: all[i].path });
                    lemma_halts_within(all, i);
                }
                let _ = scanner.step(Event::Unreadable);
                return false;
            },
            Body::Directory(Some(children)) => {
                proof {
                    lemma_resume_closed(
                        before.found,
                        before.open,
                        Level { found: so_far, rest: listed.skip(i + 1) },
                        grouped(hashed(inner)),
                    );
                    lemma_grouped_add(hashed(head), hashed(inner));
                }
                let clean = walk(scanner, children, unsupported);
                if !clean {
                    proof {
                        lemma_halts_within(all, i);
                        lemma_unsupported_add(head, inner.take(halt(inner)));
                        assert(said + unsupported_in(inner.take(halt(inner))) =~= reported + (
                        unsupported_in(head) + unsupported_in(inner.take(halt(inner)))));
                    }
                    return false;
                }
                proof {
                    let level = Level {
                        found: grouped(hashed(head + inner)),
                        rest: listed.skip(i + 1),
                    };
                    let done = resume(before.found, before.open.push(level));
                    assert(said + unsupported_in(inner) + done.unsupported =~= reported + (
                    unsupported_in(head) + unsupported_in(inner)) + done.unsupported);
                }
            },
            Body::Directory(None) => {
                let mut passed = scanner.step(Event::Unlistable);
                unsupported.append(&mut passed);
            },
            Body::Other => {
                proof {
                    let after = resume(before.found, stepped);
                    lemma_one_met(Met::Unsupported { path: all[i].path });
                    assert(reported + unsupported_in(head) + (seq![all[i].path] + after.unsupported)
                        =~= reported + (unsupported_in(head) + seq![all[i].path])
                        + after.unsupported);
                }
            },
            Body::Symlink | Body::Unclassified => {},
        }
    }
    proof {
        assert(all.take(all.len() as int) =~= all);
        assert(listed.skip(all.len() as int) =~= Seq::empty());
    }
    true
}

/// What a scan of the tree under `root` gives.
///
/// The walk gets as far as the first file that cannot be read. If there is
/// none, the result is the grouping of all the files met, each under its
/// fingerprint; if there is one, the result is the error that names it. Either
/// way the unsupported entries met up to there are listed.
pub open spec fn scanned<P>(root: Node<P>, scan: Scan<P>) -> bool {
    let trace = trace_under(root);
    &&& scan.unsupported@ == unsupported_in(trace.take(halt(trace)))
    &&& match scan.result {
        Ok(found) => halt(trace) == trace.len() && found@ == grouped(hashed(trace)),
        Err(error) => halt(trace) < trace.len() && trace[halt(trace)] == (Met::Unreadable {
            path: error.path,
        }),
    }
}

/// Scans the tree under `root`: walks it depth first, fingerprints every
/// regular file and groups the paths by fingerprint.
///
/// The walk takes the entries of a directory in listing order and walks a
/// subdirectory in full before it goes on. The first file that cannot be read
/// ends the scan with an error, and nothing of what was found is returned. A
/// directory that cannot be listed counts as empty, and so does a root that is
/// no directory.
pub fn scan_tree<P>(root: Node<P>) -> (scan: Scan<P>)
    ensures
        scanned(root, scan),
{
    let ghost trace = trace_under(root);
    let mut scanner = Scanner::new(root.path);
    let mut unsupported: Vec<P> = Vec::new();
    match root.body {
        Body::Directory(Some(nodes)) => {
            proof {
                lemma_resume_finished(Grouping::<P>::empty(), grouped(hashed(trace)));
                assert(trace.take(trace.len() as int) =~= trace);
            }
            let _ = walk(&mut scanner, nodes, &mut unsupported);
        },
        _ => {
            proof {
                lemma_grouped_empty::<P>();
            }
            let _ = scanner.step(Event::Unlistable);
        },
    }
    match scanner.into_result() {
        Some(result) => Scan { result, unsupported },
        None => unreached(),
    }
}

} // verus!
