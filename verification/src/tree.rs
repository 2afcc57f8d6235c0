//! A directory tree held in memory, and what a walk over it meets.

use vstd::prelude::*;
use crate::digest::sha256_hex;
use crate::scanner::Entry;
use crate::scanner::Kind;
use crate::sightings::Sighting;

verus! {

/// What stands at a path.
#[derive(Debug)]
pub enum Body<P> {
    /// A regular file with its bytes; `None` where it cannot be read.
    File(Option<Vec<u8>>),
    /// A directory with its entries in listing order; `None` where it cannot
    /// be listed.
    Directory(Option<Vec<Node<P>>>),
    /// A symbolic link, whatever it points to.
    Symlink,
    /// A device, socket, pipe or the like.
    Other,
    /// An entry whose kind cannot be found out.
    Unclassified,
}

/// A path and what stands there.
#[derive(Debug)]
pub struct Node<P> {
    pub path: P,
    pub body: Body<P>,
}

/// One thing that a walk comes upon and that counts for its outcome.
pub enum Met<P> {
    /// A regular file, read to its end.
    File { path: P, content: Seq<u8> },
    /// A regular file that cannot be read.
    Unreadable { path: P },
    /// An entry that is neither file, directory nor link.
    Unsupported { path: P },
}

impl<P> Body<P> {
    /// The kind under which a listing shows this.
    pub open spec fn kind(self) -> Kind {
        match self {
            Body::File(_) => Kind::File,
            Body::Directory(_) => Kind::Directory,
            Body::Symlink => Kind::Symlink,
            Body::Other => Kind::Other,
            Body::Unclassified => Kind::Unclassified,
        }
    }
}

impl<P> Node<P> {
    /// The entry that stands for this node in the listing of its directory.
    pub open spec fn entry(self) -> Entry<P> {
        Entry { path: self.path, kind: self.body.kind() }
    }
}

/// What a walk meets at one entry of a directory, in the order of the walk.
///
/// A file is met itself. A directory gives what is met among its entries, and
/// nothing where it cannot be listed. A link is never followed, and an entry
/// of unknown kind is passed over.
pub open spec fn trace_in<P>(node: Node<P>) -> Seq<Met<P>>
    decreases node, 0nat,
{
    match node.body {
        Body::File(Some(bytes)) => seq![Met::File { path: node.path, content: bytes@ }],
        Body::File(None) => seq![Met::Unreadable { path: node.path }],
        Body::Directory(Some(nodes)) => trace_among(nodes@),
        Body::Directory(None) => Seq::empty(),
        Body::Symlink => Seq::empty(),
        Body::Other => seq![Met::Unsupported { path: node.path }],
        Body::Unclassified => Seq::empty(),
    }
}

/// What a walk meets among the entries of a directory: entry by entry in
/// listing order, each subdirectory in full before the entry after it.
pub open spec fn trace_among<P>(nodes: Seq<Node<P>>) -> Seq<Met<P>>
    decreases nodes, 1nat,
{
    if nodes.len() == 0 {
        Seq::empty()
    } else {
        trace_among(nodes.drop_last()) + trace_in(nodes.last())
    }
}

/// What a walk meets that starts at `root`. A root that is no directory, or
/// cannot be listed, gives nothing.
pub open spec fn trace_under<P>(root: Node<P>) -> Seq<Met<P>> {
    match root.body {
        Body::Directory(Some(nodes)) => trace_among(nodes@),
        _ => Seq::empty(),
    }
}

/// How far a walk gets: the place of the first file that cannot be read, or
/// the length of the trace where every file can.
pub open spec fn halt<P>(trace: Seq<Met<P>>) -> int
    decreases trace.len(),
{
    if trace.len() == 0 {
        0
    } else if halt(trace.drop_last()) < trace.len() - 1 {
        halt(trace.drop_last())
    } else if trace.last() is Unreadable {
        trace.len() - 1
    } else {
        trace.len() as int
    }
}

/// The files that were read, each with its fingerprint, in order.
pub open spec fn hashed<P>(trace: Seq<Met<P>>) -> Seq<Sighting<P>>
    decreases trace.len(),
{
    if trace.len() == 0 {
        Seq::empty()
    } else {
        match trace.last() {
            Met::File { path, content } => hashed(trace.drop_last()).push(
                Sighting { digest: sha256_hex(content), path },
            ),
            _ => hashed(trace.drop_last()),
        }
    }
}

/// The paths of the unsupported entries, in order.
pub open spec fn unsupported_in<P>(trace: Seq<Met<P>>) -> Seq<P>
    decreases trace.len(),
{
    if trace.len() == 0 {
        Seq::empty()
    } else {
        match trace.last() {
            Met::Unsupported { path } => unsupported_in(trace.drop_last()).push(path),
            _ => unsupported_in(trace.drop_last()),
        }
    }
}

/// The trace among two lists of entries, one after the other.
pub proof fn lemma_trace_among_add<P>(a: Seq<Node<P>>, b: Seq<Node<P>>)
    ensures
        trace_among(a + b) == trace_among(a) + trace_among(b),
    decreases b.len(),
{
    if b.len() > 0 {
        lemma_trace_among_add(a, b.drop_last());
        assert((a + b).drop_last() =~= a + b.drop_last());
    }
}

/// The trace among the first `k + 1` entries is the trace among the first
/// `k` and then the trace in the next.
pub proof fn lemma_trace_among_take<P>(nodes: Seq<Node<P>>, k: int)
    requires
        0 <= k < nodes.len(),
    ensures
        trace_among(nodes.take(k + 1)) == trace_among(nodes.take(k)) + trace_in(nodes[k]),
{
    assert(nodes.take(k + 1).drop_last() =~= nodes.take(k));
}

/// The trace among all entries: among those before the entry `k`, in that
/// entry, and among those after it.
pub proof fn lemma_trace_among_at<P>(nodes: Seq<Node<P>>, k: int)
    requires
        0 <= k < nodes.len(),
    ensures
        trace_among(nodes) == trace_among(nodes.take(k)) + trace_in(nodes[k]) + trace_among(
            nodes.skip(k + 1),
        ),
{
    lemma_trace_among_take(nodes, k);
    lemma_trace_among_add(nodes.take(k + 1), nodes.skip(k + 1));
    assert(nodes =~= nodes.take(k + 1) + nodes.skip(k + 1));
}

/// The halt is a place in the trace or its length; before it every file was
/// read, and at it stands a file that cannot be.
pub proof fn lemma_halt<P>(trace: Seq<Met<P>>)
    ensures
        0 <= halt(trace) <= trace.len(),
        forall|i: int| 0 <= i < halt(trace) ==> !(trace[i] is Unreadable),
        halt(trace) < trace.len() ==> trace[halt(trace)] is Unreadable,
    decreases trace.len(),
{
    if trace.len() > 0 {
        lemma_halt(trace.drop_last());
        assert forall|i: int| 0 <= i < halt(trace) implies !(trace[i] is Unreadable) by {
            if i < trace.len() - 1 {
                assert(trace.drop_last()[i] == trace[i]);
            }
        }
    }
}

/// The halt of two traces, one after the other: that of the first where it
/// halts, else that of the second, counted from the start.
pub proof fn lemma_halt_add<P>(a: Seq<Met<P>>, b: Seq<Met<P>>)
    ensures
        halt(a + b) == if halt(a) < a.len() {
            halt(a)
        } else {
            a.len() + halt(b)
        },
    decreases b.len(),
{
    if b.len() > 0 {
        lemma_halt_add(a, b.drop_last());
        assert((a + b).drop_last() =~= a + b.drop_last());
    }
}

/// The files read in two traces, one after the other.
pub proof fn lemma_hashed_add<P>(a: Seq<Met<P>>, b: Seq<Met<P>>)
    ensures
        hashed(a + b) == hashed(a) + hashed(b),
    decreases b.len(),
{
    if b.len() > 0 {
        lemma_hashed_add(a, b.drop_last());
        assert((a + b).drop_last() =~= a + b.drop_last());
    }
}

/// The unsupported entries in two traces, one after the other.
pub proof fn lemma_unsupported_add<P>(a: Seq<Met<P>>, b: Seq<Met<P>>)
    ensures
        unsupported_in(a + b) == unsupported_in(a) + unsupported_in(b),
    decreases b.len(),
{
    if b.len() > 0 {
        lemma_unsupported_add(a, b.drop_last());
        assert((a + b).drop_last() =~= a + b.drop_last());
    }
}

/// What a trace of one thing comes to.
pub proof fn lemma_one_met<P>(met: Met<P>)
    ensures
        hashed(seq![met]) == match met {
            Met::File { path, content } => seq![Sighting { digest: sha256_hex(content), path }],
            _ => Seq::empty(),
        },
        unsupported_in(seq![met]) == match met {
            Met::Unsupported { path } => seq![path],
            _ => Seq::empty(),
        },
        halt(seq![met]) == if met is Unreadable {
            0int
        } else {
            1int
        },
{
    reveal_with_fuel(hashed, 2);
    reveal_with_fuel(unsupported_in, 2);
    reveal_with_fuel(halt, 2);
}

} // verus!
