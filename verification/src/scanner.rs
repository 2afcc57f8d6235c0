//! The walk over a directory tree, as a step machine.
//!
//! The scanner never touches the file system. It names the directory whose
//! listing it needs, or the file whose bytes it needs, and is told with an
//! [`Event`] what came back. Whoever drives it does the listing and reading.

use vstd::prelude::*;
use crate::digest::hex_digest;
use crate::digest::sha256_hex;
use crate::groups::Grouping;
use crate::groups::ScanResult;

verus! {

/// What a directory entry turned out to be.
#[derive(Clone, Copy, Debug, PartialEq, Eq, Structural)]
pub enum Kind {
    /// A regular file: it is read and fingerprinted.
    File,
    /// A directory: it is walked in turn.
    Directory,
    /// A symbolic link: it is never followed.
    Symlink,
    /// A device, socket, pipe or the like: it is reported and passed over.
    Other,
    /// An entry whose kind could not be found out: it is passed over.
    Unclassified,
}

impl Kind {
    /// The kind of an entry of which it is known whether it is a regular
    /// file, a directory or a symbolic link: the first of the three that it
    /// is, and [`Kind::Other`] where it is none.
    pub open spec fn classified(file: bool, directory: bool, symlink: bool) -> Kind {
        if file {
            Kind::File
        } else if directory {
            Kind::Directory
        } else if symlink {
            Kind::Symlink
        } else {
            Kind::Other
        }
    }

    /// Classifies an entry by what its metadata says.
    pub fn classify(file: bool, directory: bool, symlink: bool) -> (kind: Kind)
        ensures
            kind == Kind::classified(file, directory, symlink),
    {
        if file {
            Kind::File
        } else if directory {
            Kind::Directory
        } else if symlink {
            Kind::Symlink
        } else {
            Kind::Other
        }
    }
}

/// One entry of a directory listing.
#[derive(Debug)]
pub struct Entry<P> {
    pub path: P,
    pub kind: Kind,
}

/// What the scanner waits for, or how the scan ended.
#[derive(Debug)]
pub enum Phase<P> {
    /// The listing of this directory is needed.
    Listing(P),
    /// The bytes of this file are needed.
    Reading(P),
    /// The walk is over and the result is ready.
    Finished,
    /// This file could not be read: the scan is over without a result.
    Failed(P),
}

/// What came back from the work that the scanner waited for.
#[derive(Debug)]
pub enum Event<P> {
    /// The directory was listed; these are its entries, in listing order.
    Listed(Vec<Entry<P>>),
    /// The directory could not be listed.
    Unlistable,
    /// The file was read to its end; these are its bytes.
    Contents(Vec<u8>),
    /// The file could not be opened or read to its end.
    Unreadable,
}

/// The failure of a scan: a regular file that could not be read.
#[derive(Debug)]
pub struct ReadError<P> {
    pub path: P,
}

/// A directory that is being walked: what was found in it so far, and the
/// entries that are still to come.
pub struct Level<P> {
    pub found: Grouping<P>,
    pub rest: Seq<Entry<P>>,
}

/// What a [`Scanner`] stands for.
pub struct Machine<P> {
    /// The result, once the phase is [`Phase::Finished`]; empty before.
    pub found: Grouping<P>,
    /// The directories that are being walked, the innermost last.
    pub open: Seq<Level<P>>,
    pub phase: Phase<P>,
}

/// A machine after a move, with the unsupported entries that it passed over
/// on the way.
pub struct Moved<P> {
    pub machine: Machine<P>,
    pub unsupported: Seq<P>,
}

/// Whether an entry of this kind is passed over without any outside work.
pub open spec fn idle(kind: Kind) -> bool {
    kind is Symlink || kind is Other || kind is Unclassified
}

/// The entries from the first one that needs outside work.
pub open spec fn pending<P>(rest: Seq<Entry<P>>) -> Seq<Entry<P>>
    decreases rest.len(),
{
    if rest.len() > 0 && idle(rest.first().kind) {
        pending(rest.drop_first())
    } else {
        rest
    }
}

/// The paths of the unsupported entries that stand before the first entry
/// that needs outside work.
pub open spec fn passed_over<P>(rest: Seq<Entry<P>>) -> Seq<P>
    decreases rest.len(),
{
    if rest.len() > 0 && idle(rest.first().kind) {
        if rest.first().kind is Other {
            seq![rest.first().path] + passed_over(rest.drop_first())
        } else {
            passed_over(rest.drop_first())
        }
    } else {
        Seq::empty()
    }
}

impl<P> Machine<P> {
    /// The machine before its first step: it needs the listing of `root`.
    pub open spec fn start(root: P) -> Self {
        Machine { found: Grouping::empty(), open: Seq::empty(), phase: Phase::Listing(root) }
    }

    /// The machine after a file could not be read: all that was found is gone.
    pub open spec fn failed(path: P) -> Self {
        Machine { found: Grouping::empty(), open: Seq::empty(), phase: Phase::Failed(path) }
    }

    /// What holds of a machine between any two steps: a file is only awaited
    /// in an open directory, no directory is open once the scan is over, and
    /// there is no result before the walk is over.
    pub open spec fn sound(self) -> bool {
        match self.phase {
            Phase::Listing(_) => self.found == Grouping::<P>::empty(),
            Phase::Reading(_) => self.open.len() > 0 && self.found == Grouping::<P>::empty(),
            Phase::Finished => self.open.len() == 0,
            Phase::Failed(_) => self.open.len() == 0 && self.found == Grouping::<P>::empty(),
        }
    }
}

/// The machine goes on by itself until it needs outside work or is done.
///
/// In the innermost directory it passes over the entries that need no work.
/// At a file or a directory it stops and asks. At the end of a directory it
/// merges what was found there into what was found in the directory above,
/// and goes on there; at the end of the outermost one the result is ready.
pub open spec fn resume<P>(found: Grouping<P>, open: Seq<Level<P>>) -> Moved<P>
    decreases open.len(),
{
    if open.len() == 0 {
        Moved { machine: Machine { found, open, phase: Phase::Finished }, unsupported: Seq::empty() }
    } else {
        let top = open.last();
        let below = open.drop_last();
        let next = pending(top.rest);
        if next.len() > 0 {
            Moved {
                machine: Machine {
                    found,
                    open: below.push(Level { found: top.found, rest: next.drop_first() }),
                    phase: if next.first().kind is File {
                        Phase::Reading(next.first().path)
                    } else {
                        Phase::Listing(next.first().path)
                    },
                },
                unsupported: passed_over(top.rest),
            }
        } else if below.len() == 0 {
            Moved {
                machine: Machine { found: top.found, open: below, phase: Phase::Finished },
                unsupported: passed_over(top.rest),
            }
        } else {
            let parent = below.last();
            let merged = Level { found: parent.found.merged(top.found), rest: parent.rest };
            let after = resume(found, below.drop_last().push(merged));
            Moved {
                machine: after.machine,
                unsupported: passed_over(top.rest) + after.unsupported,
            }
        }
    }
}

/// Whether the machine waits for an event of this shape. (A sound machine
/// that waits for a file has a directory open: the test on `open` only says
/// what becomes of an event where none is.)
pub open spec fn awaited<P>(m: Machine<P>, event: Event<P>) -> bool {
    match m.phase {
        Phase::Listing(_) => event is Listed || event is Unlistable,
        Phase::Reading(_) => (event is Contents && m.open.len() > 0) || event is Unreadable,
        _ => false,
    }
}

/// One step of the machine: what it becomes when it is told `event`.
///
/// A listing opens a directory; a directory that cannot be listed counts for
/// nothing. The bytes of a file are fingerprinted and the file is recorded in
/// the innermost directory; a file that cannot be read ends the scan and
/// discards all that was found. An event that is not awaited changes nothing.
pub open spec fn next<P>(m: Machine<P>, event: Event<P>) -> Moved<P> {
    if !awaited(m, event) {
        Moved { machine: m, unsupported: Seq::empty() }
    } else {
        match event {
            Event::Listed(entries) => resume(
                m.found,
                m.open.push(Level { found: Grouping::empty(), rest: entries@ }),
            ),
            Event::Unlistable => resume(m.found, m.open),
            Event::Contents(bytes) => resume(
                m.found,
                m.open.drop_last().push(
                    Level {
                        found: m.open.last().found.recorded(sha256_hex(bytes@), m.phase->Reading_0),
                        rest: m.open.last().rest,
                    },
                ),
            ),
            Event::Unreadable => Moved {
                machine: Machine::failed(m.phase->Reading_0),
                unsupported: Seq::empty(),
            },
        }
    }
}

/// Going on leaves the machine sound.
pub proof fn lemma_resume_sound<P>(open: Seq<Level<P>>)
    ensures
        resume(Grouping::<P>::empty(), open).machine.sound(),
    decreases open.len(),
{
    if open.len() > 1 && pending(open.last().rest).len() == 0 {
        let below = open.drop_last();
        let parent = below.last();
        let merged = Level { found: parent.found.merged(open.last().found), rest: parent.rest };
        lemma_resume_sound(below.drop_last().push(merged));
    }
}

/// The machine is sound at its start.
pub proof fn law_start_is_sound<P>(root: P)
    ensures
        Machine::start(root).sound(),
{
}

/// Every step leaves a sound machine sound, whatever it is told.
pub proof fn law_step_keeps_sound<P>(m: Machine<P>, event: Event<P>)
    requires
        m.sound(),
    ensures
        next(m, event).machine.sound(),
{
    if awaited(m, event) {
        match event {
            Event::Listed(entries) => {
                lemma_resume_sound(m.open.push(Level { found: Grouping::empty(), rest: entries@ }));
            },
            Event::Unlistable => {
                lemma_resume_sound(m.open);
            },
            Event::Contents(bytes) => {
                lemma_resume_sound(
                    m.open.drop_last().push(
                        Level {
                            found: m.open.last().found.recorded(
                                sha256_hex(bytes@),
                                m.phase->Reading_0,
                            ),
                            rest: m.open.last().rest,
                        },
                    ),
                );
            },
            Event::Unreadable => {},
        }
    }
}

/// A directory that is being walked. The entries still to come are kept in
/// reverse, so that the next one is taken from the end.
struct Frame<P> {
    found: ScanResult<P>,
    rest: Vec<Entry<P>>,
}

/// What a frame stands for: its entries in listing order again.
spec fn level_of<P>(frame: Frame<P>) -> Level<P> {
    Level { found: frame.found@, rest: frame.rest@.reverse() }
}

/// What a stack of frames stands for.
spec fn levels_of<P>(frames: Seq<Frame<P>>) -> Seq<Level<P>> {
    Seq::new(frames.len(), |i: int| level_of(frames[i]))
}

/// A frame more on the stack is a level more.
proof fn lemma_levels_push<P>(frames: Seq<Frame<P>>, frame: Frame<P>)
    ensures
        levels_of(frames.push(frame)) == levels_of(frames).push(level_of(frame)),
{
}

/// A frame taken from the stack is a level less.
proof fn lemma_levels_pop<P>(frames: Seq<Frame<P>>)
    requires
        frames.len() > 0,
    ensures
        levels_of(frames.drop_last()) == levels_of(frames).drop_last(),
        level_of(frames.last()) == levels_of(frames).last(),
{
}

/// The scanner: a walk over one directory tree, between two steps.
pub struct Scanner<P> {
    found: ScanResult<P>,
    open: Vec<Frame<P>>,
    phase: Phase<P>,
}

impl<P> View for Scanner<P> {
    type V = Machine<P>;

    closed spec fn view(&self) -> Machine<P> {
        Machine { found: self.found@, open: levels_of(self.open@), phase: self.phase }
    }
}

/// Turns a listing round, so that its first entry is the last.
fn reversed<P>(entries: Vec<Entry<P>>) -> (turned: Vec<Entry<P>>)
    ensures
        turned@ == entries@.reverse(),
{
    let ghost all = entries@;
    let mut from = entries;
    let mut turned: Vec<Entry<P>> = Vec::new();
    loop
        invariant_except_break
            from@.len() + turned@.len() == all.len(),
            forall|j: int| 0 <= j < turned@.len() ==> turned@[j] == all[all.len() - 1 - j],
            from@ == all.take(from@.len() as int),
        ensures
            turned@.len() == all.len(),
            forall|j: int| 0 <= j < turned@.len() ==> turned@[j] == all[all.len() - 1 - j],
        decreases from@.len(),
    {
        match from.pop() {
            Some(entry) => {
                turned.push(entry);
            },
            None => {
                break ;
            },
        }
    }
    turned
}

/// Takes entries from the end of `rest` up to the first one that needs
/// outside work, which it returns. The unsupported ones among those it
/// passes over go to `unsupported`.
fn advance<P>(rest: &mut Vec<Entry<P>>, unsupported: &mut Vec<P>) -> (next: Option<Entry<P>>)
    ensures
        final(unsupported)@ == old(unsupported)@ + passed_over(old(rest)@.reverse()),
        match next {
            Some(entry) => {
                &&& pending(old(rest)@.reverse()).len() > 0
                &&& entry == pending(old(rest)@.reverse()).first()
                &&& final(rest)@.reverse() == pending(old(rest)@.reverse()).drop_first()
            },
            None => pending(old(rest)@.reverse()).len() == 0,
        },
{
    let ghost all = rest@.reverse();
    let ghost reported = unsupported@;
    let mut next: Option<Entry<P>> = None;
    loop
        invariant_except_break
            next is None,
            pending(rest@.reverse()) == pending(all),
            unsupported@ + passed_over(rest@.reverse()) == reported + passed_over(all),
        ensures
            unsupported@ == reported + passed_over(all),
            match next {
                Some(entry) => {
                    &&& pending(all).len() > 0
                    &&& entry == pending(all).first()
                    &&& rest@.reverse() == pending(all).drop_first()
                },
                None => pending(all).len() == 0,
            },
        decreases rest@.len(),
    {
        let ghost here = rest@.reverse();
        match rest.pop() {
            None => {
                break ;
            },
            Some(entry) => {
                assert(rest@.reverse() =~= here.drop_first());
                match entry.kind {
                    Kind::File | Kind::Directory => {
                        next = Some(entry);
                        break ;
                    },
                    Kind::Other => {
                        unsupported.push(entry.path);
                    },
                    Kind::Symlink | Kind::Unclassified => {},
                }
            },
        }
    }
    next
}

impl<P> Scanner<P> {
    /// A scanner for the tree under `root`. It begins by asking for the
    /// listing of `root`.
    pub fn new(root: P) -> (scanner: Self)
        ensures
            scanner@ == Machine::start(root),
    {
        let scanner = Scanner {
            found: ScanResult::new(),
            open: Vec::new(),
            phase: Phase::Listing(root),
        };
        assert(levels_of(scanner.open@) =~= Seq::empty());
        scanner
    }

    /// What the scanner waits for.
    pub fn phase(&self) -> (phase: &Phase<P>)
        ensures
            *phase == self@.phase,
    {
        &self.phase
    }

    /// Goes on until outside work is needed or the walk is over.
    fn resume(&mut self, unsupported: &mut Vec<P>)
        ensures
            final(self)@ == resume(old(self)@.found, old(self)@.open).machine,
            final(unsupported)@ == old(unsupported)@ + resume(
                old(self)@.found,
                old(self)@.open,
            ).unsupported,
    {
        let ghost goal = resume(self@.found, self@.open);
        let ghost reported = unsupported@;
        loop
            invariant_except_break
                resume(self@.found, self@.open).machine == goal.machine,
                unsupported@ + resume(self@.found, self@.open).unsupported == reported
                    + goal.unsupported,
            ensures
                self@ == goal.machine,
                unsupported@ == reported + goal.unsupported,
            decreases self.open@.len(),
        {
            let ghost frames = self.open@;
            match self.open.pop() {
                None => {
                    self.phase = Phase::Finished;
                    break ;
                },
                Some(frame) => {
                    proof {
                        lemma_levels_pop(frames);
                    }
                    let mut frame = frame;
                    match advance(&mut frame.rest, unsupported) {
                        Some(entry) => {
                            proof {
                                lemma_levels_push(frames.drop_last(), frame);
                            }
                            self.open.push(frame);
                            match entry.kind {
                                Kind::File => {
                                    self.phase = Phase::Reading(entry.path);
                                },
                                _ => {
                                    self.phase = Phase::Listing(entry.path);
                                },
                            }
                            break ;
                        },
                        None => {
                            match self.open.pop() {
                                None => {
                                    self.found = frame.found;
                                    self.phase = Phase::Finished;
                                    break ;
                                },
                                Some(parent) => {
                                    proof {
                                        lemma_levels_pop(frames.drop_last());
                                    }
                                    let mut parent = parent;
                                    parent.found.merge(frame.found);
                                    proof {
                                        lemma_levels_push(frames.drop_last().drop_last(), parent);
                                    }
                                    self.open.push(parent);
                                },
                            }
                        },
                    }
                },
            }
        }
    }

    /// Tells the scanner what came back, and returns the paths of the
    /// unsupported entries that it passed over in going on: each is to be
    /// reported. What the scanner needs next is its [`Scanner::phase`].
    pub fn step(&mut self, event: Event<P>) -> (unsupported: Vec<P>)
        ensures
            final(self)@ == next(old(self)@, event).machine,
            unsupported@ == next(old(self)@, event).unsupported,
    {
        let mut unsupported: Vec<P> = Vec::new();
        let mut phase = Phase::Finished;
        std::mem::swap(&mut phase, &mut self.phase);
        let ghost frames = self.open@;
        match (phase, event) {
            (Phase::Listing(_), Event::Listed(entries)) => {
                let frame = Frame { found: ScanResult::new(), rest: reversed(entries) };
                proof {
                    assert(entries@.reverse().reverse() =~= entries@);
                    lemma_levels_push(frames, frame);
                }
                self.open.push(frame);
                self.resume(&mut unsupported);
            },
            (Phase::Listing(_), Event::Unlistable) => {
                self.resume(&mut unsupported);
            },
            (Phase::Reading(path), Event::Contents(bytes)) => {
                match self.open.pop() {
                    Some(frame) => {
                        let mut frame = frame;
                        let digest = hex_digest(bytes.as_slice());
                        frame.found.record(digest, path);
                        proof {
                            lemma_levels_pop(frames);
                            lemma_levels_push(frames.drop_last(), frame);
                        }
                        self.open.push(frame);
                        self.resume(&mut unsupported);
                    },
                    None => {
                        self.phase = Phase::Reading(path);
                    },
                }
            },
            (Phase::Reading(path), Event::Unreadable) => {
                self.found = ScanResult::new();
                self.open = Vec::new();
                self.phase = Phase::Failed(path);
                proof {
                    assert(levels_of(self.open@) =~= Seq::empty());
                }
            },
            (phase, _) => {
                self.phase = phase;
            },
        }
        unsupported
    }

    /// Ends the scan: the result if the walk is over, the failure if a file
    /// could not be read, nothing while the scanner still waits.
    pub fn into_result(self) -> (result: Option<Result<ScanResult<P>, ReadError<P>>>)
        ensures
            match self@.phase {
                Phase::Finished => result matches Some(Ok(found)) && found@ == self@.found,
                Phase::Failed(path) => result matches Some(Err(error)) && error.path == path,
                _ => result is None,
            },
    {
        match self.phase {
            Phase::Finished => Some(Ok(self.found)),
            Phase::Failed(path) => Some(Err(ReadError { path })),
            _ => None,
        }
    }
}

} // verus!
