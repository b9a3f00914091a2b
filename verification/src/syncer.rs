//! Synchronizing to disk from another thread.

use crate::state::{lemma_file_of, SharedState, StateView};
use vstd::prelude::*;

verus! {

/// What a synchronization wants next.
pub enum SyncStep {
    /// The data file with this sequence number to be synchronized to disk. If it was
    /// removed meanwhile, there is nothing to do for it.
    SyncData(u64),
    /// Nothing: it is done.
    Done,
}

struct Pass {
    next_seq: u64,
    truncations: u64,
    files: Vec<u64>,
    pos: usize,
    again: bool,
}

/// A cross-thread synchronizing handler.
///
/// It can be sent to a different thread and used to perform synchronization there, so
/// that the writer does not stall on slow storage.
pub struct SeqLogSyncer {
    pass: Option<Pass>,
}

/// A synchronization that is under way.
#[verifier::ext_equal]
pub struct PassView {
    /// Up to where entries are synchronized once all files were.
    pub next_seq: u64,
    /// How often entries had been truncated when it began.
    pub truncations: u64,
    /// The files to synchronize.
    pub files: Seq<u64>,
    /// How many of them were asked for.
    pub pos: nat,
    /// Whether files that are rotated in meanwhile are to be synchronized too.
    pub again: bool,
}

#[verifier::ext_equal]
pub struct SyncerView {
    pub pass: Option<PassView>,
}

impl View for Pass {
    type V = PassView;

    closed spec fn view(&self) -> PassView {
        PassView {
            next_seq: self.next_seq,
            truncations: self.truncations,
            files: self.files@,
            pos: self.pos as nat,
            again: self.again,
        }
    }
}

impl View for SeqLogSyncer {
    type V = SyncerView;

    closed spec fn view(&self) -> SyncerView {
        SyncerView {
            pass: match self.pass {
                Some(p) => Some(p@),
                None => None,
            },
        }
    }
}

impl PassView {
    /// Files are asked for in order, the first one right away.
    pub open spec fn wf(self) -> bool {
        0 < self.pos <= self.files.len()
    }

    /// The synchronization of all entries from `from` on, with the first file asked
    /// for. The next sequence number is taken before a file is synchronized.
    pub open spec fn over(state: StateView, from: u64, again: bool) -> PassView {
        PassView {
            next_seq: state.next_seq,
            truncations: state.truncations,
            files: state.files_since(from),
            pos: 1,
            again,
        }
    }

    /// The files that are not yet asked for.
    pub open spec fn rest(self) -> Seq<u64> {
        self.files.skip(self.pos as int)
    }
}

/// A syncer with this synchronization under way, which asks for the last file that is
/// counted as asked for.
pub open spec fn under_way(pass: PassView, state: StateView) -> (SyncerView, StateView, SyncStep) {
    (SyncerView { pass: Some(pass) }, state, SyncStep::SyncData(pass.files[pass.pos - 1]))
}

impl SyncerView {
    pub open spec fn wf(self) -> bool {
        self.pass matches Some(p) ==> p.wf()
    }

    /// What comes next: the syncer and the shared state after it, and what it wants.
    ///
    /// All files with entries that are not yet synchronized are asked for, and then,
    /// once, those with entries that came in meanwhile, if there was a rotation. How
    /// far entries are synchronized is stored last. Where entries were truncated
    /// meanwhile, those that were synchronized may be gone, and all starts over.
    pub open spec fn step(self, state: StateView) -> (SyncerView, StateView, SyncStep) {
        match self.pass {
            None => under_way(PassView::over(state, state.sync_seq, true), state),
            Some(p) => if p.pos < p.files.len() {
                under_way(PassView { pos: p.pos + 1, ..p }, state)
            } else if p.truncations != state.truncations {
                under_way(PassView::over(state, state.sync_seq, true), state)
            } else if p.again && p.files.last() != state.files.last() {
                under_way(PassView::over(state, p.next_seq, false), state)
            } else {
                (
                    SyncerView { pass: None },
                    StateView { sync_seq: p.next_seq, ..state },
                    SyncStep::Done,
                )
            },
        }
    }
}

impl Pass {
    fn over(state: &SharedState, from: u64, again: bool) -> (p: Pass)
        requires
            state@.wf(),
        ensures
            p@ == PassView::over(state@, from, again),
            p@.wf(),
    {
        Pass {
            next_seq: state.next_seq(),
            truncations: state.truncations(),
            files: state.files_since(from),
            pos: 1,
            again,
        }
    }
}

impl SeqLogSyncer {
    pub(crate) fn new() -> (s: SeqLogSyncer)
        ensures
            s@ == (SyncerView { pass: None }),
    {
        SeqLogSyncer { pass: None }
    }

    /// Synchronize data to disk: called again each time what it asked for was done,
    /// until it is `Done`.
    pub fn sync(&mut self, state: &mut SharedState) -> (step: SyncStep)
        requires
            old(self)@.wf(),
            old(state)@.wf(),
        ensures
            (final(self)@, final(state)@, step) == old(self)@.step(old(state)@),
            final(self)@.wf(),
            final(state).handles() == old(state).handles(),
    {
        let next = match self.pass.take() {
            None => {
                let from: u64 = state.sync_seq();
                Pass::over(state, from, true)
            },
            Some(mut p) => {
                if p.pos < p.files.len() {
                    p.pos = p.pos + 1;
                    p
                } else if p.truncations != state.truncations() {
                    // what was synchronized may be gone
                    let from: u64 = state.sync_seq();
                    Pass::over(state, from, true)
                } else if p.again && p.files[p.files.len() - 1] != state.last_file() {
                    // new file rotated
                    Pass::over(state, p.next_seq, false)
                } else {
                    // store sync_seq after the files were synchronized
                    state.set_sync_seq(p.next_seq);
                    return SyncStep::Done;
                }
            },
        };
        let file: u64 = next.files[next.pos - 1];
        self.pass = Some(next);
        SyncStep::SyncData(file)
    }

    /// Takes up that a file could not be synchronized: nothing is stored.
    pub fn failed(&mut self)
        ensures
            final(self)@ == (SyncerView { pass: None }),
    {
        self.pass = None;
    }
}

/// What the last of some steps comes to, when the shared state is that of `states` at
/// each of them.
pub open spec fn run(syncer: SyncerView, states: Seq<StateView>) -> (SyncerView, StateView, SyncStep)
    decreases states.len(),
{
    if states.len() <= 1 {
        syncer.step(states[0])
    } else {
        run(syncer, states.drop_last()).0.step(states.last())
    }
}

/// A synchronization asks for every data file with entries that are not yet
/// synchronized, in order, whatever becomes of the shared state meanwhile: all from the
/// one on that the first such entry is in. After that it is done, unless files were
/// rotated in or entries truncated, and all entries are synchronized that were appended
/// when it began.
pub proof fn sync_asks_for_all(syncer: SyncerView, states: Seq<StateView>)
    requires
        syncer.pass is None,
        states.len() > 0,
        states[0].wf(),
    ensures
        ({
            let files = states[0].files_since(states[0].sync_seq);
            &&& files.len() > 0
            &&& files.last() == states[0].files.last()
            &&& forall|k: int|
                0 < k <= states.len() && k <= files.len() ==> (#[trigger] run(
                    syncer,
                    states.take(k),
                )).2 == SyncStep::SyncData(files[k - 1])
            &&& states.len() == files.len() + 1 && states.last().truncations
                == states[0].truncations && states.last().files.last() == states[0].files.last()
                ==> {
                &&& run(syncer, states).2 is Done
                &&& run(syncer, states).1.sync_seq == states[0].next_seq
            }
        }),
{
    lemma_file_of(states[0].files, states[0].sync_seq);
    let files = states[0].files_since(states[0].sync_seq);
    assert forall|k: int| 0 < k <= states.len() && k <= files.len() implies (#[trigger] run(
        syncer,
        states.take(k),
    )).2 == SyncStep::SyncData(files[k - 1]) by {
        lemma_asks(syncer, states, k);
    }
    if states.len() == files.len() + 1 {
        lemma_asks(syncer, states, files.len() as int);
        assert(states.drop_last() =~= states.take(files.len() as int));
    }
}

proof fn lemma_asks(syncer: SyncerView, states: Seq<StateView>, k: int)
    requires
        syncer.pass is None,
        0 < k <= states.len(),
        k <= states[0].files_since(states[0].sync_seq).len(),
    ensures
        ({
            let pass = PassView {
                pos: k as nat,
                ..PassView::over(states[0], states[0].sync_seq, true)
            };
            run(syncer, states.take(k)) == under_way(pass, states[k - 1])
        }),
    decreases k,
{
    if k > 1 {
        lemma_asks(syncer, states, k - 1);
        assert(states.take(k).drop_last() =~= states.take(k - 1));
    }
}

/// A synchronization covers all entries that were appended before it began, and none
/// that were not appended by its end, however much is appended and rotated meanwhile:
/// `states` is the shared state at its steps.
pub proof fn sync_covers(syncer: SyncerView, states: Seq<StateView>)
    requires
        syncer.pass is None,
        states.len() > 0,
        forall|i: int, j: int|
            0 <= i <= j < states.len() ==> states[i].next_seq <= states[j].next_seq,
    ensures
        run(syncer, states).2 is Done ==> states[0].next_seq <= run(syncer, states).1.sync_seq
            <= states.last().next_seq,
        run(syncer, states).0.pass matches Some(p) ==> states[0].next_seq <= p.next_seq
            <= states.last().next_seq,
    decreases states.len(),
{
    if states.len() > 1 {
        sync_covers(syncer, states.drop_last());
    }
}

} // verus!
