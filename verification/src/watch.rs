//! The watcher's decisions: which changes call for a rescan, and how a
//! storm of them is folded into one request.

use vstd::prelude::*;

verus! {

/// The kinds of change that the filesystem reports.
#[derive(Debug, Clone, Copy, PartialEq, Eq, Structural)]
pub enum ChangeKind {
    Any,
    Access,
    Create,
    Modify,
    Remove,
    Other,
}

/// Whether a change of this kind can alter the tree: something was
/// created, modified or removed.
pub open spec fn calls_for_rescan(kind: ChangeKind) -> bool {
    kind == ChangeKind::Create || kind == ChangeKind::Modify || kind == ChangeKind::Remove
}

/// Whether a change of this kind is answered with a rescan.
pub fn triggers_rescan(kind: ChangeKind) -> (r: bool)
    ensures
        r == calls_for_rescan(kind),
{
    match kind {
        ChangeKind::Create => true,
        ChangeKind::Modify => true,
        ChangeKind::Remove => true,
        _ => false,
    }
}

/// The request for a rescan that travels from the watching side to the
/// scanning side. It says that something changed, not how often: changes
/// that come in before the scanner has looked make one request.
#[derive(Debug)]
pub struct RescanSignal {
    pending: bool,
}

/// Whether a rescan is due after the changes `events`, given whether one
/// was due before.
pub open spec fn due_after(due: bool, events: Seq<ChangeKind>) -> bool
    decreases events.len(),
{
    if events.len() == 0 {
        due
    } else {
        due_after(due, events.drop_last()) || calls_for_rescan(events.last())
    }
}

impl View for RescanSignal {
    type V = bool;

    /// Whether a rescan is due.
    closed spec fn view(&self) -> bool {
        self.pending
    }
}

impl RescanSignal {
    /// A signal with no rescan due.
    pub fn new() -> (r: RescanSignal)
        ensures
            !r@,
    {
        RescanSignal { pending: false }
    }

    /// Takes note of one change. Returns whether the scanner has to be
    /// woken: the change calls for a rescan and none was due yet.
    pub fn record(&mut self, kind: ChangeKind) -> (wake: bool)
        ensures
            final(self)@ == (old(self)@ || calls_for_rescan(kind)),
            wake == (!old(self)@ && calls_for_rescan(kind)),
    {
        if triggers_rescan(kind) && !self.pending {
            self.pending = true;
            true
        } else {
            false
        }
    }

    /// Picks the request up: returns whether a rescan is due, and leaves
    /// none due.
    pub fn take(&mut self) -> (due: bool)
        ensures
            due == old(self)@,
            !final(self)@,
    {
        let due = self.pending;
        self.pending = false;
        due
    }
}

/// However many changes come in between two looks of the scanner, one
/// rescan is due if any of them calls for one, and none otherwise.
pub proof fn lemma_changes_coalesce(events: Seq<ChangeKind>)
    ensures
        due_after(false, events) == exists|i: int|
            0 <= i < events.len() && calls_for_rescan(#[trigger] events[i]),
    decreases events.len(),
{
    if events.len() > 0 {
        let init = events.drop_last();
        lemma_changes_coalesce(init);
        if due_after(false, init) {
            let i = choose|i: int| 0 <= i < init.len() && calls_for_rescan(#[trigger] init[i]);
            assert(calls_for_rescan(events[i]));
        }
        if calls_for_rescan(events.last()) {
            assert(calls_for_rescan(events[events.len() - 1]));
        }
        if exists|i: int| 0 <= i < events.len() && calls_for_rescan(#[trigger] events[i]) {
            let i = choose|i: int| 0 <= i < events.len() && calls_for_rescan(#[trigger] events[i]);
            if i < init.len() {
                assert(calls_for_rescan(init[i]));
            }
        }
    }
}

} // verus!
