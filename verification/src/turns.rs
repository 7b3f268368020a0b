//! Two replacements of one path, step by step.
//!
//! Each request asks for the lock of the path, waits if it has to, and
//! while it holds the lock removes the old file, writes its own bytes and
//! patches the node; then it gives the lock up. The steps of the two
//! requests may come in any order. This module says what every such
//! order leads to.

use vstd::prelude::*;
use crate::locks::{
    acquire_answer,
    after_acquire,
    after_release,
    queue_of,
    woken_by_release,
    Acquired,
    LockState,
};

verus! {

/// How far a request has come.
pub enum Phase {
    /// It has not asked for the lock yet.
    Idle,
    /// It waits for the lock.
    Waiting,
    /// It holds the lock and has done so many of its three steps: it has
    /// removed the old file, written its bytes, patched the node.
    Holding(nat),
    /// It has given the lock up.
    Done,
}

/// One request to replace the file.
pub struct Replacement {
    /// The bytes that it brings.
    pub body: Seq<u8>,
    pub phase: Phase,
    /// Its ticket, once it has asked for the lock.
    pub ticket: u64,
}

/// The two requests and what they work on.
pub struct Race {
    pub locks: LockState,
    pub a: Replacement,
    pub b: Replacement,
    /// What the file held before either request came.
    pub old: Option<Seq<u8>>,
    /// The bytes of the file; `None` while there is no file.
    pub file: Option<Seq<u8>>,
    /// The size that the node in the tree shows.
    pub size: Option<nat>,
}

/// The request that moves: `a` if `first`, else `b`.
pub open spec fn mover(w: Race, first: bool) -> Replacement {
    if first {
        w.a
    } else {
        w.b
    }
}

/// The request that does not move.
pub open spec fn bystander(w: Race, first: bool) -> Replacement {
    if first {
        w.b
    } else {
        w.a
    }
}

/// The race with the two requests as given.
pub open spec fn with_requests(
    w: Race,
    first: bool,
    mover: Replacement,
    bystander: Replacement,
) -> Race {
    if first {
        Race { a: mover, b: bystander, ..w }
    } else {
        Race { a: bystander, b: mover, ..w }
    }
}

/// One step of one request on the lock and the file of `path`.
///
/// A request that has not asked yet asks for the lock and holds it or
/// waits. A request that waits does nothing until it is woken. A request
/// that holds the lock does its next step: it removes the old file, then
/// writes its bytes, then patches the node, then gives the lock up and
/// wakes the request that waited for it.
pub open spec fn step(w: Race, path: Seq<char>, first: bool) -> Race {
    let me = mover(w, first);
    let you = bystander(w, first);
    match me.phase {
        Phase::Idle => match acquire_answer(w.locks, path) {
            Acquired::Granted(t) => with_requests(
                Race { locks: after_acquire(w.locks, path), ..w },
                first,
                Replacement { phase: Phase::Holding(0), ticket: t, ..me },
                you,
            ),
            Acquired::Queued(t) => with_requests(
                Race { locks: after_acquire(w.locks, path), ..w },
                first,
                Replacement { phase: Phase::Waiting, ticket: t, ..me },
                you,
            ),
            Acquired::Exhausted => w,
        },
        Phase::Waiting => w,
        Phase::Holding(done) => if done == 0 {
            with_requests(
                Race { file: None, ..w },
                first,
                Replacement { phase: Phase::Holding(1), ..me },
                you,
            )
        } else if done == 1 {
            with_requests(
                Race { file: Some(me.body), ..w },
                first,
                Replacement { phase: Phase::Holding(2), ..me },
                you,
            )
        } else if done == 2 {
            with_requests(
                Race { size: Some(me.body.len()), ..w },
                first,
                Replacement { phase: Phase::Holding(3), ..me },
                you,
            )
        } else {
            let woken = woken_by_release(w.locks, path, me.ticket);
            with_requests(
                Race { locks: after_release(w.locks, path, me.ticket), ..w },
                first,
                Replacement { phase: Phase::Done, ..me },
                if you.phase is Waiting && woken == Some(you.ticket) {
                    Replacement { phase: Phase::Holding(0), ..you }
                } else {
                    you
                },
            )
        },
        Phase::Done => w,
    }
}

/// The race after the steps of `schedule`, which names for each step the
/// request that moves.
pub open spec fn run(w: Race, path: Seq<char>, schedule: Seq<bool>) -> Race
    decreases schedule.len(),
{
    if schedule.len() == 0 {
        w
    } else {
        step(run(w, path, schedule.drop_last()), path, schedule.last())
    }
}

/// A race before its first step: nobody holds or waits for the path, both
/// requests are yet to ask, two tickets are left, and the file and the
/// node are as they were.
pub open spec fn at_start(w: Race, path: Seq<char>) -> bool {
    &&& queue_of(w.locks, path).len() == 0
    &&& w.locks.next < u64::MAX - 1
    &&& w.a.phase is Idle
    &&& w.b.phase is Idle
    &&& w.file == w.old
}

/// Whether the two requests work one after the other: never are both in
/// the middle of their steps.
pub open spec fn one_at_a_time(w: Race) -> bool {
    !(w.a.phase is Holding && w.b.phase is Holding)
}

/// Whether the file is whole: it is not there, or it holds what it held
/// before, or the bytes of one request, never a mix of the two.
pub open spec fn file_is_whole(w: Race) -> bool {
    w.file is None || w.file == w.old || w.file == Some(w.a.body) || w.file == Some(w.b.body)
}

/// Of two requests that are through, the one that got the lock second.
pub open spec fn second_holder(w: Race) -> Replacement {
    if w.a.ticket < w.b.ticket {
        w.b
    } else {
        w.a
    }
}

/// Whether, once both requests are through, the file holds the bytes of
/// the request that got the lock second, and the node shows their length.
pub open spec fn second_decides(w: Race) -> bool {
    w.a.phase is Done && w.b.phase is Done ==> w.file == Some(second_holder(w).body) && w.size
        == Some(second_holder(w).body.len())
}

/// The queue that the phases of the two requests call for.
pub open spec fn queue_by_phase(w: Race) -> Seq<u64> {
    if w.a.phase is Holding {
        if w.b.phase is Waiting {
            seq![w.a.ticket, w.b.ticket]
        } else {
            seq![w.a.ticket]
        }
    } else if w.b.phase is Holding {
        if w.a.phase is Waiting {
            seq![w.b.ticket, w.a.ticket]
        } else {
            seq![w.b.ticket]
        }
    } else {
        Seq::empty()
    }
}

/// How many of the two requests are yet to ask for the lock.
pub open spec fn idle_count(w: Race) -> nat {
    (if w.a.phase is Idle {
        1nat
    } else {
        0nat
    }) + (if w.b.phase is Idle {
        1nat
    } else {
        0nat
    })
}

/// What holds of one request beside the other at every moment of a race.
pub open spec fn in_step(w: Race, me: Replacement, you: Replacement) -> bool {
    &&& !(me.phase is Idle) ==> me.ticket < w.locks.next
    &&& me.phase is Waiting ==> you.phase is Holding && you.ticket < me.ticket
    &&& me.phase is Holding ==> !(you.phase is Holding)
    &&& me.phase is Holding && you.phase is Done ==> you.ticket < me.ticket
    &&& me.phase matches Phase::Holding(done) ==> {
        &&& done <= 3
        &&& done == 0 && you.phase is Done ==> w.file == Some(you.body) && w.size == Some(
            you.body.len(),
        )
        &&& done == 0 && !(you.phase is Done) ==> w.file == w.old
        &&& done == 1 ==> w.file is None
        &&& done >= 2 ==> w.file == Some(me.body)
        &&& done == 3 ==> w.size == Some(me.body.len())
    }
    &&& me.phase is Done && !(you.phase is Holding) && !(you.phase is Done) ==> w.file == Some(
        me.body,
    ) && w.size == Some(me.body.len())
}

/// What holds at every moment of a race on `path`.
pub open spec fn in_order(w: Race, path: Seq<char>) -> bool {
    &&& queue_of(w.locks, path) == queue_by_phase(w)
    &&& w.locks.next + idle_count(w) <= u64::MAX
    &&& in_step(w, w.a, w.b)
    &&& in_step(w, w.b, w.a)
    &&& !(w.a.phase is Idle) && !(w.b.phase is Idle) ==> w.a.ticket != w.b.ticket
    &&& w.a.phase is Idle && w.b.phase is Idle ==> w.file == w.old
    &&& second_decides(w)
}

/// After a request for the path the next ticket stands at the end of the
/// path's queue.
proof fn lemma_queue_after_acquire(s: LockState, path: Seq<char>)
    requires
        s.next < u64::MAX,
    ensures
        queue_of(after_acquire(s, path), path) == queue_of(s, path).push(s.next),
        after_acquire(s, path).next == s.next + 1,
{
}

/// After the holder's release the queue is what stood behind the holder,
/// and the ticket that stood there is woken.
proof fn lemma_queue_after_release(s: LockState, path: Seq<char>, holder: u64, rest: Seq<u64>)
    requires
        queue_of(s, path) == seq![holder] + rest,
        rest.len() <= 1,
        rest.len() == 1 ==> rest[0] != holder,
    ensures
        queue_of(after_release(s, path, holder), path) == rest,
        after_release(s, path, holder).next == s.next,
        woken_by_release(s, path, holder) == if rest.len() == 1 {
            Some(rest[0])
        } else {
            None
        },
{
    let queue = queue_of(s, path);
    assert(queue[0] == holder);
    assert(queue.contains(holder));
    let w = queue.index_of(holder);
    assert(0 <= w < queue.len() && queue[w] == holder);
    if w != 0 {
        assert(queue[w] == rest[w - 1]);
    }
    assert(queue.remove(0) =~= rest);
    if rest.len() == 1 {
        assert(queue[1] == rest[0]);
    }
    assert(queue_of(after_release(s, path, holder), path) =~= rest);
}

/// Every step of either request keeps the race in order.
pub proof fn lemma_step_keeps_order(w: Race, path: Seq<char>, first: bool)
    requires
        in_order(w, path),
    ensures
        in_order(step(w, path, first), path),
{
    let me = mover(w, first);
    let you = bystander(w, first);
    let after = step(w, path, first);
    assert(in_step(w, me, you) && in_step(w, you, me));
    match me.phase {
        Phase::Idle => {
            lemma_queue_after_acquire(w.locks, path);
            let queue = queue_of(w.locks, path);
            if you.phase is Holding {
                assert(queue =~= seq![you.ticket]);
                assert(queue.push(w.locks.next) =~= seq![you.ticket, w.locks.next]);
            } else {
                assert(queue =~= Seq::<u64>::empty());
                assert(queue.push(w.locks.next) =~= seq![w.locks.next]);
            }
        },
        Phase::Waiting => {},
        Phase::Holding(done) => {
            if done >= 3 {
                let rest = if you.phase is Waiting {
                    seq![you.ticket]
                } else {
                    Seq::<u64>::empty()
                };
                assert(queue_of(w.locks, path) =~= seq![me.ticket] + rest);
                lemma_queue_after_release(w.locks, path, me.ticket, rest);
                if you.phase is Waiting {
                    assert(rest[0] == you.ticket);
                }
            }
        },
        Phase::Done => {},
    }
    assert(in_step(after, mover(after, first), bystander(after, first)));
    assert(in_step(after, bystander(after, first), mover(after, first)));
}

/// A race is in order at its start.
pub proof fn lemma_start_is_in_order(w: Race, path: Seq<char>)
    requires
        at_start(w, path),
    ensures
        in_order(w, path),
{
    assert(queue_of(w.locks, path) =~= Seq::<u64>::empty());
}

/// Two replacements of one path, with their steps in any order: at every
/// moment at most one of them is at work on the file, the file is not
/// there or holds what it held before or the whole bytes of one request,
/// and once both are through the file holds the bytes of the request that
/// got the lock second and the node shows their length.
pub proof fn lemma_replacements_take_turns(start: Race, path: Seq<char>, schedule: Seq<bool>)
    requires
        at_start(start, path),
    ensures
        in_order(run(start, path, schedule), path),
        one_at_a_time(run(start, path, schedule)),
        file_is_whole(run(start, path, schedule)),
        second_decides(run(start, path, schedule)),
        run(start, path, schedule).a.body == start.a.body,
        run(start, path, schedule).b.body == start.b.body,
        run(start, path, schedule).old == start.old,
    decreases schedule.len(),
{
    if schedule.len() == 0 {
        lemma_start_is_in_order(start, path);
    } else {
        lemma_replacements_take_turns(start, path, schedule.drop_last());
        lemma_step_keeps_order(run(start, path, schedule.drop_last()), path, schedule.last());
    }
    lemma_order_means_turns(run(start, path, schedule), path);
}

/// A race that is in order has its requests at work one at a time, and
/// its file whole.
pub proof fn lemma_order_means_turns(w: Race, path: Seq<char>)
    requires
        in_order(w, path),
    ensures
        one_at_a_time(w),
        file_is_whole(w),
{
    assert(in_step(w, w.a, w.b) && in_step(w, w.b, w.a));
}

/// The phases of the request that moves and of the other one after a
/// step, by their phases before it.
pub open spec fn phases_after(me: Phase, you: Phase) -> (Phase, Phase) {
    match me {
        Phase::Idle => if you is Holding {
            (Phase::Waiting, you)
        } else {
            (Phase::Holding(0), you)
        },
        Phase::Waiting => (me, you),
        Phase::Holding(done) => if done < 3 {
            (Phase::Holding(done + 1), you)
        } else if you is Waiting {
            (Phase::Done, Phase::Holding(0))
        } else {
            (Phase::Done, you)
        },
        Phase::Done => (me, you),
    }
}

/// In a race that is in order a step moves the phases on as
/// `phases_after` says: who asks gets the lock or waits, who holds it
/// works on and in the end hands it to who waits. The bytes that the
/// requests bring stay, and the file changes only when its holder removes
/// or writes it.
pub proof fn lemma_step_moves_on(w: Race, path: Seq<char>, first: bool)
    requires
        in_order(w, path),
    ensures
        in_order(step(w, path, first), path),
        (mover(step(w, path, first), first).phase, bystander(step(w, path, first), first).phase)
            == phases_after(mover(w, first).phase, bystander(w, first).phase),
        step(w, path, first).a.body == w.a.body,
        step(w, path, first).b.body == w.b.body,
        step(w, path, first).old == w.old,
        !(mover(w, first).phase matches Phase::Holding(done) && done < 2) ==> step(
            w,
            path,
            first,
        ).file == w.file,
{
    lemma_step_keeps_order(w, path, first);
    let me = mover(w, first);
    let you = bystander(w, first);
    assert(in_step(w, me, you) && in_step(w, you, me));
    match me.phase {
        Phase::Idle => {
            lemma_queue_after_acquire(w.locks, path);
            if you.phase is Holding {
                assert(queue_of(w.locks, path).len() > 0);
            } else {
                assert(queue_of(w.locks, path).len() == 0);
            }
        },
        Phase::Waiting => {},
        Phase::Holding(done) => {
            if done >= 3 {
                let rest = if you.phase is Waiting {
                    seq![you.ticket]
                } else {
                    Seq::<u64>::empty()
                };
                assert(queue_of(w.locks, path) =~= seq![me.ticket] + rest);
                lemma_queue_after_release(w.locks, path, me.ticket, rest);
                if you.phase is Waiting {
                    assert(rest[0] == you.ticket);
                }
            }
        },
        Phase::Done => {},
    }
}

/// Whether a race has come to its end: both requests are through, and the
/// file holds `bytes`.
pub open spec fn ended_with(w: Race, bytes: Seq<u8>) -> bool {
    w.a.phase is Done && w.b.phase is Done && w.file == Some(bytes)
}

/// The race after `steps` steps of one request, one after the other.
pub open spec fn run_one(w: Race, path: Seq<char>, first: bool, steps: nat) -> Race
    decreases steps,
{
    if steps == 0 {
        w
    } else {
        run_one(step(w, path, first), path, first, (steps - 1) as nat)
    }
}

/// A request that holds the lock and is given its steps gets through:
/// after the steps that are left to it, it is done, the file holds its
/// bytes, and a request that waited for it holds the lock.
pub proof fn lemma_holder_gets_through(w: Race, path: Seq<char>, first: bool, done: nat)
    requires
        in_order(w, path),
        mover(w, first).phase == Phase::Holding(done),
        done <= 3,
    ensures
        ({
            let end = run_one(w, path, first, (4 - done) as nat);
            &&& in_order(end, path)
            &&& mover(end, first).phase is Done
            &&& end.file == Some(mover(w, first).body)
            &&& end.a.body == w.a.body && end.b.body == w.b.body && end.old == w.old
            &&& bystander(end, first).phase == if bystander(w, first).phase is Waiting {
                Phase::Holding(0)
            } else {
                bystander(w, first).phase
            }
        }),
    decreases 4 - done,
{
    // the first of the steps that are left, and then the others
    lemma_step_moves_on(w, path, first);
    let next = step(w, path, first);
    assert(in_step(next, mover(next, first), bystander(next, first)));
    if done < 3 {
        lemma_holder_gets_through(next, path, first, done + 1);
    } else {
        assert(in_step(w, mover(w, first), bystander(w, first)));
        assert(run_one(next, path, first, 0) == next);
    }
}

/// Both requests get through, whichever of them asks first and whether
/// the other asks while the first is at work or after it. In the end both
/// are done, and the file holds the bytes of the one that asked second.
pub proof fn lemma_both_get_through(start: Race, path: Seq<char>, first: bool)
    requires
        at_start(start, path),
    ensures
        ({
            let second = !first;
            // the first asks, the second asks and waits, each goes through
            let asked = step(step(start, path, first), path, second);
            let waited = run_one(run_one(asked, path, first, 4), path, second, 4);
            // the first asks and goes through, then the second does
            let alone = run_one(step(start, path, first), path, first, 4);
            let later = run_one(step(alone, path, second), path, second, 4);
            &&& ended_with(waited, bystander(start, first).body)
            &&& ended_with(later, bystander(start, first).body)
        }),
{
    let second = !first;
    lemma_start_is_in_order(start, path);
    lemma_step_moves_on(start, path, first);
    let one = step(start, path, first);
    assert(mover(one, first).phase == Phase::Holding(0));
    // the second asks while the first holds the lock
    lemma_step_moves_on(one, path, second);
    let asked = step(one, path, second);
    assert(mover(asked, second).phase is Waiting);
    assert(mover(asked, first).phase == Phase::Holding(0));
    lemma_holder_gets_through(asked, path, first, 0);
    let handed = run_one(asked, path, first, 4);
    assert(mover(handed, second).phase == Phase::Holding(0));
    lemma_holder_gets_through(handed, path, second, 0);
    // the second asks when the first is through
    lemma_holder_gets_through(one, path, first, 0);
    let alone = run_one(one, path, first, 4);
    assert(mover(alone, second).phase is Idle);
    lemma_step_moves_on(alone, path, second);
    let came = step(alone, path, second);
    assert(mover(came, second).phase == Phase::Holding(0));
    lemma_holder_gets_through(came, path, second, 0);
}

} // verus!
