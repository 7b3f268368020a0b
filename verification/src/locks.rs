//! The lock table: who may work on a path, and who is next.
//!
//! Each path has a queue of tickets. The ticket at the head holds the
//! path; the others wait in the order in which they asked. The table only
//! decides; whoever waits is parked and woken by the caller.

use vstd::prelude::*;
use crate::text::text_eq;

verus! {

/// The queue of one path. The first ticket holds the lock.
struct PathLock {
    path: String,
    queue: Vec<u64>,
}

/// The table of all paths that are held or waited for.
pub struct LockTable {
    locks: Vec<PathLock>,
    next: u64,
}

/// The table as a value: the queue of each path that has one, and the
/// ticket that is handed out next.
pub struct LockState {
    pub queues: Map<Seq<char>, Seq<u64>>,
    pub next: u64,
}

/// The answer to a request for a path's lock.
#[derive(Debug, Clone, Copy, PartialEq, Eq, Structural)]
pub enum Acquired {
    /// The path was free: the ticket holds it now.
    Granted(u64),
    /// The path is held: the ticket waits behind those before it.
    Queued(u64),
    /// No ticket is left to hand out.
    Exhausted,
}

/// The tickets that hold or wait for `path`, the holder first.
pub open spec fn queue_of(s: LockState, path: Seq<char>) -> Seq<u64> {
    if s.queues.dom().contains(path) {
        s.queues[path]
    } else {
        Seq::empty()
    }
}

/// The ticket that holds `path`, if any does. There is never more than
/// one.
pub open spec fn holder_of(s: LockState, path: Seq<char>) -> Option<u64> {
    if queue_of(s, path).len() > 0 {
        Some(queue_of(s, path)[0])
    } else {
        None
    }
}

/// The table after `path` was asked for: the next ticket stands at the
/// end of the path's queue.
pub open spec fn after_acquire(s: LockState, path: Seq<char>) -> LockState {
    if s.next == u64::MAX {
        s
    } else {
        LockState {
            queues: s.queues.insert(path, queue_of(s, path).push(s.next)),
            next: (s.next + 1) as u64,
        }
    }
}

/// What a request for `path` is answered with.
pub open spec fn acquire_answer(s: LockState, path: Seq<char>) -> Acquired {
    if s.next == u64::MAX {
        Acquired::Exhausted
    } else if queue_of(s, path).len() == 0 {
        Acquired::Granted(s.next)
    } else {
        Acquired::Queued(s.next)
    }
}

/// A queue without `ticket`.
pub open spec fn without_ticket(queue: Seq<u64>, ticket: u64) -> Seq<u64> {
    if queue.contains(ticket) {
        queue.remove(queue.index_of(ticket))
    } else {
        queue
    }
}

/// The table after `ticket` gave up `path`, whether it held the path or
/// waited for it. A path whose queue runs empty leaves the table.
pub open spec fn after_release(s: LockState, path: Seq<char>, ticket: u64) -> LockState {
    let rest = without_ticket(queue_of(s, path), ticket);
    LockState {
        queues: if rest.len() == 0 {
            s.queues.remove(path)
        } else {
            s.queues.insert(path, rest)
        },
        next: s.next,
    }
}

/// The ticket that comes to hold `path` by the release: the one behind
/// the holder, if the holder released and someone waited.
pub open spec fn woken_by_release(s: LockState, path: Seq<char>, ticket: u64) -> Option<u64> {
    let queue = queue_of(s, path);
    if queue.len() > 1 && queue[0] == ticket {
        Some(queue[1])
    } else {
        None
    }
}

/// Whether some entry of `locks` is for `path`.
spec fn has_entry(locks: Seq<PathLock>, path: Seq<char>) -> bool {
    exists|i: int| 0 <= i < locks.len() && (#[trigger] locks[i]).path@ == path
}

/// The index of an entry for `path`.
spec fn entry_index(locks: Seq<PathLock>, path: Seq<char>) -> int {
    choose|i: int| 0 <= i < locks.len() && (#[trigger] locks[i]).path@ == path
}

/// Whether the tickets of a queue rise; then no ticket stands twice.
pub open spec fn rising(queue: Seq<u64>) -> bool {
    forall|a: int, b: int| 0 <= a < b < queue.len() ==> queue[a] < queue[b]
}

/// The queues that a list of entries holds, by path.
spec fn queues_in(locks: Seq<PathLock>) -> Map<Seq<char>, Seq<u64>> {
    Map::new(|p: Seq<char>| has_entry(locks, p), |p: Seq<char>| locks[entry_index(locks, p)].queue@)
}

/// What holds of the entries of every table: each path has one entry, no
/// queue is empty, and the tickets of a queue rise and were all handed out.
spec fn entries_wf(locks: Seq<PathLock>, next: u64) -> bool {
    &&& forall|i: int, j: int|
        0 <= i < j < locks.len() ==> (#[trigger] locks[i]).path@ != (#[trigger] locks[j]).path@
    &&& forall|i: int|
        0 <= i < locks.len() ==> {
            &&& (#[trigger] locks[i]).queue@.len() > 0
            &&& rising(locks[i].queue@)
            &&& forall|k: int| 0 <= k < locks[i].queue@.len() ==> locks[i].queue@[k] < next
        }
}

/// Among well-formed entries the queue of the path of entry `i` is that
/// entry's queue.
proof fn lemma_queue_at(locks: Seq<PathLock>, next: u64, i: int)
    requires
        entries_wf(locks, next),
        0 <= i < locks.len(),
    ensures
        has_entry(locks, locks[i].path@),
        queues_in(locks)[locks[i].path@] == locks[i].queue@,
{
    let p = locks[i].path@;
    let j = entry_index(locks, p);
    assert(0 <= j < locks.len() && locks[j].path@ == p);
    if i < j {
        assert(locks[i].path@ != locks[j].path@);
    } else if j < i {
        assert(locks[j].path@ != locks[i].path@);
    }
}

/// Taking entry `i` out of well-formed entries and putting `entry` for the
/// same path at the end, with a queue that is in order, changes the queue
/// of that path and no other.
proof fn lemma_entry_replaced(
    before: Seq<PathLock>,
    after: Seq<PathLock>,
    old_next: u64,
    next: u64,
    i: int,
    entry: PathLock,
)
    requires
        entries_wf(before, old_next),
        old_next <= next,
        0 <= i < before.len(),
        after == before.remove(i).push(entry),
        entry.path@ == before[i].path@,
        entry.queue@.len() > 0,
        rising(entry.queue@),
        forall|k: int| 0 <= k < entry.queue@.len() ==> entry.queue@[k] < next,
    ensures
        entries_wf(after, next),
        queues_in(after) == queues_in(before).insert(entry.path@, entry.queue@),
{
    let n = after.len() - 1;
    let path = entry.path@;
    assert forall|a: int| 0 <= a < n implies (#[trigger] after[a]) == before[if a < i {
        a
    } else {
        a + 1
    }] by {}
    assert(entries_wf(after, next)) by {
        assert forall|a: int, b: int| 0 <= a < b < after.len() implies (#[trigger] after[a]).path@
            != (#[trigger] after[b]).path@ by {
            let x = if a < i {
                a
            } else {
                a + 1
            };
            assert(after[a] == before[x]);
            if b < n {
                let y = if b < i {
                    b
                } else {
                    b + 1
                };
                assert(after[b] == before[y]);
                assert(before[x].path@ != before[y].path@);
            } else {
                if x < i {
                    assert(before[x].path@ != before[i].path@);
                } else {
                    assert(before[i].path@ != before[x].path@);
                }
            }
        }
        assert forall|a: int| 0 <= a < after.len() implies {
            &&& (#[trigger] after[a]).queue@.len() > 0
            &&& rising(after[a].queue@)
            &&& forall|k: int| 0 <= k < after[a].queue@.len() ==> after[a].queue@[k] < next
        } by {
            if a < n {
                let x = if a < i {
                    a
                } else {
                    a + 1
                };
                assert(after[a] == before[x]);
                assert(before[x].queue@.len() > 0);
            }
        }
    }
    lemma_queue_at(after, next, n);
    assert forall|p: Seq<char>| has_entry(after, p) == has_entry(before, p) by {
        if has_entry(before, p) {
            let j = entry_index(before, p);
            if j == i {
                assert(after[n].path@ == p);
            } else {
                let y = if j < i {
                    j
                } else {
                    j - 1
                };
                assert(after[y] == before[j]);
            }
        }
        if has_entry(after, p) {
            let j = entry_index(after, p);
            if j == n {
                assert(before[i].path@ == p);
            } else {
                let x = if j < i {
                    j
                } else {
                    j + 1
                };
                assert(after[j] == before[x]);
            }
        }
    }
    assert forall|p: Seq<char>| has_entry(after, p) && p != path implies (#[trigger] queues_in(
        after,
    )[p]) == queues_in(before)[p] by {
        let j = entry_index(before, p);
        lemma_queue_at(before, old_next, j);
        let y = if j < i {
            j
        } else {
            j - 1
        };
        assert(after[y] == before[j]);
        lemma_queue_at(after, next, y);
    }
    assert(queues_in(after) =~= queues_in(before).insert(path, entry.queue@));
}

/// Taking entry `i` out of well-formed entries takes its path out of the
/// queues and changes no other.
proof fn lemma_entry_removed(before: Seq<PathLock>, after: Seq<PathLock>, next: u64, i: int)
    requires
        entries_wf(before, next),
        0 <= i < before.len(),
        after == before.remove(i),
    ensures
        entries_wf(after, next),
        queues_in(after) == queues_in(before).remove(before[i].path@),
{
    let path = before[i].path@;
    assert forall|a: int| 0 <= a < after.len() implies (#[trigger] after[a]) == before[if a < i {
        a
    } else {
        a + 1
    }] by {}
    assert(entries_wf(after, next)) by {
        assert forall|a: int, b: int| 0 <= a < b < after.len() implies (#[trigger] after[a]).path@
            != (#[trigger] after[b]).path@ by {
            let x = if a < i {
                a
            } else {
                a + 1
            };
            let y = if b < i {
                b
            } else {
                b + 1
            };
            assert(after[a] == before[x]);
            assert(after[b] == before[y]);
            assert(before[x].path@ != before[y].path@);
        }
        assert forall|a: int| 0 <= a < after.len() implies {
            &&& (#[trigger] after[a]).queue@.len() > 0
            &&& rising(after[a].queue@)
            &&& forall|k: int| 0 <= k < after[a].queue@.len() ==> after[a].queue@[k] < next
        } by {
            let x = if a < i {
                a
            } else {
                a + 1
            };
            assert(after[a] == before[x]);
            assert(before[x].queue@.len() > 0);
        }
    }
    assert forall|p: Seq<char>| has_entry(after, p) == (has_entry(before, p) && p != path) by {
        if has_entry(before, p) && p != path {
            let j = entry_index(before, p);
            let y = if j < i {
                j
            } else {
                j - 1
            };
            assert(after[y] == before[j]);
        }
        if has_entry(after, p) {
            let j = entry_index(after, p);
            let x = if j < i {
                j
            } else {
                j + 1
            };
            assert(after[j] == before[x]);
            if x < i {
                assert(before[x].path@ != before[i].path@);
            } else {
                assert(before[i].path@ != before[x].path@);
            }
        }
    }
    assert forall|p: Seq<char>| has_entry(after, p) implies (#[trigger] queues_in(after)[p])
        == queues_in(before)[p] by {
        let j = entry_index(before, p);
        lemma_queue_at(before, next, j);
        let y = if j < i {
            j
        } else {
            j - 1
        };
        assert(after[y] == before[j]);
        lemma_queue_at(after, next, y);
    }
    assert(queues_in(after) =~= queues_in(before).remove(path));
}

/// Putting an entry for a new path at the end of well-formed entries adds
/// its queue and changes no other.
proof fn lemma_entry_added(
    before: Seq<PathLock>,
    after: Seq<PathLock>,
    old_next: u64,
    next: u64,
    entry: PathLock,
)
    requires
        entries_wf(before, old_next),
        old_next <= next,
        !has_entry(before, entry.path@),
        after == before.push(entry),
        entry.queue@.len() > 0,
        rising(entry.queue@),
        forall|k: int| 0 <= k < entry.queue@.len() ==> entry.queue@[k] < next,
    ensures
        entries_wf(after, next),
        queues_in(after) == queues_in(before).insert(entry.path@, entry.queue@),
{
    let n = after.len() - 1;
    let path = entry.path@;
    assert forall|a: int| 0 <= a < n implies (#[trigger] after[a]) == before[a] by {}
    assert(entries_wf(after, next)) by {
        assert forall|a: int, b: int| 0 <= a < b < after.len() implies (#[trigger] after[a]).path@
            != (#[trigger] after[b]).path@ by {
            assert(after[a] == before[a]);
            if b < n {
                assert(after[b] == before[b]);
            }
        }
        assert forall|a: int| 0 <= a < after.len() implies {
            &&& (#[trigger] after[a]).queue@.len() > 0
            &&& rising(after[a].queue@)
            &&& forall|k: int| 0 <= k < after[a].queue@.len() ==> after[a].queue@[k] < next
        } by {
            if a < n {
                assert(after[a] == before[a]);
                assert(before[a].queue@.len() > 0);
            }
        }
    }
    lemma_queue_at(after, next, n);
    assert forall|p: Seq<char>| has_entry(after, p) == (has_entry(before, p) || p == path) by {
        if has_entry(before, p) {
            let j = entry_index(before, p);
            assert(after[j] == before[j]);
        }
        if p == path {
            assert(after[n].path@ == p);
        }
        if has_entry(after, p) {
            let j = entry_index(after, p);
            if j < n {
                assert(after[j] == before[j]);
            }
        }
    }
    assert forall|p: Seq<char>| has_entry(after, p) && p != path implies (#[trigger] queues_in(
        after,
    )[p]) == queues_in(before)[p] by {
        let j = entry_index(before, p);
        lemma_queue_at(before, old_next, j);
        assert(after[j] == before[j]);
        lemma_queue_at(after, next, j);
    }
    assert(queues_in(after) =~= queues_in(before).insert(path, entry.queue@));
}

impl View for LockTable {
    type V = LockState;

    closed spec fn view(&self) -> LockState {
        LockState { queues: queues_in(self.locks@), next: self.next }
    }
}

impl LockTable {
    /// What holds of every table: each path has one entry, no queue is
    /// empty, and the tickets of a queue rise and were all handed out.
    #[verifier::type_invariant]
    pub closed spec fn wf(&self) -> bool {
        entries_wf(self.locks@, self.next)
    }

    /// The queues of a table are in order.
    pub proof fn lemma_queues_rise(&self, path: Seq<char>)
        requires
            self.wf(),
        ensures
            queue_in_order(self@, path),
    {
        if has_entry(self.locks@, path) {
            let i = entry_index(self.locks@, path);
            lemma_queue_at(self.locks@, self.next, i);
            assert(self.locks@[i].queue@.len() > 0);
        }
    }

    /// An empty table.
    pub fn new() -> (r: LockTable)
        ensures
            r@.queues == Map::<Seq<char>, Seq<u64>>::empty(),
            r@.next == 0,
    {
        let r = LockTable { locks: Vec::new(), next: 0 };
        assert(r@.queues =~= Map::<Seq<char>, Seq<u64>>::empty());
        r
    }

    fn position(locks: &Vec<PathLock>, path: &str) -> (r: Option<usize>)
        ensures
            match r {
                Some(i) => i < locks@.len() && locks@[i as int].path@ == path@,
                None => !has_entry(locks@, path@),
            },
    {
        let mut i: usize = 0;
        while i < locks.len()
            invariant
                i <= locks@.len(),
                forall|j: int| 0 <= j < i ==> (#[trigger] locks@[j]).path@ != path@,
            decreases locks@.len() - i,
        {
            if text_eq(locks[i].path.as_str(), path) {
                return Some(i);
            }
            i = i + 1;
        }
        None
    }

    /// The ticket that holds `path`, if any.
    pub fn holder(&self, path: &str) -> (r: Option<u64>)
        ensures
            r == holder_of(self@, path@),
    {
        proof {
            use_type_invariant(self);
        }
        match Self::position(&self.locks, path) {
            Some(i) => {
                proof {
                    lemma_queue_at(self.locks@, self.next, i as int);
                }
                Some(self.locks[i].queue[0])
            },
            None => None,
        }
    }

    /// Asks for the lock of `path`. The entry of a path is made when the
    /// path is first asked for.
    pub fn acquire(&mut self, path: &str) -> (r: Acquired)
        ensures
            final(self)@ == after_acquire(old(self)@, path@),
            r == acquire_answer(old(self)@, path@),
    {
        proof {
            use_type_invariant(&*self);
        }
        if self.next == u64::MAX {
            return Acquired::Exhausted;
        }
        let ticket = self.next;
        let ghost before = self.locks@;
        let mut locks: Vec<PathLock> = Vec::new();
        core::mem::swap(&mut self.locks, &mut locks);
        let found = Self::position(&locks, path);
        let answer = match found {
            Some(i) => {
                proof {
                    lemma_queue_at(before, ticket, i as int);
                }
                let mut entry = locks.remove(i);
                entry.queue.push(ticket);
                locks.push(entry);
                proof {
                    lemma_entry_replaced(
                        before,
                        locks@,
                        ticket,
                        (ticket + 1) as u64,
                        i as int,
                        entry,
                    );
                }
                Acquired::Queued(ticket)
            },
            None => {
                let mut queue: Vec<u64> = Vec::new();
                queue.push(ticket);
                let entry = PathLock { path: path.to_owned(), queue: queue };
                locks.push(entry);
                proof {
                    assert(queue@ =~= Seq::<u64>::empty().push(ticket));
                    lemma_entry_added(before, locks@, ticket, (ticket + 1) as u64, entry);
                }
                Acquired::Granted(ticket)
            },
        };
        self.next = ticket + 1;
        self.locks = locks;
        answer
    }

    fn ticket_position(queue: &Vec<u64>, ticket: u64) -> (r: Option<usize>)
        requires
            rising(queue@),
        ensures
            match r {
                Some(k) => queue@.contains(ticket) && k as int == queue@.index_of(ticket),
                None => !queue@.contains(ticket),
            },
    {
        let mut k: usize = 0;
        while k < queue.len()
            invariant
                k <= queue@.len(),
                rising(queue@),
                forall|j: int| 0 <= j < k ==> queue@[j] != ticket,
            decreases queue@.len() - k,
        {
            if queue[k] == ticket {
                proof {
                    assert(queue@[k as int] == ticket);
                    let w = queue@.index_of(ticket);
                    assert(0 <= w < queue@.len() && queue@[w] == ticket);
                    if w < k {
                        assert(queue@[w] < queue@[k as int]);
                    } else if k < w {
                        assert(queue@[k as int] < queue@[w]);
                    }
                }
                return Some(k);
            }
            k = k + 1;
        }
        None
    }

    /// Gives up `path` for `ticket`: the holder passes the lock on to the
    /// ticket behind it, a waiting ticket leaves the queue. A ticket that
    /// is not in the queue changes nothing.
    pub fn release(&mut self, path: &str, ticket: u64) -> (r: Option<u64>)
        ensures
            final(self)@ == after_release(old(self)@, path@, ticket),
            r == woken_by_release(old(self)@, path@, ticket),
    {
        proof {
            use_type_invariant(&*self);
        }
        let ghost before = self.locks@;
        let ghost next = self.next;
        let found = Self::position(&self.locks, path);
        let i: usize = match found {
            Some(i) => i,
            None => {
                assert(self@.queues =~= after_release(self@, path@, ticket).queues);
                return None;
            },
        };
        proof {
            lemma_queue_at(before, next, i as int);
        }
        let at = Self::ticket_position(&self.locks[i].queue, ticket);
        let k: usize = match at {
            Some(k) => k,
            None => {
                assert(self@.queues =~= after_release(self@, path@, ticket).queues);
                return None;
            },
        };
        let mut locks: Vec<PathLock> = Vec::new();
        core::mem::swap(&mut self.locks, &mut locks);
        let mut entry = locks.remove(i);
        let ghost old_queue = entry.queue@;
        let _ = entry.queue.remove(k);
        let woken: Option<u64> = if k == 0 && entry.queue.len() > 0 {
            Some(entry.queue[0])
        } else {
            None
        };
        let ghost rest = entry.queue@;
        proof {
            assert(rest == without_ticket(old_queue, ticket));
            assert(rising(rest)) by {
                assert forall|a: int, b: int| 0 <= a < b < rest.len() implies rest[a] < rest[b] by {
                    let x = if a < k {
                        a
                    } else {
                        a + 1
                    };
                    let y = if b < k {
                        b
                    } else {
                        b + 1
                    };
                    assert(rest[a] == old_queue[x] && rest[b] == old_queue[y]);
                }
            }
            assert forall|c: int| 0 <= c < rest.len() implies rest[c] < next by {
                let x = if c < k {
                    c
                } else {
                    c + 1
                };
                assert(rest[c] == old_queue[x]);
            }
        }
        if entry.queue.len() > 0 {
            locks.push(entry);
            proof {
                lemma_entry_replaced(before, locks@, next, next, i as int, entry);
            }
        } else {
            proof {
                lemma_entry_removed(before, locks@, next, i as int);
            }
        }
        self.locks = locks;
        woken
    }
}

/// Two requests for one path: the first is granted and the second waits.
/// While both are in the queue the first holds the path. When the first
/// releases, the second is woken and holds the path, and when the second
/// releases too the path leaves the table.
pub proof fn lemma_same_path_in_turn(s: LockState, path: Seq<char>)
    requires
        queue_of(s, path).len() == 0,
        s.next < u64::MAX - 1,
    ensures
        ({
            let first = s.next;
            let second = (s.next + 1) as u64;
            let one = after_acquire(s, path);
            let both = after_acquire(one, path);
            let handed = after_release(both, path, first);
            let done = after_release(handed, path, second);
            &&& acquire_answer(s, path) == Acquired::Granted(first)
            &&& acquire_answer(one, path) == Acquired::Queued(second)
            &&& holder_of(both, path) == Some(first)
            &&& woken_by_release(both, path, first) == Some(second)
            &&& holder_of(handed, path) == Some(second)
            &&& woken_by_release(handed, path, second) is None
            &&& holder_of(done, path) is None
            &&& !done.queues.dom().contains(path)
        }),
{
    let first = s.next;
    let second = (s.next + 1) as u64;
    let one = after_acquire(s, path);
    let both = after_acquire(one, path);
    let q2 = queue_of(both, path);
    assert(q2 =~= seq![first, second]);
    assert(q2[0] == first);
    assert(q2.contains(first));
    let w = q2.index_of(first);
    assert(0 <= w < q2.len() && q2[w] == first);
    assert(w == 0);
    assert(q2.remove(0) =~= seq![second]);
    let handed = after_release(both, path, first);
    let q3 = queue_of(handed, path);
    assert(q3 =~= seq![second]);
    assert(q3[0] == second);
    assert(q3.contains(second));
    let v = q3.index_of(second);
    assert(0 <= v < q3.len() && q3[v] == second);
    assert(q3.remove(0) =~= Seq::<u64>::empty());
}

/// Whether the queue of `path` is in order: its tickets rise and were all
/// handed out. The queues of a table are; see `lemma_queues_rise`.
pub open spec fn queue_in_order(s: LockState, path: Seq<char>) -> bool {
    &&& rising(queue_of(s, path))
    &&& forall|k: int| 0 <= k < queue_of(s, path).len() ==> queue_of(s, path)[k] < s.next
}

/// In every state the lock of a path passes from ticket to ticket in the
/// order in which they asked. A ticket that is granted the path holds it;
/// a ticket that is queued leaves the holder in place; the holder's
/// release hands the path to the ticket behind it, or frees it; and a
/// ticket that gives up waiting leaves the holder in place.
pub proof fn lemma_lock_passes_in_order(s: LockState, path: Seq<char>, ticket: u64)
    requires
        queue_in_order(s, path),
    ensures
        acquire_answer(s, path) matches Acquired::Granted(t) ==> holder_of(s, path) is None
            && holder_of(after_acquire(s, path), path) == Some(t),
        acquire_answer(s, path) matches Acquired::Queued(t) ==> holder_of(s, path) is Some
            && holder_of(s, path) != Some(t) && holder_of(after_acquire(s, path), path)
            == holder_of(s, path),
        acquire_answer(s, path) is Exhausted ==> after_acquire(s, path) == s,
        queue_in_order(after_acquire(s, path), path),
        holder_of(s, path) == Some(ticket) ==> holder_of(after_release(s, path, ticket), path)
            == woken_by_release(s, path, ticket),
        holder_of(s, path) != Some(ticket) ==> holder_of(after_release(s, path, ticket), path)
            == holder_of(s, path) && woken_by_release(s, path, ticket) is None,
        queue_in_order(after_release(s, path, ticket), path),
{
    let queue = queue_of(s, path);
    if s.next != u64::MAX {
        let longer = queue_of(after_acquire(s, path), path);
        assert(longer =~= queue.push(s.next));
        if queue.len() > 0 {
            assert(queue[0] < s.next);
            assert(longer[0] == queue[0]);
        }
    }
    let rest = without_ticket(queue, ticket);
    let after = queue_of(after_release(s, path, ticket), path);
    assert(after =~= rest);
    if queue.contains(ticket) {
        let w = queue.index_of(ticket);
        assert(0 <= w < queue.len() && queue[w] == ticket);
        assert forall|a: int| 0 <= a < rest.len() implies rest[a] == queue[if a < w {
            a
        } else {
            a + 1
        }] by {}
        if queue[0] == ticket {
            if w > 0 {
                assert(queue[0] < queue[w]);
            }
        } else {
            assert(w != 0);
            assert(rest[0] == queue[0]);
        }
        assert forall|a: int, b: int| 0 <= a < b < rest.len() implies rest[a] < rest[b] by {
            let x = if a < w {
                a
            } else {
                a + 1
            };
            let y = if b < w {
                b
            } else {
                b + 1
            };
            assert(queue[x] < queue[y]);
        }
    }
}

/// What happens to one path leaves the queues of all others as they are.
pub proof fn lemma_other_paths_untouched(
    s: LockState,
    path: Seq<char>,
    other: Seq<char>,
    ticket: u64,
)
    requires
        path != other,
    ensures
        queue_of(after_acquire(s, path), other) == queue_of(s, other),
        queue_of(after_release(s, path, ticket), other) == queue_of(s, other),
{
}

} // verus!
