//! The cooperative scheduler: a fixed-capacity task table, a FIFO ready
//! queue of task indices, and a [`Router`] tying parked tasks to signals.
//!
//! One scheduler iteration resumes every ready task once (each resumption
//! parks the task on the signal it declares), then drains the signal
//! register and moves every task whose signal fired from the router back
//! onto the ready queue. The ready queue is a `heapless::Deque`, a
//! fixed-capacity ring buffer that never allocates; its behaviour is stated
//! by the trusted wrappers below, and the scheduler on top of them is
//! verified — in particular, a task index in flight is never duplicated, so
//! the queue and router can never overflow their 8 slots.

use vstd::prelude::*;

use crate::bits::{bit_set, high_bit, ids_of, without_bit};
use crate::router::Router;
use crate::signal::{Id, SignalRegister, Signals};

verus! {

/// Declares `heapless::Deque` to the verifier; its values are opaque here
/// and reachable only through the trusted wrappers below.
#[verifier::external_type_specification]
#[verifier::external_body]
#[verifier::reject_recursive_types(T)]
pub struct ExDeque<T, const N: usize>(heapless::Deque<T, N>);

/// The concrete ready queue: task indices, front to back, at most 8.
pub type ReadyQueue = heapless::Deque<u8, 8>;

/// The items queued in a ready queue, front to back.
pub uninterp spec fn queue_of(q: ReadyQueue) -> Seq<u8>;

/// Relies on `heapless::Deque::new`: a fresh deque holds nothing.
#[verifier::external_body]
fn queue_new() -> (q: ReadyQueue)
    ensures
        queue_of(q) == Seq::<u8>::empty(),
{
    heapless::Deque::new()
}

/// Relies on `heapless::Deque::push_back`: appends the item, unless all 8
/// slots are taken, in which case the item is handed back unchanged.
#[verifier::external_body]
fn queue_push(q: &mut ReadyQueue, item: u8) -> (r: Result<(), u8>)
    ensures
        r is Ok ==> queue_of(*final(q)) == queue_of(*old(q)).push(item),
        r is Ok ==> queue_of(*old(q)).len() < 8,
        r is Err ==> queue_of(*final(q)) == queue_of(*old(q)) && r->Err_0 == item && queue_of(
            *old(q),
        ).len() == 8,
        queue_of(*old(q)).len() < 8 ==> r is Ok,
{
    q.push_back(item)
}

/// Relies on `heapless::Deque::pop_front`: removes and returns the front
/// item, or `None` when the deque is empty.
#[verifier::external_body]
fn queue_pop(q: &mut ReadyQueue) -> (r: Option<u8>)
    ensures
        r is Some <==> queue_of(*old(q)).len() > 0,
        r is Some ==> r->Some_0 == queue_of(*old(q))[0] && queue_of(*final(q)) == queue_of(
            *old(q),
        ).drop_first(),
        r is None ==> queue_of(*final(q)) == queue_of(*old(q)),
{
    q.pop_front()
}

/// Relies on `heapless::Deque::len`: the number of queued items.
#[verifier::external_body]
fn queue_len(q: &ReadyQueue) -> (n: usize)
    ensures
        n == queue_of(*q).len(),
{
    q.len()
}

/// What one resumption of a task reports back to the scheduler.
#[derive(Clone, Copy, Debug)]
pub enum Step {
    /// The task waits for the signal with this identifier; the scheduler
    /// parks it in the router under that identifier.
    Park(Id),
    /// The task declared no interest this step; it stays suspended until a
    /// later registration wakes it.
    Pending,
}

/// A suspended computation that the scheduler can resume repeatedly.
///
/// A task never terminates: each resumption runs to the next suspend point
/// and reports, as a [`Step`], which signal should wake it next.
pub trait Task {
    /// Runs the task one step, to its next suspend point.
    fn resume(&mut self) -> Step;
}

/// The error returned by [`Executor::spawn`] when the task table is full:
/// the first 8 spawned tasks are kept, the rejected task is dropped.
#[derive(Clone, Copy, Debug, PartialEq, Eq, Structural)]
pub struct CapacityExceeded;

/// The task indices that draining the word `w` (highest bit first) moves
/// from the routing table `m` onto the ready queue, in that order.
pub open spec fn woken(m: Map<u8, u8>, w: u32) -> Seq<u8>
    decreases w,
    via woken_decreases
{
    if w == 0 {
        Seq::empty()
    } else {
        let h = high_bit(w);
        let rest = woken(m, without_bit(w, h));
        if m.contains_key(h) {
            seq![m[h]] + rest
        } else {
            rest
        }
    }
}

#[via_fn]
proof fn woken_decreases(m: Map<u8, u8>, w: u32) {
    if w != 0 {
        crate::bits::lemma_high_bit(w);
    }
}

/// Two routing tables that agree on every identifier recorded in `w` wake
/// the same tasks in the same order when `w` is drained.
pub proof fn lemma_woken_agree(m1: Map<u8, u8>, m2: Map<u8, u8>, w: u32)
    requires
        forall|i: u8| #[trigger] bit_set(w, i) ==> (m1.contains_key(i) <==> m2.contains_key(i)),
        forall|i: u8| #[trigger] bit_set(w, i) && m1.contains_key(i) ==> m1[i] == m2[i],
    ensures
        woken(m1, w) == woken(m2, w),
    decreases w,
{
    if w != 0 {
        crate::bits::lemma_high_bit(w);
        lemma_woken_agree(m1, m2, without_bit(w, high_bit(w)));
    }
}

/// The cooperative scheduler: a fixed table of at most 8 tasks, the FIFO
/// ready queue of their indices, and the router holding the parked ones.
pub struct Executor<T> {
    table: Vec<T>,
    ready: ReadyQueue,
    router: Router,
}

impl<T: Task> Executor<T> {
    /// The tasks spawned so far, in spawn order; a task's index in this
    /// sequence is its identity everywhere else.
    pub closed spec fn tasks(self) -> Seq<T> {
        self.table@
    }

    /// The indices of the tasks due to be resumed, front to back.
    pub closed spec fn ready_queue(self) -> Seq<u8> {
        queue_of(self.ready)
    }

    /// The routing table: signal identifier to the index of the one task
    /// parked on it.
    pub closed spec fn routes(self) -> Map<u8, u8> {
        self.router@
    }

    /// The scheduler's invariant. Every queued or parked index names a
    /// spawned task; no index is queued twice, parked twice, or both queued
    /// and parked — so a wakeup is never duplicated, and the queue and
    /// router can never run out of slots while the table has room.
    pub closed spec fn wf(self) -> bool {
        &&& self.table@.len() <= 8
        &&& self.router.wf()
        &&& queue_of(self.ready).no_duplicates()
        &&& forall|k: int|
            0 <= k < queue_of(self.ready).len() ==> (#[trigger] queue_of(self.ready)[k])
                < self.table@.len()
        &&& forall|s: u8| #[trigger] self.router@.contains_key(s) ==> self.router@[s] < self.table@.len()
        &&& forall|s1: u8, s2: u8|
            #![trigger self.router@[s1], self.router@[s2]]
            self.router@.contains_key(s1) && self.router@.contains_key(s2) && s1 != s2
                ==> self.router@[s1] != self.router@[s2]
        &&& forall|s: u8, k: int|
            #![trigger self.router@[s], queue_of(self.ready)[k]]
            self.router@.contains_key(s) && 0 <= k < queue_of(self.ready).len()
                ==> self.router@[s] != queue_of(self.ready)[k]
        &&& queue_of(self.ready).len() + self.router@.dom().len() <= self.table@.len()
    }

    /// The design's core safety argument, made visible: in a well-formed
    /// scheduler every queued or parked task index names a spawned task, and
    /// no index is queued twice, parked under two signals, or both queued
    /// and parked — so no wakeup is ever duplicated, and the queue and
    /// router always have a slot free for an index in flight.
    pub proof fn lemma_no_duplicate_wakeups(self)
        requires
            self.wf(),
        ensures
            self.ready_queue().no_duplicates(),
            forall|k: int|
                0 <= k < self.ready_queue().len() ==> (#[trigger] self.ready_queue()[k])
                    < self.tasks().len(),
            forall|s: u8| #[trigger]
                self.routes().contains_key(s) ==> self.routes()[s] < self.tasks().len(),
            forall|s1: u8, s2: u8|
                #![trigger self.routes()[s1], self.routes()[s2]]
                self.routes().contains_key(s1) && self.routes().contains_key(s2) && s1 != s2
                    ==> self.routes()[s1] != self.routes()[s2],
            forall|s: u8, k: int|
                #![trigger self.routes()[s], self.ready_queue()[k]]
                self.routes().contains_key(s) && 0 <= k < self.ready_queue().len()
                    ==> self.routes()[s] != self.ready_queue()[k],
            self.ready_queue().len() + self.routes().dom().len() <= self.tasks().len(),
    {
    }

    /// A scheduler with no tasks: nothing queued, nothing parked.
    pub fn new() -> (e: Self)
        ensures
            e.wf(),
            e.tasks() == Seq::<T>::empty(),
            e.ready_queue() == Seq::<u8>::empty(),
            e.routes() == Map::<u8, u8>::empty(),
    {
        Executor { table: Vec::new(), ready: queue_new(), router: Router::new() }
    }

    /// Adds a task to the table and queues it for its first resumption.
    /// Fails, leaving the scheduler unchanged, exactly when all 8 table
    /// slots are taken; the tasks already spawned are unaffected.
    pub fn spawn(&mut self, task: T) -> (r: Result<(), CapacityExceeded>)
        requires
            old(self).wf(),
        ensures
            final(self).wf(),
            r is Ok <==> old(self).tasks().len() < 8,
            r is Ok ==> final(self).tasks() == old(self).tasks().push(task),
            r is Ok ==> final(self).ready_queue() == old(self).ready_queue().push(
                old(self).tasks().len() as u8,
            ),
            r is Ok ==> final(self).routes() == old(self).routes(),
            r is Err ==> *final(self) == *old(self),
    {
        if self.table.len() >= 8 {
            return Err(CapacityExceeded);
        }
        let index: u8 = self.table.len() as u8;
        self.table.push(task);
        let pushed = queue_push(&mut self.ready, index);
        proof {
            assert(queue_of(old(self).ready).len() < 8);
            assert(pushed is Ok);
            assert forall|k: int|
                0 <= k < queue_of(self.ready).len() implies (#[trigger] queue_of(self.ready)[k])
                < self.table@.len() by {
                if k < queue_of(self.ready).len() - 1 {
                    assert(queue_of(self.ready)[k] == queue_of(old(self).ready)[k]);
                }
            }
            assert(queue_of(self.ready).no_duplicates()) by {
                let q0 = queue_of(old(self).ready);
                assert forall|p: int, q: int|
                    0 <= p < q < queue_of(self.ready).len() implies queue_of(self.ready)[p]
                    != queue_of(self.ready)[q] by {
                    if q < q0.len() {
                        assert(q0[p] != q0[q]);
                    } else {
                        assert(queue_of(self.ready)[q] == index);
                        assert(q0[p] < old(self).table@.len());
                    }
                }
            }
        }
        Ok(())
    }

    /// Resumes every queued task once, in FIFO order, parking each task
    /// that declares interest in a signal under that signal in the router.
    /// Afterwards the ready queue is empty; signals already parked stay
    /// parked (a task parking on an identifier another task had claimed
    /// replaces that claim — last to park wins). Tasks that were not queued
    /// are left untouched, and every routing entry is either one that was
    /// already there or parks a task that was queued.
    pub fn drain_ready(&mut self)
        requires
            old(self).wf(),
        ensures
            final(self).wf(),
            final(self).ready_queue().len() == 0,
            final(self).tasks().len() == old(self).tasks().len(),
            old(self).routes().dom().subset_of(final(self).routes().dom()),
            forall|k: int|
                0 <= k < old(self).tasks().len() && !old(self).ready_queue().contains(k as u8)
                    ==> final(self).tasks()[k] == old(self).tasks()[k],
            forall|s: u8| #[trigger]
                final(self).routes().contains_key(s) ==> (old(self).routes().contains_key(s)
                    && final(self).routes()[s] == old(self).routes()[s]) || old(
                    self,
                ).ready_queue().contains(final(self).routes()[s]),
    {
        loop
            invariant
                self.wf(),
                self.table@.len() == old(self).table@.len(),
                old(self).routes().dom().subset_of(self.routes().dom()),
                forall|k: int|
                    0 <= k < queue_of(self.ready).len() ==> old(self).ready_queue().contains(
                        #[trigger] queue_of(self.ready)[k],
                    ),
                forall|k: int|
                    0 <= k < self.table@.len() && !old(self).ready_queue().contains(k as u8)
                        ==> self.table@[k] == old(self).table@[k],
                forall|s: u8| #[trigger]
                    self.routes().contains_key(s) ==> (old(self).routes().contains_key(s)
                        && self.routes()[s] == old(self).routes()[s]) || old(
                        self,
                    ).ready_queue().contains(self.routes()[s]),
            ensures
                queue_of(self.ready).len() == 0,
            decreases queue_of(self.ready).len(),
        {
            let ghost pre = *self;
            let popped = queue_pop(&mut self.ready);
            match popped {
                None => {
                    break ;
                },
                Some(index) => {
                    proof {
                        let q0 = queue_of(pre.ready);
                        let q1 = queue_of(self.ready);
                        assert(index == q0[0] && q1 == q0.drop_first());
                        assert(forall|k: int| 0 <= k < q1.len() ==> q1[k] == q0[k + 1]);
                        assert(q1.no_duplicates()) by {
                            assert forall|p: int, q: int| 0 <= p < q < q1.len() implies q1[p]
                                != q1[q] by {
                                assert(q0[p + 1] != q0[q + 1]);
                            }
                        }
                        assert(forall|k: int| 0 <= k < q1.len() ==> q1[k] != index);
                        assert((index as int) < self.table@.len());
                        assert(old(self).ready_queue().contains(q0[0]));
                        assert(forall|k: int|
                            0 <= k < q1.len() ==> old(self).ready_queue().contains(
                                #[trigger] q1[k],
                            ));
                    }
                    let step = self.table[index as usize].resume();
                    proof {
                        assert(self.table@.len() == pre.table@.len());
                        assert(self.wf());
                        assert forall|k: int|
                            0 <= k < self.table@.len() && !old(self).ready_queue().contains(
                                k as u8,
                            ) implies self.table@[k] == old(self).table@[k] by {
                            assert(old(self).ready_queue().contains(index));
                            assert(k != index as int);
                            assert(self.table@[k] == pre.table@[k]);
                        }
                    }
                    match step {
                        Step::Park(id) => {
                            proof {
                                use_type_invariant(&id);
                                assert(queue_of(pre.ready).len() >= 1);
                                assert(self.router@.dom().len() < 8);
                            }
                            let ghost mid = *self;
                            let routed = self.router.route(id, index);
                            proof {
                                assert(routed is Ok);
                                let q1 = queue_of(self.ready);
                                let m0 = mid.router@;
                                let m1 = self.router@;
                                assert(m1 == m0.insert(id@, index));
                                vstd::set::axiom_set_insert_len(m0.dom(), id@);
                                assert(m1.dom() =~= m0.dom().insert(id@));
                                // the popped index was neither queued nor parked,
                                // so parking it keeps every slot claim unique
                                assert(forall|s: u8| #[trigger] m0.contains_key(s) ==> m0[s]
                                    != index);
                                assert forall|s: u8| #[trigger] m1.contains_key(s) implies m1[s]
                                    < self.table@.len() by {
                                    if s != id@ {
                                        assert(m0.contains_key(s));
                                    }
                                }
                                assert forall|s1: u8, s2: u8|
                                    #![trigger m1[s1], m1[s2]]
                                    m1.contains_key(s1) && m1.contains_key(s2) && s1 != s2 implies
                                    m1[s1] != m1[s2] by {
                                    if s1 == id@ {
                                        assert(m0.contains_key(s2) && m0[s2] == m1[s2]);
                                    } else if s2 == id@ {
                                        assert(m0.contains_key(s1) && m0[s1] == m1[s1]);
                                    } else {
                                        assert(m0.contains_key(s1) && m0.contains_key(s2));
                                    }
                                }
                                assert forall|s: u8, k: int|
                                    #![trigger m1[s], q1[k]]
                                    m1.contains_key(s) && 0 <= k < q1.len() implies m1[s]
                                    != q1[k] by {
                                    if s != id@ {
                                        assert(m0.contains_key(s) && m0[s] == m1[s]);
                                    }
                                }
                                assert(self.wf());
                                assert forall|s: u8| #[trigger]
                                    m1.contains_key(s) implies (old(self).routes().contains_key(s)
                                    && m1[s] == old(self).routes()[s]) || old(
                                    self,
                                ).ready_queue().contains(m1[s]) by {
                                    if s == id@ {
                                        assert(m1[s] == index);
                                        assert(old(self).ready_queue().contains(index));
                                    } else {
                                        assert(m0.contains_key(s) && m1[s] == m0[s]);
                                    }
                                }
                            }
                        },
                        Step::Pending => {},
                    }
                },
            }
        }
    }

    /// Drains a snapshot, highest identifier first: every task parked on a
    /// signal in the snapshot is removed from the router and appended to the
    /// ready queue, in the snapshot's order; identifiers nobody parked on
    /// are dropped. Tasks are not resumed here.
    #[verifier::rlimit(30)]
    pub fn dispatch(&mut self, signals: Signals)
        requires
            old(self).wf(),
        ensures
            final(self).wf(),
            final(self).tasks() == old(self).tasks(),
            final(self).routes() == old(self).routes().remove_keys(ids_of(signals@)),
            final(self).ready_queue() == old(self).ready_queue() + woken(
                old(self).routes(),
                signals@,
            ),
    {
        let ghost m0 = old(self).routes();
        let ghost q0 = old(self).ready_queue();
        let ghost w0 = signals@;
        let mut s = signals;
        proof {
            assert(self.routes() =~= m0.remove_keys(ids_of(w0).difference(ids_of(s@))));
        }
        loop
            invariant
                self.wf(),
                self.table@ == old(self).table@,
                ids_of(s@).subset_of(ids_of(w0)),
                forall|j: u8| #[trigger]
                    bit_set(s@, j) ==> (self.routes().contains_key(j) <==> m0.contains_key(j)),
                forall|j: u8| #[trigger]
                    bit_set(s@, j) && m0.contains_key(j) ==> self.routes()[j] == m0[j],
                self.routes() == m0.remove_keys(ids_of(w0).difference(ids_of(s@))),
                self.ready_queue() + woken(self.routes(), s@) == q0 + woken(m0, w0),
            ensures
                s@ == 0,
            decreases s@,
        {
            let ghost pre = *self;
            let ghost sw = s@;
            let next = s.next();
            match next {
                None => {
                    break ;
                },
                Some(id) => {
                    proof {
                        crate::bits::lemma_high_bit(sw);
                        assert(id@ == high_bit(sw) && s@ == without_bit(sw, id@));
                        assert(bit_set(sw, id@));
                        assert(!bit_set(s@, id@));
                        assert(ids_of(w0).contains(id@));
                    }
                    let ghost h = id@;
                    let woke = self.router.wake(id);
                    proof {
                        let d0 = ids_of(w0).difference(ids_of(sw));
                        let d1 = ids_of(w0).difference(ids_of(s@));
                        assert(d1 =~= d0.insert(h));
                        assert(forall|j: u8| #[trigger] bit_set(s@, j) ==> bit_set(sw, j) && j
                            != h);
                    }
                    match woke {
                        Some(index) => {
                            proof {
                                let m1 = pre.routes();
                                assert(m1.contains_key(h) && index == m1[h]);
                                vstd::set::axiom_set_remove_len(m1.dom(), h);
                                assert(self.routes().dom() =~= m1.dom().remove(h));
                                assert(m1.dom().len() >= 1);
                                assert(queue_of(self.ready).len() < 8);
                            }
                            let pushed = queue_push(&mut self.ready, index);
                            proof {
                                assert(pushed is Ok);
                                let m1 = pre.routes();
                                let m2 = self.routes();
                                let q1 = queue_of(pre.ready);
                                let q2 = queue_of(self.ready);
                                assert(q2 == q1.push(index));
                                assert(m2 == m1.remove(h));
                                // the index was parked, so it is not queued, and
                                // no other signal routes to it
                                assert(forall|k: int| 0 <= k < q1.len() ==> q1[k] != index);
                                assert(forall|s2: u8| #[trigger] m2.contains_key(s2) ==> m2[s2]
                                    == m1[s2] && s2 != h);
                                assert(forall|s2: u8| #[trigger] m2.contains_key(s2) ==> m2[s2]
                                    != index);
                                assert(q2.no_duplicates()) by {
                                    assert forall|p: int, q: int| 0 <= p < q < q2.len() implies q2[p]
                                        != q2[q] by {
                                        if q < q1.len() {
                                            assert(q1[p] != q1[q]);
                                        } else {
                                            assert(q2[q] == index && q2[p] == q1[p]);
                                        }
                                    }
                                }
                                assert forall|s2: u8, k: int|
                                    #![trigger m2[s2], q2[k]]
                                    m2.contains_key(s2) && 0 <= k < q2.len() implies m2[s2]
                                    != q2[k] by {
                                    assert(m1.contains_key(s2));
                                    if k < q1.len() {
                                        assert(m1[s2] != q1[k]);
                                    }
                                }
                                assert(self.wf());
                                // the routing tables agree on every identifier
                                // still in the snapshot, so the rest of the
                                // drain wakes the same tasks
                                lemma_woken_agree(m2, m1, s@);
                                assert(woken(m1, sw) == seq![index] + woken(m1, s@));
                                assert(q1.push(index) + woken(m1, s@) =~= q1 + (seq![index]
                                    + woken(m1, s@)));
                                assert(q2 + woken(m2, s@) == q0 + woken(m0, w0));
                                // one more identifier has now been drained
                                let d0 = ids_of(w0).difference(ids_of(sw));
                                let d1 = ids_of(w0).difference(ids_of(s@));
                                assert(m2 =~= m0.remove_keys(d1)) by {
                                    assert(m1 == m0.remove_keys(d0));
                                    assert(d1 =~= d0.insert(h));
                                }
                            }
                        },
                        None => {
                            proof {
                                let m1 = pre.routes();
                                let m2 = self.routes();
                                assert(m2 =~= m1);
                                assert(woken(m1, sw) == woken(m1, s@));
                                let d0 = ids_of(w0).difference(ids_of(sw));
                                let d1 = ids_of(w0).difference(ids_of(s@));
                                assert(!m0.contains_key(h));
                                assert(m2 =~= m0.remove_keys(d1)) by {
                                    assert(m1 == m0.remove_keys(d0));
                                    assert(d1 =~= d0.insert(h));
                                }
                                assert(self.wf());
                            }
                        },
                    }
                },
            }
        }
        proof {
            crate::bits::lemma_ids_of_empty(0u32);
            assert(ids_of(w0).difference(ids_of(0u32)) =~= ids_of(w0));
            assert(self.routes() == m0.remove_keys(ids_of(w0)));
            assert(self.ready_queue() + woken(self.routes(), 0u32) == self.ready_queue() + Seq::<
                u8,
            >::empty());
            assert(self.ready_queue() + Seq::<u8>::empty() =~= self.ready_queue());
        }
    }

    /// One scheduler iteration: resumes every ready task, then drains the
    /// signal register in one atomic read-and-clear and queues every task
    /// whose signal fired. Returns `false` when no signal was pending — the
    /// caller should enter its low-power wait and try again after the next
    /// hardware event.
    pub fn step(&mut self, register: &mut SignalRegister) -> (progressed: bool)
        requires
            old(self).wf(),
        ensures
            final(self).wf(),
            final(register)@ == 0,
            progressed <==> old(register)@ != 0,
            final(self).tasks().len() == old(self).tasks().len(),
            !progressed ==> final(self).ready_queue().len() == 0,
            forall|k: int|
                0 <= k < old(self).tasks().len() && !old(self).ready_queue().contains(k as u8)
                    ==> final(self).tasks()[k] == old(self).tasks()[k],
    {
        self.drain_ready();
        let signals = Signals::read(register);
        if signals.is_empty() {
            false
        } else {
            self.dispatch(signals);
            true
        }
    }

    /// The number of tasks spawned so far.
    pub fn task_count(&self) -> (n: usize)
        ensures
            n == self.tasks().len(),
    {
        self.table.len()
    }

    /// The number of task indices currently queued for resumption.
    pub fn ready_len(&self) -> (n: usize)
        ensures
            n == self.ready_queue().len(),
    {
        queue_len(&self.ready)
    }

    /// A view of the task at `index`, or `None` past the end of the table.
    pub fn get_task(&self, index: usize) -> (r: Option<&T>)
        ensures
            r is Some <==> index < self.tasks().len(),
            r is Some ==> *r->Some_0 == self.tasks()[index as int],
    {
        if index < self.table.len() {
            Some(&self.table[index])
        } else {
            None
        }
    }

    /// The index of the task currently parked on `signal`, left in place.
    pub fn parked(&self, signal: Id) -> (r: Option<u8>)
        ensures
            r is Some <==> self.routes().contains_key(signal@),
            r is Some ==> r->Some_0 == self.routes()[signal@],
    {
        self.router.pending(signal)
    }
}

} // verus!
