//! The preemptive round-robin scheduler: picking the next runnable process
//! for a hart, and the migration policy that spreads woken and yielded
//! processes over the harts.

use vstd::prelude::*;

use crate::cpu::CONTEXT_SWITCH_TIME;
use crate::cpu::TrapFrame;
use crate::process::slot_pids;
use crate::process::queue_pids;
use crate::process::Kernel;
use crate::process::IDLE_ID;
use crate::process::Process;
use crate::process::ProcessState;
use crate::trap::MIE_MSIE;
use crate::ENABLE_PREEMPTION;

verus! {

broadcast use vstd::seq_lib::lemma_multiset_commutative, vstd::seq_lib::group_to_multiset_ensures, vstd::multiset::group_multiset_axioms;

/// Which migration policy is compiled in: 0 least-busy, 1 round-robin,
/// 2 next-hart.
pub const CRITERIA: usize = 1;

impl Kernel {
    /// Next-hart policy: always the neighbour of the current hart.
    fn next_hart_criteria(&self, hart: usize) -> (t: usize)
        requires
            hart < 4,
        ensures
            t == (hart + 1) % 4,
            t < 4,
    {
        (hart + 1) % 4
    }

    /// Round-robin policy: a global counter, advanced under its own lock.
    fn round_robin_criteria(&mut self) -> (t: usize)
        requires
            old(self).next_hart < 4,
            !old(self).next_hart_lock.is_locked(),
        ensures
            t == old(self).next_hart,
            t < 4,
            final(self).next_hart == ((old(self).next_hart + 1) % 4),
            !final(self).next_hart_lock.is_locked(),
            *final(self) == (Kernel {
                next_hart: final(self).next_hart,
                next_hart_lock: final(self).next_hart_lock,
                ..*old(self)
            }),
    {
        self.next_hart_lock.spin_lock();
        let next_hart = self.next_hart;
        self.next_hart = (self.next_hart + 1) % 4;
        self.next_hart_lock.unlock();
        next_hart
    }

    /// Least-busy policy: a hart whose running slot holds the idle stub if
    /// one exists, else a hart with the shortest ready queue.
    fn least_busy(&self) -> (t: usize)
        ensures
            t < 4,
    {
        let mut least: usize = usize::MAX;
        let mut least_hartid: usize = 0;
        let mut hartid: usize = 0;
        while hartid < 4
            invariant
                hartid <= 4,
                least_hartid < 4,
            decreases 4 - hartid,
        {
            match &self.running[hartid] {
                Option::Some(process) => {
                    if process.pid == crate::process::IDLE_ID {
                        return hartid;
                    }
                },
                Option::None => {},
            }
            let len = self.ready[hartid].len();
            if len < least {
                least = len;
                least_hartid = hartid;
            }
            hartid = hartid + 1;
        }
        least_hartid
    }

    /// The hart a migrating process lands on, under the compiled-in policy
    /// (round-robin here: the global counter's value, which then advances).
    pub fn migration_criteria(&mut self, hart: usize) -> (t: usize)
        requires
            hart < 4,
            old(self).next_hart < 4,
            !old(self).next_hart_lock.is_locked(),
        ensures
            t == old(self).next_hart,
            t < 4,
            final(self).next_hart == ((old(self).next_hart + 1) % 4),
            !final(self).next_hart_lock.is_locked(),
            *final(self) == (Kernel {
                next_hart: final(self).next_hart,
                next_hart_lock: final(self).next_hart_lock,
                ..*old(self)
            }),
    {
        match CRITERIA {
            0 => {
                proof {
                    assert(false);
                }
                self.least_busy()
            },
            1 => self.round_robin_criteria(),
            2 => {
                proof {
                    assert(false);
                }
                self.next_hart_criteria(hart)
            },
            _ => {
                proof {
                    assert(false);
                }
                0
            },
        }
    }
}

impl Kernel {
    /// Mark `next` as running on `hart`, install it in the running slot,
    /// and hand back its saved context and scheduling credit.
    fn prepare_running_process(&mut self, hart: usize, next: Process) -> (r: (TrapFrame, u64))
        requires
            old(self).wf_shape(),
            hart < 4,
            old(self).running[hart as int].is_none(),
            next.pid != IDLE_ID ==> next.satp_ok(),
            next.quantum_ok(),
            forall|h: int| 0 <= h < 4 && h != hart ==> old(self).idle_ok_at(h),
            old(self).idle[hart as int].is_some() || next.pid == IDLE_ID,
            old(self).all_pids().to_multiset().add(
                slot_pids(Option::Some(next)).to_multiset(),
            ) == old(self).registry_pids().to_multiset(),
        ensures
            final(self).wf(),
            r.0 == next.trap_frame,
            r.1 == next.quantum,
            final(self).running@ == old(self).running@.update(
                hart as int,
                Option::Some(
                    (Process { state: ProcessState::Running(hart as usize), ..next }),
                ),
            ),
            *final(self) == (Kernel { running: final(self).running, ..*old(self) }),
    {
        let mut next = next;
        next.state = ProcessState::Running(hart);
        let trap_frame = next.trap_frame;
        let quantum = next.quantum;
        let ghost orig = next;
        proof {
            assert(slot_pids(Option::Some(next)) =~= slot_pids(Option::Some(orig)));
        }
        self.running_process_replace(hart, next);
        (trap_frame, quantum)
    }

    /// Pick the next work for `hart`: pop the front of its ready queue, or
    /// fall back to the hart's idle stub. The chosen process is installed
    /// as running, the next timer interrupt is programmed from its quantum,
    /// and the software interrupt is enabled exactly when the hart idles
    /// (so a migration can wake it). Returns the context to resume.
    pub fn schedule(&mut self, hart: usize, mtime: u64) -> (frame: TrapFrame)
        requires
            old(self).wf(),
            hart < 4,
            old(self).running[hart as int].is_none(),
        ensures
            final(self).wf(),
            old(self).ready[hart as int]@.len() > 0 ==> ({
                let p = old(self).ready[hart as int]@[0];
                &&& final(self).running@ == old(self).running@.update(
                    hart as int,
                    Option::Some(
                        (Process { state: ProcessState::Running(hart as usize), ..p }),
                    ),
                )
                &&& final(self).ready[hart as int]@ == old(self).ready[hart as int]@.drop_first()
                &&& frame == p.trap_frame
                &&& final(self).idle == old(self).idle
                &&& final(self).mie[hart as int] == (old(self).mie[hart as int] & (!MIE_MSIE))
                &&& ((mtime + CONTEXT_SWITCH_TIME * p.quantum <= u64::MAX && ENABLE_PREEMPTION)
                    ==> final(self).mtimecmp[hart as int] == mtime + CONTEXT_SWITCH_TIME
                    * p.quantum)
            }),
            old(self).ready[hart as int]@.len() == 0 ==> ({
                let p = old(self).idle[hart as int]->Some_0;
                &&& final(self).running@ == old(self).running@.update(
                    hart as int,
                    Option::Some(
                        (Process { state: ProcessState::Running(hart as usize), ..p }),
                    ),
                )
                &&& final(self).idle@ == old(self).idle@.update(
                    hart as int,
                    Option::<Process>::None,
                )
                &&& final(self).ready[hart as int]@ == old(self).ready[hart as int]@
                &&& frame == p.trap_frame
                &&& final(self).mie[hart as int] == (old(self).mie[hart as int] | MIE_MSIE)
                &&& ((mtime + CONTEXT_SWITCH_TIME * p.quantum <= u64::MAX && ENABLE_PREEMPTION)
                    ==> final(self).mtimecmp[hart as int] == mtime + CONTEXT_SWITCH_TIME
                    * p.quantum)
            }),
            forall|h: int| 0 <= h < 4 && h != hart ==> final(self).ready[h]@ == old(self).ready[h]@,
            final(self).blocked == old(self).blocked,
            final(self).sleeping == old(self).sleeping,
            final(self).pid_list == old(self).pid_list,
            final(self).mem == old(self).mem,
            final(self).next_pid == old(self).next_pid,
            final(self).next_hart == old(self).next_hart,
            final(self).reading == old(self).reading,
            final(self).line_buffer == old(self).line_buffer,
            final(self).msip == old(self).msip,
    {
        let mut l = self.ready_locks[hart];
        l.spin_lock();
        self.ready_locks[hart] = l;
        let popped = self.ready[hart].pop_front();
        let mut l2 = self.ready_locks[hart];
        l2.unlock();
        self.ready_locks[hart] = l2;
        proof {
            crate::lock::lemma_unlocked_eq(
                self.ready_locks[hart as int],
                old(self).ready_locks[hart as int],
            );
            assert(self.ready_locks@ =~= old(self).ready_locks@);
        }
        match popped {
            Option::Some(next) => {
                proof {
                    let ok = *old(self);
                    let nk = *self;
                    crate::process::lemma_all_pids_multiset(ok);
                    crate::process::lemma_all_pids_multiset(nk);
                    crate::process::lemma_queue_pids_remove(ok.ready[hart as int]@, 0);
                    crate::process::lemma_to_multiset_take_out(
                        queue_pids(ok.ready[hart as int]@),
                        0,
                    );
                    assert(nk.ready[hart as int]@ =~= ok.ready[hart as int]@.remove(0));
                    assert(queue_pids(nk.ready[hart as int]@).to_multiset() =~= queue_pids(
                        ok.ready[hart as int]@,
                    ).to_multiset().remove(next.pid));
                    crate::process::lemma_to_multiset_singleton(next.pid);
                    assert(slot_pids(Option::Some(next)) =~= seq![next.pid]);
                    assert(queue_pids(ok.ready[hart as int]@)[0] == next.pid);
                    assert(queue_pids(ok.ready[hart as int]@).contains(next.pid));
                    assert(queue_pids(ok.ready[hart as int]@).to_multiset().count(next.pid) > 0);
                    assert(nk.all_pids().to_multiset().add(
                        slot_pids(Option::Some(next)).to_multiset(),
                    ) =~= ok.all_pids().to_multiset()) by {
                        if hart == 0 {
                        } else if hart == 1 {
                        } else if hart == 2 {
                        } else {
                        }
                    }
                    assert forall|h: int| 0 <= h < 4 && h != hart implies self.idle_ok_at(
                        h,
                    ) by {
                        assert(old(self).idle_ok_at(h));
                    }
                    assert(old(self).idle_ok_at(hart as int));
                }
                let r = self.prepare_running_process(hart, next);
                let ghost after_prep = *self;
                self.disable_machine_software_interrupt(hart);
                self.schedule_machine_timer_interrupt(hart, mtime, r.1);
                proof {
                    assert forall|h: int| 0 <= h < 4 implies self.idle_ok_at(h) by {
                        assert(after_prep.idle_ok_at(h));
                    }
                }
                r.0
            },
            Option::None => {
                proof {
                    assert(old(self).idle_ok_at(hart as int));
                    assert(self.idle[hart as int].is_some());
                }
                let idle = self.idle_process_take(hart);
                proof {
                    let nk = *self;
                    assert(slot_pids(Option::Some(idle)) =~= Seq::<u64>::empty());
                    crate::process::lemma_to_multiset_empty();
                    assert(nk.all_pids().to_multiset().add(
                        slot_pids(Option::Some(idle)).to_multiset(),
                    ) =~= nk.all_pids().to_multiset());
                    assert forall|h: int| 0 <= h < 4 && h != hart implies self.idle_ok_at(
                        h,
                    ) by {
                        assert(old(self).idle_ok_at(h));
                    }
                }
                let r = self.prepare_running_process(hart, idle);
                let ghost after_prep = *self;
                self.enable_machine_software_interrupt(hart);
                self.schedule_machine_timer_interrupt(hart, mtime, r.1);
                proof {
                    assert forall|h: int| 0 <= h < 4 implies self.idle_ok_at(h) by {
                        assert(after_prep.idle_ok_at(h));
                    }
                }
                r.0
            },
        }
    }
}

/// One round-robin step of a FIFO ready queue: the front runs and returns
/// to the back.
pub open spec fn rotate(q: Seq<u64>) -> Seq<u64> {
    q.drop_first().push(q.first())
}

/// `n` round-robin steps.
pub open spec fn rotate_n(q: Seq<u64>, n: nat) -> Seq<u64>
    decreases n,
{
    if n == 0 {
        q
    } else {
        rotate(rotate_n(q, (n - 1) as nat))
    }
}

/// After `i` steps, the queue has turned by `i`: the process that entered
/// at position `i` stands at the front.
pub proof fn lemma_rotation_front(q: Seq<u64>, i: nat)
    requires
        q.len() >= 1,
        i < q.len(),
    ensures
        rotate_n(q, i) == q.skip(i as int) + q.take(i as int),
        rotate_n(q, i).first() == q[i as int],
    decreases i,
{
    if i == 0 {
        assert(rotate_n(q, 0) =~= q.skip(0) + q.take(0));
    } else {
        lemma_rotation_front(q, (i - 1) as nat);
        let prev = q.skip(i as int - 1) + q.take(i as int - 1);
        assert(rotate(prev) =~= q.skip(i as int) + q.take(i as int));
    }
}

/// Law: round-robin queueing does not starve. With the scheduler taking
/// the front of the queue and a preempted process re-entering at the back,
/// any process standing at position `i` of a queue of K runnable processes
/// holds the CPU within the first K preemptions: it reaches the front after
/// exactly `i` steps.
pub proof fn lemma_round_robin_no_starvation(q: Seq<u64>, i: int)
    requires
        q.len() >= 1,
        0 <= i < q.len(),
    ensures
        exists|k: nat| k < q.len() && #[trigger] rotate_n(q, k).first() == q[i],
{
    lemma_rotation_front(q, i as nat);
    assert(rotate_n(q, i as nat).first() == q[i]);
}

} // verus!
