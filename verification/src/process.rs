//! Processes and the kernel's process tables: per-hart running slots, idle
//! stubs and ready queues, the global blocked, sleeping and PID lists, and
//! the transitions between them.
//!
//! The central invariant (see [`Kernel::wf`]): every live non-idle PID is
//! reachable from exactly one of the running slots, ready queues, blocked
//! queue or sleeping queue, and the PID registry holds exactly those PIDs.

use vstd::prelude::*;

use std::collections::VecDeque;

use crate::cpu::spec_build_satp;
use crate::cpu::TrapFrame;
use crate::lock::Mutex;
use crate::page::Memory;
use vstd::multiset::Multiset;

verus! {

broadcast use vstd::seq_lib::lemma_multiset_commutative, vstd::seq_lib::group_to_multiset_ensures, vstd::multiset::group_multiset_axioms;

/// The reserved PID of the per-hart idle stubs.
pub const IDLE_ID: u64 = 0xffff_ffff_ffff_ffff;

/// Scheduling credit, in timer ticks, that a fresh process starts with.
pub const DEFAULT_QUANTUM: u64 = 1;

/// Process states: Ready to run, Running on a hart, Blocked on a join,
/// or Sleeping until an mtime deadline.
#[derive(Clone, Copy, PartialEq, Eq, Structural)]
pub enum ProcessState {
    Ready,
    Running(usize),
    Blocked,
    Sleeping(u64),
}

/// A process: its saved context, stack and root-table addresses, state,
/// scheduling credit, identity, and migration bookkeeping.
#[derive(Clone, Copy)]
pub struct Process {
    pub trap_frame: TrapFrame,
    pub stack: u64,
    pub state: ProcessState,
    pub page_table: u64,
    pub quantum: u64,
    pub pid: u64,
    pub blocking_pid: Option<u64>,
    pub sleep_until: u64,
    pub previous_hart: usize,
}

impl Process {
    /// The saved context the restore stub would load.
    pub fn get_trap_frame(&self) -> (t: TrapFrame)
        ensures
            t == self.trap_frame,
    {
        self.trap_frame
    }

    /// The scheduling credit stays small enough that a timer deadline
    /// computed from it fits the machine word.
    pub open spec fn quantum_ok(self) -> bool {
        crate::cpu::CONTEXT_SWITCH_TIME * self.quantum <= u64::MAX
    }

    /// A non-idle process carries its own PID as the ASID of its `satp`.
    pub open spec fn satp_ok(self) -> bool {
        self.pid != IDLE_ID ==> self.trap_frame.satp == spec_build_satp(
            self.pid,
            self.page_table,
        )
    }
}

/// The PIDs a running slot contributes to the live set (the idle stub
/// contributes none).
pub open spec fn slot_pids(s: Option<Process>) -> Seq<u64> {
    match s {
        Option::Some(p) => if p.pid == IDLE_ID {
            Seq::empty()
        } else {
            seq![p.pid]
        },
        Option::None => Seq::empty(),
    }
}

pub open spec fn queue_pids(q: Seq<Process>) -> Seq<u64> {
    q.map_values(|p: Process| p.pid)
}

/// The whole kernel state of the machine: four harts' slots and queues,
/// the global lists with their locks, the interrupt-controller state the
/// kernel programs, and the page-grained memory.
pub struct Kernel {
    pub running: [Option<Process>; 4],
    pub idle: [Option<Process>; 4],
    pub ready: [VecDeque<Process>; 4],
    pub ready_locks: [Mutex; 4],
    pub blocked: VecDeque<Process>,
    pub blocked_lock: Mutex,
    pub sleeping: VecDeque<Process>,
    pub sleeping_lock: Mutex,
    pub pid_list: VecDeque<(u64, Option<u64>)>,
    pub pid_list_lock: Mutex,
    pub next_pid: u64,
    pub next_pid_lock: Mutex,
    pub next_hart: usize,
    pub next_hart_lock: Mutex,
    pub print_lock: Mutex,
    pub mem: Memory,
    pub layout: SectionLayout,
    pub mtimecmp: [u64; 4],
    pub msip: [bool; 4],
    pub mie: [u64; 4],
    pub reading: bool,
    pub line_buffer: Vec<u8>,
    pub plic_threshold: u32,
    pub plic_uart_priority: u32,
    pub plic_uart_enabled: bool,
}

impl Kernel {
    /// Every live non-idle PID, by location: running slots first, then the
    /// per-hart ready queues, then blocked and sleeping.
    pub open spec fn all_pids(self) -> Seq<u64> {
        slot_pids(self.running[0]) + slot_pids(self.running[1]) + slot_pids(self.running[2])
            + slot_pids(self.running[3]) + queue_pids(self.ready[0]@) + queue_pids(self.ready[1]@)
            + queue_pids(self.ready[2]@) + queue_pids(self.ready[3]@) + queue_pids(self.blocked@)
            + queue_pids(self.sleeping@)
    }

    /// The registry's PIDs, in registry order.
    pub open spec fn registry_pids(self) -> Seq<u64> {
        self.pid_list@.map_values(|e: (u64, Option<u64>)| e.0)
    }

    pub open spec fn registry_contains(self, pid: u64) -> bool {
        exists|i: int| 0 <= i < self.pid_list@.len() && (#[trigger] self.pid_list@[i]).0 == pid
    }

    /// An element fit for a ready queue.
    pub open spec fn ready_elem_ok(p: Process) -> bool {
        &&& p.state == ProcessState::Ready
        &&& p.pid != IDLE_ID
        &&& p.satp_ok()
        &&& p.quantum_ok()
    }

    pub open spec fn locks_ok(self) -> bool {
        &&& !self.ready_locks[0].is_locked()
        &&& !self.ready_locks[1].is_locked()
        &&& !self.ready_locks[2].is_locked()
        &&& !self.ready_locks[3].is_locked()
        &&& !self.blocked_lock.is_locked()
        &&& !self.sleeping_lock.is_locked()
        &&& !self.pid_list_lock.is_locked()
        &&& !self.next_pid_lock.is_locked()
        &&& !self.next_hart_lock.is_locked()
        &&& !self.print_lock.is_locked()
    }

    /// The process-table invariant.
    ///
    /// Chiefly: the live PIDs — the union of the per-hart running slots,
    /// per-hart ready queues, blocked queue and sleeping queue — are exactly
    /// the PIDs the registry holds, each in exactly one place (the multiset
    /// equality below says both at once, since the registry is duplicate
    /// free). Around that: states match locations, idle stubs are per-hart
    /// singletons with the reserved PID, every lock is released between
    /// kernel paths, and each live process's `satp` encodes its own PID.
    pub open spec fn wf(self) -> bool {
        &&& self.all_pids().to_multiset() == self.registry_pids().to_multiset()
        &&& self.wf_shape()
        &&& self.idle_ok()
    }

    /// Hart `h` can always fall back to an idle stub: one sits in its idle
    /// slot, or it is the one running.
    pub open spec fn idle_ok_at(self, h: int) -> bool {
        self.idle[h].is_some() || (self.running[h] matches Option::Some(p) && p.pid == IDLE_ID)
    }

    pub open spec fn idle_ok(self) -> bool {
        forall|h: int| 0 <= h < 4 ==> self.idle_ok_at(h)
    }

    /// Everything `wf` asks for except the PID partition itself; the state
    /// a kernel path passes through while it carries one process in hand.
    pub open spec fn wf_shape(self) -> bool {
        &&& forall|i: int, j: int|
            0 <= i < j < self.pid_list@.len() ==> (#[trigger] self.pid_list@[i]).0 != (
            #[trigger] self.pid_list@[j]).0
        &&& forall|i: int|
            0 <= i < self.pid_list@.len() ==> (#[trigger] self.pid_list@[i]).0 <= self.next_pid
        &&& self.next_pid < IDLE_ID
        &&& forall|h: int, i: int|
            0 <= h < 4 && 0 <= i < self.ready[h]@.len() ==> Kernel::ready_elem_ok(
                #[trigger] self.ready[h]@[i],
            )
        &&& forall|i: int|
            0 <= i < self.blocked@.len() ==> (#[trigger] self.blocked@[i]).state
                == ProcessState::Blocked && self.blocked@[i].pid != IDLE_ID
                && self.blocked@[i].satp_ok() && self.blocked@[i].quantum_ok()
        &&& forall|i: int|
            0 <= i < self.sleeping@.len() ==> (((#[trigger] self.sleeping@[i]).state matches ProcessState::Sleeping(_))
                && self.sleeping@[i].pid != IDLE_ID && self.sleeping@[i].satp_ok()
                && self.sleeping@[i].quantum_ok())
        &&& forall|h: int|
            0 <= h < 4 ==> ((#[trigger] self.running[h]) matches Option::Some(p) ==> ((p.pid
                == IDLE_ID || (p.state == ProcessState::Running(h as usize) && p.satp_ok()))
                && p.quantum_ok()))
        &&& forall|h: int|
            0 <= h < 4 ==> ((#[trigger] self.idle[h]) matches Option::Some(p) ==> (p.pid
                == IDLE_ID && p.quantum_ok()))
        &&& self.locks_ok()
        &&& self.next_hart < 4
        &&& self.mem.wf()
    }

    /// Hand out a fresh PID under the counter's lock.
    pub fn get_next_pid(&mut self) -> (pid: u64)
        requires
            old(self).wf(),
            old(self).next_pid + 1 < IDLE_ID,
        ensures
            final(self).wf(),
            pid == final(self).next_pid,
            final(self).next_pid == old(self).next_pid + 1,
            *final(self) == (Kernel {
                next_pid: final(self).next_pid,
                next_pid_lock: final(self).next_pid_lock,
                ..*old(self)
            }),
            !final(self).registry_contains(pid),
    {
        self.next_pid_lock.spin_lock();
        self.next_pid = self.next_pid + 1;
        let pid = self.next_pid;
        self.next_pid_lock.unlock();
        proof {
            assert(!self.registry_contains(pid));
            assert forall|h: int| 0 <= h < 4 implies self.idle_ok_at(h) by {
                assert(old(self).idle_ok_at(h));
            }
        }
        pid
    }

    /// Whether `pid` is registered, i.e. live.
    pub fn pid_list_contains(&mut self, pid: u64) -> (r: bool)
        requires
            old(self).wf(),
        ensures
            final(self).wf(),
            *final(self) == (Kernel { pid_list_lock: final(self).pid_list_lock, ..*old(self) }),
            r == old(self).registry_contains(pid),
    {
        self.pid_list_lock.spin_lock();
        let n = self.pid_list.len();
        let mut i: usize = 0;
        let mut found = false;
        while i < n
            invariant
                n == self.pid_list@.len(),
                0 <= i <= n,
                found == exists|j: int| 0 <= j < i && (#[trigger] self.pid_list@[j]).0 == pid,
            decreases n - i,
        {
            if self.pid_list[i].0 == pid {
                found = true;
            }
            i = i + 1;
        }
        self.pid_list_lock.unlock();
        proof {
            assert forall|h: int| 0 <= h < 4 implies self.idle_ok_at(h) by {
                assert(old(self).idle_ok_at(h));
            }
        }
        found
    }

    /// Record, in the registry, which PID the exit of `pid` must wake.
    /// A dead `pid` is a no-op.
    pub fn set_blocking_pid(&mut self, pid: u64, blocking_pid: u64)
        requires
            old(self).wf(),
        ensures
            final(self).wf(),
            final(self).registry_pids() == old(self).registry_pids(),
            final(self).all_pids() == old(self).all_pids(),
            final(self).running == old(self).running,
            final(self).idle == old(self).idle,
            final(self).ready == old(self).ready,
            final(self).blocked == old(self).blocked,
            final(self).sleeping == old(self).sleeping,
            final(self).mem == old(self).mem,
            final(self).pid_list@.len() == old(self).pid_list@.len(),
            forall|i: int|
                0 <= i < old(self).pid_list@.len() ==> #[trigger] final(self).pid_list@[i] == (
                if old(self).pid_list@[i].0 == pid {
                    (pid, Option::Some(blocking_pid))
                } else {
                    old(self).pid_list@[i]
                }),
    {
        self.pid_list_lock.spin_lock();
        let ghost old_list = self.pid_list@;
        let n = self.pid_list.len();
        let mut i: usize = 0;
        while i < n
            invariant
                old(self).wf(),
                n == self.pid_list@.len(),
                n == old_list.len(),
                old_list == old(self).pid_list@,
                0 <= i <= n,
                *self == (Kernel {
                    pid_list: self.pid_list,
                    pid_list_lock: self.pid_list_lock,
                    ..*old(self)
                }),
                self.pid_list_lock.is_locked(),
                forall|j: int|
                    0 <= j < n ==> #[trigger] self.pid_list@[j] == (if j < i && old_list[j].0
                        == pid {
                        (pid, Option::Some(blocking_pid))
                    } else {
                        old_list[j]
                    }),
            decreases n - i,
        {
            if self.pid_list[i].0 == pid {
                self.pid_list.remove(i);
                self.pid_list.insert(i, (pid, Option::Some(blocking_pid)));
            }
            i = i + 1;
        }
        self.pid_list_lock.unlock();
        proof {
            assert(self.registry_pids() =~= old(self).registry_pids());
            assert(self.all_pids() == old(self).all_pids());
            assert forall|h: int| 0 <= h < 4 implies self.idle_ok_at(h) by {
                assert(old(self).idle_ok_at(h));
            }
        }
    }
}

/// Mapping a push through the PID view.
pub proof fn lemma_queue_pids_push(q: Seq<Process>, p: Process)
    ensures
        queue_pids(q.push(p)) == queue_pids(q).push(p.pid),
{
    assert(queue_pids(q.push(p)) =~= queue_pids(q).push(p.pid));
}

/// Mapping a removal through the PID view.
pub proof fn lemma_queue_pids_remove(q: Seq<Process>, i: int)
    requires
        0 <= i < q.len(),
    ensures
        queue_pids(q.remove(i)) == queue_pids(q).remove(i),
{
    assert(queue_pids(q.remove(i)) =~= queue_pids(q).remove(i));
}

pub proof fn lemma_to_multiset_empty()
    ensures
        Seq::<u64>::empty().to_multiset() =~= Multiset::<u64>::empty(),
{
    assert forall|x: u64| Seq::<u64>::empty().to_multiset().count(x) == 0 by {
        assert(!Seq::<u64>::empty().contains(x));
    }
}

pub proof fn lemma_to_multiset_singleton(x: u64)
    ensures
        seq![x].to_multiset() =~= Multiset::<u64>::empty().insert(x),
{
    lemma_to_multiset_empty();
    assert(seq![x] =~= Seq::<u64>::empty().push(x));
    assert(Seq::<u64>::empty().push(x).to_multiset() =~= Seq::<u64>::empty()
        .to_multiset().insert(x));
}

pub proof fn lemma_to_multiset_push(q: Seq<u64>, x: u64)
    ensures
        q.push(x).to_multiset() =~= q.to_multiset().insert(x),
{
    assert(q.push(x).to_multiset() =~= q.to_multiset().insert(x));
}

pub proof fn lemma_to_multiset_take_out(q: Seq<u64>, i: int)
    requires
        0 <= i < q.len(),
    ensures
        q.remove(i).to_multiset() =~= q.to_multiset().remove(q[i]),
{
    assert(q.remove(i).to_multiset() =~= q.to_multiset().remove(q[i]));
}

/// The live PIDs' multiset, segment by segment.
pub proof fn lemma_all_pids_multiset(k: Kernel)
    ensures
        k.all_pids().to_multiset() == slot_pids(k.running[0]).to_multiset().add(
            slot_pids(k.running[1]).to_multiset(),
        ).add(slot_pids(k.running[2]).to_multiset()).add(
            slot_pids(k.running[3]).to_multiset(),
        ).add(queue_pids(k.ready[0]@).to_multiset()).add(
            queue_pids(k.ready[1]@).to_multiset(),
        ).add(queue_pids(k.ready[2]@).to_multiset()).add(
            queue_pids(k.ready[3]@).to_multiset(),
        ).add(queue_pids(k.blocked@).to_multiset()).add(queue_pids(k.sleeping@).to_multiset()),
{
    let s0 = slot_pids(k.running[0]);
    let s1 = slot_pids(k.running[1]);
    let s2 = slot_pids(k.running[2]);
    let s3 = slot_pids(k.running[3]);
    let s4 = queue_pids(k.ready[0]@);
    let s5 = queue_pids(k.ready[1]@);
    let s6 = queue_pids(k.ready[2]@);
    let s7 = queue_pids(k.ready[3]@);
    let s8 = queue_pids(k.blocked@);
    let s9 = queue_pids(k.sleeping@);
    vstd::seq_lib::lemma_multiset_commutative(s0, s1);
    vstd::seq_lib::lemma_multiset_commutative(s0 + s1, s2);
    vstd::seq_lib::lemma_multiset_commutative(s0 + s1 + s2, s3);
    vstd::seq_lib::lemma_multiset_commutative(s0 + s1 + s2 + s3, s4);
    vstd::seq_lib::lemma_multiset_commutative(s0 + s1 + s2 + s3 + s4, s5);
    vstd::seq_lib::lemma_multiset_commutative(s0 + s1 + s2 + s3 + s4 + s5, s6);
    vstd::seq_lib::lemma_multiset_commutative(s0 + s1 + s2 + s3 + s4 + s5 + s6, s7);
    vstd::seq_lib::lemma_multiset_commutative(
        s0 + s1 + s2 + s3 + s4 + s5 + s6 + s7,
        s8,
    );
    vstd::seq_lib::lemma_multiset_commutative(
        s0 + s1 + s2 + s3 + s4 + s5 + s6 + s7 + s8,
        s9,
    );
    assert(k.all_pids() == s0 + s1 + s2 + s3 + s4 + s5 + s6 + s7 + s8 + s9);
    assert((s0 + s1).to_multiset() =~= s0.to_multiset().add(s1.to_multiset()));
    assert((s0 + s1 + s2).to_multiset() =~= (s0 + s1).to_multiset().add(s2.to_multiset()));
    assert((s0 + s1 + s2 + s3).to_multiset() =~= (s0 + s1 + s2).to_multiset().add(
        s3.to_multiset(),
    ));
    assert((s0 + s1 + s2 + s3 + s4).to_multiset() =~= (s0 + s1 + s2 + s3).to_multiset().add(
        s4.to_multiset(),
    ));
    assert((s0 + s1 + s2 + s3 + s4 + s5).to_multiset() =~= (s0 + s1 + s2 + s3
        + s4).to_multiset().add(s5.to_multiset()));
    assert((s0 + s1 + s2 + s3 + s4 + s5 + s6).to_multiset() =~= (s0 + s1 + s2 + s3 + s4
        + s5).to_multiset().add(s6.to_multiset()));
    assert((s0 + s1 + s2 + s3 + s4 + s5 + s6 + s7).to_multiset() =~= (s0 + s1 + s2 + s3 + s4 + s5
        + s6).to_multiset().add(s7.to_multiset()));
    assert((s0 + s1 + s2 + s3 + s4 + s5 + s6 + s7 + s8).to_multiset() =~= (s0 + s1 + s2 + s3 + s4
        + s5 + s6 + s7).to_multiset().add(s8.to_multiset()));
    assert((s0 + s1 + s2 + s3 + s4 + s5 + s6 + s7 + s8 + s9).to_multiset() =~= (s0 + s1 + s2 + s3
        + s4 + s5 + s6 + s7 + s8).to_multiset().add(s9.to_multiset()));
}

impl Kernel {
    /// The process running on `hart` (not meaningful while the slot is
    /// empty mid-switch).
    pub fn running_process(&self, hart: usize) -> (p: &Process)
        requires
            hart < 4,
            self.running[hart as int].is_some(),
        ensures
            *p == self.running[hart as int]->Some_0,
    {
        match &self.running[hart] {
            Option::Some(p) => p,
            Option::None => {
                proof {
                    assert(false);
                }
                &self.running[hart].as_ref().unwrap()
            },
        }
    }

    /// The PID of the process running on `hart`.
    pub fn get_running_process_pid(&self, hart: usize) -> (pid: u64)
        requires
            hart < 4,
            self.running[hart as int].is_some(),
        ensures
            pid == self.running[hart as int]->Some_0.pid,
    {
        self.running_process(hart).pid
    }

    /// Store the trap frame the save stub wrote into the running process.
    /// A trap does not change `satp`, so the frame still carries the
    /// process's own address space.
    pub fn update_running_process_trap_frame(&mut self, hart: usize, trap_frame: TrapFrame)
        requires
            old(self).wf(),
            hart < 4,
            old(self).running[hart as int].is_some(),
            old(self).running[hart as int]->Some_0.pid != IDLE_ID ==> trap_frame.satp
                == spec_build_satp(
                old(self).running[hart as int]->Some_0.pid,
                old(self).running[hart as int]->Some_0.page_table,
            ),
        ensures
            final(self).wf(),
            final(self).running@ == old(self).running@.update(
                hart as int,
                Option::Some(
                    (Process { trap_frame, ..old(self).running[hart as int]->Some_0 }),
                ),
            ),
            *final(self) == (Kernel { running: final(self).running, ..*old(self) }),
    {
        let r = self.running[hart];
        let mut p = r.unwrap();
        p.trap_frame = trap_frame;
        self.running[hart] = Option::Some(p);
        proof {
            let ok = *old(self);
            let nk = *self;
            assert(slot_pids(nk.running[hart as int]) =~= slot_pids(ok.running[hart as int]));
            assert(nk.all_pids() == ok.all_pids()) by {
                if hart == 0 {
                } else if hart == 1 {
                } else if hart == 2 {
                } else {
                }
            }
            assert forall|h: int| 0 <= h < 4 implies self.idle_ok_at(h) by {
                assert(old(self).idle_ok_at(h));
            }
        }
    }

    /// Install `process` as the runner of `hart` (the slot must be empty,
    /// and the process must be the one the caller took out of the tables).
    pub fn running_process_replace(&mut self, hart: usize, process: Process)
        requires
            old(self).wf_shape(),
            hart < 4,
            old(self).running[hart as int].is_none(),
            process.pid == IDLE_ID || (process.state == ProcessState::Running(hart as usize)
                && process.satp_ok()),
            process.quantum_ok(),
            forall|h: int| 0 <= h < 4 && h != hart ==> old(self).idle_ok_at(h),
            old(self).idle[hart as int].is_some() || process.pid == IDLE_ID,
            old(self).all_pids().to_multiset().add(slot_pids(Option::Some(process)).to_multiset())
                == old(self).registry_pids().to_multiset(),
        ensures
            final(self).wf(),
            final(self).running@ == old(self).running@.update(
                hart as int,
                Option::Some(process),
            ),
            *final(self) == (Kernel { running: final(self).running, ..*old(self) }),
    {
        self.running[hart] = Option::Some(process);
        proof {
            let ok = *old(self);
            let nk = *self;
            lemma_all_pids_multiset(ok);
            lemma_all_pids_multiset(nk);
            lemma_to_multiset_empty();
            if process.pid != IDLE_ID {
                lemma_to_multiset_singleton(process.pid);
            }
            assert(slot_pids(ok.running[hart as int]) =~= Seq::<u64>::empty());
            assert(nk.all_pids().to_multiset() =~= ok.all_pids().to_multiset().add(
                slot_pids(Option::Some(process)).to_multiset(),
            )) by {
                if hart == 0 {
                } else if hart == 1 {
                } else if hart == 2 {
                } else {
                }
            }
            assert forall|h: int| 0 <= h < 4 implies self.idle_ok_at(h) by {
                if h != hart {
                    assert(old(self).idle_ok_at(h));
                }
            }
        }
    }

    /// Take the idle stub of `hart` out of its slot.
    pub fn idle_process_take(&mut self, hart: usize) -> (p: Process)
        requires
            old(self).wf_shape(),
            hart < 4,
            old(self).idle[hart as int].is_some(),
        ensures
            p == old(self).idle[hart as int]->Some_0,
            p.pid == IDLE_ID,
            final(self).idle@ == old(self).idle@.update(hart as int, Option::<Process>::None),
            *final(self) == (Kernel { idle: final(self).idle, ..*old(self) }),
            final(self).all_pids() == old(self).all_pids(),
    {
        let r = self.idle[hart];
        self.idle[hart] = Option::None;
        r.unwrap()
    }

    /// Put the idle stub of `hart` back into its slot.
    pub fn idle_process_replace(&mut self, hart: usize, process: Process)
        requires
            hart < 4,
            process.pid == IDLE_ID,
        ensures
            final(self).idle@ == old(self).idle@.update(hart as int, Option::Some(process)),
            *final(self) == (Kernel { idle: final(self).idle, ..*old(self) }),
            final(self).all_pids() == old(self).all_pids(),
    {
        self.idle[hart] = Option::Some(process);
    }

    /// Hand a woken or preempted process to the hart the migration policy
    /// picks: append it to that hart's ready queue under the queue's lock,
    /// and raise a software interrupt there so a sleeping hart notices.
    pub fn migrate_process(&mut self, hart: usize, process: Process)
        requires
            old(self).wf_shape(),
            old(self).idle_ok(),
            hart < 4,
            process.state == ProcessState::Ready,
            process.pid != IDLE_ID,
            process.satp_ok(),
            crate::cpu::CONTEXT_SWITCH_TIME * process.quantum <= u64::MAX,
            old(self).all_pids().to_multiset().insert(process.pid) == old(
                self,
            ).registry_pids().to_multiset(),
        ensures
            final(self).wf(),
            ({
                let t = old(self).next_hart as int;
                let moved = (Process { previous_hart: hart, ..process });
                &&& final(self).ready[t]@ == old(self).ready[t]@.push(moved)
                &&& forall|h: int|
                    0 <= h < 4 && h != t ==> final(self).ready[h]@ == old(self).ready[h]@
                &&& final(self).msip@ == old(self).msip@.update(t, true)
            }),
            final(self).next_hart == ((old(self).next_hart + 1) % 4),
            final(self).running == old(self).running,
            final(self).idle == old(self).idle,
            final(self).blocked == old(self).blocked,
            final(self).sleeping == old(self).sleeping,
            final(self).pid_list == old(self).pid_list,
            final(self).next_pid == old(self).next_pid,
            final(self).mem == old(self).mem,
            final(self).mie == old(self).mie,
            final(self).mtimecmp == old(self).mtimecmp,
            final(self).reading == old(self).reading,
            final(self).line_buffer == old(self).line_buffer,
    {
        let mut process = process;
        process.previous_hart = hart;
        let next_hart = self.migration_criteria(hart);
        let mut l = self.ready_locks[next_hart];
        l.spin_lock();
        self.ready_locks[next_hart] = l;
        self.ready[next_hart].push_back(process);
        self.send_software_interrupt(next_hart);
        let mut l2 = self.ready_locks[next_hart];
        l2.unlock();
        self.ready_locks[next_hart] = l2;
        proof {
            let ok = *old(self);
            let nk = *self;
            let t = ok.next_hart as int;
            lemma_all_pids_multiset(ok);
            lemma_all_pids_multiset(nk);
            lemma_queue_pids_push(ok.ready[t]@, process);
            lemma_to_multiset_push(queue_pids(ok.ready[t]@), process.pid);
            assert(queue_pids(nk.ready[t]@).to_multiset() =~= queue_pids(
                ok.ready[t]@,
            ).to_multiset().insert(process.pid));
            assert(nk.all_pids().to_multiset() =~= ok.all_pids().to_multiset().insert(
                process.pid,
            )) by {
                if t == 0 {
                } else if t == 1 {
                } else if t == 2 {
                } else {
                }
            }
            assert forall|h: int| 0 <= h < 4 implies self.idle_ok_at(h) by {
                assert(old(self).idle_ok_at(h));
            }
        }
    }

    /// Register a new process and append it to the current hart's ready
    /// queue, both under their locks.
    pub fn process_list_add(&mut self, hart: usize, process: Process)
        requires
            old(self).wf(),
            hart < 4,
            process.state == ProcessState::Ready,
            process.pid != IDLE_ID,
            process.pid <= old(self).next_pid,
            process.satp_ok(),
            crate::cpu::CONTEXT_SWITCH_TIME * process.quantum <= u64::MAX,
            !old(self).registry_contains(process.pid),
        ensures
            final(self).wf(),
            final(self).pid_list@ == old(self).pid_list@.push((process.pid, Option::<u64>::None)),
            final(self).ready[hart as int]@ == old(self).ready[hart as int]@.push(process),
            forall|h: int|
                0 <= h < 4 && h != hart as int ==> final(self).ready[h]@ == old(self).ready[h]@,
            final(self).running == old(self).running,
            final(self).idle == old(self).idle,
            final(self).blocked == old(self).blocked,
            final(self).sleeping == old(self).sleeping,
            final(self).mem == old(self).mem,
            final(self).next_pid == old(self).next_pid,
            final(self).next_hart == old(self).next_hart,
            final(self).registry_contains(process.pid),
    {
        self.pid_list_lock.spin_lock();
        let mut l = self.ready_locks[hart];
        l.spin_lock();
        self.ready_locks[hart] = l;
        self.pid_list.push_back((process.pid, Option::None));
        self.ready[hart].push_back(process);
        let mut l2 = self.ready_locks[hart];
        l2.unlock();
        self.ready_locks[hart] = l2;
        self.pid_list_lock.unlock();
        proof {
            let ok = *old(self);
            let nk = *self;
            lemma_all_pids_multiset(ok);
            lemma_all_pids_multiset(nk);
            lemma_queue_pids_push(ok.ready[hart as int]@, process);
            lemma_to_multiset_push(queue_pids(ok.ready[hart as int]@), process.pid);
            lemma_to_multiset_push(ok.registry_pids(), process.pid);
            assert(queue_pids(nk.ready[hart as int]@).to_multiset() =~= queue_pids(
                ok.ready[hart as int]@,
            ).to_multiset().insert(process.pid));
            assert(nk.registry_pids() =~= ok.registry_pids().push(process.pid));
            assert(nk.all_pids().to_multiset() =~= ok.all_pids().to_multiset().insert(
                process.pid,
            )) by {
                if hart == 0 {
                } else if hart == 1 {
                } else if hart == 2 {
                } else {
                }
            }
            assert(nk.registry_pids().to_multiset() =~= ok.registry_pids().to_multiset().insert(
                process.pid,
            ));
            assert forall|i: int, j: int|
                0 <= i < j < nk.pid_list@.len() implies (#[trigger] nk.pid_list@[i]).0 != (
            #[trigger] nk.pid_list@[j]).0 by {
                if j == nk.pid_list@.len() - 1 {
                    assert(nk.pid_list@[i] == ok.pid_list@[i]);
                }
            }
            assert(nk.pid_list@[nk.pid_list@.len() - 1].0 == process.pid);
            assert forall|h: int| 0 <= h < 4 implies self.idle_ok_at(h) by {
                assert(old(self).idle_ok_at(h));
            }
        }
    }

    /// Move the runner of `hart` out of its slot and to the back of a
    /// ready queue chosen by the migration policy.
    pub fn yield_running_process(&mut self, hart: usize)
        requires
            old(self).wf(),
            hart < 4,
            old(self).running[hart as int].is_some(),
            old(self).running[hart as int]->Some_0.pid != IDLE_ID,
        ensures
            final(self).wf(),
            final(self).running@ == old(self).running@.update(
                hart as int,
                Option::<Process>::None,
            ),
            ({
                let t = old(self).next_hart as int;
                let moved = (Process {
                    state: ProcessState::Ready,
                    previous_hart: hart,
                    ..old(self).running[hart as int]->Some_0
                });
                &&& final(self).ready[t]@ == old(self).ready[t]@.push(moved)
                &&& forall|h: int|
                    0 <= h < 4 && h != t ==> final(self).ready[h]@ == old(self).ready[h]@
                &&& final(self).msip@ == old(self).msip@.update(t, true)
            }),
            final(self).next_hart == ((old(self).next_hart + 1) % 4),
            final(self).idle == old(self).idle,
            final(self).blocked == old(self).blocked,
            final(self).sleeping == old(self).sleeping,
            final(self).pid_list == old(self).pid_list,
            final(self).mem == old(self).mem,
            final(self).next_pid == old(self).next_pid,
    {
        let r = self.running[hart];
        let mut running = r.unwrap();
        self.running[hart] = Option::None;
        running.state = ProcessState::Ready;
        proof {
            let ok = *old(self);
            let nk = *self;
            lemma_all_pids_multiset(ok);
            lemma_all_pids_multiset(nk);
            lemma_to_multiset_empty();
            lemma_to_multiset_singleton(running.pid);
            assert(slot_pids(nk.running[hart as int]) =~= Seq::<u64>::empty());
            assert(slot_pids(ok.running[hart as int]) =~= seq![running.pid]);
            assert(nk.all_pids().to_multiset().insert(running.pid)
                =~= ok.all_pids().to_multiset()) by {
                if hart == 0 {
                } else if hart == 1 {
                } else if hart == 2 {
                } else {
                }
            }
            assert forall|h: int| 0 <= h < 4 implies self.idle_ok_at(h) by {
                assert(old(self).idle_ok_at(h));
            }
        }
        self.migrate_process(hart, running);
    }

    /// Move the runner of `hart` to the blocked queue.
    pub fn block_process(&mut self, hart: usize)
        requires
            old(self).wf(),
            hart < 4,
            old(self).running[hart as int].is_some(),
            old(self).running[hart as int]->Some_0.pid != IDLE_ID,
        ensures
            final(self).wf(),
            final(self).running@ == old(self).running@.update(
                hart as int,
                Option::<Process>::None,
            ),
            final(self).blocked@ == old(self).blocked@.push(
                (Process {
                    state: ProcessState::Blocked,
                    ..old(self).running[hart as int]->Some_0
                }),
            ),
            final(self).ready == old(self).ready,
            final(self).sleeping == old(self).sleeping,
            final(self).idle == old(self).idle,
            final(self).pid_list == old(self).pid_list,
            final(self).mem == old(self).mem,
            final(self).next_pid == old(self).next_pid,
            final(self).next_hart == old(self).next_hart,
    {
        self.blocked_lock.spin_lock();
        let r = self.running[hart];
        let mut running = r.unwrap();
        self.running[hart] = Option::None;
        running.state = ProcessState::Blocked;
        self.blocked.push_back(running);
        self.blocked_lock.unlock();
        proof {
            let ok = *old(self);
            let nk = *self;
            lemma_all_pids_multiset(ok);
            lemma_all_pids_multiset(nk);
            lemma_to_multiset_empty();
            lemma_to_multiset_singleton(running.pid);
            lemma_queue_pids_push(ok.blocked@, running);
            lemma_to_multiset_push(queue_pids(ok.blocked@), running.pid);
            assert(queue_pids(nk.blocked@).to_multiset() =~= queue_pids(
                ok.blocked@,
            ).to_multiset().insert(running.pid));
            assert(slot_pids(nk.running[hart as int]) =~= Seq::<u64>::empty());
            assert(slot_pids(ok.running[hart as int]) =~= seq![running.pid]);
            assert(nk.all_pids().to_multiset() =~= ok.all_pids().to_multiset()) by {
                if hart == 0 {
                } else if hart == 1 {
                } else if hart == 2 {
                } else {
                }
            }
            assert forall|h: int| 0 <= h < 4 implies self.idle_ok_at(h) by {
                assert(old(self).idle_ok_at(h));
            }
        }
    }

    /// Move the runner of `hart` to the sleeping queue, to wake when mtime
    /// passes `until`.
    pub fn put_process_to_sleep(&mut self, hart: usize, until: u64)
        requires
            old(self).wf(),
            hart < 4,
            old(self).running[hart as int].is_some(),
            old(self).running[hart as int]->Some_0.pid != IDLE_ID,
        ensures
            final(self).wf(),
            final(self).running@ == old(self).running@.update(
                hart as int,
                Option::<Process>::None,
            ),
            final(self).sleeping@ == old(self).sleeping@.push(
                (Process {
                    state: ProcessState::Sleeping(until),
                    ..old(self).running[hart as int]->Some_0
                }),
            ),
            final(self).ready == old(self).ready,
            final(self).blocked == old(self).blocked,
            final(self).idle == old(self).idle,
            final(self).pid_list == old(self).pid_list,
            final(self).mem == old(self).mem,
            final(self).next_pid == old(self).next_pid,
            final(self).next_hart == old(self).next_hart,
    {
        self.sleeping_lock.spin_lock();
        let r = self.running[hart];
        let mut running = r.unwrap();
        self.running[hart] = Option::None;
        running.state = ProcessState::Sleeping(until);
        self.sleeping.push_back(running);
        self.sleeping_lock.unlock();
        proof {
            let ok = *old(self);
            let nk = *self;
            lemma_all_pids_multiset(ok);
            lemma_all_pids_multiset(nk);
            lemma_to_multiset_empty();
            lemma_to_multiset_singleton(running.pid);
            lemma_queue_pids_push(ok.sleeping@, running);
            lemma_to_multiset_push(queue_pids(ok.sleeping@), running.pid);
            assert(queue_pids(nk.sleeping@).to_multiset() =~= queue_pids(
                ok.sleeping@,
            ).to_multiset().insert(running.pid));
            assert(slot_pids(nk.running[hart as int]) =~= Seq::<u64>::empty());
            assert(slot_pids(ok.running[hart as int]) =~= seq![running.pid]);
            assert(nk.all_pids().to_multiset() =~= ok.all_pids().to_multiset()) by {
                if hart == 0 {
                } else if hart == 1 {
                } else if hart == 2 {
                } else {
                }
            }
            assert forall|h: int| 0 <= h < 4 implies self.idle_ok_at(h) by {
                assert(old(self).idle_ok_at(h));
            }
        }
    }

    /// Return the idle stub running on `hart` to its idle slot.
    pub fn yield_idle_process(&mut self, hart: usize)
        requires
            old(self).wf(),
            hart < 4,
            old(self).running[hart as int].is_some(),
            old(self).running[hart as int]->Some_0.pid == IDLE_ID,
        ensures
            final(self).wf(),
            final(self).running@ == old(self).running@.update(
                hart as int,
                Option::<Process>::None,
            ),
            final(self).idle@ == old(self).idle@.update(
                hart as int,
                Option::Some(
                    (Process {
                        state: ProcessState::Ready,
                        ..old(self).running[hart as int]->Some_0
                    }),
                ),
            ),
            final(self).ready == old(self).ready,
            final(self).blocked == old(self).blocked,
            final(self).sleeping == old(self).sleeping,
            final(self).pid_list == old(self).pid_list,
            final(self).mem == old(self).mem,
            final(self).next_pid == old(self).next_pid,
            final(self).next_hart == old(self).next_hart,
            final(self).msip == old(self).msip,
            final(self).mie == old(self).mie,
    {
        let r = self.running[hart];
        let mut running = r.unwrap();
        self.running[hart] = Option::None;
        running.state = ProcessState::Ready;
        self.idle[hart] = Option::Some(running);
        proof {
            let ok = *old(self);
            let nk = *self;
            lemma_all_pids_multiset(ok);
            lemma_all_pids_multiset(nk);
            assert forall|h: int| 0 <= h < 4 implies self.idle_ok_at(h) by {
                assert(old(self).idle_ok_at(h));
            }
            assert(slot_pids(nk.running[hart as int]) =~= Seq::<u64>::empty());
            assert(slot_pids(ok.running[hart as int]) =~= Seq::<u64>::empty());
            assert(nk.all_pids().to_multiset() =~= ok.all_pids().to_multiset()) by {
                if hart == 0 {
                } else if hart == 1 {
                } else if hart == 2 {
                } else {
                }
            }
        }
    }
}

impl Kernel {
    /// Law: every live PID stands in exactly one place. A registered PID
    /// occurs exactly once in the union of the running slots, ready
    /// queues, blocked queue and sleeping queue; an unregistered PID
    /// occurs nowhere.
    pub proof fn lemma_pid_partition(self, pid: u64)
        requires
            self.wf(),
        ensures
            self.registry_contains(pid) ==> self.all_pids().to_multiset().count(pid) == 1,
            !self.registry_contains(pid) ==> self.all_pids().to_multiset().count(pid) == 0,
    {
        assert(self.registry_pids().no_duplicates()) by {
            assert forall|i: int, j: int|
                0 <= i < self.registry_pids().len() && 0 <= j < self.registry_pids().len() && i
                    != j implies self.registry_pids()[i] != self.registry_pids()[j] by {
                if i < j {
                    assert(self.pid_list@[i].0 != self.pid_list@[j].0);
                } else {
                    assert(self.pid_list@[j].0 != self.pid_list@[i].0);
                }
            }
        }
        self.registry_pids().lemma_multiset_has_no_duplicates();
        if self.registry_contains(pid) {
            let i = choose|i: int|
                0 <= i < self.pid_list@.len() && (#[trigger] self.pid_list@[i]).0 == pid;
            assert(self.registry_pids()[i] == pid);
            assert(self.registry_pids().contains(pid));
        } else {
            if self.registry_pids().to_multiset().count(pid) > 0 {
                assert(self.registry_pids().contains(pid));
                let i = choose|i: int|
                    0 <= i < self.registry_pids().len() && self.registry_pids()[i] == pid;
                assert(self.pid_list@[i].0 == pid);
            }
        }
    }
}

/// A kernel whose process tables, registry and memory are untouched keeps
/// the invariant, whatever happened to the interrupt-controller state.
pub proof fn lemma_wf_same_core(a: Kernel, b: Kernel)
    requires
        a.wf(),
        b.running == a.running,
        b.idle == a.idle,
        b.ready == a.ready,
        b.blocked == a.blocked,
        b.sleeping == a.sleeping,
        b.pid_list == a.pid_list,
        b.next_pid == a.next_pid,
        b.next_hart == a.next_hart,
        b.mem == a.mem,
        b.locks_ok(),
    ensures
        b.wf(),
{
    assert(b.all_pids() == a.all_pids());
    assert(b.registry_pids() == a.registry_pids());
    assert forall|h: int| 0 <= h < 4 implies b.idle_ok_at(h) by {
        assert(a.idle_ok_at(h));
    }
}

/// A sleeper whose deadline has passed at the given mtime reading.
pub open spec fn expired(p: Process, mtime: u64) -> bool {
    match p.state {
        ProcessState::Sleeping(until) => until < mtime,
        _ => false,
    }
}

impl Kernel {
    /// The position of a live PID in the registry.
    pub open spec fn registry_index_of(self, pid: u64) -> int {
        choose|i: int| 0 <= i < self.pid_list@.len() && (#[trigger] self.pid_list@[i]).0 == pid
    }

    /// A process running on some hart is always registered.
    pub proof fn lemma_running_pid_registered(self, hart: int)
        requires
            self.wf(),
            0 <= hart < 4,
            self.running[hart].is_some(),
            self.running[hart]->Some_0.pid != IDLE_ID,
        ensures
            self.registry_contains(self.running[hart]->Some_0.pid),
    {
        let pid = self.running[hart]->Some_0.pid;
        lemma_all_pids_multiset(self);
        lemma_to_multiset_singleton(pid);
        assert(slot_pids(self.running[hart]) =~= seq![pid]);
        assert(self.all_pids().to_multiset().count(pid) >= 1) by {
            if hart == 0 {
            } else if hart == 1 {
            } else if hart == 2 {
            } else {
            }
        }
        assert(self.registry_pids().to_multiset().count(pid) >= 1);
        assert(self.registry_pids().contains(pid));
        let i = choose|i: int|
            0 <= i < self.registry_pids().len() && self.registry_pids()[i] == pid;
        assert((self.pid_list@[i]).0 == pid);
    }

    /// Move the blocked process with this PID, if one exists, to a ready
    /// queue chosen by the migration policy. A dead or unblocked PID is a
    /// no-op.
    pub fn unblock_process_by_pid(&mut self, hart: usize, blocked_pid: u64)
        requires
            old(self).wf(),
            hart < 4,
        ensures
            final(self).wf(),
            final(self).pid_list == old(self).pid_list,
            final(self).running == old(self).running,
            final(self).idle == old(self).idle,
            final(self).sleeping == old(self).sleeping,
            final(self).mem == old(self).mem,
            final(self).next_pid == old(self).next_pid,
            (forall|i: int|
                0 <= i < old(self).blocked@.len() ==> (#[trigger] old(self).blocked@[i]).pid
                    != blocked_pid) ==> (final(self).blocked == old(self).blocked
                && final(self).ready == old(self).ready
                && final(self).next_hart == old(self).next_hart),
            (exists|i: int|
                0 <= i < old(self).blocked@.len() && (#[trigger] old(self).blocked@[i]).pid
                    == blocked_pid) ==> (exists|i: int|
                {
                    let t = old(self).next_hart as int;
                    &&& 0 <= i < old(self).blocked@.len()
                    &&& (#[trigger] old(self).blocked@[i]).pid == blocked_pid
                    &&& forall|j: int|
                        0 <= j < i ==> (#[trigger] old(self).blocked@[j]).pid != blocked_pid
                    &&& final(self).msip@ == old(self).msip@.update(t, true)
                    &&& final(self).blocked@ == old(self).blocked@.remove(i)
                    &&& final(self).ready[t]@ == old(self).ready[t]@.push(
                        (Process {
                            state: ProcessState::Ready,
                            previous_hart: hart,
                            ..old(self).blocked@[i]
                        }),
                    )
                    &&& forall|h: int|
                        0 <= h < 4 && h != t ==> final(self).ready[h]@ == old(self).ready[h]@
                }),
    {
        self.blocked_lock.spin_lock();
        let n = self.blocked.len();
        let mut i: usize = 0;
        let mut pos = n;
        while i < n
            invariant
                n == self.blocked@.len(),
                0 <= i <= n,
                *self == (Kernel { blocked_lock: self.blocked_lock, ..*old(self) }),
                pos == n || (pos < i && self.blocked@[pos as int].pid == blocked_pid),
                pos == n ==> forall|j: int|
                    0 <= j < i ==> (#[trigger] self.blocked@[j]).pid != blocked_pid,
                pos < n ==> forall|j: int|
                    0 <= j < pos ==> (#[trigger] self.blocked@[j]).pid != blocked_pid,
            decreases n - i,
        {
            if pos == n && self.blocked[i].pid == blocked_pid {
                pos = i;
            }
            i = i + 1;
        }
        if pos < n {
            let r = self.blocked.remove(pos);
            let mut woken = r.unwrap();
            woken.state = ProcessState::Ready;
            self.blocked_lock.unlock();
            proof {
                let ok = *old(self);
                let nk = *self;
                lemma_all_pids_multiset(ok);
                lemma_all_pids_multiset(nk);
                lemma_queue_pids_remove(ok.blocked@, pos as int);
                lemma_to_multiset_take_out(queue_pids(ok.blocked@), pos as int);
                assert(queue_pids(nk.blocked@).to_multiset() =~= queue_pids(
                    ok.blocked@,
                ).to_multiset().remove(woken.pid));
                assert(nk.all_pids().to_multiset().insert(woken.pid)
                    =~= ok.all_pids().to_multiset());
                assert forall|h: int| 0 <= h < 4 implies self.idle_ok_at(h) by {
                    assert(old(self).idle_ok_at(h));
                }
            }
            self.migrate_process(hart, woken);
        } else {
            self.blocked_lock.unlock();
            proof {
            assert forall|h: int| 0 <= h < 4 implies self.idle_ok_at(h) by {
                assert(old(self).idle_ok_at(h));
            }
            }
        }
    }

    /// Wake every sleeper whose deadline has passed: mark it Ready and
    /// migrate it to a ready queue. True when at least one woke.
    pub fn try_wake_sleeping(&mut self, hart: usize, mtime: u64) -> (woken: bool)
        requires
            old(self).wf(),
            hart < 4,
        ensures
            final(self).wf(),
            final(self).pid_list == old(self).pid_list,
            final(self).running == old(self).running,
            final(self).idle == old(self).idle,
            final(self).blocked == old(self).blocked,
            final(self).mem == old(self).mem,
            final(self).next_pid == old(self).next_pid,
            forall|i: int|
                0 <= i < final(self).sleeping@.len() ==> !expired(
                    #[trigger] final(self).sleeping@[i],
                    mtime,
                ),
            forall|i: int|
                0 <= i < final(self).sleeping@.len() ==> old(self).sleeping@.contains(
                    #[trigger] final(self).sleeping@[i],
                ),
            forall|i: int|
                0 <= i < old(self).sleeping@.len() && !expired(
                    #[trigger] old(self).sleeping@[i],
                    mtime,
                ) ==> final(self).sleeping@.contains(old(self).sleeping@[i]),
            woken == exists|i: int|
                0 <= i < old(self).sleeping@.len() && expired(
                    #[trigger] old(self).sleeping@[i],
                    mtime,
                ),
            forall|h: int| 0 <= h < 4 && old(self).msip[h] ==> #[trigger] final(self).msip[h],
            woken ==> exists|h: int| 0 <= h < 4 && #[trigger] final(self).msip[h],
            !woken ==> *final(self) == *old(self),
    {
        let mut woke = false;
        let mut done = false;
        while !done
            invariant
                old(self).wf(),
                self.wf(),
                hart < 4,
                self.pid_list == old(self).pid_list,
                self.running == old(self).running,
                self.idle == old(self).idle,
                self.blocked == old(self).blocked,
                self.mem == old(self).mem,
                self.next_pid == old(self).next_pid,
                forall|i: int|
                    0 <= i < self.sleeping@.len() ==> old(self).sleeping@.contains(
                        #[trigger] self.sleeping@[i],
                    ),
                woke ==> exists|i: int|
                    0 <= i < old(self).sleeping@.len() && expired(
                        #[trigger] old(self).sleeping@[i],
                        mtime,
                    ),
                forall|i: int|
                    0 <= i < old(self).sleeping@.len() && !expired(
                        #[trigger] old(self).sleeping@[i],
                        mtime,
                    ) ==> self.sleeping@.contains(old(self).sleeping@[i]),
                forall|h: int| 0 <= h < 4 && old(self).msip[h] ==> #[trigger] self.msip[h],
                woke ==> exists|h: int| 0 <= h < 4 && #[trigger] self.msip[h],
                !woke ==> *self == *old(self),
                done ==> forall|i: int|
                    0 <= i < self.sleeping@.len() ==> !expired(
                        #[trigger] self.sleeping@[i],
                        mtime,
                    ),
            decreases self.sleeping@.len(), (if done {
                0int
            } else {
                1int
            }),
        {
            let ghost head = *self;
            self.sleeping_lock.spin_lock();
            let ghost pre_scan = *self;
            let n = self.sleeping.len();
            let mut i: usize = 0;
            let mut pos = n;
            while i < n
                invariant
                    n == self.sleeping@.len(),
                    0 <= i <= n,
                    *self == pre_scan,
                    pos == n || (pos < i && expired(self.sleeping@[pos as int], mtime)),
                    pos == n ==> forall|j: int|
                        0 <= j < i ==> !expired(#[trigger] self.sleeping@[j], mtime),
                decreases n - i,
            {
                if pos == n {
                    let until_expired = match self.sleeping[i].state {
                        ProcessState::Sleeping(until) => until < mtime,
                        _ => false,
                    };
                    if until_expired {
                        pos = i;
                    }
                }
                i = i + 1;
            }
            if pos == n {
                self.sleeping_lock.unlock();
                proof {
                    crate::lock::lemma_unlocked_eq(self.sleeping_lock, head.sleeping_lock);
                    assert(*self == head);
                }
                done = true;
            } else {
                let ghost pre = *self;
                let r = self.sleeping.remove(pos);
                let mut awake = r.unwrap();
                awake.state = ProcessState::Ready;
                self.sleeping_lock.unlock();
                proof {
                    lemma_all_pids_multiset(pre);
                    lemma_all_pids_multiset(*self);
                    lemma_queue_pids_remove(pre.sleeping@, pos as int);
                    lemma_to_multiset_take_out(queue_pids(pre.sleeping@), pos as int);
                    assert(queue_pids(self.sleeping@).to_multiset() =~= queue_pids(
                        pre.sleeping@,
                    ).to_multiset().remove(awake.pid));
                    assert(self.all_pids().to_multiset().insert(awake.pid)
                        =~= pre.all_pids().to_multiset());
                    assert(old(self).sleeping@.contains(pre.sleeping@[pos as int]));
                    assert forall|j: int|
                        0 <= j < self.sleeping@.len() implies old(self).sleeping@.contains(
                        #[trigger] self.sleeping@[j],
                    ) by {
                        assert(self.sleeping@[j] == pre.sleeping@.remove(pos as int)[j]);
                    }
                    assert forall|i: int|
                        0 <= i < old(self).sleeping@.len() && !expired(
                        #[trigger] old(self).sleeping@[i],
                        mtime,
                    ) implies self.sleeping@.contains(old(self).sleeping@[i]) by {
                        let x = old(self).sleeping@[i];
                        assert(pre.sleeping@.contains(x));
                        let w = choose|w: int|
                            0 <= w < pre.sleeping@.len() && pre.sleeping@[w] == x;
                        assert(expired(pre.sleeping@[pos as int], mtime));
                        assert(w != pos as int);
                        if w < pos as int {
                            assert(self.sleeping@[w] == pre.sleeping@[w]);
                        } else {
                            assert(self.sleeping@[w - 1] == pre.sleeping@[w]);
                        }
                    }
                    assert forall|h: int| 0 <= h < 4 implies self.idle_ok_at(h) by {
                        assert(old(self).idle_ok_at(h));
                    }
                }
                let ghost pre_mig = *self;
                self.migrate_process(hart, awake);
                proof {
                    assert(self.msip[pre_mig.next_hart as int]);
                }
                woke = true;
            }
        }
        woke
    }

    /// The PID recorded as waiting on the exit of the process running on
    /// `hart`.
    pub fn get_running_process_blocking_pid(&mut self, hart: usize) -> (r: Option<u64>)
        requires
            old(self).wf(),
            hart < 4,
            old(self).running[hart as int].is_some(),
            old(self).running[hart as int]->Some_0.pid != IDLE_ID,
        ensures
            final(self).wf(),
            *final(self) == (Kernel { pid_list_lock: final(self).pid_list_lock, ..*old(self) }),
            r == old(self).pid_list@[old(self).registry_index_of(
                old(self).running[hart as int]->Some_0.pid,
            )].1,
    {
        proof {
            old(self).lemma_running_pid_registered(hart as int);
        }
        self.pid_list_lock.spin_lock();
        let running_pid = self.running_process(hart).pid;
        let n = self.pid_list.len();
        let mut i: usize = 0;
        let mut r: Option<u64> = Option::None;
        let mut found = false;
        while i < n
            invariant
                old(self).wf(),
                n == self.pid_list@.len(),
                0 <= i <= n,
                running_pid == old(self).running[hart as int]->Some_0.pid,
                *self == (Kernel { pid_list_lock: self.pid_list_lock, ..*old(self) }),
                !found ==> forall|j: int|
                    0 <= j < i ==> (#[trigger] self.pid_list@[j]).0 != running_pid,
                found ==> exists|j: int|
                    0 <= j < i && (#[trigger] self.pid_list@[j]).0 == running_pid
                        && self.pid_list@[j].1 == r,
            decreases n - i,
        {
            if !found && self.pid_list[i].0 == running_pid {
                r = self.pid_list[i].1;
                found = true;
            }
            i = i + 1;
        }
        self.pid_list_lock.unlock();
        proof {
            let ok = *old(self);
            let pid = running_pid;
            assert(found) by {
                assert(ok.registry_contains(pid));
            }
            let j = choose|j: int|
                0 <= j < n && (#[trigger] self.pid_list@[j]).0 == pid && self.pid_list@[j].1
                    == r;
            let idx = ok.registry_index_of(pid);
            assert(0 <= idx < n && ok.pid_list@[idx].0 == pid);
            assert(j == idx);
            assert forall|h: int| 0 <= h < 4 implies self.idle_ok_at(h) by {
                assert(old(self).idle_ok_at(h));
            }
        }
        r
    }

    /// Drop the process running on `hart`: clear its running slot and take
    /// it out of the registry.
    pub fn delete_running_process(&mut self, hart: usize)
        requires
            old(self).wf(),
            hart < 4,
            old(self).running[hart as int].is_some(),
            old(self).running[hart as int]->Some_0.pid != IDLE_ID,
            process_frames_ok(old(self).mem, old(self).running[hart as int]->Some_0),
        ensures
            final(self).wf(),
            final(self).running@ == old(self).running@.update(
                hart as int,
                Option::<Process>::None,
            ),
            final(self).pid_list@ == old(self).pid_list@.remove(
                old(self).registry_index_of(old(self).running[hart as int]->Some_0.pid),
            ),
            final(self).pid_list@.len() == old(self).pid_list@.len() - 1,
            0 <= old(self).registry_index_of(old(self).running[hart as int]->Some_0.pid) < old(
                self,
            ).pid_list@.len(),
            !final(self).registry_contains(old(self).running[hart as int]->Some_0.pid),
            final(self).ready == old(self).ready,
            final(self).blocked == old(self).blocked,
            final(self).sleeping == old(self).sleeping,
            final(self).idle == old(self).idle,
            final(self).next_pid == old(self).next_pid,
            final(self).next_hart == old(self).next_hart,
            final(self).mem.base == old(self).mem.base,
            final(self).mem.page_count() == old(self).mem.page_count(),
            final(self).mem.tables@ == old(self).mem.tables@,
            ({
                let m0 = old(self).mem;
                let p = old(self).running[hart as int]->Some_0;
                let si = m0.spec_page_index(p.stack);
                let ri = m0.spec_page_index(p.page_table);
                &&& forall|j: int|
                    si <= j <= si + 11 ==> (#[trigger] final(self).mem.descriptors@[j]).flags
                        == 0
                &&& final(self).mem.descriptors@[ri].flags == 0
                &&& forall|f: int|
                    #[trigger] m0.tree_member(ri, f) ==> final(self).mem.descriptors@[f].flags
                        == 0
                &&& forall|j: int|
                    0 <= j < m0.page_count() && !(si <= j <= si + 11) && j != ri
                        && !m0.tree_member(ri, j) ==> #[trigger] final(self).mem.descriptors@[j]
                        == m0.descriptors@[j]
            }),
    {
        proof {
            old(self).lemma_running_pid_registered(hart as int);
        }
        self.pid_list_lock.spin_lock();
        let r = self.running[hart];
        let old_running = r.unwrap();
        self.running[hart] = Option::None;
        let n = self.pid_list.len();
        let mut i: usize = 0;
        let mut pos = n;
        while i < n
            invariant
                n == self.pid_list@.len(),
                0 <= i <= n,
                old_running == old(self).running[hart as int]->Some_0,
                self.pid_list@ == old(self).pid_list@,
                pos == n || (pos < i && self.pid_list@[pos as int].0 == old_running.pid),
                pos == n ==> forall|j: int|
                    0 <= j < i ==> (#[trigger] self.pid_list@[j]).0 != old_running.pid,
            decreases n - i,
        {
            if pos == n && self.pid_list[i].0 == old_running.pid {
                pos = i;
            }
            i = i + 1;
        }
        proof {
            assert(pos < n) by {
                assert(old(self).registry_contains(old_running.pid));
            }
            let idx = old(self).registry_index_of(old_running.pid);
            assert(0 <= idx < n && old(self).pid_list@[idx].0 == old_running.pid);
            assert(pos as int == idx);
        }
        self.pid_list.remove(pos);
        self.pid_list_lock.unlock();
        proof {
            let ok = *old(self);
            let nk = *self;
            let pid = old_running.pid;
            lemma_all_pids_multiset(ok);
            lemma_all_pids_multiset(nk);
            lemma_to_multiset_empty();
            lemma_to_multiset_singleton(pid);
            assert(slot_pids(nk.running[hart as int]) =~= Seq::<u64>::empty());
            assert(slot_pids(ok.running[hart as int]) =~= seq![pid]);
            assert(nk.registry_pids() =~= ok.registry_pids().remove(pos as int));
            assert(nk.registry_pids().to_multiset() =~= ok.registry_pids().to_multiset().remove(
                pid,
            )) by {
                assert(ok.registry_pids()[pos as int] == pid);
                lemma_to_multiset_take_out(ok.registry_pids(), pos as int);
            }
            assert(nk.all_pids().to_multiset().insert(pid) =~= ok.all_pids().to_multiset()) by {
                if hart == 0 {
                } else if hart == 1 {
                } else if hart == 2 {
                } else {
                }
            }
            assert(nk.all_pids().to_multiset() =~= nk.registry_pids().to_multiset());
            assert forall|j: int|
                0 <= j < nk.pid_list@.len() implies (#[trigger] nk.pid_list@[j]).0 != pid by {
                if j < pos as int {
                    assert(nk.pid_list@[j] == ok.pid_list@[j]);
                } else {
                    assert(nk.pid_list@[j] == ok.pid_list@[j + 1]);
                }
            }
            assert forall|h: int| 0 <= h < 4 implies self.idle_ok_at(h) by {
                assert(old(self).idle_ok_at(h));
            }
        }
        // the dropped process returns its frames: the stack run, every
        // intermediate table, and the root table itself
        let ghost pre_free = *self;
        let ghost m0 = old(self).mem;
        let ghost si = m0.spec_page_index(old_running.stack);
        let ghost ri = m0.spec_page_index(old_running.page_table);
        proof {
            crate::page::lemma_taken_three();
            assert(crate::page::is_alloc_run(m0.descriptors@, si, si + 11));
        }
        self.mem.dealloc(old_running.stack);
        let ghost m1 = self.mem;
        proof {
            crate::page::lemma_run_end_unique(
                m0.descriptors@,
                si,
                crate::page::spec_run_end(m0.descriptors@, si),
                si + 11,
            );
            assert(m1.descriptors@ == crate::page::clear_run(m0.descriptors@, si, si + 11));
            assert forall|f: int|
                #[trigger] m0.tree_member(ri, f) implies m1.descriptors@[f]
                    == m0.descriptors@[f] by {
                assert(!(si <= f <= si + 11));
            }
            crate::page::lemma_user_table_unchanged(m0, m1, ri);
            assert(m1.descriptors@[ri] == m0.descriptors@[ri]);
        }
        self.mem.unmap(old_running.page_table);
        let ghost m2 = self.mem;
        proof {
            assert(m2.descriptors@[ri] == m1.descriptors@[ri]);
            assert(m2.descriptors@[ri].flags == 3);
            assert(m2.spec_page_index(old_running.page_table) == ri);
            assert(crate::page::is_alloc_run(m2.descriptors@, ri, ri));
        }
        self.mem.dealloc(old_running.page_table);
        proof {
            crate::page::lemma_run_end_unique(
                m2.descriptors@,
                ri,
                crate::page::spec_run_end(m2.descriptors@, ri),
                ri,
            );
            assert(self.mem.descriptors@ == crate::page::clear_run(m2.descriptors@, ri, ri));
            // the freed sets, traced back to the state before any free
            assert forall|j: int|
                si <= j <= si + 11 implies (#[trigger] self.mem.descriptors@[j]).flags == 0 by {
                assert(!m0.tree_member(ri, j));
                assert(!m1.tree_member(ri, j));
                assert(m2.descriptors@[j] == m1.descriptors@[j]);
                assert(j != ri);
            }
            assert forall|f: int|
                #[trigger] m0.tree_member(ri, f) implies self.mem.descriptors@[f].flags == 0 by {
                assert(m1.tree_member(ri, f));
                let e2 = choose|e2: int|
                    0 <= e2 < 512 && #[trigger] m1.is_branch(ri, e2) && (m1.child_idx(ri, e2)
                        == f || exists|e1: int|
                        0 <= e1 < 512 && #[trigger] m1.is_branch(m1.child_idx(ri, e2), e1)
                            && m1.child_idx(m1.child_idx(ri, e2), e1) == f);
                assert(m1.l2_entry_ok(ri, m1.entry_at(ri, e2)));
                if m1.child_idx(ri, e2) == f {
                    assert(!crate::page::desc_taken(m2.descriptors@[f].flags));
                    assert(f != ri);
                } else {
                    let e1 = choose|e1: int|
                        0 <= e1 < 512 && #[trigger] m1.is_branch(m1.child_idx(ri, e2), e1)
                            && m1.child_idx(m1.child_idx(ri, e2), e1) == f;
                    assert(m1.l1_entry_ok(
                        ri,
                        m1.child_idx(ri, e2),
                        m1.entry_at(m1.child_idx(ri, e2), e1),
                    ));
                    assert(!crate::page::desc_taken(m2.descriptors@[f].flags));
                    assert(f != ri);
                }
                assert(m2.descriptors@[f].flags == 0 || m2.descriptors@[f].flags == 1
                    || m2.descriptors@[f].flags == 3);
                assert(self.mem.descriptors@[f] == m2.descriptors@[f]);
            }
            assert forall|j: int|
                0 <= j < m0.page_count() && !(si <= j <= si + 11) && j != ri && !m0.tree_member(
                    ri,
                    j,
                ) implies #[trigger] self.mem.descriptors@[j] == m0.descriptors@[j] by {
                assert(m1.descriptors@[j] == m0.descriptors@[j]);
                assert(!m1.tree_member(ri, j));
                assert(m2.descriptors@[j] == m1.descriptors@[j]);
            }
            // the process tables themselves were not touched by the frees
            assert(self.all_pids() == pre_free.all_pids());
            assert(self.registry_pids() == pre_free.registry_pids());
            assert forall|h: int| 0 <= h < 4 implies self.idle_ok_at(h) by {
                assert(pre_free.idle_ok_at(h));
            }
        }
    }
}

impl Kernel {
    /// The exit syscall: wake the registered joiner if there is one, drop
    /// the running process from the tables, and schedule the next work.
    /// Returns the context to resume.
    pub fn exit(&mut self, hart: usize, mtime: u64) -> (frame: TrapFrame)
        requires
            old(self).wf(),
            hart < 4,
            old(self).running[hart as int].is_some(),
            old(self).running[hart as int]->Some_0.pid != IDLE_ID,
            process_frames_ok(old(self).mem, old(self).running[hart as int]->Some_0),
        ensures
            final(self).wf(),
            !final(self).registry_contains(old(self).running[hart as int]->Some_0.pid),
            final(self).pid_list@.len() == old(self).pid_list@.len() - 1,
            final(self).running[hart as int].is_some(),
            ({
                let m0 = old(self).mem;
                let p = old(self).running[hart as int]->Some_0;
                let si = m0.spec_page_index(p.stack);
                let ri = m0.spec_page_index(p.page_table);
                &&& forall|j: int|
                    si <= j <= si + 11 ==> (#[trigger] final(self).mem.descriptors@[j]).flags
                        == 0
                &&& final(self).mem.descriptors@[ri].flags == 0
                &&& forall|f: int|
                    #[trigger] m0.tree_member(ri, f) ==> final(self).mem.descriptors@[f].flags
                        == 0
                &&& final(self).mem.tables@ == m0.tables@
            }),
            ({
                let bp = old(self).pid_list@[old(self).registry_index_of(
                    old(self).running[hart as int]->Some_0.pid,
                )].1;
                &&& (bp is None ==> final(self).blocked == old(self).blocked)
                &&& ((bp matches Option::Some(b) && (exists|i: int|
                    0 <= i < old(self).blocked@.len() && (#[trigger] old(self).blocked@[i]).pid
                        == b)) ==> final(self).blocked@.len() == old(self).blocked@.len() - 1)
            }),
    {
        let blocking = self.get_running_process_blocking_pid(hart);
        match blocking {
            Option::Some(blocked) => {
                self.unblock_process_by_pid(hart, blocked);
            },
            Option::None => {},
        }
        self.delete_running_process(hart);
        self.schedule(hart, mtime)
    }

    /// The join syscall: if `joining_pid` is dead, resume the caller at
    /// once; otherwise record the caller as that process's joiner, block
    /// the caller, and schedule the next work.
    pub fn join(&mut self, hart: usize, joining_pid: u64, mtime: u64) -> (frame: TrapFrame)
        requires
            old(self).wf(),
            hart < 4,
            old(self).running[hart as int].is_some(),
            old(self).running[hart as int]->Some_0.pid != IDLE_ID,
        ensures
            final(self).wf(),
            !old(self).registry_contains(joining_pid) ==> (*final(self) == *old(self) && frame
                == old(self).running[hart as int]->Some_0.trap_frame),
            old(self).registry_contains(joining_pid) ==> ({
                let me = old(self).running[hart as int]->Some_0;
                &&& final(self).blocked@ == old(self).blocked@.push(
                    (Process { state: ProcessState::Blocked, ..me }),
                )
                &&& final(self).pid_list@.len() == old(self).pid_list@.len()
                &&& forall|i: int|
                    0 <= i < old(self).pid_list@.len() ==> #[trigger] final(self).pid_list@[i]
                        == (if old(self).pid_list@[i].0 == joining_pid {
                        (joining_pid, Option::Some(me.pid))
                    } else {
                        old(self).pid_list@[i]
                    })
                &&& final(self).running[hart as int].is_some()
            }),
    {
        let contains = self.pid_list_contains(joining_pid);
        if !contains {
            proof {
                crate::lock::lemma_unlocked_eq(self.pid_list_lock, old(self).pid_list_lock);
                assert(*self == *old(self));
            }
            return self.running_process(hart).get_trap_frame();
        }
        proof {
            crate::lock::lemma_unlocked_eq(self.pid_list_lock, old(self).pid_list_lock);
            assert(*self == *old(self));
        }
        let blocking_pid = self.get_running_process_pid(hart);
        self.set_blocking_pid(joining_pid, blocking_pid);
        self.block_process(hart);
        self.schedule(hart, mtime)
    }

    /// The sleep syscall: compute the absolute deadline from the caller's
    /// tick count and move the caller to the sleeping queue.
    pub fn sleep(&mut self, hart: usize, amount: u64, mtime: u64) -> (frame: TrapFrame)
        requires
            old(self).wf(),
            hart < 4,
            old(self).running[hart as int].is_some(),
            old(self).running[hart as int]->Some_0.pid != IDLE_ID,
            mtime + amount * crate::cpu::CONTEXT_SWITCH_TIME <= u64::MAX,
        ensures
            final(self).wf(),
            final(self).sleeping@ == old(self).sleeping@.push(
                (Process {
                    state: ProcessState::Sleeping(
                        (mtime + amount * crate::cpu::CONTEXT_SWITCH_TIME) as u64,
                    ),
                    ..old(self).running[hart as int]->Some_0
                }),
            ),
            final(self).running[hart as int].is_some(),
            final(self).pid_list == old(self).pid_list,
            final(self).blocked == old(self).blocked,
            final(self).mem == old(self).mem,
    {
        let until = mtime + amount * crate::cpu::CONTEXT_SWITCH_TIME;
        if crate::ENABLE_PREEMPTION {
            self.put_process_to_sleep(hart, until);
            self.schedule(hart, mtime)
        } else {
            proof {
                assert(false);
            }
            self.running_process(hart).get_trap_frame()
        }
    }

    /// The read-line syscall: arm the UART at the PLIC, enable only the
    /// machine-external interrupt, clear the line buffer and mark the
    /// kernel as reading; the caller resumes and polls.
    pub fn read_line(&mut self, hart: usize) -> (frame: TrapFrame)
        requires
            old(self).wf(),
            hart < 4,
            old(self).running[hart as int].is_some(),
        ensures
            final(self).wf(),
            final(self).reading,
            final(self).line_buffer@ == Seq::<u8>::empty(),
            final(self).plic_uart_enabled,
            final(self).plic_threshold == 6,
            final(self).plic_uart_priority == 7,
            final(self).mie@ == old(self).mie@.update(hart as int, crate::trap::MIE_MEIE),
            frame == old(self).running[hart as int]->Some_0.trap_frame,
            final(self).running == old(self).running,
            final(self).ready == old(self).ready,
            final(self).blocked == old(self).blocked,
            final(self).sleeping == old(self).sleeping,
            final(self).pid_list == old(self).pid_list,
            final(self).mem == old(self).mem,
    {
        self.reading = true;
        self.plic_threshold = 6;
        self.plic_uart_priority = 7;
        self.plic_uart_enabled = true;
        self.mie[hart] = crate::trap::MIE_MEIE;
        self.line_buffer = Vec::new();
        let frame = self.running_process(hart).get_trap_frame();
        proof {
            assert(self.all_pids() == old(self).all_pids());
            assert forall|h: int| 0 <= h < 4 implies self.idle_ok_at(h) by {
                assert(old(self).idle_ok_at(h));
            }
        }
        frame
    }

    /// The print syscall: the kernel-side record of what is printed and on
    /// whose behalf — the pointer and length the caller passed, with the
    /// hart, previous hart and PID the kernel prefixes the line with. The
    /// formatted output path holds its dedicated mutex while the record is
    /// assembled.
    pub fn print_str(&mut self, hart: usize) -> (r: crate::trap::PrintRecord)
        requires
            hart < 4,
            old(self).running[hart as int].is_some(),
            !old(self).print_lock.is_locked(),
        ensures
            *final(self) == *old(self),
            ({
                let p = old(self).running[hart as int]->Some_0;
                &&& r.current_hart == hart
                &&& r.previous_hart == p.previous_hart
                &&& r.pid == p.pid
                &&& r.ptr == p.trap_frame.regs[11]
                &&& r.len == p.trap_frame.regs[12]
            }),
    {
        self.print_lock.spin_lock();
        let p = self.running_process(hart);
        let ptr = p.trap_frame.regs[11];
        let len = p.trap_frame.regs[12];
        let record = crate::trap::PrintRecord {
            current_hart: hart,
            previous_hart: p.previous_hart,
            pid: p.pid,
            ptr,
            len,
        };
        self.print_lock.unlock();
        proof {
            crate::lock::lemma_unlocked_eq(self.print_lock, old(self).print_lock);
            assert(*self == *old(self));
        }
        record
    }

    /// The time syscall: hand the caller the mtime reading.
    pub fn time_now(&self, mtime: u64) -> (t: u64)
        ensures
            t == mtime,
    {
        mtime
    }
}

/// The identity-mapped kernel regions a new process can reach: the linker
/// sections and the heap, as plain address bounds.
#[derive(Clone, Copy)]
pub struct SectionLayout {
    pub text_start: u64,
    pub text_end: u64,
    pub rodata_start: u64,
    pub rodata_end: u64,
    pub data_start: u64,
    pub data_end: u64,
    pub bss_start: u64,
    pub bss_end: u64,
    pub heap_start: u64,
    pub heap_size: u64,
}

impl SectionLayout {
    pub open spec fn wf(self) -> bool {
        &&& self.text_start <= self.text_end <= 0x80_0000_0000
        &&& self.rodata_start <= self.rodata_end <= 0x80_0000_0000
        &&& self.data_start <= self.data_end <= 0x80_0000_0000
        &&& self.bss_start <= self.bss_end <= 0x80_0000_0000
        &&& self.heap_start + self.heap_size <= 0x80_0000_0000
    }

    /// The pages a process constructor maps: the 12-page stack and every
    /// section, each costing at most two intermediate tables, plus the
    /// root table and the stack frames themselves.
    pub open spec fn pages_needed(self) -> int {
        13 + 2 * (12 + crate::page::pages_in(self.text_start, self.text_end)
            + crate::page::pages_in(self.rodata_start, self.rodata_end) + crate::page::pages_in(
            self.data_start,
            self.data_end,
        ) + crate::page::pages_in(self.bss_start, self.bss_end) + crate::page::pages_in(
            self.heap_start,
            (self.heap_start + self.heap_size) as u64,
        ))
    }
}

/// The memory a live process owns, as its destructor must find it: an
/// intact 12-page stack run, an intact root table of the user-table shape,
/// and no overlap between the stack run and the root or the table's
/// intermediate frames.
pub open spec fn process_frames_ok(mem: Memory, p: Process) -> bool {
    let si = mem.spec_page_index(p.stack);
    let ri = mem.spec_page_index(p.page_table);
    &&& p.stack >= mem.base
    &&& (p.stack - mem.base) % 4096 == 0
    &&& si + 11 < mem.page_count()
    &&& crate::page::is_alloc_run(mem.descriptors@, si, si + 11)
    &&& p.page_table >= mem.base
    &&& (p.page_table - mem.base) % 4096 == 0
    &&& ri < mem.page_count()
    &&& mem.descriptors@[ri].flags == 3
    &&& mem.user_table_wf(ri)
    &&& mem.user_table_distinct(ri)
    &&& !(si <= ri <= si + 11)
    &&& forall|f: int| #[trigger] mem.tree_member(ri, f) ==> !(si <= f <= si + 11)
}

/// The number of 4 KiB pages in a process stack.
pub const STACK_PAGES: u64 = 12;

/// The bytes a trap frame occupies at the top of a stack: 64 registers,
/// `satp`, the program counter, the interrupt flag and the mode.
pub const TRAP_FRAME_SIZE: u64 = 544;

impl Process {
    /// Build a user process: allocate its root table and 12-page stack,
    /// identity-map the stack and the kernel sections for user mode (TEXT
    /// executable, the rest read-write), and lay the saved context out
    /// with the entry point, its three arguments, the stack pointer under
    /// the trap frame, and a `satp` carrying the PID.
    #[verifier::rlimit(100)]
    #[verifier::spinoff_prover]
    pub fn new(
        mem: &mut Memory,
        layout: &SectionLayout,
        pid: u64,
        hart: usize,
        start: u64,
        arg0: u64,
        arg1: u64,
        arg2: u64,
    ) -> (p: Process)
        requires
            old(mem).wf(),
            layout.wf(),
            hart < 4,
            crate::page::can_alloc(old(mem).descriptors@, layout.pages_needed()),
        ensures
            final(mem).wf(),
            final(mem).base == old(mem).base,
            final(mem).page_count() == old(mem).page_count(),
            p.pid == pid,
            p.state == ProcessState::Ready,
            p.quantum == DEFAULT_QUANTUM,
            p.blocking_pid is None,
            p.sleep_until == 0,
            p.previous_hart == hart,
            p.quantum_ok(),
            p.trap_frame.satp == spec_build_satp(pid, p.page_table),
            p.trap_frame.pc == start,
            p.trap_frame.regs[10] == arg0,
            p.trap_frame.regs[11] == arg1,
            p.trap_frame.regs[12] == arg2,
            p.trap_frame.regs[2] == p.stack + STACK_PAGES * 4096 - TRAP_FRAME_SIZE,
            p.trap_frame.mode == 0,
            p.trap_frame.global_interrupt_enable == 0,
            forall|j: int|
                0 <= j < old(mem).page_count() && crate::page::desc_taken(
                    #[trigger] old(mem).descriptors@[j].flags,
                ) ==> final(mem).descriptors@[j] == old(mem).descriptors@[j],
            forall|m: int|
                #[trigger] crate::page::can_alloc(old(mem).descriptors@, m) && m
                    > layout.pages_needed() ==> crate::page::can_alloc(
                    final(mem).descriptors@,
                    m - layout.pages_needed(),
                ),
            crate::page::is_alloc_run(
                final(mem).descriptors@,
                final(mem).spec_page_index(p.stack),
                final(mem).spec_page_index(p.stack) + 11,
            ),
            final(mem).descriptors@[final(mem).spec_page_index(p.page_table)].flags == 3,
            final(mem).user_table_wf(final(mem).spec_page_index(p.page_table)),
            final(mem).user_table_distinct(final(mem).spec_page_index(p.page_table)),
            process_frames_ok(*final(mem), p),
            ({
                let rg = final(mem).spec_page_index(p.page_table);
                &&& forall|va: u64|
                    (p.stack <= va < p.stack + STACK_PAGES * 4096 && (va - p.stack) % 4096 == 0)
                        ==> #[trigger] final(mem).spec_translate(rg, va) == Option::Some(va)
                &&& forall|va: u64|
                    (layout.rodata_start <= va < layout.rodata_end && (va - layout.rodata_start)
                        % 4096 == 0) ==> #[trigger] final(mem).spec_translate(rg, va)
                        == Option::Some(va)
                &&& forall|va: u64|
                    (layout.data_start <= va < layout.data_end && (va - layout.data_start) % 4096
                        == 0) ==> #[trigger] final(mem).spec_translate(rg, va) == Option::Some(
                        va,
                    )
                &&& forall|va: u64|
                    (layout.bss_start <= va < layout.bss_end && (va - layout.bss_start) % 4096
                        == 0) ==> #[trigger] final(mem).spec_translate(rg, va) == Option::Some(
                        va,
                    )
                &&& forall|va: u64|
                    (layout.heap_start <= va < layout.heap_start + layout.heap_size && (va
                        - layout.heap_start) % 4096 == 0)
                        ==> #[trigger] final(mem).spec_translate(rg, va) == Option::Some(va)
                &&& forall|va: u64|
                    (layout.text_start <= va < layout.text_end && (va - layout.text_start) % 4096
                        == 0) ==> #[trigger] final(mem).spec_translate(rg, va) == Option::Some(
                        va,
                    )
            }),
    {
        proof {
            crate::page::lemma_pages_in_nonneg(layout.text_start, layout.text_end);
            crate::page::lemma_pages_in_nonneg(layout.rodata_start, layout.rodata_end);
            crate::page::lemma_pages_in_nonneg(layout.data_start, layout.data_end);
            crate::page::lemma_pages_in_nonneg(layout.bss_start, layout.bss_end);
            crate::page::lemma_pages_in_nonneg(
                layout.heap_start,
                (layout.heap_start + layout.heap_size) as u64,
            );
            crate::page::lemma_can_alloc_mono(
                old(mem).descriptors@,
                layout.pages_needed(),
                1,
            );
        }
        let ghost needed = layout.pages_needed();
        let ghost d0 = old(mem).descriptors@;
        let r0 = mem.zalloc(1);
        let page_table_address = match r0 {
            Option::Some(a) => a,
            Option::None => {
                proof {
                    assert(false);
                }
                0
            },
        };
        let ghost root_gi = mem.spec_page_index(page_table_address);
        proof {
            assert(crate::page::can_alloc(mem.descriptors@, needed - 1)) by {
                assert(crate::page::can_alloc(d0, needed));
            }
            crate::page::lemma_can_alloc_mono(mem.descriptors@, needed - 1, 12);
            assert forall|e2: int|
                0 <= e2 < 512 implies mem.l2_entry_ok(root_gi, #[trigger] mem.entry_at(
                root_gi,
                e2,
            )) by {
                assert(mem.tables@[root_gi].all_zero());
                assert(mem.tables@[root_gi].entries[e2].entry == 0);
                assert(mem.entry_at(root_gi, e2) == 0);
                crate::page::lemma_zero_entry();
            }
            assert(mem.user_table_wf(root_gi));
            assert forall|ex: int|
                0 <= ex < 512 implies !mem.is_branch(root_gi, ex) by {
                assert(mem.entry_at(root_gi, ex) == 0);
                crate::page::lemma_zero_entry();
            }
            assert(mem.user_table_distinct(root_gi));
        }
        let mut context = TrapFrame::new();
        context.regs[10] = arg0;
        context.regs[11] = arg1;
        context.regs[12] = arg2;
        context.satp = crate::cpu::build_satp(pid, page_table_address);
        context.pc = start;
        context.global_interrupt_enable = 0;
        context.mode = crate::cpu::CpuMode::User.value();
        let ghost d1 = mem.descriptors@;
        let r1 = mem.zalloc(12);
        let stack = match r1 {
            Option::Some(a) => a,
            Option::None => {
                proof {
                    assert(false);
                }
                0
            },
        };
        let ghost stack_gi = mem.spec_page_index(stack);
        let stack_end = stack + 12 * 4096;
        context.regs[2] = stack_end - TRAP_FRAME_SIZE;
        proof {
            assert(crate::page::is_alloc_run(mem.descriptors@, stack_gi, stack_gi + 11));
            assert(mem.descriptors@[root_gi].flags == 3) by {
                assert(crate::page::desc_taken(3u8)) by (bit_vector);
                assert(d1[root_gi].flags == 3);
                assert(!(stack_gi <= root_gi < stack_gi + 12));
            }
            assert forall|e2: int|
                0 <= e2 < 512 implies mem.l2_entry_ok(root_gi, #[trigger] mem.entry_at(
                root_gi,
                e2,
            )) by {
                assert(crate::page::desc_taken(3u8)) by (bit_vector);
                assert(!(stack_gi <= root_gi < stack_gi + 12)) by {
                    assert(d1[root_gi].flags == 3);
                }
                assert(mem.tables@[root_gi].all_zero());
                assert(mem.tables@[root_gi].entries[e2].entry == 0);
                assert(mem.entry_at(root_gi, e2) == 0);
                crate::page::lemma_zero_entry();
            }
            assert(mem.user_table_wf(root_gi));
            assert forall|ex: int|
                0 <= ex < 512 implies !mem.is_branch(root_gi, ex) by {
                assert(mem.entry_at(root_gi, ex) == 0);
                crate::page::lemma_zero_entry();
            }
            assert(mem.user_table_distinct(root_gi));
            assert forall|m: int|
                #[trigger] crate::page::can_alloc(d0, m) && m > 13 implies crate::page::can_alloc(
                mem.descriptors@,
                m - 13,
            ) by {
                assert(crate::page::can_alloc(d1, m - 1));
            }
        }
        let ghost d2 = mem.descriptors@;
        let ghost m2 = *mem;
        let ghost p_ro = crate::page::pages_in(layout.rodata_start, layout.rodata_end);
        let ghost p_da = crate::page::pages_in(layout.data_start, layout.data_end);
        let ghost p_bs = crate::page::pages_in(layout.bss_start, layout.bss_end);
        let ghost p_he = crate::page::pages_in(
            layout.heap_start,
            (layout.heap_start + layout.heap_size) as u64,
        );
        let ghost p_tx = crate::page::pages_in(layout.text_start, layout.text_end);
        proof {
            assert(22u64 & 0xe != 0 && 22u64 & 6 != 0 && 22u64 & 2 == 2 && 26u64 & 0xe != 0
                && 26u64 & 6 != 0 && 26u64 & 2 == 2) by (bit_vector);
            crate::page::lemma_pages_in_whole(stack, 12);
            assert(crate::page::pages_in(stack, stack_end) == 12);
            assert((page_table_address - mem.base) % 4096 == 0 && page_table_address
                >= mem.base) by {
                assert(page_table_address == mem.base + 4096 * root_gi);
                assert(mem.base % 4096 == 0);
            }
            assert(stack_end <= 0x80_0000_0000) by {
                assert(stack == mem.base + 4096 * stack_gi);
                assert(stack_gi + 12 <= mem.page_count());
                assert(4096 * (stack_gi + 12) <= 4096 * mem.page_count());
            }
            assert(needed == 13 + 2 * (12 + p_tx + p_ro + p_da + p_bs + p_he));
            let b2 = 2 * (12 + p_tx + p_ro + p_da + p_bs + p_he);
            assert(crate::page::can_alloc(mem.descriptors@, b2)) by {
                assert(crate::page::can_alloc(d1, needed - 1));
                assert(crate::page::can_alloc(mem.descriptors@, needed - 13));
            }
            crate::page::lemma_can_alloc_mono(mem.descriptors@, b2, 24);
        }
        mem.map_range(
            page_table_address,
            stack,
            stack_end,
            crate::page::PageTableEntryFlags::UserReadWrite.value(),
        );
        proof {
            crate::page::lemma_taken_three();
            assert(mem.descriptors@[root_gi].flags == 3);
            let b2 = 2 * (12 + p_tx + p_ro + p_da + p_bs + p_he);
            let b3 = 2 * (p_tx + p_ro + p_da + p_bs + p_he);
            assert(b3 > 0 ==> crate::page::can_alloc(mem.descriptors@, b3)) by {
                if b3 > 0 {
                    assert(crate::page::can_alloc(d2, b2) && b2 > 24);
                }
            }
            if p_ro > 0 {
                crate::page::lemma_can_alloc_mono(mem.descriptors@, b3, 2 * p_ro);
            }
        }
        let ghost d3 = mem.descriptors@;
        let ghost m3 = *mem;
        mem.map_range(
            page_table_address,
            layout.rodata_start,
            layout.rodata_end,
            crate::page::PageTableEntryFlags::UserReadWrite.value(),
        );
        proof {
            crate::page::lemma_taken_three();
            assert(mem.descriptors@[root_gi].flags == 3);
            let b3 = 2 * (p_tx + p_ro + p_da + p_bs + p_he);
            let b4 = 2 * (p_tx + p_da + p_bs + p_he);
            assert(b4 > 0 ==> crate::page::can_alloc(mem.descriptors@, b4)) by {
                if b4 > 0 {
                    assert(crate::page::can_alloc(d3, b3) && b3 > 2 * p_ro || p_ro == 0);
                    if p_ro == 0 {
                        assert(crate::page::can_alloc(d3, b3));
                        assert(crate::page::can_alloc(mem.descriptors@, b3 - 0));
                    }
                }
            }
            if p_da > 0 {
                crate::page::lemma_can_alloc_mono(mem.descriptors@, b4, 2 * p_da);
            }
        }
        let ghost d4 = mem.descriptors@;
        let ghost m4 = *mem;
        mem.map_range(
            page_table_address,
            layout.data_start,
            layout.data_end,
            crate::page::PageTableEntryFlags::UserReadWrite.value(),
        );
        proof {
            crate::page::lemma_taken_three();
            assert(mem.descriptors@[root_gi].flags == 3);
            let b4 = 2 * (p_tx + p_da + p_bs + p_he);
            let b5 = 2 * (p_tx + p_bs + p_he);
            assert(b5 > 0 ==> crate::page::can_alloc(mem.descriptors@, b5)) by {
                if b5 > 0 {
                    if p_da == 0 {
                        assert(crate::page::can_alloc(d4, b4));
                        assert(crate::page::can_alloc(mem.descriptors@, b4 - 0));
                    } else {
                        assert(crate::page::can_alloc(d4, b4) && b4 > 2 * p_da);
                    }
                }
            }
            if p_bs > 0 {
                crate::page::lemma_can_alloc_mono(mem.descriptors@, b5, 2 * p_bs);
            }
        }
        let ghost d5 = mem.descriptors@;
        let ghost m5 = *mem;
        mem.map_range(
            page_table_address,
            layout.bss_start,
            layout.bss_end,
            crate::page::PageTableEntryFlags::UserReadWrite.value(),
        );
        proof {
            crate::page::lemma_taken_three();
            assert(mem.descriptors@[root_gi].flags == 3);
            let b5 = 2 * (p_tx + p_bs + p_he);
            let b6 = 2 * (p_tx + p_he);
            assert(b6 > 0 ==> crate::page::can_alloc(mem.descriptors@, b6)) by {
                if b6 > 0 {
                    if p_bs == 0 {
                        assert(crate::page::can_alloc(d5, b5));
                        assert(crate::page::can_alloc(mem.descriptors@, b5 - 0));
                    } else {
                        assert(crate::page::can_alloc(d5, b5) && b5 > 2 * p_bs);
                    }
                }
            }
            if p_he > 0 {
                crate::page::lemma_can_alloc_mono(mem.descriptors@, b6, 2 * p_he);
            }
        }
        let ghost d6 = mem.descriptors@;
        let ghost m6 = *mem;
        mem.map_range(
            page_table_address,
            layout.heap_start,
            layout.heap_start + layout.heap_size,
            crate::page::PageTableEntryFlags::UserReadWrite.value(),
        );
        proof {
            crate::page::lemma_taken_three();
            assert(mem.descriptors@[root_gi].flags == 3);
            let b6 = 2 * (p_tx + p_he);
            let b7 = 2 * p_tx;
            assert(b7 > 0 ==> crate::page::can_alloc(mem.descriptors@, b7)) by {
                if b7 > 0 {
                    if p_he == 0 {
                        assert(crate::page::can_alloc(d6, b6));
                        assert(crate::page::can_alloc(mem.descriptors@, b6 - 0));
                    } else {
                        assert(crate::page::can_alloc(d6, b6) && b6 > 2 * p_he);
                    }
                }
            }
        }
        let ghost d7 = mem.descriptors@;
        let ghost m7 = *mem;
        mem.map_range(
            page_table_address,
            layout.text_start,
            layout.text_end,
            crate::page::PageTableEntryFlags::UserReadExecute.value(),
        );
        proof {
            crate::page::lemma_taken_three();
            assert forall|j: int|
                0 <= j < old(mem).page_count() && crate::page::desc_taken(
                #[trigger] d0[j].flags,
            ) implies mem.descriptors@[j] == d0[j] by {
                assert(d1[j] == d0[j]) by {
                    if root_gi <= j < root_gi + 1 {
                        assert(!crate::page::desc_taken(d0[j].flags));
                    }
                }
                assert(d2[j] == d1[j]) by {
                    if stack_gi <= j < stack_gi + 12 {
                        assert(!crate::page::desc_taken(d1[j].flags));
                    }
                }
                assert(d3[j] == d2[j]);
                assert(d4[j] == d3[j]);
                assert(d5[j] == d4[j]);
                assert(d6[j] == d5[j]);
                assert(d7[j] == d6[j]);
                assert(mem.descriptors@[j] == d7[j]);
            }
            assert forall|j: int|
                stack_gi <= j <= stack_gi + 11 implies mem.descriptors@[j] == d2[j] by {
                assert(crate::page::is_alloc_run(d2, stack_gi, stack_gi + 11));
                assert(crate::page::desc_taken(d2[j].flags)) by {
                    if j < stack_gi + 11 {
                        assert(d2[j].flags == 1);
                    } else {
                        assert(d2[j].flags == 3);
                    }
                }
                assert(d3[j] == d2[j]);
                assert(d4[j] == d3[j]);
                assert(d5[j] == d4[j]);
                assert(d6[j] == d5[j]);
                assert(d7[j] == d6[j]);
                assert(mem.descriptors@[j] == d7[j]);
            }
            assert forall|j: int|
                stack_gi <= j < stack_gi + 11 implies #[trigger] mem.descriptors@[j].flags
                    == 1 by {
                assert(mem.descriptors@[j] == d2[j]);
                assert(d2[j].flags == 1);
            }
            assert(mem.descriptors@[stack_gi + 11].flags == 3) by {
                assert(mem.descriptors@[stack_gi + 11] == d2[stack_gi + 11]);
            }
            assert(crate::page::is_alloc_run(mem.descriptors@, stack_gi, stack_gi + 11));
            assert(stack == mem.base + 4096 * stack_gi && (stack - mem.base) % 4096 == 0
                && stack >= mem.base);
            assert(page_table_address >= mem.base && (page_table_address - mem.base) % 4096
                == 0);
            assert(stack_gi + 11 < mem.page_count());
            assert(!(stack_gi <= root_gi <= stack_gi + 11)) by {
                assert(d1[root_gi].flags == 3);
                assert(crate::page::window_free(d1, stack_gi, 12));
            }
            assert forall|f: int|
                #[trigger] mem.tree_member(root_gi, f) implies !(stack_gi <= f <= stack_gi
                + 11) by {
                if stack_gi <= f <= stack_gi + 11 {
                    assert(crate::page::desc_taken(d2[f].flags)) by {
                        if f < stack_gi + 11 {
                            assert(d2[f].flags == 1);
                        } else {
                            assert(d2[f].flags == 3);
                        }
                    }
                    assert(d3[f] == d2[f]);
                    assert(d4[f] == d3[f]);
                    assert(d5[f] == d4[f]);
                    assert(d6[f] == d5[f]);
                    assert(d7[f] == d6[f]);
                    assert(m7.tree_member(root_gi, f));
                    assert(m6.tree_member(root_gi, f));
                    assert(m5.tree_member(root_gi, f));
                    assert(m4.tree_member(root_gi, f));
                    assert(m3.tree_member(root_gi, f));
                    assert(m2.tree_member(root_gi, f));
                    let e2w = choose|e2w: int|
                        0 <= e2w < 512 && #[trigger] m2.is_branch(root_gi, e2w) && (m2.child_idx(
                            root_gi,
                            e2w,
                        ) == f || exists|e1w: int|
                            0 <= e1w < 512 && #[trigger] m2.is_branch(
                                m2.child_idx(root_gi, e2w),
                                e1w,
                            ) && m2.child_idx(m2.child_idx(root_gi, e2w), e1w) == f);
                    assert(m2.entry_at(root_gi, e2w) == 0);
                    crate::page::lemma_zero_entry();
                    assert(false);
                }
            }
            crate::page::lemma_identity_step(m3, m4, root_gi, stack, stack_end);
            crate::page::lemma_identity_step(m4, m5, root_gi, stack, stack_end);
            crate::page::lemma_identity_step(m5, m6, root_gi, stack, stack_end);
            crate::page::lemma_identity_step(m6, m7, root_gi, stack, stack_end);
            crate::page::lemma_identity_step(m7, *mem, root_gi, stack, stack_end);
            crate::page::lemma_identity_step(
                m4,
                m5,
                root_gi,
                layout.rodata_start,
                layout.rodata_end,
            );
            crate::page::lemma_identity_step(
                m5,
                m6,
                root_gi,
                layout.rodata_start,
                layout.rodata_end,
            );
            crate::page::lemma_identity_step(
                m6,
                m7,
                root_gi,
                layout.rodata_start,
                layout.rodata_end,
            );
            crate::page::lemma_identity_step(
                m7,
                *mem,
                root_gi,
                layout.rodata_start,
                layout.rodata_end,
            );
            crate::page::lemma_identity_step(
                m5,
                m6,
                root_gi,
                layout.data_start,
                layout.data_end,
            );
            crate::page::lemma_identity_step(
                m6,
                m7,
                root_gi,
                layout.data_start,
                layout.data_end,
            );
            crate::page::lemma_identity_step(
                m7,
                *mem,
                root_gi,
                layout.data_start,
                layout.data_end,
            );
            crate::page::lemma_identity_step(m6, m7, root_gi, layout.bss_start, layout.bss_end);
            crate::page::lemma_identity_step(
                m7,
                *mem,
                root_gi,
                layout.bss_start,
                layout.bss_end,
            );
            crate::page::lemma_identity_step(
                m7,
                *mem,
                root_gi,
                layout.heap_start,
                (layout.heap_start + layout.heap_size) as u64,
            );
            assert(process_frames_ok(*mem, (Process {
                trap_frame: context,
                stack,
                state: ProcessState::Ready,
                page_table: page_table_address,
                quantum: DEFAULT_QUANTUM,
                pid,
                blocking_pid: Option::None,
                sleep_until: 0,
                previous_hart: hart,
            })));
        }
        Process {
            trap_frame: context,
            stack,
            state: ProcessState::Ready,
            page_table: page_table_address,
            quantum: DEFAULT_QUANTUM,
            pid,
            blocking_pid: Option::None,
            sleep_until: 0,
            previous_hart: hart,
        }
    }

    /// Build a hart's idle stub: machine mode, interrupts enabled, a small
    /// two-page stack, no page table of its own, and the reserved PID. Its
    /// program counter is the wait-for-interrupt loop the boot code
    /// provides; the tables never schedule it by PID.
    pub fn new_idle(mem: &mut Memory, hart: usize) -> (p: Process)
        requires
            old(mem).wf(),
            hart < 4,
            crate::page::can_alloc(old(mem).descriptors@, 2),
        ensures
            final(mem).wf(),
            final(mem).base == old(mem).base,
            final(mem).page_count() == old(mem).page_count(),
            p.pid == IDLE_ID,
            p.state == ProcessState::Ready,
            p.quantum == DEFAULT_QUANTUM,
            p.quantum_ok(),
            p.trap_frame.mode == 3,
            p.trap_frame.global_interrupt_enable == 1,
            p.trap_frame.pc == 0,
            p.trap_frame.regs[2] == p.stack + 2 * 4096 - TRAP_FRAME_SIZE,
            p.blocking_pid is None,
            p.sleep_until == 0,
            p.page_table == 0,
            p.previous_hart == hart,
            forall|j: int|
                0 <= j < old(mem).page_count() && crate::page::desc_taken(
                    #[trigger] old(mem).descriptors@[j].flags,
                ) ==> final(mem).descriptors@[j] == old(mem).descriptors@[j],
            forall|m: int|
                #[trigger] crate::page::can_alloc(old(mem).descriptors@, m) && m > 2
                    ==> crate::page::can_alloc(final(mem).descriptors@, m - 2),
    {
        let mut context = TrapFrame::new();
        context.global_interrupt_enable = 1;
        context.mode = crate::cpu::CpuMode::Machine.value();
        let r = mem.zalloc(2);
        let stack = match r {
            Option::Some(a) => a,
            Option::None => {
                proof {
                    assert(false);
                }
                0
            },
        };
        let stack_end = stack + 2 * 4096;
        context.regs[2] = stack_end - TRAP_FRAME_SIZE;
        Process {
            trap_frame: context,
            stack,
            state: ProcessState::Ready,
            page_table: 0,
            quantum: DEFAULT_QUANTUM,
            pid: IDLE_ID,
            blocking_pid: Option::None,
            sleep_until: 0,
            previous_hart: hart,
        }
    }
}

impl Kernel {
    /// Boot-time setup of the process tables: empty queues and registry,
    /// every lock released, an idle stub allocated for each hart, and no
    /// interrupts pending or enabled yet.
    pub fn init(mem: Memory, layout: SectionLayout) -> (k: Kernel)
        requires
            mem.wf(),
            crate::page::can_alloc(mem.descriptors@, 8),
        ensures
            k.wf(),
            k.layout == layout,
            k.pid_list@.len() == 0,
            k.next_pid == 0,
            k.next_hart == 0,
            forall|h: int| 0 <= h < 4 ==> (#[trigger] k.running[h]) is None,
            forall|h: int| 0 <= h < 4 ==> (#[trigger] k.idle[h]) is Some,
            forall|h: int| 0 <= h < 4 ==> (#[trigger] k.ready[h]@).len() == 0,
            k.blocked@.len() == 0,
            k.sleeping@.len() == 0,
            forall|h: int| 0 <= h < 4 ==> !(#[trigger] k.msip[h]),
            k.mem.base == mem.base,
            k.mem.page_count() == mem.page_count(),
    {
        let mut mem = mem;
        let ghost db = mem.descriptors@;
        proof {
            crate::page::lemma_can_alloc_mono(db, 8, 2);
        }
        let idle0 = Process::new_idle(&mut mem, 0);
        proof {
            assert(crate::page::can_alloc(mem.descriptors@, 6)) by {
                assert(crate::page::can_alloc(db, 8));
            }
            crate::page::lemma_can_alloc_mono(mem.descriptors@, 6, 2);
        }
        let ghost d1 = mem.descriptors@;
        let idle1 = Process::new_idle(&mut mem, 1);
        proof {
            assert(crate::page::can_alloc(mem.descriptors@, 4)) by {
                assert(crate::page::can_alloc(d1, 6));
            }
            crate::page::lemma_can_alloc_mono(mem.descriptors@, 4, 2);
        }
        let ghost d2 = mem.descriptors@;
        let idle2 = Process::new_idle(&mut mem, 2);
        proof {
            assert(crate::page::can_alloc(mem.descriptors@, 2)) by {
                assert(crate::page::can_alloc(d2, 4));
            }
        }
        let idle3 = Process::new_idle(&mut mem, 3);
        let lock = Mutex::new();
        let k = Kernel {
            running: [Option::None, Option::None, Option::None, Option::None],
            idle: [
                Option::Some(idle0),
                Option::Some(idle1),
                Option::Some(idle2),
                Option::Some(idle3),
            ],
            ready: [VecDeque::new(), VecDeque::new(), VecDeque::new(), VecDeque::new()],
            ready_locks: [lock, lock, lock, lock],
            blocked: VecDeque::new(),
            blocked_lock: lock,
            sleeping: VecDeque::new(),
            sleeping_lock: lock,
            pid_list: VecDeque::new(),
            pid_list_lock: lock,
            next_pid: 0,
            next_pid_lock: lock,
            next_hart: 0,
            next_hart_lock: lock,
            print_lock: lock,
            mem,
            layout,
            mtimecmp: [0, 0, 0, 0],
            msip: [false, false, false, false],
            mie: [0, 0, 0, 0],
            reading: false,
            line_buffer: Vec::new(),
            plic_threshold: 0,
            plic_uart_priority: 0,
            plic_uart_enabled: false,
        };
        proof {
            assert(k.all_pids() =~= Seq::<u64>::empty());
            assert(k.registry_pids() =~= Seq::<u64>::empty());
            lemma_to_multiset_empty();
            assert(k.all_pids().to_multiset() =~= k.registry_pids().to_multiset());
            assert forall|h: int| 0 <= h < 4 implies k.idle_ok_at(h) by {
            }
        }
        k
    }
}

impl Kernel {
    /// The create-thread syscall: build a new process on a fresh PID with
    /// the given entry point and arguments, register it, and append it to
    /// the current hart's ready queue. Returns the new PID.
    pub fn create_thread(&mut self, hart: usize, func: u64, arg0: u64, arg1: u64, arg2: u64) -> (
        pid: u64)
        requires
            old(self).wf(),
            hart < 4,
            old(self).layout.wf(),
            old(self).next_pid + 1 < IDLE_ID,
            crate::page::can_alloc(
                old(self).mem.descriptors@,
                old(self).layout.pages_needed(),
            ),
        ensures
            final(self).wf(),
            pid == old(self).next_pid + 1,
            final(self).next_pid == old(self).next_pid + 1,
            final(self).registry_contains(pid),
            final(self).pid_list@ == old(self).pid_list@.push((pid, Option::<u64>::None)),
            final(self).ready[hart as int]@.len() == old(self).ready[hart as int]@.len() + 1,
            ({
                let p = final(self).ready[hart as int]@.last();
                &&& p.pid == pid
                &&& p.state == ProcessState::Ready
                &&& p.trap_frame.pc == func
                &&& p.trap_frame.regs[10] == arg0
                &&& p.trap_frame.regs[11] == arg1
                &&& p.trap_frame.regs[12] == arg2
                &&& p.previous_hart == hart
            }),
            final(self).running == old(self).running,
            final(self).blocked == old(self).blocked,
            final(self).sleeping == old(self).sleeping,
            forall|h: int|
                0 <= h < 4 && h != hart ==> final(self).ready[h]@ == old(self).ready[h]@,
    {
        let pid = self.get_next_pid();
        let layout = self.layout;
        let process = Process::new(&mut self.mem, &layout, pid, hart, func, arg0, arg1, arg2);
        proof {
            assert(self.wf()) by {
                assert(self.all_pids() == old(self).all_pids());
                assert(self.registry_pids() == old(self).registry_pids());
                assert forall|h: int| 0 <= h < 4 implies self.idle_ok_at(h) by {
                    assert(old(self).idle_ok_at(h));
                }
            }
        }
        self.process_list_add(hart, process);
        pid
    }
}

} // verus!

