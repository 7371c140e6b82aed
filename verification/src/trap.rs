//! Trap plumbing: the per-hart interrupt-enable word, the CLINT's software
//! interrupt bits and timer compare registers, and the machine-mode trap
//! dispatcher with its syscall table.

use vstd::prelude::*;

use crate::cpu::CONTEXT_SWITCH_TIME;
use crate::cpu::TrapFrame;
use crate::process::expired;
use crate::process::Kernel;
use crate::process::ProcessState;
use crate::process::IDLE_ID;
use crate::ENABLE_PREEMPTION;

verus! {

/// One line the kernel prints on a process's behalf: who printed (hart,
/// previous hart, PID) and the user buffer it passed (pointer and length).
#[derive(Clone, Copy, PartialEq, Eq, Structural)]
pub struct PrintRecord {
    pub current_hart: usize,
    pub previous_hart: usize,
    pub pid: u64,
    pub ptr: u64,
    pub len: u64,
}

/// Machine-software-interrupt enable: bit 3 of `mie`.
pub const MIE_MSIE: u64 = 8;

/// Machine-timer-interrupt enable: bit 7 of `mie`.
pub const MIE_MTIE: u64 = 128;

/// Machine-external-interrupt enable: bit 11 of `mie`.
pub const MIE_MEIE: u64 = 2048;

impl Kernel {
    /// Clear the timer-interrupt enable in this hart's `mie`.
    pub fn disable_machine_timer_interrupt(&mut self, hart: usize)
        requires
            hart < 4,
        ensures
            *final(self) == (Kernel { mie: final(self).mie, ..*old(self) }),
            final(self).mie@ == old(self).mie@.update(
                hart as int,
                old(self).mie[hart as int] & (!MIE_MTIE),
            ),
    {
        self.mie[hart] = self.mie[hart] & !MIE_MTIE;
    }

    /// Set the timer-interrupt enable in this hart's `mie`.
    pub fn enable_machine_timer_interrupt(&mut self, hart: usize)
        requires
            hart < 4,
        ensures
            *final(self) == (Kernel { mie: final(self).mie, ..*old(self) }),
            final(self).mie@ == old(self).mie@.update(
                hart as int,
                old(self).mie[hart as int] | MIE_MTIE,
            ),
    {
        self.mie[hart] = self.mie[hart] | MIE_MTIE;
    }

    /// Clear the software-interrupt enable in this hart's `mie`.
    pub fn disable_machine_software_interrupt(&mut self, hart: usize)
        requires
            hart < 4,
        ensures
            *final(self) == (Kernel { mie: final(self).mie, ..*old(self) }),
            final(self).mie@ == old(self).mie@.update(
                hart as int,
                old(self).mie[hart as int] & (!MIE_MSIE),
            ),
    {
        self.mie[hart] = self.mie[hart] & !MIE_MSIE;
    }

    /// Set the software-interrupt enable in this hart's `mie`.
    pub fn enable_machine_software_interrupt(&mut self, hart: usize)
        requires
            hart < 4,
        ensures
            *final(self) == (Kernel { mie: final(self).mie, ..*old(self) }),
            final(self).mie@ == old(self).mie@.update(
                hart as int,
                old(self).mie[hart as int] | MIE_MSIE,
            ),
    {
        self.mie[hart] = self.mie[hart] | MIE_MSIE;
    }

    /// Raise a software interrupt on `hartid` by setting its CLINT msip bit.
    pub fn send_software_interrupt(&mut self, hartid: usize)
        requires
            hartid < 4,
        ensures
            *final(self) == (Kernel { msip: final(self).msip, ..*old(self) }),
            final(self).msip@ == old(self).msip@.update(hartid as int, true),
    {
        self.msip[hartid] = true;
    }

    /// Acknowledge a software interrupt by zeroing this hart's msip bit.
    pub fn complete_software_interrupt(&mut self, hartid: usize)
        requires
            hartid < 4,
        ensures
            *final(self) == (Kernel { msip: final(self).msip, ..*old(self) }),
            final(self).msip@ == old(self).msip@.update(hartid as int, false),
    {
        self.msip[hartid] = false;
    }

    /// Raise a software interrupt on every hart.
    pub fn wake_all_harts(&mut self)
        ensures
            *final(self) == (Kernel { msip: final(self).msip, ..*old(self) }),
            final(self).msip@ == seq![true, true, true, true],
    {
        let mut hartid: usize = 0;
        while hartid < 4
            invariant
                hartid <= 4,
                *self == (Kernel { msip: self.msip, ..*old(self) }),
                forall|h: int| 0 <= h < hartid ==> self.msip@[h],
                forall|h: int| hartid <= h < 4 ==> self.msip@[h] == old(self).msip@[h],
            decreases 4 - hartid,
        {
            self.send_software_interrupt(hartid);
            hartid = hartid + 1;
        }
        proof {
            assert(self.msip@ =~= seq![true, true, true, true]);
        }
    }

    /// The timer compare register this hart last programmed.
    pub fn get_mtimecmp(&self, hart: usize) -> (r: u64)
        requires
            hart < 4,
        ensures
            r == self.mtimecmp[hart as int],
    {
        self.mtimecmp[hart]
    }

    /// Program this hart's next timer interrupt `quantum` preemption slots
    /// after the given `mtime` reading (a no-op with preemption off).
    pub fn schedule_machine_timer_interrupt(&mut self, hart: usize, mtime: u64, quantum: u64)
        requires
            hart < 4,
            CONTEXT_SWITCH_TIME * quantum <= u64::MAX,
        ensures
            *final(self) == (Kernel { mtimecmp: final(self).mtimecmp, ..*old(self) }),
            ENABLE_PREEMPTION ==> final(self).mtimecmp@ == old(self).mtimecmp@.update(
                hart as int,
                (((mtime + CONTEXT_SWITCH_TIME * quantum) as int % 0x1_0000_0000_0000_0000)
                    as u64),
            ),
            !ENABLE_PREEMPTION ==> final(self).mtimecmp@ == old(self).mtimecmp@,
            (mtime + CONTEXT_SWITCH_TIME * quantum <= u64::MAX && ENABLE_PREEMPTION) ==> final(self).mtimecmp[hart as int] == mtime + CONTEXT_SWITCH_TIME * quantum,
    {
        if ENABLE_PREEMPTION {
            self.mtimecmp[hart] = mtime.wrapping_add(CONTEXT_SWITCH_TIME * quantum);
        }
    }
}

/// The interrupt bit and cause code of an `mcause` reading.
pub open spec fn mcause_is_async(mcause: u64) -> bool {
    (mcause >> 63) & 1 == 1
}

pub open spec fn mcause_code(mcause: u64) -> u64 {
    mcause & 0xfff
}

/// What one trap asks the hardware to do next: the context the restore
/// stub loads, and at most one line to print.
#[derive(Clone, Copy)]
pub struct TrapOutcome {
    pub frame: TrapFrame,
    pub print: Option<PrintRecord>,
}

impl Kernel {
    /// The single trap entry per hart, after the save stub stored the
    /// running context: decode `mcause`, handle the software, timer or
    /// external interrupt or the user syscall, and return what to resume.
    ///
    /// The hardware-read inputs come in as plain values: the `mtime`
    /// reading, the PLIC claim (when the trap is external) and the UART
    /// byte behind it.
    #[verifier::rlimit(100)]
    #[verifier::spinoff_prover]
    pub fn tong_os_trap(
        &mut self,
        hart: usize,
        trap_frame: TrapFrame,
        mcause: u64,
        mtime: u64,
        external_source: Option<u32>,
        uart_byte: Option<u8>,
    ) -> (r: TrapOutcome)
        requires
            old(self).wf(),
            hart < 4,
            old(self).running[hart as int].is_some(),
            old(self).running[hart as int]->Some_0.pid != IDLE_ID ==> trap_frame.satp
                == crate::cpu::spec_build_satp(
                old(self).running[hart as int]->Some_0.pid,
                old(self).running[hart as int]->Some_0.page_table,
            ),
            mcause_is_async(mcause) ==> (mcause_code(mcause) == 3 || mcause_code(mcause) == 7
                || mcause_code(mcause) == 11),
            (mcause_is_async(mcause) && mcause_code(mcause) == 3) ==> old(self).running[hart as int]->Some_0.pid
                == IDLE_ID,
            (mcause_is_async(mcause) && mcause_code(mcause) == 11) ==> (
            external_source matches Option::Some(src) ==> src == 10),
            !mcause_is_async(mcause) ==> (mcause_code(mcause) == 8 && old(self).running[hart as int]->Some_0.pid
                != IDLE_ID && trap_frame.regs[10] <= 6 && trap_frame.pc + 4 <= u64::MAX),
            (!mcause_is_async(mcause) && trap_frame.regs[10] == 0)
                ==> crate::process::process_frames_ok(
                old(self).mem,
                old(self).running[hart as int]->Some_0,
            ),
            (!mcause_is_async(mcause) && trap_frame.regs[10] == 1) ==> (old(self).next_pid + 1
                < IDLE_ID && old(self).layout.wf() && crate::page::can_alloc(
                old(self).mem.descriptors@,
                old(self).layout.pages_needed(),
            )),
            (!mcause_is_async(mcause) && trap_frame.regs[10] == 3) ==> mtime
                + trap_frame.regs[11] * CONTEXT_SWITCH_TIME <= u64::MAX,
        ensures
            final(self).wf(),
            (!mcause_is_async(mcause) && trap_frame.regs[10] == 0)
                ==> !final(self).registry_contains(old(self).running[hart as int]->Some_0.pid),
            (!mcause_is_async(mcause) && trap_frame.regs[10] == 0) ==> ({
                let m0 = old(self).mem;
                let p = old(self).running[hart as int]->Some_0;
                let si = m0.spec_page_index(p.stack);
                let ri = m0.spec_page_index(p.page_table);
                &&& forall|j: int|
                    si <= j <= si + 11 ==> (#[trigger] final(self).mem.descriptors@[j]).flags
                        == 0
                &&& final(self).mem.descriptors@[ri].flags == 0
                &&& forall|f: int|
                    #[trigger] m0.tree_member(ri, f) ==> final(self).mem.descriptors@[f].flags
                        == 0
            }),
            (!mcause_is_async(mcause) && trap_frame.regs[10] == 1)
                ==> (r.frame.regs[10] == old(self).next_pid + 1
                && final(self).registry_contains((old(self).next_pid + 1) as u64)
                && r.frame.pc == trap_frame.pc + 4),
            (!mcause_is_async(mcause) && trap_frame.regs[10] == 5) ==> (
            r.print matches Option::Some(rec) && rec.ptr == trap_frame.regs[11] && rec.len
                == trap_frame.regs[12] && rec.pid == old(self).running[hart as int]->Some_0.pid
                && rec.current_hart == hart),
            (!mcause_is_async(mcause) && trap_frame.regs[10] == 6) ==> (r.frame.regs[10] == mtime
                && r.frame.pc == trap_frame.pc + 4),
            (mcause_is_async(mcause) && mcause_code(mcause) == 11 && external_source
                == Option::Some(10u32) && (uart_byte matches Option::Some(c) && c != 8 && c != 127
                && c != 10 && c != 13))
                ==> final(self).line_buffer@ == old(self).line_buffer@.push(uart_byte->Some_0),
            (mcause_is_async(mcause) && mcause_code(mcause) == 11 && external_source
                == Option::Some(10u32) && (uart_byte == Option::Some(8u8) || uart_byte
                == Option::Some(127u8)))
                ==> final(self).line_buffer@ == (if old(self).line_buffer@.len() > 0 {
                old(self).line_buffer@.drop_last()
            } else {
                old(self).line_buffer@
            }),
            (mcause_is_async(mcause) && mcause_code(mcause) == 11 && external_source
                == Option::Some(10u32) && (uart_byte == Option::Some(10u8) || uart_byte
                == Option::Some(13u8))) ==> (!final(self).reading && final(self).mie[hart as int]
                == MIE_MTIE && final(self).line_buffer == old(self).line_buffer),
            (mcause_is_async(mcause) && mcause_code(mcause) == 11) ==> r.frame == trap_frame,
            (mcause_is_async(mcause) && mcause_code(mcause) == 3) ==> (final(self).msip[hart as int]
                == false && final(self).running[hart as int].is_some()),
            (mcause_is_async(mcause) && mcause_code(mcause) == 7)
                ==> (final(self).running[hart as int].is_some() && (forall|i: int|
                0 <= i < final(self).sleeping@.len() ==> !expired(
                    #[trigger] final(self).sleeping@[i],
                    mtime,
                ))),
            (!mcause_is_async(mcause) && trap_frame.regs[10] == 2)
                ==> ((!old(self).registry_contains(trap_frame.regs[11])
                ==> (final(self).blocked == old(self).blocked
                && r.frame.pc == trap_frame.pc + 4))
                && (old(self).registry_contains(trap_frame.regs[11])
                ==> final(self).blocked@.len() == old(self).blocked@.len() + 1)),
            (!mcause_is_async(mcause) && trap_frame.regs[10] == 3)
                ==> (final(self).sleeping@.len() == old(self).sleeping@.len() + 1
                && final(self).sleeping@.last().state == ProcessState::Sleeping(
                ((mtime + trap_frame.regs[11] * CONTEXT_SWITCH_TIME) as u64),
            )),
            (!mcause_is_async(mcause) && trap_frame.regs[10] == 4) ==> (final(self).reading
                && final(self).line_buffer@ == Seq::<u8>::empty() && final(self).plic_uart_enabled
                && r.frame.pc == trap_frame.pc + 4),
    {
        self.update_running_process_trap_frame(hart, trap_frame);
        let is_async = (mcause >> 63) & 1 == 1;
        let cause = mcause & 0xfff;
        if is_async {
            if cause == 3 {
                let ghost before = *self;
                self.complete_software_interrupt(hart);
                proof {
                    crate::process::lemma_wf_same_core(before, *self);
                }
                self.yield_idle_process(hart);
                let f = self.schedule(hart, mtime);
                TrapOutcome { frame: f, print: Option::None }
            } else if cause == 7 {
                let has_awaken = self.try_wake_sleeping(hart, mtime);
                let pid = self.get_running_process_pid(hart);
                if pid == IDLE_ID {
                    if has_awaken {
                        self.yield_idle_process(hart);
                        let f = self.schedule(hart, mtime);
                        TrapOutcome { frame: f, print: Option::None }
                    } else {
                        let ghost before = *self;
                        self.schedule_machine_timer_interrupt(hart, mtime, 1);
                        proof {
                            crate::process::lemma_wf_same_core(before, *self);
                        }
                        TrapOutcome { frame: trap_frame, print: Option::None }
                    }
                } else {
                    self.yield_running_process(hart);
                    let f = self.schedule(hart, mtime);
                    TrapOutcome { frame: f, print: Option::None }
                }
            } else {
                match external_source {
                    Option::None => TrapOutcome { frame: trap_frame, print: Option::None },
                    Option::Some(_source) => {
                        match uart_byte {
                            Option::None => TrapOutcome {
                                frame: trap_frame,
                                print: Option::None,
                            },
                            Option::Some(c) => {
                                let ghost before = *self;
                                if c == 8 || c == 127 {
                                    let _removed = self.line_buffer.pop();
                                    proof {
                                        crate::process::lemma_wf_same_core(before, *self);
                                    }
                                    TrapOutcome { frame: trap_frame, print: Option::None }
                                } else if c == 10 || c == 13 {
                                    self.reading = false;
                                    self.mie[hart] = MIE_MTIE;
                                    self.schedule_machine_timer_interrupt(hart, mtime, 1);
                                    proof {
                                        crate::process::lemma_wf_same_core(before, *self);
                                    }
                                    TrapOutcome { frame: trap_frame, print: Option::None }
                                } else {
                                    self.line_buffer.push(c);
                                    proof {
                                        crate::process::lemma_wf_same_core(before, *self);
                                    }
                                    TrapOutcome { frame: trap_frame, print: Option::None }
                                }
                            },
                        }
                    },
                }
            }
        } else {
            let code = trap_frame.regs[10];
            if code == 0 {
                proof {
                    assert(crate::process::process_frames_ok(
                        self.mem,
                        self.running[hart as int]->Some_0,
                    ));
                }
                let f = self.exit(hart, mtime);
                TrapOutcome { frame: f, print: Option::None }
            } else if code == 1 {
                let entry = trap_frame.regs[11];
                let a0 = trap_frame.regs[12];
                let a1 = trap_frame.regs[13];
                let a2 = trap_frame.regs[14];
                let new_pid = self.create_thread(hart, entry, a0, a1, a2);
                let mut f = trap_frame;
                f.regs[10] = new_pid;
                f.pc = trap_frame.pc + 4;
                self.update_running_process_trap_frame(hart, f);
                TrapOutcome { frame: f, print: Option::None }
            } else if code == 2 {
                let joining_pid = trap_frame.regs[11];
                let mut f = trap_frame;
                f.pc = trap_frame.pc + 4;
                self.update_running_process_trap_frame(hart, f);
                let rf = self.join(hart, joining_pid, mtime);
                TrapOutcome { frame: rf, print: Option::None }
            } else if code == 3 {
                let amount = trap_frame.regs[11];
                let mut f = trap_frame;
                f.pc = trap_frame.pc + 4;
                self.update_running_process_trap_frame(hart, f);
                let rf = self.sleep(hart, amount, mtime);
                TrapOutcome { frame: rf, print: Option::None }
            } else if code == 4 {
                let mut f = trap_frame;
                f.pc = trap_frame.pc + 4;
                self.update_running_process_trap_frame(hart, f);
                let rf = self.read_line(hart);
                TrapOutcome { frame: rf, print: Option::None }
            } else if code == 5 {
                let mut f = trap_frame;
                f.pc = trap_frame.pc + 4;
                self.update_running_process_trap_frame(hart, f);
                let record = self.print_str(hart);
                TrapOutcome { frame: f, print: Option::Some(record) }
            } else {
                let now = self.time_now(mtime);
                let mut f = trap_frame;
                f.regs[10] = now;
                f.pc = trap_frame.pc + 4;
                self.update_running_process_trap_frame(hart, f);
                TrapOutcome { frame: f, print: Option::None }
            }
        }
    }
}

} // verus!
