//! CPU-level definitions: the trap frame, register names, privilege modes,
//! timer tunables, and the `satp` (address-translation register) encoding.

use vstd::prelude::*;

verus! {

/// The timer frequency of the target platform (QEMU virt): 10 MHz.
pub const FREQ: u64 = 10_000_000;

/// Timer ticks between preemptions: 500 context switches per second.
pub const CONTEXT_SWITCH_TIME: u64 = 10_000_000 / 500;

/// Privilege mode recorded in a trap frame.
#[derive(Clone, Copy, PartialEq, Eq, Structural)]
pub enum CpuMode {
    User,
    Supervisor,
    Machine,
}

impl CpuMode {
    /// The two-bit encoding of the mode, as `mstatus.MPP` holds it.
    pub open spec fn spec_value(self) -> u64 {
        match self {
            CpuMode::User => 0,
            CpuMode::Supervisor => 1,
            CpuMode::Machine => 3,
        }
    }

    pub fn value(self) -> (v: u64)
        ensures
            v == self.spec_value(),
    {
        match self {
            CpuMode::User => 0,
            CpuMode::Supervisor => 1,
            CpuMode::Machine => 3,
        }
    }
}

/// General-purpose register names in trap-frame order.
#[derive(Clone, Copy, PartialEq, Eq, Structural)]
pub enum GeneralPurposeRegister {
    Zero,
    Ra,
    Sp,
    Gp,
    Tp,
    T0,
    T1,
    T2,
    S0,
    S1,
    A0,
    A1,
    A2,
    A3,
    A4,
    A5,
    A6,
    A7,
    S2,
    S3,
    S4,
    S5,
    S6,
    S7,
    S8,
    S9,
    S10,
    S11,
    T3,
    T4,
    T5,
    T6,
}

impl GeneralPurposeRegister {
    /// Index of the register within the trap frame's register array.
    pub open spec fn spec_index(self) -> int {
        match self {
            GeneralPurposeRegister::Zero => 0,
            GeneralPurposeRegister::Ra => 1,
            GeneralPurposeRegister::Sp => 2,
            GeneralPurposeRegister::Gp => 3,
            GeneralPurposeRegister::Tp => 4,
            GeneralPurposeRegister::T0 => 5,
            GeneralPurposeRegister::T1 => 6,
            GeneralPurposeRegister::T2 => 7,
            GeneralPurposeRegister::S0 => 8,
            GeneralPurposeRegister::S1 => 9,
            GeneralPurposeRegister::A0 => 10,
            GeneralPurposeRegister::A1 => 11,
            GeneralPurposeRegister::A2 => 12,
            GeneralPurposeRegister::A3 => 13,
            GeneralPurposeRegister::A4 => 14,
            GeneralPurposeRegister::A5 => 15,
            GeneralPurposeRegister::A6 => 16,
            GeneralPurposeRegister::A7 => 17,
            GeneralPurposeRegister::S2 => 18,
            GeneralPurposeRegister::S3 => 19,
            GeneralPurposeRegister::S4 => 20,
            GeneralPurposeRegister::S5 => 21,
            GeneralPurposeRegister::S6 => 22,
            GeneralPurposeRegister::S7 => 23,
            GeneralPurposeRegister::S8 => 24,
            GeneralPurposeRegister::S9 => 25,
            GeneralPurposeRegister::S10 => 26,
            GeneralPurposeRegister::S11 => 27,
            GeneralPurposeRegister::T3 => 28,
            GeneralPurposeRegister::T4 => 29,
            GeneralPurposeRegister::T5 => 30,
            GeneralPurposeRegister::T6 => 31,
        }
    }

    pub fn index(self) -> (i: usize)
        ensures
            i as int == self.spec_index(),
            i < 32,
    {
        match self {
            GeneralPurposeRegister::Zero => 0,
            GeneralPurposeRegister::Ra => 1,
            GeneralPurposeRegister::Sp => 2,
            GeneralPurposeRegister::Gp => 3,
            GeneralPurposeRegister::Tp => 4,
            GeneralPurposeRegister::T0 => 5,
            GeneralPurposeRegister::T1 => 6,
            GeneralPurposeRegister::T2 => 7,
            GeneralPurposeRegister::S0 => 8,
            GeneralPurposeRegister::S1 => 9,
            GeneralPurposeRegister::A0 => 10,
            GeneralPurposeRegister::A1 => 11,
            GeneralPurposeRegister::A2 => 12,
            GeneralPurposeRegister::A3 => 13,
            GeneralPurposeRegister::A4 => 14,
            GeneralPurposeRegister::A5 => 15,
            GeneralPurposeRegister::A6 => 16,
            GeneralPurposeRegister::A7 => 17,
            GeneralPurposeRegister::S2 => 18,
            GeneralPurposeRegister::S3 => 19,
            GeneralPurposeRegister::S4 => 20,
            GeneralPurposeRegister::S5 => 21,
            GeneralPurposeRegister::S6 => 22,
            GeneralPurposeRegister::S7 => 23,
            GeneralPurposeRegister::S8 => 24,
            GeneralPurposeRegister::S9 => 25,
            GeneralPurposeRegister::S10 => 26,
            GeneralPurposeRegister::S11 => 27,
            GeneralPurposeRegister::T3 => 28,
            GeneralPurposeRegister::T4 => 29,
            GeneralPurposeRegister::T5 => 30,
            GeneralPurposeRegister::T6 => 31,
        }
    }
}

/// Floating-point register names in trap-frame order.
#[derive(Clone, Copy, PartialEq, Eq, Structural)]
pub enum FloatingPointRegister {
    Ft0,
    Ft1,
    Ft2,
    Ft3,
    Ft4,
    Ft5,
    Ft6,
    Ft7,
    Fs0,
    Fs1,
    Fa0,
    Fa1,
    Fa2,
    Fa3,
    Fa4,
    Fa5,
    Fa6,
    Fa7,
    Fs2,
    Fs3,
    Fs4,
    Fs5,
    Fs6,
    Fs7,
    Fs8,
    Fs9,
    Fs10,
    Fs11,
    Ft8,
    Ft9,
    Ft10,
    Ft11,
}

/// Saved context of a process: 32 general-purpose registers, 32 floating
/// registers (held as raw 64-bit words), `satp`, the program counter, the
/// global-interrupt-enable flag and the privilege mode. Offsets are part of
/// the ABI shared with the save/restore stub.
#[derive(Clone, Copy)]
pub struct TrapFrame {
    pub regs: [u64; 32],
    pub fregs: [u64; 32],
    pub satp: u64,
    pub pc: u64,
    pub global_interrupt_enable: u64,
    pub mode: u64,
}

impl TrapFrame {
    pub fn new() -> (t: TrapFrame)
        ensures
            t.regs@ == Seq::new(32, |i: int| 0u64),
            t.fregs@ == Seq::new(32, |i: int| 0u64),
            t.satp == 0,
            t.pc == 0,
            t.global_interrupt_enable == 0,
            t.mode == 0,
    {
        let t = TrapFrame {
            regs: [0; 32],
            fregs: [0; 32],
            satp: 0,
            pc: 0,
            global_interrupt_enable: 0,
            mode: 0,
        };
        proof {
            assert(t.regs@ =~= Seq::new(32, |i: int| 0u64));
            assert(t.fregs@ =~= Seq::new(32, |i: int| 0u64));
        }
        t
    }
}

/// Sv39 mode field of `satp`.
pub const SATP_MODE_SV39: u64 = 8;

/// The `satp` encoding: MODE in bits 63..60, ASID in bits 59..44,
/// PPN (the root table's physical page number) in bits 43..0.
pub open spec fn spec_build_satp(asid: u64, physical_address: u64) -> u64 {
    ((8u64 << 60) | ((asid & 0xffff) << 44) | ((physical_address >> 12) & 0xFFF_FFFF_FFFFu64))
}

/// Pack Sv39 mode, a 16-bit ASID (the PID, truncated) and the 44-bit
/// physical page number of the root table into a `satp` value.
pub fn build_satp(asid: u64, physical_address: u64) -> (satp: u64)
    ensures
        satp == spec_build_satp(asid, physical_address),
{
    let mode = SATP_MODE_SV39 << 60;
    let asid_field = (asid & 0xffff) << 44;
    let ppn_mask = 0xFFF_FFFF_FFFFu64;
    let physical_page_number = (physical_address >> 12) & ppn_mask;
    mode | asid_field | physical_page_number
}

/// Law: the `satp` fields read back exactly as they were packed:
/// the top four bits hold the Sv39 mode 8, bits 59..44 hold the low sixteen
/// bits of the ASID, and bits 43..0 hold the root's physical page number.
pub proof fn lemma_build_satp_fields(asid: u64, physical_address: u64)
    ensures
        spec_build_satp(asid, physical_address) >> 60 == 8,
        (spec_build_satp(asid, physical_address) >> 44) & 0xffff == asid & 0xffff,
        spec_build_satp(asid, physical_address) & 0xFFF_FFFF_FFFFu64 == (physical_address >> 12)
            & 0xFFF_FFFF_FFFFu64,
{
    assert(((8u64 << 60) | ((asid & 0xffff) << 44) | ((physical_address >> 12)
        & 0xFFF_FFFF_FFFFu64)) >> 60 == 8) by (bit_vector);
    assert((((8u64 << 60) | ((asid & 0xffff) << 44) | ((physical_address >> 12)
        & 0xFFF_FFFF_FFFFu64)) >> 44) & 0xffff == asid & 0xffff) by (bit_vector);
    assert(((8u64 << 60) | ((asid & 0xffff) << 44) | ((physical_address >> 12)
        & 0xFFF_FFFF_FFFFu64)) & 0xFFF_FFFF_FFFFu64 == (physical_address >> 12)
        & 0xFFF_FFFF_FFFFu64) by (bit_vector);
}

} // verus!
