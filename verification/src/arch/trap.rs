//! What an interrupt or exception vector means.
use vstd::prelude::*;
use vstd::string::*;

use crate::arch::apic::SPURIOUS_VECTOR;
use crate::kernel::irq::IRQ_TIMER;

verus! {

/// Register file as saved on entry (lowest address first).
#[derive(Clone, Copy, Debug, PartialEq, Eq, Structural)]
pub struct TrapFrame {
    pub r15: u64,
    pub r14: u64,
    pub r13: u64,
    pub r12: u64,
    pub r11: u64,
    pub r10: u64,
    pub r9: u64,
    pub r8: u64,
    pub rbp: u64,
    pub rdi: u64,
    pub rsi: u64,
    pub rdx: u64,
    pub rcx: u64,
    pub rbx: u64,
    pub rax: u64,
    pub vector: u64,
    pub error_code: u64,
    pub rip: u64,
    pub cs: u64,
    pub rflags: u64,
    pub rsp: u64,
    pub ss: u64,
}

impl TrapFrame {
    /// Whether the trap came from ring 3.
    pub fn from_user(&self) -> (r: bool)
        ensures
            r == (self.cs % 4 == 3),
    {
        self.cs % 4 == 3
    }
}

/// The vector page faults come on.
pub const PAGE_FAULT: u8 = 14;

/// What to do about a vector.
#[derive(Clone, Copy, Debug, PartialEq, Eq, Structural)]
pub enum Trap {
    /// An exception that is only logged.
    Note,
    /// A page fault in ring 3: the task is killed.
    UserPageFault,
    /// Another exception in ring 3: the task is killed.
    UserFault,
    /// An exception in ring 0.
    KernelPanic,
    Timer,
    Spurious,
    /// A device's interrupt.
    Device(u8),
}

/// An exception that a program in ring 3 causes kills its task and nothing else;
/// one in the kernel is a panic. Debug exceptions, NMIs and breakpoints are only
/// logged.
pub open spec fn meaning(vector: u8, user: bool) -> Trap {
    if vector < 32 {
        if 1 <= vector <= 3 {
            Trap::Note
        } else if !user {
            Trap::KernelPanic
        } else if vector == PAGE_FAULT {
            Trap::UserPageFault
        } else {
            Trap::UserFault
        }
    } else if vector == IRQ_TIMER {
        Trap::Timer
    } else if vector == SPURIOUS_VECTOR {
        Trap::Spurious
    } else {
        Trap::Device(vector)
    }
}

pub fn classify(frame: &TrapFrame) -> (r: Trap)
    ensures
        r == meaning((frame.vector % 256) as u8, frame.cs % 4 == 3),
{
    let vector: u8 = (frame.vector % 256) as u8;
    if vector < 32 {
        if vector >= 1 && vector <= 3 {
            Trap::Note
        } else if !frame.from_user() {
            Trap::KernelPanic
        } else if vector == PAGE_FAULT {
            Trap::UserPageFault
        } else {
            Trap::UserFault
        }
    } else if vector == IRQ_TIMER {
        Trap::Timer
    } else if vector == SPURIOUS_VECTOR {
        Trap::Spurious
    } else {
        Trap::Device(vector)
    }
}

/// Nothing that happens in ring 3 takes the kernel down.
pub proof fn lemma_user_never_panics(vector: u8)
    ensures
        meaning(vector, true) != Trap::KernelPanic,
{
}

/// The name of an exception.
pub open spec fn exception_text(vector: u8) -> Seq<char> {
    if vector == 0 {
        "#DE divide error"@
    } else if vector == 1 {
        "#DB debug"@
    } else if vector == 2 {
        "NMI"@
    } else if vector == 3 {
        "#BP breakpoint"@
    } else if vector == 4 {
        "#OF overflow"@
    } else if vector == 5 {
        "#BR bound range exceeded"@
    } else if vector == 6 {
        "#UD invalid opcode"@
    } else if vector == 7 {
        "#NM device not available"@
    } else if vector == 8 {
        "#DF double fault"@
    } else if vector == 9 {
        "coprocessor segment overrun"@
    } else if vector == 10 {
        "#TS invalid TSS"@
    } else if vector == 11 {
        "#NP segment not present"@
    } else if vector == 12 {
        "#SS stack segment fault"@
    } else if vector == 13 {
        "#GP general protection fault"@
    } else if vector == 14 {
        "#PF page fault"@
    } else if vector == 16 {
        "#MF x87 floating point"@
    } else if vector == 17 {
        "#AC alignment check"@
    } else if vector == 18 {
        "#MC machine check"@
    } else if vector == 19 {
        "#XM SIMD floating point"@
    } else if vector == 20 {
        "#VE virtualization"@
    } else if vector == 21 {
        "#CP control protection"@
    } else if vector == 28 {
        "#HV hypervisor injection"@
    } else if vector == 29 {
        "#VC VMM communication"@
    } else if vector == 30 {
        "#SX security"@
    } else {
        "reserved"@
    }
}

pub fn exception_name(vector: u8) -> (r: &'static str)
    requires
        vector < 32,
    ensures
        r@ == exception_text(vector),
{
    match vector {
        0 => "#DE divide error",
        1 => "#DB debug",
        2 => "NMI",
        3 => "#BP breakpoint",
        4 => "#OF overflow",
        5 => "#BR bound range exceeded",
        6 => "#UD invalid opcode",
        7 => "#NM device not available",
        8 => "#DF double fault",
        9 => "coprocessor segment overrun",
        10 => "#TS invalid TSS",
        11 => "#NP segment not present",
        12 => "#SS stack segment fault",
        13 => "#GP general protection fault",
        14 => "#PF page fault",
        16 => "#MF x87 floating point",
        17 => "#AC alignment check",
        18 => "#MC machine check",
        19 => "#XM SIMD floating point",
        20 => "#VE virtualization",
        21 => "#CP control protection",
        28 => "#HV hypervisor injection",
        29 => "#VC VMM communication",
        30 => "#SX security",
        _ => "reserved",
    }
}

/// Callee-saved registers of a suspended task, on its own kernel stack (low
/// address first).
#[derive(Clone, Copy, Debug, PartialEq, Eq, Structural)]
pub struct SavedFrame {
    pub r15: u64,
    pub r14: u64,
    pub r13: u64,
    pub r12: u64,
    pub rbx: u64,
    pub rbp: u64,
    pub rip: u64,
}

/// Bytes of a saved frame.
pub const SAVED_FRAME: u64 = 56;

/// The frame at the top of a fresh kernel stack: switching to it returns into
/// the trampoline with the entry function and its argument in registers. The
/// stack is aligned to sixteen bytes above the frame.
pub fn init_stack(stack_top: u64, entry: u64, arg: u64, trampoline: u64) -> (r: (u64, SavedFrame))
    requires
        stack_top >= 72,
    ensures
        r.0 == stack_top - stack_top % 16 - SAVED_FRAME,
        r.0 + SAVED_FRAME <= stack_top,
        (r.0 + SAVED_FRAME) % 16 == 0,
        r.1 == (SavedFrame { r15: 0, r14: 0, r13: arg, r12: entry, rbx: 0, rbp: 0, rip: trampoline }),
{
    let top: u64 = stack_top - stack_top % 16;
    (
        top - SAVED_FRAME,
        SavedFrame { r15: 0, r14: 0, r13: arg, r12: entry, rbx: 0, rbp: 0, rip: trampoline },
    )
}

/// What happens on a vector: an exception of a program ends it, one of the kernel is
/// a panic, debugging and NMIs are neither; all others are interrupts.
pub proof fn lemma_vectors(vector: u8, user: bool)
    ensures
        vector == 1 || vector == 2 || vector == 3 ==> meaning(vector, user) == Trap::Note,
        vector < 32 && vector != 1 && vector != 2 && vector != 3 ==> {
            &&& !user ==> meaning(vector, user) == Trap::KernelPanic
            &&& user && vector == 14 ==> meaning(vector, user) == Trap::UserPageFault
            &&& user && vector != 14 ==> meaning(vector, user) == Trap::UserFault
        },
        vector == 32 ==> meaning(vector, user) == Trap::Timer,
        vector == 255 ==> meaning(vector, user) == Trap::Spurious,
        32 < vector < 255 ==> meaning(vector, user) == Trap::Device(vector),
{
}

} // verus!
