//! The kernel: memory, tasks, capabilities, messages, services and hardware
//! descriptions.
pub mod bitmap;
pub mod pmm;
pub mod obj;
pub mod memory;
pub mod message;
pub mod sched;
pub mod task;
pub mod ipc;
pub mod vmm;
pub mod loader;
pub mod count;
pub mod services;
pub mod state;
pub mod syscall;
pub mod dispatch;
pub mod reap;
pub mod builtin;
pub mod start;
pub mod irq;
pub mod console;
pub mod cmdline;
pub mod laws;
