//! The verified core of K1K, a capability-based kernel and its ring-3 runtime.

pub mod align;
pub mod arch;
pub mod bytes;
pub mod decimal;
pub mod kernel;
pub mod rt;
pub mod svc;
pub mod text;
