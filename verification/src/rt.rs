//! The ring-3 runtime: heap, system-call encoding, file protocol.
pub mod abi;
pub mod audit;
pub mod blocks;
pub mod calls;
pub mod file;
pub mod fsproto;
pub mod heap;
pub mod info;
pub mod report;
pub mod server;
