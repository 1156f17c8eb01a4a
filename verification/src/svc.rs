//! The services: init and the file system, the block driver, the keyboard, the
//! demonstrations, and what clients and servers say to each other.
pub mod blk;
pub mod demo;
pub mod exchange;
pub mod fat;
pub mod hello;
pub mod init;
pub mod kbd;
pub mod manifest;
pub mod nvme;
pub mod paths;
pub mod serve;
