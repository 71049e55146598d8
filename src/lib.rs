//! The core of a small RISC-V teaching kernel, verified with Verus.
//!
//! - `firmware`, `lab_firmware`: what the machine-mode firmware does for
//!   each environment call; `sbi`: the calls the kernel makes to it.
//! - `frame`: the physical frame allocator; `memory`: user address spaces
//!   (mmap, munmap, fork, copy in and out); `elf`, `loader`: executables.
//! - `task`: the task table (fork, spawn, exec, exit, waitpid);
//!   `stride`: the stride scheduler; `trap`: trap dispatch.
//! - `pipe`, `file`, `fd`, `fs`, `block_cache`: pipes, open files,
//!   descriptor tables, the inode file system and its block cache.
//! - `timer`, `user`: time arithmetic; `portal`, `cases`: layout of the
//!   address-space switch portal and of the embedded user programs.
//!
//! Device access, inline assembly and locking are left to the caller.

pub mod block_cache;
pub mod cases;
pub mod elf;
pub mod fd;
pub mod file;
pub mod firmware;
pub mod frame;
pub mod fs;
pub mod lab_firmware;
pub mod loader;
pub mod memory;
pub mod pipe;
pub mod portal;
pub mod sbi;
pub mod stride;
pub mod task;
pub mod timer;
pub mod trap;
pub mod user;
