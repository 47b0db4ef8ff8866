//! Inspection of the virtual memory layout of a running Unix process.
//!
//! The crate models the line-oriented memory-map record format: each record
//! describes one contiguous mapped region of a process's address space, with
//! its permissions, backing device and optional backing file.  The parser
//! validates every field and attributes each failure to the exact field that
//! caused it.  A ptrace session model tracks the attach/read/detach protocol
//! and guarantees that a partially failed region read never leaks partial
//! bytes into the caller's buffer.
//!
//! The system calls themselves (attaching, seeking, reading raw memory) are
//! performed by the embedding program; this crate holds the full parsing,
//! rendering and decision logic, verified.

pub mod cmdline;
pub mod error;
pub mod memmem;
pub mod memory;
pub mod ptrace;
pub mod text;
