//! IronLung: the verified core of a memory-hardening libc interposer.
//!
//! The interposed C entry points (in the surrounding glue) validate their
//! arguments and plan their work with the functions of this crate, then
//! delegate to the kernel or to the system libc.

pub mod abi;
pub mod bytes;
pub mod cstr;
pub mod decimal;
pub mod guard;
pub mod heap;
pub mod protocol;
pub mod quarantine;
pub mod request;
pub mod sandbox;
pub mod stdio_kernel;
pub mod threads;
pub mod tls_cache;
