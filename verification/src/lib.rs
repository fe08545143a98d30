//! Tunnel orchestration and control-protocol library.
//!
//! The crate models the pieces of a WireGuard-style tunnel manager that are
//! pure logic: the line-oriented control-protocol codec, key re-encoding,
//! deterministic interface naming, the supervisor's and the privileged
//! daemon's tunnel tables, the endpoint-refresh bookkeeping, and the
//! renderers for the vendor-service configuration dialect and the one-shot
//! elevation scripts. Process management, sockets and DNS stay with the
//! caller; every decision those callers act on is verified here.

pub mod config;
pub mod daemon;
pub mod ipc;
pub mod keys;
pub mod namer;
pub mod refresh;
pub mod script;
pub mod status;
pub mod supervisor;
pub mod sync;
pub mod text;
pub mod uapi;
pub mod vendor;
