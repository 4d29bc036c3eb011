//! A verified core for an intercepting forwarding proxy: credential parsing
//! for `Proxy-Authorization`, the expiring bounded cache behind the session
//! and upstream-client stores, the connection and client identities, the
//! per-request dispatch state machine, and the canned responses and message
//! conversion around it. All I/O — sockets, TLS, the upstream client itself —
//! stays outside; the library works on plain values and an explicit clock.
pub mod auth;
pub mod bytes;
pub mod ca;
pub mod convert;
pub mod proxy;
pub mod response;
pub mod route;
pub mod storage;
pub mod util;
