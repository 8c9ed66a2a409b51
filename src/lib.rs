//! A UDP rendezvous server's core: the wire codec, the per-client reliable
//! transport, and the session registry.
pub mod codec;
pub mod transport;
pub mod registry;
