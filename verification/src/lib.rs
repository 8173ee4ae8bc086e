//! Data-plane core of a TCP-over-DNS tunnel.
//!
//! The library holds the verified logic shared by the tunnel client and
//! server: the DNS wire codec that carries opaque transport datagrams as
//! base32-labelled TXT queries, per-stream flow control, the pacing budget
//! for poll scheduling, peer classification for UDP fallback, the pinned
//! certificate verifier, and the configuration parsers.

pub mod base32;
pub mod bytestr;
pub mod client_cfg;
pub mod dns_codec;
pub mod dns_name;
pub mod dns_types;
pub mod dns_wire;
pub mod dots;
pub mod error;
pub mod failure;
pub mod fallback;
pub mod flow;
pub mod net;
pub mod pacing;
pub mod pinning;
pub mod reporter;
pub mod resolver;
pub mod seed;
pub mod server;
pub mod sip003;
pub mod tcp;
