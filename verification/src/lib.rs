//! Core engine of a TCP reachability probe: expanding CIDR subnets into
//! host addresses, turning target strings into resolved hosts, and folding
//! per-address probe verdicts into per-host online/offline verdicts.
//!
//! All blocking network I/O (DNS lookups, TCP connection attempts) lives in
//! the surrounding driver; this crate holds the decision logic and the pure
//! text processing, with contracts that pin each result down.

pub mod addr;
pub mod check;
pub mod expand;
pub mod host;
pub mod parse;

pub use addr::IpAddress;
pub use check::{CheckStrategy, IpProtocol, ProbeOutcome, TcpPortCheck};
pub use expand::expand_subnets;
pub use host::{Host, HostParseError};
