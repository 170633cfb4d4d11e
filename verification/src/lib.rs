//! A host-and-port value type: an IP address or a validated domain name,
//! paired with a 16-bit port, with parsing from and formatting to the
//! `host:port` string form.

pub mod addr;
pub mod ipv4;
pub mod ipv6;
pub mod pair;
pub mod text;

pub use addr::IpAddress;
pub use ipv4::Ipv4Address;
pub use ipv6::Ipv6Address;
pub use pair::{Host, HostPortPair, HostPortPairError};
pub use text::PortParseError;
