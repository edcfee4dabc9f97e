//! CIDR/subnet calculator: network address, broadcast (highest) address,
//! usable host range, host counts and equal-size subnet splitting, for IPv4
//! and IPv6 through one code path.

pub mod cidr;
pub mod split;
pub mod render;
pub mod ipaddr;
pub mod ipparse;
pub mod radix;
pub mod text;
pub mod bits;
mod stdlib;
