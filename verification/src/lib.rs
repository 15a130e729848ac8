//! Conversion between CIDR notation (`address/prefix-length`) and an explicit
//! address and subnet mask, for IPv4 and IPv6, with the range of host
//! addresses that the subnet covers.
//!
//! - [`cidr`]: the subnet itself, read from text, made of an address and a
//!   mask, and written as text.
//! - [`address`]: addresses, masks and the arithmetic on them.
//! - [`ipv4`], [`ipv6`], [`text`]: the textual notations.
//! - [`bits`]: counting set bits.
//! - [`laws`], [`roundtrip`]: what holds of all of these, proved.

pub mod address;
pub mod bits;
pub mod cidr;
pub mod ipv4;
pub mod ipv6;
pub mod laws;
pub mod roundtrip;
pub mod text;
