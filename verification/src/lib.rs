//! Reverse-DNS (PTR) lookup core: query-name construction, CIDR range
//! enumeration, the bounded-retry resolver protocol, and the bulk safety gate.

pub mod cidr;
pub mod ip;
pub mod parse;
pub mod ptr_name;
pub mod range;
pub mod resolver;
