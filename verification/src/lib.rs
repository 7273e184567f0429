//! A hex-dump codec: renders a byte stream as fixed-width lines of
//! lowercase hexadecimal with an address column and a printable-ASCII
//! sidebar, and reconstructs the original bytes from such a dump.

pub mod decode;
pub mod encode;
pub mod hex;
pub mod laws;
