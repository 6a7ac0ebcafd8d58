//! A verified codec for the CoAP binary wire format: the fixed four-byte
//! header, the token, the delta-encoded option records, and the payload.
//!
//! Encoding and decoding are specified against a mathematical model of the
//! wire format, and the encode/decode round trip is proved.

pub mod error;
pub mod header;
pub mod packet;
pub mod table;
pub mod wire;
