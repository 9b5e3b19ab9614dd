//! Client library for a line-oriented request/response-plus-event wire
//! protocol used to control a telephony switching engine over a byte stream.
//!
//! The crate is organised around three layers:
//! - a frame codec ([`data`]): parses one protocol frame (a header block
//!   followed by an optional Content-Length-delimited body) out of a byte
//!   buffer, and encodes frames back to bytes;
//! - value types ([`data::Pdu`], [`data::Event`], [`headers::Header`]) with
//!   mathematical views (maps of decoded header text, byte sequences);
//! - a session engine ([`blocking_client::Client`]): routes parsed frames to
//!   an api-response queue, a command-reply queue and a bounded, oldest-evicting
//!   event sink, and serialises outbound commands.

pub mod blocking_client;
pub mod data;
pub mod decode;
pub mod encode;
pub mod headers;
pub mod laws;
pub mod sinks;
pub mod strutil;

pub use blocking_client::Client;
pub use blocking_client::ClientError;
pub use blocking_client::Connection;
pub use blocking_client::EVENT_QUEUE_SIZE;
pub use data::ByteStream;
pub use data::Event;
pub use data::FromPdu;
pub use data::FromPduError;
pub use data::ParseError;
pub use data::Pdu;
pub use data::PduParser;
pub use headers::Header;
