//! A verified core for the AMP (Asynchronous Messaging Protocol) transport.
//!
//! AMP is a symmetric request/response protocol over an ordered, reliable
//! byte stream. A frame is a box of key/value pairs, each behind a 16-bit
//! length, closed by an empty key. This library holds the parts of such a
//! transport that can be stated and proved:
//!
//! - `codecs`: the frame encoder and the resumable frame decoder, in the
//!   variants `V1` and `V2`;
//! - `frame`: boxes and their classification into requests and responses;
//! - `number`: decimal and hexadecimal text of integers, and its reading;
//! - `ser`, `de`, `types`: the value serializer and deserializer, scalar by
//!   scalar and scope by scope, and the records that every connection exchanges;
//! - `value`, `value_de`: structured values, written whole and read by type;
//! - `server`: the decisions of the read loop and the write loop, the reply
//!   map, reply tickets and the connection state;
//! - `buffer`, `text`: the few functions of the `bytes` crate and of `std` that
//!   the rest is built on, with the contracts that are taken on trust;
//! - `codec_laws`, `frame_laws`, `serde_laws`, `value_laws`, `server_laws`: what
//!   holds of these parts together.
//!
//! Streams, tasks and channels are not part of this library: a caller runs the
//! loops and asks the functions of `server` what to do next.

pub mod buffer;
pub mod codec_laws;
pub mod codecs;
pub mod de;
pub mod error;
pub mod frame;
pub mod frame_laws;
pub mod number;
pub mod ser;
pub mod serde_laws;
pub mod server;
pub mod server_laws;
pub mod text;
pub mod types;
pub mod value;
pub mod value_de;
pub mod value_laws;
