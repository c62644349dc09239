//! A DNS message codec over a fixed 512-byte datagram buffer, and the
//! decision core of an iterative resolver.
//!
//! Every function is verified against a contract stated over the pure
//! models that accompany each type:
//!
//! - [`wire`] and [`name`] model big-endian integers, bounded writes, and
//!   domain names with their compression pointers;
//! - [`packets`], [`header`] and [`record`] hold the buffer, the message and
//!   its parts, each with its reader and its writer;
//! - [`resolver`] decides, reply by reply, what an iterative lookup asks
//!   next, and [`server`] builds the response to a request;
//! - [`round_trip`] and [`laws`] state and prove what holds of all of them.

pub mod error;
pub mod header;
pub mod laws;
pub mod name;
pub mod packets;
pub mod record;
pub mod resolver;
pub mod round_trip;
pub mod server;
pub mod wire;
