//! Bit-exact codec core for UAVCAN v0.
//!
//! - `bits`: the arithmetic model of little-endian bit streams.
//! - `buffer`: a fifteen-byte FIFO of bits, bytes in at the tail, bits out
//!   at the head.
//! - `primitive`: primitive fields and dynamic arrays that take their bits
//!   from a buffer and can resume at any bit, including the tail-array rule.
//! - `deserializer`: a decoder of a flattened structure fed a transfer in
//!   pieces; its state depends on the bytes received alone.
//! - `serializer`: the packing of a flattened structure into bytes, an
//!   encoder that fills a bounded buffer and resumes where it paused, and
//!   the law that decoding the bytes gives the structure back.
//! - `frame_id`: the 29-bit identifiers of the four transfer kinds.

pub mod bits;
pub mod buffer;
pub mod deserializer;
pub mod frame_id;
pub mod primitive;
pub mod serializer;
