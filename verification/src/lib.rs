//! Variable length integers in the LEB128 format of protocol buffers.
//!
//! [`model`] says what varints are, and [`laws`] what holds of them as a whole. [`encode`] writes
//! them, [`decode`] reads them, with the help of [`words`] where many bytes lie next to each other.
//! [`buf`] has the buffers that they are written to and read from.

pub mod buf;
pub mod decode;
pub mod encode;
pub mod error;
pub mod laws;
pub mod model;
pub mod words;

pub use buf::{Buf, BufMut};
pub use decode::{decode_varint, decode_varint_8_or_less, decode_varint_slice, decode_varint_slow};
pub use encode::{encode_varint, encoded_len_varint};
pub use error::DecodeError;
pub use words::{
    decode_varint_10, decode_varint_2, decode_varint_3, decode_varint_4, decode_varint_5,
    decode_varint_6, decode_varint_7, decode_varint_8, decode_varint_9,
};
