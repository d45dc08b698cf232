# varint

Variable length integers in the LEB128 format of protocol buffers, verified with Verus.

A number is written in base 128, least significant digit first, one digit to a byte, and every
byte but the last has its top bit set. A `u64` takes from one to ten bytes.

- `src/model.rs`: what varints are: the encoding of a number, and the varint at the start of bytes.
- `src/laws.rs`: what holds of them as a whole: that decoding undoes encoding, that encodings are
  the shortest varints, and that none starts another.
- `src/encode.rs`, `src/decode.rs`: writing and reading.
- `src/words.rs`: joining the digits that lie in machine words.
- `src/buf.rs`: the buffers, and what is taken for granted of those of the `bytes` crate.
- `src/error.rs`: the error of decoding.
- `app/`: the same functions for every buffer that implements the traits of the `bytes` crate.
