# minecraft_protocol

Primitives of the Minecraft Java Edition network protocol — wire encodings of
the protocol's data types, packet framing, zlib compression and AES-128-CFB8
stream encryption — written in Verus, with contracts that state each
encoding exactly and proofs that decoding inverts encoding. Compression and
encryption go through flate2 and OpenSSL: their contracts say what a
successful call gives and, for zlib, exactly when it succeeds, in terms of
named results of those libraries.

## Layout

- `src/` — the verified library.
  - `ser.rs`: the byte `Cursor` values are read from, `SerializationError`,
    the `Serialize` / `Deserialize` / `RoundTrip` traits, strings (UTF-8 with
    a UTF-16 length bound), `Option`, prefixed arrays and `RawBytes`.
  - `num.rs`: big-endian fixed-width integers (up to 128 bits) and booleans.
  - `varint.rs`: `VarInt` / `VarLong`, including a byte-at-a-time decoder for
    streams.
  - `types.rs`: `Position`, `Angle`, `Identifier`, `BitSet`, `FixedBitSet`,
    `Nbt`, `FixedPoint5`, `TeleportFlags`.
  - `packet.rs`: `RawPacket` / `UncompressedPacket` framing, with and
    without compression.
  - `compression.rs`: zlib through flate2.
  - `encryption.rs`: AES-128-CFB8 through OpenSSL.
- `app/` — what the library leaves to ordinary Rust: reading and writing
  frames on `Read`/`Write` and Tokio streams, encrypting stream wrappers,
  error types with `Display`, floating-point helpers (angles, fixed point,
  `f32`/`f64` encodings, sound events) and UUID encoding.
- `tests/` — tests of the library.
