# valence_protocol

Wire formats of the Minecraft protocol, verified with Verus.

- `var_int`, `var_long`: variable-length integers (seven bits per byte, least
  significant group first), their exact sizes, and the `Read` trait for
  fixed-width big-endian reads from byte slices.
- `primitive`: booleans and fixed-width integers.
- `other`: optional values, UUIDs and the placeholder NBT compound codec.
- `block_pos`: block positions and their packing into one 64-bit word.
- `nbt`: compounds (maps from string keys, kept in key order) and NBT errors.
- `decode`: splitting received bytes into packet frames, with optional zlib
  compression and AES-128/CFB-8 decryption.
- `leb`, `be`: the mathematics of the two integer encodings.

`app/` holds what stays outside the verified library: writing to a
`core::fmt::Write` sink, floating-point values, and serde for the
variable-length integers.
