# vitoa

Decimal formatting of unsigned integers (`u8` to `u128`) into byte buffers,
with machine-checked contracts and proofs.

- `src/model.rs` — the mathematical model: powers of ten, digit counts, the
  decimal text of a number, reading digits back.
- `src/lib.rs` — `fmt` and the per-width formatters; every one is specified
  by `formats`: on success the buffer's first bytes hold exactly the decimal
  text, otherwise `BufferTooSmall` is returned and the buffer is untouched.
- `src/ifma.rs` — the eight- and sixteen-digit multiply-add kernels
  (`floor(2^52 / 10^k)` coefficients), run lane by lane.
- `src/kernels.rs` — the heterogeneous and homogeneous conversion shapes.
- `src/u128_div.rs` — division of a `u128` by `10^16` through a
  multiplicative inverse.
- `src/batch.rs`, `src/selector.rs` — batch conversion with an offset table,
  the joined form, and the choice of conversion shape.
- `src/scalar.rs`, `src/reference.rs` — portable writers and decoders used as
  references; `src/laws.rs` — properties that hold for every input.
- `src/error.rs`, `src/support.rs`, `src/digits.rs`, `src/sealed.rs` — the
  error type and its messages, appending to `String`/`Vec<u8>`, small digit
  writers, and the sealing trait.
- `app/` — the `f64` batch configuration and the error type with `Display`.
