# rubbl

Core logic of the Rubbl astronomy data-format libraries, written in Verus and
proved against its contracts.

- `src/` is the verified library:
  - `fits`: FITS header records (fixed-format integers and strings), the
    streaming block decoder, and the header-structure parser that says which
    block it needs next.
  - `miriad`: MIRIAD data-set headers, item storage, typed value encoding,
    flag masks, and the UV visibility-stream decoder and encoder.
  - `vk_miriad`, `visdata`, `casatables`, `notify`, `num`, `cli`, `io`:
    smaller vocabulary types and helpers.
  - `bytes`, `text`: big-endian integers and UTF-8 text. They hold the
    trusted wrappers around `byteorder` and `std`'s UTF-8 decoding; `visdata`
    declares `anyhow::Error` so that the visibility-stream trait can name it.
- `app/` is plain Rust around the library: file and directory I/O, the
  command-line dispatcher, terminal notifications, and floating-point values.
- `tests/` runs the library on concrete inputs.
