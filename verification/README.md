# flypro

A verified library for SP10/SP20 device programmers: strict parsers for their
release assets, the command protocol, and the sessions that prepare a target and
read, program, verify, erase or identify it. Contracts are stated over
mathematical views and proved with Verus.

## Layout

- `src/assets/` parses `.alg`, `.cfg`, `SP20.dev` and `PkgID20.ini` files.
- `src/protocol.rs` encodes command blocks and decodes responses.
- `src/parameters.rs` builds the 2048-byte device parameter image.
- `src/transport.rs` and `src/exchange.rs` model transfers: a transport has a
  history, and a session carries out a plan of steps.
- `src/session.rs`, `src/operations.rs` and `src/auto_identify.rs` are the
  sessions over a transport.
- `src/target.rs` and `src/commands.rs` go from what a user asks for to a target
  that is ready, and move its project.
- `src/usb.rs` and `src/usb_transport.rs` hold the decisions of the USB backend.
- `src/report.rs`, `src/arguments.rs`, `src/text.rs`, `src/bytes.rs`,
  `src/checksum.rs` and `src/codepage.rs` are what the others share.
- `app/` is the command line and the `nusb` backend. It reads release assets from
  a directory with `device/SP20.dev`, `package/PkgID20.ini`, `alg/` and `cfg/`.
- `tests/` runs the library on concrete values.

Properties that span several functions are the public proof functions whose names
begin with `law_`. CRC32 values come from `crc32fast`, whose result is stated in
full. GBK text and lossy UTF-8 come from `encoding_rs` and the standard library;
their results are named, not defined.
