# arkana

Password-based encryption with human-readable and printable containers. This crate holds the
verified core of the QR container format and of the surrounding tools.

- `src/envelope/qr/fragment.rs`: framing of fragments, splitting a binary envelope into
  fragments and reassembling them in any order, with the laws that tie both together.
- `src/envelope/qr/{checksum,image,tar}.rs`: SHA-256 and hexadecimal, QR symbols, TAR archives.
- `src/envelope/qr.rs`: the container as a TAR archive of PNG images, written and read.
- `src/devtools/`: archive edits, grid layouts and QR rendering used to build test fixtures.
- `src/password.rs`: how typed keys edit a password and what the prompt shows.
- `src/paths.rs`: resolving command-line paths.
- `app/`: the command-line front end for the fixture tasks and the terminal and file I/O.

Verify with Verus; `tests/` exercises the library with the real outside crates.
