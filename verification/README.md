# darwinn

A verified, transport-agnostic driver for the Google Edge TPU (DarwiNN)
attached over USB: DFU firmware download, CSR access, DarwiNN executable
parsing and inference. The Edge TPU is the coprocessor fitted to the Coral Dev
Board Micro.

The USB host controller is the caller's, behind the `Transport` trait; so is
the Apex firmware blob, which is handed to `Dfu::download`.

## Layout

| | |
|---|---|
| `src/transport.rs` | the `Transport` trait and the history its contracts speak of |
| `src/dfu.rs` | firmware download: blocks, full read-back, detach |
| `src/csr.rs` | register map and bit fields |
| `src/driver.rs` | register access: single transfers, read-modify-write, bounded polls |
| `src/bringup.rs` | bring-up and run control, as scripts of register operations |
| `src/stream.rs` | bulk streams: header, chunking, reassembly, completion events |
| `src/fb.rs` | FlatBuffers and FlexBuffers reader |
| `src/executable.rs` | packages, executables, DMA hints |
| `src/layer.rs`, `src/relayout.rs` | layer geometry, sign-bit fixup, relayout of tiled output |
| `src/invoke.rs` | one inference |
| `src/error.rs`, `src/bytes.rs` | errors and their messages, little-endian integers |
| `app/` | bring-up with a delay provider, standard error traits, floats |

## What is proved

Every function states, for every answer the device can give, which transfers it
makes, in which order and with which payload and timeout, and what it returns.
The public proof functions named `law_...` state what follows across calls:
among others, that bring-up ends within a fixed number of transfers plus its
bounded polls, that a device with the wrong chip ID is read once and left alone,
that the blocks of a successful download are the image and that the device is
detached only once the image read back is the one that was sent, that the pieces
of a stream are the stream, that the sign-bit fixup undoes itself, that a
relayout that succeeds has filled the tensor, every execution of it, and that it
touches nothing behind it.

The readers return a result for every buffer, however malformed.

## Bounded waits

Every register poll is bounded by `Timeouts::poll_attempts` and fails with
`Error::PollTimeout` naming the register that stalled; every transfer carries an
explicit microsecond timeout; the bulk reassembly loop rejects a zero-length
read rather than spinning. No loop in this crate is bounded by anything other
than a constant, that poll limit or the length of a caller-provided buffer:
counts and dimensions stored in a model are held against the model's length, and
executions of a layer against the buffers of a relayout.

## What is trusted

That a `Transport` does what its methods are asked and records it; nothing is
assumed of the device's answers. The text that a transport error's own `Debug`
makes is taken as it comes.
