# fps_arena

The rules of a small networked arena, written and verified with Verus.

- `src/` is the library: bounded queues (`ring_buffer`, `packet`), the wire format
  (`little_endian`, `protocol`), players (`player`), the server (`server`), the client (`client`),
  painting (`screen`), the length of a tick (`pacing`), and what holds of all of them together
  (`laws`).
- `tests/` runs the library on concrete values.
- `app/` is the program around it: sockets, the window, the clock, and the arithmetic in single
  precision, which the library takes as functions from bit patterns to bit patterns.

A player's place, heading and speed are single precision numbers. The library carries them as
their bit patterns: it never computes with them, and compares them with zero only.
