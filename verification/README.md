# steg

Least-significant-bit steganography for binary PPM images. Each character of a message is
hidden in the least significant bits of eight consecutive pixel bytes, most significant bit
first; decoding reads eight bytes per character until a NUL.

- `src/` is the verified library (Verus): bit operations, character and message encoding and
  decoding, the PPM file bytes, part names, message splitting, how work is shared between
  threads, and the reassembly of decoded parts.
- `app/` is the command-line program: argument handling, directory listing, reading and
  writing images (through the `libsteg` crate), and the worker threads.
- `tests/` runs the library on concrete values.
