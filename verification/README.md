# Lossless JPEG rotations and flips

Rotates and flips baseline JPEG images without decoding them: each of the
eight symmetries of the square is applied to the DCT coefficients directly,
MCU by MCU, using an index of where each MCU starts in the entropy-coded data.

| Operation | Result |
| ---: | --- |
| 0 | identity |
| 1 | 90 degrees clockwise |
| 2 | 180 degrees |
| 3 | 270 degrees clockwise |
| 4 | horizontal flip |
| 5 | vertical flip |
| 6 | transpose |
| 7 | transverse |

The library in `src/` is written in Verus; every function carries a
contract that Verus proves.

- `bits`: bit sequences, byte packing, `0xff` stuffing, and the bits a reader
  finds in entropy-coded data.
- `entropy`: canonical Huffman tables, the bit reader and its saved states,
  the bit writer.
- `block`: zig-zag order, magnitude categories, and the coding of one block.
- `parser`: the header segments, frame, scan and Huffman tables; block
  decoding.
- `scan`: the MCU grid, MCU decoding, and the MCU index.
- `transform`: the eight operations on MCU positions and on coefficient
  blocks.
- `writer`: the rewritten header segments and the re-encoded scan.
- `readback`: what the output reads back as: its header, parsed, is the
  input's rewritten for the operation, and its scan decodes into the
  transformed blocks.
- `lib.rs`: `transform` and `operation_filename`.

`app/` is the command line: `app <input.jpg> <operation> [output.jpg]`
reads the file, transforms it and writes the result, by default to
`augmented/<operation>.jpg` next to the input.
