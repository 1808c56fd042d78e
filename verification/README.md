# stembed

A stenography engine for small devices, with its behaviour stated in contracts and proved
with Verus.

## Layout

- `src/` — the verified library
  - `stroke`, `text` — strokes of the English layout and their human readable form
  - `buffer` — fixed-capacity history buffer
  - `formatter` — formatting commands (capitalization, attachment) applied to written text
  - `matcher` — resolving strokes into outlines found in a dictionary, with undo
  - `dict` — the binary dictionary format and the radix tree reader
  - `compile` — parsing Plover JSON dictionaries, building the radix tree, serializing it,
    reading every entry back, and statistics about the tree
  - `output` — output commands
  - `input` — keyboard states, grouping of key presses into strokes, repetition of held
    strokes, and the mapping from key positions to strokes
  - `cofit` — the packet protocol over fixed-size transports: headers, messages with
    acknowledgements, and streams with retransmission
  - `messaging` — messages of the test protocol (flash ranges)
  - `flash` — splitting unaligned flash reads into aligned ones
- `tests/` — tests of the library
- `app/` — a program that compiles a JSON dictionary into `dict.bin` and prints statistics;
  the serde encoding of messages; the asynchronous side of the protocol

`postcard` is called from the library through two trusted wrappers (reading and writing
varints), `arrayvec`'s `ArrayString` holds the formatter's remembered suffix behind two
trusted wrappers; `serde` is used in `app/` only.

## What is proved

- A dictionary compiles when its JSON is valid, not empty, free of repeated outlines, its
  translations can be stored, and its radix tree fits the format; it fails on a format limit
  only when its radix tree does not fit. An outline may be the beginning of another.
- Every entry of a compiled dictionary reads back, and looking up any strokes finds the
  entry with the longest outline that begins them.
- Undoing a write removes what it added; messages, packet headers and stream frames read back
  what was written; an aligned flash read returns the requested range.
