# rawheap

A flat binary layout for JSON-like documents that is read in place, without
decoding, together with a builder that writes it. The library is written in
Verus: the layout, the builder, the reader and the round trips through the
other formats are verified against their contracts. The calls into the
outside codec libraries stand behind small trusted wrappers whose contracts
say what those libraries' sources show.

## Layout

A heap is a byte buffer. Its first four bytes hold the little-endian `u32`
offset of the root value. Every value starts with a one-byte tag:

| tag    | value   | after the tag                                             |
|--------|---------|-----------------------------------------------------------|
| `0x01` | null    | nothing                                                   |
| `0x02` | false   | nothing                                                   |
| `0x03` | true    | nothing                                                   |
| `0x04` | integer | 8 bytes, little-endian two's complement                   |
| `0x05` | float   | 8 bytes, the little-endian bits of an `f64`               |
| `0x06` | string  | `u32` byte length, then UTF-8 bytes                       |
| `0x07` | array   | `u32` count, then one `u32` element offset per element    |
| `0x08` | map     | `u32` count, then (key offset, value offset) `u32` pairs  |

Map entries are sorted, stably, by the bytes of their key strings, so that a
lookup can stop at the first key that sorts after the one it looks for.

## Source

- `src/format.rs`: tags, little-endian encodings, lexicographic byte order.
- `src/builder.rs`: `HeapBuilder`, which appends values and sorts map entries.
- `src/reader.rs`: `RawHeap` and `HeapRef`, the zero-copy reader, and `visit`.
- `src/json.rs`: the JSON document model and `write_json_value`.
- `src/laws.rs`: what reading gives back of what was written.
- `src/history.rs`: any run of writes whose arrays and maps refer to earlier
  writes finishes into a heap that can be walked from any of them.
- `src/bulk.rs`, `src/codecs.rs`: work over many stored events, in this
  format and in the formats it is compared with.
- `src/formats.rs`: the calls into the outside codec libraries, behind
  trusted wrappers.
- `src/bson_depth.rs`, `src/ion_depth.rs`, `src/nesting.rs`: the framing of
  BSON documents and binary Ion, and how deeply input may nest before it is
  handed to decoders that recurse without a limit.
- `app/`: the programs that fill the SQLite database and time each format.
