# giflib

A GIF codec whose logic is written and proved in Verus.

- `src/` is the verified library: the screen and image descriptors, record
  types and extension blocks of the decoder and the encoder, the LZW
  compressor (hash table of strings, variable-width bit packing, sub-block
  framing) and decompressor, color maps and their union, graphics control
  blocks, and median-cut color quantization. A handle (`GifFileType`) reads
  from a byte source or writes to a byte sink held in memory; each function
  states in its contract what it reads, writes and returns.
- The decompressor is specified by a model over plain values
  (`decoder_lzw::dec_line`): the codes read from the bit stream, the strings
  they stand for in the code table, and the pixels left pending between
  lines; reading an image in lines gives the pixels of reading it at once
  (`lemma_dec_line_split`). The color quantizer is specified by the median
  cut it performs (`quantize::subdivide`): which box is split, along which
  primary, and where.
- `src/roundtrip.rs` states what the decoder reads back of what the encoder
  writes: 16-bit words, sub-block framing, comments, and screen and image
  descriptors with their color tables; `src/bitpack.rs` does the same for
  LZW codes of one width, packed into sub-blocks and read back in order.
- `tests/` exercises the library on concrete GIFs, including encoding and
  decoding whole images.
- `app/` is the C interface: opaque handles over files, file descriptors and
  callbacks, which move bytes between the outside world and the library.
