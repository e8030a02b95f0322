# refix

The message layer of a FIX engine, verified with Verus.

- `src/framing.rs` delimits one checksum-verified frame from the start of a
  byte buffer; `spec_scan` states what every scan returns.
- `src/framing_laws.rs` proves what holds across scans: a garble always
  skips at least one byte and never past the buffer, a frame rescans as
  itself, every strict prefix of a frame is incomplete, more bytes never
  change a decision, and a stream delivered in any chunks yields the same
  frames as the stream delivered whole.
- `src/tokenizer.rs` splits one frame into fields, honouring length-prefixed
  data fields, and proves that the index tiles the frame.
- `src/message.rs` reads field values from a tokenised message.
- `src/stream.rs` buffers fed bytes and hands back messages and garbles.
- `src/quickfix.rs` reads a QuickFIX XML dictionary into the model of
  `src/dictionary.rs`; `spec_parse` states the result over the text.
- `src/codegen.rs` generates typed message wrappers from a dictionary;
  `module_text` states the generated source.
- `src/scanner.rs` frames as `framing` does and also decodes each frame's
  session header.
- `src/buffers.rs` and `src/text.rs` hold the few trusted declarations of
  the `bytes` crate and of `std` that the library relies on.

`app/` holds the code generator's command line and the Python bindings.
