# moq

Announcement messages of a media-over-QUIC session and the bookkeeping that a
session does around them, written in Verus with contracts that are proved.

* `src/coding.rs` — the wire coding: bytes, variable-length integers (two tag
  bits give the width), and length-prefixed UTF-8 strings; encoders, decoders,
  and proofs that decoding an encoding gives the value back, that every
  truncated encoding decodes as too short, and that the narrowest encoding is
  the only one of its length.
* `src/announce.rs` — `Announce`, `AnnounceStatus` and `AnnounceRequest`, their
  encoders and decoders, and the same three laws for them.
* `src/buffer.rs` — the `bytes::BytesMut` operations that the coding uses.
* `src/names.rs` — a lookup keyed by name. It keeps its entries in a `Vec`
  with no name twice rather than in a `HashMap<String, _>`: vstd specifies
  `HashMap` only for key types that obey its key model, which it provides for
  integers and `bool` but not for `String`, so the map laws could not be
  proved over a `String`-keyed `HashMap`.
* `src/tracks.rs` — the published and requested tracks of a broadcast.
* `src/session.rs` — announced broadcasts, subscription ids (which count up
  from 0), what to finish or abort when work ends, and frame sizes.
* `src/messaging.rs` — the numbering of published lines and the printing of
  received groups.
* `app/` — command-line options and the asynchronous loops that feed streams
  and the terminal into the library.
