# rustytorrent

A BitTorrent client library whose logic is verified with Verus: the functions in `src/`
carry `requires`/`ensures` contracts that Verus proves. The calls into std, `bit-vec`,
`sha1` and `rand` go through small wrappers marked `#[verifier::external_body]`, whose
contracts are trusted and say, in their doc comments, what is assumed of the call.

## Layout

- `src/bencoding/`: the bencode format as a specification (`spec.rs`, `format.rs`), the
  parser and the encoder proved against it, and the dictionary/list values built from it.
- `src/common/`: metainfo and torrent descriptions read from bencoded dictionaries, SHA-1
  piece checks and info-hash text, and the bit vectors of held pieces.
- `src/message.rs`, `src/wire.rs`: the peer wire messages and their byte layouts.
- `src/io/read_buffer.rs`: the ring of received bytes the connections read from.
- `src/client/`: piece assignment and block bookkeeping (`piece_assigner.rs`,
  `block_cache.rs`, `block_manager.rs`), TCP and uTP connections, the peers of each
  torrent, the connection manager, and where pieces lie in a torrent's files
  (`disk_manager.rs`).
- `tests/`: tests run against the compiled library.
- `app/`: a command line front end that reads a torrent file and sets up its files on
  disk, doing the I/O around the library's plans.

Laws that span several functions (round trips of the encodings, what a buffer gives back
of what was written into it, how peers move between the waiting and the connected, where
reading finds a piece's bytes) are public proof functions named `lemma_*` beside the
functions they speak of.
