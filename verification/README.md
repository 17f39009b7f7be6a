# drizzle

The core of a small BitTorrent downloader, in Rust, verified with Verus.

- `src/bencode.rs`, with `grammar.rs`, `decimal.rs`, `bytes.rs` and `render.rs`:
  bencoded values, how they are read, written and shown.
- `src/btmsg.rs`: the handshake and the messages of the peer wire protocol.
- `src/torrent.rs`: a torrent, its pieces, and the files they are spread over.
- `src/blocks.rs` and `src/chunk.rs`: the blocks of a piece, and how they are
  written to the files.
- `src/peer.rs`: what is asked of a peer and what its messages change;
  `src/accounting.rs`: what stays true of it from one step to the next;
  `src/asking.rs`: what comes of looking for the next block again and again;
  `src/course.rs`: what is true of all that was ever sent and received.
- `src/outside.rs`: what is believed of functions that are not proved here.
- `app/`: the program around it. It expects `assets/handshake-template`, a whole
  handshake of 68 bytes, and `assets/dr-ron-paul-pieces`, the hashes of the
  pieces, in the directory it is started in.
