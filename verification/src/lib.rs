//! A verified core for a small BitTorrent downloader: bencoded metainfo, the
//! peer wire protocol, the layout of a torrent on disk, and the bookkeeping of
//! the blocks that are on their way.

pub mod accounting;
pub mod asking;
pub mod bencode;
pub mod blocks;
pub mod btmsg;
pub mod bytes;
pub mod chunk;
pub mod course;
pub mod decimal;
pub mod grammar;
pub mod laws_bencode;
pub mod laws_disk;
pub mod laws_peer;
pub mod laws_wire;
pub mod outside;
pub mod peer;
pub mod render;
pub mod torrent;
