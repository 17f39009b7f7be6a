use drizzle::blocks::{join_data, sort_blocks, BlockReq, BlockResp, PieceInFlight, BLOCK_SIZE};
use drizzle::chunk::Chunk;
use drizzle::torrent::{BackingStore, Piece, Torrent, VFile2FD, VFile2VOffset};
use std::path::PathBuf;

fn dr_paul() -> Torrent {
    let mut hashes = Vec::new();
    for i in 0..199usize {
        hashes.extend_from_slice(&[i as u8; 20]);
    }
    Torrent::new_dr_paul(hashes, vec![PathBuf::from("plswork")], PathBuf::from("/tmp"))
}

fn piece(piece_idx: u32, piece_len: u32) -> Piece {
    Piece { piece_idx, piece_len, piece_hash: [0; 20], backing_stores: vec![] }
}

fn triples(stores: &[BackingStore]) -> Vec<(i32, usize, usize)> {
    stores.iter().map(|s| (s.fd, s.offset, s.len)).collect()
}

#[test]
fn the_known_torrent() {
    let t = dr_paul();
    assert_eq!(
        t.info_hash,
        vec![
            0xea, 0xd1, 0x71, 0x54, 0x9d, 0x26, 0x12, 0x2f, 0xe2, 0x2a, 0x7e, 0xce, 0x4a, 0xb9,
            0xd8, 0x3a, 0x28, 0xe9, 0x67, 0x9f
        ]
    );
    assert_eq!(t.file_name, "It's happening");
    assert_eq!(t.vfile_length, 6490669);
    assert_eq!(t.piece_length, 32768);
    assert_eq!(t.downloaded_piece_set, vec![false; 199]);
    assert_eq!(t.rootdir, PathBuf::from("/tmp"));
    assert_eq!(t.n_files(), 1);
    assert_eq!(t.n_pieces(), 199);
    assert_eq!(t.nth_hash(7), &[7u8; 20]);
}

#[test]
fn the_number_of_pieces() {
    let mut t = dr_paul();
    t.piece_length = 10;
    t.vfile_length = 0;
    assert_eq!(t.n_pieces(), 0);
    assert_eq!(t.pieces(3).len(), 0);
    t.vfile_length = 10;
    assert_eq!(t.n_pieces(), 1);
    t.vfile_length = 11;
    assert_eq!(t.n_pieces(), 2);
    t.piece_length = 1;
    t.vfile_length = u64::MAX;
    assert_eq!(t.n_pieces() as u64, u64::MAX);
}

#[test]
fn the_pieces_cover_the_torrent() {
    let t = dr_paul();
    let pieces = t.pieces(5);
    assert_eq!(pieces.len(), 199);
    let mut at = 0;
    for (i, p) in pieces.iter().enumerate() {
        assert_eq!(p.piece_idx as usize, i);
        assert_eq!(p.piece_hash, [i as u8; 20]);
        assert_eq!(triples(&p.backing_stores), vec![(5, at, p.piece_len as usize)]);
        at += p.piece_len as usize;
    }
    assert_eq!(at, 6490669);
    assert_eq!(pieces[0].piece_len, 32768);
    assert_eq!(pieces[198].piece_len, 2605);
}

#[test]
fn files_in_the_virtual_file() {
    let ends = VFile2VOffset(vec![10, 25, 25, 40]);
    assert_eq!(ends.get_start_voffset_of_vfile(0), 0);
    assert_eq!(ends.get_start_voffset_of_vfile(3), 25);
    assert_eq!(ends.get_end_voffset_of_vfile(1), 25);
    assert_eq!(ends.find_vfile_by_voffset(0), 0);
    assert_eq!(ends.find_vfile_by_voffset(9), 0);
    assert_eq!(ends.find_vfile_by_voffset(10), 0);
    assert_eq!(ends.find_vfile_by_voffset(11), 1);
    let i = ends.find_vfile_by_voffset(25);
    assert!(i == 1 || i == 2);
    assert_eq!(ends.find_vfile_by_voffset(26), 3);
    assert_eq!(ends.find_vfile_by_voffset(41), 4);
}

#[test]
fn a_piece_is_spread_over_files() {
    let ends = VFile2VOffset(vec![10, 25, 25, 40]);
    let fds = VFile2FD(vec![(100, 0), (101, 0), (102, 0), (103, 0)]);
    assert_eq!(
        triples(&piece(0, 10).get_backingstores(10, &ends, &fds)),
        vec![(100, 0, 10)]
    );
    assert_eq!(
        triples(&piece(1, 10).get_backingstores(10, &ends, &fds)),
        vec![(100, 10, 0), (101, 0, 10)]
    );
    assert_eq!(
        triples(&piece(2, 10).get_backingstores(10, &ends, &fds)),
        vec![(101, 10, 5), (102, 0, 0), (103, 0, 5)]
    );
    assert_eq!(
        triples(&piece(3, 10).get_backingstores(10, &ends, &fds)),
        vec![(103, 5, 10)]
    );
    assert_eq!(
        triples(&piece(0, 40).get_backingstores(40, &ends, &fds)),
        vec![(100, 0, 10), (101, 0, 15), (102, 0, 0), (103, 0, 15)]
    );
    assert_eq!(
        triples(&piece(0, 0).get_backingstores(40, &ends, &fds)),
        vec![(100, 0, 0)]
    );
}

#[test]
fn each_byte_belongs_to_its_file() {
    let ends = vec![3usize, 3, 10, 12];
    let fds = VFile2FD(vec![(50, 0), (51, 0), (52, 0), (53, 0)]);
    let stores = piece(1, 8).get_backingstores(4, &VFile2VOffset(ends.clone()), &fds);
    let mut places = Vec::new();
    for s in &stores {
        for k in 0..s.len {
            places.push((s.fd, s.offset + k));
        }
    }
    assert_eq!(places.len(), 8);
    for (k, place) in places.iter().enumerate() {
        let at = 4 + k;
        let file = ends.iter().position(|&e| at < e).unwrap();
        let start = if file == 0 { 0 } else { ends[file - 1] };
        assert_eq!(*place, (50 + file as i32, at - start));
    }
}

#[test]
fn the_number_of_blocks() {
    assert_eq!(piece(0, 0).n_blocks(), 0);
    assert_eq!(piece(0, 1).n_blocks(), 1);
    assert_eq!(piece(0, BLOCK_SIZE).n_blocks(), 1);
    assert_eq!(piece(0, BLOCK_SIZE + 1).n_blocks(), 2);
    assert_eq!(piece(0, u32::MAX).n_blocks(), 0x40000);
}

#[test]
fn the_blocks_cover_the_piece() {
    let flight = PieceInFlight::new(piece(4, 2 * BLOCK_SIZE + 100));
    assert_eq!(flight.piece.piece_idx, 4);
    assert!(flight.ready_blks.is_empty());
    assert_eq!(
        flight.unasked_blks,
        vec![
            BlockReq { begin: 0, length: BLOCK_SIZE },
            BlockReq { begin: BLOCK_SIZE, length: BLOCK_SIZE },
            BlockReq { begin: 2 * BLOCK_SIZE, length: 100 },
        ]
    );
    for (i, block) in flight.unasked_blks.iter().enumerate() {
        assert_eq!(block.block_idx() as usize, i);
    }
    assert!(PieceInFlight::new(piece(4, 0)).unasked_blks.is_empty());
}

#[test]
fn blocks_are_asked_for_and_received() {
    let mut flight = PieceInFlight::new(piece(4, 3 * BLOCK_SIZE));
    flight.unasked_to_asked(0);
    let left: Vec<u32> = flight.unasked_blks.iter().map(|b| b.block_idx()).collect();
    assert_eq!(left, vec![2, 1]);
    flight.unasked_to_asked(1);
    let left: Vec<u32> = flight.unasked_blks.iter().map(|b| b.block_idx()).collect();
    assert_eq!(left, vec![2]);

    for begin in [BLOCK_SIZE, 0] {
        assert!(!flight.is_completely_downloaded());
        flight.pending_to_received(BlockResp { begin, data: vec![1] });
    }
    assert!(!flight.is_completely_downloaded());
    flight.pending_to_received(BlockResp { begin: 2 * BLOCK_SIZE + 5, data: vec![1] });
    assert!(flight.is_completely_downloaded());
    assert_eq!(flight.ready_blks[2].block_idx(), 2);
    assert_eq!(flight.unasked_blks.len(), 1);
}

#[test]
fn blocks_are_put_in_order() {
    let mut blocks = vec![
        BlockResp { begin: 5, data: vec![2] },
        BlockResp { begin: 0, data: vec![9, 9] },
        BlockResp { begin: 5, data: vec![1, 7] },
        BlockResp { begin: 5, data: vec![1] },
        BlockResp { begin: 0, data: vec![9, 9] },
    ];
    let mut again = vec![
        BlockResp { begin: 5, data: vec![2] },
        BlockResp { begin: 0, data: vec![9, 9] },
        BlockResp { begin: 5, data: vec![1, 7] },
        BlockResp { begin: 5, data: vec![1] },
        BlockResp { begin: 0, data: vec![9, 9] },
    ];
    sort_blocks(&mut blocks);
    again.sort();
    assert_eq!(blocks, again);
    assert_eq!(join_data(&blocks), vec![9, 9, 9, 9, 1, 1, 7, 2]);
    let mut none: Vec<BlockResp> = vec![];
    sort_blocks(&mut none);
    assert!(none.is_empty());
}

#[test]
fn hashes_are_those_of_sha1() {
    let mut flight = PieceInFlight::new(piece(0, 3));
    assert_eq!(
        flight.computed_hash(),
        [
            0xda, 0x39, 0xa3, 0xee, 0x5e, 0x6b, 0x4b, 0x0d, 0x32, 0x55, 0xbf, 0xef, 0x95, 0x60,
            0x18, 0x90, 0xaf, 0xd8, 0x07, 0x09
        ]
    );
    flight.pending_to_received(BlockResp { begin: 0, data: b"a".to_vec() });
    flight.pending_to_received(BlockResp { begin: 1, data: b"bc".to_vec() });
    assert_eq!(
        flight.computed_hash(),
        [
            0xa9, 0x99, 0x3e, 0x36, 0x47, 0x06, 0x81, 0x6a, 0xba, 0x3e, 0x25, 0x71, 0x78, 0x50,
            0xc2, 0x6c, 0x9c, 0xd0, 0xd8, 0x9d
        ]
    );
}

fn block(begin: u32, data: &[u8]) -> BlockResp {
    BlockResp { begin, data: data.to_vec() }
}

fn store(fd: i32, offset: usize, len: usize) -> BackingStore {
    BackingStore { fd, offset, len }
}

fn writes(chunks: &[Chunk]) -> Vec<(i32, usize, Vec<u8>)> {
    chunks
        .iter()
        .map(|c| {
            (
                c.bs.fd,
                c.bs.offset + c.bs_start,
                c.blk.data[c.blk_start..c.blk_start + c.len].to_vec(),
            )
        })
        .collect()
}

#[test]
fn blocks_are_matched_with_stores() {
    let blocks = vec![block(0, b"abcd"), block(4, b"ef"), block(6, b"ghi")];
    let stores = vec![store(1, 100, 3), store(2, 0, 4), store(3, 50, 2)];
    assert!(Chunk::fits(&blocks, &stores));
    assert_eq!(
        writes(&Chunk::combine_shit(&blocks, &stores)),
        vec![
            (1, 100, b"abc".to_vec()),
            (2, 0, b"d".to_vec()),
            (2, 1, b"ef".to_vec()),
            (2, 3, b"g".to_vec()),
            (3, 50, b"hi".to_vec()),
        ]
    );
}

#[test]
fn blocks_as_long_as_stores() {
    let blocks = vec![block(0, b"ab"), block(2, b"c")];
    let stores = vec![store(1, 7, 2), store(2, 8, 1)];
    assert_eq!(
        writes(&Chunk::combine_shit(&blocks, &stores)),
        vec![(1, 7, b"ab".to_vec()), (2, 8, b"c".to_vec())]
    );
}

#[test]
fn empty_stores_get_nothing() {
    let blocks = vec![block(0, b"ab")];
    let stores = vec![store(1, 10, 0), store(2, 0, 2)];
    assert_eq!(
        writes(&Chunk::combine_shit(&blocks, &stores)),
        vec![(1, 10, b"".to_vec()), (2, 0, b"ab".to_vec())]
    );
    let stores = vec![store(2, 0, 2), store(3, 0, 0)];
    assert!(Chunk::fits(&blocks, &stores));
    assert_eq!(
        writes(&Chunk::combine_shit(&blocks, &stores)),
        vec![(2, 0, b"ab".to_vec())]
    );
}

#[test]
fn what_does_not_fit_is_seen() {
    let blocks = vec![block(0, b"ab")];
    assert!(!Chunk::fits(&blocks, &[]));
    assert!(!Chunk::fits(&[], &[store(1, 0, 0)]));
    assert!(!Chunk::fits(&blocks, &[store(1, 0, 3)]));
    assert!(!Chunk::fits(&blocks, &[store(1, 0, usize::MAX), store(1, 0, 3)]));
}

#[test]
fn a_piece_lands_in_its_files() {
    let ends = VFile2VOffset(vec![5, 9, 20]);
    let fds = VFile2FD(vec![(0, 0), (1, 0), (2, 0)]);
    let data: Vec<u8> = (0..8).collect();
    let stores = piece(1, 8).get_backingstores(4, &ends, &fds);
    let blocks = vec![block(0, &data[..3]), block(3, &data[3..])];
    let mut files = vec![vec![255u8; 5], vec![255; 4], vec![255; 11]];
    for (fd, offset, bytes) in writes(&Chunk::combine_shit(&blocks, &stores)) {
        for (k, byte) in bytes.iter().enumerate() {
            files[fd as usize][offset + k] = *byte;
        }
    }
    assert_eq!(files[0], vec![255, 255, 255, 255, 0]);
    assert_eq!(files[1], vec![1, 2, 3, 4]);
    assert_eq!(files[2][..4], [5, 6, 7, 255]);
}
