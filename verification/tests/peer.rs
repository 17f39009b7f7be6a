use drizzle::blocks::{BlockReq, BlockResp, PieceInFlight, BLOCK_SIZE};
use drizzle::btmsg::BtMsg;
use drizzle::peer::{
    announces_one_order, event_of, lets_us_begin, next_requestable_block, HashMismatch, PMEvent, PeerState,
    MAX_BLOCKS_IN_FLIGHT,
};
use drizzle::torrent::Piece;
use std::collections::VecDeque;

fn hash_of(blocks: &[&[u8]]) -> [u8; 20] {
    let mut flight = PieceInFlight::new(piece(0, 0, [0; 20]));
    for data in blocks {
        flight.pending_to_received(BlockResp { begin: 0, data: data.to_vec() });
    }
    flight.computed_hash()
}

fn piece(piece_idx: u32, piece_len: u32, piece_hash: [u8; 20]) -> Piece {
    Piece { piece_idx, piece_len, piece_hash, backing_stores: vec![] }
}

fn request(piece_idx: u32, begin: u32, length: u32) -> BtMsg {
    BtMsg::BlockRequest { piece_idx, begin, length }
}

fn response(piece_idx: u32, begin: u32, data: &[u8]) -> BtMsg {
    BtMsg::BlockResponse { piece_idx, begin, data: data.to_vec() }
}

#[test]
fn the_next_block_is_the_last_of_the_first_open_piece() {
    let mut queue = VecDeque::new();
    queue.push_back(piece(9, 10, [0; 20]));
    let mut flights = vec![
        PieceInFlight::new(piece(1, 0, [0; 20])),
        PieceInFlight::new(piece(2, BLOCK_SIZE + 5, [0; 20])),
        PieceInFlight::new(piece(3, 7, [0; 20])),
    ];
    assert_eq!(next_requestable_block(&mut queue, &mut flights), Some((2, BLOCK_SIZE, 5)));
    assert_eq!(flights[1].unasked_blks, vec![BlockReq { begin: 0, length: BLOCK_SIZE }]);
    assert_eq!(next_requestable_block(&mut queue, &mut flights), Some((2, 0, BLOCK_SIZE)));
    assert_eq!(next_requestable_block(&mut queue, &mut flights), Some((3, 0, 7)));
    assert_eq!(queue.len(), 1);
    assert_eq!(next_requestable_block(&mut queue, &mut flights), Some((9, 0, 10)));
    assert_eq!(queue.len(), 0);
    assert_eq!(flights.len(), 4);
    assert_eq!(next_requestable_block(&mut queue, &mut flights), None);
    assert_eq!(flights.len(), 4);
}

#[test]
fn a_piece_from_the_queue_is_begun_with_its_first_block() {
    let mut queue = VecDeque::new();
    queue.push_back(piece(5, 2 * BLOCK_SIZE + 1, [0; 20]));
    let mut flights = vec![];
    assert_eq!(next_requestable_block(&mut queue, &mut flights), Some((5, 0, BLOCK_SIZE)));
    assert_eq!(flights.len(), 1);
    assert_eq!(flights[0].piece.piece_idx, 5);
    assert_eq!(
        flights[0].unasked_blks,
        vec![
            BlockReq { begin: BLOCK_SIZE, length: BLOCK_SIZE },
            BlockReq { begin: 2 * BLOCK_SIZE, length: 1 },
        ]
    );
}

#[test]
fn a_peer_is_told_first_that_we_want_to_be_served() {
    let (peer, greeting) = PeerState::introduce();
    assert_eq!(greeting, BtMsg::Interested);
    assert_eq!(peer.blocks_in_flight, 0);
    assert!(peer.am_choked && !peer.am_interested);
}

#[test]
fn from_the_first_request_to_the_last_piece() {
    let data = vec![3u8; BLOCK_SIZE as usize];
    let hash = hash_of(&[&data, &data, &data, &data, &data[..9]]);
    let len = 4 * BLOCK_SIZE + 9;
    let mut peer = PeerState::new();
    let mut ordered = 0;
    let mut sent: Vec<(u32, u32)> = Vec::new();
    let mut answered = 0;
    let mut finished: Vec<u32> = Vec::new();
    while finished.len() < 7 {
        if ordered < 7 {
            for msg in peer.download_piece(piece(ordered, len, hash)) {
                if let BtMsg::BlockRequest { piece_idx, begin, .. } = msg {
                    sent.push((piece_idx, begin));
                }
            }
            ordered += 1;
        }
        let (piece_idx, begin) = sent[answered];
        answered += 1;
        let left = (len - begin).min(BLOCK_SIZE) as usize;
        let msg = response(piece_idx, begin, &data[..left]);
        assert!(peer.accepts(&msg));
        let reaction = peer.receive(msg).ok().unwrap();
        if let Some(BtMsg::BlockRequest { piece_idx, begin, length }) = reaction.request {
            assert!(piece_idx < ordered);
            assert_eq!(begin % BLOCK_SIZE, 0);
            assert_eq!(length, (len - begin).min(BLOCK_SIZE));
            assert!(!sent.contains(&(piece_idx, begin)));
            sent.push((piece_idx, begin));
        }
        if let Some(done) = reaction.finished {
            assert!(!finished.contains(&done.piece.piece_idx));
            finished.push(done.piece.piece_idx);
        }
        let on_their_way = sent.len() - answered;
        assert_eq!(peer.blocks_in_flight as usize, on_their_way);
        assert!(on_their_way <= MAX_BLOCKS_IN_FLIGHT as usize);
        if on_their_way < MAX_BLOCKS_IN_FLIGHT as usize {
            assert_eq!(sent.len(), 5 * ordered as usize);
        }
    }
    assert_eq!(sent.len(), 35);
    assert_eq!(answered, 35);
}

#[test]
fn a_fresh_peer() {
    let peer = PeerState::new();
    assert_eq!(peer.blocks_in_flight, 0);
    assert!(peer.am_choked && peer.peer_is_choked);
    assert!(!peer.am_interested && !peer.peer_is_interested);
    assert!(peer.piece_download_queue.is_empty() && peer.dl_pieces_in_flight.is_empty());
}

#[test]
fn pieces_are_asked_for_while_there_is_room() {
    let mut peer = PeerState::new();
    assert_eq!(
        peer.download_piece(piece(0, 2 * BLOCK_SIZE, [0; 20])),
        vec![request(0, 0, BLOCK_SIZE), request(0, BLOCK_SIZE, BLOCK_SIZE)]
    );
    assert_eq!(peer.blocks_in_flight, 2);
    let requests = peer.download_piece(piece(1, 9 * BLOCK_SIZE + 3, [0; 20]));
    assert_eq!(requests.len(), 8);
    assert_eq!(requests[7], request(1, 7 * BLOCK_SIZE, BLOCK_SIZE));
    assert_eq!(peer.blocks_in_flight, MAX_BLOCKS_IN_FLIGHT);
    assert_eq!(
        peer.dl_pieces_in_flight[1].unasked_blks,
        vec![
            BlockReq { begin: 8 * BLOCK_SIZE, length: BLOCK_SIZE },
            BlockReq { begin: 9 * BLOCK_SIZE, length: 3 },
        ]
    );
    assert_eq!(peer.download_piece(piece(2, 5, [0; 20])), vec![]);
    assert_eq!(peer.piece_download_queue.len(), 1);
    assert_eq!(peer.blocks_in_flight, MAX_BLOCKS_IN_FLIGHT);
}

#[test]
fn a_piece_is_downloaded() {
    let mut peer = PeerState::new();
    let first = vec![1u8; BLOCK_SIZE as usize];
    let hash = hash_of(&[&first, b"xy"]);
    peer.download_piece(piece(3, BLOCK_SIZE + 2, hash));

    let msg = response(3, BLOCK_SIZE, b"xy");
    assert!(peer.accepts(&msg));
    let reaction = peer.receive(msg).ok().unwrap();
    assert!(reaction.finished.is_none());
    assert_eq!(reaction.request, None);
    assert_eq!(peer.blocks_in_flight, 1);

    let msg = response(3, 0, &first);
    assert!(peer.accepts(&msg));
    let reaction = peer.receive(msg).ok().unwrap();
    let done = reaction.finished.unwrap();
    assert_eq!(done.piece.piece_idx, 3);
    assert_eq!(done.ready_blks.len(), 2);
    assert_eq!(done.ready_blks[0].begin, 0);
    assert_eq!(done.ready_blks[1].data, b"xy".to_vec());
    assert_eq!(peer.blocks_in_flight, 0);
    assert!(peer.dl_pieces_in_flight.is_empty());
}

#[test]
fn a_block_makes_room_for_the_next_request() {
    let mut peer = PeerState::new();
    let hash = hash_of(&[b"q"]);
    for i in 0..MAX_BLOCKS_IN_FLIGHT {
        peer.download_piece(piece(i, 1, hash));
    }
    peer.download_piece(piece(77, BLOCK_SIZE + 1, [0; 20]));
    assert_eq!(peer.piece_download_queue.len(), 1);

    let reaction = peer.receive(response(0, 0, b"q")).ok().unwrap();
    assert_eq!(reaction.finished.unwrap().piece.piece_idx, 0);
    assert_eq!(reaction.request, Some(request(77, 0, BLOCK_SIZE)));
    assert_eq!(peer.blocks_in_flight, MAX_BLOCKS_IN_FLIGHT);
    assert_eq!(peer.dl_pieces_in_flight[0].piece.piece_idx, MAX_BLOCKS_IN_FLIGHT - 1);

    let reaction = peer.receive(response(1, 0, b"q")).ok().unwrap();
    assert_eq!(reaction.request, Some(request(77, BLOCK_SIZE, 1)));
    let reaction = peer.receive(response(2, 0, b"q")).ok().unwrap();
    assert_eq!(reaction.request, None);
    assert_eq!(peer.blocks_in_flight, MAX_BLOCKS_IN_FLIGHT - 1);
}

#[test]
fn the_books_stay_in_order() {
    let mut peer = PeerState::new();
    let data = vec![5u8; BLOCK_SIZE as usize];
    let hash = hash_of(&[&data, &data, &data]);
    let mut wire: VecDeque<BtMsg> = VecDeque::new();
    for i in 0..6 {
        for msg in peer.download_piece(piece(i, 3 * BLOCK_SIZE, hash)) {
            wire.push_back(msg);
        }
    }
    let mut finished = 0;
    while let Some(msg) = wire.pop_front() {
        assert_eq!(peer.blocks_in_flight as usize, wire.len() + 1);
        assert!(peer.blocks_in_flight <= MAX_BLOCKS_IN_FLIGHT);
        if let BtMsg::BlockRequest { piece_idx, begin, length } = msg {
            assert_eq!(begin % BLOCK_SIZE, 0);
            assert!(begin + length <= 3 * BLOCK_SIZE);
            let answer = response(piece_idx, begin, &data);
            assert!(peer.accepts(&answer));
            let reaction = peer.receive(answer).ok().unwrap();
            if reaction.finished.is_some() {
                finished += 1;
            }
            if let Some(next) = reaction.request {
                wire.push_back(next);
            }
        } else {
            panic!("not a request");
        }
    }
    assert_eq!(finished, 6);
    assert_eq!(peer.blocks_in_flight, 0);
    assert!(peer.dl_pieces_in_flight.is_empty());
    assert!(peer.piece_download_queue.is_empty());
}

#[test]
fn a_wrong_piece_is_seen() {
    let mut peer = PeerState::new();
    peer.download_piece(piece(0, 1, hash_of(&[b"a"])));
    assert_eq!(peer.receive(response(0, 0, b"b")).err(), Some(HashMismatch));
    assert_eq!(peer.dl_pieces_in_flight.len(), 1);
}

#[test]
fn a_computed_hash_decides() {
    let mut peer = PeerState::new();
    peer.download_piece(piece(0, 1, [7; 20]));
    peer.download_piece(piece(1, 1, [8; 20]));
    assert_eq!(peer.check_piece(0, [9; 20]).err(), Some(HashMismatch));
    assert_eq!(peer.dl_pieces_in_flight.len(), 2);
    let reaction = peer.check_piece(0, [7; 20]).ok().unwrap();
    assert_eq!(reaction.finished.unwrap().piece.piece_idx, 0);
    assert_eq!(peer.dl_pieces_in_flight.len(), 1);
    assert_eq!(peer.dl_pieces_in_flight[0].piece.piece_idx, 1);
    assert_eq!(peer.blocks_in_flight, 1);
}

#[test]
fn other_messages_change_what_is_known() {
    let mut peer = PeerState::new();
    for msg in [
        BtMsg::Unchoke,
        BtMsg::Interested,
        BtMsg::KeepAlive,
        BtMsg::Bitfield { bitfield: vec![1] },
    ] {
        assert!(peer.accepts(&msg));
        let reaction = peer.receive(msg).ok().unwrap();
        assert!(reaction.finished.is_none() && reaction.request.is_none());
    }
    assert!(!peer.am_choked);
    assert!(peer.peer_is_interested);
    peer.receive(BtMsg::Uninterested).ok().unwrap();
    assert!(!peer.peer_is_interested);
}

#[test]
fn what_cannot_be_dealt_with_is_seen() {
    let mut peer = PeerState::new();
    assert!(!peer.accepts(&BtMsg::Choke));
    assert!(!peer.accepts(&BtMsg::HavePiece { idx: 0 }));
    assert!(!peer.accepts(&request(0, 0, 1)));
    assert!(!peer.accepts(&BtMsg::CancelBlockRequest { piece_idx: 0, begin: 0, length: 1 }));
    assert!(!peer.accepts(&response(0, 0, b"a")));
    peer.download_piece(piece(0, 5, [0; 20]));
    assert!(peer.accepts(&response(0, 0, b"a")));
    assert!(!peer.accepts(&response(1, 0, b"a")));
    peer.blocks_in_flight = 0;
    assert!(!peer.accepts(&response(0, 0, b"a")));
    peer.piece_download_queue.push_back(piece(2, 0, [0; 20]));
    assert!(!peer.accepts(&response(0, 0, b"a")));
    peer.dl_pieces_in_flight.push(PieceInFlight::new(piece(3, 1, [0; 20])));
    assert!(peer.accepts(&response(0, 0, b"a")));
}

#[test]
fn the_descriptor_says_what_happened() {
    assert_eq!(event_of(1, 4, 4, 5), Some(PMEvent::PeerSocketReady4Read));
    assert_eq!(event_of(1, 5, 4, 5), Some(PMEvent::TorrentMasterCmd));
    assert_eq!(event_of(1, 4, 4, 4), Some(PMEvent::PeerSocketReady4Read));
    assert_eq!(event_of(1, 6, 4, 5), None);
    assert_eq!(event_of(1, u64::MAX, 4, -1), Some(PMEvent::TorrentMasterCmd));
    assert_eq!(event_of(-1, 4, 4, 5), None);
}

#[test]
fn one_order_is_announced_at_a_time() {
    assert!(announces_one_order(8, 1));
    assert!(!announces_one_order(8, 2));
    assert!(!announces_one_order(-1, 1));
    assert!(!announces_one_order(4, 1));
}

#[test]
fn waiting_ends_when_the_peer_serves() {
    assert!(lets_us_begin(&BtMsg::Unchoke));
    assert!(!lets_us_begin(&BtMsg::Choke));
    assert!(!lets_us_begin(&BtMsg::KeepAlive));
}

#[test]
fn a_piece_is_put_together_in_whatever_order_it_comes() {
    let len = 2 * BLOCK_SIZE + 9;
    let data: Vec<u8> = (0..len).map(|i| (i % 251) as u8).collect();
    let hash = hash_of(&[&data]);
    let begins = [0, BLOCK_SIZE, 2 * BLOCK_SIZE];
    for order in [[0, 1, 2], [0, 2, 1], [1, 0, 2], [1, 2, 0], [2, 0, 1], [2, 1, 0]] {
        let mut peer = PeerState::new();
        peer.download_piece(piece(0, len, hash));
        let mut done = None;
        for i in order {
            let begin = begins[i] as usize;
            let end = data.len().min(begin + BLOCK_SIZE as usize);
            let msg = response(0, begins[i], &data[begin..end]);
            assert!(peer.accepts(&msg));
            done = peer.receive(msg).ok().unwrap().finished;
        }
        let together: Vec<u8> =
            done.unwrap().ready_blks.iter().flat_map(|b| b.data.clone()).collect();
        assert_eq!(together, data);
    }
}

#[test]
fn called_until_nothing_is_left() {
    let mut queue = VecDeque::new();
    queue.push_back(piece(7, 3 * BLOCK_SIZE + 2, [0; 20]));
    queue.push_back(piece(8, 1, [0; 20]));
    let mut flights = vec![
        PieceInFlight::new(piece(1, 2 * BLOCK_SIZE, [0; 20])),
        PieceInFlight::new(piece(2, 0, [0; 20])),
        PieceInFlight::new(piece(3, 4, [0; 20])),
    ];
    let mut requests = Vec::new();
    while let Some(request) = next_requestable_block(&mut queue, &mut flights) {
        requests.push(request);
    }
    assert_eq!(
        requests,
        vec![
            (1, BLOCK_SIZE, BLOCK_SIZE),
            (1, 0, BLOCK_SIZE),
            (3, 0, 4),
            (7, 0, BLOCK_SIZE),
            (7, 3 * BLOCK_SIZE, 2),
            (7, 2 * BLOCK_SIZE, BLOCK_SIZE),
            (7, BLOCK_SIZE, BLOCK_SIZE),
            (8, 0, 1),
        ]
    );
    assert!(queue.is_empty());
    assert!(flights.iter().all(|f| f.unasked_blks.is_empty()));
    assert_eq!(next_requestable_block(&mut queue, &mut flights), None);
}

#[test]
fn a_finished_piece_holds_what_came_for_it() {
    let mut peer = PeerState::new();
    assert_eq!(peer.download_piece(piece(0, 0, [0; 20])), vec![]);
    peer.download_piece(piece(4, BLOCK_SIZE + 1, hash_of(&[b"un", b"asked"])));
    let msg = response(4, 9, b"asked");
    assert!(peer.accepts(&msg));
    assert!(peer.receive(msg).ok().unwrap().finished.is_none());
    let msg = response(4, 2, b"un");
    assert!(peer.accepts(&msg));
    let done = peer.receive(msg).ok().unwrap().finished.unwrap();
    assert_eq!(done.piece.piece_idx, 4);
    assert_eq!(
        done.ready_blks,
        vec![
            BlockResp { begin: 2, data: b"un".to_vec() },
            BlockResp { begin: 9, data: b"asked".to_vec() },
        ]
    );
    assert!(!peer.accepts(&response(4, 2, b"un")));
}
