use drizzle::btmsg::{
    recv_and_check_handshake, send_handshake, BtMsg, BtMsgKind, BtPeerMsgDecodeError,
    HandshakeError, StreamError, HANDSHAKE_LEN,
};

fn sent(msg: &BtMsg) -> Vec<u8> {
    let mut out = Vec::new();
    msg.serialize(&mut out);
    out
}

#[test]
fn test_decode() {
    let msg: &[u8] = &[0, 0, 0, 0];
    let (res, used) = BtMsg::deserialize(msg).unwrap();
    assert_eq!(res, BtMsg::KeepAlive);
    assert_eq!(used, msg.len());
    assert_eq!(msg, sent(&res).as_slice());

    let msg: &[u8] = &[0, 0, 0, 1, 0];
    let (res, used) = BtMsg::deserialize(msg).unwrap();
    assert_eq!(res, BtMsg::Choke);
    assert_eq!(used, msg.len());
    assert_eq!(msg, sent(&res).as_slice());

    let msg: &[u8] = &[0, 0, 0, 1, 1];
    let (res, used) = BtMsg::deserialize(msg).unwrap();
    assert_eq!(res, BtMsg::Unchoke);
    assert_eq!(used, msg.len());
    assert_eq!(msg, sent(&res).as_slice());

    let msg: &[u8] = &[0, 0, 0, 5, 4, 0, 0, 0, 42];
    let (res, used) = BtMsg::deserialize(msg).unwrap();
    assert_eq!(res, BtMsg::HavePiece { idx: 42 });
    assert_eq!(used, msg.len());
    assert_eq!(msg, sent(&res).as_slice());

    let msg: &[u8] = &[0, 0, 0, 11, 5, 0xFF, 0xFF, 0xFF, 0, 0, 0, 0xFF, 0xFF, 0xFF, 0];
    let (res, used) = BtMsg::deserialize(msg).unwrap();
    assert_eq!(
        res,
        BtMsg::Bitfield { bitfield: vec![0xFFu8, 0xFF, 0xFF, 0, 0, 0, 0xFF, 0xFF, 0xFF, 0] }
    );
    assert_eq!(used, msg.len());
    assert_eq!(msg, sent(&res).as_slice());

    let msg: &[u8] = &[
        0, 0, 0, 11, 5, 0xFF, 0xFF, 0xFF, 0xFF, 0xFF, 0xFF, 0xFF, 0xFF, 0xFF, 0xFF,
    ];
    let (res, used) = BtMsg::deserialize(msg).unwrap();
    assert_eq!(res, BtMsg::Bitfield { bitfield: vec![0xFFu8; 10] });
    assert_eq!(used, msg.len());
    assert_eq!(msg, sent(&res).as_slice());

    let msg: &[u8] = &[0, 0, 0, 1, 0xFF];
    let res = BtMsg::deserialize(msg).unwrap_err();
    assert!(matches!(res, BtPeerMsgDecodeError::MalformedMsg_BadMsgID));

    let msg: &[u8] = &[0, 0, 0, 11, 5, 0xFF, 0xFF, 0xFF];
    let res = BtMsg::deserialize(msg).unwrap_err();
    assert!(matches!(res, BtPeerMsgDecodeError::IOError(_)));
}

fn one_of_each() -> Vec<(BtMsg, Vec<u8>)> {
    vec![
        (BtMsg::KeepAlive, vec![0, 0, 0, 0]),
        (BtMsg::Choke, vec![0, 0, 0, 1, 0]),
        (BtMsg::Unchoke, vec![0, 0, 0, 1, 1]),
        (BtMsg::Interested, vec![0, 0, 0, 1, 2]),
        (BtMsg::Uninterested, vec![0, 0, 0, 1, 3]),
        (BtMsg::HavePiece { idx: 0x01020304 }, vec![0, 0, 0, 5, 4, 1, 2, 3, 4]),
        (BtMsg::Bitfield { bitfield: vec![0x80, 0x01] }, vec![0, 0, 0, 3, 5, 0x80, 0x01]),
        (BtMsg::Bitfield { bitfield: vec![] }, vec![0, 0, 0, 1, 5]),
        (
            BtMsg::BlockRequest { piece_idx: 1, begin: 0x4000, length: 0x4000 },
            vec![0, 0, 0, 13, 6, 0, 0, 0, 1, 0, 0, 0x40, 0, 0, 0, 0x40, 0],
        ),
        (
            BtMsg::BlockResponse { piece_idx: 0xFFFFFFFF, begin: 2, data: vec![7, 8, 9] },
            vec![0, 0, 0, 12, 7, 255, 255, 255, 255, 0, 0, 0, 2, 7, 8, 9],
        ),
        (
            BtMsg::CancelBlockRequest { piece_idx: 3, begin: 4, length: 5 },
            vec![0, 0, 0, 13, 8, 0, 0, 0, 3, 0, 0, 0, 4, 0, 0, 0, 5],
        ),
    ]
}

#[test]
fn each_message_is_written_and_read_back() {
    for (msg, wire) in one_of_each() {
        assert_eq!(sent(&msg), wire);
        let mut longer = wire.clone();
        longer.extend_from_slice(b"and more");
        assert!(!BtMsg::is_short_piece(&longer));
        assert_eq!(BtMsg::deserialize(&longer), Ok((msg, wire.len())));
    }
}

#[test]
fn a_message_is_appended() {
    let mut out = vec![1, 2, 3];
    BtMsg::Choke.serialize(&mut out);
    assert_eq!(out, vec![1, 2, 3, 0, 0, 0, 1, 0]);
}

#[test]
fn a_message_cut_short_is_not_read() {
    for (_, wire) in one_of_each() {
        for n in 0..wire.len() {
            let part = &wire[..n];
            assert_eq!(
                BtMsg::deserialize(part),
                Err(BtPeerMsgDecodeError::IOError(StreamError::UnexpectedEof))
            );
        }
    }
}

#[test]
fn reading_what_is_missing_stops_at_the_end() {
    for (msg, wire) in one_of_each() {
        let mut stream = wire.clone();
        stream.extend_from_slice(&[9; 40]);
        let mut read: Vec<u8> = Vec::new();
        loop {
            let n = BtMsg::bytes_missing(&read);
            if n == 0 {
                break;
            }
            let at = read.len();
            read.extend_from_slice(&stream[at..at + n]);
        }
        assert_eq!(read, wire);
        assert_eq!(BtMsg::deserialize(&read), Ok((msg, wire.len())));
    }
    assert_eq!(BtMsg::bytes_missing(&[0, 0, 0, 2, 99]), 0);
    assert_eq!(BtMsg::bytes_missing(&[0, 0, 0, 1, 7]), 8);
}

#[test]
fn the_length_of_a_fixed_kind_is_not_looked_at() {
    let msg = [0, 0, 1, 0, 4, 0, 0, 0, 6];
    assert_eq!(BtMsg::deserialize(&msg), Ok((BtMsg::HavePiece { idx: 6 }, 9)));
}

#[test]
fn a_block_shorter_than_its_header_is_seen() {
    let msg = [0, 0, 0, 8, 7, 0, 0, 0, 1, 0, 0, 0, 0];
    assert!(BtMsg::is_short_piece(&msg));
    assert!(!BtMsg::is_short_piece(&msg[..12]));
    let empty = [0, 0, 0, 9, 7, 0, 0, 0, 1, 0, 0, 0, 0];
    assert!(!BtMsg::is_short_piece(&empty));
    assert_eq!(
        BtMsg::deserialize(&empty),
        Ok((BtMsg::BlockResponse { piece_idx: 1, begin: 0, data: vec![] }, 13))
    );
}

#[test]
fn kinds_have_their_numbers() {
    for number in 0..=255u8 {
        match BtMsgKind::from_u8(number) {
            Some(kind) => {
                assert!(number <= 8);
                assert_eq!(kind.to_u8(), number);
            }
            None => assert!(number > 8),
        }
    }
    assert_eq!(
        BtMsg::Bitfield { bitfield: vec![0; 4] }.wire_len_and_msgkind(),
        (5, Some(BtMsgKind::BITFIELD))
    );
    assert_eq!(BtMsg::KeepAlive.wire_len_and_msgkind(), (0, None));
}

fn template() -> Vec<u8> {
    let mut t = vec![19];
    t.extend_from_slice(b"BitTorrent protocol");
    t.extend_from_slice(&[0; 8]);
    t.extend_from_slice(&[0; 20]);
    t.extend_from_slice(b"-XX0001-abcdefghijkl");
    assert_eq!(t.len(), HANDSHAKE_LEN);
    t
}

#[test]
fn a_handshake_carries_the_hash() {
    let t = template();
    let hash = [0xAB; 20];
    let mut out = Vec::new();
    send_handshake(&t, &hash, &mut out);
    assert_eq!(out.len(), HANDSHAKE_LEN);
    assert_eq!(&out[..28], &t[..28]);
    assert_eq!(&out[28..48], &hash);
    assert_eq!(&out[48..], &t[48..]);
}

#[test]
fn a_sent_handshake_is_accepted() {
    let t = template();
    let hash = [0xAB; 20];
    let mut out = Vec::new();
    send_handshake(&t, &hash, &mut out);
    let own_id: &[u8] = &t[48..];
    assert_eq!(recv_and_check_handshake(&t, &hash, None, &out), Ok(()));
    assert_eq!(recv_and_check_handshake(&t, &hash, Some(own_id), &out), Ok(()));
    out[20] = 0xFF;
    out.push(0);
    assert_eq!(recv_and_check_handshake(&t, &hash, None, &out), Ok(()));
}

#[test]
fn a_wrong_handshake_is_turned_down() {
    let t = template();
    let hash = [0xAB; 20];
    let mut out = Vec::new();
    send_handshake(&t, &hash, &mut out);
    assert_eq!(
        recv_and_check_handshake(&t, &hash, None, &out[..67]),
        Err(HandshakeError::IOError(StreamError::UnexpectedEof))
    );
    assert_eq!(
        recv_and_check_handshake(&t, &[0xAC; 20], None, &out),
        Err(HandshakeError::WrongInfoHash)
    );
    let other_id: &[u8] = &[1; 20];
    assert_eq!(
        recv_and_check_handshake(&t, &hash, Some(other_id), &out),
        Err(HandshakeError::WrongPeerId)
    );
    out[1] = b'b';
    assert_eq!(
        recv_and_check_handshake(&t, &hash, None, &out),
        Err(HandshakeError::WrongProtocol)
    );
}
