//! The peer wire protocol byte by byte: what stands where in a message and in a
//! handshake, and what is read from which bytes.

use vstd::prelude::*;

use crate::btmsg::{
    handshake, handshake_verdict, kind_number, missing, msg_kind, msg_len, numbered_kind,
    optional_bytes, read_msg, short_piece, wire, BtMsg, BtMsgKind, BtPeerMsgDecodeError,
    HandshakeError, Msg, StreamError,
};

verus! {

/// A stored message stands for the message of its kind, with the same fields.
pub proof fn lemma_stored_message(msg: BtMsg)
    ensures
        match msg {
            BtMsg::KeepAlive => msg@ is KeepAlive,
            BtMsg::Choke => msg@ is Choke,
            BtMsg::Unchoke => msg@ is Unchoke,
            BtMsg::Interested => msg@ is Interested,
            BtMsg::Uninterested => msg@ is Uninterested,
            BtMsg::HavePiece { idx } => msg@ == (Msg::HavePiece { idx }),
            BtMsg::Bitfield { bitfield } => msg@ == (Msg::Bitfield { bitfield: bitfield@ }),
            BtMsg::BlockRequest { piece_idx, begin, length } => msg@ == (Msg::BlockRequest {
                piece_idx,
                begin,
                length,
            }),
            BtMsg::BlockResponse { piece_idx, begin, data } => msg@ == (Msg::BlockResponse {
                piece_idx,
                begin,
                data: data@,
            }),
            BtMsg::CancelBlockRequest { piece_idx, begin, length } => msg@ == (
            Msg::CancelBlockRequest { piece_idx, begin, length }),
        },
{
}

/// The kinds are numbered from nought to eight, and no other number is a kind.
pub proof fn lemma_kinds_are_numbered(number: u8)
    ensures
        numbered_kind(number) is Some <==> number <= 8,
        numbered_kind(number) matches Some(kind) ==> kind_number(kind) == number,
        kind_number(BtMsgKind::CHOKE) == 0,
        kind_number(BtMsgKind::UNCHOKE) == 1,
        kind_number(BtMsgKind::INTERESTED) == 2,
        kind_number(BtMsgKind::UNINTERESTED) == 3,
        kind_number(BtMsgKind::HAVE) == 4,
        kind_number(BtMsgKind::BITFIELD) == 5,
        kind_number(BtMsgKind::REQUEST) == 6,
        kind_number(BtMsgKind::PIECE) == 7,
        kind_number(BtMsgKind::CANCEL) == 8,
{
}

/// A message is announced with the number of bytes that follow the announcement,
/// and its kind is numbered in the fifth byte; one without a kind is announced
/// with nought. Of the length of what a message carries the low 32 bits are
/// taken, and it can be announced unless these leave no room for what comes
/// before.
pub proof fn lemma_announced(msg: Msg)
    ensures
        wire(msg).len() <= u32::MAX ==> msg_len(msg) == wire(msg).len() - 4,
        0 <= msg_len(msg) <= u32::MAX ==> {
            let w = wire(msg);
            &&& w.len() >= 4
            &&& w[0] * 0x100_0000 + w[1] * 0x1_0000 + w[2] * 0x100 + w[3] == msg_len(msg)
        },
        msg_len(msg) >= 0,
        msg_len(msg) > u32::MAX ==> {
            ||| msg matches Msg::Bitfield { bitfield } && bitfield.len() as u32 + 1 > u32::MAX
            ||| msg matches Msg::BlockResponse { data, .. } && data.len() as u32 + 9 > u32::MAX
        },
        msg_kind(msg) is None <==> msg is KeepAlive,
        msg_kind(msg) matches Some(kind) ==> {
            &&& wire(msg).len() >= 5
            &&& wire(msg)[4] == kind_number(kind)
        },
{
    if 0 <= msg_len(msg) <= u32::MAX {
        lemma_number_bytes(msg_len(msg) as u32);
    }
}

/// The bytes of a message: the announced length, the number of the kind, then
/// each number with its highest byte first, the index of the piece before the
/// beginning and the beginning before the length, and then the data.
pub proof fn lemma_message_bytes(msg: Msg)
    ensures
        ({
            let w = wire(msg);
            match msg {
                Msg::KeepAlive => w == seq![0u8, 0, 0, 0],
                Msg::Choke => w == seq![0u8, 0, 0, 1, 0],
                Msg::Unchoke => w == seq![0u8, 0, 0, 1, 1],
                Msg::Interested => w == seq![0u8, 0, 0, 1, 2],
                Msg::Uninterested => w == seq![0u8, 0, 0, 1, 3],
                Msg::HavePiece { idx } => {
                    &&& w.len() == 9
                    &&& w.take(5) == seq![0u8, 0, 0, 5, 4]
                    &&& w[5] * 0x100_0000 + w[6] * 0x1_0000 + w[7] * 0x100 + w[8] == idx
                },
                Msg::Bitfield { bitfield } => 1 + (bitfield.len() as u32) <= u32::MAX ==> {
                    &&& w.len() == 5 + bitfield.len()
                    &&& w[0] * 0x100_0000 + w[1] * 0x1_0000 + w[2] * 0x100 + w[3] == 1 + (
                    bitfield.len() as u32)
                    &&& w[4] == 5
                    &&& w.skip(5) == bitfield
                },
                Msg::BlockRequest { piece_idx, begin, length } => {
                    &&& w.len() == 17
                    &&& w.take(5) == seq![0u8, 0, 0, 13, 6]
                    &&& w[5] * 0x100_0000 + w[6] * 0x1_0000 + w[7] * 0x100 + w[8] == piece_idx
                    &&& w[9] * 0x100_0000 + w[10] * 0x1_0000 + w[11] * 0x100 + w[12] == begin
                    &&& w[13] * 0x100_0000 + w[14] * 0x1_0000 + w[15] * 0x100 + w[16] == length
                },
                Msg::CancelBlockRequest { piece_idx, begin, length } => {
                    &&& w.len() == 17
                    &&& w.take(5) == seq![0u8, 0, 0, 13, 8]
                    &&& w[5] * 0x100_0000 + w[6] * 0x1_0000 + w[7] * 0x100 + w[8] == piece_idx
                    &&& w[9] * 0x100_0000 + w[10] * 0x1_0000 + w[11] * 0x100 + w[12] == begin
                    &&& w[13] * 0x100_0000 + w[14] * 0x1_0000 + w[15] * 0x100 + w[16] == length
                },
                Msg::BlockResponse { piece_idx, begin, data } => 9 + (data.len() as u32)
                    <= u32::MAX ==> {
                    &&& w.len() == 13 + data.len()
                    &&& w[0] * 0x100_0000 + w[1] * 0x1_0000 + w[2] * 0x100 + w[3] == 9 + (
                    data.len() as u32)
                    &&& w[4] == 7
                    &&& w[5] * 0x100_0000 + w[6] * 0x1_0000 + w[7] * 0x100 + w[8] == piece_idx
                    &&& w[9] * 0x100_0000 + w[10] * 0x1_0000 + w[11] * 0x100 + w[12] == begin
                    &&& w.skip(13) == data
                },
            }
        }),
{
    let w = wire(msg);
    match msg {
        Msg::HavePiece { idx } => {
            lemma_number_bytes(idx);
            assert(w.take(5) =~= seq![0u8, 0, 0, 5, 4]);
        },
        Msg::Bitfield { bitfield } => {
            if 1 + (bitfield.len() as u32) <= u32::MAX {
                lemma_number_bytes((1 + (bitfield.len() as u32)) as u32);
                assert(w.skip(5) =~= bitfield);
            }
        },
        Msg::BlockRequest { piece_idx, begin, length } => {
            lemma_number_bytes(piece_idx);
            lemma_number_bytes(begin);
            lemma_number_bytes(length);
            assert(w.take(5) =~= seq![0u8, 0, 0, 13, 6]);
        },
        Msg::CancelBlockRequest { piece_idx, begin, length } => {
            lemma_number_bytes(piece_idx);
            lemma_number_bytes(begin);
            lemma_number_bytes(length);
            assert(w.take(5) =~= seq![0u8, 0, 0, 13, 8]);
        },
        Msg::BlockResponse { piece_idx, begin, data } => {
            if 9 + (data.len() as u32) <= u32::MAX {
                lemma_number_bytes((9 + (data.len() as u32)) as u32);
                lemma_number_bytes(piece_idx);
                lemma_number_bytes(begin);
                assert(w.skip(13) =~= data);
            }
        },
        _ => {
            assert(w =~= w.take(4) + w.skip(4));
        },
    }
}

proof fn lemma_number_bytes(x: u32)
    ensures
        crate::btmsg::be_bytes(x).len() == 4,
        ({
            let b = crate::btmsg::be_bytes(x);
            b[0] * 0x100_0000 + b[1] * 0x1_0000 + b[2] * 0x100 + b[3] == x
        }),
{
    assert((x / 0x100_0000) * 0x100_0000 + ((x / 0x1_0000) % 0x100) * 0x1_0000 + ((x / 0x100)
        % 0x100) * 0x100 + x % 0x100 == x && x / 0x100_0000 < 0x100) by (bit_vector);
}

/// What is read from which bytes. A message cut short is not read. The first four
/// bytes announce its length, of which nought is a keep-alive; the fifth numbers
/// its kind. The announced length counts only where data of any length follow.
pub proof fn lemma_message_read(d: Seq<u8>)
    ensures
        ({
            let n = d[0] * 0x100_0000 + d[1] * 0x1_0000 + d[2] * 0x100 + d[3];
            let r = read_msg(d);
            let eof = r == Err::<(Msg, int), _>(
                BtPeerMsgDecodeError::IOError(StreamError::UnexpectedEof),
            );
            &&& d.len() < 4 ==> eof
            &&& d.len() >= 4 && n == 0 ==> r == Ok::<_, BtPeerMsgDecodeError>((Msg::KeepAlive, 4int))
            &&& d.len() == 4 && n > 0 ==> eof
            &&& d.len() >= 5 && n > 0 ==> {
                &&& d[4] > 8 ==> r == Err::<(Msg, int), _>(
                    BtPeerMsgDecodeError::MalformedMsg_BadMsgID,
                )
                &&& d[4] == 0 ==> r == Ok::<_, BtPeerMsgDecodeError>((Msg::Choke, 5int))
                &&& d[4] == 1 ==> r == Ok::<_, BtPeerMsgDecodeError>((Msg::Unchoke, 5int))
                &&& d[4] == 2 ==> r == Ok::<_, BtPeerMsgDecodeError>((Msg::Interested, 5int))
                &&& d[4] == 3 ==> r == Ok::<_, BtPeerMsgDecodeError>((Msg::Uninterested, 5int))
                &&& d[4] == 4 && d.len() < 9 ==> eof
                &&& d[4] == 4 && d.len() >= 9 ==> {
                    &&& r matches Ok((Msg::HavePiece { idx }, used))
                    &&& used == 9
                    &&& idx == d[5] * 0x100_0000 + d[6] * 0x1_0000 + d[7] * 0x100 + d[8]
                }
                &&& d[4] == 5 && d.len() < 4 + n ==> eof
                &&& d[4] == 5 && d.len() >= 4 + n ==> {
                    &&& r matches Ok((Msg::Bitfield { bitfield }, used))
                    &&& used == 4 + n
                    &&& bitfield.len() == n - 1
                    &&& forall|i: int| 0 <= i < n - 1 ==> #[trigger] bitfield[i] == d[5 + i]
                }
                &&& d[4] == 6 && d.len() < 17 ==> eof
                &&& d[4] == 6 && d.len() >= 17 ==> {
                    &&& r matches Ok((Msg::BlockRequest { piece_idx, begin, length }, used))
                    &&& used == 17
                    &&& piece_idx == d[5] * 0x100_0000 + d[6] * 0x1_0000 + d[7] * 0x100 + d[8]
                    &&& begin == d[9] * 0x100_0000 + d[10] * 0x1_0000 + d[11] * 0x100 + d[12]
                    &&& length == d[13] * 0x100_0000 + d[14] * 0x1_0000 + d[15] * 0x100 + d[16]
                }
                &&& d[4] == 7 && d.len() < 13 ==> eof
                &&& d[4] == 7 && n >= 9 && d.len() < 4 + n ==> eof
                &&& d[4] == 7 && n >= 9 && d.len() >= 4 + n ==> {
                    &&& r matches Ok((Msg::BlockResponse { piece_idx, begin, data }, used))
                    &&& used == 4 + n
                    &&& piece_idx == d[5] * 0x100_0000 + d[6] * 0x1_0000 + d[7] * 0x100 + d[8]
                    &&& begin == d[9] * 0x100_0000 + d[10] * 0x1_0000 + d[11] * 0x100 + d[12]
                    &&& data.len() == n - 9
                    &&& forall|i: int| 0 <= i < n - 9 ==> #[trigger] data[i] == d[13 + i]
                }
                &&& d[4] == 8 && d.len() < 17 ==> eof
                &&& d[4] == 8 && d.len() >= 17 ==> {
                    &&& r matches Ok((Msg::CancelBlockRequest { piece_idx, begin, length }, used))
                    &&& used == 17
                    &&& piece_idx == d[5] * 0x100_0000 + d[6] * 0x1_0000 + d[7] * 0x100 + d[8]
                    &&& begin == d[9] * 0x100_0000 + d[10] * 0x1_0000 + d[11] * 0x100 + d[12]
                    &&& length == d[13] * 0x100_0000 + d[14] * 0x1_0000 + d[15] * 0x100 + d[16]
                }
            }
        }),
{
}

/// Only a block that is announced in one to eight bytes, and of which the header
/// has come, cannot be read.
pub proof fn lemma_short_piece_is(d: Seq<u8>)
    ensures
        short_piece(d) <==> {
            &&& d.len() >= 13
            &&& d[4] == 7
            &&& 1 <= d[0] * 0x100_0000 + d[1] * 0x1_0000 + d[2] * 0x100 + d[3] <= 8
        },
{
}

/// What is read next: the rest of the announcement, then the number of the kind,
/// then what the kind takes, which only for a bitfield and for the data of a block
/// is what was announced.
pub proof fn lemma_missing_is(d: Seq<u8>)
    ensures
        ({
            let n = d[0] * 0x100_0000 + d[1] * 0x1_0000 + d[2] * 0x100 + d[3];
            let m = missing(d);
            &&& m >= 0
            &&& d.len() < 4 ==> d.len() + m == 4
            &&& d.len() >= 4 && n == 0 ==> m == 0
            &&& d.len() == 4 && n > 0 ==> m == 1
            &&& d.len() >= 5 && n > 0 ==> {
                &&& d[4] <= 3 || d[4] > 8 ==> m == 0
                &&& d[4] == 4 && d.len() <= 9 ==> d.len() + m == 9
                &&& d[4] == 4 && d.len() > 9 ==> m == 0
                &&& d[4] == 5 && d.len() <= 4 + n ==> d.len() + m == 4 + n
                &&& d[4] == 5 && d.len() > 4 + n ==> m == 0
                &&& (d[4] == 6 || d[4] == 8) && d.len() <= 17 ==> d.len() + m == 17
                &&& (d[4] == 6 || d[4] == 8) && d.len() > 17 ==> m == 0
                &&& d[4] == 7 && d.len() < 13 ==> d.len() + m == 13
                &&& d[4] == 7 && 13 <= d.len() <= 4 + n ==> d.len() + m == 4 + n
                &&& d[4] == 7 && d.len() >= 13 && d.len() > 4 + n ==> m == 0
            }
        }),
{
}

/// A handshake is the template, byte by byte, but for the twenty bytes of the
/// hash.
pub proof fn lemma_handshake_bytes(template: Seq<u8>, info_hash: Seq<u8>)
    requires
        template.len() == 68,
        info_hash.len() == 20,
    ensures
        handshake(template, info_hash).len() == 68,
        forall|i: int|
            0 <= i < 68 ==> #[trigger] handshake(template, info_hash)[i] == (if 28 <= i < 48 {
                info_hash[i - 28]
            } else {
                template[i]
            }),
{
}

/// A handshake is accepted exactly where it has come whole and every byte of the
/// protocol, of the hash and, where a name is expected, of the name is as it
/// should be. Else the first of these that is not decides.
pub proof fn lemma_handshake_is_compared(
    template: Seq<u8>,
    info_hash: Seq<u8>,
    peer_id: Option<Seq<u8>>,
    d: Seq<u8>,
)
    requires
        template.len() == 68,
        info_hash.len() == 20,
    ensures
        ({
            let whole = d.len() >= 68;
            let protocol = forall|i: int| 0 <= i < 20 ==> #[trigger] d[i] == template[i];
            let hash = forall|i: int| 0 <= i < 20 ==> d[28 + i] == #[trigger] info_hash[i];
            let name = peer_id matches Some(id) ==> id.len() == 20 && forall|i: int|
                0 <= i < 20 ==> d[48 + i] == #[trigger] id[i];
            let r = handshake_verdict(template, info_hash, peer_id, d);
            &&& r is Ok <==> whole && protocol && hash && name
            &&& r == Err::<(), _>(HandshakeError::IOError(StreamError::UnexpectedEof)) <==> !whole
            &&& r == Err::<(), _>(HandshakeError::WrongProtocol) <==> whole && !protocol
            &&& r == Err::<(), _>(HandshakeError::WrongInfoHash) <==> whole && protocol && !hash
            &&& r == Err::<(), _>(HandshakeError::WrongPeerId) <==> whole && protocol && hash
                && !name
        }),
{
    if d.len() >= 68 {
        let (a, b) = (d.take(20), template.take(20));
        assert((forall|i: int| 0 <= i < 20 ==> #[trigger] d[i] == template[i]) ==> a =~= b);
        assert(a == b ==> forall|i: int| 0 <= i < 20 ==> #[trigger] d[i] == template[i]) by {
            assert(forall|i: int| 0 <= i < 20 ==> #[trigger] d[i] == a[i]);
            assert(forall|i: int| 0 <= i < 20 ==> #[trigger] template[i] == b[i]);
        }
        let h = d.subrange(28, 48);
        assert((forall|i: int| 0 <= i < 20 ==> d[28 + i] == #[trigger] info_hash[i]) ==> h
            =~= info_hash);
        assert(forall|i: int| 0 <= i < 20 ==> #[trigger] h[i] == d[28 + i]);
        if let Some(id) = peer_id {
            let p = d.subrange(48, 68);
            assert(forall|i: int| 0 <= i < 20 ==> #[trigger] p[i] == d[48 + i]);
            assert((id.len() == 20 && forall|i: int|
                0 <= i < 20 ==> d[48 + i] == #[trigger] id[i]) ==> p =~= id);
        }
    }
}

/// An expected name is taken as it is.
pub proof fn lemma_optional_bytes(s: Option<&[u8]>)
    ensures
        optional_bytes(s) is Some <==> s is Some,
        s matches Some(bytes) ==> optional_bytes(s) == Some(bytes@),
{
}

} // verus!
