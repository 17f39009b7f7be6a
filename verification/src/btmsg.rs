//! The peer wire protocol: the handshake and the messages that follow it.

use vstd::prelude::*;
use vstd::slice::{slice_subrange, slice_to_vec};

use crate::bytes::{append_bytes, bytes_equal};

verus! {

/// A message as it is stored.
#[derive(PartialEq, Debug)]
pub enum BtMsg {
    KeepAlive,
    Choke,
    Unchoke,
    Interested,
    Uninterested,
    HavePiece { idx: u32 },
    Bitfield { bitfield: Vec<u8> },
    BlockRequest { piece_idx: u32, begin: u32, length: u32 },
    BlockResponse { piece_idx: u32, begin: u32, data: Vec<u8> },
    CancelBlockRequest { piece_idx: u32, begin: u32, length: u32 },
}

/// A message itself.
#[verifier::ext_equal]
pub enum Msg {
    KeepAlive,
    Choke,
    Unchoke,
    Interested,
    Uninterested,
    HavePiece { idx: u32 },
    Bitfield { bitfield: Seq<u8> },
    BlockRequest { piece_idx: u32, begin: u32, length: u32 },
    BlockResponse { piece_idx: u32, begin: u32, data: Seq<u8> },
    CancelBlockRequest { piece_idx: u32, begin: u32, length: u32 },
}

impl View for BtMsg {
    type V = Msg;

    open spec fn view(&self) -> Msg {
        match *self {
            BtMsg::KeepAlive => Msg::KeepAlive,
            BtMsg::Choke => Msg::Choke,
            BtMsg::Unchoke => Msg::Unchoke,
            BtMsg::Interested => Msg::Interested,
            BtMsg::Uninterested => Msg::Uninterested,
            BtMsg::HavePiece { idx } => Msg::HavePiece { idx },
            BtMsg::Bitfield { bitfield } => Msg::Bitfield { bitfield: bitfield@ },
            BtMsg::BlockRequest { piece_idx, begin, length } => Msg::BlockRequest {
                piece_idx,
                begin,
                length,
            },
            BtMsg::BlockResponse { piece_idx, begin, data } => Msg::BlockResponse {
                piece_idx,
                begin,
                data: data@,
            },
            BtMsg::CancelBlockRequest { piece_idx, begin, length } => Msg::CancelBlockRequest {
                piece_idx,
                begin,
                length,
            },
        }
    }
}

/// What a message is about, as its first byte says.
#[derive(Debug, PartialEq, Eq, Structural, Clone, Copy)]
pub enum BtMsgKind {
    CHOKE,
    UNCHOKE,
    INTERESTED,
    UNINTERESTED,
    HAVE,
    BITFIELD,
    REQUEST,
    PIECE,
    CANCEL,
}

/// Why bytes could not be read from a stream.
#[derive(Debug, PartialEq, Eq, Structural, Clone, Copy)]
pub enum StreamError {
    /// The stream ended before all the bytes that were due had come.
    UnexpectedEof,
}

/// Why a message could not be read.
#[allow(non_camel_case_types)]
#[derive(Debug, PartialEq, Eq, Structural, Clone, Copy)]
pub enum BtPeerMsgDecodeError {
    /// No kind of message has this number.
    MalformedMsg_BadMsgID,
    /// The bytes of the message could not be read.
    IOError(StreamError),
}

/// Why a peer's handshake was turned down.
#[derive(Debug, PartialEq, Eq, Structural, Clone, Copy)]
pub enum HandshakeError {
    /// The handshake could not be read.
    IOError(StreamError),
    /// The peer speaks another protocol.
    WrongProtocol,
    /// The peer offers another torrent.
    WrongInfoHash,
    /// The peer is not the one that was expected.
    WrongPeerId,
}

/// The length of a handshake.
pub const HANDSHAKE_LEN: usize = 68;

/// The number of a kind on the wire.
pub open spec fn kind_number(kind: BtMsgKind) -> u8 {
    match kind {
        BtMsgKind::CHOKE => 0,
        BtMsgKind::UNCHOKE => 1,
        BtMsgKind::INTERESTED => 2,
        BtMsgKind::UNINTERESTED => 3,
        BtMsgKind::HAVE => 4,
        BtMsgKind::BITFIELD => 5,
        BtMsgKind::REQUEST => 6,
        BtMsgKind::PIECE => 7,
        BtMsgKind::CANCEL => 8,
    }
}

/// The kind that a number on the wire stands for.
pub open spec fn numbered_kind(number: u8) -> Option<BtMsgKind> {
    if number == 0 {
        Some(BtMsgKind::CHOKE)
    } else if number == 1 {
        Some(BtMsgKind::UNCHOKE)
    } else if number == 2 {
        Some(BtMsgKind::INTERESTED)
    } else if number == 3 {
        Some(BtMsgKind::UNINTERESTED)
    } else if number == 4 {
        Some(BtMsgKind::HAVE)
    } else if number == 5 {
        Some(BtMsgKind::BITFIELD)
    } else if number == 6 {
        Some(BtMsgKind::REQUEST)
    } else if number == 7 {
        Some(BtMsgKind::PIECE)
    } else if number == 8 {
        Some(BtMsgKind::CANCEL)
    } else {
        None
    }
}

/// The four bytes of a number, the highest first.
pub open spec fn be_bytes(x: u32) -> Seq<u8> {
    seq![
        (x / 0x100_0000) as u8,
        ((x / 0x1_0000) % 0x100) as u8,
        ((x / 0x100) % 0x100) as u8,
        (x % 0x100) as u8,
    ]
}

/// The number whose bytes, the highest first, stand at `at`.
pub open spec fn be_value(s: Seq<u8>, at: int) -> u32 {
    (s[at] * 0x100_0000 + s[at + 1] * 0x1_0000 + s[at + 2] * 0x100 + s[at + 3]) as u32
}

/// The kind of a message; a keep-alive has none.
pub open spec fn msg_kind(msg: Msg) -> Option<BtMsgKind> {
    match msg {
        Msg::KeepAlive => None,
        Msg::Choke => Some(BtMsgKind::CHOKE),
        Msg::Unchoke => Some(BtMsgKind::UNCHOKE),
        Msg::Interested => Some(BtMsgKind::INTERESTED),
        Msg::Uninterested => Some(BtMsgKind::UNINTERESTED),
        Msg::HavePiece { .. } => Some(BtMsgKind::HAVE),
        Msg::Bitfield { .. } => Some(BtMsgKind::BITFIELD),
        Msg::BlockRequest { .. } => Some(BtMsgKind::REQUEST),
        Msg::BlockResponse { .. } => Some(BtMsgKind::PIECE),
        Msg::CancelBlockRequest { .. } => Some(BtMsgKind::CANCEL),
    }
}

/// The length that a message is announced with. Of the length of what it
/// carries only the low 32 bits are taken.
pub open spec fn msg_len(msg: Msg) -> int {
    match msg {
        Msg::KeepAlive => 0,
        Msg::Choke | Msg::Unchoke | Msg::Interested | Msg::Uninterested => 1,
        Msg::HavePiece { .. } => 5,
        Msg::BlockRequest { .. } | Msg::CancelBlockRequest { .. } => 13,
        Msg::Bitfield { bitfield } => 1 + (bitfield.len() as u32) as int,
        Msg::BlockResponse { data, .. } => 9 + (data.len() as u32) as int,
    }
}

/// What a message carries after its kind.
pub open spec fn payload(msg: Msg) -> Seq<u8> {
    match msg {
        Msg::HavePiece { idx } => be_bytes(idx),
        Msg::Bitfield { bitfield } => bitfield,
        Msg::BlockRequest { piece_idx, begin, length }
        | Msg::CancelBlockRequest { piece_idx, begin, length } => be_bytes(piece_idx) + be_bytes(
            begin,
        ) + be_bytes(length),
        Msg::BlockResponse { piece_idx, begin, data } => be_bytes(piece_idx) + be_bytes(begin)
            + data,
        _ => Seq::empty(),
    }
}

/// A message on the wire: its length, the number of its kind, what it carries.
pub open spec fn wire(msg: Msg) -> Seq<u8> {
    match msg_kind(msg) {
        None => be_bytes(0),
        Some(kind) => be_bytes(msg_len(msg) as u32) + seq![kind_number(kind)] + payload(msg),
    }
}

/// A block is announced in fewer bytes than its own header takes.
pub open spec fn short_piece(d: Seq<u8>) -> bool {
    d.len() >= 13 && 0 < be_value(d, 0) < 9 && d[4] == 7
}

/// Reads the message that `d` begins with, and says how many bytes it took.
pub open spec fn read_msg(d: Seq<u8>) -> Result<(Msg, int), BtPeerMsgDecodeError> {
    let eof = BtPeerMsgDecodeError::IOError(StreamError::UnexpectedEof);
    let len = be_value(d, 0);
    if d.len() < 4 {
        Err(eof)
    } else if len == 0 {
        Ok((Msg::KeepAlive, 4))
    } else if d.len() < 5 {
        Err(eof)
    } else {
        match numbered_kind(d[4]) {
            None => Err(BtPeerMsgDecodeError::MalformedMsg_BadMsgID),
            Some(BtMsgKind::CHOKE) => Ok((Msg::Choke, 5)),
            Some(BtMsgKind::UNCHOKE) => Ok((Msg::Unchoke, 5)),
            Some(BtMsgKind::INTERESTED) => Ok((Msg::Interested, 5)),
            Some(BtMsgKind::UNINTERESTED) => Ok((Msg::Uninterested, 5)),
            Some(BtMsgKind::HAVE) => if d.len() < 9 {
                Err(eof)
            } else {
                Ok((Msg::HavePiece { idx: be_value(d, 5) }, 9))
            },
            Some(BtMsgKind::BITFIELD) => if d.len() < 4 + len {
                Err(eof)
            } else {
                Ok((Msg::Bitfield { bitfield: d.subrange(5, 4 + len) }, 4 + len))
            },
            Some(BtMsgKind::REQUEST) => if d.len() < 17 {
                Err(eof)
            } else {
                Ok(
                    (
                        Msg::BlockRequest {
                            piece_idx: be_value(d, 5),
                            begin: be_value(d, 9),
                            length: be_value(d, 13),
                        },
                        17,
                    ),
                )
            },
            Some(BtMsgKind::PIECE) => if d.len() < 13 || d.len() < 4 + len {
                Err(eof)
            } else {
                Ok(
                    (
                        Msg::BlockResponse {
                            piece_idx: be_value(d, 5),
                            begin: be_value(d, 9),
                            data: d.subrange(13, 4 + len),
                        },
                        4 + len,
                    ),
                )
            },
            Some(BtMsgKind::CANCEL) => if d.len() < 17 {
                Err(eof)
            } else {
                Ok(
                    (
                        Msg::CancelBlockRequest {
                            piece_idx: be_value(d, 5),
                            begin: be_value(d, 9),
                            length: be_value(d, 13),
                        },
                        17,
                    ),
                )
            },
        }
    }
}

/// How many bytes are to be read next, when `d` is what has been read of a
/// message: none where it is complete or cannot be one.
pub open spec fn missing(d: Seq<u8>) -> int {
    let len = be_value(d, 0);
    let upto = |total: int|
        if d.len() < total {
            total - d.len()
        } else {
            0
        };
    if d.len() < 4 {
        4 - d.len()
    } else if len == 0 {
        0
    } else if d.len() < 5 {
        1
    } else {
        match numbered_kind(d[4]) {
            None => 0,
            Some(BtMsgKind::CHOKE) | Some(BtMsgKind::UNCHOKE) | Some(BtMsgKind::INTERESTED) | Some(
                BtMsgKind::UNINTERESTED,
            ) => 0,
            Some(BtMsgKind::HAVE) => upto(9),
            Some(BtMsgKind::BITFIELD) => upto(4 + len),
            Some(BtMsgKind::REQUEST) | Some(BtMsgKind::CANCEL) => upto(17),
            Some(BtMsgKind::PIECE) => if d.len() < 13 {
                13 - d.len()
            } else {
                upto(4 + len)
            },
        }
    }
}

/// What a reader that works on bytes returned, in terms of messages.
pub open spec fn read_result(r: Result<(BtMsg, usize), BtPeerMsgDecodeError>) -> Result<
    (Msg, int),
    BtPeerMsgDecodeError,
> {
    match r {
        Ok((msg, used)) => Ok((msg@, used as int)),
        Err(e) => Err(e),
    }
}

fn write_u32(out: &mut Vec<u8>, x: u32)
    ensures
        final(out)@ == old(out)@ + be_bytes(x),
{
    out.push((x / 0x100_0000) as u8);
    out.push(((x / 0x1_0000) % 0x100) as u8);
    out.push(((x / 0x100) % 0x100) as u8);
    out.push((x % 0x100) as u8);
    assert(out@ =~= old(out)@ + be_bytes(x));
}

fn read_u32(d: &[u8], at: usize) -> (x: u32)
    requires
        at + 4 <= d@.len(),
    ensures
        x == be_value(d@, at as int),
{
    assert(d.len() == d@.len());
    d[at] as u32 * 0x100_0000 + d[at + 1] as u32 * 0x1_0000 + d[at + 2] as u32 * 0x100 + d[at
        + 3] as u32
}

impl BtMsgKind {
    /// The number of this kind on the wire.
    pub fn to_u8(self) -> (r: u8)
        ensures
            r == kind_number(self),
    {
        match self {
            BtMsgKind::CHOKE => 0,
            BtMsgKind::UNCHOKE => 1,
            BtMsgKind::INTERESTED => 2,
            BtMsgKind::UNINTERESTED => 3,
            BtMsgKind::HAVE => 4,
            BtMsgKind::BITFIELD => 5,
            BtMsgKind::REQUEST => 6,
            BtMsgKind::PIECE => 7,
            BtMsgKind::CANCEL => 8,
        }
    }

    /// The kind that a number on the wire stands for.
    pub fn from_u8(number: u8) -> (r: Option<BtMsgKind>)
        ensures
            r == numbered_kind(number),
    {
        match number {
            0 => Some(BtMsgKind::CHOKE),
            1 => Some(BtMsgKind::UNCHOKE),
            2 => Some(BtMsgKind::INTERESTED),
            3 => Some(BtMsgKind::UNINTERESTED),
            4 => Some(BtMsgKind::HAVE),
            5 => Some(BtMsgKind::BITFIELD),
            6 => Some(BtMsgKind::REQUEST),
            7 => Some(BtMsgKind::PIECE),
            8 => Some(BtMsgKind::CANCEL),
            _ => None,
        }
    }
}

impl BtMsg {
    /// Reads the message that `data_stream` begins with, and says how many
    /// bytes it took.
    pub fn deserialize(data_stream: &[u8]) -> (r: Result<(Self, usize), BtPeerMsgDecodeError>)
        requires
            !short_piece(data_stream@),
        ensures
            read_result(r) == read_msg(data_stream@),
            match r {
                Ok((msg, used)) => read_msg(data_stream@) == Ok::<_, BtPeerMsgDecodeError>(
                    (msg@, used as int),
                ),
                Err(e) => read_msg(data_stream@) == Err::<(Msg, int), _>(e),
            },
    {
        let d = data_stream;
        let eof = BtPeerMsgDecodeError::IOError(StreamError::UnexpectedEof);
        if d.len() < 4 {
            return Err(eof);
        }
        let len = read_u32(d, 0);
        if len == 0 {
            return Ok((BtMsg::KeepAlive, 4));
        }
        if d.len() < 5 {
            return Err(eof);
        }
        let kind = match BtMsgKind::from_u8(d[4]) {
            Some(kind) => kind,
            None => {
                return Err(BtPeerMsgDecodeError::MalformedMsg_BadMsgID);
            },
        };
        match kind {
            BtMsgKind::CHOKE => Ok((BtMsg::Choke, 5)),
            BtMsgKind::UNCHOKE => Ok((BtMsg::Unchoke, 5)),
            BtMsgKind::INTERESTED => Ok((BtMsg::Interested, 5)),
            BtMsgKind::UNINTERESTED => Ok((BtMsg::Uninterested, 5)),
            BtMsgKind::HAVE => {
                if d.len() < 9 {
                    return Err(eof);
                }
                Ok((BtMsg::HavePiece { idx: read_u32(d, 5) }, 9))
            },
            BtMsgKind::BITFIELD => {
                let n: usize = (len - 1) as usize;
                if d.len() - 5 < n {
                    return Err(eof);
                }
                let bitfield = slice_to_vec(slice_subrange(d, 5, 5 + n));
                Ok((BtMsg::Bitfield { bitfield }, 5 + n))
            },
            BtMsgKind::REQUEST => {
                if d.len() < 17 {
                    return Err(eof);
                }
                let (piece_idx, begin, length) = (
                    read_u32(d, 5),
                    read_u32(d, 9),
                    read_u32(d, 13),
                );
                Ok((BtMsg::BlockRequest { piece_idx, begin, length }, 17))
            },
            BtMsgKind::PIECE => {
                if d.len() < 13 {
                    return Err(eof);
                }
                let (piece_idx, begin) = (read_u32(d, 5), read_u32(d, 9));
                let n: usize = (len - 9) as usize;
                if d.len() - 13 < n {
                    return Err(eof);
                }
                let data = slice_to_vec(slice_subrange(d, 13, 13 + n));
                Ok((BtMsg::BlockResponse { piece_idx, begin, data }, 13 + n))
            },
            BtMsgKind::CANCEL => {
                if d.len() < 17 {
                    return Err(eof);
                }
                let (piece_idx, begin, length) = (
                    read_u32(d, 5),
                    read_u32(d, 9),
                    read_u32(d, 13),
                );
                Ok((BtMsg::CancelBlockRequest { piece_idx, begin, length }, 17))
            },
        }
    }

    /// The length that the message is announced with, and its kind.
    pub fn wire_len_and_msgkind(&self) -> (r: (u32, Option<BtMsgKind>))
        requires
            msg_len(self@) <= u32::MAX,
        ensures
            r.0 == msg_len(self@),
            r.1 == msg_kind(self@),
    {
        match self {
            BtMsg::KeepAlive => (0, None),
            BtMsg::Choke => (1, Some(BtMsgKind::CHOKE)),
            BtMsg::Unchoke => (1, Some(BtMsgKind::UNCHOKE)),
            BtMsg::Interested => (1, Some(BtMsgKind::INTERESTED)),
            BtMsg::Uninterested => (1, Some(BtMsgKind::UNINTERESTED)),
            BtMsg::HavePiece { .. } => (5, Some(BtMsgKind::HAVE)),
            BtMsg::BlockRequest { .. } => (13, Some(BtMsgKind::REQUEST)),
            BtMsg::CancelBlockRequest { .. } => (13, Some(BtMsgKind::CANCEL)),
            BtMsg::Bitfield { bitfield } => (
                1 + (bitfield.len() as u32),
                Some(BtMsgKind::BITFIELD),
            ),
            BtMsg::BlockResponse { data, .. } => (9 + (data.len() as u32), Some(BtMsgKind::PIECE)),
        }
    }

    /// Appends the message to what is to be sent.
    pub fn serialize(&self, data_stream: &mut Vec<u8>)
        requires
            msg_len(self@) <= u32::MAX,
        ensures
            final(data_stream)@ == old(data_stream)@ + wire(self@),
    {
        let (len, kind) = self.wire_len_and_msgkind();
        write_u32(data_stream, len);
        match kind {
            None => {},
            Some(kind) => {
                data_stream.push(kind.to_u8());
            },
        }
        let ghost head = data_stream@;
        match self {
            BtMsg::KeepAlive | BtMsg::Choke | BtMsg::Unchoke | BtMsg::Interested
            | BtMsg::Uninterested => {},
            BtMsg::HavePiece { idx } => {
                write_u32(data_stream, *idx);
            },
            BtMsg::BlockRequest { piece_idx, begin, length }
            | BtMsg::CancelBlockRequest { piece_idx, begin, length } => {
                write_u32(data_stream, *piece_idx);
                write_u32(data_stream, *begin);
                write_u32(data_stream, *length);
            },
            BtMsg::Bitfield { bitfield } => {
                append_bytes(data_stream, bitfield.as_slice());
            },
            BtMsg::BlockResponse { piece_idx, begin, data } => {
                write_u32(data_stream, *piece_idx);
                write_u32(data_stream, *begin);
                append_bytes(data_stream, data.as_slice());
            },
        }
        proof {
            assert(data_stream@ =~= head + payload(self@));
            assert(data_stream@ =~= old(data_stream)@ + wire(self@));
        }
    }

    /// How many bytes are to be read next, when `read` is what has been read of
    /// a message: none where it is complete or cannot be one.
    pub fn bytes_missing(read: &[u8]) -> (r: usize)
        ensures
            r == missing(read@),
    {
        if read.len() < 4 {
            return 4 - read.len();
        }
        let len = read_u32(read, 0);
        if len == 0 {
            return 0;
        }
        if read.len() < 5 {
            return 1;
        }
        let rest: usize = match BtMsgKind::from_u8(read[4]) {
            Some(BtMsgKind::HAVE) => 4,
            Some(BtMsgKind::BITFIELD) => (len - 1) as usize,
            Some(BtMsgKind::REQUEST) | Some(BtMsgKind::CANCEL) => 12,
            Some(BtMsgKind::PIECE) => if read.len() < 13 {
                8
            } else {
                (len - 1) as usize
            },
            _ => 0,
        };
        if read.len() - 5 < rest {
            rest - (read.len() - 5)
        } else {
            0
        }
    }

    /// Whether a block is announced in fewer bytes than its own header takes:
    /// such a message cannot be read.
    pub fn is_short_piece(read: &[u8]) -> (r: bool)
        ensures
            r == short_piece(read@),
    {
        if read.len() < 13 {
            return false;
        }
        let len = read_u32(read, 0);
        0 < len && len < 9 && read[4] == 7
    }
}

/// A handshake for the torrent with this hash: the template, with the hash in
/// its place.
pub open spec fn handshake(template: Seq<u8>, info_hash: Seq<u8>) -> Seq<u8> {
    template.take(28) + info_hash + template.skip(48)
}

/// What is said to a peer whose stream begins with `d`. The eight reserved
/// bytes are not looked at, nor is the peer's name where none is expected.
pub open spec fn handshake_verdict(
    template: Seq<u8>,
    info_hash: Seq<u8>,
    peer_id: Option<Seq<u8>>,
    d: Seq<u8>,
) -> Result<(), HandshakeError> {
    if d.len() < HANDSHAKE_LEN {
        Err(HandshakeError::IOError(StreamError::UnexpectedEof))
    } else if d.take(20) != template.take(20) {
        Err(HandshakeError::WrongProtocol)
    } else if d.subrange(28, 48) != info_hash {
        Err(HandshakeError::WrongInfoHash)
    } else if peer_id is Some && d.subrange(48, 68) != peer_id->0 {
        Err(HandshakeError::WrongPeerId)
    } else {
        Ok(())
    }
}

/// The bytes of an optional byte string.
pub open spec fn optional_bytes(s: Option<&[u8]>) -> Option<Seq<u8>> {
    match s {
        Some(s) => Some(s@),
        None => None,
    }
}

/// Appends a handshake to what is to be sent. The template is a whole
/// handshake, whose hash is replaced.
pub fn send_handshake(template: &[u8], info_hash: &[u8], data_stream: &mut Vec<u8>)
    requires
        template@.len() == HANDSHAKE_LEN,
        info_hash@.len() == 20,
    ensures
        final(data_stream)@ == old(data_stream)@ + handshake(template@, info_hash@),
{
    append_bytes(data_stream, slice_subrange(template, 0, 28));
    append_bytes(data_stream, info_hash);
    append_bytes(data_stream, slice_subrange(template, 48, HANDSHAKE_LEN));
    assert(data_stream@ =~= old(data_stream)@ + handshake(template@, info_hash@));
}

/// Reads the handshake that `data_stream` begins with, and checks that it
/// answers ours.
pub fn recv_and_check_handshake(
    template: &[u8],
    expected_info_hash: &[u8],
    expected_peer_id: Option<&[u8]>,
    data_stream: &[u8],
) -> (r: Result<(), HandshakeError>)
    requires
        template@.len() == HANDSHAKE_LEN,
        expected_info_hash@.len() == 20,
    ensures
        r == handshake_verdict(
            template@,
            expected_info_hash@,
            optional_bytes(expected_peer_id),
            data_stream@,
        ),
        r is Ok <==> {
            &&& data_stream@.len() >= 68
            &&& data_stream@.take(20) == template@.take(20)
            &&& data_stream@.subrange(28, 48) == expected_info_hash@
            &&& expected_peer_id matches Some(id) ==> data_stream@.subrange(48, 68) == id@
        },
{
    if data_stream.len() < HANDSHAKE_LEN {
        return Err(HandshakeError::IOError(StreamError::UnexpectedEof));
    }
    if !bytes_equal(slice_subrange(template, 0, 20), slice_subrange(data_stream, 0, 20)) {
        return Err(HandshakeError::WrongProtocol);
    }
    if !bytes_equal(expected_info_hash, slice_subrange(data_stream, 28, 48)) {
        return Err(HandshakeError::WrongInfoHash);
    }
    match expected_peer_id {
        Some(peer_id) => {
            if !bytes_equal(peer_id, slice_subrange(data_stream, 48, HANDSHAKE_LEN)) {
                return Err(HandshakeError::WrongPeerId);
            }
        },
        None => {},
    }
    Ok(())
}

/// A handshake that was sent is accepted by a peer that has the same protocol
/// and torrent, and that expects either nobody or the sender.
pub proof fn lemma_handshake_accepted(
    template: Seq<u8>,
    info_hash: Seq<u8>,
    peer_id: Option<Seq<u8>>,
    tail: Seq<u8>,
)
    requires
        template.len() == HANDSHAKE_LEN,
        info_hash.len() == 20,
        peer_id is Some ==> peer_id->0 == template.skip(48),
    ensures
        handshake(template, info_hash).len() == HANDSHAKE_LEN,
        handshake_verdict(template, info_hash, peer_id, handshake(template, info_hash) + tail)
            == Ok::<(), HandshakeError>(()),
{
    let d = handshake(template, info_hash) + tail;
    assert(d.take(20) =~= template.take(20));
    assert(d.subrange(28, 48) =~= info_hash);
    assert(d.subrange(48, 68) =~= template.skip(48));
}

/// A handshake for one torrent is not accepted for another.
pub proof fn lemma_handshake_tells_torrents_apart(
    template: Seq<u8>,
    sent_hash: Seq<u8>,
    own_hash: Seq<u8>,
    peer_id: Option<Seq<u8>>,
    tail: Seq<u8>,
)
    requires
        template.len() == HANDSHAKE_LEN,
        sent_hash.len() == 20,
        own_hash.len() == 20,
        sent_hash != own_hash,
    ensures
        handshake_verdict(template, own_hash, peer_id, handshake(template, sent_hash) + tail)
            == Err::<(), HandshakeError>(HandshakeError::WrongInfoHash),
{
    let d = handshake(template, sent_hash) + tail;
    assert(d.take(20) =~= template.take(20));
    assert(d.subrange(28, 48) =~= sent_hash);
}

/// The four bytes of a number are read back as that number.
pub proof fn lemma_be_round_trip(x: u32, before: Seq<u8>, after: Seq<u8>)
    ensures
        be_bytes(x).len() == 4,
        be_value(before + be_bytes(x) + after, before.len() as int) == x,
{
    let s = before + be_bytes(x) + after;
    let at = before.len() as int;
    assert(s[at] == be_bytes(x)[0]);
    assert(s[at + 1] == be_bytes(x)[1]);
    assert(s[at + 2] == be_bytes(x)[2]);
    assert(s[at + 3] == be_bytes(x)[3]);
    assert((x / 0x100_0000) * 0x100_0000 + ((x / 0x1_0000) % 0x100) * 0x1_0000 + ((x / 0x100)
        % 0x100) * 0x100 + x % 0x100 == x && x / 0x100_0000 < 0x100) by (bit_vector);
}

/// The number that stands somewhere is written as the four bytes there.
pub proof fn lemma_be_value_bytes(s: Seq<u8>, at: int)
    requires
        0 <= at <= s.len() - 4,
    ensures
        be_bytes(be_value(s, at)) == s.subrange(at, at + 4),
{
    let x = be_value(s, at);
    let (a, b, c, d) = (s[at], s[at + 1], s[at + 2], s[at + 3]);
    assert(x / 0x100_0000 == a && (x / 0x1_0000) % 0x100 == b && (x / 0x100) % 0x100 == c && x
        % 0x100 == d) by (bit_vector)
        requires
            x == a * 0x100_0000 + b * 0x1_0000 + c * 0x100 + d,
    ;
    assert(be_bytes(x) =~= seq![a, b, c, d]);
    assert(s.subrange(at, at + 4) =~= seq![a, b, c, d]);
}

/// What a message carries can be announced: its length fits.
pub open spec fn announceable(msg: Msg) -> bool {
    match msg {
        Msg::Bitfield { bitfield } => bitfield.len() + 1 <= u32::MAX,
        Msg::BlockResponse { data, .. } => data.len() + 9 <= u32::MAX,
        _ => true,
    }
}

/// A message takes four bytes on the wire beyond the length it is announced
/// with.
pub proof fn lemma_wire_len(msg: Msg)
    requires
        announceable(msg),
    ensures
        wire(msg).len() == 4 + msg_len(msg),
        msg_len(msg) <= u32::MAX,
{
}

/// What stands in a row after a head is found at its place.
proof fn lemma_numbers_in_row(head: Seq<u8>, numbers: Seq<u32>, tail: Seq<u8>, d: Seq<u8>)
    requires
        d == head + in_row(numbers) + tail,
    ensures
        in_row(numbers).len() == 4 * numbers.len(),
        forall|i: int|
            0 <= i < numbers.len() ==> be_value(d, head.len() + 4 * i) == #[trigger] numbers[i],
    decreases numbers.len(),
{
    if numbers.len() > 0 {
        let first = numbers[0];
        let rest = numbers.skip(1);
        lemma_be_round_trip(first, head, in_row(rest) + tail);
        assert(d =~= head + be_bytes(first) + (in_row(rest) + tail));
        assert(d =~= head + be_bytes(first) + in_row(rest) + tail);
        lemma_numbers_in_row(head + be_bytes(first), rest, tail, d);
        assert forall|i: int| 0 <= i < numbers.len() implies be_value(d, head.len() + 4 * i)
            == #[trigger] numbers[i] by {
            if i > 0 {
                assert(rest[i - 1] == numbers[i]);
            }
        }
    }
}

/// The bytes of the numbers one after the other.
spec fn in_row(numbers: Seq<u32>) -> Seq<u8>
    decreases numbers.len(),
{
    if numbers.len() == 0 {
        Seq::empty()
    } else {
        be_bytes(numbers[0]) + in_row(numbers.skip(1))
    }
}

/// The numbers that a message carries after its kind.
spec fn numbers_of(msg: Msg) -> Seq<u32> {
    match msg {
        Msg::HavePiece { idx } => seq![idx],
        Msg::BlockRequest { piece_idx, begin, length }
        | Msg::CancelBlockRequest { piece_idx, begin, length } => seq![piece_idx, begin, length],
        Msg::BlockResponse { piece_idx, begin, .. } => seq![piece_idx, begin],
        _ => seq![],
    }
}

/// The bytes that a message carries after its numbers.
spec fn rest_of(msg: Msg) -> Seq<u8> {
    match msg {
        Msg::Bitfield { bitfield } => bitfield,
        Msg::BlockResponse { data, .. } => data,
        _ => seq![],
    }
}

proof fn lemma_payload(msg: Msg)
    ensures
        payload(msg) == in_row(numbers_of(msg)) + rest_of(msg),
{
    let numbers = numbers_of(msg);
    reveal_with_fuel(in_row, 4);
    match msg {
        Msg::HavePiece { .. } => {
            assert(numbers.skip(1) =~= seq![]);
        },
        Msg::BlockRequest { piece_idx, begin, length }
        | Msg::CancelBlockRequest { piece_idx, begin, length } => {
            assert(numbers.skip(1) =~= seq![begin, length]);
            assert(numbers.skip(1).skip(1) =~= seq![length]);
            assert(numbers.skip(1).skip(1).skip(1) =~= seq![]);
        },
        Msg::BlockResponse { piece_idx, begin, .. } => {
            assert(numbers.skip(1) =~= seq![begin]);
            assert(numbers.skip(1).skip(1) =~= seq![]);
        },
        _ => {},
    }
    assert(payload(msg) =~= in_row(numbers) + rest_of(msg));
}

/// What was serialized is read back as the same message, whatever follows it,
/// and exactly its own bytes are taken.
pub proof fn lemma_read_back(msg: Msg, tail: Seq<u8>)
    requires
        announceable(msg),
    ensures
        !short_piece(wire(msg) + tail),
        read_msg(wire(msg) + tail) == Ok::<(Msg, int), BtPeerMsgDecodeError>(
            (msg, wire(msg).len() as int),
        ),
{
    lemma_wire_len(msg);
    let d = wire(msg) + tail;
    let len = msg_len(msg) as u32;
    assert(be_value(d, 0) == len) by {
        lemma_be_round_trip(len, Seq::empty(), d.skip(4));
        assert(d =~= Seq::<u8>::empty() + be_bytes(len) + d.skip(4));
    }
    if msg_kind(msg) is Some {
        let head = be_bytes(len) + seq![kind_number(msg_kind(msg)->0)];
        let numbers = numbers_of(msg);
        lemma_payload(msg);
        assert(d =~= head + in_row(numbers) + (rest_of(msg) + tail));
        lemma_numbers_in_row(head, numbers, rest_of(msg) + tail, d);
        assert(head.len() == 5);
        let end: int = 5 + 4 * numbers.len() as int;
        assert(d.subrange(end, end + rest_of(msg).len()) =~= rest_of(msg));
        assert(d[4] == kind_number(msg_kind(msg)->0));
        if numbers.len() > 0 {
            assert(be_value(d, 5) == numbers[0]);
        }
        if numbers.len() > 1 {
            assert(be_value(d, 9) == numbers[1]);
        }
        if numbers.len() > 2 {
            assert(be_value(d, 13) == numbers[2]);
        }
    }
}

/// No two messages look the same on the wire.
pub proof fn lemma_wire_injective(a: Msg, b: Msg)
    requires
        announceable(a),
        announceable(b),
        wire(a) == wire(b),
    ensures
        a == b,
{
    lemma_read_back(a, Seq::empty());
    lemma_read_back(b, Seq::empty());
}

/// A message that was read is serialized as the bytes it was read from,
/// provided that these announced the length that its kind has. (The length
/// announced for a kind of fixed length is read and not looked at.)
pub proof fn lemma_write_back(d: Seq<u8>)
    requires
        !short_piece(d),
        read_msg(d) is Ok,
        be_value(d, 0) == msg_len(read_msg(d)->Ok_0.0),
    ensures
        announceable(read_msg(d)->Ok_0.0),
        wire(read_msg(d)->Ok_0.0) == d.take(read_msg(d)->Ok_0.1),
{
    let (msg, used) = read_msg(d)->Ok_0;
    lemma_be_value_bytes(d, 0);
    match msg {
        Msg::HavePiece { .. } => {
            lemma_be_value_bytes(d, 5);
        },
        Msg::BlockRequest { .. } | Msg::CancelBlockRequest { .. } => {
            lemma_be_value_bytes(d, 5);
            lemma_be_value_bytes(d, 9);
            lemma_be_value_bytes(d, 13);
        },
        Msg::BlockResponse { .. } => {
            lemma_be_value_bytes(d, 5);
            lemma_be_value_bytes(d, 9);
        },
        _ => {},
    }
    assert(wire(msg) =~= d.take(used));
}

/// A message is read as long as bytes are missing: until then it is cut short,
/// afterwards it is not.
pub proof fn lemma_missing(d: Seq<u8>)
    requires
        !short_piece(d),
    ensures
        missing(d) > 0 <==> read_msg(d) == Err::<(Msg, int), BtPeerMsgDecodeError>(
            BtPeerMsgDecodeError::IOError(StreamError::UnexpectedEof),
        ),
{
}

/// Who reads just what is missing never reads past the end of a message.
pub proof fn lemma_missing_is_not_too_much(d: Seq<u8>, more: Seq<u8>)
    requires
        0 < more.len() <= missing(d),
        !short_piece(d + more),
        read_msg(d + more) is Ok,
    ensures
        more.len() == missing(d),
        read_msg(d + more)->Ok_0.1 == (d + more).len(),
{
    let e = d + more;
    if d.len() >= 4 {
        assert(be_value(e, 0) == be_value(d, 0));
    }
    if d.len() >= 5 {
        assert(e[4] == d[4]);
    }
}

/// What follows a message has no part in how it is read.
pub proof fn lemma_read_prefix(d: Seq<u8>, tail: Seq<u8>)
    requires
        !short_piece(d),
        read_msg(d) != Err::<(Msg, int), BtPeerMsgDecodeError>(
            BtPeerMsgDecodeError::IOError(StreamError::UnexpectedEof),
        ),
    ensures
        read_msg(d + tail) == read_msg(d),
{
    let e = d + tail;
    assert(forall|i: int| 0 <= i < d.len() ==> e[i] == d[i]);
    match read_msg(d) {
        Ok((Msg::Bitfield { bitfield }, used)) => {
            assert(e.subrange(5, used) =~= bitfield);
        },
        Ok((Msg::BlockResponse { data, .. }, used)) => {
            assert(e.subrange(13, used) =~= data);
        },
        _ => {},
    }
}

} // verus!
