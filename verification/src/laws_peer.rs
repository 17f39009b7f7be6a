//! A peer step by step: what each order and each message changes, and what is
//! asked for next.

use vstd::prelude::*;

use crate::blocks::{
    block_count, block_range, cut, in_order, joined_data, lemma_put_together, Block, BlockReq,
    Flight,
};
use crate::btmsg::{BtMsg, Msg};
use crate::laws_disk::{lemma_block_is, lemma_number_of_blocks};
use crate::outside::sha1_digest;
use crate::peer::{
    acceptable, askable, can_go_on, checked, first_open, flight_with, flights_of, fresh_peer,
    gone_on, is_complete, lemma_first_open, lemma_flight_with, message_of, messages_of,
    next_request, outcome_of, received, requests_for, with_block, with_order, with_piece,
    without_piece, HashMismatch, Peer, PeerState, Reaction,
};
use crate::torrent::{lemma_parts_in, Piece};

verus! {

/// What is stored of a peer stands for what is known and planned about it.
pub proof fn lemma_stored_peer(peer: PeerState)
    ensures
        peer@.queue == peer.piece_download_queue@,
        peer@.flights == flights_of(peer.dl_pieces_in_flight@),
        flights_of(peer.dl_pieces_in_flight@).len() == peer.dl_pieces_in_flight@.len(),
        forall|i: int|
            0 <= i < peer.dl_pieces_in_flight@.len() ==> #[trigger] flights_of(
                peer.dl_pieces_in_flight@,
            )[i] == peer.dl_pieces_in_flight@[i]@,
        peer@.blocks_in_flight == peer.blocks_in_flight,
        peer@.am_choked == peer.am_choked,
        peer@.peer_is_choked == peer.peer_is_choked,
        peer@.am_interested == peer.am_interested,
        peer@.peer_is_interested == peer.peer_is_interested,
{
}

/// A stored outcome stands for the finished piece and the request that it holds.
pub proof fn lemma_stored_outcome(r: Result<Reaction, HashMismatch>)
    ensures
        match r {
            Err(e) => outcome_of(r) == Err::<(Option<Flight>, Option<Msg>), _>(e),
            Ok(reaction) => {
                &&& outcome_of(r) matches Ok((finished, request))
                &&& match reaction.finished {
                    Some(piece) => finished == Some(piece@),
                    None => finished is None,
                }
                &&& match reaction.request {
                    Some(msg) => request == Some(msg@),
                    None => request is None,
                }
            },
        },
{
}

/// Stored messages stand for the messages, one for one.
pub proof fn lemma_stored_messages(msgs: Seq<BtMsg>, msg: Option<BtMsg>)
    ensures
        messages_of(msgs).len() == msgs.len(),
        forall|i: int| 0 <= i < msgs.len() ==> #[trigger] messages_of(msgs)[i] == msgs[i]@,
        match msg {
            Some(m) => message_of(msg) == Some(m@),
            None => message_of(msg) is None,
        },
{
}

/// At first nothing waits and nothing is in flight, each side is choked, and
/// neither is interested.
pub proof fn lemma_fresh_is()
    ensures
        fresh_peer().queue.len() == 0,
        fresh_peer().flights.len() == 0,
        fresh_peer().blocks_in_flight == 0,
        fresh_peer().am_choked,
        fresh_peer().peer_is_choked,
        !fresh_peer().am_interested,
        !fresh_peer().peer_is_interested,
{
}

/// Two peers have the same flags.
pub open spec fn same_flags(a: Peer, b: Peer) -> bool {
    &&& a.am_choked == b.am_choked
    &&& a.peer_is_choked == b.peer_is_choked
    &&& a.am_interested == b.am_interested
    &&& a.peer_is_interested == b.peer_is_interested
}

/// Where something is left of a piece in flight, the last of it is asked for, of
/// the first such piece; it is then no longer left, and nothing else changes.
pub proof fn lemma_asks_for_what_is_left(peer: Peer, i: int)
    requires
        0 <= i < peer.flights.len(),
        peer.flights[i].unasked.len() > 0,
        forall|j: int| 0 <= j < i ==> (#[trigger] peer.flights[j]).unasked.len() == 0,
    ensures
        ({
            let (after, request) = gone_on(peer);
            let flight = peer.flights[i];
            let block = flight.unasked[flight.unasked.len() - 1];
            &&& request == Some(
                Msg::BlockRequest {
                    piece_idx: flight.piece.piece_idx,
                    begin: block.begin,
                    length: block.length,
                },
            )
            &&& next_request(peer.queue, peer.flights).0 == Some(
                (flight.piece.piece_idx, block.begin, block.length),
            )
            &&& next_request(peer.queue, peer.flights).1 == after.queue
            &&& next_request(peer.queue, peer.flights).2 == after.flights
            &&& after.queue == peer.queue
            &&& after.flights.len() == peer.flights.len()
            &&& after.flights[i].piece == flight.piece
            &&& after.flights[i].ready == flight.ready
            &&& after.flights[i].unasked == flight.unasked.drop_last()
            &&& forall|j: int|
                0 <= j < peer.flights.len() && j != i ==> #[trigger] after.flights[j]
                    == peer.flights[j]
            &&& after.blocks_in_flight == peer.blocks_in_flight
            &&& same_flags(after, peer)
        }),
{
    lemma_first_open(peer.flights);
    match first_open(peer.flights) {
        Some(k) => {
            if k < i {
                assert(peer.flights[k].unasked.len() == 0);
            } else if i < k {
                assert(peer.flights[i].unasked.len() == 0);
            }
        },
        None => {
            assert(peer.flights[i].unasked.len() == 0);
        },
    }
}

/// The blocks of a piece of this length from the `from`-th to the last, each at its
/// number times 16 KiB and 16 KiB long, or as long as what is left of the piece.
pub open spec fn rest_of_piece(blocks: Seq<BlockReq>, piece_len: u32, from: int) -> bool {
    &&& piece_len <= (from + blocks.len()) * 0x4000 < piece_len + 0x4000
    &&& forall|k: int|
        0 <= k < blocks.len() ==> {
            &&& (#[trigger] blocks[k]).begin == (from + k) * 0x4000
            &&& blocks[k].length == (if piece_len - (from + k) * 0x4000 < 0x4000 {
                piece_len - (from + k) * 0x4000
            } else {
                0x4000
            })
        }
}

proof fn lemma_range_is_rest(piece: Piece, from: int)
    requires
        0 <= from <= block_count(piece),
    ensures
        rest_of_piece(
            block_range(piece.piece_len, from, block_count(piece)),
            piece.piece_len,
            from,
        ),
{
    let n = block_count(piece);
    let blocks = block_range(piece.piece_len, from, n);
    lemma_number_of_blocks(piece, n);
    assert forall|k: int| 0 <= k < blocks.len() implies {
        &&& (#[trigger] blocks[k]).begin == (from + k) * 0x4000
        &&& blocks[k].length == (if piece.piece_len - (from + k) * 0x4000 < 0x4000 {
            piece.piece_len - (from + k) * 0x4000
        } else {
            0x4000
        })
    } by {
        assert((from + k) * 0x4000 < piece.piece_len);
        lemma_block_is(piece.piece_len, from + k);
    }
}

/// Where nothing is left of any piece in flight, the first piece in the queue is
/// begun: its first block is asked for, and all others are left of it.
pub proof fn lemma_begins_the_next_piece(peer: Peer)
    requires
        forall|j: int|
            0 <= j < peer.flights.len() ==> (#[trigger] peer.flights[j]).unasked.len() == 0,
        peer.queue.len() > 0,
        peer.queue[0].piece_len > 0,
    ensures
        ({
            let (after, request) = gone_on(peer);
            let piece = peer.queue[0];
            let n = peer.flights.len() as int;
            let length: u32 = if piece.piece_len < 0x4000 {
                piece.piece_len
            } else {
                0x4000
            };
            &&& request == Some(
                Msg::BlockRequest { piece_idx: piece.piece_idx, begin: 0, length },
            )
            &&& next_request(peer.queue, peer.flights).0 == Some((piece.piece_idx, 0u32, length))
            &&& next_request(peer.queue, peer.flights).1 == after.queue
            &&& next_request(peer.queue, peer.flights).2 == after.flights
            &&& after.queue == peer.queue.subrange(1, peer.queue.len() as int)
            &&& after.flights.len() == n + 1
            &&& forall|j: int| 0 <= j < n ==> #[trigger] after.flights[j] == peer.flights[j]
            &&& after.flights[n].piece == piece
            &&& after.flights[n].ready.len() == 0
            &&& rest_of_piece(after.flights[n].unasked, piece.piece_len, 1)
            &&& after.blocks_in_flight == peer.blocks_in_flight
            &&& same_flags(after, peer)
        }),
{
    let piece = peer.queue[0];
    lemma_first_open(peer.flights);
    if let Some(i) = first_open(peer.flights) {
        assert(peer.flights[i].unasked.len() == 0);
    }
    lemma_parts_in(piece.piece_len as int, 0x4000);
    lemma_block_is(piece.piece_len, 0);
    lemma_range_is_rest(piece, 1);
}

/// Where nothing is left of any piece in flight and no piece waits, nothing is
/// asked for, and one block less is on its way.
pub proof fn lemma_asks_for_nothing(peer: Peer)
    requires
        forall|j: int|
            0 <= j < peer.flights.len() ==> (#[trigger] peer.flights[j]).unasked.len() == 0,
        peer.queue.len() == 0,
    ensures
        ({
            let (after, request) = gone_on(peer);
            &&& request is None
            &&& next_request(peer.queue, peer.flights).0 is None
            &&& next_request(peer.queue, peer.flights).1 == peer.queue
            &&& next_request(peer.queue, peer.flights).2 == peer.flights
            &&& after.queue == peer.queue
            &&& after.flights == peer.flights
            &&& after.blocks_in_flight == peer.blocks_in_flight - 1
            &&& same_flags(after, peer)
        }),
{
    lemma_first_open(peer.flights);
    if let Some(i) = first_open(peer.flights) {
        assert(peer.flights[i].unasked.len() == 0);
    }
}

/// A piece that is ordered while fewer than ten blocks are on their way is in
/// flight at once. As many of its blocks are asked for, from the first on, as it
/// has or as there is room up to ten; the others are left, and nothing else
/// changes.
pub proof fn lemma_order_with_room(peer: Peer, piece: Piece, k: int)
    requires
        0 <= peer.blocks_in_flight < 10,
        0 <= k <= 10 - peer.blocks_in_flight,
        k < 10 - peer.blocks_in_flight ==> piece.piece_len <= k * 0x4000 < piece.piece_len
            + 0x4000,
        k == 10 - peer.blocks_in_flight ==> (k - 1) * 0x4000 < piece.piece_len,
    ensures
        ({
            let after = with_piece(peer, piece);
            let requests = requests_for(piece, askable(peer, piece));
            let n = peer.flights.len() as int;
            &&& requests.len() == k
            &&& forall|i: int|
                0 <= i < k ==> {
                    &&& #[trigger] requests[i] matches Msg::BlockRequest {
                        piece_idx,
                        begin,
                        length,
                    }
                    &&& piece_idx == piece.piece_idx
                    &&& begin == i * 0x4000
                    &&& length == (if piece.piece_len - begin < 0x4000 {
                        piece.piece_len - begin
                    } else {
                        0x4000
                    })
                }
            &&& after.blocks_in_flight == peer.blocks_in_flight + k
            &&& after.queue == peer.queue
            &&& after.flights.len() == n + 1
            &&& forall|j: int| 0 <= j < n ==> #[trigger] after.flights[j] == peer.flights[j]
            &&& after.flights[n].piece == piece
            &&& after.flights[n].ready.len() == 0
            &&& rest_of_piece(after.flights[n].unasked, piece.piece_len, k)
            &&& same_flags(after, peer)
        }),
{
    let n = block_count(piece);
    let requests = requests_for(piece, askable(peer, piece));
    lemma_number_of_blocks(piece, n);
    lemma_number_of_blocks(piece, k);
    assert(askable(peer, piece) == k);
    lemma_range_is_rest(piece, k);
    assert forall|i: int| 0 <= i < k implies {
        &&& #[trigger] requests[i] matches Msg::BlockRequest { piece_idx, begin, length }
        &&& piece_idx == piece.piece_idx
        &&& begin == i * 0x4000
        &&& length == (if piece.piece_len - begin < 0x4000 {
            piece.piece_len - begin
        } else {
            0x4000
        })
    } by {
        assert(i * 0x4000 < piece.piece_len);
        lemma_block_is(piece.piece_len, i);
    }
}

/// A piece that is ordered while ten blocks are on their way waits behind all
/// others; nothing is asked for, and nothing else changes.
pub proof fn lemma_order_without_room(peer: Peer, piece: Piece)
    requires
        peer.blocks_in_flight >= 10,
    ensures
        requests_for(piece, askable(peer, piece)).len() == 0,
        with_piece(peer, piece).queue == peer.queue.push(piece),
        with_piece(peer, piece).flights == peer.flights,
        with_piece(peer, piece).blocks_in_flight == peer.blocks_in_flight,
        same_flags(with_piece(peer, piece), peer),
{
}

/// A hash decides of a piece: where it is the published one, the piece is finished,
/// however many blocks it has, and where it is any other the piece is not, and
/// nothing changes.
pub proof fn lemma_hash_decides(peer: Peer, pos: int, computed: Seq<u8>)
    requires
        0 <= pos < peer.flights.len(),
    ensures
        ({
            let (after, outcome) = checked(peer, pos, computed);
            let flight = peer.flights[pos];
            &&& flight.piece.piece_hash@ == computed ==> {
                &&& outcome matches Ok((Some(done), _))
                &&& done == flight
                &&& checked(peer, pos, computed).0 == gone_on(without(peer, pos)).0
                &&& outcome->Ok_0.1 == gone_on(without(peer, pos)).1
            }
            &&& flight.piece.piece_hash@ != computed ==> {
                &&& outcome is Err
                &&& after == peer
            }
        }),
{
    assert(without_piece(peer, pos).flights =~= without(peer, pos).flights);
    assert(without_piece(peer, pos) == without(peer, pos));
}

/// The peer without the piece at `pos`: the last one takes its place, no other
/// moves, and nothing else changes.
pub open spec fn without(peer: Peer, pos: int) -> Peer {
    let n = (peer.flights.len() - 1) as nat;
    Peer {
        queue: peer.queue,
        flights: Seq::new(
            n,
            |i: int|
                if i == pos {
                    peer.flights[n as int]
                } else {
                    peer.flights[i]
                },
        ),
        blocks_in_flight: peer.blocks_in_flight,
        am_choked: peer.am_choked,
        peer_is_choked: peer.peer_is_choked,
        am_interested: peer.am_interested,
        peer_is_interested: peer.peer_is_interested,
    }
}

/// The peer with these blocks of the piece at `pos`, and nothing else changed.
pub open spec fn holding(peer: Peer, pos: int, ready: Seq<Block>) -> Peer {
    let flight = peer.flights[pos];
    Peer {
        queue: peer.queue,
        flights: peer.flights.update(
            pos,
            Flight { piece: flight.piece, ready, unasked: flight.unasked },
        ),
        blocks_in_flight: peer.blocks_in_flight,
        am_choked: peer.am_choked,
        peer_is_choked: peer.peer_is_choked,
        am_interested: peer.am_interested,
        peer_is_interested: peer.peer_is_interested,
    }
}

/// A block that comes goes to the first piece in flight with its number. While
/// blocks of 16 KiB would not make the piece up, or would be too many, that is
/// all, and the next block is asked for. When they just do, the piece is finished
/// if and only if the SHA-1 of the data of its blocks, in order of their beginning,
/// is the hash that was published; then it leaves the pieces in flight and the next
/// block is asked for. Else there is a mismatch, and the piece stays in flight.
pub proof fn lemma_block_is_received(
    peer: Peer,
    piece_idx: u32,
    begin: u32,
    data: Seq<u8>,
    pos: int,
)
    requires
        0 <= pos < peer.flights.len(),
        peer.flights[pos].piece.piece_idx == piece_idx,
        forall|j: int|
            0 <= j < pos ==> (#[trigger] peer.flights[j]).piece.piece_idx != piece_idx,
    ensures
        ({
            let (after, outcome) = received(
                peer,
                Msg::BlockResponse { piece_idx, begin, data },
            );
            let flight = peer.flights[pos];
            let piece = flight.piece;
            let ready = flight.ready.push(Block { begin, data });
            let n = ready.len();
            let complete = piece.piece_len <= n * 0x4000 < piece.piece_len + 0x4000;
            let right = sha1_digest(joined_data(in_order(ready))) == piece.piece_hash@;
            &&& !complete ==> {
                &&& outcome matches Ok((finished, request))
                &&& finished is None
                &&& (after, request) == gone_on(holding(peer, pos, ready))
            }
            &&& complete && right ==> {
                &&& outcome matches Ok((Some(done), request))
                &&& done.piece == piece
                &&& done.ready == in_order(ready)
                &&& done.unasked == flight.unasked
                &&& (after, request) == gone_on(without(peer, pos))
            }
            &&& complete && !right ==> {
                &&& outcome == Err::<(Option<Flight>, Option<Msg>), _>(HashMismatch)
                &&& after == holding(peer, pos, in_order(ready))
            }
            &&& outcome is Err ==> complete && !right
        }),
{
    let msg = Msg::BlockResponse { piece_idx, begin, data };
    let flight = peer.flights[pos];
    let ready = flight.ready.push(Block { begin, data });
    lemma_flight_with(peer.flights, piece_idx);
    lemma_first_flight(peer.flights, piece_idx, pos);
    lemma_number_of_blocks(flight.piece, ready.len() as int);
    let kept = with_block(peer, pos, Block { begin, data });
    assert(kept == holding(peer, pos, ready));
    let sorted = with_order(kept, pos);
    assert(sorted.flights =~= holding(peer, pos, in_order(ready)).flights);
    assert(sorted == holding(peer, pos, in_order(ready)));
    assert(without_piece(sorted, pos).flights =~= without(peer, pos).flights);
    assert(without_piece(sorted, pos) == without(peer, pos));
}

proof fn lemma_first_flight(flights: Seq<Flight>, piece_idx: u32, pos: int)
    requires
        0 <= pos < flights.len(),
        flights[pos].piece.piece_idx == piece_idx,
        forall|j: int| 0 <= j < pos ==> (#[trigger] flights[j]).piece.piece_idx != piece_idx,
    ensures
        flight_with(flights, piece_idx) == Some(pos),
    decreases flights.len(),
{
    let front = flights.drop_last();
    if pos < front.len() {
        assert forall|j: int| 0 <= j < pos implies (#[trigger] front[j]).piece.piece_idx
            != piece_idx by {
            assert(front[j] == flights[j]);
        }
        lemma_first_flight(front, piece_idx, pos);
    } else {
        lemma_flight_with(front, piece_idx);
        if let Some(i) = flight_with(front, piece_idx) {
            assert(front[i] == flights[i]);
        }
    }
}

/// A peer that sends the blocks of a piece, in whatever order, has it finished: when
/// the last of them comes and the SHA-1 of the data is the hash that was published,
/// the piece is reported, holds just these data, and leaves the pieces in flight.
pub proof fn lemma_right_piece_is_finished(
    peer: Peer,
    piece_idx: u32,
    begin: u32,
    data: Seq<u8>,
    pos: int,
    content: Seq<u8>,
)
    requires
        0 <= pos < peer.flights.len(),
        peer.flights[pos].piece.piece_idx == piece_idx,
        forall|j: int|
            0 <= j < pos ==> (#[trigger] peer.flights[j]).piece.piece_idx != piece_idx,
        content.len() == peer.flights[pos].piece.piece_len,
        content.len() > 0,
        peer.flights[pos].ready.push(Block { begin, data }).to_multiset() == cut(
            content,
        ).to_multiset(),
        sha1_digest(content) == peer.flights[pos].piece.piece_hash@,
    ensures
        ({
            let (after, outcome) = received(
                peer,
                Msg::BlockResponse { piece_idx, begin, data },
            );
            &&& outcome matches Ok((Some(done), _))
            &&& done.piece == peer.flights[pos].piece
            &&& joined_data(done.ready) == content
        }),
{
    let ready = peer.flights[pos].ready.push(Block { begin, data });
    vstd::seq_lib::to_multiset_len(ready);
    vstd::seq_lib::to_multiset_len(cut(content));
    lemma_put_together(content, ready);
    lemma_parts_in(content.len() as int, 0x4000);
    lemma_number_of_blocks(peer.flights[pos].piece, ready.len() as int);
    lemma_block_is_received(peer, piece_idx, begin, data, pos);
}

/// The data of a piece are cut every 16 KiB: each block begins at its number times
/// that, and holds the bytes from there on.
pub proof fn lemma_cut_is(content: Seq<u8>, i: int)
    requires
        content.len() <= u32::MAX,
        0 <= i,
        i * 0x4000 < content.len(),
    ensures
        content.len() <= cut(content).len() * 0x4000 < content.len() + 0x4000,
        i < cut(content).len(),
        cut(content)[i].begin == i * 0x4000,
        cut(content)[i].data.len() == (if content.len() - i * 0x4000 < 0x4000 {
            content.len() - i * 0x4000
        } else {
            0x4000
        }),
        forall|k: int|
            0 <= k < cut(content)[i].data.len() ==> #[trigger] cut(content)[i].data[k]
                == content[i * 0x4000 + k],
{
    lemma_parts_in(content.len() as int, 0x4000);
}

/// Messages that say whether we are served and whether the peer wants to be change
/// just that; keep-alives and bitfields change nothing; and none of these asks for
/// anything or finishes a piece.
pub proof fn lemma_other_messages(peer: Peer, msg: Msg)
    requires
        !(msg is BlockResponse),
    ensures
        ({
            let (after, outcome) = received(peer, msg);
            &&& outcome matches Ok((finished, request))
            &&& finished is None
            &&& request is None
            &&& after.queue == peer.queue
            &&& after.flights == peer.flights
            &&& after.blocks_in_flight == peer.blocks_in_flight
            &&& after.am_choked == (peer.am_choked && !(msg is Unchoke))
            &&& after.peer_is_choked == peer.peer_is_choked
            &&& after.am_interested == peer.am_interested
            &&& after.peer_is_interested == (msg is Interested || (peer.peer_is_interested && !(
            msg is Uninterested)))
        }),
{
}

/// It can be gone on exactly where something is left of a piece in flight, or the
/// first piece that waits is not empty, or none waits and a block is on its way.
pub proof fn lemma_going_on_is_possible(peer: Peer)
    ensures
        can_go_on(peer) <==> {
            let left = exists|i: int|
                0 <= i < peer.flights.len() && (#[trigger] peer.flights[i]).unasked.len() > 0;
            ||| left
            ||| peer.queue.len() > 0 && peer.queue[0].piece_len > 0
            ||| peer.queue.len() == 0 && peer.blocks_in_flight > 0
        },
{
    lemma_first_open(peer.flights);
}

/// Every message can be dealt with but those by which a peer refuses to serve,
/// announces or wants pieces, and blocks.
pub proof fn lemma_accepted_messages(peer: Peer, msg: Msg)
    requires
        !(msg is BlockResponse),
    ensures
        acceptable(peer, msg) <==> !(msg is Choke || msg is HavePiece || msg is BlockRequest
            || msg is CancelBlockRequest),
{
}

/// A block of a piece in flight can be dealt with exactly where its length takes no
/// more than 32 bits and it can be gone on: with the block held or, where it makes
/// the piece up, without the piece.
pub proof fn lemma_accepted_blocks(
    peer: Peer,
    piece_idx: u32,
    begin: u32,
    data: Seq<u8>,
    pos: int,
)
    requires
        0 <= pos < peer.flights.len(),
        peer.flights[pos].piece.piece_idx == piece_idx,
        forall|j: int|
            0 <= j < pos ==> (#[trigger] peer.flights[j]).piece.piece_idx != piece_idx,
    ensures
        ({
            let ready = peer.flights[pos].ready.push(Block { begin, data });
            let len = peer.flights[pos].piece.piece_len;
            acceptable(peer, Msg::BlockResponse { piece_idx, begin, data }) <==> data.len()
                <= u32::MAX && can_go_on(
                if len <= ready.len() * 0x4000 < len + 0x4000 {
                    without(peer, pos)
                } else {
                    holding(peer, pos, ready)
                },
            )
        }),
{
    let flight = peer.flights[pos];
    let ready = flight.ready.push(Block { begin, data });
    lemma_first_flight(peer.flights, piece_idx, pos);
    lemma_number_of_blocks(flight.piece, ready.len() as int);
    let kept = with_block(peer, pos, Block { begin, data });
    assert(kept == holding(peer, pos, ready));
    assert(without_piece(kept, pos).flights =~= without(peer, pos).flights);
    assert(without_piece(kept, pos) == without(peer, pos));
}

/// A block of a piece that is not in flight cannot be dealt with.
pub proof fn lemma_unknown_blocks(peer: Peer, piece_idx: u32, begin: u32, data: Seq<u8>)
    requires
        forall|j: int|
            0 <= j < peer.flights.len() ==> (#[trigger] peer.flights[j]).piece.piece_idx
                != piece_idx,
    ensures
        !acceptable(peer, Msg::BlockResponse { piece_idx, begin, data }),
{
    lemma_flight_with(peer.flights, piece_idx);
}

/// A piece is complete exactly where as many blocks have come as 16 KiB just make it
/// up with.
pub proof fn lemma_complete_is(flight: Flight)
    ensures
        is_complete(flight) <==> flight.piece.piece_len <= flight.ready.len() * 0x4000
            < flight.piece.piece_len + 0x4000,
{
    lemma_number_of_blocks(flight.piece, flight.ready.len() as int);
}

} // verus!
