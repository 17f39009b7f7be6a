//! What stays true of a peer, whatever it is asked for and whatever it sends.

use vstd::prelude::*;
use vstd::relations::sorted_by;
use vstd::seq_lib::{
    to_multiset_build, to_multiset_contains, to_multiset_insert, to_multiset_len, to_multiset_update,
};

use crate::blocks::{
    block_count, block_order, block_range, in_order, joined_data, lemma_block_order_is_total,
    nth_block, swap_removed, Block, Flight, BLOCK_SIZE,
};
use crate::btmsg::Msg;
use crate::outside::sha1_digest;
use crate::peer::{
    acceptable, askable, can_go_on, first_open, flight_with, fresh_peer, gone_on, is_complete,
    lemma_first_open, lemma_flight_with, received, request_for, with_block, with_order,
    with_piece, without_piece, Peer, MAX_BLOCKS_IN_FLIGHT,
};
use crate::torrent::{lemma_parts_in, Piece};

verus! {

/// The number of blocks of a piece that are on their way.
pub open spec fn outstanding(flight: Flight) -> int {
    block_count(flight.piece) - flight.ready.len() - flight.unasked.len()
}

/// The number of blocks of all these pieces that are on their way.
pub open spec fn all_outstanding(flights: Seq<Flight>) -> int
    decreases flights.len(),
{
    if flights.len() == 0 {
        0
    } else {
        all_outstanding(flights.drop_last()) + outstanding(flights.last())
    }
}

/// The books are in order: just as many blocks are on their way as are counted,
/// which is no more than may be, no piece has more blocks than it should, and
/// none that waits is empty.
pub open spec fn balanced(peer: Peer) -> bool {
    &&& peer.blocks_in_flight == all_outstanding(peer.flights)
    &&& peer.blocks_in_flight <= MAX_BLOCKS_IN_FLIGHT
    &&& forall|i: int|
        0 <= i < peer.flights.len() ==> outstanding(#[trigger] peer.flights[i]) >= 0
    &&& forall|i: int| 0 <= i < peer.queue.len() ==> (#[trigger] peer.queue[i]).piece_len > 0
}

/// A block is one that the peer was asked for: of the piece that it is for,
/// blocks are on their way.
pub open spec fn solicited(peer: Peer, msg: Msg) -> bool {
    match msg {
        Msg::BlockResponse { piece_idx, data, .. } => match flight_with(peer.flights, piece_idx) {
            Some(pos) => outstanding(peer.flights[pos]) > 0 && data.len() <= u32::MAX,
            None => false,
        },
        _ => true,
    }
}

/// The books of a peer of which nothing is known are in order, and nothing of
/// it has been asked for out of turn.
pub proof fn lemma_fresh_peer_is_balanced()
    ensures
        balanced(fresh_peer()),
        all_in_turn(fresh_peer()),
{
}

/// There are never more blocks on their way than may be: neither a piece to
/// download nor a message from the peer makes it too many.
pub proof fn lemma_never_too_many(peer: Peer, piece: Piece, msg: Msg)
    requires
        peer.blocks_in_flight <= MAX_BLOCKS_IN_FLIGHT,
        acceptable(peer, msg),
    ensures
        with_piece(peer, piece).blocks_in_flight <= MAX_BLOCKS_IN_FLIGHT,
        received(peer, msg).0.blocks_in_flight <= MAX_BLOCKS_IN_FLIGHT,
{
}

/// A piece to download leaves the books in order.
pub proof fn lemma_with_piece_is_balanced(peer: Peer, piece: Piece)
    requires
        balanced(peer),
        piece.piece_len > 0,
    ensures
        balanced(with_piece(peer, piece)),
{
    let after = with_piece(peer, piece);
    lemma_parts_in(piece.piece_len as int, BLOCK_SIZE as int);
    if peer.blocks_in_flight < MAX_BLOCKS_IN_FLIGHT {
        assert(after.flights.drop_last() =~= peer.flights);
        lemma_outstanding_is_counted(peer.flights);
        assert(outstanding(after.flights.last()) == askable(peer, piece));
    }
}

/// Where nothing is missing, the number of blocks on their way is not negative.
proof fn lemma_outstanding_is_counted(flights: Seq<Flight>)
    requires
        forall|i: int| 0 <= i < flights.len() ==> outstanding(#[trigger] flights[i]) >= 0,
    ensures
        all_outstanding(flights) >= 0,
    decreases flights.len(),
{
    if flights.len() > 0 {
        let front = flights.drop_last();
        assert forall|i: int| 0 <= i < front.len() implies outstanding(#[trigger] front[i])
            >= 0 by {
            assert(front[i] == flights[i]);
        }
        lemma_outstanding_is_counted(front);
    }
}

proof fn lemma_outstanding_update(flights: Seq<Flight>, i: int, flight: Flight)
    requires
        0 <= i < flights.len(),
    ensures
        all_outstanding(flights.update(i, flight)) == all_outstanding(flights) - outstanding(
            flights[i],
        ) + outstanding(flight),
    decreases flights.len(),
{
    let after = flights.update(i, flight);
    if i == flights.len() - 1 {
        assert(after.drop_last() =~= flights.drop_last());
    } else {
        lemma_outstanding_update(flights.drop_last(), i, flight);
        assert(after.drop_last() =~= flights.drop_last().update(i, flight));
    }
}

proof fn lemma_outstanding_removed(flights: Seq<Flight>, i: int)
    requires
        0 <= i < flights.len(),
    ensures
        all_outstanding(swap_removed(flights, i)) == all_outstanding(flights) - outstanding(
            flights[i],
        ),
{
    lemma_outstanding_update(flights, i, flights.last());
    assert(flights.update(i, flights.last()).last() == flights.last());
}

/// Where a block has come that was counted, going on is possible and leaves the
/// books in order.
proof fn lemma_gone_on_is_balanced(peer: Peer)
    requires
        peer.blocks_in_flight == all_outstanding(peer.flights) + 1,
        peer.blocks_in_flight <= MAX_BLOCKS_IN_FLIGHT,
        forall|i: int|
            0 <= i < peer.flights.len() ==> outstanding(#[trigger] peer.flights[i]) >= 0,
        forall|i: int| 0 <= i < peer.queue.len() ==> (#[trigger] peer.queue[i]).piece_len > 0,
    ensures
        can_go_on(peer),
        balanced(gone_on(peer).0),
{
    let after = gone_on(peer).0;
    lemma_first_open(peer.flights);
    lemma_outstanding_is_counted(peer.flights);
    match first_open(peer.flights) {
        Some(i) => {
            let flight = peer.flights[i];
            lemma_outstanding_update(
                peer.flights,
                i,
                Flight { unasked: flight.unasked.drop_last(), ..flight },
            );
        },
        None => {
            if peer.queue.len() > 0 {
                lemma_parts_in(peer.queue[0].piece_len as int, BLOCK_SIZE as int);
                assert(after.flights.drop_last() =~= peer.flights);
                assert forall|i: int| 0 <= i < after.queue.len() implies (
                #[trigger] after.queue[i]).piece_len > 0 by {
                    assert(after.queue[i] == peer.queue[i + 1]);
                }
            }
        },
    }
}

/// While the books are in order, a block that the peer was asked for can be
/// dealt with, and so can every message by which it neither refuses to serve
/// nor speaks of pieces of its own wish. Unless a piece turns out to be wrong,
/// the books are in order afterwards.
pub proof fn lemma_received_is_balanced(peer: Peer, msg: Msg)
    requires
        balanced(peer),
        solicited(peer, msg),
        !(msg is Choke || msg is HavePiece || msg is BlockRequest || msg is CancelBlockRequest),
    ensures
        acceptable(peer, msg),
        received(peer, msg).1 is Ok ==> balanced(received(peer, msg).0),
{
    if let Msg::BlockResponse { piece_idx, begin, data } = msg {
        lemma_flight_with(peer.flights, piece_idx);
        let pos = flight_with(peer.flights, piece_idx)->0;
        let kept = with_block(peer, pos, Block { begin, data });
        lemma_outstanding_update(peer.flights, pos, kept.flights[pos]);
        assert forall|i: int| 0 <= i < kept.flights.len() implies outstanding(
            #[trigger] kept.flights[i],
        ) >= 0 by {
            if i != pos {
                assert(kept.flights[i] == peer.flights[i]);
            }
        }
        if is_complete(kept.flights[pos]) {
            let rest = without_piece(kept, pos);
            let sorted = with_order(kept, pos);
            lemma_outstanding_removed(kept.flights, pos);
            assert forall|i: int| 0 <= i < rest.flights.len() implies outstanding(
                #[trigger] rest.flights[i],
            ) >= 0 by {
                if i == pos {
                    assert(rest.flights[i] == kept.flights[kept.flights.len() - 1]);
                } else {
                    assert(rest.flights[i] == kept.flights[i]);
                }
            }
            lemma_gone_on_is_balanced(rest);
            assert(without_piece(sorted, pos).flights =~= rest.flights);
        } else {
            lemma_gone_on_is_balanced(kept);
        }
    }
}

/// Of each piece in flight, what has not been asked for yet are blocks that
/// follow one another in it.
pub open spec fn asked_in_turn(flight: Flight) -> bool {
    exists|a: int, b: int| #[trigger]
        is_range(flight, a, b)
}

/// What has not been asked for yet are the blocks from the `a`-th on and before
/// the `b`-th.
pub open spec fn is_range(flight: Flight, a: int, b: int) -> bool {
    &&& 0 <= a <= b <= block_count(flight.piece)
    &&& flight.unasked == block_range(flight.piece.piece_len, a, b)
}

/// That is so of all pieces in flight.
pub open spec fn all_in_turn(peer: Peer) -> bool {
    forall|i: int| 0 <= i < peer.flights.len() ==> asked_in_turn(#[trigger] peer.flights[i])
}

/// The message asks for a block of a piece that is in flight.
pub open spec fn asks_for_a_block(peer: Peer, msg: Msg) -> bool {
    exists|i: int, k: int|
        0 <= i < peer.flights.len() && 0 <= k < block_count(peer.flights[i].piece) && msg
            == #[trigger] request_for(
            peer.flights[i].piece,
            nth_block(peer.flights[i].piece.piece_len, k),
        )
}

/// A piece to download is asked for in turn.
pub proof fn lemma_with_piece_in_turn(peer: Peer, piece: Piece)
    requires
        all_in_turn(peer),
    ensures
        all_in_turn(with_piece(peer, piece)),
{
    let after = with_piece(peer, piece);
    lemma_parts_in(piece.piece_len as int, BLOCK_SIZE as int);
    if peer.blocks_in_flight < MAX_BLOCKS_IN_FLIGHT {
        assert(is_range(after.flights.last(), askable(peer, piece), block_count(piece)));
        assert forall|i: int| 0 <= i < after.flights.len() implies asked_in_turn(
            #[trigger] after.flights[i],
        ) by {
            if i < peer.flights.len() {
                assert(after.flights[i] == peer.flights[i]);
            }
        }
    }
}

/// Going on, pieces are asked for in turn, and what is asked for is a block of a
/// piece in flight.
pub proof fn lemma_gone_on_in_turn(peer: Peer)
    requires
        all_in_turn(peer),
        first_open(peer.flights) is None && peer.queue.len() > 0 ==> peer.queue[0].piece_len > 0,
    ensures
        all_in_turn(gone_on(peer).0),
        gone_on(peer).1 matches Some(msg) ==> asks_for_a_block(gone_on(peer).0, msg),
{
    let (after, request) = gone_on(peer);
    lemma_first_open(peer.flights);
    match first_open(peer.flights) {
        Some(i) => {
            let flight = peer.flights[i];
            assert(asked_in_turn(flight));
            let (a, b) = choose|a: int, b: int| #[trigger] is_range(flight, a, b);
            let block = nth_block(flight.piece.piece_len, b - 1);
            assert(flight.unasked.last() == block);
            assert(flight.unasked.drop_last() =~= block_range(flight.piece.piece_len, a, b - 1));
            assert(is_range(after.flights[i], a, b - 1));
            assert(request->0 == request_for(
                after.flights[i].piece,
                nth_block(after.flights[i].piece.piece_len, b - 1),
            ));
            assert forall|j: int| 0 <= j < after.flights.len() implies asked_in_turn(
                #[trigger] after.flights[j],
            ) by {
                if j != i {
                    assert(after.flights[j] == peer.flights[j]);
                }
            }
        },
        None => {
            if peer.queue.len() > 0 {
                let piece = peer.queue[0];
                let i = peer.flights.len() as int;
                lemma_parts_in(piece.piece_len as int, BLOCK_SIZE as int);
                assert(is_range(after.flights[i], 1, block_count(piece)));
                assert(request->0 == request_for(
                    after.flights[i].piece,
                    nth_block(after.flights[i].piece.piece_len, 0),
                ));
                assert forall|j: int| 0 <= j < after.flights.len() implies asked_in_turn(
                    #[trigger] after.flights[j],
                ) by {
                    if j < i {
                        assert(after.flights[j] == peer.flights[j]);
                    }
                }
            }
        },
    }
}

/// Whatever is received, pieces are asked for in turn, and what is asked for is
/// a block of a piece in flight.
pub proof fn lemma_received_in_turn(peer: Peer, msg: Msg)
    requires
        all_in_turn(peer),
        acceptable(peer, msg),
    ensures
        all_in_turn(received(peer, msg).0),
        received(peer, msg).1 matches Ok((_, Some(request))) ==> asks_for_a_block(
            received(peer, msg).0,
            request,
        ),
{
    if let Msg::BlockResponse { piece_idx, begin, data } = msg {
        lemma_flight_with(peer.flights, piece_idx);
        let pos = flight_with(peer.flights, piece_idx)->0;
        let kept = with_block(peer, pos, Block { begin, data });
        lemma_same_asked(peer, kept);
        if is_complete(kept.flights[pos]) {
            let sorted = with_order(kept, pos);
            let rest = without_piece(sorted, pos);
            lemma_same_asked(kept, sorted);
            assert forall|i: int| 0 <= i < rest.flights.len() implies asked_in_turn(
                #[trigger] rest.flights[i],
            ) by {
                if i == pos {
                    assert(rest.flights[i] == sorted.flights[sorted.flights.len() - 1]);
                } else {
                    assert(rest.flights[i] == sorted.flights[i]);
                }
            }
            assert(rest.flights =~= without_piece(kept, pos).flights);
            lemma_gone_on_in_turn(rest);
        } else {
            lemma_gone_on_in_turn(kept);
        }
    }
}

/// What has come has no part in how pieces are asked for.
pub proof fn lemma_same_asked(peer: Peer, after: Peer)
    requires
        all_in_turn(peer),
        after.queue == peer.queue,
        after.flights.len() == peer.flights.len(),
        forall|i: int|
            0 <= i < peer.flights.len() ==> (#[trigger] after.flights[i]).piece
                == peer.flights[i].piece && after.flights[i].unasked == peer.flights[i].unasked,
    ensures
        all_in_turn(after),
{
    assert forall|i: int| 0 <= i < after.flights.len() implies asked_in_turn(
        #[trigger] after.flights[i],
    ) by {
        let flight = peer.flights[i];
        assert(asked_in_turn(flight));
        let (a, b) = choose|a: int, b: int| #[trigger] is_range(flight, a, b);
        assert(is_range(after.flights[i], a, b));
    }
}

/// A piece is finished only when it is complete and has the hash that was
/// published; its blocks are then in their order.
pub proof fn lemma_finished_is_right(peer: Peer, msg: Msg)
    requires
        acceptable(peer, msg),
    ensures
        received(peer, msg).1 matches Ok((Some(done), _)) ==> {
            &&& is_complete(done)
            &&& sorted_by(done.ready, block_order())
            &&& sha1_digest(joined_data(done.ready)) == done.piece.piece_hash@
        },
{
    if let Msg::BlockResponse { piece_idx, begin, data } = msg {
        lemma_flight_with(peer.flights, piece_idx);
        let pos = flight_with(peer.flights, piece_idx)->0;
        let kept = with_block(peer, pos, Block { begin, data });
        let blocks = kept.flights[pos].ready;
        lemma_block_order_is_total();
        blocks.lemma_sort_by_ensures(block_order());
        to_multiset_len(blocks);
        to_multiset_len(in_order(blocks));
    }
}

/// Where fewer blocks are on their way than may be, all blocks have been asked
/// for: none of a piece in flight is left, and no piece waits.
pub open spec fn busy(peer: Peer) -> bool {
    peer.blocks_in_flight < MAX_BLOCKS_IN_FLIGHT ==> first_open(peer.flights) is None
        && peer.queue.len() == 0
}

/// A piece to download is asked for as far as there is room.
pub proof fn lemma_with_piece_is_busy(peer: Peer, piece: Piece)
    requires
        busy(peer),
    ensures
        busy(with_piece(peer, piece)),
{
    let after = with_piece(peer, piece);
    lemma_parts_in(piece.piece_len as int, BLOCK_SIZE as int);
    if peer.blocks_in_flight < MAX_BLOCKS_IN_FLIGHT {
        assert(after.flights.drop_last() =~= peer.flights);
    }
}

proof fn lemma_gone_on_is_busy(peer: Peer)
    requires
        busy(peer),
    ensures
        busy(gone_on(peer).0),
{
}

/// The same pieces with the same blocks left are as busy.
proof fn lemma_same_open(flights: Seq<Flight>, after: Seq<Flight>)
    requires
        first_open(flights) is None,
        forall|i: int|
            0 <= i < after.len() ==> exists|j: int|
                0 <= j < flights.len() && (#[trigger] after[i]).unasked == (
                #[trigger] flights[j]).unasked,
    ensures
        first_open(after) is None,
{
    lemma_first_open(flights);
    lemma_first_open(after);
}

/// Whatever is received, blocks are asked for as far as there is room.
pub proof fn lemma_received_is_busy(peer: Peer, msg: Msg)
    requires
        busy(peer),
        acceptable(peer, msg),
    ensures
        busy(received(peer, msg).0),
{
    if let Msg::BlockResponse { piece_idx, begin, data } = msg {
        lemma_flight_with(peer.flights, piece_idx);
        let pos = flight_with(peer.flights, piece_idx)->0;
        let kept = with_block(peer, pos, Block { begin, data });
        let sorted = with_order(kept, pos);
        let rest = without_piece(sorted, pos);
        if peer.blocks_in_flight < MAX_BLOCKS_IN_FLIGHT {
            let last = peer.flights.len() - 1;
            assert forall|i: int| 0 <= i < kept.flights.len() implies exists|j: int|
                0 <= j < peer.flights.len() && (#[trigger] kept.flights[i]).unasked == (
                #[trigger] peer.flights[j]).unasked by {
                assert(kept.flights[i].unasked == peer.flights[i].unasked);
            }
            lemma_same_open(peer.flights, kept.flights);
            assert forall|i: int| 0 <= i < sorted.flights.len() implies exists|j: int|
                0 <= j < peer.flights.len() && (#[trigger] sorted.flights[i]).unasked == (
                #[trigger] peer.flights[j]).unasked by {
                assert(sorted.flights[i].unasked == peer.flights[i].unasked);
            }
            lemma_same_open(peer.flights, sorted.flights);
            assert forall|i: int| 0 <= i < rest.flights.len() implies exists|j: int|
                0 <= j < peer.flights.len() && (#[trigger] rest.flights[i]).unasked == (
                #[trigger] peer.flights[j]).unasked by {
                if i == pos {
                    assert(rest.flights[i].unasked == peer.flights[last].unasked);
                } else {
                    assert(rest.flights[i].unasked == peer.flights[i].unasked);
                }
            }
            lemma_same_open(peer.flights, rest.flights);
        }
        if is_complete(kept.flights[pos]) {
            lemma_gone_on_is_busy(rest);
        } else {
            lemma_gone_on_is_busy(kept);
        }
    }
}

/// The pieces that are in flight.
pub open spec fn pieces_of(flights: Seq<Flight>) -> Seq<Piece> {
    Seq::new(flights.len(), |i: int| flights[i].piece)
}

/// The pieces that wait and those that are in flight.
pub open spec fn pieces(peer: Peer) -> Seq<Piece> {
    peer.queue + pieces_of(peer.flights)
}

/// No two pieces have the same number.
pub open spec fn distinct(pieces: Seq<Piece>) -> bool {
    forall|i: int, j: int|
        0 <= i < j < pieces.len() ==> (#[trigger] pieces[i]).piece_idx != (
        #[trigger] pieces[j]).piece_idx
}

/// The same pieces in another order are as distinct.
pub proof fn lemma_same_distinct(s: Seq<Piece>, t: Seq<Piece>)
    requires
        distinct(s),
        s.to_multiset() == t.to_multiset(),
    ensures
        distinct(t),
{
    assert(s.no_duplicates()) by {
        assert forall|i: int, j: int| 0 <= i < s.len() && 0 <= j < s.len() && i != j implies s[i]
            != s[j] by {
            if i < j {
                assert(s[i].piece_idx != s[j].piece_idx);
            } else {
                assert(s[j].piece_idx != s[i].piece_idx);
            }
        }
    }
    s.lemma_multiset_has_no_duplicates();
    t.lemma_multiset_has_no_duplicates_conv();
    assert forall|i: int, j: int| 0 <= i < j < t.len() implies (#[trigger] t[i]).piece_idx != (
    #[trigger] t[j]).piece_idx by {
        lemma_same_member(t, s, i);
        lemma_same_member(t, s, j);
        let a = choose|a: int| 0 <= a < s.len() && s[a] == t[i];
        let b = choose|b: int| 0 <= b < s.len() && s[b] == t[j];
        assert(t[i] != t[j]);
        if a < b {
            assert(s[a].piece_idx != s[b].piece_idx);
        } else if b < a {
            assert(s[b].piece_idx != s[a].piece_idx);
        }
    }
}

/// What is in one of two rearrangements is in the other.
pub proof fn lemma_same_member(s: Seq<Piece>, t: Seq<Piece>, i: int)
    requires
        s.to_multiset() == t.to_multiset(),
        0 <= i < s.len(),
    ensures
        t.contains(s[i]),
{
    to_multiset_contains(s, s[i]);
    to_multiset_contains(t, s[i]);
    assert(s.contains(s[i]));
}

/// The pieces together when one is added to those in flight.
proof fn lemma_flight_added(queue: Seq<Piece>, flights: Seq<Flight>, flight: Flight)
    ensures
        (queue + pieces_of(flights.push(flight))).to_multiset() == (queue + pieces_of(
            flights,
        )).to_multiset().insert(flight.piece),
{
    let all = queue + pieces_of(flights);
    assert(queue + pieces_of(flights.push(flight)) =~= all.push(flight.piece));
    to_multiset_build(all, flight.piece);
}

/// A piece to download is one more, and no other comes or goes.
pub proof fn lemma_with_piece_adds_it(peer: Peer, piece: Piece)
    ensures
        pieces(with_piece(peer, piece)).to_multiset() == pieces(peer).to_multiset().insert(piece),
{
    let after = with_piece(peer, piece);
    if peer.blocks_in_flight < MAX_BLOCKS_IN_FLIGHT {
        lemma_flight_added(peer.queue, peer.flights, after.flights.last());
        assert(after.flights =~= peer.flights.push(after.flights.last()));
    } else {
        let n = peer.queue.len() as int;
        assert(pieces(after) =~= pieces(peer).insert(n, piece));
        to_multiset_insert(pieces(peer), n, piece);
    }
}

/// Going on, no piece comes and none goes.
pub proof fn lemma_gone_on_keeps_pieces(peer: Peer)
    ensures
        pieces(gone_on(peer).0).to_multiset() == pieces(peer).to_multiset(),
{
    let after = gone_on(peer).0;
    lemma_first_open(peer.flights);
    match first_open(peer.flights) {
        Some(_) => {
            assert(pieces_of(after.flights) =~= pieces_of(peer.flights));
        },
        None => {
            if peer.queue.len() > 0 {
                let rest = peer.queue.skip(1) + pieces_of(peer.flights);
                lemma_flight_added(peer.queue.skip(1), peer.flights, after.flights.last());
                assert(after.flights =~= peer.flights.push(after.flights.last()));
                assert(pieces(peer) =~= rest.insert(0, peer.queue[0]));
                to_multiset_insert(rest, 0, peer.queue[0]);
            }
        },
    }
}

/// Without the piece at `pos`, that piece is one less, and no other comes or
/// goes.
pub proof fn lemma_without_piece_takes_it(peer: Peer, pos: int)
    requires
        0 <= pos < peer.flights.len(),
    ensures
        pieces(peer).to_multiset() == pieces(without_piece(peer, pos)).to_multiset().insert(
            peer.flights[pos].piece,
        ),
{
    let piece = peer.flights[pos].piece;
    let rest = pieces(without_piece(peer, pos));
    let at = peer.queue.len() + pos;
    let last = peer.flights.last().piece;
    if pos == peer.flights.len() - 1 {
        assert(pieces(peer) =~= rest.push(piece));
        to_multiset_build(rest, piece);
    } else {
        broadcast use vstd::multiset::group_multiset_axioms;

        assert(pieces(peer) =~= rest.update(at, piece).push(last));
        assert(rest[at] == last);
        to_multiset_build(rest.update(at, piece), last);
        to_multiset_update(rest, at, piece);
        to_multiset_contains(rest, last);
        assert(rest.contains(last));
        assert(pieces(peer).to_multiset() =~= rest.to_multiset().insert(piece));
    }
}

/// Only pieces that were ordered are held: whatever is received, none comes, and
/// none goes but one that is finished.
pub proof fn lemma_received_keeps_pieces(peer: Peer, msg: Msg)
    requires
        acceptable(peer, msg),
    ensures
        pieces(peer).to_multiset() == (match received(peer, msg).1 {
            Ok((Some(done), _)) => pieces(received(peer, msg).0).to_multiset().insert(done.piece),
            _ => pieces(received(peer, msg).0).to_multiset(),
        }),
{
    if let Msg::BlockResponse { piece_idx, begin, data } = msg {
        lemma_flight_with(peer.flights, piece_idx);
        let pos = flight_with(peer.flights, piece_idx)->0;
        let kept = with_block(peer, pos, Block { begin, data });
        let sorted = with_order(kept, pos);
        assert(pieces_of(kept.flights) =~= pieces_of(peer.flights));
        assert(pieces_of(sorted.flights) =~= pieces_of(peer.flights));
        if is_complete(kept.flights[pos]) {
            lemma_without_piece_takes_it(sorted, pos);
            lemma_gone_on_keeps_pieces(without_piece(sorted, pos));
        } else {
            lemma_gone_on_keeps_pieces(kept);
        }
    }
}

/// A piece is finished once: where no two pieces have the same number, none with
/// the number of a finished one is left, neither in flight nor waiting.
pub proof fn lemma_finished_is_gone(peer: Peer, msg: Msg)
    requires
        acceptable(peer, msg),
        distinct(pieces(peer)),
    ensures
        distinct(pieces(received(peer, msg).0)),
        received(peer, msg).1 matches Ok((Some(done), _)) ==> {
            &&& flight_with(received(peer, msg).0.flights, done.piece.piece_idx) is None
            &&& forall|i: int|
                0 <= i < pieces(received(peer, msg).0).len() ==> (#[trigger] pieces(
                    received(peer, msg).0,
                )[i]).piece_idx != done.piece.piece_idx
        },
{
    let (after, outcome) = received(peer, msg);
    lemma_received_keeps_pieces(peer, msg);
    match outcome {
        Ok((Some(done), _)) => {
            let all = pieces(after).push(done.piece);
            to_multiset_build(pieces(after), done.piece);
            lemma_same_distinct(pieces(peer), all);
            assert forall|i: int, j: int| 0 <= i < j < pieces(after).len() implies (
            #[trigger] pieces(after)[i]).piece_idx != (#[trigger] pieces(after)[j]).piece_idx by {
                assert(all[i].piece_idx != all[j].piece_idx);
            }
            assert forall|i: int| 0 <= i < pieces(after).len() implies (
            #[trigger] pieces(after)[i]).piece_idx != done.piece.piece_idx by {
                assert(all[i].piece_idx != all[pieces(after).len() as int].piece_idx);
            }
            lemma_flight_with(after.flights, done.piece.piece_idx);
            if let Some(i) = flight_with(after.flights, done.piece.piece_idx) {
                assert(pieces(after)[after.queue.len() + i] == after.flights[i].piece);
            }
        },
        _ => {
            lemma_same_distinct(pieces(peer), pieces(after));
        },
    }
}

/// While the books are in order, a block that the peer was asked for was counted.
pub proof fn lemma_solicited_is_counted(peer: Peer, msg: Msg)
    requires
        balanced(peer),
        solicited(peer, msg),
        msg is BlockResponse,
    ensures
        peer.blocks_in_flight > 0,
{
    if let Msg::BlockResponse { piece_idx, begin, data } = msg {
        lemma_flight_with(peer.flights, piece_idx);
        let pos = flight_with(peer.flights, piece_idx)->0;
        let kept = with_block(peer, pos, Block { begin, data });
        lemma_outstanding_update(peer.flights, pos, kept.flights[pos]);
        assert forall|i: int| 0 <= i < kept.flights.len() implies outstanding(
            #[trigger] kept.flights[i],
        ) >= 0 by {
            if i != pos {
                assert(kept.flights[i] == peer.flights[i]);
            }
        }
        lemma_outstanding_is_counted(kept.flights);
    }
}

/// While the books are in order, the count of blocks is not negative.
pub proof fn lemma_balanced_counts(peer: Peer)
    requires
        balanced(peer),
    ensures
        peer.blocks_in_flight >= 0,
{
    lemma_outstanding_is_counted(peer.flights);
}

} // verus!
