//! What comes of looking for the next block again and again.

use vstd::prelude::*;
use vstd::seq_lib::lemma_multiset_commutative;

use crate::blocks::{block_count, block_range, nth_block, BlockReq, Flight, BLOCK_SIZE};
use crate::peer::{first_open, lemma_first_open, next_request, Request};
use crate::torrent::{lemma_parts_in, Piece};

verus! {

/// What `next_requestable_block` gives when it is called until there is nothing
/// left, but `n` times at most, and what is queued and in flight afterwards.
pub open spec fn called(queue: Seq<Piece>, flights: Seq<Flight>, n: nat) -> (
    Seq<Request>,
    Seq<Piece>,
    Seq<Flight>,
)
    decreases n,
{
    if n == 0 {
        (Seq::empty(), queue, flights)
    } else {
        match next_request(queue, flights) {
            (Some(request), queue, flights) => {
                let (more, queue, flights) = called(queue, flights, (n - 1) as nat);
                (seq![request] + more, queue, flights)
            },
            (None, queue, flights) => (Seq::empty(), queue, flights),
        }
    }
}

/// The block of the piece, as it is asked for.
pub open spec fn request_of(piece: Piece, block: BlockReq) -> Request {
    (piece.piece_idx, block.begin, block.length)
}

/// The blocks of the piece, as they are asked for.
pub open spec fn requests_of(piece: Piece, blocks: Seq<BlockReq>) -> Seq<Request> {
    Seq::new(blocks.len(), |i: int| request_of(piece, blocks[i]))
}

/// What is left of a piece in flight, the last block first.
pub open spec fn flight_left(flight: Flight) -> Seq<Request> {
    requests_of(flight.piece, flight.unasked.reverse())
}

/// What is left of the pieces in flight, one after the other.
pub open spec fn flights_left(flights: Seq<Flight>) -> Seq<Request>
    decreases flights.len(),
{
    if flights.len() == 0 {
        Seq::empty()
    } else {
        flight_left(flights[0]) + flights_left(flights.skip(1))
    }
}

/// A piece that has been begun: all but its first block are left.
pub open spec fn begun(piece: Piece) -> Flight {
    Flight {
        piece,
        ready: Seq::empty(),
        unasked: block_range(piece.piece_len, 1, block_count(piece)),
    }
}

/// The blocks of a piece in the order in which they are asked for: the first
/// one, and then from the last one back.
pub open spec fn piece_left(piece: Piece) -> Seq<Request> {
    seq![request_of(piece, nth_block(piece.piece_len, 0))] + flight_left(begun(piece))
}

/// The blocks of the pieces that wait, piece after piece.
pub open spec fn queue_left(queue: Seq<Piece>) -> Seq<Request>
    decreases queue.len(),
{
    if queue.len() == 0 {
        Seq::empty()
    } else {
        piece_left(queue[0]) + queue_left(queue.skip(1))
    }
}

/// All that is left to ask for, in the order in which it is asked for: first
/// what is left of the pieces in flight, then the pieces that wait.
pub open spec fn all_left(queue: Seq<Piece>, flights: Seq<Flight>) -> Seq<Request> {
    flights_left(flights) + queue_left(queue)
}

/// None of the pieces is empty.
pub open spec fn none_empty(queue: Seq<Piece>) -> bool {
    forall|i: int| 0 <= i < queue.len() ==> (#[trigger] queue[i]).piece_len > 0
}

proof fn lemma_nothing_left(flights: Seq<Flight>)
    requires
        forall|i: int| 0 <= i < flights.len() ==> (#[trigger] flights[i]).unasked.len() == 0,
    ensures
        flights_left(flights) == Seq::<Request>::empty(),
    decreases flights.len(),
{
    if flights.len() > 0 {
        let rest = flights.skip(1);
        assert forall|i: int| 0 <= i < rest.len() implies (#[trigger] rest[i]).unasked.len()
            == 0 by {
            assert(rest[i] == flights[i + 1]);
        }
        lemma_nothing_left(rest);
        assert(flight_left(flights[0]) =~= Seq::empty());
        assert(flights_left(flights) =~= Seq::empty());
    }
}

proof fn lemma_left_pushed(flights: Seq<Flight>, flight: Flight)
    ensures
        flights_left(flights.push(flight)) == flights_left(flights) + flight_left(flight),
    decreases flights.len(),
{
    let after = flights.push(flight);
    if flights.len() == 0 {
        assert(after.skip(1) =~= Seq::empty());
        assert(flights_left(after.skip(1)) =~= Seq::empty());
        assert(flights_left(after) =~= flights_left(flights) + flight_left(flight));
    } else {
        assert(after.skip(1) =~= flights.skip(1).push(flight));
        lemma_left_pushed(flights.skip(1), flight);
        assert(flights_left(after) =~= flights_left(flights) + flight_left(flight));
    }
}

/// One block less is left of the first piece in flight of which any is.
proof fn lemma_one_less(flights: Seq<Flight>, i: int)
    requires
        0 <= i < flights.len(),
        flights[i].unasked.len() > 0,
        forall|j: int| 0 <= j < i ==> (#[trigger] flights[j]).unasked.len() == 0,
    ensures
        flights_left(flights) == seq![
            request_of(flights[i].piece, flights[i].unasked.last()),
        ] + flights_left(
            flights.update(
                i,
                Flight { unasked: flights[i].unasked.drop_last(), ..flights[i] },
            ),
        ),
    decreases i,
{
    let flight = flights[i];
    let less = Flight { unasked: flight.unasked.drop_last(), ..flight };
    let after = flights.update(i, less);
    let first = seq![request_of(flight.piece, flight.unasked.last())];
    if i == 0 {
        assert(after.skip(1) =~= flights.skip(1));
        assert(flight_left(flight) =~= first + flight_left(less));
        assert(flights_left(flights) =~= first + flights_left(after));
    } else {
        let rest = flights.skip(1);
        assert forall|j: int| 0 <= j < i - 1 implies (#[trigger] rest[j]).unasked.len() == 0 by {
            assert(rest[j] == flights[j + 1]);
        }
        lemma_one_less(rest, i - 1);
        assert(after.skip(1) =~= rest.update(i - 1, less));
        assert(flight_left(flights[0]) =~= Seq::empty());
        assert(flights_left(flights) =~= first + flights_left(after));
    }
}

/// One call gives the first of what is left, and leaves the rest.
proof fn lemma_one_call(queue: Seq<Piece>, flights: Seq<Flight>)
    requires
        none_empty(queue),
    ensures
        match next_request(queue, flights) {
            (Some(request), q, f) => {
                &&& all_left(queue, flights) == seq![request] + all_left(q, f)
                &&& none_empty(q)
            },
            (None, q, f) => {
                &&& all_left(queue, flights) == Seq::<Request>::empty()
                &&& q.len() == 0
                &&& f == flights
                &&& first_open(flights) is None
            },
        },
{
    let (request, q, f) = next_request(queue, flights);
    lemma_first_open(flights);
    match first_open(flights) {
        Some(i) => {
            lemma_one_less(flights, i);
            assert(all_left(queue, flights) =~= seq![request->0] + all_left(q, f));
        },
        None => {
            lemma_nothing_left(flights);
            if queue.len() > 0 {
                let piece = queue[0];
                lemma_left_pushed(flights, begun(piece));
                assert(f =~= flights.push(begun(piece)));
                assert(all_left(queue, flights) =~= seq![request->0] + all_left(q, f));
                assert forall|j: int| 0 <= j < q.len() implies (#[trigger] q[j]).piece_len
                    > 0 by {
                    assert(q[j] == queue[j + 1]);
                }
            } else {
                assert(all_left(queue, flights) =~= Seq::empty());
            }
        },
    }
}

/// Called until there is nothing left, `next_requestable_block` gives all that
/// is left to ask for: first what is left of the pieces in flight, and then, in
/// the order of the queue, every block of each piece that waits. No piece waits
/// in the end, and nothing is left of any in flight; one call more gives
/// nothing.
pub proof fn lemma_called_until_none(queue: Seq<Piece>, flights: Seq<Flight>)
    requires
        none_empty(queue),
    ensures
        ({
            let (requests, q, f) = called(queue, flights, all_left(queue, flights).len());
            &&& requests == all_left(queue, flights)
            &&& q.len() == 0
            &&& first_open(f) is None
            &&& next_request(q, f).0 is None
        }),
    decreases all_left(queue, flights).len(),
{
    let n = all_left(queue, flights).len();
    lemma_one_call(queue, flights);
    match next_request(queue, flights) {
        (Some(request), q, f) => {
            assert(all_left(q, f).len() == n - 1);
            lemma_called_until_none(q, f);
        },
        (None, _, _) => {},
    }
}

/// A piece that waits is begun only when nothing is left of those in flight, and
/// the first in the queue is.
pub proof fn lemma_begun_in_turn(queue: Seq<Piece>, flights: Seq<Flight>)
    ensures
        next_request(queue, flights).1 != queue ==> {
            &&& first_open(flights) is None
            &&& queue.len() > 0
            &&& next_request(queue, flights).1 == queue.skip(1)
            &&& next_request(queue, flights).2 == flights.push(begun(queue[0]))
        },
{
}

/// What has not been asked for of the pieces in flight, as it is listed.
pub open spec fn listed(flights: Seq<Flight>) -> Seq<Request>
    decreases flights.len(),
{
    if flights.len() == 0 {
        Seq::empty()
    } else {
        requests_of(flights[0].piece, flights[0].unasked) + listed(flights.skip(1))
    }
}

/// The blocks of the pieces, from the first to the last.
pub open spec fn blocks_in_row(queue: Seq<Piece>) -> Seq<Request>
    decreases queue.len(),
{
    if queue.len() == 0 {
        Seq::empty()
    } else {
        requests_of(
            queue[0],
            block_range(queue[0].piece_len, 0, block_count(queue[0])),
        ) + blocks_in_row(queue.skip(1))
    }
}

proof fn lemma_reversed(piece: Piece, blocks: Seq<BlockReq>)
    ensures
        requests_of(piece, blocks.reverse()).to_multiset() == requests_of(
            piece,
            blocks,
        ).to_multiset(),
    decreases blocks.len(),
{
    broadcast use vstd::multiset::group_multiset_axioms;

    let (all, back) = (requests_of(piece, blocks), requests_of(piece, blocks.reverse()));
    if blocks.len() == 0 {
        assert(all =~= back);
    } else {
        let front = blocks.drop_last();
        let last = seq![request_of(piece, blocks.last())];
        lemma_reversed(piece, front);
        assert(all =~= requests_of(piece, front) + last);
        assert(back =~= last + requests_of(piece, front.reverse()));
        lemma_multiset_commutative(requests_of(piece, front), last);
        lemma_multiset_commutative(last, requests_of(piece, front.reverse()));
        assert(all.to_multiset() =~= back.to_multiset());
    }
}

proof fn lemma_flights_listed(flights: Seq<Flight>)
    ensures
        flights_left(flights).to_multiset() == listed(flights).to_multiset(),
    decreases flights.len(),
{
    if flights.len() > 0 {
        let (piece, unasked) = (flights[0].piece, flights[0].unasked);
        let rest = flights.skip(1);
        lemma_flights_listed(rest);
        lemma_reversed(piece, unasked);
        lemma_multiset_commutative(flight_left(flights[0]), flights_left(rest));
        lemma_multiset_commutative(requests_of(piece, unasked), listed(rest));
    }
}

proof fn lemma_queue_in_row(queue: Seq<Piece>)
    requires
        none_empty(queue),
    ensures
        queue_left(queue).to_multiset() == blocks_in_row(queue).to_multiset(),
    decreases queue.len(),
{
    if queue.len() > 0 {
        let piece = queue[0];
        let rest = queue.skip(1);
        let n = block_count(piece);
        let blocks = block_range(piece.piece_len, 0, n);
        let first = seq![request_of(piece, nth_block(piece.piece_len, 0))];
        assert forall|j: int| 0 <= j < rest.len() implies (#[trigger] rest[j]).piece_len > 0 by {
            assert(rest[j] == queue[j + 1]);
        }
        lemma_queue_in_row(rest);
        lemma_parts_in(piece.piece_len as int, BLOCK_SIZE as int);
        let others = block_range(piece.piece_len, 1, n);
        lemma_reversed(piece, others);
        assert(requests_of(piece, blocks) =~= first + requests_of(piece, others));
        lemma_multiset_commutative(first, requests_of(piece, others));
        lemma_multiset_commutative(first, flight_left(begun(piece)));
        lemma_multiset_commutative(piece_left(piece), queue_left(rest));
        lemma_multiset_commutative(requests_of(piece, blocks), blocks_in_row(rest));
    }
}

/// All that is left to ask for are, each once, the blocks that are listed as not
/// asked for of the pieces in flight, and all blocks of the pieces that wait.
/// (That the blocks of a piece cover it is `lemma_blocks_cover`.)
pub proof fn lemma_each_once(queue: Seq<Piece>, flights: Seq<Flight>)
    requires
        none_empty(queue),
    ensures
        all_left(queue, flights).to_multiset() == (listed(flights) + blocks_in_row(
            queue,
        )).to_multiset(),
{
    lemma_flights_listed(flights);
    lemma_queue_in_row(queue);
    lemma_multiset_commutative(flights_left(flights), queue_left(queue));
    lemma_multiset_commutative(listed(flights), blocks_in_row(queue));
}

} // verus!
