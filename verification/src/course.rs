//! What is true of a peer from its beginning to any later moment: of all that it
//! was asked for, all that it answered and all that came of it. An order is what
//! `PeerState::download_piece` does, a message what `PeerState::receive` does.

use vstd::prelude::*;
use vstd::relations::sorted_by;
use vstd::seq_lib::{lemma_multiset_commutative, to_multiset_build};
use vstd::set_lib::{
    lemma_int_range, lemma_len_subset, lemma_set_disjoint_lens, lemma_subset_equality,
    set_int_range,
};

use crate::accounting::{
    all_in_turn, asked_in_turn, asks_for_a_block, balanced, busy, distinct, is_range,
    lemma_balanced_counts, lemma_finished_is_right, lemma_fresh_peer_is_balanced,
    lemma_gone_on_in_turn, lemma_gone_on_keeps_pieces, lemma_received_in_turn,
    lemma_received_is_balanced, lemma_received_is_busy, lemma_received_keeps_pieces,
    lemma_same_asked, lemma_same_distinct, lemma_same_member, lemma_solicited_is_counted,
    lemma_with_piece_adds_it, lemma_with_piece_in_turn, lemma_with_piece_is_balanced,
    lemma_with_piece_is_busy, lemma_without_piece_takes_it, outstanding, pieces, pieces_of,
    solicited,
};
use crate::asking::none_empty;
use crate::blocks::{
    block_count, block_order, block_range, in_order, joined_data, lemma_blocks_cover, nth_block,
    Block, Flight, BLOCK_SIZE,
};
use crate::btmsg::Msg;
use crate::outside::sha1_digest;
use crate::peer::{
    acceptable, askable, first_open, flight_with, fresh_peer, gone_on, is_complete,
    lemma_first_open, lemma_flight_with, received, request_for, requests_for, with_block,
    with_order, with_piece, without_piece, Peer, MAX_BLOCKS_IN_FLIGHT,
};
use crate::torrent::{lemma_parts_in, Piece};

verus! {

/// What a peer's master wakes up for, and what it is then told.
pub enum Event {
    /// A piece is ordered.
    Order(Piece),
    /// The peer has sent a message.
    Message(Msg),
}

/// What has happened with a peer so far.
pub struct Course {
    /// What is known and planned about it now.
    pub peer: Peer,
    /// The pieces that were ordered.
    pub ordered: Seq<Piece>,
    /// The messages that were sent to it.
    pub sent: Seq<Msg>,
    /// The blocks that it sent, each with the number of its piece.
    pub came: Seq<(u32, Block)>,
    /// The pieces that were reported as finished.
    pub finished: Seq<Flight>,
    /// A piece had the wrong hash, and that was the end.
    pub failed: bool,
}

/// The piece and the beginning of each block that came.
pub open spec fn answers(c: Course) -> Seq<(u32, u32)> {
    Seq::new(c.came.len(), |i: int| (c.came[i].0, c.came[i].1.begin))
}

/// The beginning: the peer has been told that we want to be served.
pub open spec fn start() -> Course {
    Course {
        peer: fresh_peer(),
        ordered: Seq::empty(),
        sent: seq![Msg::Interested],
        came: Seq::empty(),
        finished: Seq::empty(),
        failed: false,
    }
}

/// What has happened after one more event.
pub open spec fn advanced(c: Course, event: Event) -> Course {
    match event {
        Event::Order(piece) => Course {
            peer: with_piece(c.peer, piece),
            ordered: c.ordered.push(piece),
            sent: c.sent + requests_for(piece, askable(c.peer, piece)),
            ..c
        },
        Event::Message(msg) => {
            let (peer, outcome) = received(c.peer, msg);
            let came = match msg {
                Msg::BlockResponse { piece_idx, begin, data } => c.came.push(
                    (piece_idx, Block { begin, data }),
                ),
                _ => c.came,
            };
            match outcome {
                Ok((done, request)) => Course {
                    peer,
                    sent: match request {
                        Some(msg) => c.sent.push(msg),
                        None => c.sent,
                    },
                    came,
                    finished: match done {
                        Some(flight) => c.finished.push(flight),
                        None => c.finished,
                    },
                    ..c
                },
                Err(_) => Course { peer, came, failed: true, ..c },
            }
        },
    }
}

/// What has happened after these events.
pub open spec fn run(events: Seq<Event>) -> Course
    decreases events.len(),
{
    if events.len() == 0 {
        start()
    } else {
        advanced(run(events.drop_last()), events.last())
    }
}

/// The message asks for the block of this piece that begins there.
pub open spec fn asks(msg: Msg, piece_idx: u32, begin: u32) -> bool {
    msg matches Msg::BlockRequest { piece_idx: p, begin: b, .. } && p == piece_idx && b == begin
}

/// One of the messages asks for the block of this piece that begins there.
pub open spec fn asked(sent: Seq<Msg>, piece_idx: u32, begin: u32) -> bool {
    exists|i: int| 0 <= i < sent.len() && #[trigger] asks(sent[i], piece_idx, begin)
}

/// The event may happen: a piece is ordered once at most and is not empty, and
/// the peer neither refuses to serve nor speaks of pieces of its own wish, and
/// sends a block only when it was asked for it, and then once at most.
pub open spec fn fair(c: Course, event: Event) -> bool {
    &&& !c.failed
    &&& match event {
        Event::Order(piece) => {
            &&& piece.piece_len > 0
            &&& forall|i: int|
                0 <= i < c.ordered.len() ==> (#[trigger] c.ordered[i]).piece_idx
                    != piece.piece_idx
        },
        Event::Message(msg) => match msg {
            Msg::Choke
            | Msg::HavePiece { .. }
            | Msg::BlockRequest { .. }
            | Msg::CancelBlockRequest { .. } => false,
            Msg::BlockResponse { piece_idx, begin, data } => {
                &&& data.len() <= u32::MAX
                &&& asked(c.sent, piece_idx, begin)
                &&& !answers(c).contains((piece_idx, begin))
            },
            _ => true,
        },
    }
}

/// Each of the events may happen when its turn comes.
pub open spec fn all_fair(events: Seq<Event>) -> bool
    decreases events.len(),
{
    events.len() > 0 ==> all_fair(events.drop_last()) && fair(
        run(events.drop_last()),
        events.last(),
    )
}

/// Where the `k`-th block of a piece begins.
pub open spec fn begin_of(piece: Piece, k: int) -> u32 {
    nth_block(piece.piece_len, k).begin
}

/// The message asks for a block of an ordered piece.
pub open spec fn is_proper(ordered: Seq<Piece>, msg: Msg) -> bool {
    exists|j: int, k: int|
        0 <= j < ordered.len() && 0 <= k < block_count(ordered[j]) && msg == #[trigger] request_for(
            ordered[j],
            nth_block(ordered[j].piece_len, k),
        )
}

/// Every message but the first asks for a block of an ordered piece.
pub open spec fn all_proper(ordered: Seq<Piece>, sent: Seq<Msg>) -> bool {
    forall|i: int| 1 <= i < sent.len() ==> is_proper(ordered, #[trigger] sent[i])
}

/// No two messages ask for the same block.
pub open spec fn none_twice(sent: Seq<Msg>) -> bool {
    forall|i: int, j: int, piece_idx: u32, begin: u32|
        0 <= i < j < sent.len() && #[trigger] asks(sent[i], piece_idx, begin)
            ==> !#[trigger] asks(sent[j], piece_idx, begin)
}

/// The log says of a piece in flight what its lists say: a block was asked for
/// if it does not wait to be, and each block that has come was answered, once.
pub open spec fn matches_log(
    sent: Seq<Msg>,
    answered: Seq<(u32, u32)>,
    flight: Flight,
) -> bool {
    let piece = flight.piece;
    &&& forall|k: int|
        0 <= k < block_count(piece) ==> (asked(
            sent,
            piece.piece_idx,
            #[trigger] begin_of(piece, k),
        ) <==> !flight.unasked.contains(nth_block(piece.piece_len, k)))
    &&& forall|j: int|
        0 <= j < flight.ready.len() ==> answered.contains(
            (piece.piece_idx, (#[trigger] flight.ready[j]).begin),
        )
    &&& forall|i: int, j: int|
        0 <= i < j < flight.ready.len() ==> (#[trigger] flight.ready[i]).begin != (
        #[trigger] flight.ready[j]).begin
}

/// Every block of the piece was asked for and answered.
pub open spec fn all_answered(
    sent: Seq<Msg>,
    answered: Seq<(u32, u32)>,
    piece: Piece,
) -> bool {
    forall|k: int|
        0 <= k < block_count(piece) ==> {
            &&& asked(sent, piece.piece_idx, #[trigger] begin_of(piece, k))
            &&& answered.contains((piece.piece_idx, begin_of(piece, k)))
        }
}

/// A finished piece is complete, its blocks are in order, and it has the hash
/// that was published.
pub open spec fn is_right(flight: Flight) -> bool {
    &&& is_complete(flight)
    &&& sorted_by(flight.ready, block_order())
    &&& sha1_digest(joined_data(flight.ready)) == flight.piece.piece_hash@
}

/// All pieces: those that wait, those in flight, and those that are finished.
pub open spec fn all_pieces(c: Course) -> Seq<Piece> {
    pieces(c.peer) + pieces_of(c.finished)
}

/// What is true whatever is ordered and whatever the peer sends: every ordered
/// piece waits, is in flight or is finished, and no other is; pieces are asked
/// for in turn; only blocks of ordered pieces are; and what is finished is right.
pub open spec fn kept(c: Course) -> bool {
    &&& all_pieces(c).to_multiset() == c.ordered.to_multiset()
    &&& all_in_turn(c.peer)
    &&& c.sent.len() > 0
    &&& c.sent[0] == Msg::Interested
    &&& all_proper(c.ordered, c.sent)
    &&& forall|i: int| 0 <= i < c.finished.len() ==> is_right(#[trigger] c.finished[i])
}

/// The log and what is known of the peer fit together.
pub open spec fn fits(c: Course) -> bool {
    &&& kept(c)
    &&& distinct(c.ordered)
    &&& none_empty(c.peer.queue)
    &&& none_twice(c.sent)
    &&& forall|i: int|
        0 <= i < answers(c).len() ==> asked(
            c.sent,
            (#[trigger] answers(c)[i]).0,
            answers(c)[i].1,
        )
    &&& forall|i: int, begin: u32|
        0 <= i < c.peer.queue.len() ==> !#[trigger] asked(
            c.sent,
            c.peer.queue[i].piece_idx,
            begin,
        )
    &&& forall|i: int|
        0 <= i < c.peer.flights.len() ==> matches_log(
            c.sent,
            answers(c),
            #[trigger] c.peer.flights[i],
        )
    &&& forall|i: int|
        0 <= i < c.finished.len() ==> all_answered(
            c.sent,
            answers(c),
            (#[trigger] c.finished[i]).piece,
        )
}

/// What is true at every moment.
pub open spec fn holds(c: Course) -> bool {
    &&& fits(c)
    &&& balanced(c.peer)
    &&& busy(c.peer)
    &&& c.peer.blocks_in_flight == c.sent.len() - 1 - c.came.len()
}

/// No two pieces that wait, are in flight or are finished have the same number.
spec fn apart(c: Course) -> bool {
    &&& forall|i: int, j: int|
        0 <= i < j < c.peer.queue.len() ==> (#[trigger] c.peer.queue[i]).piece_idx != (
        #[trigger] c.peer.queue[j]).piece_idx
    &&& forall|i: int, j: int|
        0 <= i < c.peer.queue.len() && 0 <= j < c.peer.flights.len() ==> (
        #[trigger] c.peer.queue[i]).piece_idx != (#[trigger] c.peer.flights[j]).piece.piece_idx
    &&& forall|i: int, j: int|
        0 <= i < c.peer.flights.len() && 0 <= j < c.peer.flights.len() && i != j ==> (
        #[trigger] c.peer.flights[i]).piece.piece_idx != (
        #[trigger] c.peer.flights[j]).piece.piece_idx
    &&& forall|i: int, j: int|
        0 <= i < c.peer.flights.len() && 0 <= j < c.finished.len() ==> (
        #[trigger] c.peer.flights[i]).piece.piece_idx != (
        #[trigger] c.finished[j]).piece.piece_idx
    &&& forall|i: int, j: int|
        0 <= i < j < c.finished.len() ==> (#[trigger] c.finished[i]).piece.piece_idx != (
        #[trigger] c.finished[j]).piece.piece_idx
}

/// The pieces that wait, are in flight or are finished were ordered.
spec fn were_ordered(c: Course) -> bool {
    &&& forall|i: int|
        0 <= i < c.peer.queue.len() ==> c.ordered.contains(#[trigger] c.peer.queue[i])
    &&& forall|i: int|
        0 <= i < c.peer.flights.len() ==> c.ordered.contains(
            (#[trigger] c.peer.flights[i]).piece,
        )
    &&& forall|i: int|
        0 <= i < c.finished.len() ==> c.ordered.contains((#[trigger] c.finished[i]).piece)
}

proof fn lemma_apart(c: Course)
    requires
        distinct(c.ordered),
        all_pieces(c).to_multiset() == c.ordered.to_multiset(),
    ensures
        apart(c),
        were_ordered(c),
{
    let all = all_pieces(c);
    let (queue, flights, finished) = (c.peer.queue, c.peer.flights, c.finished);
    let n = queue.len() as int;
    let m = n + flights.len();
    lemma_same_distinct(c.ordered, all);
    assert forall|i: int| 0 <= i < n implies #[trigger] queue[i] == all[i] by {}
    assert forall|i: int| 0 <= i < flights.len() implies (#[trigger] flights[i]).piece == all[n
        + i] by {}
    assert forall|i: int| 0 <= i < finished.len() implies (#[trigger] finished[i]).piece == all[m
        + i] by {}
    assert forall|i: int| 0 <= i < n implies c.ordered.contains(#[trigger] queue[i]) by {
        lemma_same_member(all, c.ordered, i);
    }
    assert forall|i: int| 0 <= i < flights.len() implies c.ordered.contains(
        (#[trigger] flights[i]).piece,
    ) by {
        lemma_same_member(all, c.ordered, n + i);
    }
    assert forall|i: int| 0 <= i < finished.len() implies c.ordered.contains(
        (#[trigger] finished[i]).piece,
    ) by {
        lemma_same_member(all, c.ordered, m + i);
    }
    assert forall|i: int, j: int|
        0 <= i < flights.len() && 0 <= j < flights.len() && i != j implies (
    #[trigger] flights[i]).piece.piece_idx != (#[trigger] flights[j]).piece.piece_idx by {
        if i < j {
            assert(all[n + i].piece_idx != all[n + j].piece_idx);
        } else {
            assert(all[n + j].piece_idx != all[n + i].piece_idx);
        }
    }
    assert forall|i: int, j: int| 0 <= i < n && 0 <= j < flights.len() implies (
    #[trigger] queue[i]).piece_idx != (#[trigger] flights[j]).piece.piece_idx by {
        assert(all[i].piece_idx != all[n + j].piece_idx);
    }
    assert forall|i: int, j: int|
        0 <= i < flights.len() && 0 <= j < finished.len() implies (
    #[trigger] flights[i]).piece.piece_idx != (#[trigger] finished[j]).piece.piece_idx by {
        assert(all[n + i].piece_idx != all[m + j].piece_idx);
    }
    assert forall|i: int, j: int| 0 <= i < j < finished.len() implies (
    #[trigger] finished[i]).piece.piece_idx != (#[trigger] finished[j]).piece.piece_idx by {
        assert(all[m + i].piece_idx != all[m + j].piece_idx);
    }
}

proof fn lemma_begin_of(piece: Piece, k: int)
    requires
        0 <= k < block_count(piece),
    ensures
        begin_of(piece, k) == k * BLOCK_SIZE,
        k * BLOCK_SIZE < piece.piece_len,
{
    lemma_parts_in(piece.piece_len as int, BLOCK_SIZE as int);
    assert(k * BLOCK_SIZE < piece.piece_len);
}

proof fn lemma_waits(flight: Flight, a: int, b: int)
    requires
        is_range(flight, a, b),
    ensures
        forall|k: int|
            0 <= k < block_count(flight.piece) ==> (flight.unasked.contains(
                #[trigger] nth_block(flight.piece.piece_len, k),
            ) <==> a <= k < b),
{
    let len = flight.piece.piece_len;
    assert forall|k: int| 0 <= k < block_count(flight.piece) implies (flight.unasked.contains(
        #[trigger] nth_block(len, k),
    ) <==> a <= k < b) by {
        if a <= k < b {
            assert(flight.unasked[k - a] == nth_block(len, k));
        }
        if flight.unasked.contains(nth_block(len, k)) {
            let i = choose|i: int|
                0 <= i < flight.unasked.len() && flight.unasked[i] == nth_block(len, k);
            assert(flight.unasked[i] == nth_block(len, a + i));
            lemma_begin_of(flight.piece, a + i);
            lemma_begin_of(flight.piece, k);
            assert(begin_of(flight.piece, k) == begin_of(flight.piece, a + i));
        }
    }
}

proof fn lemma_asked_push(sent: Seq<Msg>, msg: Msg)
    ensures
        forall|piece_idx: u32, begin: u32| #[trigger]
            asked(sent.push(msg), piece_idx, begin) <==> asked(sent, piece_idx, begin) || asks(
                msg,
                piece_idx,
                begin,
            ),
{
    let after = sent.push(msg);
    assert forall|piece_idx: u32, begin: u32| #[trigger]
        asked(after, piece_idx, begin) <==> asked(sent, piece_idx, begin) || asks(
            msg,
            piece_idx,
            begin,
        ) by {
        if asked(after, piece_idx, begin) {
            let i = choose|i: int|
                0 <= i < after.len() && #[trigger] asks(after[i], piece_idx, begin);
            if i < sent.len() {
                assert(asks(sent[i], piece_idx, begin));
            }
        }
        if asked(sent, piece_idx, begin) {
            let i = choose|i: int|
                0 <= i < sent.len() && #[trigger] asks(sent[i], piece_idx, begin);
            assert(asks(after[i], piece_idx, begin));
        }
        if asks(msg, piece_idx, begin) {
            assert(asks(after[sent.len() as int], piece_idx, begin));
        }
    }
}

proof fn lemma_none_twice_push(sent: Seq<Msg>, msg: Msg, piece_idx: u32, begin: u32)
    requires
        none_twice(sent),
        asks(msg, piece_idx, begin),
        !asked(sent, piece_idx, begin),
    ensures
        none_twice(sent.push(msg)),
{
    let after = sent.push(msg);
    assert forall|i: int, j: int, p: u32, b: u32|
        0 <= i < j < after.len() && #[trigger] asks(after[i], p, b) implies !#[trigger] asks(
        after[j],
        p,
        b,
    ) by {
        assert(asks(sent[i], p, b));
        if j < sent.len() {
            assert(after[j] == sent[j]);
        }
    }
}

/// A block that was asked for is one of its piece.
proof fn lemma_asked_block(c: Course, piece: Piece, begin: u32) -> (k: int)
    requires
        fits(c),
        c.ordered.contains(piece),
        asked(c.sent, piece.piece_idx, begin),
    ensures
        0 <= k < block_count(piece),
        begin == begin_of(piece, k),
{
    let i = choose|i: int|
        0 <= i < c.sent.len() && #[trigger] asks(c.sent[i], piece.piece_idx, begin);
    assert(is_proper(c.ordered, c.sent[i]));
    let (j, k) = choose|j: int, k: int|
        0 <= j < c.ordered.len() && 0 <= k < block_count(c.ordered[j]) && c.sent[i]
            == #[trigger] request_for(c.ordered[j], nth_block(c.ordered[j].piece_len, k));
    let x = choose|x: int| 0 <= x < c.ordered.len() && c.ordered[x] == piece;
    if x < j {
        assert(c.ordered[x].piece_idx != c.ordered[j].piece_idx);
    } else if j < x {
        assert(c.ordered[j].piece_idx != c.ordered[x].piece_idx);
    }
    k
}

/// What has happened when a block has come and the next one is asked for.
spec fn course_gone_on(c: Course) -> Course {
    let (peer, request) = gone_on(c.peer);
    Course {
        peer,
        sent: match request {
            Some(msg) => c.sent.push(msg),
            None => c.sent,
        },
        ..c
    }
}

proof fn lemma_gone_on_fits(c: Course)
    requires
        fits(c),
    ensures
        fits(course_gone_on(c)),
{
    let after = course_gone_on(c);
    let (peer, request) = gone_on(c.peer);
    lemma_apart(c);
    lemma_gone_on_in_turn(c.peer);
    lemma_gone_on_keeps_pieces(c.peer);
    lemma_multiset_commutative(pieces(c.peer), pieces_of(c.finished));
    lemma_multiset_commutative(pieces(peer), pieces_of(c.finished));
    lemma_first_open(c.peer.flights);
    match first_open(c.peer.flights) {
        Some(i) => {
            let flight = c.peer.flights[i];
            let piece = flight.piece;
            assert(asked_in_turn(flight));
            let (a, b) = choose|a: int, b: int| #[trigger] is_range(flight, a, b);
            assert(flight.unasked.last() == nth_block(piece.piece_len, b - 1));
            assert(peer.flights[i].unasked =~= block_range(piece.piece_len, a, b - 1));
            assert(is_range(peer.flights[i], a, b - 1));
            lemma_one_more_asked(c, after, piece, b - 1, i, a, b);
        },
        None => {
            if c.peer.queue.len() > 0 {
                let piece = c.peer.queue[0];
                let i = c.peer.flights.len() as int;
                lemma_parts_in(piece.piece_len as int, BLOCK_SIZE as int);
                assert(is_range(peer.flights[i], 1, block_count(piece)));
                assert forall|j: int| 0 <= j < peer.queue.len() implies (
                #[trigger] peer.queue[j]).piece_len > 0 by {
                    assert(peer.queue[j] == c.peer.queue[j + 1]);
                }
                lemma_one_more_begun(c, after, piece);
            }
        },
    }
}

proof fn lemma_one_more_asked(
    c: Course,
    after: Course,
    piece: Piece,
    k: int,
    i: int,
    a: int,
    b: int,
)
    requires
        fits(c),
        apart(c),
        were_ordered(c),
        0 <= i < c.peer.flights.len(),
        c.peer.flights[i].piece == piece,
        is_range(c.peer.flights[i], a, b),
        a < b,
        k == b - 1,
        after.peer.queue == c.peer.queue,
        after.peer.flights.len() == c.peer.flights.len(),
        is_range(after.peer.flights[i], a, b - 1),
        after.peer.flights[i].piece == piece,
        after.peer.flights[i].ready == c.peer.flights[i].ready,
        forall|j: int|
            0 <= j < c.peer.flights.len() && j != i ==> #[trigger] after.peer.flights[j]
                == c.peer.flights[j],
        after.sent == c.sent.push(request_for(piece, nth_block(piece.piece_len, k))),
        after.ordered == c.ordered,
        after.came == c.came,
        after.finished == c.finished,
        all_in_turn(after.peer),
        none_empty(after.peer.queue),
        all_pieces(after).to_multiset() == c.ordered.to_multiset(),
    ensures
        fits(after),
{
    let msg = request_for(piece, nth_block(piece.piece_len, k));
    let begin = begin_of(piece, k);
    assert(answers(after) =~= answers(c));
    lemma_asked_push(c.sent, msg);
    lemma_waits(c.peer.flights[i], a, b);
    lemma_waits(after.peer.flights[i], a, b - 1);
    assert(asks(msg, piece.piece_idx, begin));
    assert(!asked(c.sent, piece.piece_idx, begin)) by {
        assert(c.peer.flights[i].unasked.contains(nth_block(piece.piece_len, k)));
        assert(matches_log(c.sent, answers(c), c.peer.flights[i]));
    }
    lemma_none_twice_push(c.sent, msg, piece.piece_idx, begin);
    assert(all_proper(after.ordered, after.sent)) by {
        let j = choose|j: int| 0 <= j < c.ordered.len() && c.ordered[j] == piece;
        assert(c.ordered.contains(c.peer.flights[i].piece));
        assert(msg == request_for(c.ordered[j], nth_block(c.ordered[j].piece_len, k)));
        assert(is_proper(after.ordered, msg));
    }
    assert forall|j: int| 0 <= j < after.peer.flights.len() implies matches_log(
        after.sent,
        answers(after),
        #[trigger] after.peer.flights[j],
    ) by {
        let flight = after.peer.flights[j];
        assert(matches_log(c.sent, answers(c), c.peer.flights[j]));
        if j == i {
            assert forall|l: int| 0 <= l < block_count(piece) implies (asked(
                after.sent,
                piece.piece_idx,
                #[trigger] begin_of(piece, l),
            ) <==> !flight.unasked.contains(nth_block(piece.piece_len, l))) by {
                lemma_begin_of(piece, l);
                lemma_begin_of(piece, k);
                assert(flight.unasked.contains(nth_block(piece.piece_len, l)) <==> a <= l < b
                    - 1);
            }
        } else {
            assert(flight.piece.piece_idx != c.peer.flights[i].piece.piece_idx);
        }
    }
    assert forall|j: int, begin: u32|
        0 <= j < after.peer.queue.len() implies !#[trigger] asked(
        after.sent,
        after.peer.queue[j].piece_idx,
        begin,
    ) by {
        assert(c.peer.queue[j].piece_idx != c.peer.flights[i].piece.piece_idx);
        assert(!asked(c.sent, c.peer.queue[j].piece_idx, begin));
    }
    assert forall|j: int| 0 <= j < after.finished.len() implies all_answered(
        after.sent,
        answers(after),
        (#[trigger] after.finished[j]).piece,
    ) by {
        assert(all_answered(c.sent, answers(c), c.finished[j].piece));
    }
}

proof fn lemma_one_more_begun(c: Course, after: Course, piece: Piece)
    requires
        fits(c),
        apart(c),
        were_ordered(c),
        c.peer.queue.len() > 0,
        piece == c.peer.queue[0],
        block_count(piece) > 0,
        after.peer.queue == c.peer.queue.skip(1),
        after.peer.flights == c.peer.flights.push(after.peer.flights.last()),
        after.peer.flights.last().piece == piece,
        after.peer.flights.last().ready.len() == 0,
        is_range(after.peer.flights.last(), 1, block_count(piece)),
        after.sent == c.sent.push(request_for(piece, nth_block(piece.piece_len, 0))),
        after.ordered == c.ordered,
        after.came == c.came,
        after.finished == c.finished,
        all_in_turn(after.peer),
        none_empty(after.peer.queue),
        all_pieces(after).to_multiset() == c.ordered.to_multiset(),
    ensures
        fits(after),
{
    let msg = request_for(piece, nth_block(piece.piece_len, 0));
    let begin = begin_of(piece, 0);
    let started = after.peer.flights.last();
    assert(answers(after) =~= answers(c));
    lemma_asked_push(c.sent, msg);
    lemma_waits(started, 1, block_count(piece));
    assert(asks(msg, piece.piece_idx, begin));
    assert(!asked(c.sent, c.peer.queue[0].piece_idx, begin));
    lemma_none_twice_push(c.sent, msg, piece.piece_idx, begin);
    assert(all_proper(after.ordered, after.sent)) by {
        assert(c.ordered.contains(c.peer.queue[0]));
        let j = choose|j: int| 0 <= j < c.ordered.len() && c.ordered[j] == piece;
        assert(msg == request_for(c.ordered[j], nth_block(c.ordered[j].piece_len, 0)));
        assert(is_proper(after.ordered, msg));
    }
    assert forall|j: int| 0 <= j < after.peer.flights.len() implies matches_log(
        after.sent,
        answers(after),
        #[trigger] after.peer.flights[j],
    ) by {
        if j < c.peer.flights.len() {
            assert(after.peer.flights[j] == c.peer.flights[j]);
            assert(matches_log(c.sent, answers(c), c.peer.flights[j]));
            assert(c.peer.queue[0].piece_idx != c.peer.flights[j].piece.piece_idx);
        } else {
            assert(after.peer.flights[j] == started);
            assert forall|l: int| 0 <= l < block_count(piece) implies (asked(
                after.sent,
                piece.piece_idx,
                #[trigger] begin_of(piece, l),
            ) <==> !started.unasked.contains(nth_block(piece.piece_len, l))) by {
                lemma_begin_of(piece, l);
                lemma_begin_of(piece, 0);
                assert(!asked(c.sent, c.peer.queue[0].piece_idx, begin_of(piece, l)));
                assert(started.unasked.contains(nth_block(piece.piece_len, l)) <==> 1 <= l
                    < block_count(piece));
            }
        }
    }
    assert forall|j: int, begin: u32|
        0 <= j < after.peer.queue.len() implies !#[trigger] asked(
        after.sent,
        after.peer.queue[j].piece_idx,
        begin,
    ) by {
        assert(after.peer.queue[j] == c.peer.queue[j + 1]);
        assert(c.peer.queue[0].piece_idx != c.peer.queue[j + 1].piece_idx);
        assert(!asked(c.sent, c.peer.queue[j + 1].piece_idx, begin));
    }
    assert forall|j: int| 0 <= j < after.finished.len() implies all_answered(
        after.sent,
        answers(after),
        (#[trigger] after.finished[j]).piece,
    ) by {
        assert(all_answered(c.sent, answers(c), c.finished[j].piece));
    }
}

/// Different numbers outside of a range are at most as many as there are.
proof fn lemma_count(numbers: Seq<int>, a: int, b: int, n: int)
    requires
        0 <= a <= b <= n,
        numbers.no_duplicates(),
        forall|i: int|
            0 <= i < numbers.len() ==> 0 <= #[trigger] numbers[i] < n && !(a <= numbers[i] < b),
    ensures
        numbers.len() <= n - (b - a),
        numbers.len() == n - (b - a) ==> forall|k: int|
            0 <= k < n && !(a <= k < b) ==> #[trigger] numbers.contains(k),
{
    let low = set_int_range(0, a);
    let high = set_int_range(b, n);
    let all = low + high;
    lemma_int_range(0, a);
    lemma_int_range(b, n);
    lemma_set_disjoint_lens(low, high);
    assert(low.disjoint(high));
    numbers.unique_seq_to_set();
    assert(numbers.to_set().subset_of(all)) by {
        assert forall|k: int| numbers.to_set().contains(k) implies all.contains(k) by {
            assert(numbers.contains(k));
        }
    }
    lemma_len_subset(numbers.to_set(), all);
    if numbers.len() == n - (b - a) {
        lemma_subset_equality(numbers.to_set(), all);
        assert forall|k: int| 0 <= k < n && !(a <= k < b) implies #[trigger] numbers.contains(
            k,
        ) by {
            assert(all.contains(k));
            assert(numbers.to_set().contains(k));
        }
    }
}

/// The numbers of the blocks.
spec fn numbers_of(blocks: Seq<Block>) -> Seq<int> {
    Seq::new(blocks.len(), |i: int| (blocks[i].begin / BLOCK_SIZE) as int)
}

/// The blocks that have come of a piece are different blocks of it that were
/// asked for; where as many have come as it has, all have.
proof fn lemma_ready(c: Course, i: int)
    requires
        fits(c),
        0 <= i < c.peer.flights.len(),
    ensures
        outstanding(c.peer.flights[i]) >= 0,
        is_complete(c.peer.flights[i]) ==> all_answered(
            c.sent,
            answers(c),
            c.peer.flights[i].piece,
        ),
{
    let flight = c.peer.flights[i];
    let piece = flight.piece;
    let n = block_count(piece);
    let numbers = numbers_of(flight.ready);
    assert(asked_in_turn(flight));
    let (a, b) = choose|a: int, b: int| #[trigger] is_range(flight, a, b);
    lemma_apart(c);
    lemma_waits(flight, a, b);
    assert(matches_log(c.sent, answers(c), flight));
    assert forall|j: int| 0 <= j < numbers.len() implies {
        &&& 0 <= #[trigger] numbers[j] < n
        &&& !(a <= numbers[j] < b)
        &&& flight.ready[j].begin == numbers[j] * BLOCK_SIZE
    } by {
        let begin = flight.ready[j].begin;
        assert(answers(c).contains((piece.piece_idx, begin)));
        let x = choose|x: int|
            0 <= x < answers(c).len() && answers(c)[x] == (piece.piece_idx, begin);
        assert(asked(c.sent, answers(c)[x].0, answers(c)[x].1));
        assert(c.ordered.contains(c.peer.flights[i].piece));
        let k = lemma_asked_block(c, piece, begin);
        lemma_begin_of(piece, k);
        assert(!flight.unasked.contains(nth_block(piece.piece_len, k)));
        assert(numbers[j] == k);
    }
    assert(numbers.no_duplicates()) by {
        assert forall|x: int, y: int|
            0 <= x < numbers.len() && 0 <= y < numbers.len() && x != y implies numbers[x]
            != numbers[y] by {
            if x < y {
                assert(flight.ready[x].begin != flight.ready[y].begin);
            } else {
                assert(flight.ready[y].begin != flight.ready[x].begin);
            }
        }
    }
    lemma_count(numbers, a, b, n);
    if is_complete(flight) {
        assert forall|k: int| 0 <= k < n implies {
            &&& asked(c.sent, piece.piece_idx, #[trigger] begin_of(piece, k))
            &&& answers(c).contains((piece.piece_idx, begin_of(piece, k)))
        } by {
            assert(numbers.contains(k));
            let j = choose|j: int| 0 <= j < numbers.len() && numbers[j] == k;
            lemma_begin_of(piece, k);
            assert(flight.ready[j].begin == begin_of(piece, k));
            assert(!flight.unasked.contains(nth_block(piece.piece_len, k)));
        }
    }
}

/// A block that was asked for and has not come is of a piece in flight.
proof fn lemma_in_flight(c: Course, piece_idx: u32, begin: u32) -> (pos: int)
    requires
        fits(c),
        asked(c.sent, piece_idx, begin),
        !answers(c).contains((piece_idx, begin)),
    ensures
        0 <= pos < c.peer.flights.len(),
        flight_with(c.peer.flights, piece_idx) == Some(pos),
        c.peer.flights[pos].piece.piece_idx == piece_idx,
{
    let all = all_pieces(c);
    let n = c.peer.queue.len() as int;
    let m = n + c.peer.flights.len();
    let i = choose|i: int| 0 <= i < c.sent.len() && #[trigger] asks(c.sent[i], piece_idx, begin);
    assert(is_proper(c.ordered, c.sent[i]));
    let (j, k) = choose|j: int, k: int|
        0 <= j < c.ordered.len() && 0 <= k < block_count(c.ordered[j]) && c.sent[i]
            == #[trigger] request_for(c.ordered[j], nth_block(c.ordered[j].piece_len, k));
    lemma_same_member(c.ordered, all, j);
    let x = choose|x: int| 0 <= x < all.len() && all[x] == c.ordered[j];
    if x < n {
        assert(c.peer.queue[x] == c.ordered[j]);
        assert(!asked(c.sent, c.peer.queue[x].piece_idx, begin));
    } else if x >= m {
        let done = c.finished[x - m];
        assert(done.piece == c.ordered[j]);
        assert(all_answered(c.sent, answers(c), done.piece));
        assert(answers(c).contains((done.piece.piece_idx, begin_of(done.piece, k))));
    }
    assert(c.peer.flights[x - n].piece == c.ordered[j]);
    lemma_flight_with(c.peer.flights, piece_idx);
    flight_with(c.peer.flights, piece_idx)->0
}

/// What has happened when a block has come.
spec fn course_with_block(c: Course, pos: int, block: Block) -> Course {
    Course {
        peer: with_block(c.peer, pos, block),
        came: c.came.push((c.peer.flights[pos].piece.piece_idx, block)),
        ..c
    }
}

proof fn lemma_with_block_fits(c: Course, pos: int, block: Block)
    requires
        fits(c),
        0 <= pos < c.peer.flights.len(),
        asked(c.sent, c.peer.flights[pos].piece.piece_idx, block.begin),
        !answers(c).contains((c.peer.flights[pos].piece.piece_idx, block.begin)),
    ensures
        fits(course_with_block(c, pos, block)),
{
    let after = course_with_block(c, pos, block);
    let key = (c.peer.flights[pos].piece.piece_idx, block.begin);
    assert(answers(after) =~= answers(c).push(key));
    lemma_same_asked(c.peer, after.peer);
    assert(pieces_of(after.peer.flights) =~= pieces_of(c.peer.flights));
    assert forall|k: (u32, u32)| answers(c).contains(k) implies #[trigger] answers(after).contains(
        k,
    ) by {
        let x = choose|x: int| 0 <= x < answers(c).len() && answers(c)[x] == k;
        assert(answers(after)[x] == k);
    }
    assert(answers(after)[answers(c).len() as int] == key);
    assert(answers(after).contains(key));
    assert forall|i: int| 0 <= i < answers(after).len() implies asked(
        after.sent,
        (#[trigger] answers(after)[i]).0,
        answers(after)[i].1,
    ) by {
        if i < answers(c).len() {
            assert(asked(c.sent, answers(c)[i].0, answers(c)[i].1));
        }
    }
    assert forall|i: int| 0 <= i < after.peer.flights.len() implies matches_log(
        after.sent,
        answers(after),
        #[trigger] after.peer.flights[i],
    ) by {
        let flight = after.peer.flights[i];
        let was = c.peer.flights[i];
        assert(matches_log(c.sent, answers(c), was));
        if i == pos {
            assert forall|j: int| 0 <= j < flight.ready.len() implies answers(after).contains(
                (flight.piece.piece_idx, (#[trigger] flight.ready[j]).begin),
            ) by {
                if j < was.ready.len() {
                    assert(answers(c).contains((was.piece.piece_idx, was.ready[j].begin)));
                }
            }
            assert forall|x: int, y: int| 0 <= x < y < flight.ready.len() implies (
            #[trigger] flight.ready[x]).begin != (#[trigger] flight.ready[y]).begin by {
                assert(flight.ready[x] == was.ready[x]);
                assert(answers(c).contains((was.piece.piece_idx, was.ready[x].begin)));
                if y < was.ready.len() {
                    assert(flight.ready[y] == was.ready[y]);
                }
            }
        } else {
            assert(flight == was);
            assert forall|j: int| 0 <= j < flight.ready.len() implies answers(after).contains(
                (flight.piece.piece_idx, (#[trigger] flight.ready[j]).begin),
            ) by {
                assert(answers(c).contains((was.piece.piece_idx, was.ready[j].begin)));
            }
        }
    }
    assert forall|i: int| 0 <= i < after.finished.len() implies all_answered(
        after.sent,
        answers(after),
        (#[trigger] after.finished[i]).piece,
    ) by {
        let piece = c.finished[i].piece;
        assert(all_answered(c.sent, answers(c), piece));
        assert forall|k: int| 0 <= k < block_count(piece) implies {
            &&& asked(after.sent, piece.piece_idx, #[trigger] begin_of(piece, k))
            &&& answers(after).contains((piece.piece_idx, begin_of(piece, k)))
        } by {
            assert(answers(c).contains((piece.piece_idx, begin_of(piece, k))));
        }
    }
}

/// What has happened when a piece is finished.
spec fn course_finished(c: Course, pos: int, done: Flight) -> Course {
    Course { peer: without_piece(c.peer, pos), finished: c.finished.push(done), ..c }
}

proof fn lemma_finished_fits(c: Course, pos: int, done: Flight)
    requires
        fits(c),
        0 <= pos < c.peer.flights.len(),
        is_complete(c.peer.flights[pos]),
        done.piece == c.peer.flights[pos].piece,
        is_right(done),
    ensures
        fits(course_finished(c, pos, done)),
{
    broadcast use vstd::multiset::group_multiset_axioms;

    let after = course_finished(c, pos, done);
    let rest = after.peer;
    let last = c.peer.flights.len() - 1;
    lemma_ready(c, pos);
    lemma_without_piece_takes_it(c.peer, pos);
    lemma_multiset_commutative(pieces(c.peer), pieces_of(c.finished));
    lemma_multiset_commutative(pieces(rest), pieces_of(after.finished));
    assert(pieces_of(after.finished) =~= pieces_of(c.finished).push(done.piece));
    to_multiset_build(pieces_of(c.finished), done.piece);
    assert(all_pieces(after).to_multiset() =~= all_pieces(c).to_multiset());
    assert forall|i: int| 0 <= i < rest.flights.len() implies {
        &&& asked_in_turn(#[trigger] rest.flights[i])
        &&& matches_log(after.sent, answers(after), rest.flights[i])
    } by {
        let j = if i == pos {
            last
        } else {
            i
        };
        assert(rest.flights[i] == c.peer.flights[j]);
    }
    assert forall|i: int| 0 <= i < after.finished.len() implies all_answered(
        after.sent,
        answers(after),
        (#[trigger] after.finished[i]).piece,
    ) by {
        if i < c.finished.len() {
            assert(after.finished[i] == c.finished[i]);
        }
    }
}

/// A piece turned out to be wrong, and nothing more was sent or reported: not
/// that piece either.
pub open spec fn wrong_piece(before: Course, after: Course) -> bool {
    &&& after.ordered == before.ordered
    &&& after.sent == before.sent
    &&& after.finished == before.finished
    &&& after.came.len() > 0
    &&& after.came.drop_last() == before.came
    &&& after.came.len() <= after.sent.len() - 1
    &&& exists|i: int|
        0 <= i < after.ordered.len() && (#[trigger] after.ordered[i]).piece_idx
            == after.came.last().0
    &&& forall|i: int|
        0 <= i < after.finished.len() ==> (#[trigger] after.finished[i]).piece.piece_idx
            != after.came.last().0
}

/// A message of a fair peer can be dealt with; unless a piece turns out to be
/// wrong, all stays true.
proof fn lemma_message_holds(c: Course, msg: Msg)
    requires
        holds(c),
        fair(c, Event::Message(msg)),
    ensures
        acceptable(c.peer, msg),
        !advanced(c, Event::Message(msg)).failed ==> holds(advanced(c, Event::Message(msg))),
        advanced(c, Event::Message(msg)).failed ==> wrong_piece(
            c,
            advanced(c, Event::Message(msg)),
        ),
{
    let after = advanced(c, Event::Message(msg));
    lemma_apart(c);
    if let Msg::BlockResponse { piece_idx, begin, data } = msg {
        let pos = lemma_in_flight(c, piece_idx, begin);
        let block = Block { begin, data };
        let c1 = course_with_block(c, pos, block);
        let kept = c1.peer;
        lemma_with_block_fits(c, pos, block);
        lemma_ready(c1, pos);
        assert(outstanding(kept.flights[pos]) == outstanding(c.peer.flights[pos]) - 1);
        assert(solicited(c.peer, msg));
        lemma_received_is_balanced(c.peer, msg);
        lemma_received_is_busy(c.peer, msg);
        lemma_solicited_is_counted(c.peer, msg);
        if after.failed {
            let piece = c.peer.flights[pos].piece;
            assert(c.ordered.contains(piece));
            let x = choose|x: int| 0 <= x < c.ordered.len() && c.ordered[x] == piece;
            assert(after.came.last().0 == piece_idx);
            assert(after.ordered[x].piece_idx == piece_idx);
            assert forall|i: int| 0 <= i < after.finished.len() implies (
            #[trigger] after.finished[i]).piece.piece_idx != piece_idx by {
                assert(c.finished[i].piece.piece_idx != c.peer.flights[pos].piece.piece_idx);
            }
            assert(after.came.drop_last() =~= c.came);
        } else {
            if is_complete(kept.flights[pos]) {
                let sorted = with_order(kept, pos);
                let done = sorted.flights[pos];
                let c2 = course_finished(c1, pos, done);
                lemma_finished_is_right(c.peer, msg);
                lemma_finished_fits(c1, pos, done);
                assert(without_piece(sorted, pos).flights =~= c2.peer.flights);
                assert(without_piece(sorted, pos) == c2.peer);
                lemma_gone_on_fits(c2);
                assert(after == course_gone_on(c2));
            } else {
                lemma_gone_on_fits(c1);
                assert(after == course_gone_on(c1));
            }
        }
    } else {
        lemma_received_is_balanced(c.peer, msg);
        lemma_received_is_busy(c.peer, msg);
        assert(after.peer.flights == c.peer.flights);
        assert(after.peer.queue == c.peer.queue);
        assert(all_pieces(after) == all_pieces(c));
    }
}

/// One of the first `n` blocks of the piece begins there.
spec fn among_first(piece: Piece, n: int, begin: u32) -> bool {
    exists|k: int| 0 <= k < n && begin == #[trigger] begin_of(piece, k)
}

proof fn lemma_asked_append(sent: Seq<Msg>, piece: Piece, n: int)
    requires
        0 <= n,
    ensures
        forall|piece_idx: u32, begin: u32| #[trigger]
            asked(sent + requests_for(piece, n), piece_idx, begin) <==> asked(
                sent,
                piece_idx,
                begin,
            ) || (piece_idx == piece.piece_idx && among_first(piece, n, begin)),
{
    let more = requests_for(piece, n);
    let after = sent + more;
    assert forall|piece_idx: u32, begin: u32| #[trigger]
        asked(after, piece_idx, begin) <==> asked(sent, piece_idx, begin) || (piece_idx
            == piece.piece_idx && among_first(piece, n, begin)) by {
        if asked(after, piece_idx, begin) {
            let i = choose|i: int|
                0 <= i < after.len() && #[trigger] asks(after[i], piece_idx, begin);
            if i < sent.len() {
                assert(asks(sent[i], piece_idx, begin));
            } else {
                let k = i - sent.len();
                assert(after[i] == more[k]);
                assert(begin == begin_of(piece, k));
            }
        }
        if asked(sent, piece_idx, begin) {
            let i = choose|i: int|
                0 <= i < sent.len() && #[trigger] asks(sent[i], piece_idx, begin);
            assert(asks(after[i], piece_idx, begin));
        }
        if piece_idx == piece.piece_idx && among_first(piece, n, begin) {
            let k = choose|k: int| 0 <= k < n && begin == #[trigger] begin_of(piece, k);
            assert(after[sent.len() + k] == more[k]);
            assert(asks(after[sent.len() + k], piece_idx, begin));
        }
    }
}

/// Nothing of a piece that was not ordered was asked for.
proof fn lemma_not_asked(c: Course, piece: Piece)
    requires
        fits(c),
        fair(c, Event::Order(piece)),
    ensures
        forall|begin: u32| !#[trigger] asked(c.sent, piece.piece_idx, begin),
{
    assert forall|begin: u32| !#[trigger] asked(c.sent, piece.piece_idx, begin) by {
        if asked(c.sent, piece.piece_idx, begin) {
            let i = choose|i: int|
                0 <= i < c.sent.len() && #[trigger] asks(c.sent[i], piece.piece_idx, begin);
            assert(is_proper(c.ordered, c.sent[i]));
            let (j, k) = choose|j: int, k: int|
                0 <= j < c.ordered.len() && 0 <= k < block_count(c.ordered[j]) && c.sent[i]
                    == #[trigger] request_for(
                    c.ordered[j],
                    nth_block(c.ordered[j].piece_len, k),
                );
            assert(c.ordered[j].piece_idx != piece.piece_idx);
        }
    }
}

/// An order keeps what is true whatever happens.
proof fn lemma_order_keeps(c: Course, piece: Piece)
    requires
        kept(c),
    ensures
        kept(advanced(c, Event::Order(piece))),
{
    broadcast use vstd::multiset::group_multiset_axioms;

    let after = advanced(c, Event::Order(piece));
    let n = askable(c.peer, piece);
    lemma_parts_in(piece.piece_len as int, BLOCK_SIZE as int);
    lemma_with_piece_in_turn(c.peer, piece);
    lemma_with_piece_adds_it(c.peer, piece);
    lemma_multiset_commutative(pieces(c.peer), pieces_of(c.finished));
    lemma_multiset_commutative(pieces(after.peer), pieces_of(c.finished));
    to_multiset_build(c.ordered, piece);
    assert(all_pieces(after).to_multiset() =~= after.ordered.to_multiset());
    assert forall|i: int| 1 <= i < after.sent.len() implies is_proper(
        after.ordered,
        #[trigger] after.sent[i],
    ) by {
        if i < c.sent.len() {
            assert(is_proper(c.ordered, c.sent[i]));
            let (j, k) = choose|j: int, k: int|
                0 <= j < c.ordered.len() && 0 <= k < block_count(c.ordered[j]) && c.sent[i]
                    == #[trigger] request_for(
                    c.ordered[j],
                    nth_block(c.ordered[j].piece_len, k),
                );
            assert(after.ordered[j] == c.ordered[j]);
            assert(after.sent[i] == request_for(
                after.ordered[j],
                nth_block(after.ordered[j].piece_len, k),
            ));
        } else {
            let j = c.ordered.len() as int;
            let k = i - c.sent.len();
            assert(after.ordered[j] == piece);
            assert(after.sent[i] == request_for(
                after.ordered[j],
                nth_block(after.ordered[j].piece_len, k),
            ));
        }
    }
}

/// A message that can be dealt with keeps what is true whatever happens.
proof fn lemma_message_keeps(c: Course, msg: Msg)
    requires
        kept(c),
        acceptable(c.peer, msg),
    ensures
        kept(advanced(c, Event::Message(msg))),
{
    broadcast use vstd::multiset::group_multiset_axioms;

    let after = advanced(c, Event::Message(msg));
    let (peer, outcome) = received(c.peer, msg);
    let (was, now) = (pieces_of(c.finished), pieces_of(after.finished));
    lemma_received_in_turn(c.peer, msg);
    lemma_received_keeps_pieces(c.peer, msg);
    lemma_finished_is_right(c.peer, msg);
    lemma_multiset_commutative(pieces(c.peer), was);
    lemma_multiset_commutative(pieces(peer), now);
    if let Ok((Some(done), _)) = outcome {
        assert(now =~= was.push(done.piece));
        to_multiset_build(was, done.piece);
    } else {
        assert(now =~= was);
    }
    assert(all_pieces(after).to_multiset() =~= all_pieces(c).to_multiset());
    assert forall|i: int| 1 <= i < after.sent.len() implies is_proper(
        after.ordered,
        #[trigger] after.sent[i],
    ) by {
        if i < c.sent.len() {
            assert(after.sent[i] == c.sent[i]);
        } else {
            let request = after.sent[i];
            assert(asks_for_a_block(peer, request));
            let (x, k) = choose|x: int, k: int|
                0 <= x < peer.flights.len() && 0 <= k < block_count(peer.flights[x].piece)
                    && request == #[trigger] request_for(
                    peer.flights[x].piece,
                    nth_block(peer.flights[x].piece.piece_len, k),
                );
            let y = peer.queue.len() + x;
            assert(all_pieces(after)[y] == peer.flights[x].piece);
            lemma_same_member(all_pieces(after), after.ordered, y);
            let j = choose|j: int|
                0 <= j < after.ordered.len() && after.ordered[j] == peer.flights[x].piece;
            assert(request == request_for(
                after.ordered[j],
                nth_block(after.ordered[j].piece_len, k),
            ));
        }
    }
}

/// The event may happen: nothing has failed, and a message can be dealt with.
pub open spec fn allowed(c: Course, event: Event) -> bool {
    &&& !c.failed
    &&& event matches Event::Message(msg) ==> acceptable(c.peer, msg)
}

/// Each of the events may happen when its turn comes.
pub open spec fn all_allowed(events: Seq<Event>) -> bool
    decreases events.len(),
{
    events.len() > 0 ==> all_allowed(events.drop_last()) && allowed(
        run(events.drop_last()),
        events.last(),
    )
}

/// Whatever is ordered, and whatever the peer sends that can be dealt with, that
/// stays true.
pub proof fn lemma_always_kept(events: Seq<Event>)
    requires
        all_allowed(events),
    ensures
        kept(run(events)),
    decreases events.len(),
{
    if events.len() == 0 {
        let c = start();
        assert(all_pieces(c) =~= c.ordered);
    } else {
        lemma_always_kept(events.drop_last());
        match events.last() {
            Event::Order(piece) => {
                lemma_order_keeps(run(events.drop_last()), piece);
            },
            Event::Message(msg) => {
                lemma_message_keeps(run(events.drop_last()), msg);
            },
        }
    }
}

/// An order leaves all true.
proof fn lemma_order_holds(c: Course, piece: Piece)
    requires
        holds(c),
        fair(c, Event::Order(piece)),
    ensures
        holds(advanced(c, Event::Order(piece))),
{
    let after = advanced(c, Event::Order(piece));
    let n = askable(c.peer, piece);
    let count = block_count(piece);
    lemma_parts_in(piece.piece_len as int, BLOCK_SIZE as int);
    assert(0 <= c.peer.blocks_in_flight) by {
        lemma_balanced_counts(c.peer);
    }
    lemma_apart(c);
    lemma_with_piece_is_balanced(c.peer, piece);
    lemma_with_piece_is_busy(c.peer, piece);
    lemma_asked_append(c.sent, piece, n);
    lemma_not_asked(c, piece);

    lemma_order_keeps(c, piece);
    assert forall|i: int, j: int| 0 <= i < j < after.ordered.len() implies (
    #[trigger] after.ordered[i]).piece_idx != (#[trigger] after.ordered[j]).piece_idx by {
        assert(after.ordered[i] == c.ordered[i]);
        if j < c.ordered.len() {
            assert(after.ordered[j] == c.ordered[j]);
        }
    }
    assert forall|i: int, j: int, p: u32, b: u32|
        0 <= i < j < after.sent.len() && #[trigger] asks(after.sent[i], p, b) implies !#[trigger] asks(
        after.sent[j],
        p,
        b,
    ) by {
        if j < c.sent.len() {
            assert(after.sent[j] == c.sent[j]);
            assert(asks(c.sent[i], p, b));
        } else {
            let y = j - c.sent.len();
            assert(after.sent[j] == requests_for(piece, n)[y]);
            lemma_begin_of(piece, y);
            if i < c.sent.len() {
                assert(asks(c.sent[i], p, b));
                assert(asked(c.sent, p, b));
            } else {
                let x = i - c.sent.len();
                assert(after.sent[i] == requests_for(piece, n)[x]);
                lemma_begin_of(piece, x);
                assert(b == begin_of(piece, x));
            }
        }
    }
    assert forall|i: int, begin: u32|
        0 <= i < after.peer.queue.len() implies !#[trigger] asked(
        after.sent,
        after.peer.queue[i].piece_idx,
        begin,
    ) by {
        if i < c.peer.queue.len() {
            assert(after.peer.queue[i] == c.peer.queue[i]);
            assert(c.ordered.contains(c.peer.queue[i]));
            let x = choose|x: int| 0 <= x < c.ordered.len() && c.ordered[x] == c.peer.queue[i];
            assert(c.ordered[x].piece_idx != piece.piece_idx);
            assert(!asked(c.sent, c.peer.queue[i].piece_idx, begin));
        } else {
            assert(after.peer.queue[i] == piece);
        }
    }
    assert forall|i: int| 0 <= i < after.peer.flights.len() implies matches_log(
        after.sent,
        answers(after),
        #[trigger] after.peer.flights[i],
    ) by {
        let flight = after.peer.flights[i];
        if i < c.peer.flights.len() {
            assert(flight == c.peer.flights[i]);
            assert(matches_log(c.sent, answers(c), c.peer.flights[i]));
            assert(c.ordered.contains(c.peer.flights[i].piece));
            let x = choose|x: int|
                0 <= x < c.ordered.len() && c.ordered[x] == c.peer.flights[i].piece;
            assert(c.ordered[x].piece_idx != piece.piece_idx);
        } else {
            assert(is_range(flight, n, count));
            lemma_waits(flight, n, count);
            assert forall|k: int| 0 <= k < count implies (asked(
                after.sent,
                piece.piece_idx,
                #[trigger] begin_of(piece, k),
            ) <==> !flight.unasked.contains(nth_block(piece.piece_len, k))) by {
                lemma_begin_of(piece, k);
                if among_first(piece, n, begin_of(piece, k)) {
                    let x = choose|x: int|
                        0 <= x < n && begin_of(piece, k) == #[trigger] begin_of(piece, x);
                    lemma_begin_of(piece, x);
                }
                assert(flight.unasked.contains(nth_block(piece.piece_len, k)) <==> n <= k
                    < count);
            }
        }
    }
    assert forall|i: int| 0 <= i < after.finished.len() implies all_answered(
        after.sent,
        answers(after),
        (#[trigger] after.finished[i]).piece,
    ) by {
        assert(all_answered(c.sent, answers(c), c.finished[i].piece));
    }
}

/// What is true at every moment is true after any events that may happen, until
/// a piece turns out to be wrong; then nothing more is sent or reported.
pub proof fn lemma_run(events: Seq<Event>)
    requires
        all_fair(events),
    ensures
        !run(events).failed ==> holds(run(events)),
        run(events).failed ==> events.len() > 0 && holds(run(events.drop_last())) && wrong_piece(
            run(events.drop_last()),
            run(events),
        ),
    decreases events.len(),
{
    if events.len() == 0 {
        let c = start();
        lemma_fresh_peer_is_balanced();
        assert(all_pieces(c) =~= c.ordered);
    } else {
        let before = run(events.drop_last());
        lemma_run(events.drop_last());
        match events.last() {
            Event::Order(piece) => {
                lemma_order_holds(before, piece);
            },
            Event::Message(msg) => {
                lemma_message_holds(before, msg);
            },
        }
    }
}

/// Every message of a fair peer can be dealt with.
pub proof fn lemma_fair_is_acceptable(events: Seq<Event>, msg: Msg)
    requires
        all_fair(events),
        fair(run(events), Event::Message(msg)),
    ensures
        acceptable(run(events).peer, msg),
{
    lemma_run(events);
    lemma_message_holds(run(events), msg);
}

/// Events that are fair may happen.
pub proof fn lemma_fair_is_allowed(events: Seq<Event>)
    requires
        all_fair(events),
    ensures
        all_allowed(events),
    decreases events.len(),
{
    if events.len() > 0 {
        lemma_fair_is_allowed(events.drop_last());
        if let Event::Message(msg) = events.last() {
            lemma_fair_is_acceptable(events.drop_last(), msg);
        }
    }
}

/// Whatever is ordered, and whatever the peer sends that can be dealt with: the
/// first message tells the peer that we want to be served. Every later one
/// asks for a block of a piece that was ordered: it begins at a multiple of the
/// length of a block, within the piece, and is as long as a block, or as what is
/// left of the piece.
pub proof fn lemma_what_is_sent(events: Seq<Event>, i: int)
    requires
        all_allowed(events),
        0 <= i < run(events).sent.len(),
    ensures
        i == 0 ==> run(events).sent[i] == Msg::Interested,
        i > 0 ==> exists|j: int|
            0 <= j < run(events).ordered.len() && asks_properly(
                #[trigger] run(events).ordered[j],
                run(events).sent[i],
            ),
{
    lemma_always_kept(events);
    let c = run(events);
    if i > 0 {
        assert(is_proper(c.ordered, c.sent[i]));
        let (j, k) = choose|j: int, k: int|
            0 <= j < c.ordered.len() && 0 <= k < block_count(c.ordered[j]) && c.sent[i]
                == #[trigger] request_for(c.ordered[j], nth_block(c.ordered[j].piece_len, k));
        lemma_begin_of(c.ordered[j], k);
        lemma_blocks_cover(c.ordered[j].piece_len, k);
        assert(asks_properly(c.ordered[j], c.sent[i]));
    }
}

/// The message asks for a stretch of the piece that begins at a multiple of the
/// length of a block and is as long as a block, or as what is left of the piece.
pub open spec fn asks_properly(piece: Piece, msg: Msg) -> bool {
    msg matches Msg::BlockRequest { piece_idx, begin, length } && {
        &&& piece_idx == piece.piece_idx
        &&& begin % BLOCK_SIZE == 0
        &&& begin < piece.piece_len
        &&& length == (if piece.piece_len - begin < BLOCK_SIZE {
            piece.piece_len - begin
        } else {
            BLOCK_SIZE as int
        })
    }
}

/// No block is asked for twice, and none that was asked for waits to be.
pub proof fn lemma_none_is_asked_twice(events: Seq<Event>)
    requires
        all_fair(events),
    ensures
        none_twice(run(events).sent),
        !run(events).failed ==> forall|i: int, j: int|
            0 <= i < run(events).peer.flights.len() && 0 <= j < run(
                events,
            ).peer.flights[i].unasked.len() ==> !asked(
                run(events).sent,
                run(events).peer.flights[i].piece.piece_idx,
                (#[trigger] run(events).peer.flights[i].unasked[j]).begin,
            ),
{
    lemma_run(events);
    let c = run(events);
    if !c.failed {
        assert forall|i: int, j: int|
            0 <= i < c.peer.flights.len() && 0 <= j < c.peer.flights[i].unasked.len() implies !asked(
            c.sent,
            c.peer.flights[i].piece.piece_idx,
            (#[trigger] c.peer.flights[i].unasked[j]).begin,
        ) by {
            let flight = c.peer.flights[i];
            let piece = flight.piece;
            assert(matches_log(c.sent, answers(c), flight));
            assert(asked_in_turn(flight));
            let (a, b) = choose|a: int, b: int| #[trigger] is_range(flight, a, b);
            assert(flight.unasked[j] == nth_block(piece.piece_len, a + j));
            assert(flight.unasked.contains(flight.unasked[j]));
            assert(begin_of(piece, a + j) == flight.unasked[j].begin);
        }
    }
}

/// The blocks that were asked for and have not come are never more than may be
/// on their way.
pub proof fn lemma_never_more_on_their_way(events: Seq<Event>)
    requires
        all_fair(events),
    ensures
        0 <= run(events).sent.len() - 1 - run(events).came.len() <= MAX_BLOCKS_IN_FLIGHT,
        !run(events).failed ==> run(events).peer.blocks_in_flight == run(events).sent.len() - 1
            - run(events).came.len(),
{
    lemma_run(events);
    if run(events).failed {
        lemma_balanced_counts(run(events.drop_last()).peer);
    } else {
        lemma_balanced_counts(run(events).peer);
    }
}

/// They are fewer only where every block of every ordered piece has been asked
/// for.
pub proof fn lemma_fewer_only_when_all_is_asked(events: Seq<Event>, j: int, k: int)
    requires
        all_fair(events),
        !run(events).failed,
        run(events).sent.len() - 1 - run(events).came.len() < MAX_BLOCKS_IN_FLIGHT,
        0 <= j < run(events).ordered.len(),
        0 <= k < block_count(run(events).ordered[j]),
    ensures
        asked(
            run(events).sent,
            run(events).ordered[j].piece_idx,
            begin_of(run(events).ordered[j], k),
        ),
{
    lemma_run(events);
    let c = run(events);
    let piece = c.ordered[j];
    let all = all_pieces(c);
    let n = c.peer.flights.len() as int;
    lemma_first_open(c.peer.flights);
    lemma_same_member(c.ordered, all, j);
    let x = choose|x: int| 0 <= x < all.len() && all[x] == piece;
    if x < n {
        let flight = c.peer.flights[x];
        assert(flight.piece == piece);
        assert(matches_log(c.sent, answers(c), flight));
        assert(flight.unasked.len() == 0);
        assert(!flight.unasked.contains(nth_block(piece.piece_len, k)));
        assert(asked(c.sent, piece.piece_idx, begin_of(piece, k)));
    } else {
        assert(c.finished[x - n].piece == piece);
        assert(all_answered(c.sent, answers(c), c.finished[x - n].piece));
    }
}

proof fn lemma_still_answered(before: Course, after: Course, piece: Piece)
    requires
        wrong_piece(before, after),
        all_answered(before.sent, answers(before), piece),
    ensures
        all_answered(after.sent, answers(after), piece),
{
    assert forall|k: int| 0 <= k < block_count(piece) implies {
        &&& asked(after.sent, piece.piece_idx, #[trigger] begin_of(piece, k))
        &&& answers(after).contains((piece.piece_idx, begin_of(piece, k)))
    } by {
        let key = (piece.piece_idx, begin_of(piece, k));
        assert(answers(before).contains(key));
        let x = choose|x: int| 0 <= x < answers(before).len() && answers(before)[x] == key;
        assert(after.came[x] == after.came.drop_last()[x]);
        assert(answers(after)[x] == key);
    }
}

/// Every block of a piece that is reported as finished was asked for, and has
/// come.
pub proof fn lemma_finished_is_answered(events: Seq<Event>, i: int)
    requires
        all_fair(events),
        0 <= i < run(events).finished.len(),
    ensures
        all_answered(run(events).sent, answers(run(events)), run(events).finished[i].piece),
{
    lemma_run(events);
    let c = run(events);
    if c.failed {
        let before = run(events.drop_last());
        assert(all_answered(before.sent, answers(before), before.finished[i].piece));
        lemma_still_answered(before, c, c.finished[i].piece);
    }
}

/// The blocks that came for the piece with this number, in the order in which
/// they came.
pub open spec fn came_for(came: Seq<(u32, Block)>, piece_idx: u32) -> Seq<Block>
    decreases came.len(),
{
    if came.len() == 0 {
        Seq::empty()
    } else if came.last().0 == piece_idx {
        came_for(came.drop_last(), piece_idx).push(came.last().1)
    } else {
        came_for(came.drop_last(), piece_idx)
    }
}

/// One of the pieces has this number.
pub open spec fn one_has_number(ordered: Seq<Piece>, piece_idx: u32) -> bool {
    exists|j: int| 0 <= j < ordered.len() && (#[trigger] ordered[j]).piece_idx == piece_idx
}

/// Blocks came only for pieces that were ordered. A piece in flight holds the
/// blocks that came for it, for one that waits none came, and one that is
/// finished holds those that came for it, in their order.
pub open spec fn recorded(c: Course) -> bool {
    &&& forall|i: int|
        0 <= i < c.came.len() ==> one_has_number(c.ordered, (#[trigger] c.came[i]).0)
    &&& forall|i: int|
        0 <= i < c.peer.queue.len() ==> came_for(
            c.came,
            (#[trigger] c.peer.queue[i]).piece_idx,
        ).len() == 0
    &&& !c.failed ==> forall|i: int|
        0 <= i < c.peer.flights.len() ==> (#[trigger] c.peer.flights[i]).ready == came_for(
            c.came,
            c.peer.flights[i].piece.piece_idx,
        )
    &&& forall|i: int|
        0 <= i < c.finished.len() ==> (#[trigger] c.finished[i]).ready == in_order(
            came_for(c.came, c.finished[i].piece.piece_idx),
        )
}

proof fn lemma_came_for_pushed(came: Seq<(u32, Block)>, piece_idx: u32, block: Block)
    ensures
        forall|p: u32| #[trigger]
            came_for(came.push((piece_idx, block)), p) == (if p == piece_idx {
                came_for(came, p).push(block)
            } else {
                came_for(came, p)
            }),
{
    assert(came.push((piece_idx, block)).drop_last() =~= came);
}

proof fn lemma_none_came(came: Seq<(u32, Block)>, piece_idx: u32)
    requires
        forall|i: int| 0 <= i < came.len() ==> (#[trigger] came[i]).0 != piece_idx,
    ensures
        came_for(came, piece_idx).len() == 0,
    decreases came.len(),
{
    if came.len() > 0 {
        let front = came.drop_last();
        assert forall|i: int| 0 <= i < front.len() implies (#[trigger] front[i]).0
            != piece_idx by {
            assert(front[i] == came[i]);
        }
        lemma_none_came(front, piece_idx);
    }
}

proof fn lemma_order_records(c: Course, piece: Piece)
    requires
        kept(c),
        recorded(c),
        !c.failed,
        distinct(c.ordered.push(piece)),
    ensures
        recorded(advanced(c, Event::Order(piece))),
{
    let after = advanced(c, Event::Order(piece));
    let n = c.ordered.len() as int;
    assert forall|i: int| 0 <= i < c.came.len() implies (#[trigger] c.came[i]).0
        != piece.piece_idx by {
        assert(one_has_number(c.ordered, c.came[i].0));
        let j = choose|j: int|
            0 <= j < c.ordered.len() && (#[trigger] c.ordered[j]).piece_idx == c.came[i].0;
        assert(after.ordered[j] == c.ordered[j]);
        assert(after.ordered[j].piece_idx != after.ordered[n].piece_idx);
    }
    lemma_none_came(c.came, piece.piece_idx);
    assert forall|i: int| 0 <= i < after.came.len() implies one_has_number(
        after.ordered,
        (#[trigger] after.came[i]).0,
    ) by {
        assert(one_has_number(c.ordered, c.came[i].0));
        let j = choose|j: int|
            0 <= j < c.ordered.len() && (#[trigger] c.ordered[j]).piece_idx == c.came[i].0;
        assert(after.ordered[j] == c.ordered[j]);
    }
    assert forall|i: int| 0 <= i < after.peer.queue.len() implies came_for(
        after.came,
        (#[trigger] after.peer.queue[i]).piece_idx,
    ).len() == 0 by {
        if i < c.peer.queue.len() {
            assert(after.peer.queue[i] == c.peer.queue[i]);
        }
    }
    assert forall|i: int| 0 <= i < after.peer.flights.len() implies (
    #[trigger] after.peer.flights[i]).ready == came_for(
        after.came,
        after.peer.flights[i].piece.piece_idx,
    ) by {
        if i < c.peer.flights.len() {
            assert(after.peer.flights[i] == c.peer.flights[i]);
        } else {
            assert(after.peer.flights[i].ready =~= came_for(c.came, piece.piece_idx));
        }
    }
}

proof fn lemma_gone_on_records(c: Course)
    requires
        recorded(c),
        !c.failed,
    ensures
        recorded(course_gone_on(c)),
{
    let after = course_gone_on(c);
    lemma_first_open(c.peer.flights);
    assert forall|i: int| 0 <= i < after.peer.queue.len() implies came_for(
        after.came,
        (#[trigger] after.peer.queue[i]).piece_idx,
    ).len() == 0 by {
        if first_open(c.peer.flights) is Some {
            assert(after.peer.queue[i] == c.peer.queue[i]);
        } else {
            assert(after.peer.queue[i] == c.peer.queue[i + 1]);
        }
    }
    assert forall|i: int| 0 <= i < after.peer.flights.len() implies (
    #[trigger] after.peer.flights[i]).ready == came_for(
        after.came,
        after.peer.flights[i].piece.piece_idx,
    ) by {
        if i < c.peer.flights.len() {
            assert(after.peer.flights[i].ready == c.peer.flights[i].ready);
            assert(after.peer.flights[i].piece == c.peer.flights[i].piece);
        } else {
            let piece = c.peer.queue[0];
            assert(came_for(c.came, piece.piece_idx).len() == 0);
            assert(after.peer.flights[i].ready =~= came_for(c.came, piece.piece_idx));
        }
    }
}

proof fn lemma_message_records(c: Course, msg: Msg)
    requires
        kept(c),
        recorded(c),
        !c.failed,
        distinct(c.ordered),
        acceptable(c.peer, msg),
    ensures
        recorded(advanced(c, Event::Message(msg))),
        advanced(c, Event::Message(msg)).failed ==> {
            &&& advanced(c, Event::Message(msg)).came.len() > 0
            &&& forall|i: int|
                0 <= i < c.finished.len() ==> (#[trigger] c.finished[i]).piece.piece_idx
                    != advanced(c, Event::Message(msg)).came.last().0
        },
{
    let after = advanced(c, Event::Message(msg));
    lemma_apart(c);
    if let Msg::BlockResponse { piece_idx, begin, data } = msg {
        lemma_flight_with(c.peer.flights, piece_idx);
        let pos = flight_with(c.peer.flights, piece_idx)->0;
        let block = Block { begin, data };
        let c1 = course_with_block(c, pos, block);
        lemma_came_for_pushed(c.came, piece_idx, block);
        assert(c.peer.flights[pos].piece.piece_idx == piece_idx);
        assert forall|i: int| 0 <= i < c1.came.len() implies one_has_number(
            c1.ordered,
            (#[trigger] c1.came[i]).0,
        ) by {
            if i < c.came.len() {
                assert(c1.came[i] == c.came[i]);
                assert(one_has_number(c.ordered, c.came[i].0));
            } else {
                assert(c.ordered.contains(c.peer.flights[pos].piece));
                let x = choose|x: int|
                    0 <= x < c.ordered.len() && c.ordered[x] == c.peer.flights[pos].piece;
                assert(c1.ordered[x].piece_idx == piece_idx);
            }
        }
        assert forall|i: int| 0 <= i < c1.peer.queue.len() implies came_for(
            c1.came,
            (#[trigger] c1.peer.queue[i]).piece_idx,
        ).len() == 0 by {
            assert(c.peer.queue[i].piece_idx != c.peer.flights[pos].piece.piece_idx);
        }
        assert forall|i: int| 0 <= i < c1.peer.flights.len() implies (
        #[trigger] c1.peer.flights[i]).ready == came_for(
            c1.came,
            c1.peer.flights[i].piece.piece_idx,
        ) by {
            assert(c.peer.flights[i].ready == came_for(
                c.came,
                c.peer.flights[i].piece.piece_idx,
            ));
            if i != pos {
                assert(c.peer.flights[i].piece.piece_idx
                    != c.peer.flights[pos].piece.piece_idx);
            }
        }
        assert forall|i: int| 0 <= i < c1.finished.len() implies (
        #[trigger] c1.finished[i]).ready == in_order(
            came_for(c1.came, c1.finished[i].piece.piece_idx),
        ) by {
            assert(c.finished[i].piece.piece_idx != c.peer.flights[pos].piece.piece_idx);
        }
        assert(recorded(c1));
        let kept_peer = c1.peer;
        if is_complete(kept_peer.flights[pos]) {
            let sorted = with_order(kept_peer, pos);
            if !after.failed {
                let done = sorted.flights[pos];
                let c2 = course_finished(c1, pos, done);
                let last = c1.peer.flights.len() - 1;
                assert forall|i: int| 0 <= i < c2.peer.flights.len() implies (
                #[trigger] c2.peer.flights[i]).ready == came_for(
                    c2.came,
                    c2.peer.flights[i].piece.piece_idx,
                ) by {
                    let j = if i == pos {
                        last
                    } else {
                        i
                    };
                    assert(c2.peer.flights[i] == c1.peer.flights[j]);
                }
                assert forall|i: int| 0 <= i < c2.finished.len() implies (
                #[trigger] c2.finished[i]).ready == in_order(
                    came_for(c2.came, c2.finished[i].piece.piece_idx),
                ) by {
                    if i < c1.finished.len() {
                        assert(c2.finished[i] == c1.finished[i]);
                    } else {
                        assert(c1.peer.flights[pos].ready == came_for(
                            c1.came,
                            c1.peer.flights[pos].piece.piece_idx,
                        ));
                    }
                }
                assert(recorded(c2));
                assert(without_piece(sorted, pos).flights =~= c2.peer.flights);
                assert(without_piece(sorted, pos) == c2.peer);
                lemma_gone_on_records(c2);
                assert(after == course_gone_on(c2));
            } else {
                assert(after.came.last().0 == piece_idx);
                assert forall|i: int| 0 <= i < c.finished.len() implies (
                #[trigger] c.finished[i]).piece.piece_idx != piece_idx by {
                    assert(c.peer.flights[pos].piece.piece_idx != c.finished[i].piece.piece_idx);
                }
            }
        } else {
            lemma_gone_on_records(c1);
            assert(after == course_gone_on(c1));
        }
    }
}

/// Where no two of the ordered pieces have the same number, that is so whatever
/// the peer sends that can be dealt with.
pub proof fn lemma_always_recorded(events: Seq<Event>)
    requires
        all_allowed(events),
        distinct(run(events).ordered),
    ensures
        recorded(run(events)),
    decreases events.len(),
{
    if events.len() > 0 {
        let before = run(events.drop_last());
        lemma_always_kept(events.drop_last());
        assert(distinct(before.ordered)) by {
            assert forall|i: int, j: int| 0 <= i < j < before.ordered.len() implies (
            #[trigger] before.ordered[i]).piece_idx != (
            #[trigger] before.ordered[j]).piece_idx by {
                assert(run(events).ordered[i] == before.ordered[i]);
                assert(run(events).ordered[j] == before.ordered[j]);
            }
        }
        lemma_always_recorded(events.drop_last());
        match events.last() {
            Event::Order(piece) => {
                lemma_order_records(before, piece);
            },
            Event::Message(msg) => {
                lemma_message_records(before, msg);
            },
        }
    }
}

/// Where no two of the ordered pieces have the same number, no piece is reported
/// as finished twice, whatever the peer sends that can be dealt with. One that
/// is was ordered, it holds the blocks that came for it, in their order, which
/// are as many as it has, and their data have the hash that was published.
pub proof fn lemma_finished_once(events: Seq<Event>)
    requires
        all_allowed(events),
        distinct(run(events).ordered),
    ensures
        forall|i: int, j: int|
            0 <= i < j < run(events).finished.len() ==> (#[trigger] run(
                events,
            ).finished[i]).piece.piece_idx != (#[trigger] run(events).finished[j]).piece.piece_idx,
        forall|i: int|
            0 <= i < run(events).finished.len() ==> {
                &&& run(events).ordered.contains((#[trigger] run(events).finished[i]).piece)
                &&& is_right(run(events).finished[i])
                &&& run(events).finished[i].ready == in_order(
                    came_for(run(events).came, run(events).finished[i].piece.piece_idx),
                )
            },
{
    lemma_always_kept(events);
    lemma_always_recorded(events);
    lemma_apart(run(events));
}

/// When a piece turns out to be wrong, nothing is sent and nothing is reported,
/// and that piece has not been before, provided that no two of the ordered
/// pieces have the same number.
pub proof fn lemma_wrong_is_not_finished(events: Seq<Event>)
    requires
        all_allowed(events),
        run(events).failed,
        distinct(run(events).ordered),
    ensures
        events.len() > 0,
        run(events).sent == run(events.drop_last()).sent,
        run(events).finished == run(events.drop_last()).finished,
        run(events).came.len() > 0,
        forall|i: int|
            0 <= i < run(events).finished.len() ==> (#[trigger] run(
                events,
            ).finished[i]).piece.piece_idx != run(events).came.last().0,
{
    let before = run(events.drop_last());
    lemma_always_kept(events.drop_last());
    match events.last() {
        Event::Order(_) => {},
        Event::Message(msg) => {
            lemma_always_recorded(events.drop_last());
            lemma_message_records(before, msg);
        },
    }
}

} // verus!
