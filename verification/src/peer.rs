//! What is asked of a peer, and what its messages change.

use libc::c_int;
use std::collections::VecDeque;
use vstd::prelude::*;
use vstd::seq_lib::to_multiset_len;

use crate::blocks::{
    block_at, block_count, block_order, block_range, blocks_from, in_order, joined_data,
    lemma_block_order_is_total, nth_block, sort_blocks, swap_removed, Block, BlockReq, BlockResp,
    Flight, PieceInFlight,
};
use crate::bytes::bytes_equal;
use crate::btmsg::{BtMsg, Msg};
use crate::outside::sha1_digest;
use crate::torrent::Piece;

verus! {

/// How many blocks are on their way at most.
pub const MAX_BLOCKS_IN_FLIGHT: u32 = 10;

/// The pieces that are being received, themselves.
pub open spec fn flights_of(pieces: Seq<PieceInFlight>) -> Seq<Flight> {
    Seq::new(pieces.len(), |i: int| pieces[i]@)
}

/// The place of the first piece of which something has not been asked for yet.
pub open spec fn first_open(flights: Seq<Flight>) -> Option<int>
    decreases flights.len(),
{
    if flights.len() == 0 {
        None
    } else {
        match first_open(flights.drop_last()) {
            Some(i) => Some(i),
            None => if flights.last().unasked.len() > 0 {
                Some(flights.len() - 1)
            } else {
                None
            },
        }
    }
}

/// A block to ask for next: its piece, where it begins in it and how long it is.
pub type Request = (u32, u32, u32);

/// The block to ask for next, and what is queued and in flight afterwards: the
/// last one that is left of the first piece of which something is left, or else
/// the first block of the first piece in the queue, which is then in flight.
pub open spec fn next_request(queue: Seq<Piece>, flights: Seq<Flight>) -> (
    Option<Request>,
    Seq<Piece>,
    Seq<Flight>,
) {
    match first_open(flights) {
        Some(i) => {
            let flight = flights[i];
            let block = flight.unasked.last();
            (
                Some((flight.piece.piece_idx, block.begin, block.length)),
                queue,
                flights.update(i, Flight { unasked: flight.unasked.drop_last(), ..flight }),
            )
        },
        None => if queue.len() > 0 {
            let piece = queue[0];
            let block = nth_block(piece.piece_len, 0);
            (
                Some((piece.piece_idx, block.begin, block.length)),
                queue.skip(1),
                flights.push(
                    Flight {
                        piece,
                        ready: Seq::empty(),
                        unasked: block_range(piece.piece_len, 1, block_count(piece)),
                    },
                ),
            )
        } else {
            (None, queue, flights)
        },
    }
}

/// The place of the first piece of which something has not been asked for yet.
fn find_open(pieces: &Vec<PieceInFlight>) -> (r: Option<usize>)
    ensures
        first_open(flights_of(pieces@)) == (match r {
            Some(i) => Some(i as int),
            None => None,
        }),
        r matches Some(i) ==> i < pieces@.len() && pieces@[i as int].unasked_blks@.len() > 0,
{
    let ghost flights = flights_of(pieces@);
    let mut i: usize = 0;
    while i < pieces.len()
        invariant
            i <= pieces@.len(),
            flights == flights_of(pieces@),
            first_open(flights.take(i as int)) is None,
        decreases pieces@.len() - i,
    {
        assert(flights.take(i + 1).drop_last() =~= flights.take(i as int));
        if pieces[i].unasked_blks.len() > 0 {
            proof {
                lemma_first_open_prefix(flights, i + 1);
            }
            return Some(i);
        }
        i += 1;
    }
    assert(flights.take(i as int) =~= flights);
    None
}

/// Pieces further back do not change which one is the first.
proof fn lemma_first_open_prefix(flights: Seq<Flight>, n: int)
    requires
        0 <= n <= flights.len(),
        first_open(flights.take(n)) is Some,
    ensures
        first_open(flights) == first_open(flights.take(n)),
    decreases flights.len(),
{
    if n < flights.len() {
        assert(flights.drop_last().take(n) =~= flights.take(n));
        lemma_first_open_prefix(flights.drop_last(), n);
    } else {
        assert(flights.take(n) =~= flights);
    }
}

/// Looks for the next block to ask for, and takes note that it is asked for. A
/// piece that is begun on that account leaves the queue for those in flight; it
/// must not be empty.
pub fn next_requestable_block(
    unstarted_piece_queue: &mut VecDeque<Piece>,
    pieces_in_flight: &mut Vec<PieceInFlight>,
) -> (r: Option<Request>)
    requires
        first_open(flights_of(old(pieces_in_flight)@)) is None && old(
            unstarted_piece_queue,
        )@.len() > 0 ==> old(unstarted_piece_queue)@[0].piece_len > 0,
    ensures
        (r, final(unstarted_piece_queue)@, flights_of(final(pieces_in_flight)@)) == next_request(
            old(unstarted_piece_queue)@,
            flights_of(old(pieces_in_flight)@),
        ),
{
    let ghost flights = flights_of(pieces_in_flight@);
    let ghost queue = unstarted_piece_queue@;
    if let Some(i) = find_open(pieces_in_flight) {
        let piece_idx = pieces_in_flight[i].piece.piece_idx;
        let block = pieces_in_flight[i].unasked_blks.pop();
        proof {
            let flight = flights[i as int];
            assert(flights_of(pieces_in_flight@) =~= flights.update(
                i as int,
                Flight { unasked: flight.unasked.drop_last(), ..flight },
            ));
        }
        return match block {
            Some(block) => Some((piece_idx, block.begin, block.length)),
            None => None,
        };
    }
    match unstarted_piece_queue.pop_front() {
        Some(piece) => {
            let first = block_at(&piece, 0);
            let request = (piece.piece_idx, first.begin, first.length);
            let unasked_blks = blocks_from(&piece, 1);
            let started = PieceInFlight { piece, ready_blks: Vec::new(), unasked_blks };
            pieces_in_flight.push(started);
            proof {
                assert(started@.ready =~= Seq::empty());
                assert(flights_of(pieces_in_flight@) =~= flights.push(started@));
                assert(unstarted_piece_queue@ =~= queue.skip(1));
            }
            Some(request)
        },
        None => None,
    }
}

/// What is known and planned about a peer.
pub struct PeerState {
    pub piece_download_queue: VecDeque<Piece>,
    pub dl_pieces_in_flight: Vec<PieceInFlight>,
    pub blocks_in_flight: u32,
    pub am_choked: bool,
    pub peer_is_choked: bool,
    pub am_interested: bool,
    pub peer_is_interested: bool,
}

/// What is known and planned about a peer, itself.
pub struct Peer {
    pub queue: Seq<Piece>,
    pub flights: Seq<Flight>,
    pub blocks_in_flight: int,
    pub am_choked: bool,
    pub peer_is_choked: bool,
    pub am_interested: bool,
    pub peer_is_interested: bool,
}

impl View for PeerState {
    type V = Peer;

    open spec fn view(&self) -> Peer {
        Peer {
            queue: self.piece_download_queue@,
            flights: flights_of(self.dl_pieces_in_flight@),
            blocks_in_flight: self.blocks_in_flight as int,
            am_choked: self.am_choked,
            peer_is_choked: self.peer_is_choked,
            am_interested: self.am_interested,
            peer_is_interested: self.peer_is_interested,
        }
    }
}

/// What there is to do after a message: a piece that is complete and right is
/// to be written and reported, and a block is to be asked for.
pub struct Reaction {
    pub finished: Option<PieceInFlight>,
    pub request: Option<BtMsg>,
}

/// The blocks of a complete piece do not have the hash that was published.
#[derive(Debug, PartialEq, Eq, Structural, Clone, Copy)]
pub struct HashMismatch;

/// What there is to do after a message, itself.
pub type Outcome = Result<(Option<Flight>, Option<Msg>), HashMismatch>;

/// What a function returned, in terms of pieces and messages.
pub open spec fn outcome_of(r: Result<Reaction, HashMismatch>) -> Outcome {
    match r {
        Ok(reaction) => Ok(
            (
                match reaction.finished {
                    Some(piece) => Some(piece@),
                    None => None,
                },
                message_of(reaction.request),
            ),
        ),
        Err(e) => Err(e),
    }
}

/// An optional message itself.
pub open spec fn message_of(msg: Option<BtMsg>) -> Option<Msg> {
    match msg {
        Some(msg) => Some(msg@),
        None => None,
    }
}

/// The messages themselves.
pub open spec fn messages_of(msgs: Seq<BtMsg>) -> Seq<Msg> {
    Seq::new(msgs.len(), |i: int| msgs[i]@)
}

/// Nothing is known of a peer at first but that it serves nobody and that
/// nobody wants anything.
pub open spec fn fresh_peer() -> Peer {
    Peer {
        queue: Seq::empty(),
        flights: Seq::empty(),
        blocks_in_flight: 0,
        am_choked: true,
        peer_is_choked: true,
        am_interested: false,
        peer_is_interested: false,
    }
}

/// How many blocks of a new piece can be asked for at once.
pub open spec fn askable(peer: Peer, piece: Piece) -> int {
    let room = MAX_BLOCKS_IN_FLIGHT - peer.blocks_in_flight;
    if room <= 0 {
        0
    } else if room < block_count(piece) {
        room
    } else {
        block_count(piece)
    }
}

/// A request for a block of the piece.
pub open spec fn request_for(piece: Piece, block: BlockReq) -> Msg {
    Msg::BlockRequest { piece_idx: piece.piece_idx, begin: block.begin, length: block.length }
}

/// The requests for the first `n` blocks of the piece.
pub open spec fn requests_for(piece: Piece, n: int) -> Seq<Msg> {
    Seq::new(n as nat, |i: int| request_for(piece, nth_block(piece.piece_len, i)))
}

/// The peer when a piece is to be downloaded from it: as long as there is room,
/// the piece is in flight at once, and as much of it is asked for as there is
/// room; else it is queued.
pub open spec fn with_piece(peer: Peer, piece: Piece) -> Peer {
    let n = askable(peer, piece);
    if peer.blocks_in_flight < MAX_BLOCKS_IN_FLIGHT {
        Peer {
            flights: peer.flights.push(
                Flight {
                    piece,
                    ready: Seq::empty(),
                    unasked: block_range(piece.piece_len, n, block_count(piece)),
                },
            ),
            blocks_in_flight: peer.blocks_in_flight + n,
            ..peer
        }
    } else {
        Peer { queue: peer.queue.push(piece), ..peer }
    }
}

/// The next block can be looked for: a piece that would be begun is not empty,
/// and where there is nothing left to ask for, there is one block less on its
/// way.
pub open spec fn can_go_on(peer: Peer) -> bool {
    match first_open(peer.flights) {
        Some(_) => true,
        None => if peer.queue.len() > 0 {
            peer.queue[0].piece_len > 0
        } else {
            peer.blocks_in_flight > 0
        },
    }
}

/// The peer after a block has come, and the request that takes its place: the
/// next one if there is one, else one block less is on its way.
pub open spec fn gone_on(peer: Peer) -> (Peer, Option<Msg>) {
    let (request, queue, flights) = next_request(peer.queue, peer.flights);
    match request {
        Some((piece_idx, begin, length)) => (
            Peer { queue, flights, ..peer },
            Some(Msg::BlockRequest { piece_idx, begin, length }),
        ),
        None => (
            Peer { queue, flights, blocks_in_flight: peer.blocks_in_flight - 1, ..peer },
            None,
        ),
    }
}

/// The place of the first piece with this number.
pub open spec fn flight_with(flights: Seq<Flight>, piece_idx: u32) -> Option<int>
    decreases flights.len(),
{
    if flights.len() == 0 {
        None
    } else {
        match flight_with(flights.drop_last(), piece_idx) {
            Some(i) => Some(i),
            None => if flights.last().piece.piece_idx == piece_idx {
                Some(flights.len() - 1)
            } else {
                None
            },
        }
    }
}

/// As many blocks have come as the piece has.
pub open spec fn is_complete(flight: Flight) -> bool {
    block_count(flight.piece) == flight.ready.len()
}

/// The peer with one more block of the piece at `pos`.
pub open spec fn with_block(peer: Peer, pos: int, block: Block) -> Peer {
    let flight = peer.flights[pos];
    Peer {
        flights: peer.flights.update(
            pos,
            Flight { ready: flight.ready.push(block), ..flight },
        ),
        ..peer
    }
}

/// The peer with the blocks of the piece at `pos` in their order.
pub open spec fn with_order(peer: Peer, pos: int) -> Peer {
    let flight = peer.flights[pos];
    Peer {
        flights: peer.flights.update(pos, Flight { ready: in_order(flight.ready), ..flight }),
        ..peer
    }
}

/// The peer without the piece at `pos`.
pub open spec fn without_piece(peer: Peer, pos: int) -> Peer {
    Peer { flights: swap_removed(peer.flights, pos), ..peer }
}

/// What a hash that was computed of the complete piece at `pos` leads to: if it
/// is the one that was published, the piece is done with; else all stays as it
/// is.
pub open spec fn checked(peer: Peer, pos: int, computed: Seq<u8>) -> (Peer, Outcome) {
    let flight = peer.flights[pos];
    if flight.piece.piece_hash@ == computed {
        let (after, request) = gone_on(without_piece(peer, pos));
        (after, Ok((Some(flight), request)))
    } else {
        (peer, Err(HashMismatch))
    }
}

/// What a message leads to.
pub open spec fn received(peer: Peer, msg: Msg) -> (Peer, Outcome) {
    match msg {
        Msg::BlockResponse { piece_idx, begin, data } => {
            let pos = flight_with(peer.flights, piece_idx)->0;
            let kept = with_block(peer, pos, Block { begin, data });
            if is_complete(kept.flights[pos]) {
                let sorted = with_order(kept, pos);
                checked(sorted, pos, sha1_digest(joined_data(sorted.flights[pos].ready)))
            } else {
                let (after, request) = gone_on(kept);
                (after, Ok((None, request)))
            }
        },
        Msg::Unchoke => (Peer { am_choked: false, ..peer }, Ok((None, None))),
        Msg::Interested => (Peer { peer_is_interested: true, ..peer }, Ok((None, None))),
        Msg::Uninterested => (Peer { peer_is_interested: false, ..peer }, Ok((None, None))),
        _ => (peer, Ok((None, None))),
    }
}

/// The message can be dealt with. That is not so of a peer that refuses to
/// serve or wants to be served, nor of a block of a piece that is not in
/// flight, or one after which it could not go on.
pub open spec fn acceptable(peer: Peer, msg: Msg) -> bool {
    match msg {
        Msg::KeepAlive
        | Msg::Unchoke
        | Msg::Interested
        | Msg::Uninterested
        | Msg::Bitfield { .. } => true,
        Msg::Choke
        | Msg::HavePiece { .. }
        | Msg::BlockRequest { .. }
        | Msg::CancelBlockRequest { .. } => false,
        Msg::BlockResponse { piece_idx, begin, data } => {
            match flight_with(peer.flights, piece_idx) {
                Some(pos) => {
                    let kept = with_block(peer, pos, Block { begin, data });
                    &&& data.len() <= u32::MAX
                    &&& can_go_on(
                        if is_complete(kept.flights[pos]) {
                            without_piece(kept, pos)
                        } else {
                            kept
                        },
                    )
                },
                None => false,
            }
        },
    }
}

/// No received block is longer than a message can carry.
pub open spec fn short_blocks(peer: Peer) -> bool {
    forall|i: int, j: int|
        0 <= i < peer.flights.len() && 0 <= j < peer.flights[i].ready.len()
            ==> (#[trigger] peer.flights[i].ready[j]).data.len() <= u32::MAX
}

/// A request for a block of a piece.
fn block_request(piece_idx: u32, block: BlockReq) -> (r: BtMsg)
    ensures
        r@ == (Msg::BlockRequest { piece_idx, begin: block.begin, length: block.length }),
{
    BtMsg::BlockRequest { piece_idx, begin: block.begin, length: block.length }
}

/// The place of the first piece with this number.
fn find_flight(pieces: &Vec<PieceInFlight>, piece_idx: u32) -> (r: Option<usize>)
    ensures
        flight_with(flights_of(pieces@), piece_idx) == (match r {
            Some(i) => Some(i as int),
            None => None,
        }),
        r matches Some(i) ==> i < pieces@.len(),
{
    let ghost flights = flights_of(pieces@);
    let mut i: usize = 0;
    while i < pieces.len()
        invariant
            i <= pieces@.len(),
            flights == flights_of(pieces@),
            flight_with(flights.take(i as int), piece_idx) is None,
        decreases pieces@.len() - i,
    {
        assert(flights.take(i + 1).drop_last() =~= flights.take(i as int));
        if pieces[i].piece.piece_idx == piece_idx {
            proof {
                lemma_flight_with_prefix(flights, piece_idx, i + 1);
            }
            return Some(i);
        }
        i += 1;
    }
    assert(flights.take(i as int) =~= flights);
    None
}

/// Pieces further back do not change which one is the first.
proof fn lemma_flight_with_prefix(flights: Seq<Flight>, piece_idx: u32, n: int)
    requires
        0 <= n <= flights.len(),
        flight_with(flights.take(n), piece_idx) is Some,
    ensures
        flight_with(flights, piece_idx) == flight_with(flights.take(n), piece_idx),
    decreases flights.len(),
{
    if n < flights.len() {
        assert(flights.drop_last().take(n) =~= flights.take(n));
        lemma_flight_with_prefix(flights.drop_last(), piece_idx, n);
    } else {
        assert(flights.take(n) =~= flights);
    }
}

/// A piece that was found is there and has the number; where none was found,
/// none has it.
pub proof fn lemma_flight_with(flights: Seq<Flight>, piece_idx: u32)
    ensures
        match flight_with(flights, piece_idx) {
            Some(i) => 0 <= i < flights.len() && flights[i].piece.piece_idx == piece_idx,
            None => forall|i: int|
                0 <= i < flights.len() ==> (#[trigger] flights[i]).piece.piece_idx != piece_idx,
        },
    decreases flights.len(),
{
    if flights.len() > 0 {
        let front = flights.drop_last();
        lemma_flight_with(front, piece_idx);
        if flight_with(flights, piece_idx) is None {
            assert forall|i: int| 0 <= i < flights.len() implies (
            #[trigger] flights[i]).piece.piece_idx != piece_idx by {
                if i < front.len() {
                    assert(front[i] == flights[i]);
                }
            }
        }
    }
}

/// Data of blocks that are no longer than a message can carry.
proof fn lemma_joined_data_len(blocks: Seq<Block>)
    requires
        forall|j: int| 0 <= j < blocks.len() ==> (#[trigger] blocks[j]).data.len() <= u32::MAX,
    ensures
        joined_data(blocks).len() <= blocks.len() * u32::MAX,
    decreases blocks.len(),
{
    if blocks.len() > 0 {
        let front = blocks.drop_last();
        assert forall|j: int| 0 <= j < front.len() implies (#[trigger] front[j]).data.len()
            <= u32::MAX by {
            assert(front[j] == blocks[j]);
        }
        lemma_joined_data_len(front);
    }
}

/// Blocks stay the same when they are put in their order.
proof fn lemma_in_order_keeps(blocks: Seq<Block>)
    requires
        forall|j: int| 0 <= j < blocks.len() ==> (#[trigger] blocks[j]).data.len() <= u32::MAX,
    ensures
        in_order(blocks).len() == blocks.len(),
        forall|j: int|
            0 <= j < blocks.len() ==> (#[trigger] in_order(blocks)[j]).data.len() <= u32::MAX,
{
    let sorted = in_order(blocks);
    lemma_block_order_is_total();
    blocks.lemma_sort_by_ensures(block_order());
    to_multiset_len(blocks);
    to_multiset_len(sorted);
    assert forall|j: int| 0 <= j < sorted.len() implies (#[trigger] sorted[j]).data.len()
        <= u32::MAX by {
        assert(sorted.contains(sorted[j]));
        assert(blocks.contains(sorted[j]));
        let k = choose|k: int| 0 <= k < blocks.len() && blocks[k] == sorted[j];
        assert(blocks[k].data.len() <= u32::MAX);
    }
}

/// Going on keeps the received blocks short.
proof fn lemma_going_on_keeps_short_blocks(peer: Peer)
    requires
        short_blocks(peer),
    ensures
        short_blocks(gone_on(peer).0),
{
    let after = gone_on(peer).0;
    lemma_first_open(peer.flights);
    assert forall|i: int, j: int|
        0 <= i < after.flights.len() && 0 <= j < after.flights[i].ready.len() implies (
    #[trigger] after.flights[i].ready[j]).data.len() <= u32::MAX by {
        if i < peer.flights.len() {
            assert(after.flights[i].ready == peer.flights[i].ready);
            assert(peer.flights[i].ready[j].data.len() <= u32::MAX);
        }
    }
}

/// Where there is a first piece of which something has not been asked for yet,
/// that is so of it, and of none before it; where there is none, all has been
/// asked for.
pub proof fn lemma_first_open(flights: Seq<Flight>)
    ensures
        match first_open(flights) {
            Some(i) => {
                &&& 0 <= i < flights.len()
                &&& flights[i].unasked.len() > 0
                &&& forall|j: int| 0 <= j < i ==> (#[trigger] flights[j]).unasked.len() == 0
            },
            None => forall|i: int|
                0 <= i < flights.len() ==> (#[trigger] flights[i]).unasked.len() == 0,
        },
    decreases flights.len(),
{
    if flights.len() > 0 {
        let front = flights.drop_last();
        lemma_first_open(front);
        let upto = match first_open(flights) {
            Some(i) => i,
            None => flights.len() as int,
        };
        assert forall|j: int| 0 <= j < upto implies (#[trigger] flights[j]).unasked.len() == 0 by {
            if j < front.len() {
                assert(front[j] == flights[j]);
            }
        }
    }
}

impl PeerState {
    /// A peer of which nothing is known.
    pub fn new() -> (r: Self)
        ensures
            r@ == fresh_peer(),
            short_blocks(r@),
    {
        let r = PeerState {
            piece_download_queue: VecDeque::new(),
            dl_pieces_in_flight: Vec::new(),
            blocks_in_flight: 0,
            am_choked: true,
            peer_is_choked: true,
            am_interested: false,
            peer_is_interested: false,
        };
        assert(r@.flights =~= Seq::empty());
        r
    }

    /// A peer of which nothing is known, and what it is told before anything
    /// else: that we want to be served.
    pub fn introduce() -> (r: (Self, BtMsg))
        ensures
            r.0@ == fresh_peer(),
            short_blocks(r.0@),
            r.1@ == Msg::Interested,
            r.1 is Interested,
    {
        (Self::new(), BtMsg::Interested)
    }

    /// Has a piece downloaded from the peer, and says what is to be sent to it
    /// now.
    pub fn download_piece(&mut self, piece: Piece) -> (r: Vec<BtMsg>)
        ensures
            final(self)@ == with_piece(old(self)@, piece),
            messages_of(r@) == requests_for(piece, askable(old(self)@, piece)),
            short_blocks(old(self)@) ==> short_blocks(final(self)@),
    {
        let ghost before = self@;
        let mut requests: Vec<BtMsg> = Vec::new();
        if self.blocks_in_flight < MAX_BLOCKS_IN_FLIGHT {
            let n_blocks = piece.n_blocks();
            let room = MAX_BLOCKS_IN_FLIGHT - self.blocks_in_flight;
            let n: u32 = if room < n_blocks {
                room
            } else {
                n_blocks
            };
            let mut i: u32 = 0;
            while i < n
                invariant
                    i <= n <= block_count(piece),
                    messages_of(requests@) == requests_for(piece, i as int),
                decreases n - i,
            {
                let request = block_request(piece.piece_idx, block_at(&piece, i));
                let ghost so_far = messages_of(requests@);
                requests.push(request);
                assert(messages_of(requests@) =~= so_far.push(request@));
                assert(messages_of(requests@) =~= requests_for(piece, i + 1));
                i += 1;
            }
            self.blocks_in_flight = self.blocks_in_flight + n;
            let unasked_blks = blocks_from(&piece, n);
            let started = PieceInFlight { piece, ready_blks: Vec::new(), unasked_blks };
            self.dl_pieces_in_flight.push(started);
            proof {
                assert(started@.ready =~= Seq::empty());
                assert(self@.flights =~= before.flights.push(started@));
                assert(short_blocks(before) ==> short_blocks(self@)) by {
                    assert(forall|i: int|
                        0 <= i < before.flights.len() ==> #[trigger] self@.flights[i]
                            == before.flights[i]);
                }
            }
        } else {
            self.piece_download_queue.push_back(piece);
            assert(messages_of(requests@) =~= requests_for(piece, 0));
            assert(self@.flights == before.flights);
            assert(short_blocks(before) ==> short_blocks(self@));
        }
        requests
    }

    /// Looks for the next block to ask for when one has come.
    pub fn go_on(&mut self) -> (r: Option<BtMsg>)
        requires
            can_go_on(old(self)@),
        ensures
            (final(self)@, message_of(r)) == gone_on(old(self)@),
            short_blocks(old(self)@) ==> short_blocks(final(self)@),
    {
        proof {
            if short_blocks(self@) {
                lemma_going_on_keeps_short_blocks(self@);
            }
        }
        match next_requestable_block(
            &mut self.piece_download_queue,
            &mut self.dl_pieces_in_flight,
        ) {
            Some((piece_idx, begin, length)) => Some(
                BtMsg::BlockRequest { piece_idx, begin, length },
            ),
            None => {
                self.blocks_in_flight = self.blocks_in_flight - 1;
                None
            },
        }
    }

    /// Deals with the piece at `pos`, which is complete, its blocks in order,
    /// when its hash has been computed.
    pub fn check_piece(&mut self, pos: usize, computed_hash: [u8; 20]) -> (r: Result<
        Reaction,
        HashMismatch,
    >)
        requires
            pos < old(self).dl_pieces_in_flight@.len(),
            can_go_on(without_piece(old(self)@, pos as int)),
        ensures
            (final(self)@, outcome_of(r)) == checked(old(self)@, pos as int, computed_hash@),
            short_blocks(old(self)@) ==> short_blocks(final(self)@),
    {
        let ghost before = self@;
        if !bytes_equal(
            self.dl_pieces_in_flight[pos].piece.piece_hash.as_slice(),
            computed_hash.as_slice(),
        ) {
            return Err(HashMismatch);
        }
        let finished = self.dl_pieces_in_flight.swap_remove(pos);
        assert(self@.flights =~= swap_removed(before.flights, pos as int));
        proof {
            let last = before.flights.len() - 1;
            assert(short_blocks(before) ==> short_blocks(self@)) by {
                assert(forall|i: int|
                    0 <= i < self@.flights.len() ==> #[trigger] self@.flights[i]
                        == before.flights[if i == pos {
                        last
                    } else {
                        i
                    }]);
            }
        }
        let request = self.go_on();
        Ok(Reaction { finished: Some(finished), request })
    }

    /// Deals with a message from the peer.
    pub fn receive(&mut self, msg: BtMsg) -> (r: Result<Reaction, HashMismatch>)
        requires
            short_blocks(old(self)@),
            acceptable(old(self)@, msg@),
        ensures
            (final(self)@, outcome_of(r)) == received(old(self)@, msg@),
            short_blocks(final(self)@),
    {
        match msg {
            BtMsg::BlockResponse { piece_idx, begin, data } => {
                self.receive_block(piece_idx, BlockResp { begin, data })
            },
            BtMsg::Unchoke => {
                self.am_choked = false;
                Ok(Reaction { finished: None, request: None })
            },
            BtMsg::Interested => {
                self.peer_is_interested = true;
                Ok(Reaction { finished: None, request: None })
            },
            BtMsg::Uninterested => {
                self.peer_is_interested = false;
                Ok(Reaction { finished: None, request: None })
            },
            _ => Ok(Reaction { finished: None, request: None }),
        }
    }

    fn receive_block(&mut self, piece_idx: u32, block: BlockResp) -> (r: Result<
        Reaction,
        HashMismatch,
    >)
        requires
            short_blocks(old(self)@),
            acceptable(
                old(self)@,
                Msg::BlockResponse { piece_idx, begin: block.begin, data: block.data@ },
            ),
        ensures
            (final(self)@, outcome_of(r)) == received(
                old(self)@,
                Msg::BlockResponse { piece_idx, begin: block.begin, data: block.data@ },
            ),
            short_blocks(final(self)@),
    {
        let ghost before = self@;
        let pos = match find_flight(&self.dl_pieces_in_flight, piece_idx) {
            Some(pos) => pos,
            None => vstd::pervasive::unreached(),
        };
        let ghost kept = with_block(before, pos as int, block@);
        let ghost msg = Msg::BlockResponse {
            piece_idx,
            begin: block.begin,
            data: block.data@,
        };
        self.dl_pieces_in_flight[pos].pending_to_received(block);
        proof {
            assert(self@.flights[pos as int].ready =~= kept.flights[pos as int].ready);
            assert(self@.flights =~= kept.flights);
            assert(short_blocks(kept));
        }
        if self.dl_pieces_in_flight[pos].is_completely_downloaded() {
            let ghost sorted = with_order(kept, pos as int);
            sort_blocks(&mut self.dl_pieces_in_flight[pos].ready_blks);
            proof {
                assert(self@.flights =~= sorted.flights);
                lemma_in_order_keeps(kept.flights[pos as int].ready);
                lemma_joined_data_len(sorted.flights[pos as int].ready);
                assert(short_blocks(sorted));
                assert(without_piece(sorted, pos as int).flights =~= without_piece(
                    kept,
                    pos as int,
                ).flights);
            }
            let computed_hash = self.dl_pieces_in_flight[pos].computed_hash();
            self.check_piece(pos, computed_hash)
        } else {
            let request = self.go_on();
            Ok(Reaction { finished: None, request })
        }
    }
}

impl PeerState {
    /// Whether a message can be dealt with.
    pub fn accepts(&self, msg: &BtMsg) -> (r: bool)
        ensures
            r == acceptable(self@, msg@),
    {
        match msg {
            BtMsg::KeepAlive
            | BtMsg::Unchoke
            | BtMsg::Interested
            | BtMsg::Uninterested
            | BtMsg::Bitfield { .. } => true,
            BtMsg::Choke
            | BtMsg::HavePiece { .. }
            | BtMsg::BlockRequest { .. }
            | BtMsg::CancelBlockRequest { .. } => false,
            BtMsg::BlockResponse { piece_idx, begin, data } => {
                self.accepts_block(*piece_idx, *begin, data)
            },
        }
    }

    fn accepts_block(&self, piece_idx: u32, begin: u32, data: &Vec<u8>) -> (r: bool)
        ensures
            r == acceptable(self@, Msg::BlockResponse { piece_idx, begin, data: data@ }),
    {
        let pos = match find_flight(&self.dl_pieces_in_flight, piece_idx) {
            Some(pos) => pos,
            None => {
                return false;
            },
        };
        if data.len() > u32::MAX as usize {
            return false;
        }
        let ghost kept = with_block(self@, pos as int, Block { begin, data: data@ });
        let piece = &self.dl_pieces_in_flight[pos];
        let n_blocks = piece.piece.n_blocks() as usize;
        let complete = n_blocks > 0 && piece.ready_blks.len() == n_blocks - 1;
        let ghost after = if complete {
            without_piece(kept, pos as int)
        } else {
            kept
        };
        assert(complete == is_complete(kept.flights[pos as int]));
        let mut i: usize = 0;
        while i < self.dl_pieces_in_flight.len()
            invariant
                i <= self.dl_pieces_in_flight@.len(),
                pos < self.dl_pieces_in_flight@.len(),
                kept == with_block(self@, pos as int, Block { begin, data: data@ }),
                after == (if complete {
                    without_piece(kept, pos as int)
                } else {
                    kept
                }),
                data@.len() <= u32::MAX,
                acceptable(self@, Msg::BlockResponse { piece_idx, begin, data: data@ })
                    == can_go_on(after),
                forall|k: int|
                    0 <= k < i && !(complete && k == pos) ==> (
                    #[trigger] self@.flights[k]).unasked.len() == 0,
            decreases self.dl_pieces_in_flight@.len() - i,
        {
            if !(complete && i == pos) && self.dl_pieces_in_flight[i].unasked_blks.len() > 0 {
                proof {
                    let last = self.dl_pieces_in_flight@.len() - 1;
                    let k = if complete && i == last {
                        pos as int
                    } else {
                        i as int
                    };
                    lemma_first_open(after.flights);
                    assert(self@.flights[i as int].unasked.len() > 0);
                    assert(after.flights[k].unasked == self@.flights[i as int].unasked);
                }
                return true;
            }
            i += 1;
        }
        proof {
            let last = self.dl_pieces_in_flight@.len() - 1;
            lemma_first_open(after.flights);
            if first_open(after.flights) is Some {
                let k = first_open(after.flights)->0;
                let was = if complete && k == pos {
                    last
                } else {
                    k
                };
                assert(after.flights[k].unasked == self@.flights[was].unasked);
            }
        }
        if self.piece_download_queue.len() > 0 {
            self.piece_download_queue[0].piece_len > 0
        } else {
            self.blocks_in_flight > 0
        }
    }
}

/// An order to a peer's master.
pub enum TM2PMCmd {
    DownloadPiece(Piece),
}

/// What a peer's master reports.
pub enum PM2TMResult {
    FinishedDownloadingPiece(u32),
}

/// What a peer's master wakes up for.
#[derive(Debug, PartialEq, Eq, Structural, Clone, Copy)]
pub enum PMEvent {
    TorrentMasterCmd,
    PeerSocketReady4Read,
}

/// What a wait for events says: unless the wait failed, the descriptor that ended
/// it is the socket of the peer, or else the one over which orders are
/// announced, or neither.
pub fn event_of(waited: c_int, token: u64, sock_fd: c_int, eventfd_fd: c_int) -> (r: Option<
    PMEvent,
>)
    ensures
        r == (if waited == -1 {
            None
        } else if token == sock_fd as u64 {
            Some(PMEvent::PeerSocketReady4Read)
        } else if token == eventfd_fd as u64 {
            Some(PMEvent::TorrentMasterCmd)
        } else {
            None
        }),
{
    if waited == -1 {
        return None;
    }
    if token == sock_fd as u64 {
        return Some(PMEvent::PeerSocketReady4Read);
    }
    if token == eventfd_fd as u64 {
        return Some(PMEvent::TorrentMasterCmd);
    }
    None
}

/// Whether what was read where orders are announced announces just one: all
/// eight bytes of the count were read, and it is one.
pub fn announces_one_order(n_read: isize, count: u64) -> (r: bool)
    ensures
        r == (n_read == 8 && count == 1),
{
    n_read == 8 && count == 1
}

/// Whether a message from a peer lets us begin: it serves us now.
pub fn lets_us_begin(msg: &BtMsg) -> (r: bool)
    ensures
        r == (msg@ is Unchoke),
        r == (*msg is Unchoke),
{
    match msg {
        BtMsg::Unchoke => true,
        _ => false,
    }
}

} // verus!
