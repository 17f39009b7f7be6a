//! Pieces, blocks and files place by place: how long each is, where it begins and
//! what is written where.

use libc::c_int;
use vstd::prelude::*;
use vstd::seq_lib::to_multiset_len;

use crate::blocks::{
    block_count, block_order, block_range, blocks_of, comes_before, first_with_number, in_order, joined_data,
    lemma_block_order_is_total, nth_block, swap_removed, Block, BlockReq, BlockResp,
    PieceInFlight,
};
use crate::chunk::{spans_of, woven, Chunk, Span};
use crate::laws_bencode::{earlier, lemma_dictionary_order};
use crate::outside::ascending;
use crate::torrent::{
    found, is_nth_piece, lemma_parts_in, part_len, parts_in, placeable, share_of, spread,
    start_of, stores_len, BackingStore, Piece, Torrent,
};

verus! {

/// A part begins where it should and ends where the next one begins, or with the
/// whole.
pub proof fn lemma_part_is(whole: int, part: int, i: int)
    requires
        0 < part,
        0 <= i,
        i * part < whole,
    ensures
        (i + 1) * part <= whole ==> i * part + part_len(whole, part, i) == (i + 1) * part,
        (i + 1) * part > whole ==> i * part + part_len(whole, part, i) == whole,
{
    assert((i + 1) * part == i * part + part) by (nonlinear_arith);
}

/// The pieces of a torrent that is stored in one open file: each has its number,
/// its twenty bytes of hash, and the stretch of the file from its number times the
/// length of a piece on, up to the next piece or to the end.
pub proof fn lemma_nth_piece_is(torrent: Torrent, fd: c_int, i: int, piece: Piece)
    requires
        torrent.piece_length > 0,
        torrent.vfile_length <= usize::MAX,
        0 <= i,
        i * torrent.piece_length < torrent.vfile_length,
        i * 20 + 20 <= torrent.piece_hashes@.len(),
        is_nth_piece(torrent, fd, i, piece),
    ensures
        piece.piece_idx == i,
        (i + 1) * torrent.piece_length <= torrent.vfile_length ==> piece.piece_len
            == torrent.piece_length,
        (i + 1) * torrent.piece_length > torrent.vfile_length ==> i * torrent.piece_length
            + piece.piece_len == torrent.vfile_length,
        forall|j: int|
            0 <= j < 20 ==> #[trigger] piece.piece_hash@[j] == torrent.piece_hashes@[i * 20 + j],
        piece.backing_stores@.len() == 1,
        piece.backing_stores@[0].fd == fd,
        piece.backing_stores@[0].offset == i * torrent.piece_length,
        piece.backing_stores@[0].len == piece.piece_len,
{
    let (whole, part) = (torrent.vfile_length as int, torrent.piece_length as int);
    lemma_part_is(whole, part, i);
    assert((i + 1) * part == i * part + part) by (nonlinear_arith);
    assert(0 <= i * part) by (nonlinear_arith)
        requires
            0 <= i,
            0 < part,
    ;
}

/// There are just as many pieces as it takes.
pub proof fn lemma_number_of_parts(whole: int, part: int, n: int)
    requires
        0 <= whole,
        0 < part,
    ensures
        n == parts_in(whole, part) <==> whole <= n * part < whole + part,
{
    let m = parts_in(whole, part);
    lemma_parts_in(whole, part);
    if whole <= n * part < whole + part {
        assert(n == m) by (nonlinear_arith)
            requires
                whole <= n * part < whole + part,
                whole <= m * part < whole + part,
                0 < part,
        ;
    }
}

/// The number of blocks is the one with which blocks of 16 KiB just suffice.
pub proof fn lemma_number_of_blocks(piece: Piece, n: int)
    ensures
        n == block_count(piece) <==> piece.piece_len <= n * 0x4000 < piece.piece_len + 0x4000,
{
    lemma_number_of_parts(piece.piece_len as int, 0x4000, n);
}

/// A block begins at its number times 16 KiB and is 16 KiB long, or as long as
/// what is left of the piece.
pub proof fn lemma_block_is(piece_len: u32, i: int)
    requires
        0 <= i,
        i * 0x4000 < piece_len,
    ensures
        nth_block(piece_len, i).begin == i * 0x4000,
        piece_len - i * 0x4000 >= 0x4000 ==> nth_block(piece_len, i).length == 0x4000,
        piece_len - i * 0x4000 < 0x4000 ==> nth_block(piece_len, i).length == piece_len - i
            * 0x4000,
{
}

/// Blocks follow one another.
pub proof fn lemma_blocks_in_range(piece_len: u32, from: int, to: int)
    requires
        from <= to,
    ensures
        block_range(piece_len, from, to).len() == to - from,
        forall|i: int|
            0 <= i < to - from ==> #[trigger] block_range(piece_len, from, to)[i] == nth_block(
                piece_len,
                from + i,
            ),
{
}

/// What is taken out goes, the last takes its place, and no other moves.
pub proof fn lemma_swap_removed_is<T>(s: Seq<T>, i: int)
    requires
        0 <= i < s.len(),
    ensures
        swap_removed(s, i).len() == s.len() - 1,
        forall|j: int|
            0 <= j < s.len() - 1 ==> #[trigger] swap_removed(s, i)[j] == (if j == i {
                s[s.len() - 1]
            } else {
                s[j]
            }),
{
}

/// The first block with a number begins within the 16 KiB that the number counts,
/// and none before it does.
pub proof fn lemma_first_with_number_is(blocks: Seq<BlockReq>, number: u32, i: int)
    ensures
        first_with_number(blocks, number, i) <==> {
            &&& 0 <= i < blocks.len()
            &&& number * 0x4000 <= blocks[i].begin < (number + 1) * 0x4000
            &&& forall|j: int|
                0 <= j < i ==> !(number * 0x4000 <= (#[trigger] blocks[j]).begin < (number + 1)
                    * 0x4000)
        },
{
    assert(crate::blocks::BLOCK_SIZE == 0x4000);
    assert forall|b: u32|
        #![trigger (b / 0x4000)]
        b / 0x4000 == number <==> number * 0x4000 <= b < (number + 1) * 0x4000 by {}
    if 0 <= i < blocks.len() {
        let b = blocks[i].begin;
        assert(b / 0x4000 == number <==> number * 0x4000 <= b < (number + 1) * 0x4000);
        assert forall|j: int| 0 <= j < i implies ((#[trigger] blocks[j]).begin / 0x4000 == number
            <==> number * 0x4000 <= blocks[j].begin < (number + 1) * 0x4000) by {}
    }
}

/// A stored block stands for the block with its beginning and its data.
pub proof fn lemma_stored_block(block: BlockResp)
    ensures
        block@.begin == block.begin,
        block@.data == block.data@,
{
}

/// Stored blocks stand for the blocks, one for one.
pub proof fn lemma_stored_blocks(blocks: Seq<BlockResp>)
    ensures
        blocks_of(blocks).len() == blocks.len(),
        forall|i: int|
            0 <= i < blocks.len() ==> (#[trigger] blocks_of(blocks)[i]).begin == blocks[i].begin
                && blocks_of(blocks)[i].data == blocks[i].data@,
{
}

/// A stored piece in flight stands for the piece, the blocks that have come and
/// those not asked for, in the order in which they are stored.
pub proof fn lemma_stored_flight(flight: PieceInFlight)
    ensures
        flight@.piece == flight.piece,
        flight@.ready.len() == flight.ready_blks@.len(),
        forall|i: int|
            0 <= i < flight.ready_blks@.len() ==> (#[trigger] flight@.ready[i]).begin
                == flight.ready_blks@[i].begin && flight@.ready[i].data
                == flight.ready_blks@[i].data@,
        flight@.unasked == flight.unasked_blks@,
{
}

/// Blocks in order are the same blocks; each begins no later than the next, and of
/// two that begin together the data of the first do not come after those of the
/// second.
pub proof fn lemma_order_is(blocks: Seq<Block>)
    ensures
        in_order(blocks).to_multiset() == blocks.to_multiset(),
        in_order(blocks).len() == blocks.len(),
        forall|i: int, j: int|
            0 <= i < j < blocks.len() ==> {
                let (a, b) = (#[trigger] in_order(blocks)[i], #[trigger] in_order(blocks)[j]);
                &&& a.begin <= b.begin
                &&& a.begin == b.begin ==> !earlier(b.data, a.data)
            },
{
    let sorted = in_order(blocks);
    let leq = block_order();
    lemma_block_order_is_total();
    blocks.lemma_sort_by_ensures(leq);
    to_multiset_len(blocks);
    to_multiset_len(sorted);
    assert forall|i: int, j: int| 0 <= i < j < blocks.len() implies {
        let (a, b) = (#[trigger] sorted[i], #[trigger] sorted[j]);
        &&& a.begin <= b.begin
        &&& a.begin == b.begin ==> !earlier(b.data, a.data)
    } by {
        let (a, b) = (sorted[i], sorted[j]);
        assert(leq(a, b));
        assert(!comes_before(b, a));
        lemma_dictionary_order(b.data, a.data);
    }
}

/// Data are joined one after the other.
pub proof fn lemma_joined_is(blocks: Seq<Block>, block: Block)
    ensures
        joined_data(Seq::empty()) == Seq::<u8>::empty(),
        joined_data(blocks.push(block)) == joined_data(blocks) + block.data,
{
    assert(blocks.push(block).drop_last() =~= blocks);
}

/// A search for an offset comes out at a file of which none before it ends after
/// the offset and none from it on before the offset; where some file ends at the
/// offset, so does this one.
pub proof fn lemma_found_is(ends: Seq<usize>, offset: int, i: int)
    requires
        found(ends, offset, i),
    ensures
        0 <= i <= ends.len(),
        forall|j: int| 0 <= j < i ==> #[trigger] ends[j] <= offset,
        forall|j: int| i <= j < ends.len() ==> offset <= #[trigger] ends[j],
        (exists|j: int| 0 <= j < ends.len() && #[trigger] ends[j] == offset) ==> i < ends.len()
            && ends[i] == offset,
{
}

/// Numbers ascend where none is smaller than one before it.
pub proof fn lemma_ascending_is(s: Seq<usize>)
    ensures
        ascending(s) <==> forall|i: int, j: int|
            0 <= i < j < s.len() ==> #[trigger] s[i] <= #[trigger] s[j],
{
}

/// A stretch that lies within files of less than 4 GiB, all of them open, can be
/// laid out.
pub proof fn lemma_open_files_suffice(
    ends: Seq<usize>,
    fds: Seq<(c_int, u32)>,
    first: int,
    at: int,
    len: int,
)
    requires
        forall|i: int, j: int| 0 <= i < j < ends.len() ==> #[trigger] ends[i] <= #[trigger] ends[j],
        forall|i: int|
            0 <= i < ends.len() ==> #[trigger] ends[i] - (if i == 0 {
                0int
            } else {
                ends[i - 1] as int
            }) <= u32::MAX,
        0 < ends.len() <= fds.len(),
        0 <= at,
        0 <= len,
        at + len <= ends[ends.len() - 1],
        found(ends, at, first),
    ensures
        placeable(ends, fds, first, at, len),
{
    lemma_ascending_is(ends);
    crate::torrent::lemma_within_is_placeable(ends, fds, first, at, len);
}

/// A file begins where the one before it ends, and the first at nought.
pub proof fn lemma_start_is(ends: Seq<usize>, i: int)
    ensures
        i == 0 ==> start_of(ends, i) == 0,
        0 < i <= ends.len() ==> start_of(ends, i) == ends[i - 1],
{
}

/// The length of stores together is the sum of their lengths.
pub proof fn lemma_stores_len_is(store: BackingStore, stores: Seq<BackingStore>)
    ensures
        stores_len(Seq::empty()) == 0,
        stores_len(seq![store] + stores) == store.len + stores_len(stores),
{
    assert((seq![store] + stores).skip(1) =~= stores);
}

/// The stores of a stretch lie in files that follow one another. The first begins
/// where the stretch does, each other at the beginning of its file. Each but the
/// last goes to the end of its file (as far as 32 bits can say), none goes
/// further, and no store but the first is the last for nothing.
pub proof fn lemma_stores_are(
    ends: Seq<usize>,
    fds: Seq<(c_int, u32)>,
    first: int,
    at: int,
    len: int,
)
    requires
        ascending(ends),
        0 <= len <= u32::MAX,
        placeable(ends, fds, first, at, len),
        start_of(ends, first) <= at <= ends[first],
    ensures
        ({
            let stores = spread(ends, fds, first, at, len);
            &&& 0 < stores.len() <= ends.len() - first
            &&& forall|x: int|
                0 <= x < stores.len() ==> {
                    let begin: int = if x == 0 {
                        at
                    } else {
                        ends[first + x - 1] as int
                    };
                    let room = (ends[first + x] - begin) as u32;
                    &&& (#[trigger] stores[x]).fd == fds[first + x].0
                    &&& stores[x].offset == (if x == 0 {
                        at - (if first == 0 {
                            0int
                        } else {
                            ends[first - 1] as int
                        })
                    } else {
                        0
                    })
                    &&& stores[x].len <= room
                    &&& x + 1 < stores.len() ==> stores[x].len == room
                    &&& x > 0 && x + 1 == stores.len() ==> stores[x].len > 0
                }
        }),
        stores_len(spread(ends, fds, first, at, len)) == len,
    decreases ends.len() - first,
{
    let stores = spread(ends, fds, first, at, len);
    let share = share_of(ends, first, at, len);
    crate::torrent::lemma_spread_len(ends, fds, first, at, len);
    assert(stores[0].len == share);
    if len - share > 0 {
        let rest = spread(ends, fds, first + 1, ends[first] as int, len - share);
        assert(placeable(ends, fds, first + 1, ends[first] as int, len - share));
        assert(ends[first] <= ends[first + 1]);
        lemma_stores_are(ends, fds, first + 1, ends[first] as int, len - share);
        assert(stores =~= seq![stores[0]] + rest);
        assert(rest.len() == 1 ==> rest[0].len > 0) by {
            if rest.len() == 1 {
                assert(rest.skip(1) =~= Seq::empty());
                assert(stores_len(rest.skip(1)) == 0);
                assert(stores_len(rest) == rest[0].len);
            }
        }
        assert forall|x: int| 0 <= x < stores.len() implies {
            let begin: int = if x == 0 {
                at
            } else {
                ends[first + x - 1] as int
            };
            let room = (ends[first + x] - begin) as u32;
            &&& (#[trigger] stores[x]).fd == fds[first + x].0
            &&& stores[x].offset == (if x == 0 {
                at - (if first == 0 {
                    0int
                } else {
                    ends[first - 1] as int
                })
            } else {
                0
            })
            &&& stores[x].len <= room
            &&& x + 1 < stores.len() ==> stores[x].len == room
            &&& x > 0 && x + 1 == stores.len() ==> stores[x].len > 0
        } by {
            if x > 0 {
                assert(stores[x] == rest[x - 1]);
            }
        }
    }
}

/// A stored chunk stands for the same parts of the same block and store.
pub proof fn lemma_stored_chunks(chunks: Seq<Chunk>)
    ensures
        spans_of(chunks).len() == chunks.len(),
        forall|x: int|
            0 <= x < chunks.len() ==> {
                &&& (#[trigger] spans_of(chunks)[x]).blk == chunks[x].blk@
                &&& spans_of(chunks)[x].blk_start == chunks[x].blk_start
                &&& spans_of(chunks)[x].bs == *chunks[x].bs
                &&& spans_of(chunks)[x].bs_start == chunks[x].bs_start
                &&& spans_of(chunks)[x].len == chunks[x].len
            },
{
}

/// The span has this block and this store, begins within both, and is as long as
/// both have room.
pub open spec fn span_of(span: Span, block: Block, store: BackingStore) -> bool {
    &&& span.blk == block
    &&& span.bs == store
    &&& 0 <= span.blk_start <= block.data.len()
    &&& 0 <= span.bs_start <= store.len
    &&& span.len <= block.data.len() - span.blk_start
    &&& span.len <= store.len - span.bs_start
    &&& span.len == block.data.len() - span.blk_start || span.len == store.len - span.bs_start
}

/// One span follows another: a block or a store that is used up gives way to the
/// next, of which the beginning is used; one that is not goes on where it was left.
pub open spec fn span_follows(a: Span, i: int, j: int, b: Span, k: int, l: int) -> bool {
    &&& a.blk_start + a.len == a.blk.data.len() ==> k == i + 1 && b.blk_start == 0
    &&& a.blk_start + a.len < a.blk.data.len() ==> k == i && b.blk_start == a.blk_start + a.len
    &&& a.bs_start + a.len == a.bs.len ==> l == j + 1 && b.bs_start == 0
    &&& a.bs_start + a.len < a.bs.len ==> l == j && b.bs_start == a.bs_start + a.len
}

/// The `x`-th span and the one after it follow one another.
pub open spec fn linked(spans: Seq<Span>, i: Seq<int>, j: Seq<int>, x: int) -> bool {
    span_follows(spans[x], i[x], j[x], spans[x + 1], i[x + 1], j[x + 1])
}

/// The `x`-th span has the block numbered `i[x]` and the store numbered `j[x]`.
pub open spec fn numbered(
    blocks: Seq<Block>,
    stores: Seq<BackingStore>,
    spans: Seq<Span>,
    i: Seq<int>,
    j: Seq<int>,
    x: int,
) -> bool {
    &&& 0 <= i[x] < blocks.len()
    &&& 0 <= j[x] < stores.len()
    &&& span_of(spans[x], blocks[i[x]], stores[j[x]])
}

/// The spans match the blocks numbered `i` with the stores numbered `j`, each
/// follows the one before, and the last uses up its block and its store, one of
/// which is the last.
pub open spec fn matched(
    blocks: Seq<Block>,
    stores: Seq<BackingStore>,
    spans: Seq<Span>,
    i: Seq<int>,
    j: Seq<int>,
) -> bool {
    &&& spans.len() > 0
    &&& i.len() == spans.len()
    &&& j.len() == spans.len()
    &&& forall|x: int|
        0 <= x < spans.len() ==> #[trigger] numbered(blocks, stores, spans, i, j, x)
    &&& forall|x: int| 0 <= x < spans.len() - 1 ==> #[trigger] linked(spans, i, j, x)
    &&& spans.last().blk_start + spans.last().len == spans.last().blk.data.len()
    &&& spans.last().bs_start + spans.last().len == spans.last().bs.len
    &&& i.last() == blocks.len() - 1 || j.last() == stores.len() - 1
}

/// Blocks fill stores span by span, from the beginning of the first block and of
/// the first store on.
pub proof fn lemma_spans_are(blocks: Seq<Block>, stores: Seq<BackingStore>) -> (r: (
    Seq<int>,
    Seq<int>,
))
    requires
        blocks.len() > 0,
        stores.len() > 0,
        joined_data(blocks).len() == stores_len(stores),
    ensures
        matched(blocks, stores, woven(blocks, stores, 0, 0, 0, 0), r.0, r.1),
        r.0[0] == 0,
        r.1[0] == 0,
        woven(blocks, stores, 0, 0, 0, 0)[0].blk_start == 0,
        woven(blocks, stores, 0, 0, 0, 0)[0].bs_start == 0,
{
    crate::chunk::lemma_lengths(blocks, stores);
    lemma_spans_from(blocks, stores, 0, 0, 0, 0)
}

proof fn lemma_spans_from(
    blocks: Seq<Block>,
    stores: Seq<BackingStore>,
    i0: int,
    bi: int,
    j0: int,
    bj: int,
) -> (r: (Seq<int>, Seq<int>))
    requires
        0 <= i0 < blocks.len(),
        0 <= j0 < stores.len(),
        0 <= bi <= blocks[i0].data.len(),
        0 <= bj <= stores[j0].len,
        crate::chunk::blocks_left(blocks, i0) - bi == crate::chunk::stores_left(stores, j0) - bj,
    ensures
        matched(blocks, stores, woven(blocks, stores, i0, bi, j0, bj), r.0, r.1),
        r.0[0] == i0,
        r.1[0] == j0,
        woven(blocks, stores, i0, bi, j0, bj)[0].blk_start == bi,
        woven(blocks, stores, i0, bi, j0, bj)[0].bs_start == bj,
    decreases blocks.len() - i0 + stores.len() - j0,
{
    let spans = woven(blocks, stores, i0, bi, j0, bj);
    let rb = blocks[i0].data.len() - bi;
    let rs = stores[j0].len - bj;
    crate::chunk::lemma_blocks_left(blocks, i0 + 1);
    crate::chunk::lemma_stores_left(stores, j0 + 1);
    let i1: int = if rb <= rs {
        i0 + 1
    } else {
        i0
    };
    let bi1: int = if rb <= rs {
        0
    } else {
        bi + rs
    };
    let j1: int = if rs <= rb {
        j0 + 1
    } else {
        j0
    };
    let bj1: int = if rs <= rb {
        0
    } else {
        bj + rb
    };
    let rest = woven(blocks, stores, i1, bi1, j1, bj1);
    assert(spans =~= seq![spans[0]] + rest);
    assert(span_of(spans[0], blocks[i0], stores[j0]));
    if i1 < blocks.len() && j1 < stores.len() {
        let q = lemma_spans_from(blocks, stores, i1, bi1, j1, bj1);
        let (i, j) = (q.0, q.1);
        let (ri, rj) = (seq![i0] + i, seq![j0] + j);
        assert forall|x: int| 0 <= x < spans.len() implies #[trigger] numbered(
            blocks,
            stores,
            spans,
            ri,
            rj,
            x,
        ) by {
            if x > 0 {
                assert(spans[x] == rest[x - 1]);
                assert(numbered(blocks, stores, rest, i, j, x - 1));
            }
        }
        assert forall|x: int| 0 <= x < spans.len() - 1 implies #[trigger] linked(
            spans,
            ri,
            rj,
            x,
        ) by {
            assert(spans[x + 1] == rest[x]);
            if x > 0 {
                assert(spans[x] == rest[x - 1]);
                assert(linked(rest, i, j, x - 1));
            }
        }
        assert(spans.last() == rest.last());
        assert(ri.last() == i.last());
        assert(rj.last() == j.last());
        assert(matched(blocks, stores, spans, ri, rj));
        (ri, rj)
    } else {
        assert(rest =~= Seq::empty());
        assert(crate::chunk::blocks_left(blocks, blocks.len() as int) == 0);
        assert(crate::chunk::stores_left(stores, stores.len() as int) == 0);
        assert(rb == rs);
        assert(spans.len() == 1);
        assert(spans.last() == spans[0]);
        let (ri, rj) = (seq![i0], seq![j0]);
        assert(matched(blocks, stores, spans, ri, rj));
        (ri, rj)
    }
}

} // verus!
