//! How the blocks of a piece are written to the stretches of files behind it.

use libc::c_int;
use vstd::prelude::*;

use crate::blocks::{blocks_of, joined_data, Block, BlockResp};
use crate::outside::ascending;
use crate::torrent::{
    found, lemma_spread_len, lemma_spread_places, placeable, place_of, short_files, spread, start_of,
    stores_len, BackingStore,
};

verus! {

/// A part of a block that goes to a part of a store.
pub struct Chunk<'a, 'b> {
    pub blk: &'a BlockResp,
    pub blk_start: usize,
    pub bs: &'b BackingStore,
    pub bs_start: usize,
    pub len: usize,
}

/// A part of a block that goes to a part of a store, itself.
pub struct Span {
    pub blk: Block,
    pub blk_start: int,
    pub bs: BackingStore,
    pub bs_start: int,
    pub len: int,
}

impl<'a, 'b> View for Chunk<'a, 'b> {
    type V = Span;

    open spec fn view(&self) -> Span {
        Span {
            blk: self.blk@,
            blk_start: self.blk_start as int,
            bs: *self.bs,
            bs_start: self.bs_start as int,
            len: self.len as int,
        }
    }
}

/// The chunks themselves.
pub open spec fn spans_of(chunks: Seq<Chunk>) -> Seq<Span> {
    Seq::new(chunks.len(), |i: int| chunks[i]@)
}

/// The length of the blocks from the `i`-th on together.
pub open spec fn blocks_left(blocks: Seq<Block>, i: int) -> int
    decreases blocks.len() - i,
{
    if 0 <= i < blocks.len() {
        blocks[i].data.len() + blocks_left(blocks, i + 1)
    } else {
        0
    }
}

/// The length of the stores from the `j`-th on together.
pub open spec fn stores_left(stores: Seq<BackingStore>, j: int) -> int
    decreases stores.len() - j,
{
    if 0 <= j < stores.len() {
        stores[j].len + stores_left(stores, j + 1)
    } else {
        0
    }
}

/// The spans in which what is left of the blocks, from byte `bi` of block `i`
/// on, goes to what is left of the stores, from byte `bj` of store `j` on: each
/// is as long as both its block and its store have room.
pub open spec fn woven(
    blocks: Seq<Block>,
    stores: Seq<BackingStore>,
    i: int,
    bi: int,
    j: int,
    bj: int,
) -> Seq<Span>
    decreases blocks.len() - i + stores.len() - j,
{
    if 0 <= i < blocks.len() && 0 <= j < stores.len() {
        let blk_space = blocks[i].data.len() - bi;
        let bs_space = stores[j].len - bj;
        let len = if blk_space < bs_space {
            blk_space
        } else {
            bs_space
        };
        seq![Span { blk: blocks[i], blk_start: bi, bs: stores[j], bs_start: bj, len }] + (
        if blk_space < bs_space {
            woven(blocks, stores, i + 1, 0, j, bj + len)
        } else if blk_space > bs_space {
            woven(blocks, stores, i, bi + len, j + 1, 0)
        } else {
            woven(blocks, stores, i + 1, 0, j + 1, 0)
        })
    } else {
        Seq::empty()
    }
}

impl<'a, 'b> Chunk<'a, 'b> {
    /// Says which part of which block goes to which part of which store, when
    /// the blocks, one after the other, fill the stores, one after the other.
    pub fn combine_shit(blocks: &'a [BlockResp], backing_stores: &'b [BackingStore]) -> (r: Vec<
        Chunk<'a, 'b>,
    >)
        requires
            blocks@.len() > 0,
            backing_stores@.len() > 0,
            joined_data(blocks_of(blocks@)).len() == stores_len(backing_stores@),
        ensures
            spans_of(r@) == woven(blocks_of(blocks@), backing_stores@, 0, 0, 0, 0),
    {
        let ghost blks = blocks_of(blocks@);
        let ghost bss = backing_stores@;
        let ghost all = woven(blks, bss, 0, 0, 0, 0);
        let mut i: usize = 0;
        let mut blk_start: usize = 0;
        let mut j: usize = 0;
        let mut bs_start: usize = 0;
        let mut retval: Vec<Chunk<'a, 'b>> = Vec::new();
        assert(all =~= spans_of(retval@) + all);
        while i < blocks.len() && j < backing_stores.len()
            invariant
                blks == blocks_of(blocks@),
                bss == backing_stores@,
                i <= blks.len(),
                j <= bss.len(),
                i < blks.len() ==> blk_start <= blks[i as int].data.len(),
                j < bss.len() ==> bs_start <= bss[j as int].len,
                all == spans_of(retval@) + woven(
                    blks,
                    bss,
                    i as int,
                    blk_start as int,
                    j as int,
                    bs_start as int,
                ),
            decreases blks.len() - i + bss.len() - j,
        {
            let blk = &blocks[i];
            let bs = &backing_stores[j];
            let blk_space: usize = blk.data.len() - blk_start;
            let bs_space: usize = bs.len - bs_start;
            let ghost before = spans_of(retval@);
            let len: usize = if blk_space < bs_space {
                blk_space
            } else {
                bs_space
            };
            let chunk = Chunk { blk, blk_start, bs, bs_start, len };
            retval.push(chunk);
            assert(spans_of(retval@) =~= before.push(chunk@));
            let ghost rest = woven(
                blks,
                bss,
                i as int,
                blk_start as int,
                j as int,
                bs_start as int,
            );
            if blk_space < bs_space {
                bs_start += blk_space;
                blk_start = 0;
                i += 1;
            } else if blk_space > bs_space {
                blk_start += bs_space;
                bs_start = 0;
                j += 1;
            } else {
                blk_start = 0;
                bs_start = 0;
                i += 1;
                j += 1;
            }
            assert(rest =~= seq![chunk@] + woven(
                blks,
                bss,
                i as int,
                blk_start as int,
                j as int,
                bs_start as int,
            ));
            assert(all =~= spans_of(retval@) + woven(
                blks,
                bss,
                i as int,
                blk_start as int,
                j as int,
                bs_start as int,
            ));
        }
        assert(all =~= spans_of(retval@));
        retval
    }

    /// Whether the blocks fill the stores: there are some of both, and they are
    /// equally long.
    pub fn fits(blocks: &[BlockResp], backing_stores: &[BackingStore]) -> (r: bool)
        ensures
            r == (blocks@.len() > 0 && backing_stores@.len() > 0 && joined_data(
                blocks_of(blocks@),
            ).len() == stores_len(backing_stores@)),
    {
        let ghost blks = blocks_of(blocks@);
        let ghost bss = backing_stores@;
        let mut blocks_len: u128 = 0;
        let mut i: usize = blocks.len();
        while i > 0
            invariant
                blks == blocks_of(blocks@),
                i <= blks.len() <= usize::MAX,
                blocks_len == blocks_left(blks, i as int),
                blocks_len <= (blks.len() - i) * usize::MAX,
            decreases i,
        {
            i -= 1;
            let n: usize = blocks[i].data.len();
            proof {
                lemma_sum_fits(blocks_len as int, blks.len() - i - 1, n);
            }
            blocks_len += n as u128;
        }
        let mut total: u128 = 0;
        let mut j: usize = backing_stores.len();
        while j > 0
            invariant
                bss == backing_stores@,
                j <= bss.len() <= usize::MAX,
                total == stores_left(bss, j as int),
                total <= (bss.len() - j) * usize::MAX,
            decreases j,
        {
            j -= 1;
            let n: usize = backing_stores[j].len;
            proof {
                lemma_sum_fits(total as int, bss.len() - j - 1, n);
            }
            total += n as u128;
        }
        proof {
            lemma_lengths(blks, bss);
        }
        blocks.len() > 0 && backing_stores.len() > 0 && blocks_len == total
    }
}

proof fn lemma_sum_fits(sum: int, n: int, more: usize)
    requires
        0 <= sum <= n * usize::MAX,
        0 <= n < usize::MAX,
    ensures
        sum + more <= (n + 1) * usize::MAX,
        sum + more <= u128::MAX,
{
    assert(n * usize::MAX + usize::MAX == (n + 1) * usize::MAX) by (nonlinear_arith);
    assert((n + 1) * usize::MAX <= usize::MAX * usize::MAX) by (nonlinear_arith)
        requires
            n + 1 <= usize::MAX,
    ;
    assert(usize::MAX * usize::MAX <= u64::MAX * u64::MAX) by (nonlinear_arith)
        requires
            0 <= usize::MAX <= u64::MAX,
    ;
}

/// Byte `k` of what the spans carry, and the open file and the offset in it at
/// which it is written.
pub open spec fn written(spans: Seq<Span>, k: int) -> (u8, (c_int, int))
    decreases spans.len(),
{
    if spans.len() == 0 {
        arbitrary()
    } else if k < spans[0].len {
        (
            spans[0].blk.data[spans[0].blk_start + k],
            (spans[0].bs.fd, spans[0].bs.offset + spans[0].bs_start + k),
        )
    } else {
        written(spans.skip(1), k - spans[0].len)
    }
}

/// The length of the spans together.
pub open spec fn spans_len(spans: Seq<Span>) -> int
    decreases spans.len(),
{
    if spans.len() == 0 {
        0
    } else {
        spans[0].len + spans_len(spans.skip(1))
    }
}

/// Byte `k` of what is left of the blocks, from byte `bi` of block `i` on.
spec fn byte_from(blocks: Seq<Block>, i: int, bi: int, k: int) -> u8
    decreases blocks.len() - i,
{
    if 0 <= i < blocks.len() {
        if bi + k < blocks[i].data.len() {
            blocks[i].data[bi + k]
        } else {
            byte_from(blocks, i + 1, 0, bi + k - blocks[i].data.len())
        }
    } else {
        arbitrary()
    }
}

/// Where byte `k` of what is left of the stores is, from byte `bj` of store `j`
/// on.
spec fn place_from(stores: Seq<BackingStore>, j: int, bj: int, k: int) -> (c_int, int)
    decreases stores.len() - j,
{
    if 0 <= j < stores.len() {
        if bj + k < stores[j].len {
            (stores[j].fd, stores[j].offset + bj + k)
        } else {
            place_from(stores, j + 1, 0, bj + k - stores[j].len)
        }
    } else {
        arbitrary()
    }
}

/// What is left of blocks is not negative.
pub proof fn lemma_blocks_left(blocks: Seq<Block>, i: int)
    ensures
        0 <= blocks_left(blocks, i),
    decreases blocks.len() - i,
{
    if 0 <= i < blocks.len() {
        lemma_blocks_left(blocks, i + 1);
    }
}

/// What is left of stores is not negative.
pub proof fn lemma_stores_left(stores: Seq<BackingStore>, j: int)
    ensures
        0 <= stores_left(stores, j),
    decreases stores.len() - j,
{
    if 0 <= j < stores.len() {
        lemma_stores_left(stores, j + 1);
    }
}

proof fn lemma_woven_from(
    blocks: Seq<Block>,
    stores: Seq<BackingStore>,
    i: int,
    bi: int,
    j: int,
    bj: int,
    k: int,
)
    requires
        0 <= i,
        0 <= bi,
        0 <= j,
        0 <= bj,
        i < blocks.len() ==> bi <= blocks[i].data.len(),
        j < stores.len() ==> bj <= stores[j].len,
        blocks_left(blocks, i) - bi == stores_left(stores, j) - bj,
        0 <= k < blocks_left(blocks, i) - bi,
    ensures
        written(woven(blocks, stores, i, bi, j, bj), k) == (
            byte_from(blocks, i, bi, k),
            place_from(stores, j, bj, k),
        ),
    decreases blocks.len() - i + stores.len() - j,
{
    let spans = woven(blocks, stores, i, bi, j, bj);
    let blk_space = blocks[i].data.len() - bi;
    let bs_space = stores[j].len - bj;
    assert(i < blocks.len());
    assert(j < stores.len());
    if blk_space < bs_space {
        if k >= blk_space {
            let rest = woven(blocks, stores, i + 1, 0, j, bj + blk_space);
            assert(spans.skip(1) =~= rest);
            lemma_woven_from(blocks, stores, i + 1, 0, j, bj + blk_space, k - blk_space);
            assert(written(spans, k) == written(rest, k - blk_space));
            assert(place_from(stores, j, bj, k) == place_from(
                stores,
                j,
                bj + blk_space,
                k - blk_space,
            ));
        }
    } else if blk_space > bs_space {
        if k >= bs_space {
            let rest = woven(blocks, stores, i, bi + bs_space, j + 1, 0);
            assert(spans.skip(1) =~= rest);
            lemma_woven_from(blocks, stores, i, bi + bs_space, j + 1, 0, k - bs_space);
            assert(written(spans, k) == written(rest, k - bs_space));
            assert(byte_from(blocks, i, bi, k) == byte_from(
                blocks,
                i,
                bi + bs_space,
                k - bs_space,
            ));
        }
    } else {
        if k >= blk_space {
            let rest = woven(blocks, stores, i + 1, 0, j + 1, 0);
            assert(spans.skip(1) =~= rest);
            lemma_woven_from(blocks, stores, i + 1, 0, j + 1, 0, k - blk_space);
            assert(written(spans, k) == written(rest, k - blk_space));
        }
    }
}

proof fn lemma_joined_data_first(blocks: Seq<Block>)
    requires
        blocks.len() > 0,
    ensures
        joined_data(blocks) == blocks[0].data + joined_data(blocks.skip(1)),
    decreases blocks.len(),
{
    if blocks.len() == 1 {
        assert(blocks.drop_last() =~= Seq::empty());
        assert(blocks.skip(1) =~= Seq::empty());
        assert(joined_data(Seq::empty()) =~= Seq::empty());
        assert(joined_data(blocks) =~= blocks[0].data + joined_data(blocks.skip(1)));
    } else {
        lemma_joined_data_first(blocks.drop_last());
        assert(blocks.drop_last().skip(1) =~= blocks.skip(1).drop_last());
        assert(joined_data(blocks) =~= blocks[0].data + joined_data(blocks.skip(1)));
    }
}

proof fn lemma_byte_from(blocks: Seq<Block>, i: int, k: int)
    requires
        0 <= i <= blocks.len(),
        0 <= k,
    ensures
        joined_data(blocks.skip(i)).len() == blocks_left(blocks, i),
        k < blocks_left(blocks, i) ==> byte_from(blocks, i, 0, k) == joined_data(
            blocks.skip(i),
        )[k],
    decreases blocks.len() - i,
{
    if i < blocks.len() {
        let n = blocks[i].data.len() as int;
        lemma_joined_data_first(blocks.skip(i));
        assert(blocks.skip(i).skip(1) =~= blocks.skip(i + 1));
        lemma_byte_from(
            blocks,
            i + 1,
            if k < n {
                0
            } else {
                k - n
            },
        );
    }
}

proof fn lemma_place_from(stores: Seq<BackingStore>, j: int, k: int)
    requires
        0 <= j <= stores.len(),
        0 <= k < stores_left(stores, j),
    ensures
        place_from(stores, j, 0, k) == place_of(stores.skip(j), k),
    decreases stores.len() - j,
{
    if j < stores.len() && k >= stores[j].len {
        assert(stores.skip(j).skip(1) =~= stores.skip(j + 1));
        lemma_place_from(stores, j + 1, k - stores[j].len);
    }
}

proof fn lemma_stores_len(stores: Seq<BackingStore>, j: int)
    requires
        0 <= j <= stores.len(),
    ensures
        stores_len(stores.skip(j)) == stores_left(stores, j),
    decreases stores.len() - j,
{
    if j < stores.len() {
        assert(stores.skip(j).skip(1) =~= stores.skip(j + 1));
        lemma_stores_len(stores, j + 1);
    }
}

/// What is left of all blocks and of all stores is all of them.
pub proof fn lemma_lengths(blocks: Seq<Block>, stores: Seq<BackingStore>)
    ensures
        blocks_left(blocks, 0) == joined_data(blocks).len(),
        stores_left(stores, 0) == stores_len(stores),
{
    lemma_byte_from(blocks, 0, 0);
    lemma_stores_len(stores, 0);
    assert(blocks.skip(0) =~= blocks);
    assert(stores.skip(0) =~= stores);
}

/// Byte `k` of the data is written where the stores hold byte `k`.
pub proof fn lemma_woven_writes(blocks: Seq<Block>, stores: Seq<BackingStore>, k: int)
    requires
        joined_data(blocks).len() == stores_len(stores),
        0 <= k < joined_data(blocks).len(),
    ensures
        written(woven(blocks, stores, 0, 0, 0, 0), k) == (
            joined_data(blocks)[k],
            place_of(stores, k),
        ),
{
    lemma_lengths(blocks, stores);
    lemma_woven_from(blocks, stores, 0, 0, 0, 0, k);
    lemma_byte_from(blocks, 0, k);
    lemma_place_from(stores, 0, k);
    assert(blocks.skip(0) =~= blocks);
    assert(stores.skip(0) =~= stores);
}

/// The spans carry all the data, and nothing more.
pub proof fn lemma_woven_len(blocks: Seq<Block>, stores: Seq<BackingStore>)
    requires
        joined_data(blocks).len() == stores_len(stores),
    ensures
        spans_len(woven(blocks, stores, 0, 0, 0, 0)) == joined_data(blocks).len(),
{
    lemma_lengths(blocks, stores);
    lemma_woven_len_from(blocks, stores, 0, 0, 0, 0);
}

proof fn lemma_woven_len_from(
    blocks: Seq<Block>,
    stores: Seq<BackingStore>,
    i: int,
    bi: int,
    j: int,
    bj: int,
)
    requires
        0 <= i,
        0 <= bi,
        0 <= j,
        0 <= bj,
        i < blocks.len() ==> bi <= blocks[i].data.len(),
        j < stores.len() ==> bj <= stores[j].len,
        i >= blocks.len() ==> bi == 0,
        j >= stores.len() ==> bj == 0,
        blocks_left(blocks, i) - bi == stores_left(stores, j) - bj,
    ensures
        spans_len(woven(blocks, stores, i, bi, j, bj)) == blocks_left(blocks, i) - bi,
    decreases blocks.len() - i + stores.len() - j,
{
    let spans = woven(blocks, stores, i, bi, j, bj);
    if i < blocks.len() && j < stores.len() {
        let blk_space = blocks[i].data.len() - bi;
        let bs_space = stores[j].len - bj;
        lemma_blocks_left(blocks, i + 1);
        lemma_stores_left(stores, j + 1);
        if blk_space < bs_space {
            let rest = woven(blocks, stores, i + 1, 0, j, bj + blk_space);
            assert(spans.skip(1) =~= rest);
            lemma_woven_len_from(blocks, stores, i + 1, 0, j, bj + blk_space);
        } else if blk_space > bs_space {
            let rest = woven(blocks, stores, i, bi + bs_space, j + 1, 0);
            assert(spans.skip(1) =~= rest);
            lemma_woven_len_from(blocks, stores, i, bi + bs_space, j + 1, 0);
        } else {
            let rest = woven(blocks, stores, i + 1, 0, j + 1, 0);
            assert(spans.skip(1) =~= rest);
            lemma_woven_len_from(blocks, stores, i + 1, 0, j + 1, 0);
        }
    }
}

/// When the blocks of a stretch of the virtual file are written to the stores
/// of that stretch, each byte lands where it belongs: in the file that its
/// position falls in, at its distance from the beginning of that file.
pub proof fn lemma_bytes_land_in_their_files(
    blocks: Seq<Block>,
    ends: Seq<usize>,
    fds: Seq<(c_int, u32)>,
    first: int,
    at: int,
    k: int,
    file: int,
)
    requires
        ascending(ends),
        short_files(ends),
        0 <= at,
        found(ends, at, first),
        joined_data(blocks).len() <= u32::MAX,
        placeable(ends, fds, first, at, joined_data(blocks).len() as int),
        0 <= k < joined_data(blocks).len(),
        0 <= file < ends.len(),
        start_of(ends, file) <= at + k < ends[file],
    ensures
        written(
            woven(
                blocks,
                spread(ends, fds, first, at, joined_data(blocks).len() as int),
                0,
                0,
                0,
                0,
            ),
            k,
        ) == (joined_data(blocks)[k], (fds[file].0, at + k - start_of(ends, file))),
{
    let len = joined_data(blocks).len() as int;
    lemma_spread_len(ends, fds, first, at, len);
    lemma_woven_writes(blocks, spread(ends, fds, first, at, len), k);
    lemma_spread_places(ends, fds, first, at, len, k, file);
}

} // verus!
