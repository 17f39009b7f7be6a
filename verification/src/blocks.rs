//! Blocks, in which a piece is asked for and received.

use vstd::prelude::*;
use vstd::relations::{sorted_by, total_ordering};
use vstd::seq_lib::{lemma_sorted_unique, to_multiset_build, to_multiset_insert};

use crate::bytes::{
    append_bytes, bytes_less, lemma_lex_less_irreflexive, lemma_lex_less_total,
    lemma_lex_less_transitive, lex_less,
};
use crate::outside::{sha1, sha1_digest};
use crate::torrent::{lemma_parts_in, part_len, parts_in, Piece};

verus! {

/// The length of a block; only the last one of a piece may be shorter.
pub const BLOCK_SIZE: u32 = 0x4000;

/// A block that is to be asked for.
#[derive(Debug, PartialEq, Eq)]
pub struct BlockReq {
    pub begin: u32,
    pub length: u32,
}

/// A block that was received.
#[derive(Debug, PartialEq, Eq, PartialOrd, Ord)]
pub struct BlockResp {
    pub begin: u32,
    pub data: Vec<u8>,
}

/// A received block itself.
pub struct Block {
    pub begin: u32,
    pub data: Seq<u8>,
}

impl View for BlockResp {
    type V = Block;

    open spec fn view(&self) -> Block {
        Block { begin: self.begin, data: self.data@ }
    }
}

/// The received blocks themselves.
pub open spec fn blocks_of(blocks: Seq<BlockResp>) -> Seq<Block> {
    Seq::new(blocks.len(), |i: int| blocks[i]@)
}

/// A piece that is being received: what has come of it, and what of it has not
/// been asked for yet. A block that is in neither list is on its way.
pub struct PieceInFlight {
    pub piece: Piece,
    pub ready_blks: Vec<BlockResp>,
    pub unasked_blks: Vec<BlockReq>,
}

/// A piece that is being received, itself.
pub struct Flight {
    pub piece: Piece,
    pub ready: Seq<Block>,
    pub unasked: Seq<BlockReq>,
}

impl View for PieceInFlight {
    type V = Flight;

    open spec fn view(&self) -> Flight {
        Flight {
            piece: self.piece,
            ready: blocks_of(self.ready_blks@),
            unasked: self.unasked_blks@,
        }
    }
}

/// The number of blocks of a piece.
pub open spec fn block_count(piece: Piece) -> int {
    parts_in(piece.piece_len as int, BLOCK_SIZE as int)
}

/// The `i`-th block of a piece of this length.
pub open spec fn nth_block(piece_len: u32, i: int) -> BlockReq {
    BlockReq {
        begin: (i * BLOCK_SIZE) as u32,
        length: part_len(piece_len as int, BLOCK_SIZE as int, i) as u32,
    }
}

/// The blocks of a piece of this length, from the `from`-th on and before the
/// `to`-th.
pub open spec fn block_range(piece_len: u32, from: int, to: int) -> Seq<BlockReq> {
    Seq::new((to - from) as nat, |i: int| nth_block(piece_len, from + i))
}

/// The `i`-th block of the piece.
pub(crate) fn block_at(piece: &Piece, i: u32) -> (r: BlockReq)
    requires
        i < block_count(*piece),
    ensures
        r == nth_block(piece.piece_len, i as int),
{
    proof {
        lemma_parts_in(piece.piece_len as int, BLOCK_SIZE as int);
        assert(i as int * BLOCK_SIZE < piece.piece_len);
    }
    let begin = i * BLOCK_SIZE;
    let left = piece.piece_len - begin;
    BlockReq {
        begin,
        length: if left < BLOCK_SIZE {
            left
        } else {
            BLOCK_SIZE
        },
    }
}

/// The blocks of the piece, from the `from`-th on.
pub(crate) fn blocks_from(piece: &Piece, from: u32) -> (r: Vec<BlockReq>)
    requires
        from <= block_count(*piece),
    ensures
        r@ == block_range(piece.piece_len, from as int, block_count(*piece)),
{
    let n = piece.n_blocks();
    let mut r: Vec<BlockReq> = Vec::new();
    let mut i: u32 = from;
    while i < n
        invariant
            from <= i <= n,
            n == block_count(*piece),
            r@ == block_range(piece.piece_len, from as int, i as int),
        decreases n - i,
    {
        r.push(block_at(piece, i));
        assert(r@ =~= block_range(piece.piece_len, from as int, i + 1));
        i += 1;
    }
    r
}

impl BlockReq {
    /// The number of the block in its piece.
    pub fn block_idx(&self) -> (r: u32)
        ensures
            r == self.begin / BLOCK_SIZE,
            r * 0x4000 <= self.begin < (r + 1) * 0x4000,
    {
        self.begin / BLOCK_SIZE
    }
}

impl BlockResp {
    /// The number of the block in its piece.
    pub fn block_idx(&self) -> (r: u32)
        ensures
            r == self.begin / BLOCK_SIZE,
            r * 0x4000 <= self.begin < (r + 1) * 0x4000,
    {
        self.begin / BLOCK_SIZE
    }
}

/// `i` is the place of the first block with this number.
pub open spec fn first_with_number(blocks: Seq<BlockReq>, number: u32, i: int) -> bool {
    &&& 0 <= i < blocks.len()
    &&& blocks[i].begin / BLOCK_SIZE == number
    &&& forall|j: int| 0 <= j < i ==> (#[trigger] blocks[j]).begin / BLOCK_SIZE != number
}

/// What is left when the element at `i` goes and the last one takes its place.
pub open spec fn swap_removed<T>(s: Seq<T>, i: int) -> Seq<T> {
    s.update(i, s.last()).drop_last()
}

impl PieceInFlight {
    /// A piece of which nothing has been asked for yet.
    pub fn new(piece: Piece) -> (r: Self)
        ensures
            r.piece == piece,
            r.ready_blks@.len() == 0,
            r.unasked_blks@ == block_range(piece.piece_len, 0, block_count(piece)),
    {
        proof {
            lemma_parts_in(piece.piece_len as int, BLOCK_SIZE as int);
        }
        let unasked_blks = blocks_from(&piece, 0);
        PieceInFlight { piece, ready_blks: Vec::new(), unasked_blks }
    }

    /// The block with this number is asked for now. From here on it is in
    /// neither list, until it comes.
    pub fn unasked_to_asked(&mut self, block_no: u32)
        requires
            exists|i: int| first_with_number(old(self).unasked_blks@, block_no, i),
        ensures
            final(self).piece == old(self).piece,
            final(self).ready_blks == old(self).ready_blks,
            exists|i: int| #[trigger]
                first_with_number(old(self).unasked_blks@, block_no, i)
                    && final(self).unasked_blks@ == swap_removed(old(self).unasked_blks@, i),
    {
        let ghost place = choose|i: int| first_with_number(self.unasked_blks@, block_no, i);
        let mut i: usize = 0;
        while self.unasked_blks[i].block_idx() != block_no
            invariant
                *self == *old(self),
                i <= place,
                first_with_number(self.unasked_blks@, block_no, place),
                forall|j: int|
                    0 <= j < i ==> (#[trigger] self.unasked_blks@[j]).begin / BLOCK_SIZE
                        != block_no,
            decreases place - i,
        {
            assert(self.unasked_blks.len() == self.unasked_blks@.len());
            i += 1;
        }
        self.unasked_blks.swap_remove(i);
        assert(self.unasked_blks@ =~= swap_removed(old(self).unasked_blks@, i as int));
        assert(first_with_number(old(self).unasked_blks@, block_no, i as int));
    }

    /// A block has come.
    pub fn pending_to_received(&mut self, resp: BlockResp)
        ensures
            final(self).piece == old(self).piece,
            final(self).ready_blks@ == old(self).ready_blks@.push(resp),
            final(self).unasked_blks == old(self).unasked_blks,
    {
        self.ready_blks.push(resp);
    }

    /// Whether as many blocks have come as the piece has.
    pub fn is_completely_downloaded(&self) -> (r: bool)
        ensures
            r == (block_count(self.piece) == self.ready_blks@.len()),
            r <==> self.piece.piece_len <= self.ready_blks@.len() * 0x4000 < self.piece.piece_len
                + 0x4000,
    {
        self.piece.n_blocks() as usize == self.ready_blks.len()
    }

    /// The SHA-1 digest of what has come, block after block.
    pub fn computed_hash(&self) -> (r: [u8; 20])
        requires
            joined_data(self@.ready).len() < 0x2000_0000_0000_0000,
        ensures
            r@ == sha1_digest(joined_data(self@.ready)),
    {
        sha1(join_data(&self.ready_blks).as_slice())
    }
}

/// One block comes strictly before another: it begins earlier, or it begins at
/// the same place and its data come first in the dictionary order.
pub open spec fn comes_before(a: Block, b: Block) -> bool {
    a.begin < b.begin || (a.begin == b.begin && lex_less(a.data, b.data))
}

/// The order of blocks.
pub open spec fn block_order() -> spec_fn(Block, Block) -> bool {
    |a: Block, b: Block| !comes_before(b, a)
}

/// The blocks in their order.
pub open spec fn in_order(blocks: Seq<Block>) -> Seq<Block> {
    blocks.sort_by(block_order())
}

/// The order of blocks is total.
pub proof fn lemma_block_order_is_total()
    ensures
        total_ordering(block_order()),
{
    let leq = block_order();
    assert forall|a: Block| #[trigger] leq(a, a) by {
        lemma_lex_less_irreflexive(a.data);
    }
    assert forall|a: Block, b: Block| #[trigger] leq(a, b) && #[trigger] leq(b, a) implies a
        == b by {
        lemma_lex_less_total(a.data, b.data);
    }
    assert forall|a: Block, b: Block, c: Block| #[trigger] leq(a, b) && #[trigger] leq(
        b,
        c,
    ) implies leq(a, c) by {
        if comes_before(c, a) {
            lemma_lex_less_total(a.data, b.data);
            lemma_lex_less_total(b.data, c.data);
            lemma_lex_less_irreflexive(a.data);
            if lex_less(a.data, b.data) && lex_less(b.data, c.data) {
                lemma_lex_less_transitive(a.data, b.data, c.data);
            }
            if lex_less(a.data, c.data) && lex_less(c.data, a.data) {
                lemma_lex_less_transitive(a.data, c.data, a.data);
            }
        }
    }
    assert forall|a: Block, b: Block| #[trigger] leq(a, b) || #[trigger] leq(b, a) by {
        if lex_less(a.data, b.data) && lex_less(b.data, a.data) {
            lemma_lex_less_transitive(a.data, b.data, a.data);
            lemma_lex_less_irreflexive(a.data);
        }
    }
}

/// Whether one block comes strictly before another.
fn block_before(a: &BlockResp, b: &BlockResp) -> (r: bool)
    ensures
        r == comes_before(a@, b@),
{
    a.begin < b.begin || (a.begin == b.begin && bytes_less(a.data.as_slice(), b.data.as_slice()))
}

/// Where a block goes among blocks that are in order.
fn place_in_order(sorted: &Vec<BlockResp>, block: &BlockResp) -> (r: usize)
    requires
        sorted_by(blocks_of(sorted@), block_order()),
    ensures
        r <= sorted@.len(),
        forall|j: int| 0 <= j < r ==> #[trigger] block_order()(blocks_of(sorted@)[j], block@),
        forall|j: int|
            r <= j < sorted@.len() ==> #[trigger] block_order()(block@, blocks_of(sorted@)[j]),
{
    let ghost leq = block_order();
    let ghost views = blocks_of(sorted@);
    let mut r: usize = 0;
    proof {
        lemma_block_order_is_total();
    }
    while r < sorted.len() && block_before(&sorted[r], block)
        invariant
            r <= sorted@.len(),
            leq == block_order(),
            views == blocks_of(sorted@),
            total_ordering(leq),
            forall|j: int| 0 <= j < r ==> #[trigger] leq(views[j], block@),
        decreases sorted@.len() - r,
    {
        proof {
            assert(comes_before(views[r as int], block@));
            assert(leq(views[r as int], block@) || leq(block@, views[r as int]));
        }
        r += 1;
    }
    assert forall|j: int| r <= j < sorted@.len() implies #[trigger] leq(block@, views[j]) by {
        assert(leq(block@, views[r as int]));
        if r < j {
            assert(leq(views[r as int], views[j]));
        }
    }
    r
}

/// Puts the blocks in their order.
pub fn sort_blocks(blocks: &mut Vec<BlockResp>)
    ensures
        blocks_of(final(blocks)@) == in_order(blocks_of(old(blocks)@)),
{
    let ghost all = blocks_of(blocks@);
    let ghost leq = block_order();
    let mut rest: Vec<BlockResp> = Vec::new();
    std::mem::swap(&mut rest, blocks);
    let mut sorted: Vec<BlockResp> = Vec::new();
    proof {
        broadcast use vstd::multiset::group_multiset_axioms;

        assert(blocks_of(sorted@) =~= Seq::empty());
        assert(Seq::<Block>::empty().to_multiset() =~= vstd::multiset::Multiset::empty()) by {
            vstd::seq_lib::to_multiset_len(Seq::<Block>::empty());
        }
        assert(blocks_of(sorted@).to_multiset().add(blocks_of(rest@).to_multiset())
            =~= all.to_multiset());
    }
    while rest.len() > 0
        invariant
            leq == block_order(),
            sorted_by(blocks_of(sorted@), leq),
            blocks_of(sorted@).to_multiset().add(blocks_of(rest@).to_multiset())
                == all.to_multiset(),
        decreases rest@.len(),
    {
        let ghost sorted_before = blocks_of(sorted@);
        let ghost rest_before = blocks_of(rest@);
        match rest.pop() {
            Some(block) => {
                let i = place_in_order(&sorted, &block);
                let ghost b = block@;
                sorted.insert(i, block);
                proof {
                    broadcast use vstd::multiset::group_multiset_axioms;

                    let now = blocks_of(sorted@);
                    assert(rest_before =~= blocks_of(rest@).push(b));
                    to_multiset_build(blocks_of(rest@), b);
                    assert(now =~= sorted_before.insert(i as int, b));
                    to_multiset_insert(sorted_before, i as int, b);
                    assert(now.to_multiset().add(blocks_of(rest@).to_multiset())
                        =~= sorted_before.to_multiset().add(rest_before.to_multiset()));
                    assert forall|x: int, y: int| 0 <= x < y < now.len() implies #[trigger] leq(
                        now[x],
                        now[y],
                    ) by {
                        let was = |z: int|
                            if z < i {
                                z
                            } else {
                                z - 1
                            };
                        if x != i {
                            assert(now[x] == sorted_before[was(x)]);
                        }
                        if y != i {
                            assert(now[y] == sorted_before[was(y)]);
                        }
                        if x == i {
                            assert(leq(b, sorted_before[was(y)]));
                        } else if y == i {
                            assert(leq(sorted_before[was(x)], b));
                        } else {
                            assert(leq(sorted_before[was(x)], sorted_before[was(y)]));
                        }
                    }
                }
            },
            None => {},
        }
    }
    proof {
        broadcast use vstd::multiset::group_multiset_axioms;

        lemma_block_order_is_total();
        assert(blocks_of(rest@) =~= Seq::empty());
        assert(Seq::<Block>::empty().to_multiset() =~= vstd::multiset::Multiset::empty()) by {
            vstd::seq_lib::to_multiset_len(Seq::<Block>::empty());
        }
        assert(blocks_of(sorted@).to_multiset() =~= all.to_multiset());
        all.lemma_sort_by_ensures(leq);
        lemma_sorted_unique(blocks_of(sorted@), in_order(all), leq);
    }
    std::mem::swap(blocks, &mut sorted);
}

/// The data of the blocks, one after the other.
pub open spec fn joined_data(blocks: Seq<Block>) -> Seq<u8>
    decreases blocks.len(),
{
    if blocks.len() == 0 {
        Seq::empty()
    } else {
        joined_data(blocks.drop_last()) + blocks.last().data
    }
}

/// The data of the blocks, one after the other.
pub fn join_data(blocks: &Vec<BlockResp>) -> (r: Vec<u8>)
    ensures
        r@ == joined_data(blocks_of(blocks@)),
{
    let ghost views = blocks_of(blocks@);
    let mut r: Vec<u8> = Vec::new();
    let mut i: usize = 0;
    while i < blocks.len()
        invariant
            i <= blocks@.len(),
            views == blocks_of(blocks@),
            r@ == joined_data(views.take(i as int)),
        decreases blocks@.len() - i,
    {
        append_bytes(&mut r, blocks[i].data.as_slice());
        assert(views.take(i + 1).drop_last() =~= views.take(i as int));
        assert(views.take(i + 1).last() == views[i as int]);
        i += 1;
    }
    assert(views.take(i as int) =~= views);
    r
}

/// The blocks of a piece cover it: the first begins at its beginning, each
/// begins where the one before ends, and the last ends at its end. None is
/// empty or longer than a block, and each has its number.
pub proof fn lemma_blocks_cover(piece_len: u32, i: int)
    requires
        0 <= i < parts_in(piece_len as int, BLOCK_SIZE as int),
    ensures
        nth_block(piece_len, 0).begin == 0,
        nth_block(piece_len, i).begin / BLOCK_SIZE == i,
        0 < nth_block(piece_len, i).length <= BLOCK_SIZE,
        nth_block(piece_len, i).begin + nth_block(piece_len, i).length == (if i + 1 < parts_in(
            piece_len as int,
            BLOCK_SIZE as int,
        ) {
            nth_block(piece_len, i + 1).begin
        } else {
            piece_len
        }),
{
    lemma_parts_in(piece_len as int, BLOCK_SIZE as int);
    assert(i * BLOCK_SIZE < piece_len);
    if i + 1 < parts_in(piece_len as int, BLOCK_SIZE as int) {
        assert((i + 1) * BLOCK_SIZE < piece_len);
    }
}

/// A block that has been asked for is no longer among those that have not, and
/// all others still are, provided that no two of them have the same number.
pub proof fn lemma_asked_is_gone(blocks: Seq<BlockReq>, number: u32, i: int)
    requires
        first_with_number(blocks, number, i),
        forall|j: int, k: int|
            0 <= j < k < blocks.len() ==> (#[trigger] blocks[j]).begin / BLOCK_SIZE != (
            #[trigger] blocks[k]).begin / BLOCK_SIZE,
    ensures
        forall|j: int|
            0 <= j < swap_removed(blocks, i).len() ==> (#[trigger] swap_removed(
                blocks,
                i,
            )[j]).begin / BLOCK_SIZE != number,
        forall|k: int|
            0 <= k < blocks.len() && k != i ==> swap_removed(blocks, i).contains(
                #[trigger] blocks[k],
            ),
{
    let left = swap_removed(blocks, i);
    let last = blocks.len() - 1;
    assert forall|j: int| 0 <= j < left.len() implies (#[trigger] left[j]).begin / BLOCK_SIZE
        != number by {
        if j == i {
            assert(left[j] == blocks[last]);
            assert(blocks[i].begin / BLOCK_SIZE != blocks[last].begin / BLOCK_SIZE);
        } else {
            assert(left[j] == blocks[j]);
            if j > i {
                assert(blocks[i].begin / BLOCK_SIZE != blocks[j].begin / BLOCK_SIZE);
            }
        }
    }
    assert forall|k: int| 0 <= k < blocks.len() && k != i implies left.contains(
        #[trigger] blocks[k],
    ) by {
        if k == last {
            assert(left[i] == blocks[k]);
        } else {
            assert(left[k] == blocks[k]);
        }
    }
}

/// The data of a piece, cut into its blocks.
pub open spec fn cut(data: Seq<u8>) -> Seq<Block> {
    Seq::new(
        parts_in(data.len() as int, BLOCK_SIZE as int) as nat,
        |i: int| nth_cut(data, i),
    )
}

/// The `i`-th block of the data of a piece.
pub open spec fn nth_cut(data: Seq<u8>, i: int) -> Block {
    let begin = i * BLOCK_SIZE;
    Block {
        begin: begin as u32,
        data: data.subrange(
            begin,
            begin + part_len(data.len() as int, BLOCK_SIZE as int, i),
        ),
    }
}

proof fn lemma_cut_joined(data: Seq<u8>, n: int)
    requires
        0 <= n <= parts_in(data.len() as int, BLOCK_SIZE as int),
    ensures
        joined_data(cut(data).take(n)) == data.take(
            if n < parts_in(data.len() as int, BLOCK_SIZE as int) {
                n * BLOCK_SIZE
            } else {
                data.len() as int
            },
        ),
    decreases n,
{
    let blocks = cut(data);
    let total = parts_in(data.len() as int, BLOCK_SIZE as int);
    lemma_parts_in(data.len() as int, BLOCK_SIZE as int);
    if n == 0 {
        assert(blocks.take(0) =~= Seq::empty());
        assert(data.take(0) =~= Seq::empty());
    } else {
        lemma_cut_joined(data, n - 1);
        assert((n - 1) * BLOCK_SIZE < data.len());
        if n < total {
            assert(n * BLOCK_SIZE < data.len());
        }
        assert(blocks.take(n).drop_last() =~= blocks.take(n - 1));
        assert(blocks.take(n).last() == nth_cut(data, n - 1));
        let upto = if n < total {
            n * BLOCK_SIZE
        } else {
            data.len() as int
        };
        assert(data.take((n - 1) * BLOCK_SIZE) + nth_cut(data, n - 1).data =~= data.take(upto));
    }
}

/// In whatever order the blocks of a piece come, it is put together right.
pub proof fn lemma_put_together(data: Seq<u8>, ready: Seq<Block>)
    requires
        data.len() <= u32::MAX,
        ready.to_multiset() == cut(data).to_multiset(),
    ensures
        in_order(ready) == cut(data),
        joined_data(in_order(ready)) == data,
{
    let blocks = cut(data);
    let leq = block_order();
    lemma_block_order_is_total();
    lemma_parts_in(data.len() as int, BLOCK_SIZE as int);
    assert forall|i: int, j: int| 0 <= i < j < blocks.len() implies #[trigger] leq(
        blocks[i],
        blocks[j],
    ) by {
        assert(j * BLOCK_SIZE < data.len());
    }
    ready.lemma_sort_by_ensures(leq);
    lemma_sorted_unique(in_order(ready), blocks, leq);
    lemma_cut_joined(data, blocks.len() as int);
    assert(blocks.take(blocks.len() as int) =~= blocks);
    assert(data.take(data.len() as int) =~= data);
}

} // verus!
