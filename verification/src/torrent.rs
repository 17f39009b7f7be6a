//! A torrent and where its pieces lie in the files on disk.

use libc::c_int;
use std::path::PathBuf;
use vstd::prelude::*;
use vstd::slice::slice_subrange;

use crate::blocks::BLOCK_SIZE;
use crate::outside::{ascending, binary_search};

verus! {

/// A torrent. Its files, one after the other, make up one virtual file, which
/// is cut into pieces.
pub struct Torrent {
    pub info_hash: Vec<u8>,
    pub file_name: String,
    pub vfile_length: u64,
    pub piece_length: u32,
    pub piece_hashes: Vec<u8>,
    pub vfile2name: Vec<PathBuf>,
    pub rootdir: PathBuf,
    pub downloaded_piece_set: Vec<bool>,
}

/// A piece, and the coordinates in the file system at which it is stored.
pub struct Piece {
    pub piece_idx: u32,
    pub piece_len: u32,
    pub piece_hash: [u8; 20],
    pub backing_stores: Vec<BackingStore>,
}

/// The end of each file in the virtual file.
pub struct VFile2VOffset(pub Vec<usize>);

/// The open file that stands behind each file of the torrent.
pub struct VFile2FD(pub Vec<(c_int, u32)>);

/// A stretch of an open file.
#[derive(Debug)]
pub struct BackingStore {
    pub fd: c_int,
    pub offset: usize,
    pub len: usize,
}

/// How many parts of length `part` it takes to hold `whole`.
pub open spec fn parts_in(whole: int, part: int) -> int {
    whole / part + (if whole % part > 0 {
        1int
    } else {
        0
    })
}

/// The length of the `i`-th part when `whole` is cut into parts of length
/// `part`: all parts are that long, but for what is left to the last one.
pub open spec fn part_len(whole: int, part: int, i: int) -> int {
    if whole - i * part < part {
        whole - i * part
    } else {
        part
    }
}

/// The length of the first `n` parts together.
pub open spec fn parts_len(whole: int, part: int, n: int) -> int
    decreases n,
{
    if n <= 0 {
        0
    } else {
        parts_len(whole, part, n - 1) + part_len(whole, part, n - 1)
    }
}

/// The number of parts is the one that just suffices.
pub proof fn lemma_parts_in(whole: int, part: int)
    requires
        0 <= whole,
        0 < part,
    ensures
        0 <= parts_in(whole, part) <= whole,
        whole <= parts_in(whole, part) * part < whole + part,
        forall|i: int|
            0 <= i < parts_in(whole, part) ==> #[trigger] (i * part) < whole && 0 < part_len(
                whole,
                part,
                i,
            ) <= part,
{
    let q = whole / part;
    let r = whole % part;
    let n = parts_in(whole, part);
    assert(whole == q * part + r && 0 <= r < part && 0 <= q) by (nonlinear_arith)
        requires
            0 <= whole,
            0 < part,
            q == whole / part,
            r == whole % part,
    ;
    assert(q <= q * part) by (nonlinear_arith)
        requires
            0 <= q,
            0 < part,
    ;
    assert((q + 1) * part == q * part + part) by (nonlinear_arith);
    assert forall|i: int| 0 <= i < n implies #[trigger] (i * part) < whole && 0 < part_len(
        whole,
        part,
        i,
    ) <= part by {
        if i < q {
            assert((i + 1) * part <= q * part) by (nonlinear_arith)
                requires
                    i + 1 <= q,
                    0 < part,
            ;
            assert((i + 1) * part == i * part + part) by (nonlinear_arith);
        }
    }
}

/// The parts together are the whole, and each begins where those before it end.
pub proof fn lemma_parts_cover(whole: int, part: int)
    requires
        0 <= whole,
        0 < part,
    ensures
        parts_len(whole, part, parts_in(whole, part)) == whole,
        forall|i: int|
            0 <= i < parts_in(whole, part) ==> #[trigger] parts_len(whole, part, i) == i * part,
{
    let n = parts_in(whole, part);
    lemma_parts_in(whole, part);
    assert forall|i: int| 0 <= i < n implies #[trigger] parts_len(whole, part, i) == i * part by {
        lemma_parts_before(whole, part, i);
    }
    if n > 0 {
        lemma_parts_before(whole, part, n - 1);
        assert((n - 1) * part + part == n * part) by (nonlinear_arith);
        assert((n - 1) * part < whole);
    } else {
        assert(0 * part == 0) by (nonlinear_arith);
    }
}

proof fn lemma_parts_before(whole: int, part: int, i: int)
    requires
        0 <= whole,
        0 < part,
        0 <= i < parts_in(whole, part),
    ensures
        parts_len(whole, part, i) == i * part,
    decreases i,
{
    if i > 0 {
        lemma_parts_before(whole, part, i - 1);
        lemma_parts_in(whole, part);
        assert((i - 1) * part + part == i * part) by (nonlinear_arith);
        assert(i * part < whole);
    } else {
        assert(0 * part == 0) by (nonlinear_arith);
    }
}

impl Torrent {
    /// The published hash of the `n`-th piece.
    pub fn nth_hash(&self, n: usize) -> (r: &[u8])
        requires
            n * 20 + 20 <= self.piece_hashes@.len(),
        ensures
            r@ == self.piece_hashes@.subrange(n * 20, n * 20 + 20),
    {
        assert(self.piece_hashes.len() == self.piece_hashes@.len());
        slice_subrange(self.piece_hashes.as_slice(), n * 20, n * 20 + 20)
    }

    /// The number of pieces, as far as a `usize` can hold it.
    pub fn n_pieces(&self) -> (r: usize)
        requires
            self.piece_length > 0,
        ensures
            r == parts_in(self.vfile_length as int, self.piece_length as int) as usize,
    {
        proof {
            lemma_parts_in(self.vfile_length as int, self.piece_length as int);
        }
        let rest: u64 = if self.vfile_length % self.piece_length as u64 > 0 {
            1
        } else {
            0
        };
        (self.vfile_length / self.piece_length as u64 + rest) as usize
    }

    /// The number of files.
    pub fn n_files(&self) -> (r: usize)
        ensures
            r == self.vfile2name@.len(),
    {
        self.vfile2name.len()
    }

    /// All the pieces, in order, of a torrent that is stored in one open file.
    pub fn pieces(&self, fd: c_int) -> (r: Vec<Piece>)
        requires
            self.piece_length > 0,
            self.vfile_length <= usize::MAX,
            parts_in(self.vfile_length as int, self.piece_length as int) <= 0x1_0000_0000,
            parts_in(self.vfile_length as int, self.piece_length as int) * 20
                <= self.piece_hashes@.len(),
        ensures
            r@.len() == parts_in(self.vfile_length as int, self.piece_length as int),
            forall|i: int| 0 <= i < r@.len() ==> is_nth_piece(*self, fd, i, #[trigger] r@[i]),
    {
        let ghost whole = self.vfile_length as int;
        let ghost part = self.piece_length as int;
        proof {
            lemma_parts_in(whole, part);
            assert(self.piece_hashes.len() == self.piece_hashes@.len());
        }
        let n = self.n_pieces();
        let mut pieces: Vec<Piece> = Vec::new();
        let mut i: usize = 0;
        while i < n
            invariant
                i <= n,
                whole == self.vfile_length,
                part == self.piece_length,
                part > 0,
                whole <= usize::MAX,
                n == parts_in(whole, part),
                n <= 0x1_0000_0000,
                n * 20 <= self.piece_hashes@.len(),
                pieces@.len() == i,
                forall|j: int|
                    0 <= j < i ==> is_nth_piece(*self, fd, j, #[trigger] pieces@[j]),
            decreases n - i,
        {
            proof {
                lemma_parts_in(whole, part);
                assert((i as int) * part < whole);
            }
            let offset: u64 = i as u64 * self.piece_length as u64;
            let left: u64 = self.vfile_length - offset;
            let piece_len: u32 = if left < self.piece_length as u64 {
                left as u32
            } else {
                self.piece_length
            };
            let piece_hash = hash_array(self.nth_hash(i));
            let store = BackingStore { fd, offset: offset as usize, len: piece_len as usize };
            let mut backing_stores: Vec<BackingStore> = Vec::new();
            backing_stores.push(store);
            assert(backing_stores@ =~= seq![store]);
            pieces.push(Piece { piece_idx: i as u32, piece_len, piece_hash, backing_stores });
            i += 1;
        }
        pieces
    }

    /// A certain torrent of one file. Who calls says what the hashes of its
    /// pieces are, and where its file is kept.
    pub fn new_dr_paul(piece_hashes: Vec<u8>, vfile2name: Vec<PathBuf>, rootdir: PathBuf) -> (r:
        Self)
        ensures
            r.info_hash@ == dr_paul_info_hash(),
            r.info_hash@ == seq![
                0xeau8, 0xd1, 0x71, 0x54, 0x9d, 0x26, 0x12, 0x2f, 0xe2, 0x2a, 0x7e, 0xce, 0x4a,
                0xb9, 0xd8, 0x3a, 0x28, 0xe9, 0x67, 0x9f,
            ],
            r.file_name@ == "It's happening"@,
            r.vfile_length == 6490669,
            r.piece_length == 32768,
            r.piece_hashes == piece_hashes,
            r.vfile2name == vfile2name,
            r.rootdir == rootdir,
            r.downloaded_piece_set@ == Seq::new(199, |i: int| false),
    {
        let info_hash: Vec<u8> = vec![
            0xea, 0xd1, 0x71, 0x54, 0x9d, 0x26, 0x12, 0x2f, 0xe2, 0x2a, 0x7e, 0xce, 0x4a, 0xb9,
            0xd8, 0x3a, 0x28, 0xe9, 0x67, 0x9f,
        ];
        let vfile_length: u64 = 6490669;
        let piece_length: u32 = 32768;
        assert(vfile_length / piece_length as u64 == 198 && vfile_length % piece_length as u64
            == 2605) by (nonlinear_arith)
            requires
                vfile_length == 6490669,
                piece_length == 32768,
        ;
        let mut n: u64 = vfile_length / piece_length as u64;
        if vfile_length % piece_length as u64 != 0 {
            n += 1;
        }
        let downloaded_piece_set = vec![false; n as usize];
        assert forall|i: int| 0 <= i < 199 implies !downloaded_piece_set@[i] by {
            assert(cloned(false, downloaded_piece_set@[i]));
        }
        assert(downloaded_piece_set@ =~= Seq::new(199, |i: int| false));
        assert(info_hash@ =~= dr_paul_info_hash());
        Torrent {
            info_hash,
            file_name: "It's happening".to_owned(),
            vfile_length,
            piece_length,
            piece_hashes,
            vfile2name,
            rootdir,
            downloaded_piece_set,
        }
    }
}

/// The hash by which the torrent of `Torrent::new_dr_paul` is known.
pub open spec fn dr_paul_info_hash() -> Seq<u8> {
    seq![
        0xeau8, 0xd1, 0x71, 0x54, 0x9d, 0x26, 0x12, 0x2f, 0xe2, 0x2a, 0x7e, 0xce, 0x4a, 0xb9, 0xd8,
        0x3a, 0x28, 0xe9, 0x67, 0x9f,
    ]
}

/// `piece` is the `i`-th piece of a torrent that is stored in one open file.
pub open spec fn is_nth_piece(torrent: Torrent, fd: c_int, i: int, piece: Piece) -> bool {
    let whole = torrent.vfile_length as int;
    let part = torrent.piece_length as int;
    &&& piece.piece_idx == i
    &&& piece.piece_len == part_len(whole, part, i)
    &&& piece.piece_hash@ == torrent.piece_hashes@.subrange(i * 20, i * 20 + 20)
    &&& piece.backing_stores@ == seq![
        BackingStore {
            fd,
            offset: (i * part) as usize,
            len: part_len(whole, part, i) as usize,
        },
    ]
}

/// The twenty bytes of a hash as an array.
fn hash_array(hash: &[u8]) -> (r: [u8; 20])
    requires
        hash@.len() == 20,
    ensures
        r@ == hash@,
{
    let mut r = [0u8; 20];
    let mut i: usize = 0;
    while i < 20
        invariant
            i <= 20,
            hash@.len() == 20,
            forall|j: int| 0 <= j < i ==> r@[j] == hash@[j],
        decreases 20 - i,
    {
        r[i] = hash[i];
        i += 1;
    }
    assert(r@ =~= hash@);
    r
}

/// Where a file begins in the virtual file, when `ends` says where each ends.
pub open spec fn start_of(ends: Seq<usize>, i: int) -> int {
    if i == 0 {
        0
    } else {
        ends[i - 1] as int
    }
}

/// A search for an offset may come out at file `i`: where a file ends at the
/// offset, any such file; else the first one that ends after it.
pub open spec fn found(ends: Seq<usize>, offset: int, i: int) -> bool {
    &&& 0 <= i <= ends.len()
    &&& (exists|j: int| 0 <= j < ends.len() && ends[j] == offset) ==> i < ends.len() && ends[i]
        == offset
    &&& forall|j: int| 0 <= j < i ==> ends[j] <= offset
    &&& forall|j: int| i <= j < ends.len() ==> offset <= ends[j]
}

impl VFile2VOffset {
    /// The file at which a search for the offset comes out.
    pub fn find_vfile_by_voffset(&self, offset_at_which_the_file_begins: usize) -> (r: usize)
        requires
            ascending(self.0@),
        ensures
            found(self.0@, offset_at_which_the_file_begins as int, r as int),
    {
        match binary_search(&self.0, offset_at_which_the_file_begins) {
            Ok(i) => i,
            Err(i) => i,
        }
    }

    /// Where a file begins.
    pub fn get_start_voffset_of_vfile(&self, vfile_idx: usize) -> (r: usize)
        requires
            vfile_idx <= self.0@.len(),
        ensures
            r == start_of(self.0@, vfile_idx as int),
    {
        if vfile_idx == 0 {
            return 0;
        }
        self.0[vfile_idx - 1]
    }

    /// Where a file ends.
    pub fn get_end_voffset_of_vfile(&self, vfile_idx: usize) -> (r: usize)
        requires
            vfile_idx < self.0@.len(),
        ensures
            r == self.0@[vfile_idx as int],
    {
        self.0[vfile_idx]
    }
}

/// How much of a stretch of length `len` that begins at `at` lies in file `i`.
/// Of the room that the file has, only the low 32 bits are taken.
pub open spec fn share_of(ends: Seq<usize>, i: int, at: int, len: int) -> int {
    let room = (ends[i] - at) as u32;
    if len < room {
        len
    } else {
        room as int
    }
}

/// The stretch of length `len` that begins at `at`, in file `i`, can be laid
/// out: there are files for all of it.
pub open spec fn placeable(
    ends: Seq<usize>,
    fds: Seq<(c_int, u32)>,
    i: int,
    at: int,
    len: int,
) -> bool
    decreases ends.len() - i,
{
    let left = len - share_of(ends, i, at, len);
    &&& 0 <= i < ends.len()
    &&& i < fds.len()
    &&& left > 0 ==> placeable(ends, fds, i + 1, ends[i] as int, left)
}

/// The stores of the stretch of length `len` that begins at `at`, in file `i`:
/// what this file holds of it, and where something is left the files after it.
pub open spec fn spread(
    ends: Seq<usize>,
    fds: Seq<(c_int, u32)>,
    i: int,
    at: int,
    len: int,
) -> Seq<BackingStore>
    decreases ends.len() - i,
{
    if 0 <= i < ends.len() {
        let share = share_of(ends, i, at, len);
        let store = BackingStore {
            fd: fds[i].0,
            offset: (at - start_of(ends, i)) as usize,
            len: share as usize,
        };
        seq![store] + (if len - share > 0 {
            spread(ends, fds, i + 1, ends[i] as int, len - share)
        } else {
            Seq::empty()
        })
    } else {
        Seq::empty()
    }
}

impl Piece {
    /// The number of blocks.
    pub fn n_blocks(&self) -> (r: u32)
        ensures
            r == parts_in(self.piece_len as int, BLOCK_SIZE as int),
            r <= 0x4_0000,
            self.piece_len <= r * 0x4000 < self.piece_len + 0x4000,
    {
        let rest: u32 = if self.piece_len % BLOCK_SIZE > 0 {
            1
        } else {
            0
        };
        self.piece_len / BLOCK_SIZE + rest
    }

    /// The stretches of files that hold the piece, in order. Wherever the search
    /// for its first file comes out, there have to be files for all of it.
    pub fn get_backingstores(
        &self,
        torrent_piece_len: u32,
        vfile2voffset: &VFile2VOffset,
        vfile2fd: &VFile2FD,
    ) -> (r: Vec<BackingStore>)
        requires
            self.piece_idx * torrent_piece_len <= usize::MAX,
            ascending(vfile2voffset.0@),
            forall|first: int| #[trigger]
                found(vfile2voffset.0@, self.piece_idx * torrent_piece_len, first) ==> placeable(
                    vfile2voffset.0@,
                    vfile2fd.0@,
                    first,
                    self.piece_idx * torrent_piece_len,
                    self.piece_len as int,
                ),
        ensures
            exists|first: int| #[trigger]
                found(vfile2voffset.0@, self.piece_idx * torrent_piece_len, first) && r@ == spread(
                    vfile2voffset.0@,
                    vfile2fd.0@,
                    first,
                    self.piece_idx * torrent_piece_len,
                    self.piece_len as int,
                ),
    {
        let ghost ends = vfile2voffset.0@;
        let ghost fds = vfile2fd.0@;
        let mut retval: Vec<BackingStore> = Vec::new();
        let mut len: u32 = self.piece_len;
        let voffset: usize = self.piece_idx as usize * torrent_piece_len as usize;
        let first = vfile2voffset.find_vfile_by_voffset(voffset);
        let ghost all = spread(ends, fds, first as int, voffset as int, len as int);
        proof {
            if first > 0 {
                assert(ends[first - 1] <= voffset);
            }
            assert(vfile2voffset.0.len() == ends.len());
        }
        let first_fdoffset = voffset - vfile2voffset.get_start_voffset_of_vfile(first);
        let first_room: u32 = (vfile2voffset.get_end_voffset_of_vfile(first) - voffset) as u32;
        let first_len: u32 = if len < first_room {
            len
        } else {
            first_room
        };
        retval.push(
            BackingStore {
                fd: vfile2fd.0[first].0,
                offset: first_fdoffset,
                len: first_len as usize,
            },
        );
        len -= first_len;
        let mut next: usize = first + 1;
        assert(len > 0 ==> all =~= retval@ + spread(
            ends,
            fds,
            next as int,
            start_of(ends, next as int),
            len as int,
        ));
        assert(len == 0 ==> all =~= retval@);
        while len > 0
            invariant
                ends == vfile2voffset.0@,
                fds == vfile2fd.0@,
                ascending(ends),
                next > 0,
                len > 0 ==> placeable(
                    ends,
                    fds,
                    next as int,
                    start_of(ends, next as int),
                    len as int,
                ),
                len > 0 ==> all == retval@ + spread(
                    ends,
                    fds,
                    next as int,
                    start_of(ends, next as int),
                    len as int,
                ),
                len == 0 ==> all == retval@,
            decreases ends.len() - next,
        {
            let begin = vfile2voffset.get_start_voffset_of_vfile(next);
            let end = vfile2voffset.get_end_voffset_of_vfile(next);
            let room: u32 = (end - begin) as u32;
            let next_len: u32 = if len < room {
                len
            } else {
                room
            };
            assert(vfile2voffset.0.len() == ends.len());
            retval.push(
                BackingStore { fd: vfile2fd.0[next].0, offset: 0, len: next_len as usize },
            );
            len -= next_len;
            next += 1;
            assert(len > 0 ==> all =~= retval@ + spread(
                ends,
                fds,
                next as int,
                start_of(ends, next as int),
                len as int,
            ));
            assert(len == 0 ==> all =~= retval@);
        }
        retval
    }
}

/// The length of the stores together.
pub open spec fn stores_len(stores: Seq<BackingStore>) -> int
    decreases stores.len(),
{
    if stores.len() == 0 {
        0
    } else {
        stores[0].len + stores_len(stores.skip(1))
    }
}

/// The open file and the offset in it at which the stores hold byte `k`.
pub open spec fn place_of(stores: Seq<BackingStore>, k: int) -> (c_int, int)
    decreases stores.len(),
{
    if stores.len() == 0 {
        arbitrary()
    } else if k < stores[0].len {
        (stores[0].fd, stores[0].offset + k)
    } else {
        place_of(stores.skip(1), k - stores[0].len)
    }
}

/// No file is longer than 32 bits can say.
pub open spec fn short_files(ends: Seq<usize>) -> bool {
    forall|i: int| 0 <= i < ends.len() ==> ends[i] - #[trigger] start_of(ends, i) <= u32::MAX
}

/// The stores of a stretch have the length of the stretch.
pub proof fn lemma_spread_len(
    ends: Seq<usize>,
    fds: Seq<(c_int, u32)>,
    i: int,
    at: int,
    len: int,
)
    requires
        0 <= len <= u32::MAX,
        placeable(ends, fds, i, at, len),
    ensures
        stores_len(spread(ends, fds, i, at, len)) == len,
    decreases ends.len() - i,
{
    let share = share_of(ends, i, at, len);
    let stores = spread(ends, fds, i, at, len);
    assert(stores[0].len == share);
    if len - share > 0 {
        lemma_spread_len(ends, fds, i + 1, ends[i] as int, len - share);
        assert(stores.skip(1) =~= spread(ends, fds, i + 1, ends[i] as int, len - share));
    } else {
        assert(stores.skip(1) =~= Seq::empty());
        assert(stores_len(stores.skip(1)) == 0);
    }
}

/// A stretch that lies within the files can be laid out, wherever the search
/// for its first file comes out.
pub proof fn lemma_within_is_placeable(
    ends: Seq<usize>,
    fds: Seq<(c_int, u32)>,
    first: int,
    at: int,
    len: int,
)
    requires
        ascending(ends),
        short_files(ends),
        ends.len() <= fds.len(),
        ends.len() > 0,
        0 <= at,
        0 <= len,
        at + len <= ends.last(),
        found(ends, at, first),
    ensures
        placeable(ends, fds, first, at, len),
{
    if first == ends.len() {
        assert(ends[ends.len() - 1] <= at);
        assert(ends[ends.len() - 1] == at);
    } else {
        if first > 0 {
            assert(ends[first - 1] <= at);
        }
        lemma_placeable_from(ends, fds, first, at, len);
    }
}

proof fn lemma_placeable_from(
    ends: Seq<usize>,
    fds: Seq<(c_int, u32)>,
    i: int,
    at: int,
    len: int,
)
    requires
        ascending(ends),
        short_files(ends),
        ends.len() <= fds.len(),
        0 <= i < ends.len(),
        start_of(ends, i) <= at <= ends[i],
        0 <= len,
        at + len <= ends.last(),
    ensures
        placeable(ends, fds, i, at, len),
    decreases ends.len() - i,
{
    let share = share_of(ends, i, at, len);
    assert(ends[i] - start_of(ends, i) <= u32::MAX);
    if len - share > 0 {
        assert(i + 1 < ends.len());
        assert(ends[i] <= ends[i + 1]);
        lemma_placeable_from(ends, fds, i + 1, ends[i] as int, len - share);
    }
}

/// Each byte of a stretch that lies within the files is stored where it
/// belongs: in the file that its position falls in, at its distance from the
/// beginning of that file.
pub proof fn lemma_spread_places(
    ends: Seq<usize>,
    fds: Seq<(c_int, u32)>,
    first: int,
    at: int,
    len: int,
    k: int,
    file: int,
)
    requires
        ascending(ends),
        short_files(ends),
        0 <= at,
        0 <= k < len,
        found(ends, at, first),
        0 <= file < ends.len(),
        start_of(ends, file) <= at + k < ends[file],
    ensures
        place_of(spread(ends, fds, first, at, len), k) == (
            fds[file].0,
            at + k - start_of(ends, file),
        ),
{
    if first == ends.len() {
        assert(ends[file] <= at);
    } else {
        if first > 0 {
            assert(ends[first - 1] <= at);
        }
        lemma_spread_places_from(ends, fds, first, at, len, k, file);
    }
}

proof fn lemma_spread_places_from(
    ends: Seq<usize>,
    fds: Seq<(c_int, u32)>,
    i: int,
    at: int,
    len: int,
    k: int,
    file: int,
)
    requires
        ascending(ends),
        short_files(ends),
        0 <= i < ends.len(),
        start_of(ends, i) <= at <= ends[i],
        0 <= k < len,
        0 <= file < ends.len(),
        start_of(ends, file) <= at + k < ends[file],
    ensures
        place_of(spread(ends, fds, i, at, len), k) == (
            fds[file].0,
            at + k - start_of(ends, file),
        ),
    decreases ends.len() - i,
{
    let share = share_of(ends, i, at, len);
    let stores = spread(ends, fds, i, at, len);
    assert(ends[i] - start_of(ends, i) <= u32::MAX);
    assert(stores[0].fd == fds[i].0);
    assert(stores[0].offset == at - start_of(ends, i));
    assert(stores[0].len == share);
    if k < share {
        assert(file == i) by {
            if file < i {
                assert(ends[file] <= ends[i - 1]);
            } else if file > i {
                assert(ends[i] <= ends[file - 1]);
            }
        }
    } else {
        let rest = spread(ends, fds, i + 1, ends[i] as int, len - share);
        assert(share == ends[i] - at);
        assert(file > i) by {
            if file <= i {
                assert(ends[file] <= ends[i]);
            }
        }
        assert(ends[i] <= ends[i + 1]);
        lemma_spread_places_from(ends, fds, i + 1, ends[i] as int, len - share, k - share, file);
        assert(stores.skip(1) =~= rest);
        assert(place_of(stores, k) == place_of(rest, k - share));
    }
}

} // verus!
