//! What the library believes of functions that it does not prove: the outside
//! crates' and those of the standard library that have no specification yet.

use vstd::prelude::*;

verus! {

/// The parts one after the other, with `sep` between any two neighbours.
pub open spec fn joined(parts: Seq<Seq<char>>, sep: Seq<char>) -> Seq<char>
    decreases parts.len(),
{
    if parts.len() == 0 {
        Seq::empty()
    } else if parts.len() == 1 {
        parts[0]
    } else {
        parts[0] + sep + joined(parts.skip(1), sep)
    }
}

/// The texts of the strings.
pub open spec fn texts(parts: Seq<String>) -> Seq<Seq<char>> {
    Seq::new(parts.len(), |i: int| parts[i]@)
}

/// `itertools::join` on strings: it puts them one after the other, and `sep`
/// between any two neighbours.
#[verifier::external_body]
pub(crate) fn join(parts: &Vec<String>, sep: &str) -> (r: String)
    ensures
        r@ == joined(texts(parts@), sep@),
{
    itertools::join(parts, sep)
}

/// `String::push`: it appends one character.
pub assume_specification[ String::push ](s: &mut String, c: char)
    ensures
        final(s)@ == old(s)@.push(c),
;

/// `std::path::PathBuf`: a path, which is carried along and never looked into.
#[verifier::external_type_specification]
#[verifier::external_body]
pub struct ExPathBuf(std::path::PathBuf);

/// The numbers are in ascending order; a number may stand there repeatedly.
pub open spec fn ascending(s: Seq<usize>) -> bool {
    forall|i: int, j: int| 0 <= i <= j < s.len() ==> s[i] <= s[j]
}

/// `slice::binary_search` on numbers: in a slice in ascending order it finds
/// the number, wherever it stands repeatedly at any one of these places, or
/// else the place at which it could be put without breaking the order.
#[verifier::external_body]
pub(crate) fn binary_search(s: &Vec<usize>, x: usize) -> (r: Result<usize, usize>)
    requires
        ascending(s@),
    ensures
        match r {
            Ok(i) => i < s@.len() && s@[i as int] == x,
            Err(i) => {
                &&& i <= s@.len()
                &&& forall|j: int| 0 <= j < i ==> s@[j] < x
                &&& forall|j: int| i <= j < s@.len() ==> x < s@[j]
            },
        },
{
    s.binary_search(&x)
}

/// The SHA-1 digest of the data.
pub uninterp spec fn sha1_digest(data: Seq<u8>) -> Seq<u8>;

/// `sha1_smol::Sha1`, fed with the data and asked for its digest: the result is
/// a function of the data alone. The count of bits that goes into the digest
/// has to fit into 64 bits.
#[verifier::external_body]
pub(crate) fn sha1(data: &[u8]) -> (r: [u8; 20])
    requires
        data@.len() < 0x2000_0000_0000_0000,
    ensures
        r@ == sha1_digest(data@),
{
    sha1_smol::Sha1::from(data).digest().bytes()
}

} // verus!
