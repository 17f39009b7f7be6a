//! Byte strings: their dictionary order, equality and search.

use vstd::prelude::*;

verus! {

/// `a` comes strictly before `b` in the dictionary order of byte strings.
pub open spec fn lex_less(a: Seq<u8>, b: Seq<u8>) -> bool
    decreases a.len(),
{
    if b.len() == 0 {
        false
    } else if a.len() == 0 {
        true
    } else if a[0] != b[0] {
        a[0] < b[0]
    } else {
        lex_less(a.skip(1), b.skip(1))
    }
}

/// No byte string comes before itself.
pub proof fn lemma_lex_less_irreflexive(a: Seq<u8>)
    ensures
        !lex_less(a, a),
    decreases a.len(),
{
    if a.len() > 0 {
        lemma_lex_less_irreflexive(a.skip(1));
    }
}

/// The dictionary order is transitive.
pub proof fn lemma_lex_less_transitive(a: Seq<u8>, b: Seq<u8>, c: Seq<u8>)
    requires
        lex_less(a, b),
        lex_less(b, c),
    ensures
        lex_less(a, c),
    decreases a.len(),
{
    if a.len() > 0 && a[0] == b[0] && b[0] == c[0] {
        lemma_lex_less_transitive(a.skip(1), b.skip(1), c.skip(1));
    }
}

/// Of two different byte strings one comes before the other.
pub proof fn lemma_lex_less_total(a: Seq<u8>, b: Seq<u8>)
    ensures
        a == b || lex_less(a, b) || lex_less(b, a),
    decreases a.len(),
{
    if a.len() > 0 && b.len() > 0 && a[0] == b[0] {
        lemma_lex_less_total(a.skip(1), b.skip(1));
        if a.skip(1) == b.skip(1) {
            assert(a =~= seq![a[0]] + a.skip(1));
            assert(b =~= seq![b[0]] + b.skip(1));
        }
    } else if a.len() == 0 && b.len() == 0 {
        assert(a =~= b);
    }
}

/// Whether `a` comes strictly before `b` in the dictionary order.
pub fn bytes_less(a: &[u8], b: &[u8]) -> (r: bool)
    ensures
        r == lex_less(a@, b@),
{
    let mut i: usize = 0;
    assert(a@.skip(0) =~= a@);
    assert(b@.skip(0) =~= b@);
    while i < a.len() && i < b.len()
        invariant
            i <= a@.len(),
            i <= b@.len(),
            lex_less(a@, b@) == lex_less(a@.skip(i as int), b@.skip(i as int)),
        decreases a@.len() - i,
    {
        if a[i] != b[i] {
            return a[i] < b[i];
        }
        assert(a@.skip(i as int).skip(1) =~= a@.skip(i + 1));
        assert(b@.skip(i as int).skip(1) =~= b@.skip(i + 1));
        i += 1;
    }
    i < b.len()
}

/// Whether two byte strings are the same.
pub fn bytes_equal(a: &[u8], b: &[u8]) -> (r: bool)
    ensures
        r == (a@ == b@),
{
    if a.len() != b.len() {
        return false;
    }
    let mut i: usize = 0;
    while i < a.len()
        invariant
            i <= a@.len(),
            a@.len() == b@.len(),
            forall|j: int| 0 <= j < i ==> a@[j] == b@[j],
        decreases a@.len() - i,
    {
        if a[i] != b[i] {
            return false;
        }
        i += 1;
    }
    assert(a@ =~= b@);
    true
}

/// The first position at which `byte` stands in `text`.
pub open spec fn position(text: Seq<u8>, byte: u8) -> Option<int>
    decreases text.len(),
{
    if text.len() == 0 {
        None
    } else if text[0] == byte {
        Some(0)
    } else {
        match position(text.skip(1), byte) {
            Some(i) => Some(i + 1),
            None => None,
        }
    }
}

/// `position` finds the byte, and does not pass over an earlier one.
pub proof fn lemma_position(text: Seq<u8>, byte: u8)
    ensures
        match position(text, byte) {
            Some(i) => {
                &&& 0 <= i < text.len()
                &&& text[i] == byte
                &&& forall|j: int| 0 <= j < i ==> text[j] != byte
            },
            None => forall|j: int| 0 <= j < text.len() ==> text[j] != byte,
        },
    decreases text.len(),
{
    if text.len() > 0 && text[0] != byte {
        let rest = text.skip(1);
        lemma_position(rest, byte);
        let upto = match position(rest, byte) {
            Some(i) => i + 1,
            None => text.len() as int,
        };
        assert forall|j: int| 0 <= j < upto implies text[j] != byte by {
            if j > 0 {
                assert(rest[j - 1] == text[j]);
            }
        }
    }
}

/// Where the byte stands at `i` and nowhere before, `i` is its position.
pub proof fn lemma_position_is(text: Seq<u8>, byte: u8, i: int)
    requires
        0 <= i < text.len(),
        text[i] == byte,
        forall|j: int| 0 <= j < i ==> text[j] != byte,
    ensures
        position(text, byte) == Some(i),
{
    lemma_position(text, byte);
    let k = position(text, byte)->0;
    if k < i {
        assert(text[k] != byte);
    } else if i < k {
        assert(text[i] != byte);
    }
}

/// The first position at which `byte` stands in `text`.
pub fn find_byte(text: &[u8], byte: u8) -> (r: Option<usize>)
    ensures
        position(text@, byte) == (match r {
            Some(i) => Some(i as int),
            None => None,
        }),
        r matches Some(i) ==> i < text@.len(),
{
    let mut i: usize = 0;
    while i < text.len()
        invariant
            i <= text@.len(),
            forall|j: int| 0 <= j < i ==> text@[j] != byte,
        decreases text@.len() - i,
    {
        if text[i] == byte {
            proof {
                lemma_position_is(text@, byte, i as int);
            }
            return Some(i);
        }
        i += 1;
    }
    proof {
        lemma_position(text@, byte);
    }
    None
}

/// Appends `more` to `out`.
pub fn append_bytes(out: &mut Vec<u8>, more: &[u8])
    ensures
        final(out)@ == old(out)@ + more@,
{
    out.extend_from_slice(more);
    assert(out@ =~= old(out)@ + more@);
}

/// All the bytes are characters of ASCII.
pub open spec fn ascii(s: Seq<u8>) -> bool {
    forall|i: int| 0 <= i < s.len() ==> #[trigger] s[i] < 0x80
}

/// Whether all the bytes are characters of ASCII.
pub fn bytes_are_ascii(s: &[u8]) -> (r: bool)
    ensures
        r == ascii(s@),
{
    let mut i: usize = 0;
    while i < s.len()
        invariant
            i <= s@.len(),
            forall|j: int| 0 <= j < i ==> #[trigger] s@[j] < 0x80,
        decreases s@.len() - i,
    {
        if s[i] >= 0x80 {
            return false;
        }
        i += 1;
    }
    true
}

} // verus!
