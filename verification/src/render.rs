//! How a bencoded value is shown to people.

use vstd::prelude::*;

use crate::decimal::{decimal_int, decimal_nat};
use crate::grammar::Node;
use crate::outside::joined;

verus! {

/// A letter or a digit of ASCII.
pub open spec fn is_alphanumeric(b: u8) -> bool {
    0x30 <= b <= 0x39 || 0x41 <= b <= 0x5a || 0x61 <= b <= 0x7a
}

/// A space, tab, line feed, form feed or carriage return.
pub open spec fn is_whitespace(b: u8) -> bool {
    b == 0x20 || b == 0x09 || b == 0x0a || b == 0x0c || b == 0x0d
}

/// A visible character of ASCII that is no letter and no digit.
pub open spec fn is_punctuation(b: u8) -> bool {
    0x21 <= b <= 0x2f || 0x3a <= b <= 0x40 || 0x5b <= b <= 0x60 || 0x7b <= b <= 0x7e
}

/// The byte is text that can be shown.
pub open spec fn is_shown(b: u8) -> bool {
    is_alphanumeric(b) || is_whitespace(b) || is_punctuation(b)
}

/// The bytes as characters of ASCII.
pub open spec fn as_chars(s: Seq<u8>) -> Seq<char> {
    Seq::new(s.len(), |i: int| s[i] as char)
}

/// A byte string as text: what cannot be shown is left out.
pub open spec fn shown(s: Seq<u8>) -> Seq<char> {
    as_chars(s.filter(|b: u8| is_shown(b)))
}

/// The key whose value is never shown: `pieces`.
pub open spec fn pieces_key() -> Seq<u8> {
    seq![0x70u8, 0x69, 0x65, 0x63, 0x65, 0x73]
}

/// A value as text.
pub open spec fn rendered(node: Node) -> Seq<char>
    decreases node,
{
    match node {
        Node::Integer(i) => as_chars(decimal_int(i)),
        Node::ByteString(s) => shown(s),
        Node::List(items) => "["@ + joined(rendered_items(items), ", "@) + "]"@,
        Node::Dict(entries) => "{"@ + joined(rendered_entries(entries), ", "@) + "}"@,
    }
}

/// The items of a list as texts.
pub open spec fn rendered_items(items: Seq<Node>) -> Seq<Seq<char>>
    decreases items,
{
    Seq::new(
        items.len(),
        |i: int|
            if 0 <= i < items.len() {
                rendered(items[i])
            } else {
                arbitrary()
            },
    )
}

/// The entries of a dictionary as texts: the key, a colon and the value.
pub open spec fn rendered_entries(entries: Seq<(Seq<u8>, Node)>) -> Seq<Seq<char>>
    decreases entries,
{
    Seq::new(
        entries.len(),
        |i: int|
            if 0 <= i < entries.len() {
                if entries[i].0 == pieces_key() {
                    "pieces: <OUTPUT SUPPRESSED>"@
                } else {
                    shown(entries[i].0) + ": "@ + rendered(entries[i].1)
                }
            } else {
                arbitrary()
            },
    )
}

/// Whether the byte is text that can be shown.
pub fn byte_is_shown(b: u8) -> (r: bool)
    ensures
        r == is_shown(b),
        r <==> 0x20 <= b <= 0x7e || b == 0x09 || b == 0x0a || b == 0x0c || b == 0x0d,
{
    let alphanumeric = (0x30 <= b && b <= 0x39) || (0x41 <= b && b <= 0x5a) || (0x61 <= b && b
        <= 0x7a);
    let whitespace = b == 0x20 || b == 0x09 || b == 0x0a || b == 0x0c || b == 0x0d;
    let punctuation = (0x21 <= b && b <= 0x2f) || (0x3a <= b && b <= 0x40) || (0x5b <= b && b
        <= 0x60) || (0x7b <= b && b <= 0x7e);
    alphanumeric || whitespace || punctuation
}

/// The bytes of ASCII as a string.
pub fn ascii_string(s: &[u8]) -> (r: String)
    ensures
        r@ == as_chars(s@),
{
    let mut out = String::new();
    let mut i: usize = 0;
    while i < s.len()
        invariant
            i <= s@.len(),
            out@ == as_chars(s@.take(i as int)),
        decreases s@.len() - i,
    {
        out.push(s[i] as char);
        assert(out@ =~= as_chars(s@.take(i + 1)));
        i += 1;
    }
    assert(s@.take(i as int) =~= s@);
    out
}

/// The part of a byte string that can be shown.
pub fn shown_string(s: &[u8]) -> (r: String)
    ensures
        r@ == shown(s@),
{
    let ghost keep = |b: u8| is_shown(b);
    let mut out = String::new();
    let mut i: usize = 0;
    proof {
        reveal(Seq::filter);
        assert(out@ =~= as_chars(s@.take(0).filter(keep)));
    }
    while i < s.len()
        invariant
            i <= s@.len(),
            keep == (|b: u8| is_shown(b)),
            out@ == as_chars(s@.take(i as int).filter(keep)),
        decreases s@.len() - i,
    {
        let b = s[i];
        let ghost before = s@.take(i as int).filter(keep);
        proof {
            reveal(Seq::filter);
            assert(s@.take(i + 1).drop_last() =~= s@.take(i as int));
            assert(s@.take(i + 1).last() == b);
        }
        if byte_is_shown(b) {
            out.push(b as char);
            assert(s@.take(i + 1).filter(keep) =~= before.push(b));
            assert(out@ =~= as_chars(before.push(b)));
        }
        i += 1;
    }
    assert(s@.take(i as int) =~= s@);
    out
}

/// The character is one of those that are shown.
pub open spec fn is_text(c: char) -> bool {
    c as int <= 0x7e && is_shown(c as u8)
}

/// All the characters are of those that are shown.
pub open spec fn all_text(s: Seq<char>) -> bool {
    forall|i: int| 0 <= i < s.len() ==> is_text(#[trigger] s[i])
}

proof fn lemma_shown_is_text(s: Seq<u8>)
    ensures
        all_text(shown(s)),
{
    let keep = |b: u8| is_shown(b);
    let kept = s.filter(keep);
    assert forall|i: int| 0 <= i < kept.len() implies is_text(#[trigger] as_chars(kept)[i]) by {
        s.lemma_filter_pred(keep, i);
        assert(keep(kept[i]));
    }
}

proof fn lemma_decimal_is_text(n: nat)
    ensures
        forall|i: int|
            0 <= i < decimal_nat(n).len() ==> 0x30 <= #[trigger] decimal_nat(n)[i] <= 0x39,
    decreases n,
{
    if n >= 10 {
        let front = decimal_nat(n / 10);
        lemma_decimal_is_text(n / 10);
        assert forall|i: int| 0 <= i < decimal_nat(n).len() implies 0x30
            <= #[trigger] decimal_nat(n)[i] <= 0x39 by {
            if i < front.len() {
                assert(decimal_nat(n)[i] == front[i]);
            }
        }
    }
}

proof fn lemma_joined_is_text(parts: Seq<Seq<char>>, sep: Seq<char>)
    requires
        all_text(sep),
        forall|i: int| 0 <= i < parts.len() ==> all_text(#[trigger] parts[i]),
    ensures
        all_text(joined(parts, sep)),
    decreases parts.len(),
{
    if parts.len() > 1 {
        let rest = parts.skip(1);
        assert forall|i: int| 0 <= i < rest.len() implies all_text(#[trigger] rest[i]) by {
            assert(rest[i] == parts[i + 1]);
        }
        lemma_joined_is_text(rest, sep);
        assert(all_text(parts[0]));
        let all = joined(parts, sep);
        let front = parts[0] + sep;
        assert forall|i: int| 0 <= i < all.len() implies is_text(#[trigger] all[i]) by {
            if i < parts[0].len() {
                assert(all[i] == parts[0][i]);
            } else if i < front.len() {
                assert(all[i] == sep[i - parts[0].len()]);
            } else {
                assert(all[i] == joined(rest, sep)[i - front.len()]);
            }
        }
    } else if parts.len() == 1 {
        assert(all_text(parts[0]));
    }
}

proof fn lemma_concat_is_text(a: Seq<char>, b: Seq<char>)
    requires
        all_text(a),
        all_text(b),
    ensures
        all_text(a + b),
{
    assert forall|i: int| 0 <= i < (a + b).len() implies is_text(#[trigger] (a + b)[i]) by {
        if i < a.len() {
            assert((a + b)[i] == a[i]);
        } else {
            assert((a + b)[i] == b[i - a.len()]);
        }
    }
}

/// Whatever a value holds, what is shown of it is text.
pub proof fn lemma_rendered_is_text(node: Node)
    ensures
        all_text(rendered(node)),
    decreases node,
{
    reveal_strlit("[");
    reveal_strlit("]");
    reveal_strlit("{");
    reveal_strlit("}");
    reveal_strlit(", ");
    reveal_strlit(": ");
    reveal_strlit("pieces: <OUTPUT SUPPRESSED>");
    match node {
        Node::Integer(i) => {
            let n: nat = if i < 0 {
                (-i) as nat
            } else {
                i as nat
            };
            lemma_decimal_is_text(n);
            let s = decimal_int(i);
            assert forall|k: int| 0 <= k < s.len() implies is_text(#[trigger] as_chars(s)[k]) by {
                if i < 0 {
                    assert(k > 0 ==> s[k] == decimal_nat(n)[k - 1]);
                } else {
                    assert(s[k] == decimal_nat(n)[k]);
                }
            }
        },
        Node::ByteString(s) => {
            lemma_shown_is_text(s);
        },
        Node::List(items) => {
            let parts = rendered_items(items);
            assert forall|i: int| 0 <= i < parts.len() implies all_text(#[trigger] parts[i]) by {
                lemma_rendered_is_text(items[i]);
            }
            lemma_joined_is_text(parts, ", "@);
            lemma_concat_is_text("["@, joined(parts, ", "@));
            lemma_concat_is_text("["@ + joined(parts, ", "@), "]"@);
        },
        Node::Dict(entries) => {
            let parts = rendered_entries(entries);
            assert forall|i: int| 0 <= i < parts.len() implies all_text(#[trigger] parts[i]) by {
                assert(decreases_to!(entries => entries[i].1));
                lemma_rendered_is_text(entries[i].1);
                lemma_shown_is_text(entries[i].0);
                lemma_concat_is_text(shown(entries[i].0), ": "@);
                lemma_concat_is_text(shown(entries[i].0) + ": "@, rendered(entries[i].1));
            }
            lemma_joined_is_text(parts, ", "@);
            lemma_concat_is_text("{"@, joined(parts, ", "@));
            lemma_concat_is_text("{"@ + joined(parts, ", "@), "}"@);
        },
    }
}

/// What stands under `pieces` has no part in what is shown of a dictionary.
pub proof fn lemma_pieces_are_not_shown(entries: Seq<(Seq<u8>, Node)>, i: int, value: Node)
    requires
        0 <= i < entries.len(),
        entries[i].0 == pieces_key(),
    ensures
        rendered(Node::Dict(entries.update(i, (pieces_key(), value)))) == rendered(
            Node::Dict(entries),
        ),
{
    assert(rendered_entries(entries.update(i, (pieces_key(), value))) =~= rendered_entries(
        entries,
    ));
}

} // verus!
