//! Bencode byte by byte: what is read from which bytes, how a value is written
//! and how it is shown.

use vstd::prelude::*;

use crate::bencode::{nodes_of, BEncodeNode, BEncodeNodeParseError};
use crate::bytes::{ascii, lemma_position_is, lex_less};
use crate::decimal::{
    decimal_int, decimal_nat, digits_value, integer, is_digit, lemma_natural_of_decimal, natural,
};
use crate::grammar::{
    decode, decode_dict, decode_list, decode_node, encode, encode_bytestring, encode_entries,
    encode_items, keys_increase, lemma_decode_bounds, lemma_encode_entries_push,
    lemma_encode_items_push, lemma_put_in_order, lemma_put_lookup, lookup, put, Node,
};
use crate::outside::joined;
use crate::render::{as_chars, rendered, rendered_entries, rendered_items, shown};

verus! {

/// A stored value stands for the value of its kind.
pub proof fn lemma_stored_value(node: BEncodeNode)
    ensures
        match node {
            BEncodeNode::Integer(i) => node@ == Node::Integer(i as int),
            BEncodeNode::ByteString(s) => node@ == Node::ByteString(s@),
            BEncodeNode::List(l) => {
                &&& node@ matches Node::List(items)
                &&& items.len() == l@.len()
                &&& forall|i: int| 0 <= i < l@.len() ==> #[trigger] items[i] == l@[i]@
            },
            BEncodeNode::Dict(d) => node@ == Node::Dict(d@),
        },
{
}

/// Stored values stand for the values, one for one.
pub proof fn lemma_stored_values(l: Seq<BEncodeNode>)
    ensures
        nodes_of(l).len() == l.len(),
        forall|i: int| 0 <= i < l.len() ==> #[trigger] nodes_of(l)[i] == l[i]@,
{
}

/// A numeral is one or more digits. One digit denotes its own value; one digit
/// more makes ten times as much and that digit.
pub proof fn lemma_natural_is(s: Seq<u8>)
    ensures
        natural(s) is Some <==> s.len() > 0 && forall|i: int|
            0 <= i < s.len() ==> 0x30 <= #[trigger] s[i] <= 0x39,
        natural(s) is Some && s.len() == 1 ==> natural(s)->0 == s[0] - 0x30,
        natural(s) is Some && s.len() > 1 ==> natural(s.drop_last()) is Some && natural(s)->0
            == 10 * natural(s.drop_last())->0 + (s.last() - 0x30),
{
    if s.len() == 1 {
        assert(digits_value(s.drop_last()) == 0);
    }
    if s.len() > 0 && natural(s) is Some {
        assert(is_digit(s[s.len() - 1]));
        assert(forall|i: int| 0 <= i < s.len() - 1 ==> #[trigger] s.drop_last()[i] == s[i]);
    }
    if s.len() > 0 && forall|i: int| 0 <= i < s.len() ==> 0x30 <= #[trigger] s[i] <= 0x39 {
        assert(forall|i: int| 0 <= i < s.len() ==> is_digit(#[trigger] s[i]));
    }
}

/// An integer is a numeral, or one with a sign before it.
pub proof fn lemma_integer_is(s: Seq<u8>)
    ensures
        s.len() > 0 && s[0] == 0x2d ==> match natural(s.skip(1)) {
            Some(n) => integer(s) == Some(-(n as int)),
            None => integer(s) is None,
        },
        s.len() > 0 && s[0] == 0x2b ==> match natural(s.skip(1)) {
            Some(n) => integer(s) == Some(n as int),
            None => integer(s) is None,
        },
        s.len() == 0 || (s[0] != 0x2d && s[0] != 0x2b) ==> match natural(s) {
            Some(n) => integer(s) == Some(n as int),
            None => integer(s) is None,
        },
{
}

/// A written numeral denotes its number. It has no nought in front, unless it is
/// nought, and no plus; a minus stands where the number is negative, and only
/// there.
pub proof fn lemma_numeral_is(n: nat)
    ensures
        natural(decimal_nat(n)) == Some(n),
        n > 0 ==> decimal_nat(n)[0] != 0x30,
        n == 0 ==> decimal_nat(n) == seq![0x30u8],
        decimal_int(n as int) == decimal_nat(n),
        n > 0 ==> decimal_int(-(n as int)) == seq![0x2du8] + decimal_nat(n),
    decreases n,
{
    lemma_natural_of_decimal(n);
    if n >= 10 {
        lemma_numeral_is(n / 10);
        lemma_natural_of_decimal(n / 10);
        assert(decimal_nat(n)[0] == decimal_nat(n / 10)[0]);
    }
}

/// `i`, up to the first `e`: where all bytes between are characters of ASCII and
/// denote an integer that can be held, it is that integer, whatever follows.
pub proof fn lemma_integer_is_read(token: Seq<u8>, tail: Seq<u8>)
    requires
        forall|i: int| 0 <= i < token.len() ==> #[trigger] token[i] != 0x65,
    ensures
        ({
            let r = decode_node(seq![0x69u8] + token + seq![0x65u8] + tail);
            let foreign = exists|i: int| 0 <= i < token.len() && #[trigger] token[i] >= 0x80;
            &&& foreign ==> r == Err::<(Node, int), _>(BEncodeNodeParseError::InvalidASCIIInToken)
            &&& !foreign && integer(token) is Some && isize::MIN <= integer(token)->0 <= isize::MAX
                ==> r == Ok::<_, BEncodeNodeParseError>(
                (Node::Integer(integer(token)->0), token.len() as int + 2),
            )
            &&& !foreign && !(integer(token) is Some && isize::MIN <= integer(token)->0
                <= isize::MAX) ==> r == Err::<(Node, int), _>(
                BEncodeNodeParseError::MalformedInteger,
            )
        }),
{
    let text = seq![0x69u8] + token + seq![0x65u8] + tail;
    let end = token.len() + 1;
    assert forall|j: int| 0 <= j < end implies text[j] != 0x65 by {
        if j > 0 {
            assert(text[j] == token[j - 1]);
        }
    }
    lemma_position_is(text, 0x65, end as int);
    assert(text.subrange(1, end as int) =~= token);
    assert(ascii(token) <==> !exists|i: int| 0 <= i < token.len() && #[trigger] token[i] >= 0x80);
}

/// An `i` that no `e` follows anywhere is cut short.
pub proof fn lemma_integer_without_end(text: Seq<u8>)
    requires
        text.len() > 0,
        text[0] == 0x69,
        forall|i: int| 0 <= i < text.len() ==> #[trigger] text[i] != 0x65,
    ensures
        decode_node(text) == Err::<(Node, int), _>(BEncodeNodeParseError::UnexpectedEnd),
{
    crate::bytes::lemma_position(text, 0x65);
}

/// A digit, up to the first colon: where all bytes before the colon are a numeral,
/// it counts the bytes after the colon that are the byte string, whatever follows.
/// A count of nought takes two bytes in all.
pub proof fn lemma_bytestring_is_read(token: Seq<u8>, rest: Seq<u8>)
    requires
        token.len() > 0,
        0x30 <= token[0] <= 0x39,
        forall|i: int| 0 <= i < token.len() ==> #[trigger] token[i] != 0x3a,
    ensures
        ({
            let r = decode_node(token + seq![0x3au8] + rest);
            let foreign = exists|i: int| 0 <= i < token.len() && #[trigger] token[i] >= 0x80;
            &&& foreign ==> r == Err::<(Node, int), _>(BEncodeNodeParseError::InvalidASCIIInToken)
            &&& !foreign && natural(token) is None ==> r == Err::<(Node, int), _>(
                BEncodeNodeParseError::MalformedInteger,
            )
            &&& !foreign ==> (natural(token) matches Some(n) ==> {
                &&& n > usize::MAX ==> r == Err::<(Node, int), _>(
                    BEncodeNodeParseError::MalformedInteger,
                )
                &&& n == 0 ==> r == Ok::<_, BEncodeNodeParseError>(
                    (Node::ByteString(Seq::empty()), 2int),
                )
                &&& rest.len() < n <= usize::MAX ==> r == Err::<(Node, int), _>(
                    BEncodeNodeParseError::UnexpectedEnd,
                )
                &&& 0 < n <= rest.len() && n <= usize::MAX ==> r == Ok::<_, BEncodeNodeParseError>(
                    (Node::ByteString(rest.take(n as int)), token.len() as int + 1 + n as int),
                )
            })
        }),
{
    let text = token + seq![0x3au8] + rest;
    let colon = token.len() as int;
    assert(text[0] == token[0]);
    assert forall|j: int| 0 <= j < colon implies text[j] != 0x3a by {
        assert(text[j] == token[j]);
    }
    lemma_position_is(text, 0x3a, colon);
    assert(text.subrange(0, colon) =~= token);
    assert(ascii(token) <==> !exists|i: int| 0 <= i < token.len() && #[trigger] token[i] >= 0x80);
    if let Some(n) = natural(token) {
        if n <= rest.len() {
            assert(text.subrange(colon + 1, colon + 1 + n) =~= rest.take(n as int));
        }
    }
}

/// A digit that no colon follows anywhere is cut short.
pub proof fn lemma_bytestring_without_colon(text: Seq<u8>)
    requires
        text.len() > 0,
        0x30 <= text[0] <= 0x39,
        forall|i: int| 0 <= i < text.len() ==> #[trigger] text[i] != 0x3a,
    ensures
        decode_node(text) == Err::<(Node, int), _>(BEncodeNodeParseError::UnexpectedEnd),
{
    crate::bytes::lemma_position(text, 0x3a);
}

/// A value begins with `i`, `l`, `d` or a digit.
pub proof fn lemma_values_begin(text: Seq<u8>)
    ensures
        text.len() == 0 ==> decode_node(text) == Err::<(Node, int), _>(
            BEncodeNodeParseError::Other,
        ),
        text.len() > 0 && text[0] == 0x65 ==> decode_node(text) == Err::<(Node, int), _>(
            BEncodeNodeParseError::DanglingEndMarker,
        ),
        text.len() > 0 && !(0x30 <= text[0] <= 0x39) && text[0] != 0x69 && text[0] != 0x6c
            && text[0] != 0x64 && text[0] != 0x65 ==> decode_node(text) == Err::<(Node, int), _>(
            BEncodeNodeParseError::Other,
        ),
{
}

/// A list begins with `l`. An `e` where an item is due ends it; there has to be
/// one. Else an item has to be readable there, and the list is that item and the
/// list that the rest is.
pub proof fn lemma_list_is_read(x: Seq<u8>)
    ensures
        ({
            let l = seq![0x6cu8];
            let r = decode_node(l + x);
            &&& x.len() == 0 ==> r == Err::<(Node, int), _>(BEncodeNodeParseError::UnexpectedEnd)
            &&& x.len() > 0 && x[0] == 0x65 ==> r == Ok::<_, BEncodeNodeParseError>(
                (Node::List(Seq::empty()), 2int),
            )
            &&& x.len() > 0 && x[0] != 0x65 ==> match decode_node(x) {
                Err(e) => r == Err::<(Node, int), _>(e),
                Ok((item, used)) => match decode_node(l + x.skip(used)) {
                    Ok((Node::List(items), more)) => r == Ok::<_, BEncodeNodeParseError>(
                        (Node::List(seq![item] + items), used + more),
                    ),
                    Ok(_) => false,
                    Err(e) => r == Err::<(Node, int), _>(e),
                },
            }
        }),
{
    let l = seq![0x6cu8];
    assert((l + x).skip(1) =~= x);
    lemma_decode_bounds(x);
    if let Ok((_, used)) = decode_node(x) {
        assert((l + x.skip(used)).skip(1) =~= x.skip(used));
    }
}

/// The items of a list, read without the `l` before them and the `e` after them,
/// are those of the list with both, in two bytes less; and what stops one reader
/// stops the other.
pub proof fn lemma_items_are_read(x: Seq<u8>)
    ensures
        match decode_list(x) {
            Ok((items, used)) => {
                &&& 0 <= used < x.len()
                &&& x[used] == 0x65
                &&& decode_node(seq![0x6cu8] + x) == Ok::<_, BEncodeNodeParseError>(
                    (Node::List(items), used + 2),
                )
            },
            Err(e) => decode_node(seq![0x6cu8] + x) == Err::<(Node, int), _>(e),
        },
    decreases x.len(),
{
    assert((seq![0x6cu8] + x).skip(1) =~= x);
    lemma_decode_bounds(x);
    if x.len() > 0 && x[0] != 0x65 {
        if let Ok((_, used)) = decode_node(x) {
            lemma_items_are_read(x.skip(used));
        }
    }
}

/// The entries of a dictionary, read without the `d` before them and the `e`
/// after them, are those of the dictionary with both, in two bytes less; and what
/// stops one reader stops the other.
pub proof fn lemma_entries_are_read(x: Seq<u8>)
    ensures
        match decode_dict(x, Seq::empty()) {
            Ok((entries, used)) => {
                &&& 0 <= used < x.len()
                &&& x[used] == 0x65
                &&& decode_node(seq![0x64u8] + x) == Ok::<_, BEncodeNodeParseError>(
                    (Node::Dict(entries), used + 2),
                )
            },
            Err(e) => decode_node(seq![0x64u8] + x) == Err::<(Node, int), _>(e),
        },
{
    assert((seq![0x64u8] + x).skip(1) =~= x);
    lemma_entries_end(x, Seq::empty());
}

proof fn lemma_entries_end(x: Seq<u8>, entries: Seq<(Seq<u8>, Node)>)
    ensures
        decode_dict(x, entries) matches Ok((_, used)) ==> 0 <= used < x.len() && x[used] == 0x65,
    decreases x.len(),
{
    lemma_decode_bounds(x);
    if x.len() > 0 && x[0] != 0x65 {
        if let Ok((Node::ByteString(key), used)) = decode_node(x) {
            lemma_decode_bounds(x.skip(used));
            if let Ok((value, used2)) = decode_node(x.skip(used)) {
                lemma_entries_end(x.skip(used + used2), put(entries, key, value));
            }
        }
    }
}

/// One byte string comes before another: where they first differ its byte is
/// smaller, or it ends there.
pub open spec fn earlier(a: Seq<u8>, b: Seq<u8>) -> bool {
    exists|n: int| #[trigger] differ_first_at(a, b, n) && (n == a.len() || a[n] < b[n])
}

/// The byte strings are the same up to `n`, where the second goes on.
pub open spec fn differ_first_at(a: Seq<u8>, b: Seq<u8>, n: int) -> bool {
    &&& 0 <= n <= a.len()
    &&& n < b.len()
    &&& forall|i: int| 0 <= i < n ==> #[trigger] a[i] == b[i]
}

/// The dictionary order is decided where two byte strings first differ.
pub proof fn lemma_dictionary_order(a: Seq<u8>, b: Seq<u8>)
    ensures
        lex_less(a, b) <==> earlier(a, b),
    decreases a.len(),
{
    if b.len() == 0 {
    } else if a.len() == 0 {
        assert(differ_first_at(a, b, 0));
    } else if a[0] != b[0] {
        if a[0] < b[0] {
            assert(differ_first_at(a, b, 0));
        }
        if earlier(a, b) {
            let n = choose|n: int| #[trigger]
                differ_first_at(a, b, n) && (n == a.len() || a[n] < b[n]);
            assert(n == 0);
        }
    } else {
        let (x, y) = (a.skip(1), b.skip(1));
        lemma_dictionary_order(x, y);
        if earlier(x, y) {
            let n = choose|n: int| #[trigger]
                differ_first_at(x, y, n) && (n == x.len() || x[n] < y[n]);
            assert forall|i: int| 0 <= i < n + 1 implies #[trigger] a[i] == b[i] by {
                if i > 0 {
                    assert(x[i - 1] == y[i - 1]);
                }
            }
            assert(differ_first_at(a, b, n + 1));
        }
        if earlier(a, b) {
            let n = choose|n: int| #[trigger]
                differ_first_at(a, b, n) && (n == a.len() || a[n] < b[n]);
            assert(n > 0);
            assert forall|i: int| 0 <= i < n - 1 implies #[trigger] x[i] == y[i] by {
                assert(a[i + 1] == b[i + 1]);
            }
            assert(differ_first_at(x, y, n - 1));
        }
    }
}

/// The entries stand in ascending order of their keys, and no key stands twice.
pub open spec fn ascend(entries: Seq<(Seq<u8>, Node)>) -> bool {
    forall|i: int, j: int|
        0 <= i < j < entries.len() ==> #[trigger] earlier(entries[i].0, entries[j].0)
}

/// In key order each key is smaller than those after it.
pub proof fn lemma_key_order(entries: Seq<(Seq<u8>, Node)>)
    ensures
        keys_increase(entries) <==> ascend(entries),
{
    assert forall|i: int, j: int| 0 <= i < j < entries.len() implies (lex_less(
        entries[i].0,
        entries[j].0,
    ) <==> #[trigger] earlier(entries[i].0, entries[j].0)) by {
        lemma_dictionary_order(entries[i].0, entries[j].0);
    }
    if ascend(entries) {
        assert forall|i: int, j: int| 0 <= i < j < entries.len() implies #[trigger] lex_less(
            entries[i].0,
            entries[j].0,
        ) by {
            assert(earlier(entries[i].0, entries[j].0));
        }
    }
}

/// One of the entries has this key.
pub open spec fn has_key(entries: Seq<(Seq<u8>, Node)>, key: Seq<u8>) -> bool {
    exists|i: int| 0 <= i < entries.len() && (#[trigger] entries[i]).0 == key
}

/// In key order the value that is found is the one that stands beside the key.
pub proof fn lemma_lookup_is(entries: Seq<(Seq<u8>, Node)>, key: Seq<u8>)
    requires
        ascend(entries),
    ensures
        lookup(entries, key) is Some <==> has_key(entries, key),
        forall|value: Node|
            lookup(entries, key) == Some(value) <==> #[trigger] entries.contains((key, value)),
{
    lemma_key_order(entries);
    if has_key(entries, key) {
        let i = choose|i: int| 0 <= i < entries.len() && (#[trigger] entries[i]).0 == key;
        crate::grammar::lemma_lookup_at(entries, i);
        assert(entries[i] == (key, entries[i].1));
    } else {
        assert forall|i: int| 0 <= i < entries.len() implies (#[trigger] entries[i]).0
            != key by {}
        crate::grammar::lemma_lookup_absent(entries, key);
    }
    assert forall|value: Node|
        lookup(entries, key) == Some(value) <==> #[trigger] entries.contains((key, value)) by {
        if entries.contains((key, value)) {
            let i = choose|i: int| 0 <= i < entries.len() && entries[i] == (key, value);
            crate::grammar::lemma_lookup_at(entries, i);
            assert(entries[i].0 == key);
        }
        if lookup(entries, key) == Some(value) {
            let i = choose|i: int| 0 <= i < entries.len() && (#[trigger] entries[i]).0 == key;
            crate::grammar::lemma_lookup_at(entries, i);
            assert(entries[i] == (key, value));
        }
    }
}

/// Every key that a dictionary has can be used as an index into it, and every
/// place of a list into that; and nothing else into any value.
pub proof fn lemma_indices_are(node: BEncodeNode, key: &[u8], i: usize)
    requires
        node@ matches Node::Dict(entries) ==> ascend(entries),
    ensures
        <BEncodeNode as vstd::std_specs::core::IndexSpec<&[u8]>>::index_req(&node, &key) <==> {
            &&& node@ matches Node::Dict(entries)
            &&& has_key(entries, key@)
        },
        <BEncodeNode as vstd::std_specs::core::IndexSpec<usize>>::index_req(&node, &i) <==> {
            &&& node@ matches Node::List(items)
            &&& i < items.len()
        },
{
    if let Node::Dict(entries) = node@ {
        lemma_lookup_is(entries, key@);
    }
}

/// A key that is given a value has that value and no other, all other entries
/// stay, none comes, and the order is kept.
pub proof fn lemma_put_is(entries: Seq<(Seq<u8>, Node)>, key: Seq<u8>, value: Node)
    requires
        ascend(entries),
    ensures
        ascend(put(entries, key, value)),
        forall|e: (Seq<u8>, Node)| #[trigger]
            put(entries, key, value).contains(e) <==> e == (key, value) || (entries.contains(e)
                && e.0 != key),
{
    let after = put(entries, key, value);
    lemma_key_order(entries);
    lemma_put_in_order(entries, key, value);
    lemma_key_order(after);
    assert forall|e: (Seq<u8>, Node)| #[trigger]
        after.contains(e) <==> e == (key, value) || (entries.contains(e) && e.0 != key) by {
        lemma_put_lookup(entries, key, value, e.0);
        lemma_lookup_is(entries, e.0);
        lemma_lookup_is(after, e.0);
        assert(e == (e.0, e.1));
        assert(lookup(after, e.0) == Some(e.1) <==> after.contains((e.0, e.1)));
        assert(lookup(entries, e.0) == Some(e.1) <==> entries.contains((e.0, e.1)));
    }
}

/// Reading entries on top of others is reading them alone and letting those
/// others stand that have no new value.
proof fn lemma_read_on_top(text: Seq<u8>, entries: Seq<(Seq<u8>, Node)>)
    requires
        ascend(entries),
    ensures
        match (decode_dict(text, entries), decode_dict(text, Seq::empty())) {
            (Ok((all, n)), Ok((alone, m))) => {
                &&& n == m
                &&& ascend(all)
                &&& ascend(alone)
                &&& forall|e: (Seq<u8>, Node)| #[trigger]
                    all.contains(e) <==> alone.contains(e) || (entries.contains(e) && !has_key(
                        alone,
                        e.0,
                    ))
            },
            (Err(e), Err(f)) => e == f,
            _ => false,
        },
    decreases text.len(),
{
    lemma_decode_bounds(text);
    if text.len() > 0 && text[0] != 0x65 {
        if let Ok((Node::ByteString(key), used)) = decode_node(text) {
            lemma_decode_bounds(text.skip(used));
            if let Ok((value, used2)) = decode_node(text.skip(used)) {
                let rest = text.skip(used + used2);
                let none = Seq::<(Seq<u8>, Node)>::empty();
                let one = put(none, key, value);
                let top = put(entries, key, value);
                lemma_put_is(entries, key, value);
                lemma_put_is(none, key, value);
                lemma_read_on_top(rest, top);
                lemma_read_on_top(rest, one);
                match (
                    decode_dict(rest, top),
                    decode_dict(rest, one),
                    decode_dict(rest, none),
                ) {
                    (Ok((all, _)), Ok((alone, _)), Ok((after, _))) => {
                        assert forall|e: (Seq<u8>, Node)| #[trigger]
                            all.contains(e) <==> alone.contains(e) || (entries.contains(e)
                                && !has_key(alone, e.0)) by {
                            lemma_has_key_on_top(alone, after, key, value, e.0);
                            assert(top.contains(e) <==> e == (key, value) || (entries.contains(
                                e,
                            ) && e.0 != key));
                            assert(one.contains(e) <==> e == (key, value) || (none.contains(e)
                                && e.0 != key));
                        }
                    },
                    _ => {},
                }
            }
        }
    } else if text.len() > 0 {
        let none = Seq::<(Seq<u8>, Node)>::empty();
        assert(!exists|i: int| 0 <= i < none.len() && (#[trigger] none[i]).0 == none[i].0);
    }
}

proof fn lemma_has_key_on_top(
    alone: Seq<(Seq<u8>, Node)>,
    after: Seq<(Seq<u8>, Node)>,
    key: Seq<u8>,
    value: Node,
    k: Seq<u8>,
)
    requires
        forall|e: (Seq<u8>, Node)| #[trigger]
            alone.contains(e) <==> after.contains(e) || (put(Seq::empty(), key, value).contains(
                e,
            ) && !has_key(after, e.0)),
        forall|e: (Seq<u8>, Node)| #[trigger]
            put(Seq::empty(), key, value).contains(e) <==> e == (key, value) || (Seq::<
                (Seq<u8>, Node),
            >::empty().contains(e) && e.0 != key),
    ensures
        has_key(alone, k) <==> has_key(after, k) || k == key,
{
    if has_key(alone, k) {
        let i = choose|i: int| 0 <= i < alone.len() && (#[trigger] alone[i]).0 == k;
        assert(alone.contains(alone[i]));
        if after.contains(alone[i]) {
            let j = choose|j: int| 0 <= j < after.len() && after[j] == alone[i];
            assert(after[j].0 == k);
        }
    }
    if has_key(after, k) {
        let j = choose|j: int| 0 <= j < after.len() && (#[trigger] after[j]).0 == k;
        assert(after.contains(after[j]));
        assert(alone.contains(after[j]));
        let i = choose|i: int| 0 <= i < alone.len() && alone[i] == after[j];
        assert(alone[i].0 == k);
    }
    if k == key && !has_key(after, key) {
        assert(put(Seq::empty(), key, value).contains((key, value)));
        assert(alone.contains((key, value)));
        let i = choose|i: int| 0 <= i < alone.len() && alone[i] == (key, value);
        assert(alone[i].0 == k);
    }
}

/// A dictionary begins with `d`. An `e` where a key is due ends it; there has to
/// be one. Else a byte string has to be readable there, and after it a value. The
/// dictionary is the one that the rest is, and where that has no entry of the key
/// also the key with the value; its entries stand in key order.
pub proof fn lemma_dict_is_read(x: Seq<u8>)
    ensures
        ({
            let d = seq![0x64u8];
            let r = decode_node(d + x);
            &&& x.len() == 0 ==> r == Err::<(Node, int), _>(BEncodeNodeParseError::UnexpectedEnd)
            &&& x.len() > 0 && x[0] == 0x65 ==> r == Ok::<_, BEncodeNodeParseError>(
                (Node::Dict(Seq::empty()), 2int),
            )
            &&& x.len() > 0 && x[0] != 0x65 ==> match decode_node(x) {
                Err(e) => r == Err::<(Node, int), _>(e),
                Ok((Node::ByteString(key), used)) => match decode_node(x.skip(used)) {
                    Err(e) => r == Err::<(Node, int), _>(e),
                    Ok((value, used2)) => match decode_node(d + x.skip(used + used2)) {
                        Err(e) => r == Err::<(Node, int), _>(e),
                        Ok((Node::Dict(rest), more)) => {
                            &&& r matches Ok((Node::Dict(all), n))
                            &&& n == used + used2 + more
                            &&& ascend(all)
                            &&& forall|e: (Seq<u8>, Node)| #[trigger]
                                all.contains(e) <==> rest.contains(e) || (e == (key, value)
                                    && !has_key(rest, key))
                        },
                        Ok(_) => false,
                    },
                },
                Ok(_) => r == Err::<(Node, int), _>(BEncodeNodeParseError::InvalidDictKey),
            }
        }),
{
    let d = seq![0x64u8];
    assert((d + x).skip(1) =~= x);
    lemma_decode_bounds(x);
    if x.len() > 0 && x[0] != 0x65 {
        if let Ok((Node::ByteString(key), used)) = decode_node(x) {
            lemma_decode_bounds(x.skip(used));
            if let Ok((value, used2)) = decode_node(x.skip(used)) {
                let none = Seq::<(Seq<u8>, Node)>::empty();
                let y = x.skip(used + used2);
                assert((d + y).skip(1) =~= y);
                lemma_put_is(none, key, value);
                lemma_read_on_top(y, put(none, key, value));
                if let Ok((all, _)) = decode_dict(x, none) {
                    let rest = decode_dict(y, none)->Ok_0.0;
                    assert forall|e: (Seq<u8>, Node)| #[trigger]
                        all.contains(e) <==> rest.contains(e) || (e == (key, value) && !has_key(
                            rest,
                            key,
                        )) by {
                        assert(put(none, key, value).contains(e) <==> e == (key, value) || (
                        none.contains(e) && e.0 != key));
                    }
                }
            }
        }
    }
}

/// A text is one value exactly where the value that it begins with takes all of
/// it; where it takes less, whatever its kind, there is too much text; and where
/// none can be read, that is the error.
pub proof fn lemma_nothing_is_left_over(text: Seq<u8>)
    ensures
        match decode_node(text) {
            Ok((node, used)) => {
                &&& used <= text.len()
                &&& used == text.len() ==> decode(text) == Ok::<_, BEncodeNodeParseError>(node)
                &&& used < text.len() ==> decode(text) == Err::<Node, _>(
                    BEncodeNodeParseError::ExcessInput,
                )
            },
            Err(e) => decode(text) == Err::<Node, _>(e),
        },
        forall|node: Node|
            decode(text) == Ok::<Node, BEncodeNodeParseError>(node) ==> #[trigger] ok_with(
                decode_node(text),
                node,
                text.len() as int,
            ),
{
    lemma_decode_bounds(text);
}

/// The result is this value, which took so many bytes.
pub open spec fn ok_with(
    r: Result<(Node, int), BEncodeNodeParseError>,
    node: Node,
    used: int,
) -> bool {
    r matches Ok((n, u)) && n == node && u == used
}

/// Whatever follows a text that is one value, the two together are not one value.
pub proof fn lemma_no_value_goes_on(text: Seq<u8>, tail: Seq<u8>)
    requires
        decode(text) is Ok,
        tail.len() > 0,
    ensures
        decode(text + tail) == Err::<Node, _>(BEncodeNodeParseError::ExcessInput),
{
    crate::grammar::lemma_decode_prefix(text, tail);
    lemma_nothing_is_left_over(text);
    lemma_nothing_is_left_over(text + tail);
}

/// A number is written with the digits of ten, the last digit last, without a
/// nought in front, and a negative one as its counterpart with a minus.
pub proof fn lemma_integer_is_written(n: nat)
    ensures
        n < 10 ==> encode(Node::Integer(n as int)) == seq![0x69u8, (0x30 + n) as u8, 0x65],
        n >= 10 ==> encode(Node::Integer(n as int)) == encode(
            Node::Integer((n / 10) as int),
        ).drop_last() + seq![(0x30 + n % 10) as u8, 0x65u8],
        n > 0 ==> encode(Node::Integer(-(n as int))) == seq![0x69u8, 0x2d] + encode(
            Node::Integer(n as int),
        ).skip(1),
{
    let w = encode(Node::Integer(n as int));
    if n < 10 {
        assert(w =~= seq![0x69u8, (0x30 + n) as u8, 0x65]);
    } else {
        let q = encode(Node::Integer((n / 10) as int));
        assert(decimal_int(n as int) == decimal_nat(n / 10).push((0x30 + n % 10) as u8));
        assert(q.drop_last() =~= seq![0x69u8] + decimal_nat(n / 10));
        assert(w =~= q.drop_last() + seq![(0x30 + n % 10) as u8, 0x65u8]);
    }
    if n > 0 {
        assert(decimal_int(-(n as int)) == seq![0x2du8] + decimal_nat(n));
        assert(w.skip(1) =~= decimal_nat(n) + seq![0x65u8]);
        assert(encode(Node::Integer(-(n as int))) =~= seq![0x69u8, 0x2d] + w.skip(1));
    }
}

/// A byte string is written as its length, a colon and its bytes.
pub proof fn lemma_bytestring_is_written(s: Seq<u8>)
    ensures
        ({
            let n = encode(Node::Integer(s.len() as int));
            encode(Node::ByteString(s)) == n.subrange(1, n.len() - 1) + seq![0x3au8] + s
        }),
{
    let n = encode(Node::Integer(s.len() as int));
    assert(n.subrange(1, n.len() - 1) =~= decimal_nat(s.len()));
}

/// A list is written as its items, one after the other, between `l` and `e`.
pub proof fn lemma_list_is_written(items: Seq<Node>, item: Node)
    ensures
        encode(Node::List(Seq::empty())) == seq![0x6cu8, 0x65],
        encode(Node::List(items.push(item))) == encode(Node::List(items)).drop_last() + encode(item)
            + seq![0x65u8],
{
    let l = seq![0x6cu8];
    let e = seq![0x65u8];
    assert(encode_items(Seq::<Node>::empty()) =~= Seq::<u8>::empty());
    assert(encode(Node::List(Seq::empty())) =~= seq![0x6cu8, 0x65]);
    lemma_encode_items_push(items, item);
    assert(encode(Node::List(items)).drop_last() =~= l + encode_items(items));
    assert(encode(Node::List(items.push(item))) =~= l + encode_items(items) + encode(item) + e);
}

/// A dictionary is written as its entries, one after the other, between `d` and
/// `e`, each key before its value.
pub proof fn lemma_dict_is_written(entries: Seq<(Seq<u8>, Node)>, key: Seq<u8>, value: Node)
    ensures
        encode(Node::Dict(Seq::empty())) == seq![0x64u8, 0x65],
        encode(Node::Dict(entries.push((key, value)))) == encode(Node::Dict(entries)).drop_last()
            + encode(Node::ByteString(key)) + encode(value) + seq![0x65u8],
{
    let d = seq![0x64u8];
    let e = seq![0x65u8];
    assert(encode_entries(Seq::<(Seq<u8>, Node)>::empty()) =~= Seq::<u8>::empty());
    assert(encode(Node::Dict(Seq::empty())) =~= seq![0x64u8, 0x65]);
    lemma_encode_entries_push(entries, key, value);
    assert(encode(Node::Dict(entries)).drop_last() =~= d + encode_entries(entries));
    assert(encode(Node::Dict(entries.push((key, value)))) =~= d + encode_entries(entries)
        + encode_bytestring(key) + encode(value) + e);
}

/// A byte string is shown byte by byte: every byte from the space to the tilde
/// is, and so are a tab, a line feed, a form feed and a carriage return; no other
/// byte is.
pub proof fn lemma_bytes_are_shown(s: Seq<u8>, b: u8)
    ensures
        shown(Seq::empty()) == Seq::<char>::empty(),
        shown(s.push(b)) == (if 0x20 <= b <= 0x7e || b == 0x09 || b == 0x0a || b == 0x0c || b
            == 0x0d {
            shown(s).push(b as char)
        } else {
            shown(s)
        }),
        rendered(Node::ByteString(s)) == shown(s),
{
    let keep = |b: u8| crate::render::is_shown(b);
    reveal(Seq::filter);
    assert(s.push(b).drop_last() =~= s);
    assert(shown(Seq::empty()) =~= Seq::<char>::empty());
    if keep(b) {
        assert(s.push(b).filter(keep) =~= s.filter(keep).push(b));
        assert(shown(s.push(b)) =~= shown(s).push(b as char));
    } else {
        assert(s.push(b).filter(keep) =~= s.filter(keep));
    }
}

/// A byte string of nothing but such bytes is shown as it is.
pub proof fn lemma_text_is_shown_as_it_is(s: Seq<u8>)
    requires
        forall|i: int|
            0 <= i < s.len() ==> {
                ||| 0x20 <= #[trigger] s[i] <= 0x7e
                ||| s[i] == 0x09
                ||| s[i] == 0x0a
                ||| s[i] == 0x0c
                ||| s[i] == 0x0d
            },
    ensures
        shown(s).len() == s.len(),
        forall|i: int| 0 <= i < s.len() ==> #[trigger] shown(s)[i] == s[i] as char,
    decreases s.len(),
{
    if s.len() > 0 {
        let front = s.drop_last();
        assert forall|i: int| 0 <= i < front.len() implies {
            ||| 0x20 <= #[trigger] front[i] <= 0x7e
            ||| front[i] == 0x09
            ||| front[i] == 0x0a
            ||| front[i] == 0x0c
            ||| front[i] == 0x0d
        } by {
            assert(front[i] == s[i]);
        }
        lemma_text_is_shown_as_it_is(front);
        lemma_bytes_are_shown(front, s.last());
        assert(front.push(s.last()) =~= s);
        assert(s[s.len() - 1] == s.last());
    } else {
        lemma_bytes_are_shown(s, 0);
        assert(s =~= Seq::empty());
    }
}

/// A number is shown as it is written.
pub proof fn lemma_integer_is_shown(i: int)
    ensures
        rendered(Node::Integer(i)).len() == encode(Node::Integer(i)).len() - 2,
        forall|k: int|
            0 <= k < rendered(Node::Integer(i)).len() ==> #[trigger] rendered(Node::Integer(i))[k]
                == encode(Node::Integer(i))[k + 1] as char,
{
}

proof fn lemma_joined_push(parts: Seq<Seq<char>>, part: Seq<char>, sep: Seq<char>)
    ensures
        joined(parts.push(part), sep) == (if parts.len() == 0 {
            part
        } else {
            joined(parts, sep) + sep + part
        }),
    decreases parts.len(),
{
    let all = parts.push(part);
    if parts.len() == 1 {
        assert(all.skip(1) =~= seq![part]);
        assert(joined(all.skip(1), sep) == part);
    } else if parts.len() > 1 {
        assert(all.skip(1) =~= parts.skip(1).push(part));
        lemma_joined_push(parts.skip(1), part, sep);
        assert(joined(all, sep) =~= joined(parts, sep) + sep + part);
    }
}

/// A list is shown as its items in square brackets, with a comma and a space
/// between two.
pub proof fn lemma_list_is_shown(items: Seq<Node>, item: Node)
    ensures
        rendered(Node::List(Seq::empty())) == seq!['[', ']'],
        rendered(Node::List(seq![item])) == seq!['['] + rendered(item) + seq![']'],
        items.len() > 0 ==> rendered(Node::List(items.push(item))) == rendered(
            Node::List(items),
        ).drop_last() + seq![',', ' '] + rendered(item) + seq![']'],
{
    reveal_strlit("[");
    reveal_strlit("]");
    reveal_strlit(", ");
    assert("["@ =~= seq!['[']);
    assert("]"@ =~= seq![']']);
    assert(", "@ =~= seq![',', ' ']);
    let none = Seq::<Node>::empty();
    assert(rendered_items(none) =~= Seq::empty());
    assert(rendered(Node::List(none)) =~= seq!['[', ']']);
    assert(rendered_items(seq![item]) =~= seq![rendered(item)]);
    assert(rendered_items(items.push(item)) =~= rendered_items(items).push(rendered(item)));
    lemma_joined_push(rendered_items(items), rendered(item), ", "@);
    if items.len() > 0 {
        assert(rendered(Node::List(items)).drop_last() =~= "["@ + joined(
            rendered_items(items),
            ", "@,
        ));
        assert(rendered(Node::List(items.push(item))) =~= rendered(Node::List(items)).drop_last()
            + seq![',', ' '] + rendered(item) + seq![']']);
    }
}

/// An entry is shown as its key, a colon, a space and its value; but of the key
/// `pieces` the value is not shown.
pub open spec fn entry_text(key: Seq<u8>, value: Node) -> Seq<char> {
    if key == seq![0x70u8, 0x69, 0x65, 0x63, 0x65, 0x73] {
        "pieces: <OUTPUT SUPPRESSED>"@
    } else {
        rendered(Node::ByteString(key)) + seq![':', ' '] + rendered(value)
    }
}

/// A dictionary is shown as its entries in curly brackets, with a comma and a
/// space between two.
pub proof fn lemma_dict_is_shown(entries: Seq<(Seq<u8>, Node)>, key: Seq<u8>, value: Node)
    ensures
        rendered(Node::Dict(Seq::empty())) == seq!['{', '}'],
        rendered(Node::Dict(seq![(key, value)])) == seq!['{'] + entry_text(key, value) + seq!['}'],
        entries.len() > 0 ==> rendered(Node::Dict(entries.push((key, value)))) == rendered(
            Node::Dict(entries),
        ).drop_last() + seq![',', ' '] + entry_text(key, value) + seq!['}'],
{
    reveal_strlit("{");
    reveal_strlit("}");
    reveal_strlit(", ");
    reveal_strlit(": ");
    assert("{"@ =~= seq!['{']);
    assert("}"@ =~= seq!['}']);
    assert(", "@ =~= seq![',', ' ']);
    assert(": "@ =~= seq![':', ' ']);
    let none = Seq::<(Seq<u8>, Node)>::empty();
    let text = entry_text(key, value);
    let all = entries.push((key, value));
    assert(rendered_entries(none) =~= Seq::empty());
    assert(rendered(Node::Dict(none)) =~= seq!['{', '}']);
    assert(rendered_entries(seq![(key, value)])[0] == text);
    assert(rendered_entries(seq![(key, value)]) =~= seq![text]);
    assert(rendered_entries(all)[entries.len() as int] == text);
    assert forall|i: int| 0 <= i < entries.len() implies #[trigger] rendered_entries(all)[i]
        == rendered_entries(entries)[i] by {
        assert(all[i] == entries[i]);
    }
    assert(rendered_entries(all) =~= rendered_entries(entries).push(text));
    lemma_joined_push(rendered_entries(entries), text, ", "@);
    if entries.len() > 0 {
        assert(rendered(Node::Dict(entries)).drop_last() =~= "{"@ + joined(
            rendered_entries(entries),
            ", "@,
        ));
        assert(rendered(Node::Dict(all)) =~= rendered(Node::Dict(entries)).drop_last() + seq![
            ',',
            ' ',
        ] + text + seq!['}']);
    }
}

/// Bytes of ASCII become the characters of the same numbers.
pub proof fn lemma_characters_are_bytes(s: Seq<u8>)
    ensures
        as_chars(s).len() == s.len(),
        forall|i: int| 0 <= i < s.len() ==> #[trigger] as_chars(s)[i] == s[i] as char,
{
}

} // verus!
