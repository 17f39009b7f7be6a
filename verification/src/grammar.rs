//! The bencode grammar: the values that it writes down, how a text is read and
//! how a value is written.

use vstd::prelude::*;

use crate::bencode::BEncodeNodeParseError;
use crate::bytes::{
    ascii, lemma_lex_less_irreflexive, lemma_lex_less_total, lemma_lex_less_transitive,
    lemma_position, lemma_position_is, lex_less, position,
};
use crate::decimal::{
    decimal_int, decimal_nat, integer, is_digit, lemma_integer_of_decimal,
    lemma_natural_of_decimal, natural,
};

verus! {

/// A bencoded value. A dictionary is the list of its entries in key order.
pub enum Node {
    Integer(int),
    ByteString(Seq<u8>),
    List(Seq<Node>),
    Dict(Seq<(Seq<u8>, Node)>),
}

/// The entries stand in strictly increasing order of their keys.
pub open spec fn keys_increase(entries: Seq<(Seq<u8>, Node)>) -> bool {
    forall|i: int, j: int|
        0 <= i < j < entries.len() ==> #[trigger] lex_less(entries[i].0, entries[j].0)
}

/// The entries after `key` was given the value `value`: an entry of that key
/// is replaced, a new one takes its place in key order.
pub open spec fn put(entries: Seq<(Seq<u8>, Node)>, key: Seq<u8>, value: Node) -> Seq<
    (Seq<u8>, Node),
>
    decreases entries.len(),
{
    if entries.len() == 0 || lex_less(key, entries[0].0) {
        seq![(key, value)] + entries
    } else if entries[0].0 == key {
        entries.update(0, (key, value))
    } else {
        seq![entries[0]] + put(entries.skip(1), key, value)
    }
}

/// The value of `key`.
pub open spec fn lookup(entries: Seq<(Seq<u8>, Node)>, key: Seq<u8>) -> Option<Node>
    decreases entries.len(),
{
    if entries.len() == 0 {
        None
    } else if entries[0].0 == key {
        Some(entries[0].1)
    } else {
        lookup(entries.skip(1), key)
    }
}

/// Reads `i`, an integer in decimal, `e`.
pub open spec fn decode_integer(text: Seq<u8>) -> Result<(Node, int), BEncodeNodeParseError> {
    match position(text, 0x65) {
        None => Err(BEncodeNodeParseError::UnexpectedEnd),
        Some(end) => {
            let token = text.subrange(1, end);
            if !ascii(token) {
                Err(BEncodeNodeParseError::InvalidASCIIInToken)
            } else {
                match integer(token) {
                    Some(i) => if isize::MIN <= i <= isize::MAX {
                        Ok((Node::Integer(i), end + 1))
                    } else {
                        Err(BEncodeNodeParseError::MalformedInteger)
                    },
                    None => Err(BEncodeNodeParseError::MalformedInteger),
                }
            }
        },
    }
}

/// Reads a length in decimal, `:`, and that many bytes. A length of zero counts
/// as two bytes read, however many digits it has.
pub open spec fn decode_bytestring(text: Seq<u8>) -> Result<(Node, int), BEncodeNodeParseError> {
    match position(text, 0x3a) {
        None => Err(BEncodeNodeParseError::UnexpectedEnd),
        Some(colon) => {
            let token = text.subrange(0, colon);
            if !ascii(token) {
                Err(BEncodeNodeParseError::InvalidASCIIInToken)
            } else {
                match natural(token) {
                    Some(n) => if n > usize::MAX {
                        Err(BEncodeNodeParseError::MalformedInteger)
                    } else if n == 0 {
                        Ok((Node::ByteString(Seq::empty()), 2))
                    } else if text.len() < colon + 1 + n {
                        Err(BEncodeNodeParseError::UnexpectedEnd)
                    } else {
                        Ok(
                            (
                                Node::ByteString(text.subrange(colon + 1, colon + 1 + n)),
                                colon + 1 + n,
                            ),
                        )
                    },
                    None => Err(BEncodeNodeParseError::MalformedInteger),
                }
            }
        },
    }
}

/// Reads the value that `text` begins with, and says how many bytes it took.
pub open spec fn decode_node(text: Seq<u8>) -> Result<(Node, int), BEncodeNodeParseError>
    decreases text.len(), 0nat,
{
    if text.len() == 0 {
        Err(BEncodeNodeParseError::Other)
    } else if text[0] == 0x69 {
        decode_integer(text)
    } else if is_digit(text[0]) {
        decode_bytestring(text)
    } else if text[0] == 0x6c {
        match decode_list(text.skip(1)) {
            Ok((items, used)) => Ok((Node::List(items), used + 2)),
            Err(e) => Err(e),
        }
    } else if text[0] == 0x64 {
        match decode_dict(text.skip(1), Seq::empty()) {
            Ok((entries, used)) => Ok((Node::Dict(entries), used + 2)),
            Err(e) => Err(e),
        }
    } else if text[0] == 0x65 {
        Err(BEncodeNodeParseError::DanglingEndMarker)
    } else {
        Err(BEncodeNodeParseError::Other)
    }
}

/// Reads values until an end marker stands where a value is due, which ends the
/// list and is not counted.
pub open spec fn decode_list(text: Seq<u8>) -> Result<(Seq<Node>, int), BEncodeNodeParseError>
    decreases text.len(), 1nat,
{
    if text.len() == 0 {
        Err(BEncodeNodeParseError::UnexpectedEnd)
    } else if text[0] == 0x65 {
        Ok((Seq::empty(), 0))
    } else {
        match decode_node(text) {
            Ok((node, used)) => if 0 < used <= text.len() {
                match decode_list(text.skip(used)) {
                    Ok((items, more)) => Ok((seq![node] + items, used + more)),
                    Err(e) => Err(e),
                }
            } else {
                Err(BEncodeNodeParseError::Other)
            },
            Err(e) => Err(e),
        }
    }
}

/// Reads keys and values until an end marker stands where a key is due, which
/// ends the dictionary and is not counted. Each pair is added to `entries`.
pub open spec fn decode_dict(text: Seq<u8>, entries: Seq<(Seq<u8>, Node)>) -> Result<
    (Seq<(Seq<u8>, Node)>, int),
    BEncodeNodeParseError,
>
    decreases text.len(), 1nat,
{
    if text.len() == 0 {
        Err(BEncodeNodeParseError::UnexpectedEnd)
    } else if text[0] == 0x65 {
        Ok((entries, 0))
    } else {
        match decode_node(text) {
            Ok((Node::ByteString(key), used)) => if 0 < used <= text.len() {
                match decode_node(text.skip(used)) {
                    Ok((value, used2)) => if 0 < used2 <= text.len() - used {
                        match decode_dict(text.skip(used + used2), put(entries, key, value)) {
                            Ok((all, more)) => Ok((all, used + used2 + more)),
                            Err(e) => Err(e),
                        }
                    } else {
                        Err(BEncodeNodeParseError::Other)
                    },
                    Err(e) => Err(e),
                }
            } else {
                Err(BEncodeNodeParseError::Other)
            },
            Ok(_) => Err(BEncodeNodeParseError::InvalidDictKey),
            Err(e) => Err(e),
        }
    }
}

/// Reads a text that is one value and nothing more.
pub open spec fn decode(text: Seq<u8>) -> Result<Node, BEncodeNodeParseError> {
    match decode_node(text) {
        Ok((node, used)) => if used == text.len() {
            Ok(node)
        } else {
            Err(BEncodeNodeParseError::ExcessInput)
        },
        Err(e) => Err(e),
    }
}

/// Writes a value.
pub open spec fn encode(node: Node) -> Seq<u8>
    decreases node,
{
    match node {
        Node::Integer(i) => seq![0x69u8] + decimal_int(i) + seq![0x65u8],
        Node::ByteString(s) => encode_bytestring(s),
        Node::List(items) => seq![0x6cu8] + encode_items(items) + seq![0x65u8],
        Node::Dict(entries) => seq![0x64u8] + encode_entries(entries) + seq![0x65u8],
    }
}

/// Writes a byte string: its length, a colon, the bytes.
pub open spec fn encode_bytestring(s: Seq<u8>) -> Seq<u8> {
    decimal_nat(s.len()) + seq![0x3au8] + s
}

/// Writes the items of a list one after the other.
pub open spec fn encode_items(items: Seq<Node>) -> Seq<u8>
    decreases items,
{
    if items.len() == 0 {
        Seq::empty()
    } else {
        encode(items[0]) + encode_items(items.subrange(1, items.len() as int))
    }
}

/// Writes the entries of a dictionary one after the other, each key before its value.
pub open spec fn encode_entries(entries: Seq<(Seq<u8>, Node)>) -> Seq<u8>
    decreases entries,
{
    if entries.len() == 0 {
        Seq::empty()
    } else {
        encode_bytestring(entries[0].0) + encode(entries[0].1) + encode_entries(
            entries.subrange(1, entries.len() as int),
        )
    }
}

/// A value that was read took at least two bytes, and no more than there are;
/// what a list or a dictionary took leaves room for its end marker.
pub proof fn lemma_decode_bounds(text: Seq<u8>)
    ensures
        decode_node(text) matches Ok((_, used)) ==> 2 <= used <= text.len(),
        decode_list(text) matches Ok((_, used)) ==> 0 <= used < text.len(),
        forall|entries: Seq<(Seq<u8>, Node)>|
            (#[trigger] decode_dict(text, entries)) matches Ok((_, used)) ==> 0 <= used < text.len(),
    decreases text.len(),
{
    if text.len() > 0 {
        let rest = text.skip(1);
        lemma_decode_bounds(rest);
        lemma_position(text, 0x65);
        lemma_position(text, 0x3a);
        assert(decode_dict(rest, Seq::empty()) matches Ok((_, used)) ==> 0 <= used < rest.len());
        if text[0] == 0x69 {
            assert(decode_node(text) == decode_integer(text));
        } else if is_digit(text[0]) {
            assert(decode_node(text) == decode_bytestring(text));
        }
    }
    if let Ok((_, used)) = decode_node(text) {
        assert(2 <= used <= text.len());
        lemma_decode_bounds(text.skip(used));
        if let Ok((_, used2)) = decode_node(text.skip(used)) {
            assert(2 <= used2 <= text.len() - used);
            lemma_decode_bounds(text.skip(used + used2));
        }
    }
    assert forall|entries: Seq<(Seq<u8>, Node)>|
        (#[trigger] decode_dict(text, entries)) matches Ok((_, used)) ==> 0 <= used < text.len() by {
        match decode_node(text) {
            Ok((Node::ByteString(key), used)) => {
                match decode_node(text.skip(used)) {
                    Ok((value, used2)) => {
                        assert(decode_dict(
                            text.skip(used + used2),
                            put(entries, key, value),
                        ) matches Ok((_, more)) ==> 0 <= more < text.len() - used - used2);
                    },
                    Err(_) => {},
                }
            },
            _ => {},
        }
    }
}

/// What `put` does where every key before `i` is smaller than `key`, and the
/// key at `i`, if there is one, is not.
pub proof fn lemma_put_at(entries: Seq<(Seq<u8>, Node)>, key: Seq<u8>, value: Node, i: int)
    requires
        0 <= i <= entries.len(),
        forall|j: int| 0 <= j < i ==> lex_less(#[trigger] entries[j].0, key),
        i == entries.len() || entries[i].0 == key || lex_less(key, entries[i].0),
    ensures
        put(entries, key, value) == if i < entries.len() && entries[i].0 == key {
            entries.update(i, (key, value))
        } else {
            entries.insert(i, (key, value))
        },
    decreases entries.len(),
{
    if i == 0 {
        if entries.len() > 0 && entries[0].0 == key {
            lemma_lex_less_irreflexive(key);
        } else {
            assert(seq![(key, value)] + entries =~= entries.insert(0, (key, value)));
        }
    } else {
        assert(lex_less(entries[0].0, key));
        if lex_less(key, entries[0].0) {
            lemma_lex_less_transitive(key, entries[0].0, key);
        }
        lemma_lex_less_irreflexive(key);
        let rest = entries.skip(1);
        assert forall|j: int| 0 <= j < i - 1 implies lex_less(#[trigger] rest[j].0, key) by {
            assert(rest[j] == entries[j + 1]);
        }
        lemma_put_at(rest, key, value, i - 1);
        if i < entries.len() && entries[i].0 == key {
            assert(seq![entries[0]] + rest.update(i - 1, (key, value)) =~= entries.update(
                i,
                (key, value),
            ));
        } else {
            assert(seq![entries[0]] + rest.insert(i - 1, (key, value)) =~= entries.insert(
                i,
                (key, value),
            ));
        }
    }
}

/// There is a place for every key.
proof fn lemma_place(entries: Seq<(Seq<u8>, Node)>, key: Seq<u8>) -> (i: int)
    requires
        keys_increase(entries),
    ensures
        0 <= i <= entries.len(),
        forall|j: int| 0 <= j < i ==> lex_less(#[trigger] entries[j].0, key),
        i == entries.len() || entries[i].0 == key || lex_less(key, entries[i].0),
    decreases entries.len(),
{
    if entries.len() == 0 {
        0
    } else {
        let front = entries.drop_last();
        assert forall|i: int, j: int| 0 <= i < j < front.len() implies #[trigger] lex_less(
            front[i].0,
            front[j].0,
        ) by {
            assert(lex_less(entries[i].0, entries[j].0));
        }
        let i = lemma_place(front, key);
        assert forall|j: int| 0 <= j < i implies lex_less(#[trigger] entries[j].0, key) by {
            assert(front[j] == entries[j]);
        }
        if i < front.len() {
            i
        } else {
            lemma_lex_less_total(entries.last().0, key);
            if lex_less(entries.last().0, key) {
                entries.len() as int
            } else {
                i
            }
        }
    }
}

/// A dictionary in key order stays so when a key is given a value.
pub proof fn lemma_put_in_order(entries: Seq<(Seq<u8>, Node)>, key: Seq<u8>, value: Node)
    requires
        keys_increase(entries),
    ensures
        keys_increase(put(entries, key, value)),
{
    let at = lemma_place(entries, key);
    lemma_put_at(entries, key, value, at);
    let all = put(entries, key, value);
    let replaced = at < entries.len() && entries[at].0 == key;
    assert forall|i: int, j: int| 0 <= i < j < all.len() implies #[trigger] lex_less(
        all[i].0,
        all[j].0,
    ) by {
        let oi = if replaced || i < at {
            i
        } else {
            i - 1
        };
        let oj = if replaced || j < at {
            j
        } else {
            j - 1
        };
        if i == at {
            assert(all[i].0 == key);
            if replaced {
                assert(lex_less(entries[i].0, entries[j].0));
            } else {
                assert(all[j] == entries[j - 1]);
                if j - 1 > at {
                    assert(lex_less(entries[at].0, entries[j - 1].0));
                    lemma_lex_less_transitive(key, entries[at].0, entries[j - 1].0);
                }
            }
        } else if j == at {
            assert(lex_less(entries[i].0, key));
        } else {
            assert(lex_less(entries[oi].0, entries[oj].0));
        }
    }
}

/// The last value that a key was given is the one that is found, and no other
/// key is touched.
pub proof fn lemma_put_lookup(
    entries: Seq<(Seq<u8>, Node)>,
    key: Seq<u8>,
    value: Node,
    other: Seq<u8>,
)
    ensures
        lookup(put(entries, key, value), other) == if other == key {
            Some(value)
        } else {
            lookup(entries, other)
        },
    decreases entries.len(),
{
    let all = put(entries, key, value);
    if entries.len() == 0 || lex_less(key, entries[0].0) {
        assert(all.skip(1) =~= entries);
    } else if entries[0].0 == key {
        assert(all.skip(1) =~= entries.skip(1));
    } else {
        lemma_put_lookup(entries.skip(1), key, value, other);
        assert(all.skip(1) =~= put(entries.skip(1), key, value));
    }
}

/// In key order, looking a key up gives the value of the entry that holds it.
pub proof fn lemma_lookup_at(entries: Seq<(Seq<u8>, Node)>, i: int)
    requires
        keys_increase(entries),
        0 <= i < entries.len(),
    ensures
        lookup(entries, entries[i].0) == Some(entries[i].1),
    decreases entries.len(),
{
    if i > 0 {
        assert(lex_less(entries[0].0, entries[i].0));
        lemma_lex_less_irreflexive(entries[i].0);
        let rest = entries.skip(1);
        assert forall|a: int, b: int| 0 <= a < b < rest.len() implies #[trigger] lex_less(
            rest[a].0,
            rest[b].0,
        ) by {
            assert(lex_less(entries[a + 1].0, entries[b + 1].0));
        }
        lemma_lookup_at(rest, i - 1);
    }
}

/// A key that no entry holds is not found.
pub proof fn lemma_lookup_absent(entries: Seq<(Seq<u8>, Node)>, key: Seq<u8>)
    requires
        forall|i: int| 0 <= i < entries.len() ==> (#[trigger] entries[i]).0 != key,
    ensures
        lookup(entries, key) is None,
    decreases entries.len(),
{
    if entries.len() > 0 {
        let rest = entries.skip(1);
        assert forall|i: int| 0 <= i < rest.len() implies (#[trigger] rest[i]).0 != key by {
            assert(rest[i] == entries[i + 1]);
        }
        lemma_lookup_absent(rest, key);
    }
}

/// Items are written in turn: one more item adds its own text at the end.
pub proof fn lemma_encode_items_push(items: Seq<Node>, item: Node)
    ensures
        encode_items(items.push(item)) == encode_items(items) + encode(item),
    decreases items.len(),
{
    let all = items.push(item);
    if items.len() == 0 {
        assert(all.subrange(1, all.len() as int) =~= Seq::<Node>::empty());
        assert(encode_items(all.subrange(1, all.len() as int)) =~= Seq::<u8>::empty());
        assert(encode_items(all) =~= encode_items(items) + encode(item));
    } else {
        let rest = items.subrange(1, items.len() as int);
        lemma_encode_items_push(rest, item);
        assert(all.subrange(1, all.len() as int) =~= rest.push(item));
        assert(encode_items(all) =~= encode_items(items) + encode(item));
    }
}

/// Entries are written in turn: one more entry adds its own text at the end.
pub proof fn lemma_encode_entries_push(
    entries: Seq<(Seq<u8>, Node)>,
    key: Seq<u8>,
    value: Node,
)
    ensures
        encode_entries(entries.push((key, value))) == encode_entries(entries) + encode_bytestring(
            key,
        ) + encode(value),
    decreases entries.len(),
{
    let all = entries.push((key, value));
    if entries.len() == 0 {
        assert(all.subrange(1, all.len() as int) =~= Seq::<(Seq<u8>, Node)>::empty());
        assert(encode_entries(all.subrange(1, all.len() as int)) =~= Seq::<u8>::empty());
        assert(encode_entries(all) =~= encode_entries(entries) + encode_bytestring(key) + encode(
            value,
        ));
    } else {
        let rest = entries.subrange(1, entries.len() as int);
        lemma_encode_entries_push(rest, key, value);
        assert(all.subrange(1, all.len() as int) =~= rest.push((key, value)));
        assert(encode_entries(all) =~= encode_entries(entries) + encode_bytestring(key) + encode(
            value,
        ));
    }
}

/// The value fits the machine: integers an `isize`, lengths a `usize`; and
/// every dictionary is in key order.
pub open spec fn storable(node: Node) -> bool
    decreases node,
{
    match node {
        Node::Integer(i) => isize::MIN <= i <= isize::MAX,
        Node::ByteString(s) => s.len() <= usize::MAX,
        Node::List(items) => forall|i: int|
            0 <= i < items.len() ==> storable(#[trigger] items[i]),
        Node::Dict(entries) => {
            &&& keys_increase(entries)
            &&& forall|i: int|
                0 <= i < entries.len() ==> (#[trigger] entries[i]).0.len() <= usize::MAX
                    && storable(entries[i].1)
        },
    }
}

proof fn lemma_decode_bytestring_encode(s: Seq<u8>, tail: Seq<u8>)
    requires
        s.len() <= usize::MAX,
    ensures
        decode_node(encode_bytestring(s) + tail) == Ok::<_, BEncodeNodeParseError>(
            (Node::ByteString(s), encode_bytestring(s).len() as int),
        ),
{
    let digits = decimal_nat(s.len());
    let text = encode_bytestring(s) + tail;
    lemma_natural_of_decimal(s.len());
    assert(text[0] == digits[0] && is_digit(digits[0]));
    let colon = digits.len() as int;
    assert forall|j: int| 0 <= j < colon implies text[j] != 0x3a by {
        assert(text[j] == digits[j] && is_digit(digits[j]));
    }
    lemma_position_is(text, 0x3a, colon);
    assert(text.subrange(0, colon) =~= digits);
    assert forall|i: int| 0 <= i < digits.len() implies #[trigger] digits[i] < 0x80 by {
        assert(is_digit(digits[i]));
    }
    if s.len() == 0 {
        assert(s =~= Seq::<u8>::empty());
    } else {
        assert(text.subrange(colon + 1, colon + 1 + s.len()) =~= s);
    }
}

/// Reading what was written gives the value back, whatever comes after it.
pub proof fn lemma_decode_encode(node: Node, tail: Seq<u8>)
    requires
        storable(node),
    ensures
        decode_node(encode(node) + tail) == Ok::<_, BEncodeNodeParseError>(
            (node, encode(node).len() as int),
        ),
    decreases node,
{
    let text = encode(node) + tail;
    match node {
        Node::Integer(i) => {
            let d = decimal_int(i);
            lemma_integer_of_decimal(i);
            lemma_natural_of_decimal((if i < 0 {
                -i
            } else {
                i
            }) as nat);
            assert forall|j: int| 0 <= j < d.len() implies is_digit(#[trigger] d[j]) || d[j]
                == 0x2d by {
                if i < 0 && j > 0 {
                    assert(d[j] == decimal_nat((-i) as nat)[j - 1]);
                }
            }
            let end = 1 + d.len() as int;
            assert forall|j: int| 0 <= j < end implies text[j] != 0x65 by {
                if j > 0 {
                    assert(text[j] == d[j - 1]);
                }
            }
            lemma_position_is(text, 0x65, end);
            assert(text.subrange(1, end) =~= d);
        },
        Node::ByteString(s) => {
            lemma_decode_bytestring_encode(s, tail);
        },
        Node::List(items) => {
            lemma_decode_encode_items(items, tail);
            assert(text.skip(1) =~= encode_items(items) + seq![0x65u8] + tail);
        },
        Node::Dict(entries) => {
            assert(Seq::<(Seq<u8>, Node)>::empty() + entries =~= entries);
            lemma_decode_encode_entries(Seq::empty(), entries, tail);
            assert(text.skip(1) =~= encode_entries(entries) + seq![0x65u8] + tail);
        },
    }
}

proof fn lemma_decode_encode_items(items: Seq<Node>, tail: Seq<u8>)
    requires
        forall|i: int| 0 <= i < items.len() ==> storable(#[trigger] items[i]),
    ensures
        decode_list(encode_items(items) + seq![0x65u8] + tail) == Ok::<_, BEncodeNodeParseError>(
            (items, encode_items(items).len() as int),
        ),
    decreases items,
{
    let text = encode_items(items) + seq![0x65u8] + tail;
    if items.len() == 0 {
        assert(text[0] == 0x65);
        assert(items =~= Seq::<Node>::empty());
    } else {
        let rest = items.subrange(1, items.len() as int);
        assert forall|i: int| 0 <= i < rest.len() implies storable(#[trigger] rest[i]) by {
            assert(rest[i] == items[i + 1]);
        }
        let more = encode_items(rest) + seq![0x65u8] + tail;
        assert(text =~= encode(items[0]) + more);
        lemma_decode_encode(items[0], more);
        lemma_decode_encode_items(rest, tail);
        lemma_decode_bounds(text);
        assert(text.skip(encode(items[0]).len() as int) =~= more);
        assert(seq![items[0]] + rest =~= items);
    }
}

proof fn lemma_decode_encode_entries(
    done: Seq<(Seq<u8>, Node)>,
    entries: Seq<(Seq<u8>, Node)>,
    tail: Seq<u8>,
)
    requires
        keys_increase(done + entries),
        forall|i: int|
            0 <= i < entries.len() ==> (#[trigger] entries[i]).0.len() <= usize::MAX && storable(
                entries[i].1,
            ),
    ensures
        decode_dict(encode_entries(entries) + seq![0x65u8] + tail, done) == Ok::<
            _,
            BEncodeNodeParseError,
        >((done + entries, encode_entries(entries).len() as int)),
    decreases entries,
{
    let text = encode_entries(entries) + seq![0x65u8] + tail;
    if entries.len() == 0 {
        assert(text[0] == 0x65);
        assert(done + entries =~= done);
    } else {
        let (key, value) = entries[0];
        let rest = entries.subrange(1, entries.len() as int);
        assert forall|i: int| 0 <= i < rest.len() implies (#[trigger] rest[i]).0.len()
            <= usize::MAX && storable(rest[i].1) by {
            assert(rest[i] == entries[i + 1]);
        }
        let more = encode_entries(rest) + seq![0x65u8] + tail;
        let after_key = encode(value) + more;
        assert(text =~= encode_bytestring(key) + after_key);
        lemma_decode_bytestring_encode(key, after_key);
        lemma_decode_encode(value, more);
        lemma_decode_bounds(text);
        lemma_decode_bounds(after_key);
        let u1 = encode_bytestring(key).len() as int;
        let u2 = encode(value).len() as int;
        assert(text.skip(u1) =~= after_key);
        assert(text.skip(u1 + u2) =~= more);
        let all = done + entries;
        assert forall|j: int| 0 <= j < done.len() implies lex_less(#[trigger] done[j].0, key) by {
            assert(all[j] == done[j] && all[done.len() as int] == entries[0]);
            assert(lex_less(all[j].0, all[done.len() as int].0));
        }
        lemma_put_at(done, key, value, done.len() as int);
        let done2 = put(done, key, value);
        assert(done2 =~= done.push((key, value)));
        assert(done2 + rest =~= all);
        lemma_decode_encode_entries(done2, rest, tail);
        assert(decode_node(text) == Ok::<_, BEncodeNodeParseError>((Node::ByteString(key), u1)));
        assert(decode_node(text.skip(u1)) == Ok::<_, BEncodeNodeParseError>((value, u2)));
        let inner = encode_entries(rest).len() as int;
        assert(decode_dict(text.skip(u1 + u2), done2) == Ok::<_, BEncodeNodeParseError>(
            (all, inner),
        ));
        assert(decode_dict(text, done) == Ok::<_, BEncodeNodeParseError>((all, u1 + u2 + inner)));
    }
}

/// A text that was written reads as the value that it was written from, and
/// leaves nothing over.
pub proof fn lemma_decode_whole(node: Node)
    requires
        storable(node),
    ensures
        decode(encode(node)) == Ok::<_, BEncodeNodeParseError>(node),
{
    lemma_decode_encode(node, Seq::empty());
    assert(encode(node) + Seq::<u8>::empty() =~= encode(node));
}

/// No two values are written alike.
pub proof fn lemma_encode_injective(a: Node, b: Node)
    requires
        storable(a),
        storable(b),
        encode(a) == encode(b),
    ensures
        a == b,
{
    lemma_decode_whole(a);
    lemma_decode_whole(b);
}

/// The result says that something was read to its end: a value, or an end
/// marker that stood where a value is due.
pub open spec fn complete<T>(r: Result<T, BEncodeNodeParseError>) -> bool {
    r is Ok || r == Err::<T, _>(BEncodeNodeParseError::DanglingEndMarker)
}

proof fn lemma_position_prefix(text: Seq<u8>, tail: Seq<u8>, byte: u8)
    ensures
        position(text, byte) matches Some(i) ==> position(text + tail, byte) == Some(i),
{
    lemma_position(text, byte);
    if let Some(i) = position(text, byte) {
        lemma_position_is(text + tail, byte, i);
    }
}

/// What comes after a value has no part in how it is read.
pub proof fn lemma_decode_prefix(text: Seq<u8>, tail: Seq<u8>)
    ensures
        complete(decode_node(text)) ==> decode_node(text + tail) == decode_node(text),
        complete(decode_list(text)) ==> decode_list(text + tail) == decode_list(text),
        forall|entries: Seq<(Seq<u8>, Node)>| #[trigger]
            complete(decode_dict(text, entries)) ==> decode_dict(text + tail, entries)
                == decode_dict(text, entries),
    decreases text.len(),
{
    let whole = text + tail;
    lemma_decode_bounds(text);
    if text.len() > 0 {
        let rest = text.skip(1);
        assert(whole.skip(1) =~= rest + tail);
        lemma_decode_prefix(rest, tail);
        assert(complete(decode_dict(rest, Seq::empty())) ==> decode_dict(
            rest + tail,
            Seq::empty(),
        ) == decode_dict(rest, Seq::empty()));
        lemma_position(text, 0x65);
        lemma_position(text, 0x3a);
        lemma_position_prefix(text, tail, 0x65);
        lemma_position_prefix(text, tail, 0x3a);
        if let Some(end) = position(text, 0x65) {
            if end > 0 {
                assert(whole.subrange(1, end) =~= text.subrange(1, end));
            }
        }
        if let Some(colon) = position(text, 0x3a) {
            assert(whole.subrange(0, colon) =~= text.subrange(0, colon));
            if let Some(n) = natural(text.subrange(0, colon)) {
                if colon + 1 + n <= text.len() {
                    assert(whole.subrange(colon + 1, colon + 1 + n) =~= text.subrange(
                        colon + 1,
                        colon + 1 + n,
                    ));
                }
            }
        }
        assert(complete(decode_node(text)) ==> decode_node(whole) == decode_node(text));
    }
    if let Ok((node, used)) = decode_node(text) {
        let rest = text.skip(used);
        assert(whole.skip(used) =~= rest + tail);
        lemma_decode_prefix(rest, tail);
        lemma_decode_bounds(rest);
        if let Ok((value, used2)) = decode_node(rest) {
            let rest2 = text.skip(used + used2);
            assert(whole.skip(used + used2) =~= rest2 + tail);
            lemma_decode_prefix(rest2, tail);
        }
    }
    assert forall|entries: Seq<(Seq<u8>, Node)>| #[trigger]
        complete(decode_dict(text, entries)) implies decode_dict(whole, entries) == decode_dict(
        text,
        entries,
    ) by {
        match decode_node(text) {
            Ok((Node::ByteString(key), used)) => {
                match decode_node(text.skip(used)) {
                    Ok((value, used2)) => {
                        assert(complete(
                            decode_dict(text.skip(used + used2), put(entries, key, value)),
                        ));
                    },
                    Err(_) => {},
                }
            },
            _ => {},
        }
    }
}

} // verus!
