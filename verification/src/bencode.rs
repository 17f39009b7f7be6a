//! Bencoded values: reading, writing, looking inside and rendering for people.

use vstd::prelude::*;
use vstd::slice::{slice_subrange, slice_to_vec};

use crate::bytes::{
    append_bytes, bytes_are_ascii, bytes_equal, bytes_less, find_byte, lemma_lex_less_total,
    lemma_position, lex_less,
};
use crate::decimal::{read_isize, read_usize, write_isize, write_usize};
use crate::grammar::{
    decode, decode_bytestring, decode_dict, decode_integer, decode_list, decode_node, encode,
    encode_bytestring, encode_entries, encode_items, keys_increase, lemma_decode_bounds,
    lemma_decode_whole, lemma_encode_entries_push, lemma_encode_items_push, lemma_lookup_absent,
    lemma_lookup_at, lemma_put_at, lemma_put_in_order, lookup, put, storable, Node,
};
use crate::outside::{join, texts};
use crate::render::{
    ascii_string, pieces_key, rendered, rendered_entries, rendered_items, shown, shown_string,
};

verus! {

/// A bencoded value.
#[derive(Debug, PartialEq)]
pub enum BEncodeNode {
    Integer(isize),
    ByteString(Vec<u8>),
    List(Vec<BEncodeNode>),
    Dict(BDict),
}

/// The entries of a dictionary: no key occurs twice, and they stand in key order.
#[derive(Debug, PartialEq)]
pub struct BDict {
    entries: Vec<(Vec<u8>, BEncodeNode)>,
}

/// Why a text could not be read.
#[derive(Debug, PartialEq, Eq, Structural, Clone, Copy)]
pub enum BEncodeNodeParseError {
    /// An `e` stands where a value is due, and ends no list and no dictionary.
    DanglingEndMarker,
    /// The bytes of a number are not characters of ASCII.
    InvalidASCIIInToken,
    /// A mark is looked for, usually the `e` that ends a number, a list or a
    /// dictionary, and the text ends before it; or it ends before all the bytes
    /// of a byte string.
    UnexpectedEnd,
    /// The text goes on after the end of a value.
    ExcessInput,
    /// The bytes of a number are not a number, or not one that fits.
    MalformedInteger,
    /// A key of a dictionary is not a byte string.
    InvalidDictKey,
    /// A value is due, and there is nothing, or nothing that a value begins with.
    Other,
}

impl BEncodeNode {
    /// The value itself, apart from how it is stored.
    pub open spec fn node(self) -> Node
        decreases self,
    {
        match self {
            BEncodeNode::Integer(i) => Node::Integer(i as int),
            BEncodeNode::ByteString(s) => Node::ByteString(s@),
            BEncodeNode::List(l) => Node::List(
                Seq::new(
                    l@.len(),
                    |i: int|
                        if 0 <= i < l@.len() {
                            l@[i].node()
                        } else {
                            arbitrary()
                        },
                ),
            ),
            BEncodeNode::Dict(d) => Node::Dict(d.nodes()),
        }
    }
}

impl View for BEncodeNode {
    type V = Node;

    open spec fn view(&self) -> Node {
        self.node()
    }
}

impl BDict {
    /// The entries themselves, apart from how they are stored.
    pub closed spec fn nodes(self) -> Seq<(Seq<u8>, Node)>
        decreases self,
    {
        Seq::new(
            self.entries@.len(),
            |i: int|
                if 0 <= i < self.entries@.len() {
                    (self.entries@[i].0@, self.entries@[i].1.node())
                } else {
                    arbitrary()
                },
        )
    }
}

impl View for BDict {
    type V = Seq<(Seq<u8>, Node)>;

    open spec fn view(&self) -> Seq<(Seq<u8>, Node)> {
        self.nodes()
    }
}

/// The values that stand in a vector.
pub open spec fn nodes_of(l: Seq<BEncodeNode>) -> Seq<Node> {
    Seq::new(l.len(), |i: int| l[i]@)
}

/// A list holds the values that stand in its vector.
pub proof fn lemma_list_view(l: Vec<BEncodeNode>)
    ensures
        BEncodeNode::List(l)@ == Node::List(nodes_of(l@)),
{
    assert(BEncodeNode::List(l)@->List_0 =~= nodes_of(l@));
}

impl BDict {
    #[verifier::type_invariant]
    spec fn in_key_order(self) -> bool {
        keys_increase(self@)
    }

    /// A dictionary without entries.
    pub fn new() -> (r: Self)
        ensures
            r@ == Seq::<(Seq<u8>, Node)>::empty(),
    {
        let r = BDict { entries: Vec::new() };
        assert(r@ =~= Seq::<(Seq<u8>, Node)>::empty());
        r
    }

    /// Gives `key` the value `value`, in place of the one it had.
    pub fn insert(&mut self, key: Vec<u8>, value: BEncodeNode)
        ensures
            final(self)@ == put(old(self)@, key@, value@),
    {
        proof {
            use_type_invariant(&*self);
        }
        let ghost before = self@;
        let mut entries: Vec<(Vec<u8>, BEncodeNode)> = Vec::new();
        std::mem::swap(&mut entries, &mut self.entries);
        let mut i: usize = 0;
        while i < entries.len() && bytes_less(entries[i].0.as_slice(), key.as_slice())
            invariant
                i <= entries@.len(),
                before.len() == entries@.len(),
                forall|j: int|
                    #![trigger before[j]]
                    0 <= j < entries@.len() ==> before[j] == (entries@[j].0@, entries@[j].1@),
                forall|j: int| 0 <= j < i ==> lex_less(#[trigger] before[j].0, key@),
            decreases entries@.len() - i,
        {
            i += 1;
        }
        proof {
            if i < entries@.len() {
                lemma_lex_less_total(before[i as int].0, key@);
            }
            lemma_put_at(before, key@, value@, i as int);
            lemma_put_in_order(before, key@, value@);
        }
        let ghost new = put(before, key@, value@);
        if i < entries.len() && bytes_equal(entries[i].0.as_slice(), key.as_slice()) {
            entries[i] = (key, value);
        } else {
            entries.insert(i, (key, value));
        }
        assert((BDict { entries })@ =~= new);
        self.entries = entries;
    }

    /// The number of entries.
    pub fn len(&self) -> (r: usize)
        ensures
            r == self@.len(),
    {
        self.entries.len()
    }

    /// The key and the value of the entry at `i`, if there are so many. The
    /// entries stand in key order.
    pub fn entry(&self, i: usize) -> (r: Option<(&[u8], &BEncodeNode)>)
        ensures
            keys_increase(self@),
            match r {
                Some((key, value)) => i < self@.len() && self@[i as int] == (key@, value@),
                None => i >= self@.len(),
            },
    {
        proof {
            use_type_invariant(&*self);
        }
        if i < self.entries.len() {
            Some((self.entries[i].0.as_slice(), &self.entries[i].1))
        } else {
            None
        }
    }

    /// The value of `key`. The entries stand in key order.
    pub fn get(&self, key: &[u8]) -> (r: Option<&BEncodeNode>)
        ensures
            keys_increase(self@),
            lookup(self@, key@) == (match r {
                Some(node) => Some(node@),
                None => None,
            }),
            match r {
                Some(node) => self@.contains((key@, node@)),
                None => forall|i: int| 0 <= i < self@.len() ==> (#[trigger] self@[i]).0 != key@,
            },
    {
        proof {
            use_type_invariant(&*self);
        }
        let mut i: usize = 0;
        while i < self.entries.len()
            invariant
                i <= self.entries@.len(),
                keys_increase(self@),
                forall|j: int| 0 <= j < i ==> (#[trigger] self@[j]).0 != key@,
            decreases self.entries@.len() - i,
        {
            if bytes_equal(self.entries[i].0.as_slice(), key) {
                proof {
                    lemma_lookup_at(self@, i as int);
                    assert(self@[i as int] == (key@, self.entries@[i as int].1@));
                }
                return Some(&self.entries[i].1);
            }
            i += 1;
        }
        proof {
            lemma_lookup_absent(self@, key@);
        }
        None
    }
}

/// What a reader that works on bytes returned, in terms of the grammar.
pub open spec fn read_result(r: Result<(BEncodeNode, usize), BEncodeNodeParseError>) -> Result<
    (Node, int),
    BEncodeNodeParseError,
> {
    match r {
        Ok((node, used)) => Ok((node@, used as int)),
        Err(e) => Err(e),
    }
}

impl BEncodeNode {
    /// The value of the key `index`, if this is a dictionary that has it.
    pub fn get_dict(&self, index: &[u8]) -> (r: Option<&Self>)
        ensures
            (match self@ {
                Node::Dict(entries) => lookup(entries, index@),
                _ => None,
            }) == (match r {
                Some(node) => Some(node@),
                None => None,
            }),
            match (self@, r) {
                (Node::Dict(entries), Some(node)) => entries.contains((index@, node@)),
                (Node::Dict(entries), None) => forall|i: int|
                    0 <= i < entries.len() ==> (#[trigger] entries[i]).0 != index@,
                _ => r is None,
            },
    {
        if let BEncodeNode::Dict(d) = self {
            d.get(index)
        } else {
            None
        }
    }

    /// The item at `index`, if this is a list that goes so far.
    pub fn get_list(&self, index: usize) -> (r: Option<&Self>)
        ensures
            (match self@ {
                Node::List(items) => if index < items.len() {
                    Some(items[index as int])
                } else {
                    None
                },
                _ => None,
            }) == (match r {
                Some(node) => Some(node@),
                None => None,
            }),
    {
        if let BEncodeNode::List(l) = self {
            proof {
                lemma_list_view(*l);
            }
            if index < l.len() {
                Some(&l[index])
            } else {
                None
            }
        } else {
            None
        }
    }

    /// Reads a text that is one value and nothing more.
    pub fn parse(text: &[u8]) -> (r: Result<BEncodeNode, BEncodeNodeParseError>)
        ensures
            (match r {
                Ok(node) => Ok(node@),
                Err(e) => Err(e),
            }) == decode(text@),
            match r {
                Ok(node) => decode_node(text@) == Ok::<_, BEncodeNodeParseError>(
                    (node@, text@.len() as int),
                ),
                Err(e) => match decode_node(text@) {
                    Ok((_, used)) => used < text@.len() && e is ExcessInput,
                    Err(f) => e == f,
                },
            },
    {
        proof {
            lemma_decode_bounds(text@);
        }
        match Self::parse_node(text) {
            Ok((node, count)) => if text.len() == count {
                Ok(node)
            } else {
                Err(BEncodeNodeParseError::ExcessInput)
            },
            Err(e) => Err(e),
        }
    }

    /// Reads the value that `text` begins with, and says how many bytes it took.
    pub fn parse_node(text: &[u8]) -> (r: Result<(BEncodeNode, usize), BEncodeNodeParseError>)
        ensures
            read_result(r) == decode_node(text@),
            match r {
                Ok((node, used)) => decode_node(text@) == Ok::<_, BEncodeNodeParseError>(
                    (node@, used as int),
                ),
                Err(e) => decode_node(text@) == Err::<(Node, int), _>(e),
            },
        decreases text@.len(), 0nat,
    {
        if text.len() < 1 {
            return Err(BEncodeNodeParseError::Other);
        }
        let first = text[0];
        proof {
            lemma_decode_bounds(text@);
        }
        if first == 0x69 {
            Self::parse_integer(text)
        } else if 0x30 <= first && first <= 0x39 {
            Self::parse_bytestring(text)
        } else if first == 0x6c {
            match Self::parse_list(slice_subrange(text, 1, text.len())) {
                Ok((items, used)) => {
                    proof {
                        lemma_list_view(items);
                    }
                    Ok((BEncodeNode::List(items), used + 2))
                },
                Err(e) => Err(e),
            }
        } else if first == 0x64 {
            match Self::parse_dict(slice_subrange(text, 1, text.len())) {
                Ok((entries, used)) => Ok((BEncodeNode::Dict(entries), used + 2)),
                Err(e) => Err(e),
            }
        } else if first == 0x65 {
            Err(BEncodeNodeParseError::DanglingEndMarker)
        } else {
            Err(BEncodeNodeParseError::Other)
        }
    }

    fn parse_integer(text: &[u8]) -> (r: Result<(BEncodeNode, usize), BEncodeNodeParseError>)
        requires
            text@.len() > 0,
            text@[0] == 0x69,
        ensures
            read_result(r) == decode_integer(text@),
    {
        proof {
            assert(text.len() == text@.len());
            lemma_position(text@, 0x65);
        }
        let end = match find_byte(text, 0x65) {
            Some(end) => end,
            None => {
                return Err(BEncodeNodeParseError::UnexpectedEnd);
            },
        };
        let token = slice_subrange(text, 1, end);
        if !bytes_are_ascii(token) {
            return Err(BEncodeNodeParseError::InvalidASCIIInToken);
        }
        match read_isize(token) {
            Some(i) => Ok((BEncodeNode::Integer(i), end + 1)),
            None => Err(BEncodeNodeParseError::MalformedInteger),
        }
    }

    fn parse_bytestring(text: &[u8]) -> (r: Result<(BEncodeNode, usize), BEncodeNodeParseError>)
        ensures
            read_result(r) == decode_bytestring(text@),
    {
        proof {
            assert(text.len() == text@.len());
            lemma_position(text@, 0x3a);
        }
        let colon = match find_byte(text, 0x3a) {
            Some(colon) => colon,
            None => {
                return Err(BEncodeNodeParseError::UnexpectedEnd);
            },
        };
        let token = slice_subrange(text, 0, colon);
        if !bytes_are_ascii(token) {
            return Err(BEncodeNodeParseError::InvalidASCIIInToken);
        }
        match read_usize(token) {
            Some(len) => {
                if len == 0 {
                    let empty: Vec<u8> = Vec::new();
                    assert(empty@ =~= Seq::<u8>::empty());
                    return Ok((BEncodeNode::ByteString(empty), 2));
                }
                let begin: usize = colon + 1;
                if len > text.len() - begin {
                    return Err(BEncodeNodeParseError::UnexpectedEnd);
                }
                let payload = slice_to_vec(slice_subrange(text, begin, begin + len));
                Ok((BEncodeNode::ByteString(payload), begin + len))
            },
            None => Err(BEncodeNodeParseError::MalformedInteger),
        }
    }

    /// Reads the items of a list up to its end marker, which is not counted.
    pub fn parse_list(text: &[u8]) -> (r: Result<
        (Vec<BEncodeNode>, usize),
        BEncodeNodeParseError,
    >)
        ensures
            (match r {
                Ok((items, used)) => Ok((nodes_of(items@), used as int)),
                Err(e) => Err(e),
            }) == decode_list(text@),
        decreases text@.len(), 1nat,
    {
        let mut items: Vec<BEncodeNode> = Vec::new();
        let mut rest = text;
        let mut used: usize = 0;
        assert(text.len() == text@.len());
        assert(nodes_of(items@) =~= Seq::<Node>::empty());
        proof {
            if let Ok((more, n)) = decode_list(text@) {
                assert(Seq::<Node>::empty() + more =~= more);
            }
        }
        loop
            invariant
                text@.len() <= usize::MAX,
                used + rest@.len() == text@.len(),
                match decode_list(rest@) {
                    Ok((more, n)) => decode_list(text@) == Ok::<_, BEncodeNodeParseError>(
                        (nodes_of(items@) + more, used + n),
                    ),
                    Err(e) => decode_list(text@) == Err::<(Seq<Node>, int), _>(e),
                },
            decreases rest@.len(),
        {
            proof {
                lemma_decode_bounds(rest@);
            }
            if rest.len() == 0 {
                return Err(BEncodeNodeParseError::UnexpectedEnd);
            }
            if rest[0] == 0x65 {
                assert(nodes_of(items@) + Seq::<Node>::empty() =~= nodes_of(items@));
                return Ok((items, used));
            }
            match Self::parse_node(rest) {
                Ok((node, count)) => {
                    let ghost before = nodes_of(items@);
                    let ghost tail = rest@.skip(count as int);
                    items.push(node);
                    used += count;
                    rest = slice_subrange(rest, count, rest.len());
                    proof {
                        assert(rest@ =~= tail);
                        assert(nodes_of(items@) =~= before.push(node@));
                        if let Ok((more, n)) = decode_list(tail) {
                            assert(before + (seq![node@] + more) =~= before.push(node@) + more);
                        }
                    }
                },
                Err(e) => {
                    return Err(e);
                },
            }
        }
    }

    /// Reads the entries of a dictionary up to its end marker, which is not counted.
    pub fn parse_dict(text: &[u8]) -> (r: Result<(BDict, usize), BEncodeNodeParseError>)
        ensures
            (match r {
                Ok((entries, used)) => Ok((entries@, used as int)),
                Err(e) => Err(e),
            }) == decode_dict(text@, Seq::empty()),
        decreases text@.len(), 1nat,
    {
        let mut entries = BDict::new();
        let mut rest = text;
        let mut used: usize = 0;
        assert(text.len() == text@.len());
        loop
            invariant
                text@.len() <= usize::MAX,
                used + rest@.len() == text@.len(),
                match decode_dict(rest@, entries@) {
                    Ok((all, n)) => decode_dict(text@, Seq::empty()) == Ok::<
                        _,
                        BEncodeNodeParseError,
                    >((all, used + n)),
                    Err(e) => decode_dict(text@, Seq::empty()) == Err::<
                        (Seq<(Seq<u8>, Node)>, int),
                        _,
                    >(e),
                },
            decreases rest@.len(),
        {
            proof {
                lemma_decode_bounds(rest@);
            }
            if rest.len() == 0 {
                return Err(BEncodeNodeParseError::UnexpectedEnd);
            }
            if rest[0] == 0x65 {
                return Ok((entries, used));
            }
            match Self::parse_node(rest) {
                Ok((BEncodeNode::ByteString(key), count)) => {
                    let after_key = slice_subrange(rest, count, rest.len());
                    proof {
                        assert(after_key@ =~= rest@.skip(count as int));
                        lemma_decode_bounds(after_key@);
                    }
                    match Self::parse_node(after_key) {
                        Ok((value, count2)) => {
                            let ghost tail = rest@.skip(count + count2);
                            entries.insert(key, value);
                            used += count + count2;
                            rest = slice_subrange(after_key, count2, after_key.len());
                            assert(rest@ =~= tail);
                        },
                        Err(e) => {
                            return Err(e);
                        },
                    }
                },
                Ok(_) => {
                    return Err(BEncodeNodeParseError::InvalidDictKey);
                },
                Err(e) => {
                    return Err(e);
                },
            }
        }
    }

    /// Writes the value: the opposite of `parse`.
    pub fn emit(&self) -> (r: Vec<u8>)
        ensures
            r@ == encode(self@),
            storable(self@),
            decode(r@) == Ok::<_, BEncodeNodeParseError>(self@),
    {
        let mut out: Vec<u8> = Vec::new();
        self.emit_to(&mut out);
        proof {
            assert(out@ =~= encode(self@));
            lemma_decode_whole(self@);
        }
        out
    }

    fn emit_to(&self, out: &mut Vec<u8>)
        ensures
            final(out)@ == old(out)@ + encode(self@),
            storable(self@),
        decreases self,
    {
        match self {
            BEncodeNode::Integer(i) => {
                out.push(0x69);
                let digits = write_isize(*i);
                append_bytes(out, digits.as_slice());
                out.push(0x65);
                assert(out@ =~= old(out)@ + encode(self@));
            },
            BEncodeNode::ByteString(s) => {
                Self::emit_bytestring(s, out);
            },
            BEncodeNode::List(l) => {
                out.push(0x6c);
                proof {
                    lemma_list_view(*l);
                    assert(nodes_of(l@).take(0) =~= Seq::<Node>::empty());
                }
                let mut i: usize = 0;
                while i < l.len()
                    invariant
                        i <= l@.len(),
                        out@ == old(out)@ + seq![0x6cu8] + encode_items(
                            nodes_of(l@).take(i as int),
                        ),
                        *self == BEncodeNode::List(*l),
                        forall|j: int| 0 <= j < i ==> storable(#[trigger] nodes_of(l@)[j]),
                    decreases l@.len() - i,
                {
                    proof {
                        let list = self->List_0;
                        assert(decreases_to!(*self => list@[i as int]));
                    }
                    l[i].emit_to(out);
                    proof {
                        let items = nodes_of(l@);
                        assert(items.take(i + 1) =~= items.take(i as int).push(l@[i as int]@));
                        lemma_encode_items_push(items.take(i as int), l@[i as int]@);
                        assert(out@ =~= old(out)@ + seq![0x6cu8] + encode_items(items.take(i + 1)));
                    }
                    i += 1;
                }
                out.push(0x65);
                proof {
                    assert(nodes_of(l@).take(i as int) =~= nodes_of(l@));
                    assert(out@ =~= old(out)@ + encode(self@));
                }
            },
            BEncodeNode::Dict(d) => {
                out.push(0x64);
                d.emit_entries(out);
                out.push(0x65);
                assert(out@ =~= old(out)@ + encode(self@));
            },
        }
    }

    fn emit_bytestring(s: &Vec<u8>, out: &mut Vec<u8>)
        ensures
            final(out)@ == old(out)@ + encode_bytestring(s@),
            s@.len() <= usize::MAX,
    {
        let digits = write_usize(s.len());
        append_bytes(out, digits.as_slice());
        out.push(0x3a);
        append_bytes(out, s.as_slice());
        assert(out@ =~= old(out)@ + encode_bytestring(s@));
    }
}

impl BDict {
    fn emit_entries(&self, out: &mut Vec<u8>)
        ensures
            final(out)@ == old(out)@ + encode_entries(self@),
            storable(Node::Dict(self@)),
        decreases self,
    {
        proof {
            use_type_invariant(&*self);
            assert(self@.take(0) =~= Seq::<(Seq<u8>, Node)>::empty());
        }
        let mut i: usize = 0;
        while i < self.entries.len()
            invariant
                i <= self.entries@.len(),
                out@ == old(out)@ + encode_entries(self@.take(i as int)),
                forall|j: int|
                    0 <= j < i ==> (#[trigger] self@[j]).0.len() <= usize::MAX && storable(
                        self@[j].1,
                    ),
            decreases self.entries@.len() - i,
        {
            let ghost before = out@;
            BEncodeNode::emit_bytestring(&self.entries[i].0, out);
            self.entries[i].1.emit_to(out);
            proof {
                let (key, value) = self@[i as int];
                assert(self@.take(i + 1) =~= self@.take(i as int).push((key, value)));
                lemma_encode_entries_push(self@.take(i as int), key, value);
                assert(out@ =~= old(out)@ + encode_entries(self@.take(i + 1)));
            }
            i += 1;
        }
        assert(self@.take(i as int) =~= self@);
    }
}

impl BEncodeNode {
    /// A byte string as text: what cannot be shown is left out.
    pub fn render_bytestring(bs: &[u8]) -> (r: String)
        ensures
            r@ == shown(bs@),
    {
        shown_string(bs)
    }

    /// The value as text, for people: binary bytes and the value of `pieces`
    /// are left out. The entries of a dictionary come in key order.
    pub fn render_plain(&self) -> (r: String)
        ensures
            r@ == rendered(self@),
            self@ matches Node::Dict(entries) ==> keys_increase(entries),
        decreases self,
    {
        match self {
            BEncodeNode::Integer(i) => ascii_string(write_isize(*i).as_slice()),
            BEncodeNode::ByteString(s) => Self::render_bytestring(s.as_slice()),
            BEncodeNode::List(l) => {
                let mut parts: Vec<String> = Vec::new();
                let mut i: usize = 0;
                while i < l.len()
                    invariant
                        i <= l@.len(),
                        parts@.len() == i,
                        *self == BEncodeNode::List(*l),
                        forall|j: int|
                            0 <= j < i ==> (#[trigger] parts@[j])@ == rendered(l@[j]@),
                    decreases l@.len() - i,
                {
                    proof {
                        let list = self->List_0;
                        assert(decreases_to!(*self => list@[i as int]));
                    }
                    parts.push(l[i].render_plain());
                    i += 1;
                }
                let mut out = "[".to_owned();
                out.append(join(&parts, ", ").as_str());
                out.append("]");
                proof {
                    lemma_list_view(*l);
                    assert(texts(parts@) =~= rendered_items(nodes_of(l@)));
                }
                out
            },
            BEncodeNode::Dict(d) => {
                let parts = d.render_entries();
                let mut out = "{".to_owned();
                out.append(join(&parts, ", ").as_str());
                out.append("}");
                out
            },
        }
    }
}

impl BDict {
    fn render_entries(&self) -> (parts: Vec<String>)
        ensures
            texts(parts@) == rendered_entries(self@),
            keys_increase(self@),
        decreases self,
    {
        proof {
            use_type_invariant(&*self);
        }
        let suppressed: [u8; 6] = [0x70, 0x69, 0x65, 0x63, 0x65, 0x73];
        assert(suppressed@ =~= pieces_key());
        let mut parts: Vec<String> = Vec::new();
        let mut i: usize = 0;
        while i < self.entries.len()
            invariant
                i <= self.entries@.len(),
                parts@.len() == i,
                suppressed@ == pieces_key(),
                forall|j: int|
                    0 <= j < i ==> (#[trigger] parts@[j])@ == rendered_entries(self@)[j],
            decreases self.entries@.len() - i,
        {
            let key = &self.entries[i].0;
            if bytes_equal(key.as_slice(), suppressed.as_slice()) {
                parts.push("pieces: <OUTPUT SUPPRESSED>".to_owned());
            } else {
                let mut part = shown_string(key.as_slice());
                part.append(": ");
                part.append(self.entries[i].1.render_plain().as_str());
                parts.push(part);
            }
            i += 1;
        }
        assert(texts(parts@) =~= rendered_entries(self@));
        parts
    }
}

impl BEncodeNode {
    fn duplicate(&self) -> (r: Self)
        ensures
            r@ == self@,
        decreases self,
    {
        match self {
            BEncodeNode::Integer(i) => BEncodeNode::Integer(*i),
            BEncodeNode::ByteString(s) => BEncodeNode::ByteString(slice_to_vec(s.as_slice())),
            BEncodeNode::List(l) => {
                let mut items: Vec<BEncodeNode> = Vec::new();
                let mut i: usize = 0;
                while i < l.len()
                    invariant
                        i <= l@.len(),
                        items@.len() == i,
                        *self == BEncodeNode::List(*l),
                        forall|j: int| 0 <= j < i ==> (#[trigger] items@[j])@ == l@[j]@,
                    decreases l@.len() - i,
                {
                    proof {
                        let list = self->List_0;
                        assert(decreases_to!(*self => list@[i as int]));
                    }
                    items.push(l[i].duplicate());
                    i += 1;
                }
                proof {
                    lemma_list_view(*l);
                    lemma_list_view(items);
                    assert(nodes_of(items@) =~= nodes_of(l@));
                }
                BEncodeNode::List(items)
            },
            BEncodeNode::Dict(d) => BEncodeNode::Dict(d.duplicate()),
        }
    }
}

impl BDict {
    fn duplicate(&self) -> (r: Self)
        ensures
            r@ == self@,
        decreases self,
    {
        proof {
            use_type_invariant(&*self);
        }
        let mut entries: Vec<(Vec<u8>, BEncodeNode)> = Vec::new();
        let mut i: usize = 0;
        while i < self.entries.len()
            invariant
                i <= self.entries@.len(),
                entries@.len() == i,
                forall|j: int|
                    0 <= j < i ==> (#[trigger] entries@[j]).0@ == self.entries@[j].0@
                        && entries@[j].1@ == self.entries@[j].1@,
            decreases self.entries@.len() - i,
        {
            let key = slice_to_vec(self.entries[i].0.as_slice());
            let value = self.entries[i].1.duplicate();
            entries.push((key, value));
            i += 1;
        }
        assert((BDict { entries })@ =~= self@);
        BDict { entries }
    }
}

impl Clone for BEncodeNode {
    /// The same value once more.
    fn clone(&self) -> (r: Self)
        ensures
            r@ == self@,
    {
        self.duplicate()
    }
}

impl Clone for BDict {
    /// The same dictionary once more.
    fn clone(&self) -> (r: Self)
        ensures
            r@ == self@,
    {
        self.duplicate()
    }
}

impl vstd::std_specs::core::IndexSpecImpl<&[u8]> for BEncodeNode {
    /// This is a dictionary that has the key.
    open spec fn index_req(&self, index: &&[u8]) -> bool {
        self@ matches Node::Dict(entries) && lookup(entries, index@) is Some
    }
}

impl std::ops::Index<&[u8]> for BEncodeNode {
    type Output = BEncodeNode;

    /// The value of the key `index`.
    fn index(&self, index: &[u8]) -> (r: &BEncodeNode)
        ensures
            lookup(self@->Dict_0, index@) == Some(r@),
            self@->Dict_0.contains((index@, r@)),
    {
        match self.get_dict(index) {
            Some(node) => node,
            None => vstd::pervasive::unreached(),
        }
    }
}

impl vstd::std_specs::core::IndexSpecImpl<usize> for BEncodeNode {
    /// This is a list that goes so far.
    open spec fn index_req(&self, index: &usize) -> bool {
        self@ matches Node::List(items) && *index < items.len()
    }
}

impl std::ops::Index<usize> for BEncodeNode {
    type Output = BEncodeNode;

    /// The item at `index`.
    fn index(&self, index: usize) -> (r: &BEncodeNode)
        ensures
            r@ == self@->List_0[index as int],
    {
        match self.get_list(index) {
            Some(node) => node,
            None => vstd::pervasive::unreached(),
        }
    }
}

} // verus!
