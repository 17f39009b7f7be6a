use drizzle::bencode::{BDict, BEncodeNode, BEncodeNodeParseError};

fn dict(entries: Vec<(Vec<u8>, BEncodeNode)>) -> BEncodeNode {
    let mut d = BDict::new();
    for (k, v) in entries {
        d.insert(k, v);
    }
    BEncodeNode::Dict(d)
}

fn bytes(s: &[u8]) -> BEncodeNode {
    BEncodeNode::ByteString(s.to_vec())
}

#[test]
fn test_parse_invalid_bencode() {
    assert_eq!(
        BEncodeNode::parse_node(b"this is not a valid bencoded string"),
        Err(BEncodeNodeParseError::Other)
    );
}

#[test]
fn test_parse_integer() {
    let i1 = BEncodeNode::Integer(42);
    let i2 = BEncodeNode::Integer(-42);
    let i3 = BEncodeNode::Integer(0);

    assert_eq!(BEncodeNode::parse_node(b"i42e"), Ok((i1, 4)));
    assert_eq!(BEncodeNode::parse_node(b"i-42e"), Ok((i2, 5)));
    assert_eq!(BEncodeNode::parse_node(b"i0e"), Ok((i3, 3)));
    assert_eq!(
        BEncodeNode::parse_node(b"ie"),
        Err(BEncodeNodeParseError::MalformedInteger)
    );
    assert_eq!(
        BEncodeNode::parse_node(b"i-42"),
        Err(BEncodeNodeParseError::UnexpectedEnd)
    );
    assert_eq!(
        BEncodeNode::parse_node(b"i-\xEB42"),
        Err(BEncodeNodeParseError::UnexpectedEnd)
    );
}

#[test]
fn test_parse_bytestring() {
    let s1 = BEncodeNode::ByteString(b"test".to_vec());
    let s2 = BEncodeNode::ByteString(b"".to_vec());
    let s3 = BEncodeNode::ByteString(b"lareputa".to_vec());
    let s4 = BEncodeNode::ByteString(b"lareputa".to_vec());

    assert_eq!(BEncodeNode::parse_node(b"4:test"), Ok((s1, 6)));
    assert_eq!(BEncodeNode::parse_node(b"0:"), Ok((s2, 2)));
    assert_eq!(BEncodeNode::parse_node(b"8:lareputa"), Ok((s3, 10)));
    assert_eq!(BEncodeNode::parse_node(b"8:lareputaaaaaaaaaaaa"), Ok((s4, 10)));
    assert_eq!(
        BEncodeNode::parse_node(b"8:lare"),
        Err(BEncodeNodeParseError::UnexpectedEnd)
    );
    assert_eq!(
        BEncodeNode::parse_node(b"84menos2:lare"),
        Err(BEncodeNodeParseError::MalformedInteger)
    );
}

#[test]
fn test_parse_list() {
    let i1 = BEncodeNode::Integer(42);
    let s3 = BEncodeNode::ByteString(b"lareputa".to_vec());
    let l1 = BEncodeNode::List(vec![s3, i1]);

    assert_eq!(BEncodeNode::parse_node(b"l8:lareputai42ee"), Ok((l1, 16)));
}

#[test]
fn test_parse_dict() {
    let k1 = b"bar".to_vec();
    let s1 = BEncodeNode::ByteString(b"spam".to_vec());
    let k2 = b"foo".to_vec();
    let i1 = BEncodeNode::Integer(42);
    let d1 = dict(vec![(k1.clone(), s1.clone()), (k2.clone(), i1.clone())]);

    assert_eq!(BEncodeNode::parse_node(b"d3:bar4:spam3:fooi42ee"), Ok((d1, 22)));
    assert_eq!(
        BEncodeNode::parse_node(b"d3:bar4:spami42e3:fooe"),
        Err(BEncodeNodeParseError::InvalidDictKey)
    );
}

#[test]
fn test_parse_excess_input() {
    let k1 = b"bar".to_vec();
    let s1 = BEncodeNode::ByteString(b"spam".to_vec());
    let k2 = b"foo".to_vec();
    let i1 = BEncodeNode::Integer(42);
    let d1 = dict(vec![(k1, s1), (k2, i1)]);

    assert_eq!(
        BEncodeNode::parse(b"d3:bar4:spam3:fooi42eeTHISISTOOMUCHTEXT"),
        Err(BEncodeNodeParseError::ExcessInput)
    );
    assert_eq!(BEncodeNode::parse(b"d3:bar4:spam3:fooi42ee"), Ok(d1));
}

#[test]
fn test_render_plain() {
    let i1 = BEncodeNode::Integer(42);
    let s1 = BEncodeNode::ByteString(b"lareputa".to_vec());

    let i2 = BEncodeNode::Integer(42);
    let s2 = BEncodeNode::ByteString(b"lareputa".to_vec());
    let l1 = BEncodeNode::List(vec![s2, i2]);

    let k1 = b"bar".to_vec();
    let v1 = BEncodeNode::ByteString(b"spam".to_vec());
    let k2 = b"foo".to_vec();
    let v2 = BEncodeNode::Integer(42);
    let d1 = dict(vec![(k1, v1), (k2, v2)]);

    assert_eq!("42", i1.render_plain());
    assert_eq!("lareputa", s1.render_plain());
    assert_eq!("[lareputa, 42]", l1.render_plain());
    assert_eq!("{bar: spam, foo: 42}", d1.render_plain());
}

#[test]
fn every_error_has_an_input() {
    let e = |text: &[u8]| BEncodeNode::parse(text).unwrap_err();
    assert_eq!(e(b"e"), BEncodeNodeParseError::DanglingEndMarker);
    assert_eq!(e(b"i\xff1e"), BEncodeNodeParseError::InvalidASCIIInToken);
    assert_eq!(e(b"1\xc3\xa9:a"), BEncodeNodeParseError::InvalidASCIIInToken);
    assert_eq!(e(b"5:abc"), BEncodeNodeParseError::UnexpectedEnd);
    assert_eq!(e(b"i1e "), BEncodeNodeParseError::ExcessInput);
    assert_eq!(e(b"i 1e"), BEncodeNodeParseError::MalformedInteger);
    assert_eq!(e(b"di1ei2ee"), BEncodeNodeParseError::InvalidDictKey);
    assert_eq!(e(b""), BEncodeNodeParseError::Other);
}

#[test]
fn a_list_or_dictionary_needs_its_end() {
    let e = |text: &[u8]| BEncodeNode::parse_node(text).unwrap_err();
    assert_eq!(e(b"li42e"), BEncodeNodeParseError::UnexpectedEnd);
    assert_eq!(e(b"l"), BEncodeNodeParseError::UnexpectedEnd);
    assert_eq!(e(b"d"), BEncodeNodeParseError::UnexpectedEnd);
    assert_eq!(e(b"d3:bar4:spam"), BEncodeNodeParseError::UnexpectedEnd);
    assert_eq!(e(b"lle"), BEncodeNodeParseError::UnexpectedEnd);
    assert_eq!(BEncodeNode::parse_list(b""), Err(BEncodeNodeParseError::UnexpectedEnd));
    assert_eq!(BEncodeNode::parse_dict(b""), Err(BEncodeNodeParseError::UnexpectedEnd));
    assert_eq!(BEncodeNode::parse_list(b"e"), Ok((vec![], 0)));
    assert_eq!(BEncodeNode::parse_dict(b"e"), Ok((BDict::new(), 0)));
    assert_eq!(e(b"d3:foo"), BEncodeNodeParseError::Other);
}

#[test]
fn numbers_at_their_limits() {
    let text = format!("i{}e", isize::MAX);
    assert_eq!(
        BEncodeNode::parse(text.as_bytes()),
        Ok(BEncodeNode::Integer(isize::MAX))
    );
    let text = format!("i{}e", isize::MIN);
    assert_eq!(
        BEncodeNode::parse(text.as_bytes()),
        Ok(BEncodeNode::Integer(isize::MIN))
    );
    let text = format!("i{}e", isize::MAX as i128 + 1);
    assert_eq!(
        BEncodeNode::parse(text.as_bytes()),
        Err(BEncodeNodeParseError::MalformedInteger)
    );
    assert_eq!(BEncodeNode::parse(b"i+7e"), Ok(BEncodeNode::Integer(7)));
    assert_eq!(BEncodeNode::parse(b"i-007e"), Ok(BEncodeNode::Integer(-7)));
    let text = format!("{}:", usize::MAX);
    assert_eq!(
        BEncodeNode::parse(text.as_bytes()),
        Err(BEncodeNodeParseError::UnexpectedEnd)
    );
}

#[test]
fn a_length_of_zero_takes_two_bytes() {
    assert_eq!(BEncodeNode::parse_node(b"00:"), Ok((bytes(b""), 2)));
    assert_eq!(
        BEncodeNode::parse(b"00:"),
        Err(BEncodeNodeParseError::ExcessInput)
    );
}

#[test]
fn a_key_without_a_value_is_an_error_wherever_it_stands() {
    let dangling = BEncodeNodeParseError::DanglingEndMarker;
    assert_eq!(BEncodeNode::parse(b"d3:fooe"), Err(dangling));
    assert_eq!(BEncodeNode::parse_node(b"ld3:fooee"), Err(dangling));
    assert_eq!(BEncodeNode::parse(b"lld3:fooe"), Err(dangling));
    assert_eq!(BEncodeNode::parse(b"d1:ad3:fooee"), Err(dangling));
}

#[test]
fn the_inner_part_of_a_list_and_a_dictionary_is_counted() {
    let (items, used) = BEncodeNode::parse_list(b"8:lareputai42ee").unwrap();
    assert_eq!(items, vec![bytes(b"lareputa"), BEncodeNode::Integer(42)]);
    assert_eq!(used, 14);
    let (entries, used) = BEncodeNode::parse_dict(b"3:bar4:spam3:fooi42ee").unwrap();
    assert_eq!(entries.get(b"bar"), Some(&bytes(b"spam")));
    assert_eq!(used, 20);
}

#[test]
fn the_last_value_of_a_key_counts() {
    let d = BEncodeNode::parse(b"d1:ai1e1:ai2ee").unwrap();
    assert_eq!(d.get_dict(b"a"), Some(&BEncodeNode::Integer(2)));
    assert_eq!(d.emit(), b"d1:ai2ee".to_vec());
}

#[test]
fn what_was_emitted_is_parsed_back() {
    let inner = dict(vec![
        (b"zz".to_vec(), BEncodeNode::Integer(-15)),
        (b"".to_vec(), bytes(b"\x00\xff")),
        (b"a".to_vec(), BEncodeNode::List(vec![])),
    ]);
    let node = BEncodeNode::List(vec![inner, BEncodeNode::Integer(0), bytes(b"12:")]);
    let text = node.emit();
    assert_eq!(text, b"ld0:2:\x00\xff1:ale2:zzi-15eei0e3:12:e".to_vec());
    assert_eq!(BEncodeNode::parse(&text), Ok(node));
}

#[test]
fn what_follows_a_value_has_no_part_in_it() {
    let (node, used) = BEncodeNode::parse_node(b"l1:ai7ee").unwrap();
    assert_eq!(BEncodeNode::parse_node(b"l1:ai7eeXYZ"), Ok((node, used)));
}

#[test]
fn looking_inside() {
    let d = BEncodeNode::parse(b"d4:infod6:lengthi7ee5:filesl1:x1:yee").unwrap();
    assert_eq!(
        d.get_dict(b"info").unwrap().get_dict(b"length"),
        Some(&BEncodeNode::Integer(7))
    );
    assert_eq!(d.get_dict(b"nothing"), None);
    assert_eq!(d.get_list(0), None);
    let files = d.get_dict(b"files").unwrap();
    assert_eq!(files.get_list(1), Some(&bytes(b"y")));
    assert_eq!(files.get_list(2), None);
    assert_eq!(files.get_dict(b"x"), None);
    assert_eq!(d[b"files".as_slice()][0], bytes(b"x"));
}

#[test]
fn a_clone_is_equal() {
    let d = dict(vec![(b"k".to_vec(), BEncodeNode::List(vec![bytes(b"v")]))]);
    assert_eq!(d.clone(), d);
}

#[test]
fn only_text_is_rendered() {
    assert_eq!(BEncodeNode::render_bytestring(b"a\x00b\xff c\x7f~\n\x0b"), "ab c~\n");
    let d = dict(vec![
        (b"pieces".to_vec(), bytes(b"visible")),
        (b"name\x01".to_vec(), bytes(b"x\x80y")),
    ]);
    assert_eq!(d.render_plain(), "{name: xy, pieces: <OUTPUT SUPPRESSED>}");
    let other = dict(vec![
        (b"pieces".to_vec(), BEncodeNode::Integer(3)),
        (b"name\x01".to_vec(), bytes(b"x\x80y")),
    ]);
    assert_eq!(d.render_plain(), other.render_plain());
    assert_eq!(BEncodeNode::List(vec![]).render_plain(), "[]");
    assert_eq!(BEncodeNode::Integer(isize::MIN).render_plain(), isize::MIN.to_string());
}

#[test]
fn keys_are_rendered_in_order() {
    let d = dict(vec![
        (b"b".to_vec(), BEncodeNode::Integer(1)),
        (b"ab".to_vec(), BEncodeNode::Integer(2)),
        (b"a".to_vec(), BEncodeNode::Integer(3)),
    ]);
    assert_eq!(d.render_plain(), "{a: 3, ab: 2, b: 1}");
}

#[test]
fn a_dictionary_can_be_counted_and_walked() {
    let mut d = BDict::new();
    assert_eq!(d.len(), 0);
    assert_eq!(d.entry(0), None);
    d.insert(b"foo".to_vec(), BEncodeNode::Integer(1));
    d.insert(b"bar".to_vec(), BEncodeNode::Integer(2));
    d.insert(b"foo".to_vec(), BEncodeNode::Integer(3));
    assert_eq!(d.len(), 2);
    assert_eq!(d.entry(0), Some((b"bar".as_slice(), &BEncodeNode::Integer(2))));
    assert_eq!(d.entry(1), Some((b"foo".as_slice(), &BEncodeNode::Integer(3))));
    assert_eq!(d.entry(2), None);
}
