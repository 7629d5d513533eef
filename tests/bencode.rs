use bittorrent::bencode::{decode, insert_entry, DecodeError, Value};
use bittorrent::decode_bencoded_value;
use bittorrent::display::{DisplayValue, EncodingError};

fn text(s: &str) -> Value {
    Value::Bytes(s.as_bytes().to_vec())
}

fn num(n: i64) -> Value {
    Value::from_i64(n)
}

fn list(items: Vec<Value>) -> Value {
    Value::List(items)
}

fn dict(pairs: Vec<(&str, Value)>) -> Value {
    let mut entries = Vec::new();
    for (k, v) in pairs {
        insert_entry(&mut entries, k.as_bytes().to_vec(), v);
    }
    Value::Dict(entries)
}

/******** String ********/
#[test]
fn decode_bencoded_value_string() {
    let encoded = "5:hello";
    let expected = text("hello");
    assert_eq!(decode_bencoded_value(encoded), Ok(expected));
}

#[test]
fn decode_bencoded_value_string_empty() {
    let encoded = "0:";
    let expected = text("");
    assert_eq!(decode_bencoded_value(encoded), Ok(expected));
}

#[test]
fn decode_bencoded_value_string_invalid_no_colon() {
    let encoded = "5hello";
    assert!(decode_bencoded_value(encoded).is_err());
}

#[test]
fn decode_bencoded_value_string_invalid_missing_length() {
    let encoded = "hello";
    assert!(decode_bencoded_value(encoded).is_err());
}

#[test]
fn decode_bencoded_value_string_invalid_bigger_length() {
    let encoded = "6:hello";
    assert!(decode_bencoded_value(encoded).is_err());
}

/******** Integer ********/
#[test]
fn decode_bencoded_value_integer() {
    let encoded = "i42e";
    let expected = num(42);
    assert_eq!(decode_bencoded_value(encoded), Ok(expected));
}

#[test]
fn decode_bencoded_value_integer_negative() {
    let encoded = "i-42e";
    let expected = num(-42);
    assert_eq!(decode_bencoded_value(encoded), Ok(expected));
}

#[test]
fn decode_bencoded_value_integer_zero() {
    let encoded = "i0e";
    let expected = num(0);
    assert_eq!(decode_bencoded_value(encoded), Ok(expected));
}

#[test]
fn decode_bencoded_value_integer_unterminated() {
    let encoded = "i42";
    assert!(decode_bencoded_value(encoded).is_err());
}

#[test]
fn decode_bencoded_value_integer_missing_start() {
    let encoded = "42e";
    assert!(decode_bencoded_value(encoded).is_err());
}

/******** List ********/
#[test]
fn decode_bencoded_value_list() {
    let encoded = "l5:hello2:woi42ee";
    let expected = list(vec![text("hello"), text("wo"), num(42)]);
    assert_eq!(decode_bencoded_value(encoded), Ok(expected));
}

#[test]
fn decode_bencoded_value_list_empty() {
    let encoded = "le";
    let expected = list(vec![]);
    assert_eq!(decode_bencoded_value(encoded), Ok(expected));
}

#[test]
fn decode_bencoded_value_list_nested() {
    let encoded = "l5:helloi10el3:fooi20eee";
    let expected = list(vec![text("hello"), num(10), list(vec![text("foo"), num(20)])]);
    assert_eq!(decode_bencoded_value(encoded), Ok(expected));
}

#[test]
fn decode_bencoded_value_list_deeply_nested() {
    let encoded = "ll3:oneei2ell3:abc3:xyzeli77eeee";
    let expected = list(vec![
        list(vec![text("one")]),
        num(2),
        list(vec![list(vec![text("abc"), text("xyz")]), list(vec![num(77)])]),
    ]);
    assert_eq!(decode_bencoded_value(encoded), Ok(expected));
}

#[test]
fn decode_bencoded_value_list_unterminated() {
    let encoded = "l3:fooi42e";
    assert!(decode_bencoded_value(encoded).is_err());
}

#[test]
fn decode_bencoded_value_list_with_dict() {
    let encoded = "ld3:key5:value3:numi42eee";
    let expected = list(vec![dict(vec![("key", text("value")), ("num", num(42))])]);
    assert_eq!(decode_bencoded_value(encoded), Ok(expected));
}

#[test]
fn decode_bencoded_value_list_mixed_types() {
    let encoded = "l3:onei2ed3:key3:val3:numi10ee5:applee";
    let expected = list(vec![
        text("one"),
        num(2),
        dict(vec![("key", text("val")), ("num", num(10))]),
        text("apple"),
    ]);
    assert_eq!(decode_bencoded_value(encoded), Ok(expected));
}

#[test]
fn decode_bencoded_value_list_with_multiple_dicts() {
    let encoded = "ld3:foo3:bar3:numi100eed4:spam4:eggs5:spam24:milkee";
    let expected = list(vec![
        dict(vec![("foo", text("bar")), ("num", num(100))]),
        dict(vec![("spam", text("eggs")), ("spam2", text("milk"))]),
    ]);
    assert_eq!(decode_bencoded_value(encoded), Ok(expected));
}

#[test]
fn decode_bencoded_value_list_nested_dicts() {
    let encoded = "ll3:one3:twoed3:foo3:bar3:numi5eeli9eee";
    let expected = list(vec![
        list(vec![text("one"), text("two")]),
        dict(vec![("foo", text("bar")), ("num", num(5))]),
        list(vec![num(9)]),
    ]);
    assert_eq!(decode_bencoded_value(encoded), Ok(expected));
}

#[test]
fn decode_bencoded_value_list_deeply_nested_dicts_and_lists() {
    let encoded = "ll5:apple6:bananaed3:keyd4:deepi99ee3:numi42eee";
    let expected = list(vec![
        list(vec![text("apple"), text("banana")]),
        dict(vec![("key", dict(vec![("deep", num(99))])), ("num", num(42))]),
    ]);
    assert_eq!(decode_bencoded_value(encoded), Ok(expected));
}

/******** Dictionary ********/
#[test]
fn decode_bencoded_value_dict_empty() {
    let encoded = "de";
    let expected = dict(vec![]);
    assert_eq!(decode_bencoded_value(encoded), Ok(expected));
}

#[test]
fn decode_bencoded_value_dict_unterminated() {
    let encoded = "d3:key5:value";
    assert!(decode_bencoded_value(encoded).is_err());
}

#[test]
fn decode_bencoded_value_dict_single_pair() {
    let encoded = "d3:key5:valuee";
    let expected = dict(vec![("key", text("value"))]);
    assert_eq!(decode_bencoded_value(encoded), Ok(expected));
}

#[test]
fn decode_bencoded_value_dict_multiple_pairs() {
    let encoded = "d3:foo3:bar3:baz3:quxe";
    let expected = dict(vec![("foo", text("bar")), ("baz", text("qux"))]);
    assert_eq!(decode_bencoded_value(encoded), Ok(expected));
}

#[test]
fn decode_bencoded_value_dict_with_list() {
    let encoded = "d3:fooi1e3:bari3e3:bazl5:hello5:worldee";
    let expected = dict(vec![
        ("foo", num(1)),
        ("bar", num(3)),
        ("baz", list(vec![text("hello"), text("world")])),
    ]);
    assert_eq!(decode_bencoded_value(encoded), Ok(expected));
}

#[test]
fn decode_bencoded_value_dict_with_nested_dict() {
    let encoded = "d3:foo3:bar3:bazd3:key5:valueee";
    let expected = dict(vec![("foo", text("bar")), ("baz", dict(vec![("key", text("value"))]))]);
    assert_eq!(decode_bencoded_value(encoded), Ok(expected));
}

#[test]
fn decode_bencoded_value_dict_deeply_nested() {
    let encoded = "d3:foo3:bar3:bazd3:keyd4:deep4:nesteeee";
    let expected = dict(vec![
        ("foo", text("bar")),
        ("baz", dict(vec![("key", dict(vec![("deep", text("nest"))]))])),
    ]);
    assert_eq!(decode_bencoded_value(encoded), Ok(expected));
}

#[test]
fn decode_bencoded_value_dict_with_mixed_values() {
    let encoded = "d3:numi42e3:str6:string3:lstli1ei2ei3ee4:dictd3:key3:valee";
    let expected = dict(vec![
        ("num", num(42)),
        ("str", text("string")),
        ("lst", list(vec![num(1), num(2), num(3)])),
        ("dict", dict(vec![("key", text("val"))])),
    ]);
    assert_eq!(decode_bencoded_value(encoded), Ok(expected));
}

#[test]
fn decode_bencoded_value_dict_large_complex_structure() {
    let encoded = "d4:spaml5:apple6:bananae3:numi100e4:metad4:infod4:auth4:John4:yeari2024ee4:tagsl4:rust3:ioseee";
    let expected = dict(vec![
        ("spam", list(vec![text("apple"), text("banana")])),
        ("num", num(100)),
        (
            "meta",
            dict(vec![
                ("info", dict(vec![("auth", text("John")), ("year", num(2024))])),
                ("tags", list(vec![text("rust"), text("ios")])),
            ]),
        ),
    ]);
    assert_eq!(decode_bencoded_value(encoded), Ok(expected));
}

/******** Further cases ********/
#[test]
fn integer_leading_zero_is_rejected() {
    assert_eq!(decode(b"i042e"), Err(DecodeError::Malformed));
    assert_eq!(decode(b"i00e"), Err(DecodeError::Malformed));
    assert_eq!(decode(b"i-0e"), Err(DecodeError::Malformed));
    assert_eq!(decode(b"ie"), Err(DecodeError::Malformed));
}

#[test]
fn integer_round_trip_keeps_bytes() {
    for s in ["i0e", "i42e", "i-42e", "i123456789012345678901234567890e"] {
        let v = decode(s.as_bytes()).unwrap();
        assert_eq!(v.encode(), s.as_bytes().to_vec());
    }
}

#[test]
fn bytes_round_trip_includes_empty_and_binary() {
    for b in [vec![], b"spam".to_vec(), vec![0u8, 255, 58, 101]] {
        let v = Value::Bytes(b.clone());
        let e = v.encode();
        assert_eq!(decode(&e), Ok(Value::Bytes(b)));
    }
}

#[test]
fn nested_value_round_trip() {
    let v = dict(vec![
        ("zeta", list(vec![num(-7), text(""), dict(vec![])])),
        ("alpha", dict(vec![("b", num(1)), ("a", list(vec![]))])),
    ]);
    let e = v.encode();
    assert_eq!(decode(&e), Ok(v));
}

#[test]
fn encode_emits_keys_in_byte_order() {
    let v = dict(vec![("spam", text("eggs")), ("cow", text("moo")), ("Zed", num(1))]);
    assert_eq!(v.encode(), b"d3:Zedi1e3:cow3:moo4:spam4:eggse".to_vec());
}

#[test]
fn later_duplicate_key_wins() {
    let expected = dict(vec![("a", num(2))]);
    assert_eq!(decode(b"d1:ai1e1:ai2ee"), Ok(expected));
}

#[test]
fn truncated_and_trailing_inputs_fail() {
    assert_eq!(decode(b"4:spa"), Err(DecodeError::Malformed));
    assert_eq!(decode(b"4spam"), Err(DecodeError::Malformed));
    assert_eq!(decode(b"l4:spam"), Err(DecodeError::Malformed));
    assert_eq!(decode(b"d1:a"), Err(DecodeError::Malformed));
    assert_eq!(decode(b"i7"), Err(DecodeError::Malformed));
    assert_eq!(decode(b""), Err(DecodeError::Malformed));
    assert_eq!(decode(b"i1ei2e"), Ok(num(1)));
}

#[test]
fn non_text_dict_key_is_rejected() {
    assert_eq!(decode(b"di1ei2ee"), Err(DecodeError::Malformed));
}

#[test]
fn end_to_end_dict_scenario() {
    let expected = dict(vec![("foo", text("bar")), ("num", num(42))]);
    assert_eq!(decode_bencoded_value("d3:foo3:bar3:numi42ee"), Ok(expected));
}

#[test]
fn dict_lookup_and_sizes() {
    let v = decode(b"d3:numi42e3:neg i-1e").ok();
    assert!(v.is_none());
    let v = decode(b"d3:negi-1e3:numi42ee").unwrap();
    assert_eq!(v.get(b"num").and_then(|x| x.as_usize()), Some(42));
    assert_eq!(v.get(b"neg").and_then(|x| x.as_usize()), None);
    assert!(v.get(b"missing").is_none());
    assert_eq!(Value::from_usize(1234).encode(), b"i1234e".to_vec());
}

#[test]
fn encode_sorts_directly_built_dict() {
    let v = Value::Dict(vec![
        (b"b".to_vec(), num(1)),
        (b"a".to_vec(), num(1)),
        (b"c".to_vec(), num(2)),
        (b"a".to_vec(), num(3)),
    ]);
    assert_eq!(v.encode(), b"d1:ai3e1:bi1e1:ci2ee".to_vec());
    let expected = dict(vec![("a", num(3)), ("b", num(1)), ("c", num(2))]);
    assert_eq!(decode(&v.encode()), Ok(expected));
}

#[test]
fn lookup_follows_the_last_equal_key() {
    let v = Value::Dict(vec![(b"k".to_vec(), num(1)), (b"j".to_vec(), num(5)), (b"k".to_vec(), num(2))]);
    assert_eq!(v.get(b"k"), Some(&num(2)));
    assert_eq!(v.get(b"j"), Some(&num(5)));
    assert_eq!(v.get(b"x"), None);
}

#[test]
fn integers_from_i64_are_canonical() {
    assert_eq!(num(0).encode(), b"i0e".to_vec());
    assert_eq!(num(-7).encode(), b"i-7e".to_vec());
    assert_eq!(num(i64::MIN).encode(), b"i-9223372036854775808e".to_vec());
    match num(-42) {
        Value::Integer(n) => {
            assert!(n.is_negative());
            assert_eq!(n.digits(), b"42");
        }
        _ => panic!("expected an integer"),
    }
}

#[test]
fn display_tree_of_nested_value() {
    let v = decode_bencoded_value("d3:numi-42e3:lstl1:ai7ee1:ad1:xi0eee").unwrap();
    let shown = v.to_display().unwrap();
    let expected = DisplayValue::Object(vec![
        ("a".to_string(), DisplayValue::Object(vec![("x".to_string(), DisplayValue::Number { negative: false, digits: b"0".to_vec() })])),
        (
            "lst".to_string(),
            DisplayValue::Array(vec![
                DisplayValue::Text("a".to_string()),
                DisplayValue::Number { negative: false, digits: b"7".to_vec() },
            ]),
        ),
        ("num".to_string(), DisplayValue::Number { negative: true, digits: b"42".to_vec() }),
    ]);
    assert_eq!(shown, expected);
    assert_eq!(decode(b"l2:\xff\xfee").unwrap().to_display(), Err(EncodingError));
    assert_eq!(decode(b"d2:\xff\xfei1ee").unwrap().to_display(), Err(EncodingError));
}
