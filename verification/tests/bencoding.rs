use rustytorrent::bencoding::{
    assert_well_formed, get_as, parse, parse_into_dictionary, DataKind, Dictionary,
    DictionaryError, Encode, ParseErrorKind, Parser,
};

#[test]
fn encode_integer_test() {
    let expected = "i-3e".as_bytes();
    let result = (-3_i64).bencode();
    assert_eq!(expected, result.as_slice());
}

#[test]
fn encode_string_test() {
    let expected = "3:cow";
    let result = "cow".bencode();
    assert_eq!(expected, std::str::from_utf8(result.as_slice()).unwrap());
}

#[test]
fn encode_list_test() {
    let expected = "l4:spam4:eggse";
    let result = vec![DataKind::Data("spam".into()), DataKind::Data("eggs".into())].bencode();
    assert_eq!(expected, std::str::from_utf8(result.as_slice()).unwrap());
}

#[test]
fn encode_list_of_list_test() {
    let expected = "ll4:spam4:eggse4:spam4:eggse".as_bytes();
    let result = vec![
        DataKind::List(vec![
            DataKind::Data("spam".into()),
            DataKind::Data("eggs".into()),
        ]),
        DataKind::Data("spam".into()),
        DataKind::Data("eggs".into()),
    ]
    .bencode();
    assert_eq!(expected, result.as_slice());
}

#[test]
fn encode_dictionary_test() {
    let expected = "d3:cow3:moo4:spam4:eggse";
    let mut map = Dictionary::new();
    map.insert("cow".into(), DataKind::Data("moo".into()));
    map.insert("spam".into(), DataKind::Data("eggs".into()));
    let result = DataKind::Dictionary(map).bencode();
    assert_eq!(expected, std::str::from_utf8(result.as_slice()).unwrap());
}

#[test]
fn encode_dictionary_with_dictionary_test() {
    let expected = "d3:cow3:moo4:spamd3:cow3:mooee";
    let mut map = Dictionary::new();
    map.insert("cow".into(), DataKind::Data("moo".into()));
    map.insert("spam".into(), DataKind::Dictionary(map.clone()));
    let dictionary = DataKind::Dictionary(map);
    let result = dictionary.bencode();
    assert_eq!(expected, std::str::from_utf8(result.as_slice()).unwrap());
}

#[test]
fn parse_integer_test() {
    let text = "i-3e".as_bytes();
    let result = parse(&text).unwrap();
    assert_eq!(result.as_int().unwrap(), -3);
}

#[test]
fn parse_string_test() {
    let text = "3:cow".as_bytes();
    let result = parse(&text).unwrap();
    assert_eq!(result.as_utf8().unwrap(), "cow");
}

#[test]
fn parse_list_test() {
    let text = "l4:spam4:eggse".as_bytes();
    let result = parse(&text).unwrap();
    let expected = vec![DataKind::Data("spam".into()), DataKind::Data("eggs".into())];
    assert_eq!(*result.as_list().unwrap(), expected);
}

#[test]
fn parse_list_of_list_test() {
    let text = "ll4:spam4:eggse4:spam4:eggse".as_bytes();
    let result = parse(&text).unwrap();
    let expected = vec![
        DataKind::List(vec![
            DataKind::Data("spam".into()),
            DataKind::Data("eggs".into()),
        ]),
        DataKind::Data("spam".into()),
        DataKind::Data("eggs".into()),
    ];
    assert_eq!(*result.as_list().unwrap(), expected);
}

#[test]
fn parse_dictionary_test() {
    let text = "d3:cow3:moo4:spam4:eggse".as_bytes();
    let result = parse(&text).unwrap();
    let mut map = Dictionary::new();
    map.insert("cow".into(), DataKind::Data("moo".into()));
    map.insert("spam".into(), DataKind::Data("eggs".into()));
    let expected = DataKind::Dictionary(map);
    assert_eq!(result, expected);
}

#[test]
fn parse_dictionary_with_dictionary_test() {
    let text = "d3:cow3:moo4:spamd3:cow3:mooee".as_bytes();
    let result = parse(&text).unwrap();
    let mut map = Dictionary::new();
    map.insert("cow".into(), DataKind::Data("moo".into()));
    map.insert("spam".into(), DataKind::Dictionary(map.clone()));
    let expected = DataKind::Dictionary(map);
    assert_eq!(result, expected);
}

#[test]
fn parse_then_encode_gives_input_back() {
    let text = "d4:infod6:lengthi42e4:name5:a.txte4:listli1ei-2e0:ee".as_bytes();
    let value = parse(text).unwrap();
    assert_eq!(value.bencode(), text.to_vec());
}

#[test]
fn dictionary_keys_are_kept_sorted_and_unique() {
    let mut map = Dictionary::new();
    map.insert("zeta".into(), DataKind::Integer(1));
    map.insert("alpha".into(), DataKind::Integer(2));
    map.insert("zeta".into(), DataKind::Integer(3));
    assert_eq!(map.len(), 2);
    let keys: Vec<&str> = map.iter().iter().map(|(k, _)| k.as_str()).collect();
    assert_eq!(keys, vec!["alpha", "zeta"]);
    assert_eq!(map.get("zeta"), Some(&DataKind::Integer(3)));
    assert_eq!(map.get("beta"), None);
    assert_eq!(
        DataKind::Dictionary(map).bencode(),
        "d5:alphai2e4:zetai3ee".as_bytes().to_vec()
    );
}

#[test]
fn get_as_reads_typed_values() {
    let value = parse("d6:lengthi7e4:name3:abc5:piecel1:xee".as_bytes()).unwrap();
    let dict = value.as_dict().unwrap();
    let length: i64 = get_as(dict, "length").unwrap();
    assert_eq!(length, 7);
    let name: String = get_as(dict, "name").unwrap();
    assert_eq!(name, "abc");
    let missing: Result<i64, _> = get_as(dict, "missing");
    assert!(missing.is_err());
    let wrong: Result<i64, _> = get_as(dict, "name");
    assert!(wrong.is_err());
    let optional: Option<String> = dict.get_as("name").unwrap();
    assert_eq!(optional, Some("abc".to_string()));
    let absent: Option<String> = dict.get_as("other").unwrap();
    assert_eq!(absent, None);
}

#[test]
fn parse_errors_name_their_kind() {
    let cases: Vec<(&str, ParseErrorKind)> = vec![
        ("", ParseErrorKind::UnexpectedEnd),
        ("i12", ParseErrorKind::MissingTerminator),
        ("i1x2e", ParseErrorKind::ParseIntError),
        ("5:abc", ParseErrorKind::MissingTerminator),
        ("abc", ParseErrorKind::MissingLengthPrefix),
        ("x:abc", ParseErrorKind::ParseIntError),
        ("l1:a", ParseErrorKind::UnexpectedEnd),
        ("d1:ai1e", ParseErrorKind::UnexpectedEnd),
    ];
    for (text, kind) in cases {
        let error = parse(text.as_bytes()).unwrap_err();
        assert_eq!(error.kind(), kind, "input {:?}", text);
    }
    let bad_key = [b'd', b'1', b':', 0xff, b'i', b'1', b'e', b'e'];
    assert_eq!(parse(&bad_key).unwrap_err().kind(), ParseErrorKind::Utf8Error);
}

#[test]
fn parser_counts_consumed_bytes() {
    let text = "i5eextra".as_bytes();
    let mut parser = Parser::new(text);
    let (value, spent) = parser.parse(text).unwrap();
    assert_eq!(value, DataKind::Integer(5));
    assert_eq!(spent, 3);
}

#[test]
fn empty_string_roundtrip_needs_following_byte() {
    assert_eq!(
        parse("0:".as_bytes()).unwrap_err().kind(),
        ParseErrorKind::MissingTerminator
    );
    let list = parse("l0:e".as_bytes()).unwrap();
    assert_eq!(*list.as_list().unwrap(), vec![DataKind::Data(vec![])]);
}

#[test]
fn a_missing_key_is_named() {
    let err = get_as::<i64>(&Dictionary::new(), "length").unwrap_err();
    assert_eq!(err.as_str(), "dictionary is missing 'length' key");
    assert_eq!(DataKind::Data(vec![1]).as_int().unwrap_err().as_str(), "DataKind is not Integer");
}

#[test]
fn a_file_must_hold_a_dictionary() {
    let d = parse_into_dictionary(b"d1:ai1ee").unwrap();
    assert_eq!(get_as::<i64>(&d, "a").unwrap(), 1);
    assert!(matches!(parse_into_dictionary(b"i1e"), Err(DictionaryError::NotADictionary)));
    assert!(matches!(parse_into_dictionary(b"x"), Err(DictionaryError::Parse(_))));
    assert_well_formed(&DataKind::Dictionary(d));
}

#[test]
fn insertion_order_does_not_change_the_encoding() {
    let mut map = Dictionary::new();
    map.insert("spam".into(), DataKind::Data("eggs".into()));
    map.insert("cow".into(), DataKind::Data("moo".into()));
    let result = DataKind::Dictionary(map).bencode();
    assert_eq!("d3:cow3:moo4:spam4:eggse", std::str::from_utf8(result.as_slice()).unwrap());
}
