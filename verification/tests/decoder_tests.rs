use my_torrent_client_project::decoder::{decode, decode_with_span};
use my_torrent_client_project::grammar::DecodeError;
use my_torrent_client_project::value::{find_entry, Bencode, Span, SpanTree};

fn text(s: &str) -> Bencode {
    Bencode::ByteString(s.as_bytes().to_vec())
}

fn leaf(start: usize, end: usize) -> SpanTree {
    SpanTree { span: Span { start, end }, children: Vec::new() }
}

fn node(start: usize, end: usize, children: Vec<SpanTree>) -> SpanTree {
    SpanTree { span: Span { start, end }, children }
}

fn value_of(input: &[u8]) -> Bencode {
    let (value, consumed) = decode(input).unwrap();
    assert_eq!(consumed, input.len());
    value
}

fn error_of(input: &[u8]) -> DecodeError {
    let with_span = decode_with_span(input).unwrap_err();
    assert_eq!(decode(input).unwrap_err(), with_span);
    with_span
}

#[test]
fn decodes_integers() {
    assert_eq!(value_of(b"i0e"), Bencode::Integer(0));
    assert_eq!(value_of(b"i7e"), Bencode::Integer(7));
    assert_eq!(value_of(b"i-7e"), Bencode::Integer(-7));
    assert_eq!(value_of(b"i10e"), Bencode::Integer(10));
    assert_eq!(value_of(b"i351272960e"), Bencode::Integer(351272960));
    assert_eq!(value_of(b"i-100200300e"), Bencode::Integer(-100200300));
}

#[test]
fn decodes_the_bounds_of_64_bits() {
    assert_eq!(value_of(b"i9223372036854775807e"), Bencode::Integer(i64::MAX));
    assert_eq!(value_of(b"i-9223372036854775808e"), Bencode::Integer(i64::MIN));
    assert_eq!(value_of(b"i-9223372036854775807e"), Bencode::Integer(i64::MIN + 1));
    assert_eq!(error_of(b"i9223372036854775808e"), DecodeError::MalformedInteger(0));
    assert_eq!(error_of(b"i-9223372036854775809e"), DecodeError::MalformedInteger(0));
    assert_eq!(error_of(b"i18446744073709551616e"), DecodeError::MalformedInteger(0));
    assert_eq!(
        error_of(b"i99999999999999999999999999999999999999999999e"),
        DecodeError::MalformedInteger(0)
    );
}

#[test]
fn refuses_malformed_integers() {
    for input in [
        &b"ie"[..],
        b"i-e",
        b"i-0e",
        b"i00e",
        b"i03e",
        b"i-03e",
        b"i-00e",
        b"i",
        b"i-",
        b"i12",
        b"i1x2e",
        b"i+1e",
        b"i 1e",
        b"i1-e",
        b"i--1e",
        b"iee",
    ] {
        assert_eq!(error_of(input), DecodeError::MalformedInteger(0));
    }
}

#[test]
fn decodes_byte_strings() {
    assert_eq!(value_of(b"0:"), Bencode::ByteString(Vec::new()));
    assert_eq!(value_of(b"1:a"), text("a"));
    assert_eq!(value_of(b"7:torrent"), text("torrent"));
    assert_eq!(value_of(b"12:piece length"), text("piece length"));
    assert_eq!(value_of(b"3:\x00\xff\x80"), Bencode::ByteString(vec![0, 255, 128]));
    assert_eq!(value_of(b"4:i1e:"), text("i1e:"));
    let long = vec![b'z'; 1234];
    let mut input = b"1234:".to_vec();
    input.extend_from_slice(&long);
    assert_eq!(value_of(&input), Bencode::ByteString(long));
}

#[test]
fn refuses_a_length_that_is_no_prefix() {
    for input in [&b"01:a"[..], b"00:", b"1", b"12", b"1x:a", b"1-:a", b"5", b"1 :a"] {
        assert_eq!(error_of(input), DecodeError::MalformedStringLength(0));
    }
}

#[test]
fn refuses_a_byte_string_that_is_cut_short() {
    assert_eq!(error_of(b"5:ab"), DecodeError::TruncatedInput(0));
    assert_eq!(error_of(b"1:"), DecodeError::TruncatedInput(0));
    assert_eq!(error_of(b"10:123456789"), DecodeError::TruncatedInput(0));
    assert_eq!(error_of(b"l5:abe"), DecodeError::TruncatedInput(1));
}

#[test]
fn refuses_a_forged_length_without_allocating_it() {
    assert_eq!(error_of(b"18446744073709551615:a"), DecodeError::TruncatedInput(0));
    assert_eq!(error_of(b"18446744073709551616:a"), DecodeError::TruncatedInput(0));
    assert_eq!(
        error_of(b"99999999999999999999999999999999999999:a"),
        DecodeError::TruncatedInput(0)
    );
    assert_eq!(error_of(b"9999999999999999999x"), DecodeError::MalformedStringLength(0));
}

#[test]
fn refuses_the_end_where_a_value_begins() {
    assert_eq!(error_of(b""), DecodeError::TruncatedInput(0));
    assert_eq!(error_of(b"d3:foo"), DecodeError::TruncatedInput(6));
}

#[test]
fn decodes_lists() {
    assert_eq!(value_of(b"le"), Bencode::List(Vec::new()));
    assert_eq!(
        value_of(b"li1e1:ai-2ee"),
        Bencode::List(vec![Bencode::Integer(1), text("a"), Bencode::Integer(-2)])
    );
    assert_eq!(
        value_of(b"llelleei5ee"),
        Bencode::List(vec![
            Bencode::List(Vec::new()),
            Bencode::List(vec![Bencode::List(Vec::new())]),
            Bencode::Integer(5),
        ])
    );
}

#[test]
fn refuses_a_list_without_its_end() {
    assert_eq!(error_of(b"l"), DecodeError::UnterminatedList(0));
    assert_eq!(error_of(b"li1e"), DecodeError::UnterminatedList(0));
    assert_eq!(error_of(b"li1e2:ab"), DecodeError::UnterminatedList(0));
    assert_eq!(error_of(b"ll"), DecodeError::UnterminatedList(1));
    assert_eq!(error_of(b"lle"), DecodeError::UnterminatedList(0));
}

#[test]
fn decodes_dictionaries() {
    assert_eq!(value_of(b"de"), Bencode::Dict(Vec::new()));
    assert_eq!(
        value_of(b"d1:ai1e1:b2:xye"),
        Bencode::Dict(vec![(b"a".to_vec(), Bencode::Integer(1)), (b"b".to_vec(), text("xy"))])
    );
    assert_eq!(
        value_of(b"d0:d1:kleee"),
        Bencode::Dict(vec![(
            Vec::new(),
            Bencode::Dict(vec![(b"k".to_vec(), Bencode::List(Vec::new()))]),
        )])
    );
}

#[test]
fn keeps_the_entries_in_the_order_of_the_input() {
    let value = value_of(b"d1:zi1e1:ai2e1:mi3ee");
    assert_eq!(
        value,
        Bencode::Dict(vec![
            (b"z".to_vec(), Bencode::Integer(1)),
            (b"a".to_vec(), Bencode::Integer(2)),
            (b"m".to_vec(), Bencode::Integer(3)),
        ])
    );
}

#[test]
fn keeps_every_entry_of_a_repeated_key_and_finds_the_last() {
    let value = value_of(b"d1:bi1e1:ai2e1:bi3ee");
    let entries = match value {
        Bencode::Dict(entries) => entries,
        other => panic!("{:?}", other),
    };
    assert_eq!(entries.len(), 3);
    assert_eq!(find_entry(&entries, b"b"), Some(2));
    assert_eq!(find_entry(&entries, b"a"), Some(1));
    assert_eq!(find_entry(&entries, b"c"), None);
    assert_eq!(find_entry(&entries, b""), None);
    assert_eq!(find_entry(&entries, b"bb"), None);
    assert_eq!(entries[2].1, Bencode::Integer(3));
}

#[test]
fn finds_nothing_in_an_empty_dictionary() {
    assert_eq!(find_entry(&Vec::new(), b"info"), None);
}

#[test]
fn refuses_a_dictionary_without_its_end() {
    assert_eq!(error_of(b"d"), DecodeError::UnterminatedDict(0));
    assert_eq!(error_of(b"d1:ai1e"), DecodeError::UnterminatedDict(0));
    assert_eq!(error_of(b"d1:ad"), DecodeError::UnterminatedDict(4));
    assert_eq!(error_of(b"ld"), DecodeError::UnterminatedDict(1));
}

#[test]
fn refuses_a_key_that_is_no_byte_string() {
    assert_eq!(error_of(b"di1ei2ee"), DecodeError::NonStringDictKey(1));
    assert_eq!(error_of(b"dlei2ee"), DecodeError::NonStringDictKey(1));
    assert_eq!(error_of(b"ddei2ee"), DecodeError::NonStringDictKey(1));
    assert_eq!(error_of(b"d1:ai1exe"), DecodeError::NonStringDictKey(7));
    assert_eq!(error_of(b"d01:ai1ee"), DecodeError::MalformedStringLength(1));
    assert_eq!(error_of(b"d9:ae"), DecodeError::TruncatedInput(1));
}

#[test]
fn refuses_a_byte_that_opens_no_value() {
    assert_eq!(error_of(b"x"), DecodeError::UnexpectedToken(b'x', 0));
    assert_eq!(error_of(b"e"), DecodeError::UnexpectedToken(b'e', 0));
    assert_eq!(error_of(b"-1"), DecodeError::UnexpectedToken(b'-', 0));
    assert_eq!(error_of(b":"), DecodeError::UnexpectedToken(b':', 0));
    assert_eq!(error_of(b"\x00"), DecodeError::UnexpectedToken(0, 0));
    assert_eq!(error_of(b"lxe"), DecodeError::UnexpectedToken(b'x', 1));
    assert_eq!(error_of(b"d1:a?e"), DecodeError::UnexpectedToken(b'?', 4));
    assert_eq!(error_of(b"li1eIe"), DecodeError::UnexpectedToken(b'I', 4));
}

#[test]
fn reports_the_first_error_in_reading_order() {
    assert_eq!(error_of(b"li0ei01e5:ab"), DecodeError::MalformedInteger(4));
    assert_eq!(error_of(b"d1:al1:bi-0eee"), DecodeError::MalformedInteger(8));
}

#[test]
fn decodes_one_value_and_leaves_the_rest() {
    assert_eq!(decode(b"i1ei2e").unwrap(), (Bencode::Integer(1), 3));
    assert_eq!(decode(b"3:abcdef").unwrap(), (text("abc"), 5));
    assert_eq!(decode(b"lee").unwrap(), (Bencode::List(Vec::new()), 2));
    assert_eq!(decode(b"de garbage").unwrap(), (Bencode::Dict(Vec::new()), 2));
    let (value, spans, consumed) = decode_with_span(b"i1ei2e").unwrap();
    assert_eq!((value, spans, consumed), (Bencode::Integer(1), leaf(0, 3), 3));
    let (second, consumed) = decode(&b"i1ei2e"[3..]).unwrap();
    assert_eq!((second, consumed), (Bencode::Integer(2), 3));
}

#[test]
fn records_the_span_of_a_single_value() {
    assert_eq!(decode_with_span(b"i-42e").unwrap().1, leaf(0, 5));
    assert_eq!(decode_with_span(b"0:").unwrap().1, leaf(0, 2));
    assert_eq!(decode_with_span(b"3:abc").unwrap().1, leaf(0, 5));
    assert_eq!(decode_with_span(b"le").unwrap().1, leaf(0, 2));
    assert_eq!(decode_with_span(b"de").unwrap().1, leaf(0, 2));
}

#[test]
fn records_the_spans_of_nested_values() {
    let input = b"li1e3:abcli22eee";
    let (value, spans, consumed) = decode_with_span(input).unwrap();
    assert_eq!(consumed, 16);
    assert_eq!(
        value,
        Bencode::List(vec![
            Bencode::Integer(1),
            text("abc"),
            Bencode::List(vec![Bencode::Integer(22)]),
        ])
    );
    assert_eq!(
        spans,
        node(0, 16, vec![leaf(1, 4), leaf(4, 9), node(9, 15, vec![leaf(10, 14)])])
    );
    assert_eq!(&input[9..15], b"li22ee");
    assert_eq!(&input[10..14], b"i22e");
}

#[test]
fn records_for_a_dictionary_the_spans_of_its_values() {
    let input = b"d1:ai1e2:bbd1:c0:e1:dlee";
    let (value, spans, consumed) = decode_with_span(input).unwrap();
    assert_eq!(consumed, input.len());
    assert_eq!(
        spans,
        node(0, 24, vec![leaf(4, 7), node(11, 18, vec![leaf(15, 17)]), leaf(21, 23)])
    );
    assert_eq!(&input[4..7], b"i1e");
    assert_eq!(&input[11..18], b"d1:c0:e");
    assert_eq!(&input[21..23], b"le");
    let entries = match value {
        Bencode::Dict(entries) => entries,
        other => panic!("{:?}", other),
    };
    assert_eq!(entries.len(), spans.children.len());
}

#[test]
fn decodes_deep_nesting() {
    let depth = 200;
    let mut input = vec![b'l'; depth];
    input.extend(vec![b'e'; depth]);
    let (mut value, mut spans, consumed) = decode_with_span(&input).unwrap();
    assert_eq!(consumed, 2 * depth);
    for level in 0..depth {
        assert_eq!(spans.span, Span { start: level, end: 2 * depth - level });
        let (items, children) = match value {
            Bencode::List(items) => (items, spans.children),
            other => panic!("{:?}", other),
        };
        assert_eq!(items.len(), children.len());
        if level + 1 == depth {
            assert!(items.is_empty());
            break;
        }
        value = items.into_iter().next().unwrap();
        spans = children.into_iter().next().unwrap();
    }
}
