use my_torrent_client_project::decoder::decode;
use my_torrent_client_project::metainfo_files::Info;
use my_torrent_client_project::value::Bencode;

/// The value that the outside decoder gave, in the library's own type. Its
/// dictionaries are sorted by key.
fn convert(outside: &bencode::Bencode) -> Bencode {
    match outside {
        bencode::Bencode::Empty => panic!("no value"),
        bencode::Bencode::Number(n) => Bencode::Integer(*n),
        bencode::Bencode::ByteString(bytes) => Bencode::ByteString(bytes.clone()),
        bencode::Bencode::List(items) => Bencode::List(items.iter().map(convert).collect()),
        bencode::Bencode::Dict(map) => Bencode::Dict(
            map.iter().map(|(key, value)| (key.as_slice().to_vec(), convert(value))).collect(),
        ),
    }
}

fn agree_on(input: &[u8]) {
    let outside = bencode::from_buffer(input).unwrap();
    let (own, consumed) = decode(input).unwrap();
    assert_eq!(consumed, input.len());
    assert_eq!(own, convert(&outside));
}

#[test]
fn agrees_with_the_outside_decoder_on_integers() {
    for input in [&b"i0e"[..], b"i1e", b"i-1e", b"i351272960e", b"i-9007199254740993e"] {
        agree_on(input);
    }
}

#[test]
fn agrees_with_the_outside_decoder_on_byte_strings() {
    for input in [&b"0:"[..], b"1:a", b"7:torrent", b"3:\x00\xff\x80", b"10:0123456789"] {
        agree_on(input);
    }
}

#[test]
fn agrees_with_the_outside_decoder_on_lists() {
    for input in [&b"le"[..], b"li1ei2ee", b"l1:ali1eelee", b"lllleeee"] {
        agree_on(input);
    }
}

#[test]
fn agrees_with_the_outside_decoder_on_sorted_dictionaries() {
    for input in [
        &b"de"[..],
        b"d1:ai1e1:bi2ee",
        b"d1:ad1:bd1:cleee1:di0ee",
        b"d6:lengthi351272960e4:name31:debian-10.3.0-amd64-netinst.iso12:piece lengthi262144e6:pieces7:torrente",
    ] {
        agree_on(input);
    }
}

#[test]
fn info_is_the_same_from_either_decoder() {
    let input = b"d6:lengthi351272960e4:name31:debian-10.3.0-amd64-netinst.iso12:piece lengthi262144e6:pieces7:torrente";
    let outside = convert(&bencode::from_vec(input.to_vec()).unwrap());
    let (own, _) = decode(input).unwrap();
    let expected = Info {
        name: "debian-10.3.0-amd64-netinst.iso".to_string(),
        length: 351272960,
        piece_length: 262144,
        pieces: "torrent".as_bytes().to_vec(),
    };
    assert_eq!(Info::from_bencode(&outside).unwrap(), expected);
    assert_eq!(Info::from_bencode(&own).unwrap(), expected);
}

fn outside_dict(entries: Vec<(&str, bencode::Bencode)>) -> bencode::Bencode {
    bencode::Bencode::Dict(
        entries
            .into_iter()
            .map(|(key, value)| (bencode::util::ByteString::from_str(key), value))
            .collect(),
    )
}

#[test]
fn reads_back_what_the_outside_encoder_writes() {
    let values = vec![
        bencode::Bencode::Number(0),
        bencode::Bencode::Number(-17),
        bencode::Bencode::Number(i64::MAX),
        bencode::Bencode::Number(i64::MIN + 1),
        bencode::Bencode::ByteString(Vec::new()),
        bencode::Bencode::ByteString((0..=255u8).collect()),
        bencode::Bencode::List(vec![
            bencode::Bencode::Number(1),
            bencode::Bencode::List(Vec::new()),
            bencode::Bencode::ByteString(b"e".to_vec()),
        ]),
        outside_dict(vec![
            ("announce", bencode::Bencode::ByteString(b"http://tracker/announce".to_vec())),
            (
                "info",
                outside_dict(vec![
                    ("length", bencode::Bencode::Number(123456)),
                    ("name", bencode::Bencode::ByteString(b"file.bin".to_vec())),
                    ("piece length", bencode::Bencode::Number(16384)),
                    ("pieces", bencode::Bencode::ByteString(vec![0x5a; 160])),
                ]),
            ),
        ]),
    ];
    for outside in values {
        let written = outside.to_bytes().unwrap();
        let (own, consumed) = decode(&written).unwrap();
        assert_eq!(consumed, written.len());
        assert_eq!(own, convert(&outside));
    }
}
