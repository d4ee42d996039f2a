use bittorrentclient::decode::DecodeError;
use bittorrentclient::encode::encode;
use bittorrentclient::hash::{compute_info_hash, extract_piecce_hashes, CryptoError};
use bittorrentclient::metainfo::{
    parse_torrent, load_torrent, ExpectedKind, FieldName, FileMode, TorrentError, ValidationError,
};
use bittorrentclient::value::Value;

fn bs(s: &[u8]) -> Value {
    Value::ByteString(s.to_vec())
}

fn single_file_info(name: &[u8], piece_length: i64, pieces: Vec<u8>, length: i64) -> Value {
    Value::Dictionary(vec![
        (b"length".to_vec(), Value::Integer(length)),
        (b"name".to_vec(), bs(name)),
        (b"piece length".to_vec(), Value::Integer(piece_length)),
        (b"pieces".to_vec(), Value::ByteString(pieces)),
    ])
}

fn torrent_buffer(announce: &[u8], info: Value) -> Vec<u8> {
    let top = Value::Dictionary(vec![
        (b"announce".to_vec(), bs(announce)),
        (b"info".to_vec(), info),
    ]);
    encode(&top)
}

#[test]
fn parse_single_file_torrent() {
    let pieces = vec![7u8; 40];
    let buf = torrent_buffer(
        b"http://tracker.example/announce",
        single_file_info(b"file.txt", 16384, pieces.clone(), 1234),
    );
    let t = parse_torrent(&buf).expect("parsing failed");
    assert_eq!(t.announce, b"http://tracker.example/announce".to_vec());
    assert!(t.announce_list.is_none());
    assert_eq!(t.info.name, b"file.txt".to_vec());
    assert_eq!(t.info.piece_length, 16384);
    assert_eq!(t.info.pieces, pieces);
    match t.info.mode {
        FileMode::SingleFile { length } => assert_eq!(length, 1234),
        _ => panic!("expected a single-file torrent"),
    }
    // The recorded span holds exactly the encoded info dictionary.
    let info_bytes = encode(&single_file_info(b"file.txt", 16384, pieces, 1234));
    assert_eq!(buf[t.info_start..t.info_end].to_vec(), info_bytes);
}

#[test]
fn parse_multi_file_torrent() {
    let file1 = Value::Dictionary(vec![
        (b"length".to_vec(), Value::Integer(100)),
        (
            b"path".to_vec(),
            Value::List(vec![bs(b"dir"), bs(b"a.txt")]),
        ),
    ]);
    let file2 = Value::Dictionary(vec![
        (b"length".to_vec(), Value::Integer(200)),
        (b"path".to_vec(), Value::List(vec![bs(b"b.txt")])),
    ]);
    let info = Value::Dictionary(vec![
        (b"files".to_vec(), Value::List(vec![file1, file2])),
        (b"name".to_vec(), bs(b"album")),
        (b"piece length".to_vec(), Value::Integer(32768)),
        (b"pieces".to_vec(), Value::ByteString(vec![1u8; 20])),
    ]);
    let buf = torrent_buffer(b"udp://t.example:6969", info);
    let t = parse_torrent(&buf).expect("parsing failed");
    match &t.info.mode {
        FileMode::MultiFile { files } => {
            assert_eq!(files.len(), 2);
            assert_eq!(files[0].length, 100);
            assert_eq!(files[0].path, vec![b"dir".to_vec(), b"a.txt".to_vec()]);
            assert_eq!(files[1].length, 200);
            assert_eq!(files[1].path, vec![b"b.txt".to_vec()]);
        }
        _ => panic!("expected a multi-file torrent"),
    }
}

#[test]
fn parse_announce_list() {
    let tiers = Value::List(vec![
        Value::List(vec![bs(b"http://a"), bs(b"http://b")]),
        Value::List(vec![bs(b"http://c")]),
    ]);
    let top = Value::Dictionary(vec![
        (b"announce".to_vec(), bs(b"http://a")),
        (b"announce-list".to_vec(), tiers),
        (
            b"info".to_vec(),
            single_file_info(b"x", 1, vec![2u8; 20], 0),
        ),
    ]);
    let buf = encode(&top);
    let t = parse_torrent(&buf).expect("parsing failed");
    let al = t.announce_list.expect("announce-list missing");
    assert_eq!(al.len(), 2);
    assert_eq!(al[0], vec![b"http://a".to_vec(), b"http://b".to_vec()]);
    assert_eq!(al[1], vec![b"http://c".to_vec()]);
}

#[test]
fn info_hash_from_raw_span() {
    // Two documents identical within the info span, different outside it,
    // give the same info hash.
    let pieces = vec![9u8; 20];
    let info = single_file_info(b"same", 512, pieces, 77);
    let buf1 = torrent_buffer(b"http://first.example", encode_clone(&info));
    let buf2 = torrent_buffer(b"udp://second.example:1", encode_clone(&info));
    assert_ne!(buf1, buf2);
    let (_, h1) = load_torrent(&buf1).expect("parsing failed");
    let (_, h2) = load_torrent(&buf2).expect("parsing failed");
    assert_eq!(h1, h2);
    // And the hash is the digest of the raw span bytes themselves.
    let t = parse_torrent(&buf1).expect("parsing failed");
    let direct = compute_info_hash(&buf1[t.info_start..t.info_end]);
    assert_eq!(h1, direct);
}

/// Rebuilds a structurally equal value by decoding its encoding.
fn encode_clone(v: &Value) -> Value {
    let bytes = encode(v);
    bittorrentclient::decode::decode_value(&bytes, 0)
        .expect("decoding failed")
        .0
}

#[test]
fn sha1_known_vectors() {
    let h = compute_info_hash(b"abc");
    assert_eq!(
        h.to_vec(),
        hex::decode("a9993e364706816aba3e25717850c26c9cd0d89d").unwrap()
    );
    let h = compute_info_hash(b"");
    assert_eq!(
        h.to_vec(),
        hex::decode("da39a3ee5e6b4b0d3255bfef95601890afd80709").unwrap()
    );
}

#[test]
fn piece_hash_extraction() {
    let mut pieces: Vec<u8> = Vec::new();
    for i in 0..40u8 {
        pieces.push(i);
    }
    let hs = extract_piecce_hashes(&pieces).expect("splitting failed");
    assert_eq!(hs.len(), 2);
    assert_eq!(hs[0], (0..20u8).collect::<Vec<u8>>());
    assert_eq!(hs[1], (20..40u8).collect::<Vec<u8>>());

    let bad = vec![0u8; 39];
    assert_eq!(
        extract_piecce_hashes(&bad),
        Err(CryptoError::MalformedPieceTable)
    );
}

#[test]
fn validation_errors() {
    // Top level is not a dictionary.
    assert_eq!(
        parse_torrent(b"i5e"),
        Err(TorrentError::Validation(ValidationError::TypeMismatch(
            FieldName::Root,
            ExpectedKind::Dictionary
        )))
    );
    // The document does not decode at all.
    assert_eq!(
        parse_torrent(b"d8:announce"),
        Err(TorrentError::Decode(DecodeError::UnexpectedEnd))
    );
    // Announce missing.
    let top = Value::Dictionary(vec![(
        b"info".to_vec(),
        single_file_info(b"x", 1, vec![0u8; 20], 0),
    )]);
    assert_eq!(
        parse_torrent(&encode(&top)),
        Err(TorrentError::Validation(ValidationError::MissingField(
            FieldName::Announce
        )))
    );
    // Announce is not valid text.
    let top = Value::Dictionary(vec![
        (b"announce".to_vec(), Value::ByteString(vec![0xff, 0xfe])),
        (
            b"info".to_vec(),
            single_file_info(b"x", 1, vec![0u8; 20], 0),
        ),
    ]);
    assert_eq!(
        parse_torrent(&encode(&top)),
        Err(TorrentError::Validation(ValidationError::TypeMismatch(
            FieldName::Announce,
            ExpectedKind::Text
        )))
    );
    // Info missing.
    let top = Value::Dictionary(vec![(b"announce".to_vec(), bs(b"http://a"))]);
    assert_eq!(
        parse_torrent(&encode(&top)),
        Err(TorrentError::Validation(ValidationError::MissingField(
            FieldName::Info
        )))
    );
    // Piece table length not a multiple of twenty.
    let buf = torrent_buffer(b"http://a", single_file_info(b"x", 1, vec![0u8; 19], 0));
    assert_eq!(
        parse_torrent(&buf),
        Err(TorrentError::Validation(
            ValidationError::InvalidPieceTableLength
        ))
    );
    // Piece length must be positive.
    let buf = torrent_buffer(b"http://a", single_file_info(b"x", 0, vec![0u8; 20], 0));
    assert_eq!(
        parse_torrent(&buf),
        Err(TorrentError::Validation(ValidationError::TypeMismatch(
            FieldName::PieceLength,
            ExpectedKind::PositiveInteger
        )))
    );
    // Both length and files present.
    let info = Value::Dictionary(vec![
        (b"files".to_vec(), Value::List(vec![])),
        (b"length".to_vec(), Value::Integer(5)),
        (b"name".to_vec(), bs(b"x")),
        (b"piece length".to_vec(), Value::Integer(1)),
        (b"pieces".to_vec(), Value::ByteString(vec![0u8; 20])),
    ]);
    assert_eq!(
        parse_torrent(&torrent_buffer(b"http://a", info)),
        Err(TorrentError::Validation(ValidationError::ConflictingFileMode))
    );
    // Neither length nor files present.
    let info = Value::Dictionary(vec![
        (b"name".to_vec(), bs(b"x")),
        (b"piece length".to_vec(), Value::Integer(1)),
        (b"pieces".to_vec(), Value::ByteString(vec![0u8; 20])),
    ]);
    assert_eq!(
        parse_torrent(&torrent_buffer(b"http://a", info)),
        Err(TorrentError::Validation(ValidationError::ConflictingFileMode))
    );
}
