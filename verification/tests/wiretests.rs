use bittorrentclient::hash::compute_info_hash;
use bittorrentclient::wire::{build_handshake, parse_compact_peers, percent_encode_bytes};

#[test]
fn compact_peers_parse() {
    let data: Vec<u8> = vec![127, 0, 0, 1, 0x1a, 0xe1, 10, 0, 0, 2, 0x00, 0x50];
    let ps = parse_compact_peers(&data).expect("parsing failed");
    assert_eq!(ps.len(), 2);
    assert_eq!(ps[0].ip, (127, 0, 0, 1));
    assert_eq!(ps[0].port, 6881);
    assert_eq!(ps[1].ip, (10, 0, 0, 2));
    assert_eq!(ps[1].port, 80);

    assert_eq!(parse_compact_peers(&[]).expect("parsing failed").len(), 0);
    assert!(parse_compact_peers(&[1, 2, 3, 4, 5, 6, 7]).is_none());
}

#[test]
fn handshake_layout() {
    let info_hash = vec![0xabu8; 20];
    let peer_id: Vec<u8> = b"-BT7110-abcdefghijkl".to_vec();
    let hs = build_handshake(&info_hash, &peer_id);
    assert_eq!(hs.len(), 68);
    assert_eq!(hs[0], 19);
    assert_eq!(&hs[1..20], b"BitTorrent protocol");
    assert_eq!(&hs[20..28], &[0u8; 8]);
    assert_eq!(&hs[28..48], info_hash.as_slice());
    assert_eq!(&hs[48..68], peer_id.as_slice());
}

#[test]
fn percent_encoding() {
    assert_eq!(percent_encode_bytes(&b"abcXYZ019".to_vec()), b"abcXYZ019".to_vec());
    assert_eq!(percent_encode_bytes(&vec![0xab]), b"%AB".to_vec());
    assert_eq!(percent_encode_bytes(&b"a b/c".to_vec()), b"a%20b%2Fc".to_vec());
    assert_eq!(percent_encode_bytes(&vec![0x00, 0xff]), b"%00%FF".to_vec());
}

#[test]
fn percent_encoded_info_hash() {
    // The transport form of a real digest.
    let h = compute_info_hash(b"abc").to_vec();
    let enc = percent_encode_bytes(&h);
    let expected = hex::decode("a9993e364706816aba3e25717850c26c9cd0d89d").unwrap();
    // Decoding the percent form byte-for-byte gives back the digest.
    let mut back: Vec<u8> = Vec::new();
    let mut i = 0;
    while i < enc.len() {
        if enc[i] == b'%' {
            let hi = (enc[i + 1] as char).to_digit(16).unwrap() as u8;
            let lo = (enc[i + 2] as char).to_digit(16).unwrap() as u8;
            back.push(hi * 16 + lo);
            i += 3;
        } else {
            back.push(enc[i]);
            i += 1;
        }
    }
    assert_eq!(back, expected);
}
