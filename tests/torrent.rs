use bencode::{
    escape_byte, escape_info_hash, info_hash, parse_peers, peers_from_response, piece_hashes,
    tracker_url, BencodeTypes, Commands, Dict, LookupError, Peer, TrackerError,
};

fn to_hex(b: &[u8]) -> String {
    b.iter().map(|x| format!("{:02x}", x)).collect()
}

fn sample_metainfo() -> Vec<u8> {
    let mut m = b"d8:announce31:http://tracker.example/announce4:infod4:name10:sample.txt6:lengthi92063e6:pieces60:".to_vec();
    m.extend((0..60u8).collect::<Vec<u8>>());
    m.extend_from_slice(b"12:piece lengthi32768eee");
    m
}

#[test]
fn info_hash_of_canonical_info() {
    let meta = BencodeTypes::decode(sample_metainfo()).unwrap();
    let h = info_hash(&meta).unwrap();
    assert_eq!(to_hex(&h), "f519c3a24144a8649e58efc3e359b51a386054d6");
    let info = meta.get_dict("info").unwrap();
    let mut canonical = b"d6:lengthi92063e4:name10:sample.txt12:piece lengthi32768e6:pieces60:".to_vec();
    canonical.extend((0..60u8).collect::<Vec<u8>>());
    canonical.push(b'e');
    assert_eq!(BencodeTypes::encode(info), canonical);
}

#[test]
fn info_hash_needs_info_dictionary() {
    let meta = BencodeTypes::decode(b"d4:infoi1ee".to_vec()).unwrap();
    assert_eq!(info_hash(&meta), Err(LookupError::WrongVariant));
    let meta = BencodeTypes::decode(b"de".to_vec()).unwrap();
    assert_eq!(info_hash(&meta), Err(LookupError::MissingKey));
}

#[test]
fn pieces_split_into_twenty_bytes() {
    let pieces: Vec<u8> = (0..60u8).collect();
    let hs = piece_hashes(&pieces).unwrap();
    assert_eq!(hs.len(), 3);
    assert_eq!(hs[0], (0..20u8).collect::<Vec<u8>>());
    assert_eq!(hs[2], (40..60u8).collect::<Vec<u8>>());
    assert_eq!(piece_hashes(&pieces[..59]), None);
    assert_eq!(piece_hashes(&[]), Some(vec![]));
}

#[test]
fn escapes_single_bytes() {
    assert_eq!(escape_byte(b'a', true), b"a".to_vec());
    assert_eq!(escape_byte(b' ', false), b"+".to_vec());
    assert_eq!(escape_byte(0x1f, false), b"%1F".to_vec());
    assert_eq!(escape_byte(0xab, false), b"%AB".to_vec());
}

#[test]
fn escapes_info_hash() {
    let h = [b'A', b'z', b'0', b'.', b'-', b'_', b'~', b' ', 0x00, 0xff, b'/', 0x5a];
    assert_eq!(escape_info_hash(&h), Some(b"Az0.-_~+%00%FF%2FZ".to_vec()));
}

#[test]
fn builds_tracker_url() {
    let url = tracker_url(b"http://tracker.example/announce", &[0x12, b'a', b' '], 92063).unwrap();
    assert_eq!(
        url,
        "http://tracker.example/announce?info_hash=%12a+&peer_id=235d860da2a4484c8908&port=6881&downloaded=0&uploaded=0&left=92063&compact=1"
    );
    let url = tracker_url(b"http://t.example/a", &[], -5).unwrap();
    assert!(url.ends_with("&left=-5&compact=1"));
    assert_eq!(tracker_url(b"not a url", &[1], 1), None);
}

#[test]
fn parses_compact_peers() {
    let raw = [192, 168, 0, 1, 0x1a, 0xe1, 10, 0, 0, 2, 0, 80];
    let peers = parse_peers(&raw).unwrap();
    assert_eq!(peers, vec![Peer { ip: (192, 168, 0, 1), port: 6881 }, Peer { ip: (10, 0, 0, 2), port: 80 }]);
    assert_eq!(peers[0].to_text(), "192.168.0.1:6881");
    assert_eq!(peers[1].to_text(), "10.0.0.2:80");
    assert_eq!(parse_peers(&raw[..7]), None);
}

#[test]
fn tracker_reply_outcomes() {
    let mut d = Dict::new();
    d.insert(b"failure reason".to_vec(), BencodeTypes::ByteString(b"denied".to_vec()));
    d.insert(b"peers".to_vec(), BencodeTypes::ByteString(vec![1, 2, 3, 4, 0, 1]));
    let reply = BencodeTypes::Dictionary(d);
    assert_eq!(peers_from_response(&reply), Err(TrackerError::Failure(b"denied".to_vec())));

    let reply = BencodeTypes::decode(b"d8:intervali60e5:peers6:\x7f\x00\x00\x01\x1a\xe1e".to_vec()).unwrap();
    assert_eq!(peers_from_response(&reply), Ok(vec![Peer { ip: (127, 0, 0, 1), port: 6881 }]));

    let reply = BencodeTypes::decode(b"d5:peers5:abcdee".to_vec()).unwrap();
    assert_eq!(peers_from_response(&reply), Err(TrackerError::MalformedPeers));

    let reply = BencodeTypes::decode(b"d8:intervali60ee".to_vec()).unwrap();
    assert_eq!(peers_from_response(&reply), Err(TrackerError::NoPeers(LookupError::MissingKey)));

    let reply = BencodeTypes::decode(b"d5:peersleee".to_vec()).unwrap();
    assert_eq!(peers_from_response(&reply), Err(TrackerError::NoPeers(LookupError::WrongVariant)));
}

#[test]
fn command_names() {
    assert_eq!(Commands::from_str("decode"), Ok(Commands::Decode));
    assert_eq!(Commands::from_str("info"), Ok(Commands::Info));
    assert_eq!(Commands::from_str("peers"), Ok(Commands::Peers));
    assert_eq!(Commands::from_str("Peers"), Err("Invalid command Peers".to_string()));
    assert_eq!(Commands::from_str(""), Err("Invalid command ".to_string()));
}

#[test]
fn empty_info_hash_escapes_to_nothing() {
    assert_eq!(escape_info_hash(&[]), Some(vec![]));
    assert_eq!(
        tracker_url(b"http://t.example/a", &[], 0),
        Some("http://t.example/a?info_hash=&peer_id=235d860da2a4484c8908&port=6881&downloaded=0&uploaded=0&left=0&compact=1".to_string())
    );
}
