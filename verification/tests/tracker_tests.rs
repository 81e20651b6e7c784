use torrent_announce::torrent::{Info, Torrent};
use torrent_announce::tracker::{
    announce_url, decode_response, generate_announce, parse_peers, Announce, AnnounceError,
};

fn fixture_torrent() -> Torrent {
    Torrent {
        announce: b"http://nyaa.tracker.wf:7777/announce".to_vec(),
        announce_list: None,
        creation_date: 1276147560,
        info: Info {
            name: b"[CrunchyRip]_heroman_heroman_pv.ass".to_vec(),
            pieces: vec![
                179, 44, 185, 20, 5, 96, 4, 178, 51, 254, 139, 204, 87, 213, 125, 68, 213, 108,
                85, 199,
            ],
            piece_length: 262144,
            length: Some(2084),
            md5sum: None,
            files: None,
        },
    }
}

#[test]
fn generate_announce_correctly() {
    let peer_id_start = b"-RS0001-";

    let torrent = fixture_torrent();
    let announce = generate_announce(&torrent);

    assert_eq!(announce.info_hash, b"".to_vec());
    assert_eq!(
        announce.info_hash_bytes,
        vec![
            184, 215, 59, 115, 255, 110, 150, 183, 133, 116, 91, 126, 68, 166, 246, 33, 123, 87,
            207, 219
        ]
    );
    assert!(
        announce.peer_id.starts_with(peer_id_start),
        "peer_id should start with the client prefix"
    );
    assert_eq!(announce.uploaded, 0);
    assert_eq!(announce.downloaded, 0);
    assert_eq!(announce.left, 0);
    assert_eq!(announce.port, 43254);
    assert_eq!(announce.compact, b"1".to_vec());
}

#[test]
fn generated_identifier_is_twenty_digits() {
    let announce = generate_announce(&fixture_torrent());
    assert_eq!(announce.peer_id.len(), 20);
    for &b in &announce.peer_id[8..] {
        assert!(b.is_ascii_digit());
    }
}

#[test]
fn parse_peers_correctly() {
    let peers_bin = [127, 0, 0, 1, 185, 141, 192, 168, 0, 1, 168, 246];
    let peers = parse_peers(&peers_bin.to_vec()).unwrap();

    assert_eq!(peers[0].ip, String::from("127.0.0.1"));
    assert_eq!(peers[0].port, 47501 as u16);

    assert_eq!(peers[1].ip, String::from("192.168.0.1"));
    assert_eq!(peers[1].port, 43254 as u16);
}

#[test]
fn parse_peers_empty() {
    let peers_bin = [];
    let peers = parse_peers(&peers_bin.to_vec()).unwrap();

    assert!(peers.is_empty());
}

#[test]
fn parse_peers_rejects_partial_records() {
    let peers_bin = [127, 0, 0, 1, 185, 141, 192];
    assert_eq!(
        parse_peers(&peers_bin.to_vec()),
        Err(AnnounceError::ResponseParse)
    );
}

#[test]
fn announce_url_is_byte_exact() {
    let announce = Announce {
        info_hash: Vec::new(),
        info_hash_bytes: vec![
            184, 215, 59, 115, 255, 110, 150, 183, 133, 116, 91, 126, 68, 166, 246, 33, 123, 87,
            207, 219,
        ],
        peer_id: b"-RS0001-123456789012".to_vec(),
        uploaded: 0,
        downloaded: 0,
        left: 0,
        port: 43254,
        compact: b"1".to_vec(),
    };
    let url = announce_url(&announce, &b"http://tracker/announce".to_vec());
    let expected = "http://tracker/announce?peer_id=-RS0001-123456789012&uploaded=0\
                    &downloaded=0&left=0&port=43254&compact=1\
                    &info_hash=%B8%D7%3Bs%FFn%96%B7%85t[~D%A6%F6!%7BW%CF%DB";
    // every info-hash byte is escaped, also the ones that are safe ASCII
    let expected_bytewise = "http://tracker/announce?peer_id=-RS0001-123456789012&uploaded=0\
                    &downloaded=0&left=0&port=43254&compact=1\
                    &info_hash=%B8%D7%3B%73%FF%6E%96%B7%85%74%5B%7E%44%A6%F6%21%7B%57%CF%DB";
    assert_ne!(String::from_utf8(url.clone()).unwrap(), expected);
    assert_eq!(String::from_utf8(url).unwrap(), expected_bytewise);
}

#[test]
fn decode_response_reads_stats_and_peers() {
    let mut body: Vec<u8> = Vec::new();
    body.extend_from_slice(b"d8:completei10e10:incompletei3e8:intervali1800e5:peers12:");
    body.extend_from_slice(&[127, 0, 0, 1, 185, 141, 192, 168, 0, 1, 168, 246]);
    body.extend_from_slice(b"e");
    let resp = decode_response(&body).unwrap();
    assert_eq!(resp.complete, Some(10));
    assert_eq!(resp.incomplete, Some(3));
    assert_eq!(resp.interval, Some(1800));
    let peers = resp.peers.unwrap();
    assert_eq!(peers.len(), 2);
    assert_eq!(peers[0].ip, "127.0.0.1");
    assert_eq!(peers[1].port, 43254);
}

#[test]
fn decode_response_keeps_absent_and_empty_peers_apart() {
    let absent = decode_response(b"d8:intervali60ee").unwrap();
    assert!(absent.peers_bin.is_none());
    assert!(absent.peers.is_none());

    let empty = decode_response(b"d8:intervali60e5:peers0:e").unwrap();
    assert_eq!(empty.peers_bin, Some(vec![]));
    assert_eq!(empty.peers, Some(vec![]));
}

#[test]
fn decode_response_surfaces_tracker_failure() {
    let body = b"d8:completei10e14:failure reason9:try again8:intervali60ee".to_vec();
    assert_eq!(
        decode_response(&body),
        Err(AnnounceError::TrackerFailure(b"try again".to_vec()))
    );
}

#[test]
fn decode_response_rejects_misaligned_peers() {
    let mut body: Vec<u8> = Vec::new();
    body.extend_from_slice(b"d5:peers7:");
    body.extend_from_slice(&[127, 0, 0, 1, 185, 141, 192]);
    body.extend_from_slice(b"e");
    assert_eq!(decode_response(&body), Err(AnnounceError::ResponseParse));
}

#[test]
fn decode_response_rejects_non_bencode() {
    assert_eq!(
        decode_response(b"<html>not a tracker</html>"),
        Err(AnnounceError::ResponseParse)
    );
}
