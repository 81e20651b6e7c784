use torrent_announce::torrent::{encode_info, parse, Info, MetainfoError};

const PIECES: [u8; 20] = [
    179, 44, 185, 20, 5, 96, 4, 178, 51, 254, 139, 204, 87, 213, 125, 68, 213, 108, 85, 199,
];

fn fixture() -> Vec<u8> {
    let mut doc: Vec<u8> = Vec::new();
    doc.extend_from_slice(b"d8:announce36:http://nyaa.tracker.wf:7777/announce");
    doc.extend_from_slice(b"13:announce-listll36:http://nyaa.tracker.wf:7777/announceee");
    doc.extend_from_slice(b"13:creation datei1276147560e");
    doc.extend_from_slice(b"4:infod6:lengthi2084e4:name35:[CrunchyRip]_heroman_heroman_pv.ass");
    doc.extend_from_slice(b"12:piece lengthi262144e6:pieces20:");
    doc.extend_from_slice(&PIECES);
    doc.extend_from_slice(b"ee");
    doc
}

#[test]
fn parse_string_torrent() {
    let torrent = parse(&fixture()).unwrap();
    assert_eq!(torrent.announce, b"http://nyaa.tracker.wf:7777/announce".to_vec());
    assert!(torrent.announce_list.is_some());
    assert_eq!(torrent.creation_date, 1276147560);

    assert_eq!(torrent.info.name, b"[CrunchyRip]_heroman_heroman_pv.ass".to_vec());
    assert_eq!(torrent.info.pieces, PIECES.to_vec());
    assert_eq!(torrent.info.piece_length, 262144);
    assert_eq!(torrent.info.length.unwrap(), 2084);
}

#[test]
fn parse_rejects_truncated_document() {
    let mut doc = fixture();
    doc.truncate(doc.len() - 30);
    assert!(matches!(parse(&doc), Err(MetainfoError::Syntax(_))));
}

#[test]
fn parse_rejects_missing_info() {
    let doc = b"d8:announce3:url13:creation datei5ee".to_vec();
    assert_eq!(parse(&doc), Err(MetainfoError::Invalid));
}

#[test]
fn parse_rejects_misaligned_pieces() {
    // 21 piece bytes: not a whole number of 20-byte hashes
    let mut doc: Vec<u8> = Vec::new();
    doc.extend_from_slice(b"d8:announce3:url13:creation datei5e");
    doc.extend_from_slice(b"4:infod4:name1:x12:piece lengthi16384e6:pieces21:");
    doc.extend_from_slice(&[7u8; 21]);
    doc.extend_from_slice(b"ee");
    assert_eq!(parse(&doc), Err(MetainfoError::Invalid));
}

#[test]
fn parse_keeps_optional_fields_apart() {
    // no announce-list, no length: both stay absent rather than defaulted
    let mut doc: Vec<u8> = Vec::new();
    doc.extend_from_slice(b"d8:announce3:url13:creation datei5e");
    doc.extend_from_slice(b"4:infod4:name1:x12:piece lengthi16384e6:pieces0:ee");
    let torrent = parse(&doc).unwrap();
    assert!(torrent.announce_list.is_none());
    assert!(torrent.info.length.is_none());
    assert!(torrent.info.files.is_none());
    assert!(torrent.info.md5sum.is_none());
}

#[test]
fn parse_reads_multi_file_torrents() {
    let mut doc: Vec<u8> = Vec::new();
    doc.extend_from_slice(b"d8:announce3:url13:creation datei5e4:infod");
    doc.extend_from_slice(b"5:filesld6:lengthi10e4:path3:a/bed6:lengthi20e4:path3:c/dee");
    doc.extend_from_slice(b"4:name1:x12:piece lengthi16384e6:pieces0:ee");
    let torrent = parse(&doc).unwrap();
    let files = torrent.info.files.unwrap();
    assert_eq!(files.len(), 2);
    assert_eq!(files[0].length, 10);
    assert_eq!(files[0].path, b"a/b".to_vec());
    assert_eq!(files[1].length, 20);
    assert_eq!(files[1].path, b"c/d".to_vec());
}

#[test]
fn info_reencoding_is_canonical() {
    let info = Info {
        name: b"x".to_vec(),
        pieces: vec![],
        piece_length: 16384,
        length: Some(9),
        md5sum: None,
        files: None,
    };
    let mut expected: Vec<u8> = Vec::new();
    expected.extend_from_slice(b"d6:lengthi9e4:name1:x12:piece lengthi16384e6:pieces0:e");
    assert_eq!(encode_info(&info), expected);
}
