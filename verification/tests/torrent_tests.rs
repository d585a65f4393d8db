use ratio_spoof_core::bencode::BencodeError;
use ratio_spoof_core::torrent::{parse_torrent, torrent_parse_panics, url_encode_bytes, TorrentError};
use sha1::{Digest, Sha1};

#[test]
fn test_url_encode_bytes() {
    let bytes = vec![0x12, 0x34, b'A', b'z', 0xff];
    let encoded = url_encode_bytes(&bytes);
    assert_eq!(encoded, "%124Az%ff");
}

#[test]
fn url_encoding_keeps_unreserved_bytes() {
    assert_eq!(url_encode_bytes(b"a.b-c_d~e09Z"), "a.b-c_d~e09Z");
    assert_eq!(url_encode_bytes(b" /%"), "%20%2f%25");
    assert_eq!(url_encode_bytes(b""), "");
}

#[test]
fn url_encoding_tells_bytes_apart() {
    // `%` is encoded itself, so no encoded text reads as another byte string.
    assert_ne!(url_encode_bytes(b"%41"), url_encode_bytes(b"A"));
    assert_ne!(url_encode_bytes(b"%25"), url_encode_bytes(b"%"));
}

fn bstr(s: &[u8]) -> Vec<u8> {
    let mut out = format!("{}:", s.len()).into_bytes();
    out.extend_from_slice(s);
    out
}

fn info_single() -> Vec<u8> {
    let mut v = b"d".to_vec();
    v.extend(bstr(b"length"));
    v.extend(b"i1000e");
    v.extend(bstr(b"name"));
    v.extend(bstr(b"file.bin"));
    v.extend(bstr(b"piece length"));
    v.extend(b"i16384e");
    v.extend(b"e");
    v
}

fn torrent_with(announce: &[u8], list: Option<Vec<u8>>, info: &[u8]) -> Vec<u8> {
    let mut v = b"d".to_vec();
    v.extend(bstr(b"announce"));
    v.extend(bstr(announce));
    if let Some(l) = list {
        v.extend(bstr(b"announce-list"));
        v.extend(l);
    }
    v.extend(bstr(b"info"));
    v.extend_from_slice(info);
    v.extend(b"e");
    v
}

fn tiers() -> Vec<u8> {
    let mut l = b"l".to_vec();
    l.extend(b"l");
    l.extend(bstr(b"http://tracker.test/ann"));
    l.extend(b"e");
    l.extend(b"l");
    l.extend(bstr(b"udp://other.test/x"));
    l.extend(bstr(b"http://second.test/ann"));
    l.extend(bstr(b"http://tracker.test/ann"));
    l.extend(b"e");
    l.extend(b"e");
    l
}

#[test]
fn reads_single_file_torrent() {
    let info = info_single();
    let data = torrent_with(b"http://tracker.test/ann", Some(tiers()), &info);
    assert!(!torrent_parse_panics(&data));
    let t = parse_torrent(&data).unwrap();
    assert_eq!(t.name, "file.bin");
    assert_eq!(t.total_size, 1000);
    assert_eq!(t.piece_length, 16384);
    assert_eq!(t.trackers, vec!["http://tracker.test/ann".to_string(), "http://second.test/ann".to_string()]);
    let expected: Vec<u8> = Sha1::digest(&info).to_vec();
    assert_eq!(t.info_hash_bytes, expected);
    assert_eq!(t.info_hash_bytes.len(), 20);
    assert_eq!(t.info_hash, url_encode_bytes(&expected));
    assert_ne!(t.info_hash_bytes, info);
}

#[test]
fn reads_multi_file_torrent() {
    let mut info = b"d".to_vec();
    info.extend(bstr(b"files"));
    info.extend(b"ld");
    info.extend(bstr(b"length"));
    info.extend(b"i300e");
    info.extend(b"ed");
    info.extend(bstr(b"length"));
    info.extend(b"i700e");
    info.extend(b"ee");
    info.extend(bstr(b"name"));
    info.extend(bstr(b"dir"));
    info.extend(bstr(b"piece length"));
    info.extend(b"i-1e");
    info.extend(b"e");
    let data = torrent_with(b"https://secure.test/a", None, &info);
    let t = parse_torrent(&data).unwrap();
    assert_eq!(t.total_size, 1000);
    assert_eq!(t.name, "dir");
    // The piece length is converted with `as u64`.
    assert_eq!(t.piece_length, u64::MAX);
    assert_eq!(t.trackers, vec!["https://secure.test/a".to_string()]);
}

#[test]
fn refuses_torrents_without_http_trackers() {
    let data = torrent_with(b"udp://only.test/a", None, &info_single());
    assert_eq!(parse_torrent(&data).err(), Some(TorrentError::NoHttpTrackers));
}

#[test]
fn refuses_missing_info_dictionary() {
    let data = b"d8:announce14:http://a.test/e".to_vec();
    assert_eq!(parse_torrent(&data).err(), Some(TorrentError::NoInfoDict));
}

#[test]
fn refuses_bad_bencode_and_bad_root() {
    let mut data = b"d4:infode".to_vec();
    data.extend(b"xx");
    // The info dictionary closes, but the file is not one value followed
    // by anything the reader accepts: the root is read, the rest ignored.
    assert!(parse_torrent(&data).is_err());
    let data = b"l4:infodee".to_vec();
    assert_eq!(parse_torrent(&data).err(), Some(TorrentError::RootNotDict));
    let data = b"?4:infodee".to_vec();
    assert_eq!(
        parse_torrent(&data).err(),
        Some(TorrentError::Bencode(BencodeError::UnexpectedCharacter(b'?')))
    );
}

#[test]
fn reports_each_missing_field() {
    let mk = |info: &[u8]| torrent_with(b"http://t.test/a", None, info);
    let mut no_name = b"d".to_vec();
    no_name.extend(bstr(b"length"));
    no_name.extend(b"i5e");
    no_name.extend(bstr(b"piece length"));
    no_name.extend(b"i4e");
    no_name.extend(b"e");
    assert_eq!(parse_torrent(&mk(&no_name)).err(), Some(TorrentError::MissingName));

    let mut no_piece = b"d".to_vec();
    no_piece.extend(bstr(b"length"));
    no_piece.extend(b"i5e");
    no_piece.extend(bstr(b"name"));
    no_piece.extend(bstr(b"n"));
    no_piece.extend(b"e");
    assert_eq!(parse_torrent(&mk(&no_piece)).err(), Some(TorrentError::MissingPieceLength));

    let mut bad_length = b"d".to_vec();
    bad_length.extend(bstr(b"length"));
    bad_length.extend(bstr(b"5"));
    bad_length.extend(bstr(b"name"));
    bad_length.extend(bstr(b"n"));
    bad_length.extend(bstr(b"piece length"));
    bad_length.extend(b"i4e");
    bad_length.extend(b"e");
    assert_eq!(parse_torrent(&mk(&bad_length)).err(), Some(TorrentError::InvalidLength));

    let mut no_size = b"d".to_vec();
    no_size.extend(bstr(b"name"));
    no_size.extend(bstr(b"n"));
    no_size.extend(bstr(b"piece length"));
    no_size.extend(b"i4e");
    no_size.extend(b"e");
    assert_eq!(parse_torrent(&mk(&no_size)).err(), Some(TorrentError::NoLengthOrFiles));

    let mut files_not_list = b"d".to_vec();
    files_not_list.extend(bstr(b"files"));
    files_not_list.extend(b"i1e");
    files_not_list.extend(bstr(b"name"));
    files_not_list.extend(bstr(b"n"));
    files_not_list.extend(bstr(b"piece length"));
    files_not_list.extend(b"i4e");
    files_not_list.extend(b"e");
    assert_eq!(parse_torrent(&mk(&files_not_list)).err(), Some(TorrentError::FilesNotList));

    let mut file_not_dict = b"d".to_vec();
    file_not_dict.extend(bstr(b"files"));
    file_not_dict.extend(b"li1ee");
    file_not_dict.extend(bstr(b"name"));
    file_not_dict.extend(bstr(b"n"));
    file_not_dict.extend(bstr(b"piece length"));
    file_not_dict.extend(b"i4e");
    file_not_dict.extend(b"e");
    assert_eq!(parse_torrent(&mk(&file_not_dict)).err(), Some(TorrentError::FileNotDict));

    let mut file_no_length = b"d".to_vec();
    file_no_length.extend(bstr(b"files"));
    file_no_length.extend(b"ldee");
    file_no_length.extend(bstr(b"name"));
    file_no_length.extend(bstr(b"n"));
    file_no_length.extend(bstr(b"piece length"));
    file_no_length.extend(b"i4e");
    file_no_length.extend(b"e");
    assert_eq!(parse_torrent(&mk(&file_no_length)).err(), Some(TorrentError::FileMissingLength));

    let no_info = b"d8:announce14:http://a.test/1:x8:4:infodee".to_vec();
    assert_eq!(parse_torrent(&no_info).err(), Some(TorrentError::MissingInfo));

    let mut info_not_dict = b"d".to_vec();
    info_not_dict.extend(bstr(b"announce"));
    info_not_dict.extend(bstr(b"http://a.test/"));
    info_not_dict.extend(bstr(b"info"));
    info_not_dict.extend(b"i1e");
    info_not_dict.extend(bstr(b"x"));
    info_not_dict.extend(bstr(b"4:infode"));
    info_not_dict.extend(b"e");
    assert_eq!(parse_torrent(&info_not_dict).err(), Some(TorrentError::InfoNotDict));
}

#[test]
fn finds_where_the_reader_panics() {
    let mut data = b"d4:infod4:name1:xe".to_vec();
    data.extend(bstr(b"announce"));
    data.extend(b"99:http");
    assert!(torrent_parse_panics(&data));
    assert!(!torrent_parse_panics(&torrent_with(b"http://t.test/a", None, &info_single())));
}

#[test]
fn torrent_error_messages() {
    assert_eq!(TorrentError::NoHttpTrackers.message(), "No HTTP trackers found in torrent file");
    assert_eq!(TorrentError::NoLengthOrFiles.message(), "Torrent has neither 'length' nor 'files' field");
    assert_eq!(
        TorrentError::Bencode(BencodeError::UnexpectedCharacter(b'x')).message(),
        "Unexpected character: x"
    );
}
