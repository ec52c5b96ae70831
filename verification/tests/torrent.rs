//! Tests of the torrent extractor: tracker classification, the
//! single-file and multi-file layouts, and each extraction error.

use typhoon::bencoding::Bencoding;
use typhoon::torrent::{
    ParseTorrentError, Torrent, TorrentKey, TrackerAddr, TryFromBencodingError,
};

#[test]
fn parsing_udp_tracker_addrs() {
    let tracker_string = "udp://tracker.leechers-paradise.org:6969";
    let expected = TrackerAddr::UDP("tracker.leechers-paradise.org:6969".to_owned());
    assert_eq!(expected, TrackerAddr::from(tracker_string));
}

#[test]
fn parsing_http_tracker_addrs() {
    let tracker_string = "http://tracker.leechers-paradise.org:6969";
    let expected = TrackerAddr::HTTP("http://tracker.leechers-paradise.org:6969".to_owned());
    assert_eq!(expected, TrackerAddr::from(tracker_string));
}

#[test]
fn classifying_udp_tracker_example() {
    let expected = TrackerAddr::UDP("tracker.example:6969".to_owned());
    assert_eq!(expected, TrackerAddr::from("udp://tracker.example:6969"));
}

#[test]
fn classifying_http_tracker_example() {
    let expected = TrackerAddr::HTTP("http://tracker.example".to_owned());
    assert_eq!(expected, TrackerAddr::from("http://tracker.example"));
}

#[test]
fn classifying_https_tracker() {
    let expected = TrackerAddr::HTTP("https://tracker.example".to_owned());
    assert_eq!(expected, TrackerAddr::from("https://tracker.example"));
}

#[test]
fn classifying_unknown_tracker() {
    let expected = TrackerAddr::Unknown("ftp://tracker.example".to_owned());
    assert_eq!(expected, TrackerAddr::from("ftp://tracker.example"));
}

#[test]
fn udp_marker_counts_anywhere_in_the_text() {
    let expected = TrackerAddr::UDP("rest".to_owned());
    assert_eq!(expected, TrackerAddr::from("wss+udp://rest"));
}

/// The smallest single-file torrent used by several tests: one `announce`
/// tracker and an info dictionary with `name`, `length`, `piece length`
/// and a 40-byte `pieces` string.
fn minimal_torrent_bytes() -> Vec<u8> {
    let mut bytes = Vec::new();
    bytes.extend_from_slice(b"d8:announce8:http://t4:infod");
    bytes.extend_from_slice(b"6:lengthi100e4:name4:spam12:piece lengthi20e6:pieces40:");
    bytes.extend_from_slice(&[b'a'; 40]);
    bytes.extend_from_slice(b"ee");
    bytes
}

#[test]
fn minimal_single_file_torrent_extracts() {
    let decoded = Bencoding::parse(&minimal_torrent_bytes()).unwrap();
    let torrent = Torrent::try_from(&decoded).unwrap();
    assert_eq!(false, torrent.private);
    assert_eq!(
        vec![(0u8, TrackerAddr::HTTP("http://t".to_owned()))],
        torrent.trackers
    );
    assert_eq!(1, torrent.files.len());
    assert_eq!("spam", torrent.files[0].name);
    assert_eq!(100, torrent.files[0].length);
    assert_eq!(20, torrent.piece_length);
    assert_eq!(2, torrent.piece_hashes.len());
    assert_eq!([b'a'; 20], torrent.piece_hashes[0].0);
    assert_eq!(None, torrent.creation);
    assert_eq!(None, torrent.comment);
    assert_eq!(None, torrent.created_by);
}

#[test]
fn bad_hash_length_is_reported() {
    let mut bytes = Vec::new();
    bytes.extend_from_slice(b"d8:announce8:http://t4:infod");
    bytes.extend_from_slice(b"6:lengthi100e4:name4:spam12:piece lengthi20e6:pieces25:");
    bytes.extend_from_slice(&[b'a'; 25]);
    bytes.extend_from_slice(b"ee");
    let decoded = Bencoding::parse(&bytes).unwrap();
    assert_eq!(
        Err(ParseTorrentError::BadHashLength(25)),
        Torrent::try_from(&decoded).map(|_| ())
    );
}

#[test]
fn announce_list_tiers_become_priorities() {
    let mut bytes = Vec::new();
    bytes.extend_from_slice(b"d13:announce-listll8:http://tel9:udp://h:1ee4:infod");
    bytes.extend_from_slice(b"6:lengthi1e4:name1:n12:piece lengthi1e6:pieces20:");
    bytes.extend_from_slice(&[0u8; 20]);
    bytes.extend_from_slice(b"ee");
    let decoded = Bencoding::parse(&bytes).unwrap();
    let torrent = Torrent::try_from(&decoded).unwrap();
    assert_eq!(
        vec![
            (0u8, TrackerAddr::HTTP("http://t".to_owned())),
            (1u8, TrackerAddr::UDP("h:1".to_owned())),
        ],
        torrent.trackers
    );
}

#[test]
fn multi_file_torrent_joins_paths() {
    let mut bytes = Vec::new();
    bytes.extend_from_slice(b"d8:announce8:http://t4:infod");
    bytes.extend_from_slice(b"5:filesl");
    bytes.extend_from_slice(b"d6:lengthi5e4:path1:ae");
    bytes.extend_from_slice(b"d6:lengthi7e4:path4:b.mpe");
    bytes.extend_from_slice(b"e");
    bytes.extend_from_slice(b"4:name3:dir12:piece lengthi20e6:pieces20:");
    bytes.extend_from_slice(&[b'h'; 20]);
    bytes.extend_from_slice(b"ee");
    let decoded = Bencoding::parse(&bytes).unwrap();
    let torrent = Torrent::try_from(&decoded).unwrap();
    assert_eq!(2, torrent.files.len());
    assert_eq!("dir/a", torrent.files[0].name);
    assert_eq!(5, torrent.files[0].length);
    assert_eq!("dir/b.mp", torrent.files[1].name);
    assert_eq!(7, torrent.files[1].length);
}

#[test]
fn optional_fields_are_read() {
    let mut bytes = Vec::new();
    bytes.extend_from_slice(b"d8:announce8:http://t7:comment2:hi10:created by2:me");
    bytes.extend_from_slice(b"13:creation datei1000e4:infod");
    bytes.extend_from_slice(b"6:lengthi1e4:name1:n12:piece lengthi1e6:pieces20:");
    bytes.extend_from_slice(&[0u8; 20]);
    bytes.extend_from_slice(b"7:privatei1e");
    bytes.extend_from_slice(b"ee");
    let decoded = Bencoding::parse(&bytes).unwrap();
    let torrent = Torrent::try_from(&decoded).unwrap();
    assert_eq!(Some("hi".to_owned()), torrent.comment);
    assert_eq!(Some("me".to_owned()), torrent.created_by);
    assert_eq!(Some(1000), torrent.creation);
    assert_eq!(true, torrent.private);
}

#[test]
fn private_zero_is_not_private() {
    let mut bytes = Vec::new();
    bytes.extend_from_slice(b"d8:announce8:http://t4:infod");
    bytes.extend_from_slice(b"6:lengthi1e4:name1:n12:piece lengthi1e6:pieces20:");
    bytes.extend_from_slice(&[0u8; 20]);
    bytes.extend_from_slice(b"7:privatei0e");
    bytes.extend_from_slice(b"ee");
    let decoded = Bencoding::parse(&bytes).unwrap();
    let torrent = Torrent::try_from(&decoded).unwrap();
    assert_eq!(false, torrent.private);
}

#[test]
fn negative_creation_date_exceeds_system_time() {
    let mut bytes = Vec::new();
    bytes.extend_from_slice(b"d8:announce8:http://t13:creation datei-5e4:infod");
    bytes.extend_from_slice(b"6:lengthi1e4:name1:n12:piece lengthi1e6:pieces20:");
    bytes.extend_from_slice(&[0u8; 20]);
    bytes.extend_from_slice(b"ee");
    let decoded = Bencoding::parse(&bytes).unwrap();
    assert_eq!(
        Err(ParseTorrentError::Bencoding(
            TryFromBencodingError::ExceedsSystemTime(-5)
        )),
        Torrent::try_from(&decoded).map(|_| ())
    );
}

#[test]
fn non_utf8_comment_is_rejected() {
    let mut bytes = Vec::new();
    bytes.extend_from_slice(b"d8:announce8:http://t7:comment2:\xff\xfe4:infod");
    bytes.extend_from_slice(b"6:lengthi1e4:name1:n12:piece lengthi1e6:pieces20:");
    bytes.extend_from_slice(&[0u8; 20]);
    bytes.extend_from_slice(b"ee");
    let decoded = Bencoding::parse(&bytes).unwrap();
    assert_eq!(
        Err(ParseTorrentError::Bencoding(TryFromBencodingError::NotUTF8)),
        Torrent::try_from(&decoded).map(|_| ())
    );
}

#[test]
fn missing_announce_is_reported() {
    let decoded = Bencoding::parse(b"de").unwrap();
    assert_eq!(
        Err(ParseTorrentError::Bencoding(
            TryFromBencodingError::MissingKey(TorrentKey::Announce)
        )),
        Torrent::try_from(&decoded).map(|_| ())
    );
}

#[test]
fn missing_info_is_reported() {
    let decoded = Bencoding::parse(b"d8:announce8:http://te").unwrap();
    assert_eq!(
        Err(ParseTorrentError::Bencoding(
            TryFromBencodingError::MissingKey(TorrentKey::Info)
        )),
        Torrent::try_from(&decoded).map(|_| ())
    );
}

#[test]
fn non_dict_top_level_is_rejected() {
    let decoded = Bencoding::parse(b"i1e").unwrap();
    assert_eq!(
        Err(ParseTorrentError::Bencoding(
            TryFromBencodingError::ExpectedDict
        )),
        Torrent::try_from(&decoded).map(|_| ())
    );
}

#[test]
fn non_integer_piece_length_is_rejected() {
    let mut bytes = Vec::new();
    bytes.extend_from_slice(b"d8:announce8:http://t4:infod");
    bytes.extend_from_slice(b"6:lengthi1e4:name1:n12:piece length2:no6:pieces20:");
    bytes.extend_from_slice(&[0u8; 20]);
    bytes.extend_from_slice(b"ee");
    let decoded = Bencoding::parse(&bytes).unwrap();
    assert_eq!(
        Err(ParseTorrentError::Bencoding(
            TryFromBencodingError::ExpectedInt
        )),
        Torrent::try_from(&decoded).map(|_| ())
    );
}

#[test]
fn non_list_announce_list_is_rejected() {
    let decoded = Bencoding::parse(b"d13:announce-listi1ee").unwrap();
    assert_eq!(
        Err(ParseTorrentError::Bencoding(
            TryFromBencodingError::ExpectedList
        )),
        Torrent::try_from(&decoded).map(|_| ())
    );
}

#[test]
fn non_bytestring_tracker_is_rejected() {
    let decoded = Bencoding::parse(b"d8:announcei1ee").unwrap();
    assert_eq!(
        Err(ParseTorrentError::Bencoding(
            TryFromBencodingError::ExpectedByteString
        )),
        Torrent::try_from(&decoded).map(|_| ())
    );
}
