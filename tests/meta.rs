use boost_torrent::bencode::BencodeValue;
use boost_torrent::error::BoostError;
use boost_torrent::meta::{make_info_hash, parse_announce, parse_fileinfo, parse_pieces, FileInfo, MetaInfo};

fn info_single() -> Vec<u8> {
    let mut v = b"d6:lengthi40000e4:name8:file.bin12:piece lengthi32768e6:pieces40:".to_vec();
    v.extend_from_slice(&[b'A'; 20]);
    v.extend_from_slice(&[b'B'; 20]);
    v.push(b'e');
    v
}

fn metafile(info: &[u8]) -> Vec<u8> {
    let mut v = b"d8:announce35:http://tracker.example.com:6969/ann4:info".to_vec();
    v.extend_from_slice(info);
    v.push(b'e');
    v
}

#[test]
fn parse_single_file_metafile() {
    let m = MetaInfo::parse_meta_bytes(&metafile(&info_single())).unwrap();
    assert_eq!(m.announce_url, "http://tracker.example.com:6969/ann");
    assert_eq!(m.piece_len, 32768);
    assert_eq!(m.piece_hashes, vec![[b'A'; 20], [b'B'; 20]]);
    assert_eq!(
        m.file_info,
        FileInfo::Single { filename: String::from("file.bin"), filelength: 40000 }
    );
    assert_eq!(m.num_pieces(), 2);
    assert_eq!(m.file_info.total_bytes(), 40000);
}

#[test]
fn info_hash_is_sha1_of_the_info_dictionary() {
    let expected = [0u8, 32, 156, 104, 32, 49, 102, 23, 72, 111, 61, 131, 231, 9, 102, 92, 207, 231, 25, 129];
    let m1 = MetaInfo::parse_meta_bytes(&metafile(&info_single())).unwrap();
    let m2 = MetaInfo::parse_meta_bytes(&metafile(&info_single())).unwrap();
    assert_eq!(m1.info_hash, expected);
    assert_eq!(m2.info_hash, expected);
    let v = BencodeValue::bdecode(&metafile(&info_single())).unwrap();
    assert_eq!(make_info_hash(&v).unwrap(), expected);
}

#[test]
fn parse_multi_file_metafile() {
    let mut info = b"d5:filesld6:lengthi10e4:pathl3:dir5:a.txteed6:lengthi5e4:path5:b.txtee4:name4:root12:piece lengthi8e6:pieces40:".to_vec();
    info.extend_from_slice(&[1u8; 40]);
    info.push(b'e');
    let m = MetaInfo::parse_meta_bytes(&metafile(&info)).unwrap();
    assert_eq!(
        m.file_info,
        FileInfo::Multi {
            rootdir: String::from("root"),
            files: vec![
                FileInfo::Single { filename: String::from("dir/a.txt"), filelength: 10 },
                FileInfo::Single { filename: String::from("b.txt"), filelength: 5 },
            ],
        }
    );
    assert_eq!(m.file_info.total_bytes(), 15);
    assert_eq!(m.num_pieces(), 2);
}

#[test]
fn piece_hashes_are_cut_in_order() {
    let v = BencodeValue::bdecode(&metafile(&info_single())).unwrap();
    let (len, hashes) = parse_pieces(&v).unwrap();
    assert_eq!(len, 32768);
    assert_eq!(hashes.len(), 2);
    assert_eq!(hashes[0], [b'A'; 20]);
    assert_eq!(hashes[1], [b'B'; 20]);
}

#[test]
fn missing_or_wrong_fields() {
    let v = BencodeValue::bdecode(b"d4:infod4:name1:xee").unwrap();
    assert!(matches!(parse_announce(&v), Err(BoostError::BencodeValueErr(_))));
    assert!(matches!(parse_pieces(&v), Err(BoostError::BencodeValueErr(_))));
    assert!(matches!(parse_fileinfo(&v), Err(BoostError::BencodeValueErr(_))));
    let not_dict = BencodeValue::Integer(3);
    assert!(matches!(make_info_hash(&not_dict), Err(BoostError::BencodeValueErr(_))));
    let bad_pieces = b"d6:lengthi1e4:name1:x12:piece lengthi1e6:pieces3:abce".to_vec();
    let m = MetaInfo::parse_meta_bytes(&metafile(&bad_pieces));
    assert!(matches!(m, Err(BoostError::BencodeValueErr(_))));
    assert!(matches!(MetaInfo::parse_meta_bytes(b"garbage"), Err(BoostError::BencodeValueErr(_))));
}

#[test]
fn piece_count_must_match() {
    let mut info = b"d6:lengthi100000e4:name1:x12:piece lengthi32768e6:pieces20:".to_vec();
    info.extend_from_slice(&[7u8; 20]);
    info.push(b'e');
    assert_eq!(MetaInfo::parse_meta_bytes(&metafile(&info)).unwrap_err(), BoostError::TorrentFileMetaErr);
}

#[test]
fn announce_is_read_as_text() {
    let v = BencodeValue::bdecode(b"d8:announce13:udp://a.b:80/e").unwrap();
    assert_eq!(parse_announce(&v).unwrap(), "udp://a.b:80/");
}

#[test]
fn files_lie_one_after_another() {
    let multi = FileInfo::Multi {
        rootdir: String::from("root"),
        files: vec![
            FileInfo::Single { filename: String::from("a"), filelength: 10 },
            FileInfo::Single { filename: String::from("d/b"), filelength: 0 },
            FileInfo::Single { filename: String::from("c"), filelength: 7 },
        ],
    };
    let spans = multi.file_spans().unwrap();
    assert_eq!(spans.len(), 3);
    assert_eq!((spans[0].path.as_str(), spans[0].offset, spans[0].length), ("a", 0, 10));
    assert_eq!((spans[1].path.as_str(), spans[1].offset, spans[1].length), ("d/b", 10, 0));
    assert_eq!((spans[2].path.as_str(), spans[2].offset, spans[2].length), ("c", 10, 7));
    let single = FileInfo::Single { filename: String::from("x"), filelength: 5 };
    assert_eq!(single.file_spans().unwrap()[0].length, 5);
    let nested = FileInfo::Multi { rootdir: String::from("r"), files: vec![multi] };
    assert!(nested.file_spans().is_none());
    let huge = FileInfo::Multi {
        rootdir: String::from("r"),
        files: vec![
            FileInfo::Single { filename: String::from("a"), filelength: u64::MAX },
            FileInfo::Single { filename: String::from("b"), filelength: 1 },
        ],
    };
    assert!(huge.file_spans().is_none());
    assert_eq!(huge.checked_total(), None);
}
