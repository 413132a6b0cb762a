use rustytorrent::bencoding::{parse, DataKind, Dictionary, Encode};
use rustytorrent::client::piece_info::PieceInfo;
use rustytorrent::common::hash::{bytes_to_uri, hash_to_bytes, hash_to_uri_str, is_valid_piece};
use rustytorrent::common::{MetaInfo, Torrent};
use rustytorrent::hex::decode_hex;
use rustytorrent::math::get_block_info;

#[test]
fn block_info_splits_pieces_into_blocks() {
    assert_eq!(get_block_info(16384), (1, 16384));
    assert_eq!(get_block_info(32768), (2, 16384));
    assert_eq!(get_block_info(40000), (3, 7232));
    assert_eq!(get_block_info(100), (1, 100));
}

#[test]
fn piece_info_lengths() {
    let info = PieceInfo { total_length: 100000, piece_length: 32768, total_pieces: 4 };
    assert_eq!(info.get_piece_length(0), 32768);
    assert_eq!(info.get_piece_length(3), 1696);
    assert_eq!(info.get_num_blocks(0), 2);
    assert_eq!(info.get_num_blocks(3), 1);
    assert_eq!(info.get_block_length(0, 0), 16384);
    assert_eq!(info.get_block_length(1, 0), 16384);
    assert_eq!(info.get_block_length(0, 3), 1696);
    assert!(info.is_last_block(1, 0));
    assert!(!info.is_last_block(0, 0));
    assert!(info.is_last_block(0, 3));
    let exact = PieceInfo { total_length: 65536, piece_length: 32768, total_pieces: 2 };
    assert_eq!(exact.get_piece_length(1), 32768);
}

#[test]
fn pieces_and_blocks_add_up() {
    let info = PieceInfo { total_length: 100000, piece_length: 32768, total_pieces: 4 };
    let mut total = 0;
    for piece in 0..info.total_pieces {
        let mut piece_total = 0;
        for block in 0..info.get_num_blocks(piece) {
            piece_total += info.get_block_length(block, piece);
        }
        assert_eq!(piece_total, info.get_piece_length(piece));
        total += piece_total;
    }
    assert_eq!(total, info.total_length);
}

#[test]
fn uri_escapes_all_but_letters_and_digits() {
    assert_eq!(bytes_to_uri(b"aZ09"), "aZ09");
    assert_eq!(bytes_to_uri(&[0x00, 0x2f, 0xff, b'x']), "%00%2F%FFx");
    assert_eq!(bytes_to_uri(&[]), "");
}

#[test]
fn sha1_digest_as_uri() {
    assert_eq!(
        hash_to_bytes(b"abc"),
        [169, 153, 62, 54, 71, 6, 129, 106, 186, 62, 37, 113, 120, 80, 194, 108, 156, 208, 216, 157]
    );
    assert_eq!(hash_to_uri_str(b"abc"), "%A9%99%3E6G%06%81j%BA%3E%25qxP%C2l%9C%D0%D8%9D");
}

#[test]
fn piece_validity_compares_digests() {
    let hashes = vec![hash_to_bytes(b"first"), hash_to_bytes(b"abc")];
    assert!(is_valid_piece(b"abc", 1, &hashes));
    assert!(!is_valid_piece(b"abd", 1, &hashes));
    assert!(is_valid_piece(b"first", 0, &hashes));
}

fn single_file_torrent() -> Vec<u8> {
    let mut text = b"d8:announce3:url4:infod6:lengthi5e4:name5:a.txt12:piece lengthi16384e6:pieces20:"
        .to_vec();
    text.extend(0u8..20);
    text.extend_from_slice(b"ee");
    text
}

#[test]
fn meta_info_of_single_file_torrent() {
    let value = parse(&single_file_torrent()).unwrap();
    let dict = value.as_dict().unwrap().clone();
    let info = MetaInfo::from_dict(dict).unwrap();
    assert_eq!(info.announce, "url");
    assert_eq!(info.piece_length, 16384);
    assert_eq!(info.pieces.len(), 1);
    assert_eq!(info.pieces[0].to_vec(), (0u8..20).collect::<Vec<u8>>());
    assert_eq!(info.files.len(), 1);
    assert_eq!(info.files[0].length, 5);
    assert_eq!(info.files[0].path, vec!["a.txt".to_string()]);
    assert_eq!(info.total_size, 5);
    assert_eq!(
        info.info_hash_raw,
        [
            0x13, 0x3e, 0x7e, 0xf2, 0x8f, 0xff, 0xcb, 0x98, 0x60, 0x54, 0x43, 0xcb, 0xd5, 0x4a,
            0x9d, 0x39, 0x12, 0x19, 0xd9, 0xa3
        ]
    );
    assert_eq!(info.info_hash_uri, "%13%3E%7E%F2%8F%FF%CB%98%60TC%CB%D5J%9D9%12%19%D9%A3");
}

#[test]
fn meta_info_of_multi_file_torrent() {
    let mut file_a = Dictionary::new();
    file_a.insert("length".into(), DataKind::Integer(3));
    file_a.insert(
        "path".into(),
        DataKind::List(vec![DataKind::Data("sub".into()), DataKind::Data("a".into())]),
    );
    let mut file_b = Dictionary::new();
    file_b.insert("length".into(), DataKind::Integer(4));
    file_b.insert("path".into(), DataKind::List(vec![DataKind::Data("b".into())]));
    let mut info = Dictionary::new();
    info.insert("name".into(), DataKind::Data("dir".into()));
    info.insert("piece length".into(), DataKind::Integer(4));
    info.insert("pieces".into(), DataKind::Data(vec![7u8; 40]));
    info.insert(
        "files".into(),
        DataKind::List(vec![DataKind::Dictionary(file_a), DataKind::Dictionary(file_b)]),
    );
    let bencoded_info = info.bencode();
    let mut dict = Dictionary::new();
    dict.insert("announce".into(), DataKind::Data("http://tracker".into()));
    dict.insert("info".into(), DataKind::Dictionary(info));
    let meta = MetaInfo::from_dict(dict).unwrap();
    assert_eq!(meta.files.len(), 2);
    assert_eq!(meta.files[0].path, vec!["dir".to_string(), "sub".into(), "a".into()]);
    assert_eq!(meta.files[1].path, vec!["dir".to_string(), "b".into()]);
    assert_eq!(meta.total_size, 7);
    assert_eq!(meta.pieces.len(), 2);
    assert_eq!(meta.info_hash_raw, hash_to_bytes(&bencoded_info));
}

#[test]
fn meta_info_errors() {
    let mut dict = Dictionary::new();
    assert!(MetaInfo::from_dict(dict.clone()).is_err());
    assert_eq!(
        MetaInfo::from_dict(dict.clone()).unwrap_err().as_str(),
        "dictionary is missing 'announce' key"
    );
    dict.insert("announce".into(), DataKind::Integer(1));
    assert_eq!(MetaInfo::from_dict(dict.clone()).unwrap_err().as_str(), "DataKind is not Data");
    assert!(MetaInfo::from_dict(dict).is_err());
    let mut only_announce = Dictionary::new();
    only_announce.insert("announce".into(), DataKind::Data("url".into()));
    assert_eq!(
        Torrent::from_dictionary(only_announce, std::path::PathBuf::from("/tmp/out"))
            .unwrap_err()
            .as_str(),
        "dictionary is missing 'info' key"
    );
    let mut text = b"d8:announce3:url4:infod6:lengthi-5e4:name5:a.txt12:piece lengthi16384e6:pieces20:"
        .to_vec();
    text.extend(0u8..20);
    text.extend_from_slice(b"ee");
    let dict = parse(&text).unwrap().as_dict().unwrap().clone();
    assert_eq!(
        MetaInfo::from_dict(dict.clone()).unwrap_err().as_str(),
        "DataKind is Integer, but negative"
    );
    assert!(MetaInfo::from_dict(dict).is_err());
}

#[test]
fn torrent_starts_with_everything_left() {
    let dict = parse(&single_file_torrent()).unwrap().as_dict().unwrap().clone();
    let torrent = Torrent::from_dictionary(dict, std::path::PathBuf::from("/tmp/out")).unwrap();
    assert_eq!(torrent.downloaded, 0);
    assert_eq!(torrent.uploaded, 0);
    assert_eq!(torrent.left, 5);
    assert_eq!(torrent.destination, std::path::PathBuf::from("/tmp/out"));
}

#[test]
fn hex_decoding() {
    assert_eq!(
        decode_hex("67721401435f94abb89449bc029355e2c32083f3").unwrap(),
        vec![103, 114, 20, 1, 67, 95, 148, 171, 184, 148, 73, 188, 2, 147, 85, 226, 195, 32, 131, 243]
    );
    assert_eq!(decode_hex("").unwrap(), Vec::<u8>::new());
    assert_eq!(decode_hex("+f").unwrap(), vec![15]);
    assert!(decode_hex("zz").is_err());
    assert!(decode_hex("\u{e9}\u{e9}").is_err());
    assert!(decode_hex("00\u{e9}").is_err());
}

#[test]
fn piece_lengths_add_up_to_total() {
    let uneven = PieceInfo { total_length: 10, piece_length: 4, total_pieces: 3 };
    let lengths: Vec<usize> = (0..3).map(|i| uneven.get_piece_length(i)).collect();
    assert_eq!(lengths, vec![4, 4, 2]);
    assert_eq!(lengths.iter().sum::<usize>(), 10);
    let even = PieceInfo { total_length: 8, piece_length: 4, total_pieces: 2 };
    let lengths: Vec<usize> = (0..2).map(|i| even.get_piece_length(i)).collect();
    assert_eq!(lengths, vec![4, 4]);
    assert_eq!(lengths.iter().sum::<usize>(), 8);
}
