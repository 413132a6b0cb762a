use rustytorrent::client::disk_manager::{find_disk_torrent, lengths_fit, Segment, TorrentData};
use rustytorrent::common::bits::count_bits;
use rustytorrent::common::hash::hash_to_bytes;
use rustytorrent::common::meta_info::{File, MetaInfo};

fn file(length: usize, name: &str) -> File {
    File { length, path: vec![String::from("dir"), String::from(name)] }
}

fn meta(lengths: &[usize], piece_length: usize, pieces: Vec<[u8; 20]>) -> MetaInfo {
    let files: Vec<File> = lengths.iter().enumerate().map(|(i, l)| file(*l, &format!("f{}", i))).collect();
    MetaInfo {
        announce: String::from("http://tracker"),
        piece_length,
        pieces,
        total_size: lengths.iter().sum(),
        files,
        info_hash_raw: [9; 20],
        info_hash_uri: String::new(),
    }
}

fn seg(file: usize, file_offset: usize, start: usize, end: usize) -> Segment {
    Segment { file, file_offset, start, end }
}

#[test]
fn new_torrent_has_no_piece_and_a_short_last_piece() {
    let td = TorrentData::new(&meta(&[10, 10, 5], 8, vec![[0; 20]; 4]));
    assert_eq!(td.file_lengths, vec![10, 10, 5]);
    assert_eq!(td.num_pieces, 4);
    assert_eq!(td.last_piece_length, 1);
    assert_eq!(td.have_count, 0);
    assert_eq!(count_bits(&td.have), 0);
    assert_eq!(td.info_hash, [9; 20]);
    assert_eq!(td.get_piece_length(0), 8);
    assert_eq!(td.get_piece_length(3), 1);
}

#[test]
fn last_piece_is_whole_when_the_size_divides() {
    let td = TorrentData::new(&meta(&[16], 8, vec![[0; 20]; 2]));
    assert_eq!(td.last_piece_length, 8);
    assert_eq!(td.get_piece_length(1), 8);
}

#[test]
fn reading_follows_the_bytes_across_files() {
    let td = TorrentData::new(&meta(&[10, 10, 5], 8, vec![[0; 20]; 4]));
    // Piece 1 covers torrent bytes 8..16: the last two of file 0 and six of file 1.
    assert_eq!(td.read_plan(1, 0, 8), vec![seg(0, 8, 0, 2), seg(1, 0, 2, 8)]);
    // Piece 2 from its byte 2: torrent bytes 18..24.
    assert_eq!(td.read_plan(2, 2, 6), vec![seg(1, 8, 0, 2), seg(2, 0, 2, 6)]);
    // Past the end of the files only what is there is found.
    assert_eq!(td.read_plan(3, 0, 8), vec![seg(2, 4, 0, 1)]);
    assert_eq!(td.read_plan(4, 0, 8), vec![]);
}

#[test]
fn reading_passes_over_empty_files() {
    let td = TorrentData::new(&meta(&[4, 0, 4], 4, vec![[0; 20]; 2]));
    assert_eq!(td.read_plan(0, 2, 4), vec![seg(0, 2, 0, 2), seg(1, 0, 2, 2), seg(2, 0, 2, 4)]);
}

#[test]
fn writing_measures_the_room_to_the_end_of_the_file_in_the_torrent() {
    let td = TorrentData::new(&meta(&[10, 10, 10], 8, vec![[0; 20]; 4]));
    // Piece 0 lies in file 0.
    assert_eq!(td.write_plan(0, 8), Some((vec![seg(0, 0, 0, 8)], true)));
    // Piece 1 starts in file 0, whose room is measured exactly.
    assert_eq!(td.write_plan(1, 8), Some((vec![seg(0, 8, 0, 2), seg(1, 0, 2, 8)], true)));
    // Piece 2 starts at byte 6 of file 1; the room counts from there to byte 20 of the
    // torrent, so the whole piece goes to file 1.
    assert_eq!(td.write_plan(2, 8), Some((vec![seg(1, 6, 0, 8)], true)));
}

#[test]
fn writing_past_the_files_is_incomplete() {
    let td = TorrentData::new(&meta(&[4], 4, vec![[0; 20]; 3]));
    assert_eq!(td.write_plan(2, 4), Some((vec![], false)));
}

#[test]
fn a_single_file_is_written_where_it_is_read() {
    let td = TorrentData::new(&meta(&[20], 8, vec![[0; 20]; 3]));
    assert_eq!(td.write_plan(2, 4), Some((td.read_plan(2, 0, 4), true)));
}

#[test]
fn held_pieces_are_not_written_again() {
    let mut td = TorrentData::new(&meta(&[10, 10, 5], 8, vec![[0; 20]; 4]));
    assert!(!td.piece_written(1));
    assert_eq!(td.write_plan(1, 8), None);
    assert_eq!(td.have_count, 1);
    assert_eq!(td.have.get(1), Some(true));
    assert_eq!(td.have.get(0), Some(false));
}

#[test]
fn the_last_piece_written_is_final() {
    let mut td = TorrentData::new(&meta(&[16], 8, vec![[0; 20]; 2]));
    assert!(!td.piece_written(0));
    assert!(td.piece_written(1));
    assert_eq!(td.have_count, 2);
}

#[test]
fn checked_pieces_are_held_when_their_hash_matches() {
    let data = vec![7u8; 8];
    let good = hash_to_bytes(&data);
    let mut td = TorrentData::new(&meta(&[16], 8, vec![good, [0; 20]]));
    let pieces = vec![good, [0; 20]];
    assert!(td.check_piece(0, &data, &pieces));
    assert!(!td.check_piece(1, &data, &pieces));
    assert_eq!(td.have_count, 1);
    assert_eq!(td.have.get(0), Some(true));
    assert_eq!(td.have.get(1), Some(false));
}

#[test]
fn file_lengths_must_fit() {
    assert!(lengths_fit(&vec![file(5, "a"), file(usize::MAX - 5, "b")]));
    assert!(!lengths_fit(&vec![file(6, "a"), file(usize::MAX - 5, "b")]));
    assert!(lengths_fit(&vec![]));
}

#[test]
fn disk_torrents_are_found_by_hash() {
    let a = TorrentData::new(&meta(&[16], 8, vec![[0; 20]; 2]));
    let mut m = meta(&[16], 8, vec![[0; 20]; 2]);
    m.info_hash_raw = [3; 20];
    let b = TorrentData::new(&m);
    let torrents = vec![a, b];
    assert_eq!(find_disk_torrent(&torrents, &[3; 20]), Some(1));
    assert_eq!(find_disk_torrent(&torrents, &[9; 20]), Some(0));
    assert_eq!(find_disk_torrent(&torrents, &[1; 20]), None);
}

#[test]
fn blocks_are_only_given_out_of_held_pieces() {
    let mut td = TorrentData::new(&meta(&[10, 10, 5], 8, vec![[0; 20]; 4]));
    assert_eq!(td.get_block(1, 0, 8), None);
    td.piece_written(1);
    assert_eq!(td.get_block(1, 0, 8), Some(vec![seg(0, 8, 0, 2), seg(1, 0, 2, 8)]));
}
