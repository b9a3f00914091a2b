//! File names and file formats.

use seqlog::decimal::{parse_u64, push_decimal, push_padded};
use seqlog::error::{error, Error};
use seqlog::format::{
    append_index, checksum_matches, parse_checksum, parse_entry_len, parse_index, push_entry,
};
use seqlog::names::{data_file_name, index_file_name, list_files};
use seqlog::recover::{check_current_file, last_index_position};
use seqlog::seek::seek_seq_in_file;
use seqlog::store::{index_file_size, AppendOutcome, SeqLog};
use std::sync::Arc;

fn names(list: &[&str]) -> Vec<String> {
    list.iter().map(|name| name.to_string()).collect()
}

fn listed(list: &[&str]) -> Vec<u64> {
    list_files(&names(list)).unwrap().iter().map(|file| **file).collect()
}

#[test]
fn file_names() {
    assert_eq!(data_file_name(100), "00000000000000000100.data");
    assert_eq!(index_file_name(100), "00000000000000000100.index");
    assert_eq!(data_file_name(0), "00000000000000000000.data");
    assert_eq!(data_file_name(u64::MAX), "18446744073709551615.data");
}

#[test]
fn files_are_listed_in_order() {
    let max = data_file_name(u64::MAX);
    let all = ["LOCK", "00000000000000000100.index", "00000000000000000100.data", "7.data", &max, "+8.data", "x"];
    assert_eq!(listed(&all), vec![7, 8, 100, u64::MAX]);
    assert_eq!(listed(&["5.data", "05.data", "1.data"]), vec![1, 5, 5]);
    assert_eq!(listed(&["data", "5.dat", "5.data.old"]), vec![]);
}

#[test]
fn invalid_names_are_refused() {
    for bad in ["x.data", ".data", "+.data", "-1.data", "1_0.data", " 1.data", "18446744073709551616.data", "\u{661}.data"] {
        let err = list_files(&names(&["1.data", bad, "y.data"])).unwrap_err();
        assert!(matches!(err, Error::InvalidDataFilename(ref name) if name == bad));
    }
}

#[test]
fn created_store_is_listed() {
    let files = SeqLog::create(42);
    assert_eq!(files, vec!["LOCK", "00000000000000000042.data", "00000000000000000042.index"]);
    let opening = SeqLog::open(&files).unwrap();
    assert_eq!(opening.file_seq(), 42);
    assert_eq!(opening.finish(0, 0).next_seq(), 42);
    assert!(matches!(SeqLog::open(&names(&["LOCK"])).err().unwrap(), Error::NoDataFile));
}

#[test]
fn numbers_in_decimal() {
    assert_eq!(parse_u64("0", 1), Some(0));
    assert_eq!(parse_u64("0123x", 4), Some(123));
    assert_eq!(parse_u64("18446744073709551615", 20), Some(u64::MAX));
    assert_eq!(parse_u64("18446744073709551616", 20), None);
    assert_eq!(parse_u64("99999999999999999999999", 23), None);
    assert_eq!(parse_u64("", 0), None);
    let mut s = String::new();
    push_decimal(&mut s, 0);
    push_decimal(&mut s, 1090);
    push_decimal(&mut s, u64::MAX);
    assert_eq!(s, "0109018446744073709551615");
    let mut s = String::from("<");
    push_padded(&mut s, 1234, 6);
    push_padded(&mut s, 1234, 2);
    assert_eq!(s, "<00123434");
}

#[test]
fn entries_in_bytes() {
    let mut buf = vec![9];
    push_entry(&mut buf, b"abc", 0x1234_5678);
    assert_eq!(buf, vec![9, 3, 0, 0x78, 0x56, b'a', b'b', b'c']);
    let entry = &buf[1..];
    assert_eq!(parse_entry_len(entry), Some(3));
    assert_eq!(parse_entry_len(&entry[..6]), None);
    assert_eq!(parse_entry_len(&entry[..3]), None);
    assert_eq!(parse_entry_len(&[]), None);
    assert_eq!(parse_entry_len(&[0, 0, 1, 2]), Some(0));
    assert_eq!(parse_entry_len(&[0, 1, 1, 2]), None);
    assert_eq!(parse_checksum(&entry[2..]), 0x5678);
    assert!(checksum_matches(entry, 0x1234_5678));
    assert!(checksum_matches(entry, 0x5678));
    assert!(!checksum_matches(entry, 0x1234_5679));
    let mut long = vec![];
    push_entry(&mut long, &vec![7; 65535], 0);
    assert_eq!(&long[..4], &[0xff, 0xff, 0, 0]);
    assert_eq!(parse_entry_len(&long), Some(65535));
}

#[test]
fn indexes_in_bytes() {
    let mut buf = vec![];
    append_index(&mut buf, 0x0102_0304_0506_0708);
    assert_eq!(buf, vec![8, 7, 6, 5, 4, 3, 2, 1]);
    assert_eq!(parse_index(&buf), 0x0102_0304_0506_0708);
    buf.push(9);
    assert_eq!(parse_index(&buf), 0x0102_0304_0506_0708);
    assert_eq!(parse_index(&[0xff; 8]), u64::MAX);
    assert_eq!(index_file_size(100, 100 + 1023), 0);
    assert_eq!(index_file_size(100, 100 + 1024), 8);
    assert_eq!(index_file_size(100, 100 + 5000), 32);
}

#[test]
fn last_data_file() {
    assert!(matches!(last_index_position(7, 0), Ok(None)));
    assert!(matches!(last_index_position(7, 24), Ok(Some(16))));
    assert!(matches!(last_index_position(7, 25), Err(Error::InvalidIndexFile(7))));
    let mut data = vec![];
    push_entry(&mut data, b"abc", 0);
    push_entry(&mut data, b"", 0);
    let checked = check_current_file(0, 0, &data);
    assert_eq!((checked.count, checked.file_size, checked.index), (2, 11, vec![]));
    let checked = check_current_file(16, 5000, &data);
    assert_eq!((checked.count, checked.file_size, checked.index), (2050, 5011, vec![]));
    let many = vec![0u8; 4 * 1025 + 3];
    let checked = check_current_file(8, 10, &many);
    assert_eq!((checked.count, checked.file_size), (1024 + 1025, 10 + 4100));
    assert_eq!(parse_index(&checked.index), 10 + 4096);
    assert_eq!(checked.index.len(), 8);
}

#[test]
fn index_below_an_entry() {
    let at = |seq: u64| seek_seq_in_file(Arc::new(100), seq, false).index_position();
    assert_eq!(at(100), None);
    assert_eq!(at(100 + 1023), None);
    assert_eq!(at(100 + 1024), Some(0));
    assert_eq!(at(100 + 2047), Some(0));
    assert_eq!(at(100 + 2048), Some(8));
}

#[test]
fn outcomes_of_a_write() {
    let mut log = SeqLog::open(&SeqLog::create(3)).unwrap().finish(2000, 900);
    assert!(matches!(
        log.appended(1, 10, 0),
        AppendOutcome::WroteNothing { index_len: 8 }
    ));
    assert!(matches!(
        log.appended(1, 10, 9),
        AppendOutcome::WrotePartially { data_len: 900, index_len: 8 }
    ));
    assert_eq!(log.next_seq(), 2003);
    assert!(matches!(log.appended(1, 10, 10), AppendOutcome::Done));
    assert_eq!(log.next_seq(), 2004);
}

#[test]
fn default_rotation() {
    let mut log = SeqLog::open(&SeqLog::create(0)).unwrap().finish(1, 1073741824);
    assert!(matches!(log.append(&[b"x"]), Ok(seqlog::store::AppendStep::Write(_))));
    log.appended(1, 1, 1);
    assert!(matches!(log.append(&[b"x"]), Ok(seqlog::store::AppendStep::Rotate)));
    log.set_rotate(0, 0);
    assert!(matches!(log.append(&[b"x"]), Ok(seqlog::store::AppendStep::Write(_))));
    assert_eq!(log.rotate(), Some(2));
    // never, even for the largest file
    let mut full = SeqLog::open(&SeqLog::create(0)).unwrap().finish(1, usize::MAX);
    full.set_rotate(0, 0);
    assert!(!full.must_rotate());
    assert!(matches!(full.append(&[]), Ok(seqlog::store::AppendStep::Write(_))));
    // a file that cannot grow is rotated
    full.set_rotate(5, 0);
    assert!(full.must_rotate());
    assert!(matches!(full.append(&[b"x"]), Ok(seqlog::store::AppendStep::Rotate)));
    log.set_rotate(0, 10);
    let mut gone = 0;
    for i in 0..15 {
        gone += log.rotated_with(&vec![1; std::cmp::min(i + 1, 10)]).len();
        log.appended(1, 1, 1);
    }
    assert_eq!(gone, 6);
}

#[test]
fn error_messages() {
    assert_eq!(Error::EntryTooLarge(65536).message(), "entry too large: 65536");
    assert_eq!(Error::SeqPurged(99, 100).message(), "seq 99 purged, with oldest seq 100");
    assert_eq!(Error::SeqNotReached(7, 5).message(), "seq 7 not reached, with current seq 5");
    assert_eq!(Error::NoDataFile.message(), "no data file");
    assert_eq!(
        Error::InvalidDataFilename("a.data".to_string()).message(),
        "invalid data file name a.data"
    );
    assert_eq!(Error::DataFileNotFound(1).message(), "data file 1 not found");
    assert_eq!(
        Error::DataFileTruncated(1, 2).message(),
        "data file 1 truncated, with current seq 2"
    );
    assert_eq!(
        Error::ChecksumMismatch(1, 2).message(),
        "data file 1 checksum mismatch, with current seq 2"
    );
    assert_eq!(Error::InvalidIndexFile(3).message(), "invalid index file 3 size");
    let failed: Result<u8, Error> = error(Error::NoDataFile);
    assert!(matches!(failed, Err(Error::NoDataFile)));
}
