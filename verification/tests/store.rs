//! Whole stores, on a directory that is kept in memory.

use seqlog::error::Error;
use seqlog::format::{parse_index, INDEX_SIZE, READBUF_SIZE};
use seqlog::names::{data_file_name, index_file_name};
use seqlog::reader::{ReadStep, SeqLogReader};
use seqlog::recover::{check_current_file, last_index_position};
use seqlog::seek::{Seek, SeekStep};
use seqlog::store::{AppendOutcome, AppendStep, SeqLog, TruncateStep};
use seqlog::syncer::{SeqLogSyncer, SyncStep};
use std::cell::RefCell;
use std::collections::BTreeMap;
use std::rc::Rc;

type Files = BTreeMap<String, Vec<u8>>;

/// A directory that survives its stores.
#[derive(Clone)]
struct Dir {
    files: Rc<RefCell<Files>>,
}

/// Why an append failed.
#[derive(Debug)]
enum AppendError {
    Refused(Error),
    WriteZero,
}

struct Store {
    dir: Dir,
    log: Rc<RefCell<SeqLog>>,
    current: u64,
}

struct Reader {
    dir: Dir,
    log: Rc<RefCell<SeqLog>>,
    inner: SeqLogReader,
    synced_only: bool,
    file: u64,
    pos: usize,
}

enum Step {
    End,
    Entry(Vec<u8>),
    Read(usize),
    OpenFile(u64),
}

fn own(step: ReadStep<'_>) -> Step {
    match step {
        ReadStep::End => Step::End,
        ReadStep::Entry(payload) => Step::Entry(payload.to_vec()),
        ReadStep::Read(n) => Step::Read(n),
        ReadStep::OpenFile(file) => Step::OpenFile(file),
    }
}

impl Dir {
    fn new() -> Dir {
        Dir { files: Rc::new(RefCell::new(BTreeMap::new())) }
    }

    fn data(&self, file: u64) -> Vec<u8> {
        self.files.borrow()[data_file_name(file).as_str()].clone()
    }

    fn index(&self, file: u64) -> Vec<u8> {
        self.files.borrow()[index_file_name(file).as_str()].clone()
    }

    fn put(&self, name: String, bytes: Vec<u8>) {
        self.files.borrow_mut().insert(name, bytes);
    }

    fn extend(&self, name: String, bytes: &[u8]) {
        self.files.borrow_mut().get_mut(&name).unwrap().extend_from_slice(bytes);
    }

    fn cut(&self, name: String, len: usize) {
        self.files.borrow_mut().get_mut(&name).unwrap().truncate(len);
    }

    fn remove(&self, file: u64) {
        self.files.borrow_mut().remove(&data_file_name(file)).unwrap();
        self.files.borrow_mut().remove(&index_file_name(file)).unwrap();
    }

    fn names(&self) -> Vec<String> {
        self.files.borrow().keys().cloned().collect()
    }

    fn read_at(&self, file: u64, pos: usize, n: usize) -> Vec<u8> {
        let data = self.data(file);
        let end = std::cmp::min(data.len(), pos + n);
        data[std::cmp::min(pos, data.len())..end].to_vec()
    }

    /// Runs a search to its end. Returns the position up to which the data file was
    /// read.
    fn run_seek(&self, seek: &mut Seek) -> Result<usize, Error> {
        let file = seek.file_seq();
        let mut pos: usize = match seek.index_position() {
            Some(at) => {
                let index = self.index(file);
                let at = at as usize;
                parse_index(&index[at..at + INDEX_SIZE]) as usize
            }
            None => 0,
        };
        loop {
            let bytes = self.read_at(file, pos, seek.want());
            pos += bytes.len();
            match seek.feed(&bytes)? {
                SeekStep::Found => return Ok(pos),
                SeekStep::Read(n) => assert_eq!(n, seek.want()),
            }
        }
    }
}

impl Store {
    fn create(dir: &Dir, start_seq: u64) -> Result<Store, Error> {
        for name in SeqLog::create(start_seq) {
            dir.put(name, vec![]);
        }
        Store::open(dir)
    }

    fn open(dir: &Dir) -> Result<Store, Error> {
        let opening = SeqLog::open(&dir.names())?;
        let file = opening.file_seq();
        let index = dir.index(file);
        let offset = match last_index_position(file, index.len() as u64)? {
            Some(at) => parse_index(&index[at as usize..]),
            None => 0,
        };
        let data = dir.data(file);
        let rest = &data[std::cmp::min(offset as usize, data.len())..];
        let checked = check_current_file(index.len() as u64, offset, rest);
        dir.extend(index_file_name(file), &checked.index);
        let log = opening.finish(checked.count, checked.file_size as usize);
        Ok(Store { dir: dir.clone(), log: Rc::new(RefCell::new(log)), current: file })
    }

    fn append_bytes(&mut self, entries: &[&[u8]]) -> Result<(), AppendError> {
        self.append_short(entries, usize::MAX)
    }

    /// As an append of which at most `limit` bytes get written.
    fn append_short(&mut self, entries: &[&[u8]], limit: usize) -> Result<(), AppendError> {
        loop {
            let step = self.log.borrow().append(entries).map_err(AppendError::Refused)?;
            match step {
                AppendStep::Rotate => self.rotate(),
                AppendStep::Write(batch) => {
                    self.dir.extend(index_file_name(self.current), &batch.index);
                    let written = std::cmp::min(limit, batch.data.len());
                    self.dir.extend(data_file_name(self.current), &batch.data[..written]);
                    let outcome = self.log.borrow_mut().appended(
                        entries.len() as u64,
                        batch.data.len(),
                        written,
                    );
                    return match outcome {
                        AppendOutcome::Done => Ok(()),
                        AppendOutcome::WroteNothing { index_len } => {
                            self.dir.cut(index_file_name(self.current), index_len as usize);
                            Err(AppendError::WriteZero)
                        }
                        AppendOutcome::WrotePartially { data_len, index_len } => {
                            self.dir.cut(data_file_name(self.current), data_len as usize);
                            self.dir.cut(index_file_name(self.current), index_len as usize);
                            Err(AppendError::WriteZero)
                        }
                    };
                }
            }
        }
    }

    fn append(&mut self, entries: &[&str]) {
        let bytes: Vec<&[u8]> = entries.iter().map(|e| e.as_bytes()).collect();
        self.append_bytes(&bytes).unwrap();
    }

    fn rotate(&mut self) {
        let file = self.log.borrow().rotate();
        if let Some(file) = file {
            self.dir.put(data_file_name(file), vec![]);
            self.dir.put(index_file_name(file), vec![]);
            self.current = file;
            let removed = self.log.borrow_mut().rotated();
            for old in removed {
                self.dir.remove(old);
            }
        }
    }

    fn purge(&mut self, seq: u64) -> Vec<u64> {
        let removed = self.log.borrow_mut().purge(seq);
        for old in removed.iter() {
            self.dir.remove(*old);
        }
        removed
    }

    fn truncate(&mut self, seq: u64) -> Result<(), Error> {
        let step = self.log.borrow().truncate(seq)?;
        match step {
            TruncateStep::Done => Ok(()),
            TruncateStep::Cut { remove, mut seek } => {
                let pos = self.dir.run_seek(&mut seek)?;
                let data_len = seek.found_offset(pos as u64) as usize;
                self.current = seek.file_seq();
                let index_len = self.log.borrow_mut().truncated(seq, data_len);
                self.dir.cut(data_file_name(self.current), data_len);
                self.dir.cut(index_file_name(self.current), index_len as usize);
                for old in remove {
                    self.dir.remove(old);
                }
                Ok(())
            }
        }
    }

    /// Returns the files that were synchronized.
    fn sync(&self) -> Vec<u64> {
        let files = self.log.borrow().sync();
        self.log.borrow_mut().synced();
        files
    }

    fn next_seq(&self) -> u64 {
        self.log.borrow().next_seq()
    }

    fn sync_seq(&self) -> u64 {
        self.log.borrow().sync_seq()
    }

    fn reader(&self, next_seq: u64, synced_only: bool) -> Result<Reader, Error> {
        let mut seek = self.log.borrow().reader(next_seq)?;
        let pos = self.dir.run_seek(&mut seek)?;
        let inner = SeqLogReader::new(seek, synced_only);
        let file = inner.file_seq();
        Ok(Reader {
            dir: self.dir.clone(),
            log: self.log.clone(),
            inner,
            synced_only,
            file,
            pos,
        })
    }
}

impl Reader {
    fn next(&mut self) -> Result<Option<Vec<u8>>, Error> {
        let log = self.log.borrow();
        let mut step = own(self.inner.next(log.state())?);
        loop {
            step = match step {
                Step::End => return Ok(None),
                Step::Entry(payload) => return Ok(Some(payload)),
                Step::Read(n) => {
                    let bytes = self.dir.read_at(self.file, self.pos, n);
                    self.pos += bytes.len();
                    own(self.inner.read_more_data(log.state(), &bytes)?)
                }
                Step::OpenFile(file) => {
                    let bytes = self.dir.read_at(file, 0, READBUF_SIZE);
                    self.file = file;
                    self.pos = bytes.len();
                    own(self.inner.read_new_file(&bytes)?)
                }
            };
        }
    }

    fn reset(&mut self, seq: u64) -> Result<(), Error> {
        let mut seek = self.log.borrow().reader(seq)?;
        self.pos = self.dir.run_seek(&mut seek)?;
        self.file = seek.file_seq();
        self.inner.reset(seek);
        Ok(())
    }

    fn all(&mut self) -> Vec<Vec<u8>> {
        let mut entries = vec![];
        while let Some(entry) = self.next().unwrap() {
            entries.push(entry);
        }
        entries
    }
}

fn open_or_create(dir: &Dir) -> Result<Store, Error> {
    let store = if dir.names().is_empty() {
        Store::create(dir, 100)?
    } else {
        Store::open(dir)?
    };
    store.log.borrow_mut().set_rotate(200_000, 3);
    Ok(store)
}

const ENTRIES: [&str; 10] = [
    "hello, world!",
    "111",
    "222222",
    "333333333",
    "444444444444",
    "555555555555555",
    "666666666666666666",
    "777777777777777777777",
    "888888888888888888888888",
    "999999999999999999999999999",
];

fn append10(store: &mut Store) {
    store.append(&ENTRIES);
}

#[test]
fn basic() {
    let mut store = open_or_create(&Dir::new()).unwrap();

    let next_seq0 = store.next_seq();

    // append 100*10 entries
    for _ in 0..100 {
        append10(&mut store);
    }

    let next_seq = store.next_seq();
    assert_eq!(next_seq, next_seq0 + 1000);

    // read last 13 entries
    let mut reader = store.reader(next_seq - 13, false).unwrap();

    // check first 3 entries
    for entry in ENTRIES.iter().skip(7) {
        assert_eq!(entry.as_bytes(), reader.next().unwrap().unwrap());
    }

    // check last 10 entries
    let mut entry_data = ENTRIES.iter();
    while let Some(entry) = reader.next().unwrap() {
        assert_eq!(entry, entry_data.next().unwrap().as_bytes());
    }
    // EOF
    assert!(entry_data.next().is_none());
}

#[test]
fn readers() {
    let mut store = open_or_create(&Dir::new()).unwrap();

    let next_seq0 = store.next_seq();

    // invalid reader
    let Err(err) = store.reader(next_seq0 + 1, false) else {
        panic!("expect err");
    };
    assert!(matches!(err, Error::SeqNotReached(_, _)));

    // invalid reader
    let Err(err) = store.reader(99, false) else {
        panic!("expect err");
    };
    assert!(matches!(err, Error::SeqPurged(99, _)));

    // read from end
    let mut reader1 = store.reader(next_seq0, false).unwrap();
    let mut reader2 = store.reader(next_seq0, false).unwrap();
    let mut reader3 = store.reader(next_seq0, true).unwrap();
    assert_eq!(reader1.next().unwrap(), None);
    assert_eq!(reader2.next().unwrap(), None);
    assert_eq!(reader3.next().unwrap(), None);

    // append 100*10 entries
    for _ in 0..100 {
        append10(&mut store);
    }

    let mut count = 0;
    while let Some(entry) = reader1.next().unwrap() {
        assert_eq!(entry, reader2.next().unwrap().unwrap());
        count += 1;
    }
    assert_eq!(reader2.next().unwrap(), None);
    assert_eq!(count, 1000);

    // sync-reader
    assert_eq!(reader3.next().unwrap(), None);
    store.sync();

    reader1.reset(next_seq0).unwrap();
    let mut count = 0;
    while let Some(entry) = reader1.next().unwrap() {
        assert_eq!(entry, reader3.next().unwrap().unwrap());
        count += 1;
    }
    assert_eq!(reader3.next().unwrap(), None);
    assert_eq!(count, 1000);
}

#[test]
fn sync() {
    let mut store = open_or_create(&Dir::new()).unwrap();

    // on open
    let next_seq0 = store.next_seq();
    let sync_seq0 = store.sync_seq();
    assert_eq!(next_seq0, sync_seq0);

    let mut reader1 = store.reader(next_seq0, false).unwrap();
    let mut reader2 = store.reader(next_seq0, true).unwrap();

    append10(&mut store);

    assert_eq!(store.next_seq(), next_seq0 + 10); // update
    assert_eq!(store.sync_seq(), sync_seq0); // no update

    // reader-1
    let mut entry_data = ENTRIES.iter();
    while let Some(entry) = reader1.next().unwrap() {
        assert_eq!(entry, entry_data.next().unwrap().as_bytes());
    }
    assert!(entry_data.next().is_none());

    // reader-2
    assert_eq!(reader2.next().unwrap(), None);

    // sync
    store.sync();

    // reader-2
    let mut entry_data = ENTRIES.iter();
    while let Some(entry) = reader2.next().unwrap() {
        assert_eq!(entry, entry_data.next().unwrap().as_bytes());
    }
    assert!(entry_data.next().is_none());
}

#[test]
fn truncate() {
    // prepare
    let mut store = open_or_create(&Dir::new()).unwrap();
    append10(&mut store);

    let next_seq0 = store.next_seq();

    // fail
    let Err(err) = store.truncate(next_seq0 + 1) else {
        panic!("error");
    };
    assert!(matches!(err, Error::SeqNotReached(_, _)));

    // truncate
    store.truncate(next_seq0 - 3).unwrap();

    assert_eq!(store.next_seq(), next_seq0 - 3);

    // invalid reader
    let Err(err) = store.reader(next_seq0, false) else {
        panic!("expect err");
    };
    assert!(matches!(err, Error::SeqNotReached(_, _)));

    // read last 7 entries
    let mut reader = store.reader(next_seq0 - 10, false).unwrap();

    let mut entry_data = ENTRIES.iter();
    while let Some(entry) = reader.next().unwrap() {
        assert_eq!(entry, entry_data.next().unwrap().as_bytes());
    }
    assert_eq!(reader.next().unwrap(), None);
    assert_eq!(entry_data.next(), Some(&ENTRIES[7]));
}

#[test]
fn example_of_usage() {
    let dir = Dir::new();
    let mut store = Store::create(&dir, 100).unwrap();
    let entries = ["Hello, world!", "The value could be arbitrary bytes.", "Live & Learn!"];
    store.append(&entries);

    let mut reader = store.reader(102, false).unwrap();
    assert_eq!(reader.next().unwrap(), Some(entries[2].as_bytes().to_vec()));
    assert_eq!(reader.next().unwrap(), None);
    assert_eq!(reader.inner.next_seq(), 103);
    assert!(!reader.synced_only);

    assert_eq!(
        dir.names(),
        vec!["00000000000000000100.data", "00000000000000000100.index", "LOCK"]
    );
    let mut expected: Vec<u8> = vec![0x0d, 0x00, 0xe6, 0xc6];
    expected.extend_from_slice(b"Hello, world!");
    expected.extend_from_slice(&[0x23, 0x00, 0xe7, 0x86]);
    expected.extend_from_slice(b"The value could be arbitrary bytes.");
    expected.extend_from_slice(&[0x0d, 0x00, 0x24, 0xf7]);
    expected.extend_from_slice(b"Live & Learn!");
    assert_eq!(dir.data(100), expected);
    assert!(dir.index(100).is_empty());
}

/// The entry of a sequence number, of varying length.
fn numbered(seq: u64) -> Vec<u8> {
    let mut entry = seq.to_string().into_bytes();
    entry.resize(entry.len() + (seq % 300) as usize, b'.');
    entry
}

fn append_numbered(store: &mut Store, count: u64) {
    let first = store.next_seq();
    let entries: Vec<Vec<u8>> = (first..first + count).map(numbered).collect();
    let bytes: Vec<&[u8]> = entries.iter().map(|e| e.as_slice()).collect();
    store.append_bytes(&bytes).unwrap();
}

fn check_numbered(store: &Store, from: u64) {
    let mut reader = store.reader(from, false).unwrap();
    for seq in from..store.next_seq() {
        assert_eq!(reader.next().unwrap(), Some(numbered(seq)));
    }
    assert_eq!(reader.next().unwrap(), None);
}

#[test]
fn seeks_through_indexes() {
    let dir = Dir::new();
    let mut store = Store::create(&dir, 7).unwrap();
    append_numbered(&mut store, 1023);
    assert_eq!(dir.index(7).len(), 0);
    append_numbered(&mut store, 1);
    assert_eq!(dir.index(7).len(), 8);
    assert_eq!(parse_index(&dir.index(7)), dir.data(7).len() as u64);
    // at the end, right after an index
    check_numbered(&store, 7 + 1024);
    append_numbered(&mut store, 3000);
    assert_eq!(dir.index(7).len(), 3 * 8);
    for from in [7, 8, 1000, 7 + 1023, 7 + 1024, 7 + 1025, 7 + 2047, 7 + 2048, 7 + 4023, 7 + 4024] {
        check_numbered(&store, from);
    }
}

#[test]
fn walks_over_large_entries() {
    // 1000 entries of 1 KiB lie between two indexes, so that a search reads many times
    let mut store = Store::create(&Dir::new(), 0).unwrap();
    let entry = vec![b'x'; 1024];
    let batch: Vec<&[u8]> = vec![entry.as_slice(); 1000];
    store.append_bytes(&batch).unwrap();
    store.append(&["last"]);
    assert_eq!(store.reader(1000, false).unwrap().all(), vec![b"last".to_vec()]);
    assert_eq!(store.reader(0, false).unwrap().all().len(), 1001);
    let largest = vec![1u8; 65535];
    store.append_bytes(&[&largest, &largest, &largest]).unwrap();
    assert_eq!(store.reader(1002, false).unwrap().all(), vec![largest.clone(), largest]);
}

#[test]
fn empty_entries() {
    let mut store = Store::create(&Dir::new(), 5).unwrap();
    store.append(&["", "a", ""]);
    assert_eq!(
        store.reader(5, false).unwrap().all(),
        vec![b"".to_vec(), b"a".to_vec(), b"".to_vec()]
    );
}

#[test]
fn too_large_entry_is_refused() {
    let dir = Dir::new();
    let mut store = Store::create(&dir, 0).unwrap();
    append_numbered(&mut store, 1022);
    let size = dir.data(0).len();
    let large = vec![0u8; 65536];
    let larger = vec![0u8; 70000];
    let err = store.append_bytes(&[b"1", b"2", b"3", &large, &larger]).unwrap_err();
    assert!(matches!(err, AppendError::Refused(Error::EntryTooLarge(65536))));
    assert_eq!(store.next_seq(), 1022);
    assert_eq!(dir.data(0).len(), size);
    assert!(dir.index(0).is_empty());
}

#[test]
fn short_write_is_undone() {
    let dir = Dir::new();
    let mut store = Store::create(&dir, 0).unwrap();
    append_numbered(&mut store, 1023);
    let (data, index) = (dir.data(0), dir.index(0));
    for limit in [0, 1, 11] {
        let err = store.append_short(&[b"abc", b"defgh"], limit).unwrap_err();
        assert!(matches!(err, AppendError::WriteZero));
        assert_eq!(store.next_seq(), 1023);
        assert_eq!(dir.data(0), data);
        assert_eq!(dir.index(0), index);
    }
    // nothing to write counts as nothing written
    assert!(matches!(store.append_bytes(&[]).unwrap_err(), AppendError::WriteZero));
    store.append_short(&[b"abc", b"defgh"], 16).unwrap();
    assert_eq!(dir.index(0).len(), 8);
    assert_eq!(parse_index(&dir.index(0)), data.len() as u64 + 7);
    assert_eq!(
        store.reader(1023, false).unwrap().all(),
        vec![b"abc".to_vec(), b"defgh".to_vec()]
    );
}

#[test]
fn rotation_beyond_the_size_only() {
    let mut store = Store::create(&Dir::new(), 0).unwrap();
    store.log.borrow_mut().set_rotate(14, 0);
    store.append(&["0123456789"]); // 14 bytes
    store.append(&[""]); // 18 bytes
    assert_eq!(store.current, 0);
    store.append(&["x"]);
    assert_eq!(store.current, 2);
}

#[test]
fn rotation_by_size() {
    let dir = Dir::new();
    let mut store = Store::create(&dir, 10).unwrap();
    store.log.borrow_mut().set_rotate(20, 0);
    store.append(&["0123456789"]); // 14 bytes
    store.append(&["0123456789"]); // 28 bytes
    assert_eq!(dir.names().len(), 3);
    store.append(&["a", "b"]); // rotates first
    assert_eq!(dir.data(12).len(), 10);
    assert_eq!(dir.data(10).len(), 28);
    // a reader goes on from file to file
    assert_eq!(store.reader(10, false).unwrap().all().len(), 4);
    assert_eq!(store.reader(12, false).unwrap().all(), vec![b"a".to_vec(), b"b".to_vec()]);
    // an empty file is not rotated
    store.rotate();
    assert_eq!(store.current, 14);
    store.rotate();
    assert_eq!(store.current, 14);
    assert_eq!(store.reader(14, false).unwrap().all().len(), 0);
}

fn file_per_batch(dir: &Dir, batches: u64) -> Store {
    let mut store = Store::create(dir, 0).unwrap();
    store.log.borrow_mut().set_rotate(1, 0);
    for _ in 0..batches {
        append_numbered(&mut store, 10);
    }
    store
}

#[test]
fn rotation_retains_count() {
    let dir = Dir::new();
    let mut store = Store::create(&dir, 0).unwrap();
    store.log.borrow_mut().set_rotate(1, 3);
    for _ in 0..6 {
        append_numbered(&mut store, 10);
    }
    // 30, 40, 50 and the lock file
    assert_eq!(dir.names().len(), 7);
    check_numbered(&store, 30);
    assert!(matches!(store.reader(29, false).err().unwrap(), Error::SeqPurged(29, 30)));
    // a file that is read is not removed, nor one after it
    let mut reader = store.reader(35, false).unwrap();
    append_numbered(&mut store, 10);
    append_numbered(&mut store, 10);
    assert_eq!(dir.names().len(), 11);
    assert_eq!(reader.next().unwrap(), Some(numbered(35)));
    // once the reader has gone on, the next rotation removes them
    reader.reset(75).unwrap();
    append_numbered(&mut store, 10);
    assert_eq!(dir.names().len(), 7);
    assert!(matches!(store.reader(59, false).err().unwrap(), Error::SeqPurged(59, 60)));
    check_numbered(&store, 60);
}

#[test]
fn purge_removes_older_files() {
    let dir = Dir::new();
    let mut store = file_per_batch(&dir, 5); // 0, 10, 20, 30, 40
    assert_eq!(store.purge(9), vec![]);
    assert_eq!(store.purge(10), vec![0]);
    check_numbered(&store, 10);
    assert_eq!(store.purge(5), vec![]);
    // a file in use stays, and those after it
    let reader = store.reader(25, false).unwrap();
    assert_eq!(store.purge(45), vec![10]);
    assert_eq!(store.purge(45), vec![]);
    drop(reader);
    // the current file stays
    assert_eq!(store.purge(1000), vec![20, 30]);
    check_numbered(&store, 40);
    assert!(matches!(store.reader(39, false).err().unwrap(), Error::SeqPurged(39, 40)));
    assert_eq!(dir.names().len(), 3);
}

#[test]
fn purge_given_what_is_in_use() {
    let store = file_per_batch(&Dir::new(), 4); // 0, 10, 20, 30
    let mut log = store.log.borrow_mut();
    assert_eq!(log.purge_with(30, &vec![1, 2, 1, 1]), vec![0]);
    assert_eq!(log.purge_with(30, &vec![3, 1, 1]), vec![]);
    assert_eq!(log.purge_with(20, &vec![1, 1, 1]), vec![10]);
}

#[test]
fn truncate_across_files() {
    let dir = Dir::new();
    let mut store = file_per_batch(&dir, 5);
    store.sync();
    assert_eq!(store.sync_seq(), 50);
    // at the end there is nothing to do
    store.truncate(50).unwrap();
    assert_eq!(store.next_seq(), 50);
    store.truncate(23).unwrap();
    assert_eq!((store.next_seq(), store.sync_seq()), (23, 23));
    assert_eq!(dir.names().len(), 7);
    check_numbered(&store, 0);
    store.log.borrow_mut().set_rotate(0, 0);
    append_numbered(&mut store, 4);
    assert_eq!((store.next_seq(), store.sync_seq()), (27, 23));
    check_numbered(&store, 0);
    // to the start of a file
    store.truncate(20).unwrap();
    assert!(dir.data(20).is_empty());
    check_numbered(&store, 0);
    append_numbered(&mut store, 1);
    check_numbered(&store, 5);
    // before the oldest entry
    store.purge(20);
    assert!(matches!(store.truncate(19), Err(Error::SeqPurged(19, 20))));
}

#[test]
fn truncate_keeps_unsynced_entries_unsynced() {
    let mut store = file_per_batch(&Dir::new(), 3);
    assert_eq!(store.sync_seq(), 0);
    store.truncate(15).unwrap();
    assert_eq!((store.next_seq(), store.sync_seq()), (15, 0));
    assert_eq!(store.reader(0, true).unwrap().all().len(), 0);
}

#[test]
fn reset_after_truncate() {
    let mut store = Store::create(&Dir::new(), 1).unwrap();
    append_numbered(&mut store, 30);
    let mut reader = store.reader(11, false).unwrap();
    assert_eq!(reader.all().len(), 20);
    assert_eq!(reader.next().unwrap(), None);
    let next_seq = store.next_seq();
    store.truncate(next_seq - 10).unwrap();
    store.append(&["new"]);
    // beyond the end there is nothing to read
    assert_eq!(reader.next().unwrap(), None);
    assert_eq!(reader.inner.next_seq(), next_seq);
    assert!(matches!(reader.reset(next_seq), Err(Error::SeqNotReached(31, 22))));
    reader.reset(next_seq - 12).unwrap();
    assert_eq!(reader.all(), vec![numbered(19), numbered(20), b"new".to_vec()]);
    // and again after the end
    store.append(&["newer"]);
    assert_eq!(reader.all(), vec![b"newer".to_vec()]);
}

#[test]
fn truncate_cuts_indexes() {
    let dir = Dir::new();
    let mut store = Store::create(&dir, 100).unwrap();
    append_numbered(&mut store, 3000);
    let index = dir.index(100);
    store.truncate(100 + 2048).unwrap();
    assert_eq!(dir.index(100), index);
    store.truncate(100 + 2047).unwrap();
    assert_eq!(dir.index(100), index[..8].to_vec());
    append_numbered(&mut store, 10);
    assert_eq!(dir.index(100), index);
    check_numbered(&store, 100 + 2040);
}

#[test]
fn reopening() {
    let dir = Dir::new();
    let mut store = Store::create(&dir, 100).unwrap();
    assert_eq!(Store::open(&dir).unwrap().next_seq(), 100);
    append_numbered(&mut store, 2500);
    store.rotate();
    append_numbered(&mut store, 1500);
    let index = dir.index(2600);
    assert_eq!(index.len(), 8);
    let mut again = Store::open(&dir).unwrap();
    assert_eq!((again.next_seq(), again.sync_seq()), (4100, 4100));
    assert_eq!(dir.index(2600), index);
    check_numbered(&again, 100);
    append_numbered(&mut again, 600);
    check_numbered(&again, 2590);
    // an index file that lags behind is completed
    let index = dir.index(2600);
    assert_eq!(index.len(), 16);
    for kept in [0, 8] {
        dir.cut(index_file_name(2600), kept);
        let again = Store::open(&dir).unwrap();
        assert_eq!(again.next_seq(), 4700);
        assert_eq!(dir.index(2600), index);
        check_numbered(&again, 4000);
    }
    // an incomplete entry does not count
    let data = dir.data(2600);
    for torn in [&b"\x05"[..], &b"\x05\x00\x00\x00abcd"[..]] {
        dir.extend(data_file_name(2600), torn);
        assert_eq!(Store::open(&dir).unwrap().next_seq(), 4700);
        dir.cut(data_file_name(2600), data.len());
    }
}

#[test]
fn damaged_stores() {
    let dir = Dir::new();
    assert!(matches!(Store::open(&dir).err().unwrap(), Error::NoDataFile));
    dir.put("abc.data".to_string(), vec![]);
    let err = Store::open(&dir).err().unwrap();
    assert!(matches!(err, Error::InvalidDataFilename(ref name) if name == "abc.data"));

    let dir = Dir::new();
    let mut store = Store::create(&dir, 10).unwrap();
    store.append(&["first", "second", "third"]);
    let mut reader = store.reader(10, false).unwrap();
    assert_eq!(reader.next().unwrap(), Some(b"first".to_vec()));
    let data = dir.data(10);

    // a payload that was changed
    let mut changed = data.clone();
    changed[15] ^= 1;
    dir.put(data_file_name(10), changed);
    let mut reader = store.reader(10, false).unwrap();
    reader.next().unwrap();
    assert!(matches!(reader.next(), Err(Error::ChecksumMismatch(10, 11))));
    // the error stays
    assert!(matches!(reader.next(), Err(Error::ChecksumMismatch(10, 11))));

    // a data file that is too short
    dir.put(data_file_name(10), data[..data.len() - 1].to_vec());
    let mut reader = store.reader(11, false).unwrap();
    reader.next().unwrap();
    assert!(matches!(reader.next(), Err(Error::DataFileTruncated(10, 12))));
    assert!(matches!(store.reader(13, false), Err(Error::DataFileTruncated(10, 13))));
    dir.put(data_file_name(10), vec![]);
    assert!(matches!(store.reader(10, false), Err(Error::DataFileTruncated(10, 10))));
    dir.put(data_file_name(10), data[..9].to_vec());
    let mut reader = store.reader(10, false).unwrap();
    reader.next().unwrap();
    assert!(matches!(reader.next(), Err(Error::DataFileNotFound(11))));

    // a following data file that is empty
    dir.put(data_file_name(10), data.clone());
    store.rotate();
    store.append(&["fourth"]);
    let mut reader = store.reader(12, false).unwrap();
    dir.put(data_file_name(13), vec![]);
    assert_eq!(reader.next().unwrap(), Some(b"third".to_vec()));
    assert!(matches!(reader.next(), Err(Error::DataFileTruncated(13, 13))));

    // an index file of an odd size
    dir.put(index_file_name(13), vec![0; 7]);
    assert!(matches!(Store::open(&dir), Err(Error::InvalidIndexFile(13))));
}

/// Runs a synchronization to its end. Returns the files that were synchronized.
fn run_sync(syncer: &mut SeqLogSyncer, store: &mut Store, appends: &[&str]) -> Vec<u64> {
    let mut files = vec![];
    loop {
        let step = syncer.sync(store.log.borrow_mut().state_mut());
        match step {
            SyncStep::SyncData(file) => {
                files.push(file);
                if !appends.is_empty() {
                    store.append(appends);
                }
            }
            SyncStep::Done => return files,
        }
    }
}

#[test]
fn syncer_follows_rotation() {
    let mut store = Store::create(&Dir::new(), 0).unwrap();
    let mut syncer = store.log.borrow().syncer();
    append_numbered(&mut store, 10);
    assert_eq!(run_sync(&mut syncer, &mut store, &[]), vec![0]);
    assert_eq!(store.sync_seq(), 10);
    // what is appended meanwhile does not count
    append_numbered(&mut store, 10);
    assert_eq!(run_sync(&mut syncer, &mut store, &["x"]), vec![0]);
    assert_eq!((store.sync_seq(), store.next_seq()), (20, 21));
    // a new file is synchronized after the old one
    store.rotate();
    append_numbered(&mut store, 10);
    assert_eq!(run_sync(&mut syncer, &mut store, &[]), vec![0, 21]);
    assert_eq!(store.sync_seq(), 31);
    assert_eq!(run_sync(&mut syncer, &mut store, &[]), vec![21]);
    // a failure stores nothing
    append_numbered(&mut store, 1);
    assert!(matches!(syncer.sync(store.log.borrow_mut().state_mut()), SyncStep::SyncData(21)));
    syncer.failed();
    assert_eq!(store.sync_seq(), 31);
    assert_eq!(run_sync(&mut syncer, &mut store, &[]), vec![21]);
    assert_eq!(store.sync_seq(), 32);
    // a truncation to an older file is told too
    store.truncate(5).unwrap();
    assert_eq!(run_sync(&mut syncer, &mut store, &[]), vec![0]);
    assert_eq!(store.sync_seq(), 5);
}

#[test]
fn all_unsynced_files_are_synchronized() {
    let mut store = Store::create(&Dir::new(), 0).unwrap();
    let mut syncer = store.log.borrow().syncer();
    let mut other = store.log.borrow().syncer();
    append_numbered(&mut store, 10);
    store.rotate();
    append_numbered(&mut store, 10);
    // by the writer
    assert_eq!(store.sync(), vec![0, 10]);
    assert_eq!(store.sync_seq(), 20);
    assert_eq!(store.sync(), vec![10]);
    // by a syncer, after several rotations
    append_numbered(&mut store, 1);
    store.rotate();
    append_numbered(&mut store, 4);
    store.rotate();
    append_numbered(&mut store, 5);
    assert_eq!(run_sync(&mut syncer, &mut store, &[]), vec![10, 21, 25]);
    assert_eq!(store.sync_seq(), 30);
    // by one of two syncers, and by one that came late
    append_numbered(&mut store, 1);
    store.rotate();
    append_numbered(&mut store, 1);
    let mut late = store.log.borrow().syncer();
    assert_eq!(run_sync(&mut late, &mut store, &[]), vec![25, 31]);
    assert_eq!(run_sync(&mut other, &mut store, &[]), vec![31]);
    assert_eq!(store.sync_seq(), 32);
    // files that were purged are not asked for
    append_numbered(&mut store, 1);
    store.rotate();
    append_numbered(&mut store, 1);
    assert_eq!(store.purge(33), vec![0, 10, 21, 25, 31]);
    assert_eq!(run_sync(&mut syncer, &mut store, &[]), vec![33]);
    assert_eq!(store.sync_seq(), 34);
}

/// Takes one step of a synchronization, which must ask for a file.
fn next_file(syncer: &mut SeqLogSyncer, store: &Store) -> u64 {
    match syncer.sync(store.log.borrow_mut().state_mut()) {
        SyncStep::SyncData(file) => file,
        SyncStep::Done => panic!("done"),
    }
}

fn is_done(syncer: &mut SeqLogSyncer, store: &Store) -> bool {
    matches!(syncer.sync(store.log.borrow_mut().state_mut()), SyncStep::Done)
}

#[test]
fn rotation_during_a_synchronization() {
    let mut store = Store::create(&Dir::new(), 0).unwrap();
    let mut syncer = store.log.borrow().syncer();
    append_numbered(&mut store, 10);
    assert_eq!(next_file(&mut syncer, &store), 0);
    // the file that was synchronized gets more entries before the rotation
    append_numbered(&mut store, 1);
    store.rotate();
    append_numbered(&mut store, 9);
    assert_eq!(next_file(&mut syncer, &store), 0);
    assert_eq!(next_file(&mut syncer, &store), 11);
    assert_eq!(store.sync_seq(), 0);
    assert!(is_done(&mut syncer, &store));
    assert_eq!(store.sync_seq(), 20);
    // and here it gets none
    assert_eq!(next_file(&mut syncer, &store), 11);
    store.rotate();
    append_numbered(&mut store, 5);
    assert_eq!(next_file(&mut syncer, &store), 20);
    // a later rotation is left to the next time
    store.rotate();
    append_numbered(&mut store, 5);
    assert!(is_done(&mut syncer, &store));
    assert_eq!(store.sync_seq(), 25);
    assert_eq!(run_sync(&mut syncer, &mut store, &[]), vec![25]);
    assert_eq!(store.sync_seq(), 30);
}

#[test]
fn truncation_during_a_synchronization() {
    let mut store = Store::create(&Dir::new(), 0).unwrap();
    let mut syncer = store.log.borrow().syncer();
    append_numbered(&mut store, 10);
    assert_eq!(next_file(&mut syncer, &store), 0);
    // entries that took the place of synchronized ones do not count
    store.truncate(5).unwrap();
    append_numbered(&mut store, 7);
    assert_eq!(next_file(&mut syncer, &store), 0);
    assert_eq!(store.sync_seq(), 0);
    assert!(is_done(&mut syncer, &store));
    assert_eq!((store.sync_seq(), store.next_seq()), (12, 12));
}

#[test]
fn synced_reader_stops_at_sync_seq() {
    let mut store = Store::create(&Dir::new(), 0).unwrap();
    store.append(&["a", "b"]);
    store.sync();
    store.append(&["c"]);
    let mut reader = store.reader(0, true).unwrap();
    assert_eq!(reader.all(), vec![b"a".to_vec(), b"b".to_vec()]);
    store.sync();
    assert_eq!(reader.all(), vec![b"c".to_vec()]);
}
