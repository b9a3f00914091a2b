//! The files of a store, named after the sequence number of their first entry.

use crate::decimal::{is_digit, padded, padded_round_trip, parse_u64, pow10, push_padded, u64_text};
use crate::error::Error;
use std::sync::Arc;
use vstd::prelude::*;

verus! {

pub const DATA_SUFFIX: &'static str = ".data";

pub const INDEX_SUFFIX: &'static str = ".index";

pub const LOCK_FILE: &'static str = "LOCK";

/// Digits of the sequence number in a file name. Enough for every `u64`.
pub const NAME_WIDTH: usize = 20;

pub open spec fn data_name(seq: u64) -> Seq<char> {
    padded(seq as nat, NAME_WIDTH as nat) + DATA_SUFFIX@
}

pub open spec fn index_name(seq: u64) -> Seq<char> {
    padded(seq as nat, NAME_WIDTH as nat) + INDEX_SUFFIX@
}

/// Whether a file of this name is taken for a data file.
pub open spec fn is_data_name(name: Seq<char>) -> bool {
    name.len() >= 5 && name.skip(name.len() - 5) == DATA_SUFFIX@
}

/// The sequence number that a data file's name stands for, if it is a valid one.
pub open spec fn name_seq(name: Seq<char>) -> Option<u64> {
    u64_text(name.take(name.len() - 5))
}

pub open spec fn is_invalid_name(name: Seq<char>) -> bool {
    is_data_name(name) && name_seq(name) is None
}

/// The characters of each name.
pub open spec fn texts(names: Seq<String>) -> Seq<Seq<char>> {
    Seq::new(names.len(), |i: int| names[i]@)
}

/// The sequence numbers of the data files among these names, in the order of the
/// names.
pub open spec fn data_seqs(names: Seq<Seq<char>>) -> Seq<u64>
    decreases names.len(),
{
    if names.len() == 0 {
        seq![]
    } else {
        let before = data_seqs(names.drop_last());
        if is_data_name(names.last()) && name_seq(names.last()) is Some {
            before.push(name_seq(names.last()).unwrap())
        } else {
            before
        }
    }
}

pub open spec fn sorted(seqs: Seq<u64>) -> bool {
    forall|i: int, j: int| 0 <= i <= j < seqs.len() ==> seqs[i] <= seqs[j]
}

/// The numbers behind shared handles.
pub open spec fn numbers(files: Seq<Arc<u64>>) -> Seq<u64> {
    Seq::new(files.len(), |i: int| *files[i])
}

proof fn lemma_suffixes()
    ensures
        DATA_SUFFIX@ == seq!['.', 'd', 'a', 't', 'a'],
        INDEX_SUFFIX@ == seq!['.', 'i', 'n', 'd', 'e', 'x'],
        LOCK_FILE@ == seq!['L', 'O', 'C', 'K'],
{
    reveal_strlit(".data");
    reveal_strlit(".index");
    reveal_strlit("LOCK");
    assert(DATA_SUFFIX@ =~= seq!['.', 'd', 'a', 't', 'a']);
    assert(INDEX_SUFFIX@ =~= seq!['.', 'i', 'n', 'd', 'e', 'x']);
    assert(LOCK_FILE@ =~= seq!['L', 'O', 'C', 'K']);
}

/// A data file's name is recognised and gives back the sequence number it was
/// built from. Neither an index file nor the lock file is taken for a data file.
pub proof fn names_round_trip(seq: u64)
    ensures
        is_data_name(data_name(seq)),
        name_seq(data_name(seq)) == Some(seq),
        !is_data_name(index_name(seq)),
        !is_data_name(LOCK_FILE@),
{
    lemma_suffixes();
    let n = seq as nat;
    assert(pow10(20) == 100_000_000_000_000_000_000) by {
        reveal_with_fuel(pow10, 21);
    }
    padded_round_trip(n, 20);
    let digits = padded(n, 20);
    let data = data_name(seq);
    assert(data.skip(data.len() - 5) =~= DATA_SUFFIX@);
    assert(data.take(data.len() - 5) =~= digits);
    assert(is_digit(digits[0]));
    let index = index_name(seq);
    assert(index.skip(index.len() - 5)[0] == 'i');
}

/// Different sequence numbers never share a file.
pub proof fn names_distinct(a: u64, b: u64)
    requires
        data_name(a) == data_name(b) || index_name(a) == index_name(b),
    ensures
        a == b,
{
    lemma_suffixes();
    assert(pow10(20) == 100_000_000_000_000_000_000) by {
        reveal_with_fuel(pow10, 21);
    }
    padded_round_trip(a as nat, 20);
    padded_round_trip(b as nat, 20);
    let (x, y) = if data_name(a) == data_name(b) {
        (data_name(a), data_name(b))
    } else {
        (index_name(a), index_name(b))
    };
    assert(x.take(20) =~= padded(a as nat, 20));
    assert(y.take(20) =~= padded(b as nat, 20));
}

/// The name of a data file: the sequence number of its first entry.
pub fn data_file_name(seq: u64) -> (name: String)
    ensures
        name@ == data_name(seq),
{
    let mut name = String::new();
    push_padded(&mut name, seq, NAME_WIDTH);
    name.append(DATA_SUFFIX);
    assert(name@ =~= data_name(seq));
    name
}

/// The name of the index file that belongs to a data file.
pub fn index_file_name(seq: u64) -> (name: String)
    ensures
        name@ == index_name(seq),
{
    let mut name = String::new();
    push_padded(&mut name, seq, NAME_WIDTH);
    name.append(INDEX_SUFFIX);
    assert(name@ =~= index_name(seq));
    name
}

fn has_data_suffix(name: &str, len: usize) -> (b: bool)
    requires
        len == name@.len(),
    ensures
        b == is_data_name(name@),
{
    proof {
        lemma_suffixes();
    }
    if len < 5 {
        return false;
    }
    let b = name.get_char(len - 5) == '.' && name.get_char(len - 4) == 'd' && name.get_char(len - 3)
        == 'a' && name.get_char(len - 2) == 't' && name.get_char(len - 1) == 'a';
    proof {
        let end = name@.skip(len - 5);
        if b {
            assert(end =~= DATA_SUFFIX@);
        } else {
            assert(end[0] == name@[len - 5]);
            assert(end[1] == name@[len - 4]);
            assert(end[2] == name@[len - 3]);
            assert(end[3] == name@[len - 2]);
            assert(end[4] == name@[len - 1]);
        }
    }
    b
}

proof fn lemma_insert_multiset(s: Seq<u64>, i: int, x: u64)
    requires
        0 <= i <= s.len(),
    ensures
        s.insert(i, x).to_multiset() == s.to_multiset().insert(x),
{
    broadcast use vstd::seq_lib::group_to_multiset_ensures;
    let t = s.insert(i, x);
    assert(t.remove(i) =~= s);
    assert(t[i] == x);
    assert(t.contains(x));
    assert(t.to_multiset().remove(x) =~= s.to_multiset());
    assert(t.to_multiset() =~= s.to_multiset().insert(x));
}

/// Puts one more sequence number where it belongs.
fn insert_sorted(files: &mut Vec<Arc<u64>>, seq: u64)
    requires
        sorted(numbers(old(files)@)),
    ensures
        sorted(numbers(final(files)@)),
        numbers(final(files)@).to_multiset() == numbers(old(files)@).to_multiset().insert(seq),
{
    let mut i: usize = files.len();
    while i > 0 && *files[i - 1] > seq
        invariant
            i <= files@.len(),
            files@ == old(files)@,
            sorted(numbers(files@)),
            forall|j: int| i <= j < files@.len() ==> seq <= #[trigger] numbers(files@)[j],
        decreases i,
    {
        assert(numbers(files@)[i - 1] == *files@[i - 1]);
        i = i - 1;
    }
    let ghost before = numbers(files@);
    assert(i > 0 ==> before[i - 1] <= seq);
    files.insert(i, Arc::new(seq));
    proof {
        assert(numbers(files@) =~= before.insert(i as int, seq));
        lemma_insert_multiset(before, i as int, seq);
    }
}

/// The data files of a store, given the names of all files in its directory: the
/// sequence numbers in ascending order. Fails on the first data file whose name is
/// not a sequence number.
pub fn list_files(names: &Vec<String>) -> (r: Result<Vec<Arc<u64>>, Error>)
    ensures
        match r {
            Ok(files) => {
                &&& forall|i: int|
                    0 <= i < names@.len() ==> !is_invalid_name(#[trigger] texts(names@)[i])
                &&& sorted(numbers(files@))
                &&& numbers(files@).to_multiset() == data_seqs(texts(names@)).to_multiset()
            },
            Err(e) => exists|i: int|
                {
                    &&& 0 <= i < names@.len()
                    &&& is_invalid_name(#[trigger] texts(names@)[i])
                    &&& forall|j: int| 0 <= j < i ==> !is_invalid_name(#[trigger] texts(names@)[j])
                    &&& e matches Error::InvalidDataFilename(n) && n@ == names@[i]@
                },
        },
{
    let mut files: Vec<Arc<u64>> = Vec::new();
    let ghost all = texts(names@);
    assert(numbers(files@) =~= data_seqs(all.take(0)));
    let mut i: usize = 0;
    while i < names.len()
        invariant
            i <= names@.len(),
            all == texts(names@),
            forall|j: int| 0 <= j < i ==> !is_invalid_name(#[trigger] all[j]),
            sorted(numbers(files@)),
            numbers(files@).to_multiset() == data_seqs(all.take(i as int)).to_multiset(),
        decreases names.len() - i,
    {
        broadcast use vstd::seq_lib::group_to_multiset_ensures;

        let name = names[i].as_str();
        let len: usize = name.unicode_len();
        assert(all[i as int] == name@);
        assert(all.take(i + 1).drop_last() =~= all.take(i as int));
        assert(all.take(i + 1).last() == all[i as int]);
        if has_data_suffix(name, len) {
            match parse_u64(name, len - 5) {
                Some(seq) => {
                    insert_sorted(&mut files, seq);
                },
                None => {
                    assert(is_invalid_name(all[i as int]));
                    return Err(Error::InvalidDataFilename(names[i].clone()));
                },
            }
        }
        i = i + 1;
    }
    assert(all.take(i as int) =~= all);
    Ok(files)
}

proof fn lemma_no_data_files(names: Seq<Seq<char>>)
    requires
        forall|i: int| 0 <= i < names.len() ==> !is_data_name(#[trigger] names[i]),
    ensures
        data_seqs(names) == Seq::<u64>::empty(),
    decreases names.len(),
{
    if names.len() > 0 {
        assert(!is_data_name(names[names.len() - 1]));
        assert forall|i: int| 0 <= i < names.len() - 1 implies !is_data_name(
            #[trigger] names.drop_last()[i],
        ) by {
            assert(names.drop_last()[i] == names[i]);
        }
        lemma_no_data_files(names.drop_last());
    }
}

/// A store that was just created holds one data file, in whichever order its files
/// are listed: the `k`-th name is that of the data file, each other is that of the
/// index file or of the lock file.
pub proof fn created_files_listed(start_seq: u64, names: Seq<Seq<char>>, k: int)
    requires
        0 <= k < names.len(),
        names[k] == data_name(start_seq),
        forall|i: int|
            0 <= i < names.len() && i != k ==> #[trigger] names[i] == index_name(start_seq)
                || names[i] == LOCK_FILE@,
    ensures
        forall|i: int| 0 <= i < names.len() ==> !is_invalid_name(#[trigger] names[i]),
        data_seqs(names) == seq![start_seq],
    decreases names.len(),
{
    names_round_trip(start_seq);
    let before = names.drop_last();
    assert forall|i: int| 0 <= i < before.len() implies #[trigger] before[i] == names[i] by {}
    if k == names.len() - 1 {
        lemma_no_data_files(before);
        assert(data_seqs(names) =~= seq![start_seq]);
    } else {
        assert(names.last() == names[names.len() - 1]);
        created_files_listed(start_seq, before, k);
    }
}

/// A file of a store.
pub enum StoreFile {
    Data(u64),
    Index(u64),
    Lock,
}

/// The names of these files.
pub open spec fn store_names(files: Seq<StoreFile>) -> Seq<Seq<char>> {
    Seq::new(
        files.len(),
        |i: int|
            match files[i] {
                StoreFile::Data(seq) => data_name(seq),
                StoreFile::Index(seq) => index_name(seq),
                StoreFile::Lock => LOCK_FILE@,
            },
    )
}

/// The sequence numbers of the data files among these files, in their order.
pub open spec fn data_files(files: Seq<StoreFile>) -> Seq<u64>
    decreases files.len(),
{
    if files.len() == 0 {
        seq![]
    } else {
        match files.last() {
            StoreFile::Data(seq) => data_files(files.drop_last()).push(seq),
            _ => data_files(files.drop_last()),
        }
    }
}

/// The names of the files of a store, in whichever order they are listed, are all valid,
/// and give back the sequence numbers of its data files, one for each.
pub proof fn store_files_listed(files: Seq<StoreFile>)
    ensures
        forall|i: int|
            0 <= i < files.len() ==> !is_invalid_name(#[trigger] store_names(files)[i]),
        data_seqs(store_names(files)) == data_files(files),
    decreases files.len(),
{
    if files.len() > 0 {
        let before = files.drop_last();
        let names = store_names(files);
        store_files_listed(before);
        assert(names.drop_last() =~= store_names(before));
        match files.last() {
            StoreFile::Data(seq) => names_round_trip(seq),
            StoreFile::Index(seq) => names_round_trip(seq),
            StoreFile::Lock => names_round_trip(0),
        }
        assert forall|i: int| 0 <= i < files.len() implies !is_invalid_name(
            #[trigger] names[i],
        ) by {
            if i < before.len() {
                assert(names[i] == store_names(before)[i]);
            }
        }
    }
}

} // verus!
