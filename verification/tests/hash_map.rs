//! Hash maps in files.

use persisted_hashmap::file::{DataError, MapError, ReadRange};
use persisted_hashmap::keys::Key;
use persisted_hashmap::scanner::EntryScanner;
use persisted_hashmap::sparse::{
    unless_cut_off, Entry, EntryState, Processed, Refill, Request, SparsePipeline,
};
use persisted_hashmap::state::{PartialEntry, PartialEntryKind, State};
use persisted_hashmap::universal_hashmap::UniversalHashMap;
use persisted_hashmap::visit::visiting_order;
use ph::fmph::Function;
use std::collections::VecDeque;

fn key_bytes<K: Key + ?Sized>(key: &K) -> Vec<u8> {
    let mut bytes = Vec::new();
    key.write(&mut bytes);
    bytes
}

fn pad(bytes: &mut Vec<u8>, step: usize) {
    while bytes.len() % step != 0 {
        bytes.push(0xAA);
    }
}

/// An entry whose key and number of values are padded to multiples of the size of a value.
fn entry_bytes(key: &[u8], values: &[Vec<u8>], value_size: usize) -> Vec<u8> {
    let mut bytes = key.to_vec();
    pad(&mut bytes, value_size);
    bytes.extend_from_slice(&(values.len() as u32).to_ne_bytes());
    pad(&mut bytes, value_size);
    for value in values {
        bytes.extend_from_slice(value);
    }
    bytes
}

/// A file of these entries, each with its bucket and at a multiple of `align` from the first.
fn file_of(name: [u8; 8], phf: &Function, entries: &[(u64, Vec<u8>)], align: usize) -> Vec<u8> {
    let mut phf_bytes = Vec::new();
    phf.write(&mut phf_bytes).unwrap();
    let mut body = Vec::new();
    let mut offsets = vec![0u64; entries.len()];
    for (slot, entry) in entries {
        pad(&mut body, align);
        offsets[*slot as usize] = body.len() as u64;
        body.extend_from_slice(entry);
    }
    let mut file = vec![0; 24];
    file.extend_from_slice(&phf_bytes);
    pad(&mut file, 16);
    let buckets_pos = file.len() as u64;
    for offset in &offsets {
        file.extend_from_slice(&offset.to_ne_bytes());
    }
    file.extend_from_slice(&body);
    file[..8].copy_from_slice(&name);
    file[8..16].copy_from_slice(&buckets_pos.to_ne_bytes());
    file[16..24].copy_from_slice(&(entries.len() as u64).to_ne_bytes());
    file
}

fn u32_bytes(values: &[u32]) -> Vec<Vec<u8>> {
    values.iter().map(|value| value.to_ne_bytes().to_vec()).collect()
}

fn string_file(content: &[(&str, Vec<u32>)]) -> Vec<u8> {
    let keys: Vec<String> = content.iter().map(|(key, _)| key.to_string()).collect();
    let phf = Function::from(&keys[..]);
    let entries: Vec<(u64, Vec<u8>)> = content
        .iter()
        .map(|(key, values)| {
            let slot = phf.get(*key).unwrap();
            (slot, entry_bytes(&key_bytes(*key), &u32_bytes(values), 4))
        })
        .collect();
    file_of(<str as Key>::NAME, &phf, &entries, 1)
}

fn number_file(content: &[(i64, Vec<u64>)]) -> Vec<u8> {
    let keys: Vec<i64> = content.iter().map(|(key, _)| *key).collect();
    let phf = Function::from(&keys[..]);
    let entries: Vec<(u64, Vec<u8>)> = content
        .iter()
        .map(|(key, values)| {
            let slot = phf.get(key).unwrap();
            let values: Vec<Vec<u8>> = values.iter().map(|v| v.to_ne_bytes().to_vec()).collect();
            (slot, entry_bytes(&key_bytes(key), &values, 8))
        })
        .collect();
    file_of(<i64 as Key>::NAME, &phf, &entries, 8)
}

fn reader(file: &[u8]) -> impl FnMut(ReadRange) -> Result<Vec<u8>, String> + '_ {
    |range: ReadRange| {
        let start = (range.byte_offset as usize).min(file.len());
        let end = (start + range.length as usize).min(file.len());
        Ok(file[start..end].to_vec())
    }
}

fn open_strings(file: &[u8]) -> UniversalHashMap<str, u32> {
    UniversalHashMap::open(reader(file)).unwrap_or_else(|error| panic!("{:?}", error))
}

fn sample() -> Vec<(&'static str, Vec<u32>)> {
    vec![
        ("one", vec![1]),
        ("two", vec![2, 22]),
        ("three", vec![]),
        ("a rather long key", vec![4, 44, 444, 4444]),
        ("", vec![5]),
    ]
}

#[test]
fn a_map_is_opened() {
    let file = string_file(&sample());
    let map = open_strings(&file);
    assert_eq!(map.keys_count(), 5);
    assert!(map.answers_keys());
    assert_eq!(map.entries_start(), map.buckets_pos() + 40);
}

#[test]
fn stored_values_are_given() {
    let file = string_file(&sample());
    let map = open_strings(&file);
    for (key, values) in sample() {
        let found = map.get(key, file.len() as u64, reader(&file));
        assert_eq!(found, Ok(Some(values.clone())));
        let count = map.get_values_count(key, file.len() as u64, reader(&file));
        assert_eq!(count, Ok(Some(values.len())));
    }
}

#[test]
fn absent_keys_have_no_values() {
    let file = string_file(&sample());
    let map = open_strings(&file);
    for number in 0..200 {
        let key = format!("absent {}", number);
        let found = map.get(key.as_str(), file.len() as u64, reader(&file));
        assert_eq!(found, Ok(None));
        let count = map.get_values_count(key.as_str(), file.len() as u64, reader(&file));
        assert_eq!(count, Ok(None));
    }
}

#[test]
fn number_keys_are_looked_up() {
    let content = vec![(7i64, vec![70u64, 71]), (-1, vec![]), (i64::MIN, vec![u64::MAX])];
    let file = number_file(&content);
    let map: UniversalHashMap<i64, u64> = UniversalHashMap::open(reader(&file))
        .unwrap_or_else(|error| panic!("{:?}", error));
    for (key, values) in &content {
        let found = map.get(key, file.len() as u64, reader(&file));
        assert_eq!(found, Ok(Some(values.clone())));
    }
    for key in 100..200i64 {
        assert_eq!(map.get(&key, file.len() as u64, reader(&file)), Ok(None));
    }
}

#[test]
fn wide_number_keys_are_looked_up() {
    let keys = vec![1u128 << 90, 5];
    let phf = Function::from(&keys[..]);
    let entries: Vec<(u64, Vec<u8>)> = keys
        .iter()
        .map(|key| {
            let values = vec![(key + 1).to_ne_bytes().to_vec()];
            (phf.get(key).unwrap(), entry_bytes(&key_bytes(key), &values, 16))
        })
        .collect();
    let file = file_of(<u128 as Key>::NAME, &phf, &entries, 16);
    let map: UniversalHashMap<u128, u128> = UniversalHashMap::open(reader(&file))
        .unwrap_or_else(|error| panic!("{:?}", error));
    for key in &keys {
        assert_eq!(map.get(key, file.len() as u64, reader(&file)), Ok(Some(vec![key + 1])));
    }
    assert_eq!(map.get(&6, file.len() as u64, reader(&file)), Ok(None));
}

#[test]
fn entries_larger_than_guessed_are_read_on() {
    let long = "x".repeat(3000);
    let many: Vec<u32> = (0..5000).collect();
    let content = vec![(long.as_str(), many.clone()), ("short", vec![1])];
    let file = string_file(&content);
    let map = open_strings(&file);
    let len = file.len() as u64;
    assert_eq!(map.get(long.as_str(), len, reader(&file)), Ok(Some(many)));
    assert_eq!(map.get_values_count(long.as_str(), len, reader(&file)), Ok(Some(5000)));
    let mut keys = Vec::new();
    let done = map.for_each_key(len, reader(&file), |key: &str| {
        keys.push(key.to_string());
        Ok(())
    });
    assert_eq!(done, Ok(()));
    assert_eq!(keys, vec![long.clone(), "short".to_string()]);
}

#[test]
fn keys_of_a_whole_power_of_two_are_read_on() {
    // With its sentinel the key takes one byte more than the first read brings.
    let long = "y".repeat(512);
    let content = vec![(long.as_str(), vec![1])];
    let file = string_file(&content);
    let map = open_strings(&file);
    let mut sizes = Vec::new();
    let done = map.for_each_key(file.len() as u64, reader(&file), |key: &str| {
        sizes.push(key.len());
        Ok(())
    });
    assert_eq!(done, Ok(()));
    assert_eq!(sizes, vec![512]);
}

#[test]
fn keys_are_visited_in_the_order_of_the_file() {
    let file = string_file(&sample());
    let map = open_strings(&file);
    let mut keys = Vec::new();
    let done = map.for_each_key(file.len() as u64, reader(&file), |key: &str| {
        keys.push(key.to_string());
        Ok(())
    });
    assert_eq!(done, Ok(()));
    assert_eq!(keys, vec!["one", "two", "three", "a rather long key", ""]);
}

#[test]
fn batches_are_answered() {
    let file = string_file(&sample());
    let map = open_strings(&file);
    let mut keys: VecDeque<(u8, &str)> = VecDeque::new();
    keys.push_back((1, "two"));
    keys.push_back((2, "absent"));
    keys.push_back((3, "three"));
    let mut answers = Vec::new();
    let done = map.batch_with_entry(keys, file.len() as u64, reader(&file), |meta, values| {
        answers.push((meta, values.map(|values: &[u32]| values.to_vec())));
        Ok(())
    });
    assert_eq!(done, Ok(()));
    assert_eq!(answers, vec![(1, Some(vec![2, 22])), (2, None), (3, Some(vec![]))]);
}

#[test]
fn entries_are_visited_whatever_the_chunks() {
    let file = string_file(&sample());
    let map = open_strings(&file);
    for chunk_len in [1, 2, 3, 5, 8, 13, 64, 1000] {
        let mut entries = Vec::new();
        let done = map.for_each_entry(
            file.len() as u64,
            chunk_len,
            reader(&file),
            |key: &str, values: &[u32]| {
                entries.push((key.to_string(), values.to_vec()));
                Ok(())
            },
        );
        assert_eq!(done, Ok(()));
        let expected: Vec<(String, Vec<u32>)> = sample()
            .into_iter()
            .map(|(key, values)| (key.to_string(), values))
            .collect();
        assert_eq!(entries, expected);
    }
}

#[test]
fn padding_between_entries_is_skipped() {
    // The first entry takes 20 bytes, so the second key lies behind four bytes of padding.
    let keys = vec![3i64, 4];
    let phf = Function::from(&keys[..]);
    let entries: Vec<(u64, Vec<u8>)> = keys
        .iter()
        .map(|key| {
            let values = u32_bytes(&[30, 31]);
            (phf.get(key).unwrap(), entry_bytes(&key_bytes(key), &values, 4))
        })
        .collect();
    let file = file_of(<i64 as Key>::NAME, &phf, &entries, 8);
    let map: UniversalHashMap<i64, u32> = UniversalHashMap::open(reader(&file))
        .unwrap_or_else(|error| panic!("{:?}", error));
    let mut visited = Vec::new();
    let done = map.for_each_entry(
        file.len() as u64,
        1000,
        reader(&file),
        |key: &i64, values: &[u32]| {
            visited.push((*key, values.to_vec()));
            Ok(())
        },
    );
    assert_eq!(done, Ok(()));
    assert_eq!(visited, vec![(3, vec![30, 31]), (4, vec![30, 31])]);
}

#[test]
fn trailing_bytes_are_told() {
    let mut file = string_file(&sample());
    file.push(b'z');
    let map = open_strings(&file);
    let mut count = 0;
    let done = map.for_each_entry(file.len() as u64, 7, reader(&file), |_: &str, _: &[u32]| {
        count += 1;
        Ok(())
    });
    assert_eq!(done, Err(MapError::Data(DataError::TrailingBytes)));
    assert_eq!(count, 5);
}

#[test]
fn damaged_entries_are_told() {
    let mut file = string_file(&[("one", vec![1])]);
    let map = open_strings(&file);
    let start = map.entries_start() as usize;
    file[start] = 0x80;
    let len = file.len() as u64;
    assert_eq!(map.get("one", len, reader(&file)), Err(MapError::Data(DataError::Entry)));
    let done = map.for_each_entry(len, 64, reader(&file), |_: &str, _: &[u32]| Ok(()));
    assert_eq!(done, Err(MapError::Data(DataError::Entry)));
    let done = map.for_each_key(len, reader(&file), |_: &str| Ok(()));
    assert_eq!(done, Err(MapError::Data(DataError::Entry)));
    let mut keys: VecDeque<((), &str)> = VecDeque::new();
    keys.push_back(((), "one"));
    let done = map.batch_with_entry(keys, len, reader(&file), |_, _| Ok(()));
    assert_eq!(done, Err(MapError::Data(DataError::Entry)));
}

#[test]
fn entries_cut_off_by_the_end_of_the_file_are_told() {
    let mut file = string_file(&[("one", vec![1, 2, 3])]);
    let map = open_strings(&file);
    file.truncate(file.len() - 1);
    let len = file.len() as u64;
    assert_eq!(map.get("one", len, reader(&file)), Err(MapError::Data(DataError::CutOff)));
    assert_eq!(map.get_values_count("one", len, reader(&file)), Ok(Some(3)));
}

#[test]
fn missing_buckets_are_told() {
    let file = string_file(&[("one", vec![1])]);
    let map = open_strings(&file);
    let short = &file[..map.buckets_pos() as usize + 4];
    let found = map.get("one", short.len() as u64, reader(short));
    assert_eq!(found, Err(MapError::Data(DataError::BucketOffset)));
}

#[test]
fn positions_out_of_range_are_told() {
    let mut file = string_file(&[("one", vec![1])]);
    let map = open_strings(&file);
    let bucket = map.buckets_pos() as usize;
    file[bucket..bucket + 8].copy_from_slice(&u64::MAX.to_ne_bytes());
    let len = file.len() as u64;
    assert_eq!(map.get("one", len, reader(&file)), Err(MapError::Data(DataError::Position)));
    let done = map.for_each_key(len, reader(&file), |_: &str| Ok(()));
    assert_eq!(done, Err(MapError::Data(DataError::Position)));
    file[16..24].copy_from_slice(&u64::MAX.to_ne_bytes());
    let opened = UniversalHashMap::<str, u32>::open(reader(&file));
    assert_eq!(opened.err(), Some(MapError::Data(DataError::Position)));
}

#[test]
fn damaged_headers_are_told() {
    let file = string_file(&[("one", vec![1])]);
    let opened = UniversalHashMap::<str, u32>::open(reader(&file[..20]));
    assert_eq!(opened.err(), Some(MapError::Data(DataError::InvalidHeader)));
    let opened = UniversalHashMap::<i64, u32>::open(reader(&file));
    assert_eq!(opened.err(), Some(MapError::Data(DataError::KeyTypeMismatch)));
    let mut early = file.clone();
    early[8..16].copy_from_slice(&23u64.to_ne_bytes());
    let opened = UniversalHashMap::<str, u32>::open(reader(&early));
    assert_eq!(opened.err(), Some(MapError::Data(DataError::BucketsPosBeforeHeaderEnd)));
    let mut cut = file.clone();
    cut[8..16].copy_from_slice(&26u64.to_ne_bytes());
    let opened = UniversalHashMap::<str, u32>::open(reader(&cut));
    assert_eq!(opened.err(), Some(MapError::Data(DataError::HashFunction)));
}

#[test]
fn failures_of_the_caller_pass_through() {
    let file = string_file(&sample());
    let map = open_strings(&file);
    let len = file.len() as u64;
    let failing = |_: ReadRange| -> Result<Vec<u8>, String> { Err("no disk".to_string()) };
    let failure = MapError::Caller("no disk".to_string());
    assert_eq!(UniversalHashMap::<str, u32>::open(failing).err(), Some(failure));
    let failure = MapError::Caller("no disk".to_string());
    assert_eq!(map.get("one", len, failing), Err(failure));
    let refused = MapError::Caller("enough".to_string());
    let done = map.for_each_key(len, reader(&file), |_: &str| Err("enough".to_string()));
    assert_eq!(done, Err(refused));
    let refused = MapError::Caller("enough".to_string());
    let mut count = 0;
    let done = map.for_each_entry(len, 64, reader(&file), |_: &str, _: &[u32]| {
        count += 1;
        if count == 2 {
            Err("enough".to_string())
        } else {
            Ok(())
        }
    });
    assert_eq!(done, Err(refused));
    assert_eq!(count, 2);
}

#[test]
fn a_map_of_parts_is_the_same() {
    let file = string_file(&sample());
    let range = UniversalHashMap::<str, u32>::phf_range(&file[..24]).unwrap();
    assert_eq!(range.byte_offset, 24);
    let phf_bytes = &file[24..24 + range.length as usize];
    let map = UniversalHashMap::<str, u32>::from_parts(&file[..24], phf_bytes).unwrap();
    assert_eq!(map.get("two", file.len() as u64, reader(&file)), Ok(Some(vec![2, 22])));
    assert_eq!(map.bucket("two"), open_strings(&file).bucket("two"));
}

#[test]
fn reads_of_many_requests_can_overlap() {
    let file = string_file(&sample());
    let map = open_strings(&file);
    let kind = PartialEntryKind::KeyAndValues(1);
    let mut pipeline = SparsePipeline::new(&map, kind, file.len() as u64);
    let mut requests = VecDeque::new();
    for (number, (key, _)) in sample().into_iter().enumerate() {
        requests.push_back((number, Request::Key(key)));
    }
    requests.push_back((99, Request::Key("certainly absent")));
    let mut answers = vec![None; 5];
    let mut missing = Vec::new();
    let mut under_way = VecDeque::new();
    let mut read = reader(&file);
    loop {
        match pipeline.refill(&mut requests) {
            Ok(Refill::Schedule(entry, range)) => {
                under_way.push_back((entry, range));
                continue;
            }
            Ok(Refill::Missing(meta)) => {
                missing.push(meta);
                continue;
            }
            Ok(Refill::Drained) => {}
            Err(error) => panic!("{}", error.message()),
        }
        let (entry, range) = match under_way.pop_front() {
            Some(next) => next,
            None => break,
        };
        match pipeline.process(entry, &read(range).unwrap()) {
            Ok(Processed::Deliver(meta, Some(PartialEntry::KeyAndValues(_, values)))) => {
                answers[meta] = Some(values);
            }
            Ok(Processed::Deliver(meta, _)) => missing.push(meta),
            Ok(Processed::Queued) => {}
            Err(error) => panic!("{}", error.message()),
        }
    }
    for (number, (_, values)) in sample().into_iter().enumerate() {
        assert_eq!(answers[number], Some(values));
    }
    assert_eq!(missing, vec![99]);
}

#[test]
fn what_was_queued_last_is_scheduled_first() {
    let file = string_file(&sample());
    let map = open_strings(&file);
    let len = file.len() as u64;
    let mut pipeline: SparsePipeline<'_, '_, u8, str, u32> =
        SparsePipeline::new(&map, PartialEntryKind::KeyOnly, len);
    let mut requests = VecDeque::new();
    requests.push_back((1, Request::Offset(0)));
    requests.push_back((2, Request::Offset(0)));
    let mut scheduled = Vec::new();
    for _ in 0..2 {
        if let Ok(Refill::Schedule(entry, range)) = pipeline.refill(&mut requests) {
            assert_eq!(range.byte_offset, map.entries_start());
            scheduled.push(entry);
        }
    }
    for entry in scheduled {
        assert!(matches!(pipeline.process(entry, b"on"), Ok(Processed::Queued)));
    }
    match pipeline.refill(&mut requests) {
        Ok(Refill::Schedule(entry, range)) => {
            assert_eq!(entry.meta, 2);
            assert_eq!(range.byte_offset, map.entries_start() + 2);
            assert!(range.length > 0);
        }
        _ => panic!("two entries are queued"),
    }
}

#[test]
fn a_key_that_cannot_be_read_is_told() {
    let file = string_file(&[("one", vec![1])]);
    let map = open_strings(&file);
    let len = file.len() as u64;
    let kind = PartialEntryKind::KeyAndValues(1);
    let mut pipeline = SparsePipeline::new(&map, kind, len);
    let mut requests = VecDeque::new();
    requests.push_back(((), Request::Key("one")));
    let mut read = reader(&file);
    let first = match pipeline.refill(&mut requests) {
        Ok(Refill::Schedule(entry, range)) => pipeline.process(entry, &read(range).unwrap()),
        _ => panic!("the key has a bucket"),
    };
    assert!(matches!(first, Ok(Processed::Queued)));
    match pipeline.refill(&mut requests) {
        Ok(Refill::Schedule(entry, range)) => match entry.state {
            EntryState::ReadingEntry { byte_offset, buf, expected_len, requested_key, .. } => {
                // A size of the key that is beyond the bytes of the entry.
                let parse_state = State { key_size: Some(4096), searched_up_to: 0 };
                let state = EntryState::ReadingEntry {
                    byte_offset,
                    buf,
                    expected_len,
                    requested_key,
                    parse_state,
                };
                let processed = pipeline.process(Entry { meta: (), state }, &read(range).unwrap());
                assert!(matches!(processed, Err(DataError::StoredKey)));
            }
            _ => panic!("the position of the entry is known"),
        },
        _ => panic!("the entry is queued"),
    }
}

#[test]
fn a_scanner_gives_entries_when_they_are_complete() {
    let mut bytes = entry_bytes(&key_bytes("ab"), &u32_bytes(&[1]), 4);
    bytes.extend_from_slice(&entry_bytes(&key_bytes("cd"), &u32_bytes(&[2]), 4));
    let mut scanner: EntryScanner<str, u32> = EntryScanner::new();
    let first = scanner.feed(&bytes[..13]);
    assert!(first.error.is_none());
    assert_eq!(first.entries, vec![("ab".to_string(), vec![1])]);
    assert_eq!(scanner.finish(), Err(DataError::TrailingBytes));
    let second = scanner.feed(&bytes[13..]);
    assert_eq!(second.entries, vec![("cd".to_string(), vec![2])]);
    assert_eq!(scanner.finish(), Ok(()));
}

#[test]
fn a_map_without_an_answer_for_every_key_is_told() {
    let mut file = vec![0; 24];
    // A hash function of one level without words.
    file.extend_from_slice(&[1, 0]);
    file[..8].copy_from_slice(&<str as Key>::NAME);
    file[8..16].copy_from_slice(&26u64.to_ne_bytes());
    let map = open_strings(&file);
    assert!(!map.answers_keys());
    assert_eq!(map.keys_count(), 0);
}

fn no_disk(_: ReadRange) -> Result<Vec<u8>, String> {
    Err("no disk".to_string())
}

/// Reads the file, but for what starts at `from` or behind it.
fn reader_up_to(file: &[u8], from: u64) -> impl FnMut(ReadRange) -> Result<Vec<u8>, String> + '_ {
    let mut read = reader(file);
    move |range: ReadRange| {
        if range.byte_offset >= from {
            Err(format!("no disk at {}", range.byte_offset))
        } else {
            read(range)
        }
    }
}

#[test]
fn a_key_without_a_bucket_needs_no_read() {
    let file = string_file(&sample());
    let map = open_strings(&file);
    let len = file.len() as u64;
    let mut without = 0;
    for number in 0..200 {
        let key = format!("absent {}", number);
        if map.bucket(key.as_str()).is_none() {
            without += 1;
            assert_eq!(map.get(key.as_str(), len, no_disk), Ok(None));
            assert_eq!(map.get_values_count(key.as_str(), len, no_disk), Ok(None));
            let mut keys = VecDeque::new();
            keys.push_back((number, key.as_str()));
            let done = map.batch_with_entry(keys, len, no_disk, |meta, values: Option<&[u32]>| {
                assert_eq!((meta, values), (number, None));
                Err(format!("refused {}", meta))
            });
            assert_eq!(done, Err(MapError::Caller(format!("refused {}", number))));
        }
    }
    assert!(without > 0);
}

#[test]
fn where_there_is_nothing_to_read_nothing_is_read() {
    let file = string_file(&sample());
    let map = open_strings(&file);
    let none: VecDeque<((), &str)> = VecDeque::new();
    let done = map.batch_with_entry(none, file.len() as u64, no_disk, |_, _| Ok(()));
    assert_eq!(done, Ok(()));
    let done = map.for_each_entry(map.entries_start(), 64, no_disk, |_: &str, _: &[u32]| Ok(()));
    assert_eq!(done, Ok(()));
}

#[test]
fn only_the_ranges_of_a_lookup_are_read() {
    let file = string_file(&sample());
    let map = open_strings(&file);
    let len = file.len() as u64;
    let bucket = map.buckets_pos() + 8 * map.bucket("two").unwrap();
    let found = map.get("two", len, reader_up_to(&file, bucket));
    assert_eq!(found, Err(MapError::Caller(format!("no disk at {}", bucket))));
    // The entry of "two" lies behind that of "one", which takes 12 bytes.
    let entry = map.entries_start() + 12;
    let found = map.get("two", len, reader_up_to(&file, map.entries_start()));
    assert_eq!(found, Err(MapError::Caller(format!("no disk at {}", entry))));
    let count = map.get_values_count("two", len, reader_up_to(&file, map.entries_start()));
    assert_eq!(count, Err(MapError::Caller(format!("no disk at {}", entry))));
    let mut ranges = Vec::new();
    let mut read = reader(&file);
    let found = map.get("two", len, |range| {
        ranges.push((range.byte_offset, range.length));
        read(range)
    });
    assert_eq!(found, Ok(Some(vec![2, 22])));
    assert_eq!(ranges, vec![(bucket, 8), (entry, len - entry)]);
}

#[test]
fn only_the_ranges_of_the_parts_are_opened() {
    let file = string_file(&sample());
    let opened = UniversalHashMap::<str, u32>::open(reader_up_to(&file, 0));
    assert_eq!(opened.err(), Some(MapError::Caller("no disk at 0".to_string())));
    let opened = UniversalHashMap::<str, u32>::open(reader_up_to(&file, 1));
    assert_eq!(opened.err(), Some(MapError::Caller("no disk at 24".to_string())));
}

#[test]
fn only_the_ranges_of_a_visit_are_read() {
    let file = string_file(&sample());
    let map = open_strings(&file);
    let len = file.len() as u64;
    let range = map.bucket_range();
    assert_eq!((range.byte_offset, range.length), (map.buckets_pos(), 40));
    let done = map.for_each_key(len, reader_up_to(&file, 0), |_: &str| Ok(()));
    assert_eq!(done, Err(MapError::Caller(format!("no disk at {}", map.buckets_pos()))));
    let mut keys = Vec::new();
    let second = map.entries_start() + 12;
    let done = map.for_each_key(len, reader_up_to(&file, second), |key: &str| {
        keys.push(key.to_string());
        Ok(())
    });
    assert_eq!(done, Err(MapError::Caller(format!("no disk at {}", second))));
    assert_eq!(keys, vec!["one"]);
    let mut entries = 0;
    let start = map.entries_start();
    let read = reader_up_to(&file, start + 16);
    let done = map.for_each_entry(len, 16, read, |_: &str, _: &[u32]| {
        entries += 1;
        Ok(())
    });
    assert_eq!(done, Err(MapError::Caller(format!("no disk at {}", start + 16))));
    assert_eq!(entries, 1);
}

#[test]
fn the_error_for_an_entry_is_handed_on() {
    let file = string_file(&sample());
    let map = open_strings(&file);
    let len = file.len() as u64;
    let mut taken = Vec::new();
    let done = map.for_each_entry(len, 5, reader(&file), |key: &str, values: &[u32]| {
        if key == "three" {
            return Err(format!("{} has {}", key, values.len()));
        }
        taken.push((key.to_string(), values.to_vec()));
        Ok(())
    });
    assert_eq!(done, Err(MapError::Caller("three has 0".to_string())));
    assert_eq!(taken, vec![("one".to_string(), vec![1]), ("two".to_string(), vec![2, 22])]);
    let mut taken = Vec::new();
    let done = map.for_each_key(len, reader(&file), |key: &str| {
        if key == "two" {
            return Err(format!("refused {}", key));
        }
        taken.push(key.to_string());
        Ok(())
    });
    assert_eq!(done, Err(MapError::Caller("refused two".to_string())));
    assert_eq!(taken, vec!["one"]);
    let mut keys = VecDeque::new();
    keys.push_back((1, "two"));
    keys.push_back((2, "one"));
    keys.push_back((3, "three"));
    let mut answered = Vec::new();
    let done = map.batch_with_entry(keys, len, reader(&file), |meta, values| {
        if meta == 2 {
            return Err(format!("refused {:?}", values));
        }
        answered.push(meta);
        Ok(())
    });
    assert_eq!(done, Err(MapError::Caller("refused Some([1])".to_string())));
    assert_eq!(answered, vec![1]);
}

#[test]
fn the_number_of_values_does_not_depend_on_the_values() {
    let mut file = string_file(&[("one", vec![1, 2, 3])]);
    let map = open_strings(&file);
    let len = file.len() as u64;
    for byte in 1..=12 {
        let at = file.len() - byte;
        file[at] = 0xEE;
        assert_eq!(map.get_values_count("one", len, reader(&file)), Ok(Some(3)));
    }
    assert_eq!(map.get("one", len, reader(&file)), Ok(Some(vec![0xEEEEEEEE; 3])));
}

#[test]
fn as_many_keys_are_visited_as_are_counted() {
    let file = string_file(&sample());
    let map = open_strings(&file);
    let start = map.buckets_pos() as usize;
    let order = visiting_order(&file[start..start + 40]);
    assert_eq!(order, vec![0, 12, 28, 40, 80]);
    assert_eq!(order.len(), map.keys_count());
    // What is left over is no offset.
    assert_eq!(visiting_order(&file[start..start + 15]).len(), 1);
}

#[test]
fn damaged_bytes_are_told_whatever_the_chunks() {
    let mut file = string_file(&sample());
    let map = open_strings(&file);
    // The first byte of the third key.
    let third = map.entries_start() as usize + 28;
    file[third] = 0x80;
    for chunk_len in [1, 3, 7, 16, 28, 29, 100, 1000] {
        let mut keys = Vec::new();
        let done = map.for_each_entry(
            file.len() as u64,
            chunk_len,
            reader(&file),
            |key: &str, _: &[u32]| {
                keys.push(key.to_string());
                Ok(())
            },
        );
        assert_eq!(done, Err(MapError::Data(DataError::Entry)));
        assert_eq!(keys, vec!["one", "two"]);
    }
}

#[test]
fn only_a_read_of_an_entry_can_be_cut_off() {
    let offset: EntryState<'_, str> = EntryState::ReadingOffset { requested_key: "one" };
    assert!(!offset.is_cut_off(&[]));
    let file = string_file(&sample());
    let map = open_strings(&file);
    let kind = PartialEntryKind::KeyOnly;
    let mut pipeline: SparsePipeline<'_, '_, (), str, u32> =
        SparsePipeline::new(&map, kind, file.len() as u64);
    let mut requests = VecDeque::new();
    requests.push_back(((), Request::Offset(0)));
    match pipeline.refill(&mut requests) {
        Ok(Refill::Schedule(entry, _)) => {
            assert!(entry.state.is_cut_off(&[]));
            assert!(!entry.state.is_cut_off(b"o"));
        }
        _ => panic!("an offset is scheduled"),
    }
}

#[test]
fn each_request_is_answered_once_in_whatever_order_reads_come_back() {
    let file = string_file(&sample());
    let map = open_strings(&file);
    for reverse in [false, true] {
        let kind = PartialEntryKind::KeyAndValues(1);
        let mut pipeline = SparsePipeline::new(&map, kind, file.len() as u64);
        // Two requests for one key, one for a key that is not stored, and one by an offset.
        let mut requests = VecDeque::new();
        requests.push_back((10, Request::Key("two")));
        requests.push_back((11, Request::Key("one")));
        requests.push_back((12, Request::Key("two")));
        requests.push_back((13, Request::Key("absent 7")));
        requests.push_back((14, Request::Offset(28)));
        let mut answers = Vec::new();
        let mut under_way = VecDeque::new();
        let mut read = reader(&file);
        loop {
            match pipeline.refill(&mut requests) {
                Ok(Refill::Schedule(entry, range)) => {
                    under_way.push_back((entry, range));
                    continue;
                }
                Ok(Refill::Missing(meta)) => {
                    answers.push((meta, None));
                    continue;
                }
                Ok(Refill::Drained) => {}
                Err(error) => panic!("{}", error.message()),
            }
            let next = if reverse { under_way.pop_back() } else { under_way.pop_front() };
            let (entry, range) = match next {
                Some(next) => next,
                None => break,
            };
            match pipeline.advance(entry, &read(range).unwrap()) {
                Ok(Processed::Deliver(meta, found)) => {
                    let values = match found {
                        Some(PartialEntry::KeyAndValues(_, values)) => Some(values),
                        _ => None,
                    };
                    answers.push((meta, values));
                }
                Ok(Processed::Queued) => {}
                Err(error) => panic!("{}", error.message()),
            }
        }
        answers.sort();
        let expected = vec![
            (10, Some(vec![2, 22])),
            (11, Some(vec![1])),
            (12, Some(vec![2, 22])),
            (13, None),
            (14, Some(vec![])),
        ];
        assert_eq!(answers, expected);
    }
}

#[test]
fn an_entry_that_cannot_be_read_on_is_cut_off() {
    let file = string_file(&sample());
    let map = open_strings(&file);
    let kind = PartialEntryKind::KeyOnly;
    let mut pipeline: SparsePipeline<'_, '_, u8, str, u32> =
        SparsePipeline::new(&map, kind, file.len() as u64);
    let mut requests = VecDeque::new();
    requests.push_back((1, Request::Offset(0)));
    requests.push_back((2, Request::Offset(0)));
    for data in [&b"on"[..], &b""[..]] {
        let advanced = match pipeline.refill(&mut requests) {
            Ok(Refill::Schedule(entry, _)) => pipeline.advance(entry, data),
            _ => panic!("an entry is to be read"),
        };
        if data.is_empty() {
            assert!(matches!(advanced, Err(DataError::CutOff)));
        } else {
            assert!(matches!(advanced, Ok(Processed::Queued)));
        }
    }
    let queued: Result<Processed<u8, str, u32>, DataError> = Ok(Processed::Queued);
    assert!(matches!(unless_cut_off(queued, true), Err(DataError::CutOff)));
    let queued: Result<Processed<u8, str, u32>, DataError> = Ok(Processed::Queued);
    assert!(matches!(unless_cut_off(queued, false), Ok(Processed::Queued)));
    let answer: Result<Processed<u8, str, u32>, DataError> = Ok(Processed::Deliver(5, None));
    assert!(matches!(unless_cut_off(answer, true), Ok(Processed::Deliver(5, None))));
    let damaged: Result<Processed<u8, str, u32>, DataError> = Err(DataError::Entry);
    assert!(matches!(unless_cut_off(damaged, true), Err(DataError::Entry)));
}

#[test]
fn the_values_are_not_read_for_their_number() {
    let many: Vec<u64> = (0..5000).collect();
    let file = number_file(&[(7, many)]);
    let map: UniversalHashMap<i64, u64> = UniversalHashMap::open(reader(&file))
        .unwrap_or_else(|error| panic!("{:?}", error));
    let mut ranges = Vec::new();
    let mut read = reader(&file);
    let count = map.get_values_count(&7, file.len() as u64, |range| {
        ranges.push((range.byte_offset, range.length));
        read(range)
    });
    assert_eq!(count, Ok(Some(5000)));
    // The key takes 8 bytes, and the number of values 4 with up to 7 bytes of padding.
    assert_eq!(ranges, vec![(map.buckets_pos(), 8), (map.entries_start(), 19)]);
}

#[test]
fn nothing_is_handed_on_behind_a_refusal() {
    let file = string_file(&sample());
    let map = open_strings(&file);
    let len = file.len() as u64;
    let mut calls = 0;
    let done = map.for_each_entry(len, 1000, reader(&file), |_: &str, _: &[u32]| {
        calls += 1;
        Err("enough".to_string())
    });
    assert_eq!((done, calls), (Err(MapError::Caller("enough".to_string())), 1));
    let mut calls = 0;
    let done = map.for_each_key(len, reader(&file), |_: &str| {
        calls += 1;
        Err("enough".to_string())
    });
    assert_eq!((done, calls), (Err(MapError::Caller("enough".to_string())), 1));
}
