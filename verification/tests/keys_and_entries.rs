//! Keys and entries in bytes.

use persisted_hashmap::align::align_offset;
use persisted_hashmap::aligned::check_fits_buffer;
use persisted_hashmap::entry::{parse_entry, parse_entry_at, ParsedEntry};
use persisted_hashmap::file::{parse_entry_offset, DataError, Header, ReadRange};
use persisted_hashmap::keys::{check_cast, ConvertError, Key, ReadError};
use persisted_hashmap::phf::{phf_is_usable, read_phf};
use persisted_hashmap::state::{PartialEntry, PartialEntryKind, State};
use persisted_hashmap::values::{check_values, read_values, Value};
use zerocopy::IntoBytes;

fn written<K: Key + ?Sized>(key: &K) -> Vec<u8> {
    let mut bytes = Vec::new();
    key.write(&mut bytes);
    assert_eq!(key.write_bytes(), bytes.len());
    bytes
}

#[test]
fn keys_are_written() {
    assert_eq!(written("foo"), b"foo\xff".to_vec());
    assert_eq!(written(""), b"\xff".to_vec());
    assert_eq!(written(&-2i64), (-2i64).to_ne_bytes().to_vec());
    let number = 0x0102_0304_0506_0708_090a_0b0c_0d0e_0f10u128;
    assert_eq!(written(&number), number.to_ne_bytes().to_vec());
}

#[test]
fn writing_appends() {
    let mut bytes = vec![7];
    "a".write(&mut bytes);
    assert_eq!(bytes, vec![7, b'a', 0xFF]);
}

#[test]
fn names_and_sizes_of_keys() {
    assert_eq!(<str as Key>::NAME, *b"str\0\0\0\0\0");
    assert_eq!(<i64 as Key>::NAME, *b"i64\0\0\0\0\0");
    assert_eq!(<u128 as Key>::NAME, *b"u128\0\0\0\0");
    assert_eq!(<str as Key>::VALUE_SIZE_EST, 512);
    assert_eq!(<i64 as Key>::VALUE_SIZE_EST, 8);
    assert_eq!(<u128 as Key>::VALUE_SIZE_EST, 16);
    assert_eq!(<str as Key>::align(), 1);
    assert_eq!(<i64 as Key>::align(), std::mem::align_of::<i64>());
    assert_eq!(<u128 as Key>::align(), 16);
}

#[test]
fn a_string_matches_only_itself() {
    assert!(Key::matches("foo", b"foo\xff"));
    assert!(Key::matches("foo", b"foo\xff and more"));
    assert!(!Key::matches("foo", b"foobar\xff"));
    assert!(!Key::matches("foobar", b"foo\xff"));
    assert!(!Key::matches("foo", b"foo"));
    assert!(!Key::matches("foo", b""));
}

#[test]
fn a_number_matches_only_itself() {
    assert!(5i64.matches(&written(&5i64)));
    assert!(!5i64.matches(&written(&6i64)));
    assert!(!5i64.matches(&written(&5i64)[..7]));
    assert!(7u128.matches(&written(&7u128)));
    assert!(!7u128.matches(&written(&8u128)));
}

#[test]
fn strings_are_read() {
    assert_eq!(<str as Key>::from_bytes(b"foo\xffbar"), Some("foo".to_string()));
    assert_eq!(<str as Key>::from_bytes(b"foo"), None);
    assert_eq!(<str as Key>::from_bytes(b"\x80\xff"), None);
    let text = "gr\u{fc}\u{df}e";
    assert_eq!(<str as Key>::from_bytes(&written(text)), Some(text.to_string()));
}

#[test]
fn strings_are_read_from_a_stream() {
    assert_eq!(<str as Key>::from_bytes_streaming(b"fo", 0), Err(ReadError::Incomplete));
    assert_eq!(<str as Key>::from_bytes_streaming(b"foo\xff", 2), Ok("foo".to_string()));
    assert_eq!(<str as Key>::from_bytes_streaming(b"foo\xff", 4), Err(ReadError::Incomplete));
    assert_eq!(<str as Key>::from_bytes_streaming(b"\xc3\xff", 0), Err(ReadError::Invalid));
    // Where the search starts behind a sentinel, what is in front is no string.
    assert_eq!(<str as Key>::from_bytes_streaming(b"a\xffb\xff", 2), Err(ReadError::Invalid));
}

#[test]
fn numbers_are_read_from_aligned_bytes() {
    let bytes = written(&-5i64);
    assert_eq!(<i64 as Key>::from_bytes_at(&bytes, 64), Some(-5));
    assert_eq!(<i64 as Key>::from_bytes_streaming_at(&bytes, 64, 0), Ok(-5));
    assert_eq!(<i64 as Key>::from_bytes_streaming_at(&bytes[..7], 64, 0), Err(ReadError::Incomplete));
    assert_eq!(<i64 as Key>::from_bytes_streaming_at(&bytes, 65, 0), Err(ReadError::Invalid));
    assert_eq!(<i64 as Key>::from_bytes_at(&bytes, 65), None);
    let bytes = written(&(1u128 << 100));
    assert_eq!(<u128 as Key>::from_bytes_at(&bytes, 32), Some(1u128 << 100));
    assert_eq!(<u128 as Key>::from_bytes_streaming_at(&bytes, 33, 0), Err(ReadError::Invalid));
    assert_eq!(<u128 as Key>::from_bytes_streaming_at(&bytes[..15], 32, 0), Err(ReadError::Incomplete));
}

#[test]
fn numbers_are_read_where_they_lie() {
    let numbers = [-7i64, 8];
    assert_eq!(<i64 as Key>::from_bytes(numbers.as_bytes()), Some(-7));
    assert_eq!(<i64 as Key>::from_bytes(&numbers.as_bytes()[8..]), Some(8));
    assert_eq!(<i64 as Key>::from_bytes(&numbers.as_bytes()[1..]), None);
    assert_eq!(
        <i64 as Key>::from_bytes_streaming(&numbers.as_bytes()[1..], 0),
        Err(ReadError::Invalid)
    );
    let numbers = [9u128];
    assert_eq!(<u128 as Key>::from_bytes(numbers.as_bytes()), Some(9));
    assert_eq!(<u128 as Key>::from_bytes_streaming(numbers.as_bytes(), 0), Ok(9));
}

#[test]
fn read_keys_are_compared() {
    let read = <str as Key>::from_bytes(b"foo\xff").unwrap();
    assert!("foo".same_key(<str as Key>::borrow(&read)));
    assert!(!"fo".same_key(<str as Key>::borrow(&read)));
    assert!(3i64.same_key(&3));
    assert!(!3i64.same_key(&4));
    assert!(3u128.same_key(&3));
    assert!(!3u128.same_key(&4));
}

#[test]
fn casts_fail_by_alignment_first() {
    assert_eq!(check_cast(8, 8, 8, 8), Ok(()));
    assert_eq!(check_cast(4, 8, 8, 8), Err(ConvertError::Alignment));
    assert_eq!(check_cast(4, 8, 0, 8), Err(ConvertError::Alignment));
    assert_eq!(check_cast(8, 8, 7, 8), Err(ConvertError::Size));
    assert_eq!(ReadError::from(ConvertError::Alignment), ReadError::Invalid);
    assert_eq!(ReadError::from(ConvertError::Size), ReadError::Incomplete);
    assert_eq!(ConvertError::Alignment.read_error(), ReadError::Invalid);
}

#[test]
fn values_are_read() {
    let numbers = [1u32, 2, 0xffff_fffe];
    assert_eq!(read_values::<u32>(numbers.as_bytes(), 3), vec![1, 2, 0xffff_fffe]);
    assert_eq!(read_values::<u32>(numbers.as_bytes(), 0), Vec::<u32>::new());
    assert_eq!(read_values::<u8>(&[5, 6], 1), vec![5]);
    assert_eq!(u64::read_from_prefix(&77u64.to_ne_bytes()), Some(77));
    assert_eq!(i64::read_from_prefix(&(-77i64).to_ne_bytes()), Some(-77));
    assert_eq!(u128::read_from_prefix(&(1u128 << 99).to_ne_bytes()), Some(1u128 << 99));
    assert_eq!(u32::read_from_prefix(&[1, 2, 3]), None);
}

#[test]
fn values_need_room_and_alignment() {
    assert_eq!(check_values::<u32>(4, 8, 2), Ok(()));
    assert_eq!(check_values::<u32>(4, 8, 3), Err(ConvertError::Size));
    assert_eq!(check_values::<u32>(2, 8, 0), Err(ConvertError::Alignment));
    assert_eq!(check_values::<u8>(3, 0, 0), Ok(()));
}

/// An entry of a string key and `u32` values, at address 0.
fn string_entry(key: &str, values: &[u32]) -> Vec<u8> {
    let mut bytes = written(key);
    while bytes.len() % 4 != 0 {
        bytes.push(0xAA);
    }
    bytes.extend_from_slice(&(values.len() as u32).to_ne_bytes());
    for value in values {
        bytes.extend_from_slice(&value.to_ne_bytes());
    }
    bytes
}

#[test]
fn an_entry_is_parsed_as_far_as_it_goes() {
    let mut bytes = string_entry("abcdef", &[10, 20]);
    bytes.extend_from_slice(&[1, 2, 3]);
    match parse_entry_at::<str, u32>(&bytes, 0) {
        ParsedEntry::KeyAndValues(key, values, rest) => {
            assert_eq!(key, "abcdef");
            assert_eq!(values, vec![10, 20]);
            assert_eq!(rest, &[1, 2, 3]);
        }
        _ => panic!("the entry is complete"),
    }
    match parse_entry_at::<str, u32>(&bytes[..19], 0) {
        ParsedEntry::KeyAndValuesLen(key, len) => {
            assert_eq!(key, "abcdef");
            assert_eq!(len, 2);
        }
        _ => panic!("the values are incomplete"),
    }
    match parse_entry_at::<str, u32>(&bytes[..11], 0) {
        ParsedEntry::Key(key) => assert_eq!(key, "abcdef"),
        _ => panic!("the number of values is incomplete"),
    }
    assert!(matches!(parse_entry_at::<str, u32>(&bytes[..6], 0), ParsedEntry::NoKey));
    assert!(matches!(parse_entry_at::<str, u32>(b"\x80\xff", 0), ParsedEntry::Invalid));
}

#[test]
fn an_entry_is_parsed_behind_padding() {
    // The key is aligned to eight bytes, so four bytes are skipped at address 4.
    let mut bytes = vec![0xAA; 4];
    bytes.extend_from_slice(&11i64.to_ne_bytes());
    bytes.extend_from_slice(&1u32.to_ne_bytes());
    bytes.extend_from_slice(&[0xAA; 4]);
    bytes.extend_from_slice(&99u64.to_ne_bytes());
    if std::mem::align_of::<i64>() == 8 {
        match parse_entry_at::<i64, u64>(&bytes, 4) {
            ParsedEntry::KeyAndValues(key, values, rest) => {
                assert_eq!(key, 11);
                assert_eq!(values, vec![99]);
                assert!(rest.is_empty());
            }
            _ => panic!("the entry is complete"),
        }
        assert!(matches!(parse_entry_at::<i64, u64>(&bytes[..3], 4), ParsedEntry::NoKey));
    }
}

#[test]
fn an_entry_is_parsed_where_it_lies() {
    let words = [u32::from_ne_bytes(*b"ab\xff\0"), 1, 42, 7];
    match parse_entry::<str, u32>(words.as_bytes()) {
        ParsedEntry::KeyAndValues(key, values, rest) => {
            assert_eq!(key, "ab");
            assert_eq!(values, vec![42]);
            assert_eq!(rest, 7u32.to_ne_bytes());
        }
        _ => panic!("the entry is complete"),
    }
}

#[test]
fn parts_of_an_entry_are_parsed() {
    let bytes = string_entry("key", &[5, 6, 7]);
    let mut state = State::default();
    match state.parse::<str, u32>(&bytes, 0, PartialEntryKind::KeyOnly) {
        Ok((PartialEntry::KeyOnly(key), rest)) => {
            assert_eq!(key, "key");
            assert_eq!(rest.len(), bytes.len() - 4);
        }
        _ => panic!("the key is there"),
    }
    assert_eq!(state.key_size, Some(4));
    state.reset();
    match state.parse::<str, u32>(&bytes, 0, PartialEntryKind::KeyAndValuesLen) {
        Ok((PartialEntry::KeyAndValuesLen(key, len), rest)) => {
            assert_eq!(key, "key");
            assert_eq!(len, 3);
            assert_eq!(rest.len(), 12);
        }
        _ => panic!("the number of values is there"),
    }
    state.reset();
    match state.parse::<str, u32>(&bytes, 0, PartialEntryKind::KeyAndValues(0)) {
        Ok((PartialEntry::KeyAndValues(key, values), rest)) => {
            assert_eq!(key, "key");
            assert_eq!(values, vec![5, 6, 7]);
            assert!(rest.is_empty());
        }
        _ => panic!("the values are there"),
    }
}

#[test]
fn a_parse_resumes_wherever_it_was_cut() {
    let bytes = string_entry("a longer key", &[1, 2]);
    for cut in 0..bytes.len() {
        let mut state = State::default();
        let first = state.parse::<str, u32>(&bytes[..cut], 0, PartialEntryKind::KeyAndValues(0));
        assert!(matches!(first, Err(ReadError::Incomplete)));
        match state.parse::<str, u32>(&bytes, 0, PartialEntryKind::KeyAndValues(0)) {
            Ok((PartialEntry::KeyAndValues(key, values), _)) => {
                assert_eq!(key, "a longer key");
                assert_eq!(values, vec![1, 2]);
            }
            _ => panic!("the entry is complete"),
        }
    }
}

#[test]
fn searched_bytes_are_not_searched_again() {
    let mut state = State::default();
    let cut = state.parse::<str, u32>(b"abc", 0, PartialEntryKind::KeyOnly);
    assert!(matches!(cut, Err(ReadError::Incomplete)));
    assert_eq!(state.searched_up_to, 3);
    // A sentinel among the searched bytes goes unnoticed.
    let resumed = state.parse::<str, u32>(b"a\xffcd", 0, PartialEntryKind::KeyOnly);
    assert!(matches!(resumed, Err(ReadError::Incomplete)));
}

#[test]
fn misaligned_parts_are_invalid() {
    // With `u8` values there is no padding, so the number of values lies behind three bytes.
    let bytes = [b'a', b'b', 0xFF, 1, 0, 0, 0, 9];
    let mut state = State::default();
    let parsed = state.parse::<str, u8>(&bytes, 0, PartialEntryKind::KeyAndValues(0));
    if std::mem::align_of::<u32>() == 4 {
        assert!(matches!(parsed, Err(ReadError::Invalid)));
    }
    let mut state = State::default();
    let parsed = state.parse::<str, u8>(&bytes, 0, PartialEntryKind::KeyOnly);
    assert!(parsed.is_ok());
}

#[test]
fn a_read_key_is_checked_again() {
    let bytes = string_entry("key", &[]);
    let mut state = State::default();
    let parsed = state.parse::<str, u32>(&bytes, 0, PartialEntryKind::KeyOnly);
    assert!(parsed.is_ok());
    assert_eq!(state.read_key::<str>(&bytes, 0), Ok("key".to_string()));
    assert_eq!(state.read_key::<str>(&bytes[..2], 0), Err(ReadError::Invalid));
    let state = State { key_size: Some(2), searched_up_to: 0 };
    assert_eq!(state.read_key::<str>(&bytes, 0), Err(ReadError::Invalid));
}

#[test]
fn sizes_are_guessed() {
    assert_eq!(PartialEntryKind::KeyOnly.est_size::<str, u32>(), 512);
    assert_eq!(PartialEntryKind::KeyAndValuesLen.est_size::<str, u32>(), 519);
    assert_eq!(PartialEntryKind::KeyAndValues(1).est_size::<str, u32>(), 526);
    assert_eq!(PartialEntryKind::KeyAndValues(3).est_size::<i64, u64>(), 50);
    assert_eq!(PartialEntryKind::KeyAndValues(0).est_size::<u128, u8>(), 20);
}

#[test]
fn headers_are_read() {
    let mut bytes = b"i64\0\0\0\0\0".to_vec();
    bytes.extend_from_slice(&40u64.to_ne_bytes());
    bytes.extend_from_slice(&3u64.to_ne_bytes());
    let header = Header::read_from_prefix(&bytes).unwrap();
    assert_eq!(header.key_type, *b"i64\0\0\0\0\0");
    assert_eq!(header.buckets_pos, 40);
    assert_eq!(header.buckets_count, 3);
    assert!(header.has_key_type(b"i64\0\0\0\0\0"));
    assert!(!header.has_key_type(b"str\0\0\0\0\0"));
    assert!(Header::read_from_prefix(&bytes[..23]).is_none());
}

#[test]
fn ranges_are_cut_to_the_file() {
    let range = ReadRange::new(10, 5);
    assert_eq!(range.clamp(100), ReadRange { byte_offset: 10, length: 5 });
    assert_eq!(range.clamp(12), ReadRange { byte_offset: 10, length: 2 });
    assert_eq!(range.clamp(10), ReadRange { byte_offset: 10, length: 0 });
    assert_eq!(range.clamp(3), ReadRange { byte_offset: 3, length: 0 });
    let far = ReadRange::new(u64::MAX, 8);
    assert_eq!(far.clamp(u64::MAX), ReadRange { byte_offset: u64::MAX, length: 0 });
}

#[test]
fn bucket_offsets_are_read() {
    assert_eq!(parse_entry_offset(&513u64.to_ne_bytes()), Ok(513));
    assert_eq!(parse_entry_offset(&[0; 7]), Err(DataError::BucketOffset));
    assert_eq!(parse_entry_offset(&[0; 9]), Err(DataError::BucketOffset));
}

#[test]
fn errors_have_messages() {
    assert_eq!(DataError::InvalidHeader.message(), "Invalid header");
    assert_eq!(DataError::KeyTypeMismatch.message(), "Key type mismatch");
    assert_eq!(DataError::BucketsPosBeforeHeaderEnd.message(), "buckets_pos before header end");
    assert_eq!(DataError::BucketOffset.message(), "Can't read bucket offset");
    assert_eq!(DataError::StoredKey.message(), "Failed to read stored key");
    assert_eq!(DataError::Entry.message(), "Failed to parse entry from bytes");
    assert_eq!(
        DataError::TrailingBytes.message(),
        "Trailing bytes left after parsing all entries"
    );
}

#[test]
fn hash_functions_are_read_when_complete() {
    let keys = [3i64, 1, 4, 15, 92];
    let phf = ph::fmph::Function::from(&keys[..]);
    let mut bytes = Vec::new();
    phf.write(&mut bytes).unwrap();
    let read = read_phf(&bytes).unwrap();
    for key in keys {
        assert_eq!(key.phf_slot(&read), phf.get(&key));
        assert!(key.phf_slot(&read).unwrap() < 5);
    }
    assert!(phf_is_usable(&bytes));
    assert!(read_phf(&bytes[..bytes.len() - 1]).is_none());
    assert!(read_phf(&[]).is_none());
    bytes.push(7);
    assert!(read_phf(&bytes).is_some());
}

#[test]
fn hash_functions_with_an_empty_last_level_are_told() {
    // One level of no words.
    assert!(!phf_is_usable(&[1, 0]));
    assert!(read_phf(&[1, 0]).is_some());
    // No levels.
    assert!(phf_is_usable(&[0]));
    // The words of the only level are missing.
    assert!(phf_is_usable(&[1, 1]));
    assert!(read_phf(&[1, 1]).is_none());
    // A size that takes more than one byte, and whose words are missing.
    assert!(read_phf(&[1, 0x81, 0x02, 0]).is_none());
}

#[test]
fn addresses_are_padded() {
    assert_eq!(align_offset(5, 4), 3);
    assert_eq!(align_offset(8, 4), 0);
    assert_eq!(align_offset(9, 1), 0);
    assert_eq!(align_offset(1, 16), 15);
}

#[test]
fn buffers_have_a_limit() {
    assert!(check_fits_buffer(0));
    assert!(check_fits_buffer(1 << 20));
    assert!(check_fits_buffer(isize::MAX as usize - 512));
    assert!(!check_fits_buffer(isize::MAX as usize - 511));
    assert!(!check_fits_buffer(isize::MAX as usize));
    assert!(!check_fits_buffer(usize::MAX));
}

#[test]
fn only_the_alignment_of_an_address_matters() {
    let bytes = string_entry("key", &[5]);
    for addr in [0, 16, 4096] {
        let mut state = State::default();
        match state.parse::<str, u32>(&bytes, addr, PartialEntryKind::KeyAndValues(0)) {
            Ok((PartialEntry::KeyAndValues(key, values), _)) => {
                assert_eq!(key, "key");
                assert_eq!(values, vec![5]);
            }
            _ => panic!("the entry is complete"),
        }
    }
}

#[test]
fn more_bytes_change_nothing() {
    let mut bytes = string_entry("key", &[5]);
    let len = bytes.len();
    bytes.extend_from_slice(&[0xFF; 9]);
    let mut state = State::default();
    match state.parse::<str, u32>(&bytes, 0, PartialEntryKind::KeyAndValues(0)) {
        Ok((PartialEntry::KeyAndValues(key, values), rest)) => {
            assert_eq!(key, "key");
            assert_eq!(values, vec![5]);
            assert_eq!(rest.len(), bytes.len() - len);
        }
        _ => panic!("the entry is complete"),
    }
}

#[test]
fn what_was_parsed_stays_when_more_bytes_arrive() {
    let bytes = string_entry("abcdef", &[10, 20]);
    let mut last_key = None;
    let mut last_count = None;
    for len in 0..=bytes.len() {
        let (key, count) = match parse_entry_at::<str, u32>(&bytes[..len], 0) {
            ParsedEntry::Invalid => panic!("it can become an entry"),
            ParsedEntry::NoKey => (None, None),
            ParsedEntry::Key(key) => (Some(key), None),
            ParsedEntry::KeyAndValuesLen(key, count) => (Some(key), Some(count as usize)),
            ParsedEntry::KeyAndValues(key, values, _) => (Some(key), Some(values.len())),
        };
        if last_key.is_some() {
            assert_eq!(key, last_key);
        }
        if last_count.is_some() {
            assert_eq!(count, last_count);
        }
        last_key = key;
        last_count = count;
    }
    assert_eq!(last_key, Some("abcdef".to_string()));
    assert_eq!(last_count, Some(2));
}
