//! The perfect hash function that gives each stored key its bucket.

use crate::native;
use ph::fmph::Function;
use vstd::prelude::*;

verus! {

/// `ph::fmph::Function`, a perfect hash function. Its value is opaque here.
#[verifier::external_type_specification]
#[verifier::external_body]
#[verifier::reject_recursive_types(S)]
pub struct ExFunction<S>(Function<S>);

/// `ph::BuildDefaultSeededHasher`, the family of hash functions behind [`Function`].
#[verifier::external_type_specification]
#[verifier::external_body]
pub struct ExBuildDefaultSeededHasher(ph::BuildDefaultSeededHasher);

/// The sizes of the levels of a hash function, in words of 64 bits.
pub uninterp spec fn phf_levels(phf: Function) -> Seq<u64>;

/// The bits of all levels of a hash function, one after the other, in words of 64 bits.
pub uninterp spec fn phf_words(phf: Function) -> Seq<u64>;

/// The bucket that a hash function of these levels and words gives a string.
pub uninterp spec fn phf_slot_str(levels: Seq<u64>, words: Seq<u64>, key: Seq<char>) -> Option<
    u64,
>;

/// The bucket that a hash function of these levels and words gives an `i64`, whose bytes in
/// memory are hashed.
pub uninterp spec fn phf_slot_i64(levels: Seq<u64>, words: Seq<u64>, key: Seq<u8>) -> Option<u64>;

/// The bucket that a hash function of these levels and words gives a `u128`, whose bytes in
/// memory are hashed.
pub uninterp spec fn phf_slot_u128(levels: Seq<u64>, words: Seq<u64>, key: Seq<u8>) -> Option<u64>;

/// The sum of `levels`.
pub open spec fn total_words(levels: Seq<u64>) -> nat
    decreases levels.len(),
{
    if levels.len() == 0 {
        0
    } else {
        total_words(levels.drop_last()) + levels.last() as nat
    }
}

/// A hash function of these levels answers every key: a key that falls through all levels is
/// looked for in the last, which must not be empty then. The levels are numbered by a `u32`, and
/// their bits by a `usize`.
pub open spec fn usable_levels(levels: Seq<u64>) -> bool {
    &&& levels.len() <= u32::MAX
    &&& levels.len() > 0 ==> levels.last() > 0
    &&& 64 * total_words(levels) <= usize::MAX
}

/// The number at the start of `bytes`, of which `before` bytes have been read already, and how
/// many bytes more it takes: seven bits in each byte, the lowest first, with the high bit set in
/// all but the last, or, in the ninth, eight bits.
pub open spec fn vbyte(bytes: Seq<u8>, before: nat) -> Option<(nat, nat)>
    decreases 8 - before,
{
    if bytes.len() == 0 {
        None
    } else if before >= 8 || bytes[0] < 128 {
        Some((bytes[0] as nat, 1))
    } else {
        match vbyte(bytes.drop_first(), before + 1) {
            Some((high, len)) => Some(((bytes[0] - 128 + 128 * high) as nat, len + 1)),
            None => None,
        }
    }
}

/// What a number of which `before` bytes have been read can still add, in units of its lowest bit.
spec fn vbyte_limit(before: nat) -> nat
    decreases 8 - before,
{
    if before >= 8 {
        256
    } else {
        128 * vbyte_limit(before + 1)
    }
}

/// `count` numbers from the start of `bytes`, and how many bytes they take.
pub open spec fn vbytes(bytes: Seq<u8>, count: nat) -> Option<(Seq<u64>, nat)>
    decreases count,
{
    if count == 0 {
        Some((Seq::empty(), 0))
    } else {
        match vbytes(bytes, (count - 1) as nat) {
            Some((numbers, taken)) => match vbyte(bytes.skip(taken as int), 0) {
                Some((number, len)) => Some((numbers.push(number as u64), taken + len)),
                None => None,
            },
            None => None,
        }
    }
}

/// The levels of the hash function that is stored at the start of `bytes`, and how many bytes
/// their table takes: how many levels there are, then the size of each.
pub open spec fn stored_levels(bytes: Seq<u8>) -> Option<(Seq<u64>, nat)> {
    match vbyte(bytes, 0) {
        Some((count, len)) => match vbytes(bytes.skip(len as int), count) {
            Some((levels, taken)) => Some((levels, len + taken)),
            None => None,
        },
        None => None,
    }
}

/// `count` words of 64 bits from the start of `bytes`, in little-endian byte order.
pub open spec fn stored_words(bytes: Seq<u8>, count: nat) -> Seq<u64> {
    Seq::new(count, |i: int| native::le_value(bytes.subrange(8 * i, 8 * i + 8)) as u64)
}

/// The levels and words of the hash function that is stored at the start of `bytes`, or `None`
/// where `bytes` end before it does.
pub open spec fn stored_phf(bytes: Seq<u8>) -> Option<(Seq<u64>, Seq<u64>)> {
    match stored_levels(bytes) {
        Some((levels, taken)) => if taken + 8 * total_words(levels) <= bytes.len() {
            Some((levels, stored_words(bytes.skip(taken as int), total_words(levels))))
        } else {
            None
        },
        None => None,
    }
}

/// Reads a hash function from the start of `bytes`, by `ph::fmph::Function::read`.
///
/// Trusted: it reads the table of levels, then as many words as the levels have, and ignores what
/// follows. Reading complete bytes from memory does not fail.
#[verifier::external_body]
fn read_function(bytes: &[u8]) -> (phf: Option<Function>)
    requires
        stored_phf(bytes@) is Some,
    ensures
        phf is Some,
        stored_phf(bytes@) == Some((phf_levels(phf->0), phf_words(phf->0))),
{
    Function::read(&mut std::io::Cursor::new(bytes)).ok()
}

/// The bucket of a string, by `ph::fmph::Function::get`.
///
/// Trusted: it is a function of the levels and words and of the key. Which one it is, is left
/// unsaid: it rests on the hash of the key.
#[verifier::external_body]
pub(crate) fn get_str(phf: &Function, key: &str) -> (slot: Option<u64>)
    requires
        usable_levels(phf_levels(*phf)),
    ensures
        slot == phf_slot_str(phf_levels(*phf), phf_words(*phf), key@),
{
    phf.get(key)
}

/// The bucket of an `i64`, by `ph::fmph::Function::get`.
///
/// Trusted: as for [`get_str`]. The key is hashed by its bytes in memory.
#[verifier::external_body]
pub(crate) fn get_i64(phf: &Function, key: &i64) -> (slot: Option<u64>)
    requires
        usable_levels(phf_levels(*phf)),
    ensures
        slot == phf_slot_i64(
            phf_levels(*phf),
            phf_words(*phf),
            native::native_bytes(native::bits_of_i64(*key), 8),
        ),
{
    phf.get(key)
}

/// The bucket of a `u128`, by `ph::fmph::Function::get`.
///
/// Trusted: as for [`get_i64`].
#[verifier::external_body]
pub(crate) fn get_u128(phf: &Function, key: &u128) -> (slot: Option<u64>)
    requires
        usable_levels(phf_levels(*phf)),
    ensures
        slot == phf_slot_u128(
            phf_levels(*phf),
            phf_words(*phf),
            native::native_bytes(*key as nat, 16),
        ),
{
    phf.get(key)
}

proof fn lemma_vbyte_limit(before: nat)
    requires
        before <= 8,
    ensures
        vbyte_limit(before) <= 0x1_0000_0000_0000_0000,
{
    reveal_with_fuel(vbyte_limit, 9);
}

/// Reads a number of which `before` bytes have been read, from `bytes[at..]`.
fn read_vbyte(bytes: &[u8], at: usize, before: usize) -> (read: Option<(u64, usize)>)
    requires
        at <= bytes@.len(),
        before <= 8,
    ensures
        match vbyte(bytes@.skip(at as int), before as nat) {
            Some((number, len)) => {
                &&& read matches Some((read_number, next)) && read_number == number && next == at
                    + len
                &&& number < vbyte_limit(before as nat)
                &&& 1 <= len
                &&& at + len <= bytes@.len()
            },
            None => read is None,
        },
    decreases 8 - before,
{
    if at == bytes.len() {
        return None;
    }
    let byte: u8 = bytes[at];
    if before >= 8 || byte < 128 {
        proof {
            reveal_with_fuel(vbyte_limit, 9);
        }
        return Some((byte as u64, at + 1));
    }
    let ghost here = bytes@.skip(at as int);
    assert(here.drop_first() == bytes@.skip(at + 1));
    proof {
        lemma_vbyte_limit(before as nat);
    }
    match read_vbyte(bytes, at + 1, before + 1) {
        Some((high, next)) => Some(((byte - 128) as u64 + 128 * high, next)),
        None => None,
    }
}

proof fn lemma_vbytes_stay_missing(bytes: Seq<u8>, fewer: nat, count: nat)
    requires
        fewer <= count,
        vbytes(bytes, fewer) is None,
    ensures
        vbytes(bytes, count) is None,
    decreases count,
{
    if fewer < count {
        lemma_vbytes_stay_missing(bytes, fewer, (count - 1) as nat);
    }
}

/// Reads the table of levels at the start of `bytes`, and tells where it ends.
fn read_levels(bytes: &[u8]) -> (read: Option<(Vec<u64>, usize)>)
    ensures
        match stored_levels(bytes@) {
            Some((levels, taken)) => {
                &&& read matches Some((read_levels, end)) && read_levels@ == levels && end == taken
                &&& taken <= bytes@.len()
            },
            None => read is None,
        },
{
    assert(bytes@.skip(0) == bytes@);
    let (count, start) = match read_vbyte(bytes, 0, 0) {
        Some(read) => read,
        None => {
            return None;
        },
    };
    proof {
        lemma_vbyte_limit(0);
    }
    let ghost table = bytes@.skip(start as int);
    let mut levels: Vec<u64> = Vec::new();
    let mut end: usize = start;
    let mut done: u64 = 0;
    while done < count
        invariant
            done <= count,
            table == bytes@.skip(start as int),
            start <= end <= bytes@.len(),
            stored_levels(bytes@) == (match vbytes(table, count as nat) {
                Some((levels, taken)) => Some((levels, start as nat + taken)),
                None => None,
            }),
            vbytes(table, done as nat) == Some((levels@, (end - start) as nat)),
        decreases count - done,
    {
        assert(table.skip(end - start) == bytes@.skip(end as int));
        proof {
            lemma_vbyte_limit(0);
        }
        match read_vbyte(bytes, end, 0) {
            Some((level, next)) => {
                levels.push(level);
                end = next;
                done = done + 1;
            },
            None => {
                proof {
                    lemma_vbytes_stay_missing(table, (done + 1) as nat, count as nat);
                }
                return None;
            },
        }
    }
    Some((levels, end))
}

proof fn lemma_total_words_grows(levels: Seq<u64>, fewer: int)
    requires
        0 <= fewer <= levels.len(),
    ensures
        total_words(levels.take(fewer)) <= total_words(levels),
    decreases levels.len() - fewer,
{
    if fewer < levels.len() {
        lemma_total_words_grows(levels, fewer + 1);
        assert(levels.take(fewer + 1).drop_last() == levels.take(fewer));
    } else {
        assert(levels.take(fewer) == levels);
    }
}

/// Whether the levels have at most `limit` words.
fn fits_words(levels: &Vec<u64>, limit: u64) -> (fits: bool)
    ensures
        fits == (total_words(levels@) <= limit),
{
    let mut sum: u64 = 0;
    let mut i: usize = 0;
    assert(levels@.take(0) == Seq::<u64>::empty());
    while i < levels.len()
        invariant
            i <= levels@.len(),
            sum == total_words(levels@.take(i as int)),
            sum <= limit,
        decreases levels@.len() - i,
    {
        assert(levels@.take(i + 1).drop_last() == levels@.take(i as int));
        if levels[i] > limit - sum {
            proof {
                lemma_total_words_grows(levels@, i + 1);
            }
            return false;
        }
        sum = sum + levels[i];
        i = i + 1;
    }
    assert(levels@.take(i as int) == levels@);
    true
}

/// Whether the hash function at the start of `bytes`, if it is complete, answers every key. A
/// table whose last level is empty has no bits for the keys that fall through the others.
pub fn phf_is_usable(bytes: &[u8]) -> (usable: bool)
    ensures
        usable == (stored_phf(bytes@) matches Some((levels, _)) ==> usable_levels(levels)),
{
    match read_levels(bytes) {
        Some((levels, end)) => {
            let count: usize = levels.len();
            let complete = fits_words(&levels, ((bytes.len() - end) / 8) as u64);
            let numbered = fits_words(&levels, (usize::MAX / 64) as u64);
            !complete || (count <= u32::MAX as usize && (count == 0 || levels[count - 1] > 0)
                && numbered)
        },
        None => true,
    }
}

/// Reads the hash function at the start of `bytes`, or `None` where they end before it does.
pub fn read_phf(bytes: &[u8]) -> (read: Option<Function>)
    ensures
        match stored_phf(bytes@) {
            Some((levels, words)) => read matches Some(phf) && phf_levels(phf) == levels
                && phf_words(phf) == words,
            None => read is None,
        },
{
    match read_levels(bytes) {
        Some((levels, end)) => {
            if fits_words(&levels, ((bytes.len() - end) / 8) as u64) {
                read_function(bytes)
            } else {
                None
            }
        },
        None => None,
    }
}

/// The bytes of a number of which `before` bytes are stored in front of them.
pub open spec fn vbyte_bytes(number: nat, before: nat) -> Seq<u8>
    decreases 8 - before,
{
    if before >= 8 || number < 128 {
        seq![number as u8]
    } else {
        seq![(128 + number % 128) as u8] + vbyte_bytes(number / 128, before + 1)
    }
}

/// The bytes of numbers, one after the other.
pub open spec fn vbytes_bytes(numbers: Seq<u64>) -> Seq<u8>
    decreases numbers.len(),
{
    if numbers.len() == 0 {
        Seq::empty()
    } else {
        vbytes_bytes(numbers.drop_last()) + vbyte_bytes(numbers.last() as nat, 0)
    }
}

/// The bytes of words, one after the other, in little-endian byte order.
pub open spec fn words_bytes(words: Seq<u64>) -> Seq<u8>
    decreases words.len(),
{
    if words.len() == 0 {
        Seq::empty()
    } else {
        words_bytes(words.drop_last()) + native::le_bytes(words.last() as nat, 8)
    }
}

/// The bytes of a hash function: how many levels there are, the size of each, and the words.
pub open spec fn phf_bytes(levels: Seq<u64>, words: Seq<u64>) -> Seq<u8> {
    vbyte_bytes(levels.len(), 0) + vbytes_bytes(levels) + words_bytes(words)
}

proof fn lemma_vbyte_is_read(number: nat, before: nat, rest: Seq<u8>)
    requires
        before <= 8,
        number < vbyte_limit(before),
    ensures
        vbyte(vbyte_bytes(number, before) + rest, before) == Some(
            (number, vbyte_bytes(number, before).len()),
        ),
    decreases 8 - before,
{
    let bytes = vbyte_bytes(number, before) + rest;
    if before < 8 && number >= 128 {
        lemma_vbyte_is_read(number / 128, before + 1, rest);
        assert(bytes.drop_first() == vbyte_bytes(number / 128, before + 1) + rest);
    }
}

/// A stored number is read back, whatever follows it, and takes the bytes that it was stored as.
pub proof fn law_stored_number_is_read(number: u64, rest: Seq<u8>)
    ensures
        vbyte(vbyte_bytes(number as nat, 0) + rest, 0) == Some(
            (number as nat, vbyte_bytes(number as nat, 0).len()),
        ),
        vbyte_bytes(number as nat, 0).len() > 0,
{
    reveal_with_fuel(vbyte_limit, 10);
    lemma_vbyte_is_read(number as nat, 0, rest);
}

proof fn lemma_vbytes_are_read(numbers: Seq<u64>, rest: Seq<u8>)
    ensures
        vbytes(vbytes_bytes(numbers) + rest, numbers.len()) == Some(
            (numbers, vbytes_bytes(numbers).len()),
        ),
    decreases numbers.len(),
{
    if numbers.len() > 0 {
        let front = numbers.drop_last();
        let last = vbyte_bytes(numbers.last() as nat, 0);
        lemma_vbytes_are_read(front, last + rest);
        assert(vbytes_bytes(numbers) + rest == vbytes_bytes(front) + (last + rest));
        assert((vbytes_bytes(numbers) + rest).skip(vbytes_bytes(front).len() as int) == last + rest);
        law_stored_number_is_read(numbers.last(), rest);
        assert(front.push(numbers.last()) == numbers);
    } else {
        assert(numbers == Seq::<u64>::empty());
    }
}

proof fn lemma_words_are_read(words: Seq<u64>, rest: Seq<u8>)
    ensures
        words_bytes(words).len() == 8 * words.len(),
        stored_words(words_bytes(words) + rest, words.len()) == words,
    decreases words.len(),
{
    if words.len() > 0 {
        let front = words.drop_last();
        let last = native::le_bytes(words.last() as nat, 8);
        native::lemma_byte_values();
        native::lemma_le_bytes(words.last() as nat, 8);
        lemma_words_are_read(front, last + rest);
        let bytes = words_bytes(words) + rest;
        assert(bytes == words_bytes(front) + (last + rest));
        assert forall|i: int| 0 <= i < words.len() implies stored_words(bytes, words.len())[i]
            == words[i] by {
            if i < front.len() {
                assert(stored_words(bytes, front.len())[i] == front[i]);
            } else {
                assert(bytes.subrange(8 * i, 8 * i + 8) == last);
            }
        }
    }
    assert(stored_words(words_bytes(words) + rest, words.len()) == words);
}

/// A stored hash function is read back, whatever follows it.
pub proof fn law_stored_phf_is_read(levels: Seq<u64>, words: Seq<u64>, rest: Seq<u8>)
    requires
        levels.len() <= u64::MAX,
        words.len() == total_words(levels),
    ensures
        stored_phf(phf_bytes(levels, words) + rest) == Some((levels, words)),
{
    let count = vbyte_bytes(levels.len(), 0);
    let table = vbytes_bytes(levels);
    let behind = words_bytes(words) + rest;
    let bytes = phf_bytes(levels, words) + rest;
    assert(bytes == count + (table + behind));
    law_stored_number_is_read(levels.len() as u64, table + behind);
    assert(bytes.skip(count.len() as int) == table + behind);
    lemma_vbytes_are_read(levels, behind);
    assert(bytes.skip((count.len() + table.len()) as int) == behind);
    lemma_words_are_read(words, rest);
}

proof fn lemma_vbyte_stays(bytes: Seq<u8>, more: Seq<u8>, before: nat)
    requires
        vbyte(bytes, before) is Some,
    ensures
        vbyte(bytes + more, before) == vbyte(bytes, before),
        (vbyte(bytes, before)->0).1 <= bytes.len(),
    decreases 8 - before,
{
    if !(before >= 8 || bytes[0] < 128) {
        assert((bytes + more).drop_first() == bytes.drop_first() + more);
        lemma_vbyte_stays(bytes.drop_first(), more, before + 1);
    }
}

proof fn lemma_vbytes_stay(bytes: Seq<u8>, more: Seq<u8>, count: nat)
    requires
        vbytes(bytes, count) is Some,
    ensures
        vbytes(bytes + more, count) == vbytes(bytes, count),
        (vbytes(bytes, count)->0).1 <= bytes.len(),
    decreases count,
{
    if count > 0 {
        lemma_vbytes_stay(bytes, more, (count - 1) as nat);
        let taken = (vbytes(bytes, (count - 1) as nat)->0).1 as int;
        assert((bytes + more).skip(taken) == bytes.skip(taken) + more);
        lemma_vbyte_stays(bytes.skip(taken), more, 0);
    }
}

/// A hash function that is cut off is not taken for another: as long as a byte of it is missing, none
/// is read.
pub proof fn law_part_of_stored_phf_is_none(levels: Seq<u64>, words: Seq<u64>, len: int)
    requires
        levels.len() <= u64::MAX,
        words.len() == total_words(levels),
        0 <= len < phf_bytes(levels, words).len(),
    ensures
        stored_phf(phf_bytes(levels, words).take(len)) is None,
{
    let bytes = phf_bytes(levels, words);
    let part = bytes.take(len);
    let more = bytes.skip(len);
    assert(part + more == bytes);
    if stored_phf(part) is Some {
        lemma_vbyte_stays(part, more, 0);
        let start = (vbyte(part, 0)->0).1 as int;
        let count = (vbyte(part, 0)->0).0;
        assert((part + more).skip(start) == part.skip(start) + more);
        lemma_vbytes_stay(part.skip(start), more, count);
        let table = vbytes_bytes(levels);
        let behind = words_bytes(words);
        assert(bytes == vbyte_bytes(levels.len(), 0) + (table + behind));
        law_stored_number_is_read(levels.len() as u64, table + behind);
        assert(bytes.skip(vbyte_bytes(levels.len(), 0).len() as int) == table + behind);
        lemma_vbytes_are_read(levels, behind);
        lemma_words_are_read(words, Seq::empty());
    }
}

/// A hash function that is stored whole, none of whose levels is empty, answers every key, if it takes
/// no more bytes than a `u32` can count.
pub proof fn law_stored_levels_are_usable(bytes: Seq<u8>)
    requires
        stored_phf(bytes) is Some,
        bytes.len() <= u32::MAX,
        8 * bytes.len() <= usize::MAX,
        forall|i: int|
            0 <= i < (stored_phf(bytes)->0).0.len() ==> #[trigger] (stored_phf(bytes)->0).0[i] > 0,
    ensures
        usable_levels((stored_phf(bytes)->0).0),
{
    let levels = (stored_phf(bytes)->0).0;
    lemma_levels_have_words(levels);
}

proof fn lemma_levels_have_words(levels: Seq<u64>)
    requires
        forall|i: int| 0 <= i < levels.len() ==> #[trigger] levels[i] > 0,
    ensures
        levels.len() <= total_words(levels),
    decreases levels.len(),
{
    if levels.len() > 0 {
        lemma_levels_have_words(levels.drop_last());
    }
}

} // verus!
