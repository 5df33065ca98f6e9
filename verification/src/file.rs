//! The names of a segment's files, and the segments that a directory listing shows.

use crate::log::{insert_sorted, sorted};
use regex::Regex;
use vstd::multiset::Multiset;
use vstd::prelude::*;
use vstd::string::*;
use vstd::utf8::encode_utf8;

verus! {

/// What follows the segment id in the name of a data file.
pub const DATA_FILE_EXTENSION: &'static str = "cask.data";

/// What follows the segment id in the name of a hint file.
pub const HINT_FILE_EXTENSION: &'static str = "cask.hint";

/// The name of the file that is locked while the store is open.
pub const LOCK_FILE_NAME: &'static str = "cask.lock";

/// The pattern that the name of a data file ends with; its group is the segment id.
pub const DATA_FILE_PATTERN: &'static str = "(\\d+)\\.cask\\.data$";

/// The character of the decimal digit `d`.
pub open spec fn digit_char(d: u32) -> char {
    (0x30 + d) as u8 as char
}

/// The ten decimal digits of `file_id`, with leading zeroes.
pub open spec fn padded_file_id(file_id: u32) -> Seq<char> {
    seq![
        digit_char(file_id / 1_000_000_000 % 10),
        digit_char(file_id / 100_000_000 % 10),
        digit_char(file_id / 10_000_000 % 10),
        digit_char(file_id / 1_000_000 % 10),
        digit_char(file_id / 100_000 % 10),
        digit_char(file_id / 10_000 % 10),
        digit_char(file_id / 1_000 % 10),
        digit_char(file_id / 100 % 10),
        digit_char(file_id / 10 % 10),
        digit_char(file_id % 10),
    ]
}

/// The name of a file of the segment `file_id`: the padded id, a dot, the extension.
pub open spec fn segment_file_name(file_id: u32, extension: Seq<char>) -> Seq<char> {
    padded_file_id(file_id) + seq!['.'] + extension
}

/// The name of a file of a segment.
///
/// Formats with `format!`: the id with `{:010}`, which gives its decimal digits padded with
/// zeroes to a width of ten, then a dot and the extension as they are.
#[verifier::external_body]
fn format_segment_file_name(file_id: u32, extension: &str) -> (name: String)
    ensures
        name@ == segment_file_name(file_id, extension@),
{
    format!("{:010}.{}", file_id, extension)
}

/// The name of the data file of the segment `file_id`.
pub fn get_data_file_path(file_id: u32) -> (name: String)
    ensures
        name@ == segment_file_name(file_id, DATA_FILE_EXTENSION@),
{
    format_segment_file_name(file_id, DATA_FILE_EXTENSION)
}

/// The name of the hint file of the segment `file_id`.
pub fn get_hint_file_path(file_id: u32) -> (name: String)
    ensures
        name@ == segment_file_name(file_id, HINT_FILE_EXTENSION@),
{
    format_segment_file_name(file_id, HINT_FILE_EXTENSION)
}

/// What the first group of the regular expression `pattern` holds in its leftmost match in
/// `text`; nothing where `pattern` is no regular expression, where it matches nowhere, or
/// where the group takes no part in the match.
pub uninterp spec fn first_group(pattern: Seq<char>, text: Seq<char>) -> Option<Seq<char>>;

/// Matches `pattern` against `text` and returns what its first group holds.
///
/// Calls `regex::Regex::new`, then `captures` on the expression, then `get(1)` on the
/// captures and `as_str` on the match.
#[verifier::external_body]
fn capture_first_group(pattern: &str, text: &str) -> (group: Option<String>)
    ensures
        match group {
            Some(g) => first_group(pattern@, text@) == Some(g@),
            None => first_group(pattern@, text@) is None,
        },
{
    Regex::new(pattern).ok()?.captures(text)?.get(1).map(|m| m.as_str().to_string())
}

/// Whether the byte is an ASCII decimal digit.
pub open spec fn is_digit(b: u8) -> bool {
    0x30 <= b <= 0x39
}

/// The number that the ASCII decimal digits `digits` spell; nothing where there is no
/// digit, or a byte that is none.
pub open spec fn decimal_value(digits: Seq<u8>) -> Option<nat>
    decreases digits.len(),
{
    if digits.len() == 0 || !is_digit(digits.last()) {
        None
    } else if digits.len() == 1 {
        Some((digits.last() - 0x30) as nat)
    } else {
        match decimal_value(digits.drop_last()) {
            Some(n) => Some(n * 10 + (digits.last() - 0x30) as nat),
            None => None,
        }
    }
}

/// The segment id that `digits` spell, where they spell a number that fits one.
pub open spec fn parse_file_id(digits: Seq<u8>) -> Option<u32> {
    match decimal_value(digits) {
        Some(n) => if n <= u32::MAX {
            Some(n as u32)
        } else {
            None
        },
        None => None,
    }
}

/// The segment id of the data file named `name`; nothing where the name is not that of a
/// data file.
pub open spec fn data_file_id(name: Seq<char>) -> Option<u32> {
    match first_group(DATA_FILE_PATTERN@, name) {
        Some(group) => parse_file_id(encode_utf8(group)),
        None => None,
    }
}

/// The segment ids of the data files among `names`.
pub open spec fn data_file_ids(names: Seq<String>) -> Multiset<u32>
    decreases names.len(),
{
    if names.len() == 0 {
        Multiset::empty()
    } else {
        let rest = data_file_ids(names.drop_last());
        match data_file_id(names.last()@) {
            Some(file_id) => rest.insert(file_id),
            None => rest,
        }
    }
}

/// Reads `digits` as a decimal number.
pub fn parse_u32(digits: &[u8]) -> (file_id: Option<u32>)
    ensures
        file_id == parse_file_id(digits@),
{
    if digits.len() == 0 {
        return None;
    }
    let mut value: u64 = 0;
    let mut i: usize = 0;
    while i < digits.len()
        invariant
            0 <= i <= digits@.len(),
            digits@.len() > 0,
            value <= u32::MAX,
            i > 0 ==> decimal_value(digits@.subrange(0, i as int)) == Some(value as nat),
            i == 0 ==> value == 0,
        decreases digits@.len() - i,
    {
        let b = digits[i];
        let ghost prefix = digits@.subrange(0, i as int);
        let ghost next = digits@.subrange(0, i + 1);
        proof {
            assert(next.drop_last() =~= prefix);
            assert(next.last() == b);
        }
        if b < 0x30 || b > 0x39 {
            proof {
                lemma_decimal_value_prefix(digits@, i + 1);
            }
            return None;
        }
        value = value * 10 + (b - 0x30) as u64;
        if value > u32::MAX as u64 {
            proof {
                lemma_decimal_value_prefix(digits@, i + 1);
            }
            return None;
        }
        i += 1;
    }
    assert(digits@.subrange(0, digits@.len() as int) =~= digits@);
    Some(value as u32)
}

/// Where the first `n` bytes spell no number, neither do all; and all spell no smaller
/// number than the first `n`.
proof fn lemma_decimal_value_prefix(digits: Seq<u8>, n: int)
    requires
        0 < n <= digits.len(),
    ensures
        decimal_value(digits.subrange(0, n)) is None ==> decimal_value(digits) is None,
        decimal_value(digits) matches Some(all) ==> decimal_value(digits.subrange(0, n))
            matches Some(first) && first <= all,
    decreases digits.len() - n,
{
    if n < digits.len() {
        lemma_decimal_value_prefix(digits.drop_last(), n);
        assert(digits.drop_last().subrange(0, n) =~= digits.subrange(0, n));
    } else {
        assert(digits.subrange(0, n) =~= digits);
    }
}

/// The segments whose data files are among `names`, the names of the files of a directory:
/// their ids in ascending order.
pub fn find_data_files(names: &Vec<String>) -> (files: Vec<u32>)
    ensures
        sorted(files@),
        files@.to_multiset() == data_file_ids(names@),
{
    let mut files: Vec<u32> = Vec::new();
    proof {
        files@.to_multiset_ensures();
        assert(names@.subrange(0, 0) =~= Seq::<String>::empty());
        assert(files@.to_multiset() =~= Multiset::<u32>::empty());
    }
    let mut i: usize = 0;
    while i < names.len()
        invariant
            i <= names@.len(),
            sorted(files@),
            files@.to_multiset() == data_file_ids(names@.subrange(0, i as int)),
        decreases names@.len() - i,
    {
        proof {
            assert(names@.subrange(0, i + 1).drop_last() =~= names@.subrange(0, i as int));
        }
        match capture_first_group(DATA_FILE_PATTERN, names[i].as_str()) {
            Some(group) => {
                match parse_u32(group.as_str().as_bytes()) {
                    Some(file_id) => {
                        insert_sorted(&mut files, file_id);
                    },
                    None => {},
                }
            },
            None => {},
        }
        i += 1;
    }
    assert(names@.subrange(0, names@.len() as int) =~= names@);
    files
}

} // verus!
