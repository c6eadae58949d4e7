//! The names of the files of a store.
//!
//! A segment of the log is called by its number, written with twenty
//! decimal digits, followed by `.log`; a snapshot by the number of the
//! segment that it closes, written the same way, followed by `.snapshot`.
//! While a snapshot is being written its name ends in `.snapshot.tmp`.
//! A name is read back more freely than it is written: any number of digits
//! will do, with or without a `+` in front.

use vstd::arithmetic::div_mod::lemma_mod_breakdown;
use vstd::prelude::*;
use vstd::string::*;

verus! {

/// The directory, under the root of a store, that holds the segments.
pub const WAL_DIRECTORY: &'static str = "wal";

/// The directory, under the root of a store, that holds the snapshots.
pub const SNAPSHOT_DIRECTORY: &'static str = "snapshot";

/// Number of digits in the name of a file.
pub const INDEX_DIGITS: u32 = 20;

pub open spec fn is_digit(c: char) -> bool {
    '0' <= c <= '9'
}

/// The digit that stands for `d`, which is less than ten.
pub open spec fn digit_char(d: nat) -> char {
    ((d + 48) as u8) as char
}

/// The number that a digit stands for.
pub open spec fn digit_value(c: char) -> nat {
    (c as u8 - 48) as nat
}

/// The last `width` decimal digits of `n`, most significant first.
pub open spec fn decimal(n: nat, width: nat) -> Seq<char>
    decreases width,
{
    if width == 0 {
        Seq::empty()
    } else {
        decimal(n / 10, (width - 1) as nat).push(digit_char(n % 10))
    }
}

/// The number that a sequence of digits stands for.
pub open spec fn decimal_value(digits: Seq<char>) -> nat
    decreases digits.len(),
{
    if digits.len() == 0 {
        0
    } else {
        decimal_value(digits.drop_last()) * 10 + digit_value(digits.last())
    }
}

pub open spec fn all_digits(text: Seq<char>) -> bool {
    forall|i: int| 0 <= i < text.len() ==> is_digit(#[trigger] text[i])
}

/// The number that `text` stands for: one or more decimal digits, with or
/// without a `+` in front, whose value fits 64 bits.
pub open spec fn parsed_number(text: Seq<char>) -> Option<u64> {
    let digits = if text.len() > 0 && text[0] == '+' {
        text.drop_first()
    } else {
        text
    };
    if digits.len() > 0 && all_digits(digits) && decimal_value(digits) <= u64::MAX {
        Some(decimal_value(digits) as u64)
    } else {
        None
    }
}

/// The digit for `d`, as a string.
fn digit_text(d: u64) -> (text: &'static str)
    requires
        d < 10,
    ensures
        text@ == seq![digit_char(d as nat)],
{
    proof {
        reveal_strlit("0");
        reveal_strlit("1");
        reveal_strlit("2");
        reveal_strlit("3");
        reveal_strlit("4");
        reveal_strlit("5");
        reveal_strlit("6");
        reveal_strlit("7");
        reveal_strlit("8");
        reveal_strlit("9");
    }
    let text = if d == 0 {
        "0"
    } else if d == 1 {
        "1"
    } else if d == 2 {
        "2"
    } else if d == 3 {
        "3"
    } else if d == 4 {
        "4"
    } else if d == 5 {
        "5"
    } else if d == 6 {
        "6"
    } else if d == 7 {
        "7"
    } else if d == 8 {
        "8"
    } else {
        "9"
    };
    assert(text@ =~= seq![digit_char(d as nat)]);
    text
}

/// Appends the last `width` decimal digits of `n` to `text`.
fn push_decimal(text: &mut String, n: u64, width: u32)
    ensures
        final(text)@ == old(text)@ + decimal(n as nat, width as nat),
    decreases width,
{
    if width > 0 {
        push_decimal(text, n / 10, width - 1);
        text.append(digit_text(n % 10));
        assert(text@ =~= old(text)@ + decimal(n as nat, width as nat));
    } else {
        assert(text@ =~= old(text)@ + decimal(n as nat, width as nat));
    }
}

/// Ten to the power of `e`.
pub open spec fn pow10(e: nat) -> nat
    decreases e,
{
    if e == 0 {
        1
    } else {
        10 * pow10((e - 1) as nat)
    }
}

pub open spec fn log_suffix() -> Seq<char> {
    seq!['.', 'l', 'o', 'g']
}

pub open spec fn snapshot_suffix() -> Seq<char> {
    seq!['.', 's', 'n', 'a', 'p', 's', 'h', 'o', 't']
}

pub open spec fn tmp_suffix() -> Seq<char> {
    seq!['.', 't', 'm', 'p']
}

/// What is left of `text` without `suffix` at its end, if it ends in it.
pub open spec fn without_suffix(text: Seq<char>, suffix: Seq<char>) -> Option<Seq<char>> {
    if text.len() >= suffix.len() && text.subrange(text.len() - suffix.len(), text.len() as int)
        == suffix {
        Some(text.subrange(0, text.len() - suffix.len()))
    } else {
        None
    }
}

/// The number in a file name that ends in `suffix`.
pub open spec fn parsed_index(name: Seq<char>, suffix: Seq<char>) -> Option<u64> {
    match without_suffix(name, suffix) {
        Some(text) => parsed_number(text),
        None => None,
    }
}

/// The name of the file of a segment or snapshot.
pub open spec fn file_name(index: u64, suffix: Seq<char>) -> Seq<char> {
    decimal(index as nat, INDEX_DIGITS as nat) + suffix
}

/// The digits of a longer text stand for at least as much as those of its
/// beginning.
proof fn lemma_decimal_value_grows(digits: Seq<char>, upto: int)
    requires
        0 <= upto <= digits.len(),
    ensures
        decimal_value(digits.subrange(0, upto)) <= decimal_value(digits),
    decreases digits.len() - upto,
{
    if upto == digits.len() {
        assert(digits.subrange(0, upto) =~= digits);
    } else {
        lemma_decimal_value_grows(digits.drop_last(), upto);
        assert(digits.drop_last().subrange(0, upto) =~= digits.subrange(0, upto));
    }
}

/// Reads a number: one or more decimal digits, with or without a `+` in
/// front, whose value fits 64 bits.
pub fn parse_number(text: &str) -> (number: Option<u64>)
    ensures
        number == parsed_number(text@),
{
    let len = text.unicode_len();
    let start: usize = if len > 0 && text.get_char(0) == '+' {
        1
    } else {
        0
    };
    let ghost digits = text@.subrange(start as int, len as int);
    assert(digits =~= (if text@.len() > 0 && text@[0] == '+' {
        text@.drop_first()
    } else {
        text@
    }));
    if start == len {
        return None;
    }
    let mut value: u64 = 0;
    let mut i: usize = start;
    while i < len
        invariant
            start <= i <= len,
            len == text@.len(),
            digits == text@.subrange(start as int, len as int),
            digits.len() > 0,
            digits == (if text@.len() > 0 && text@[0] == '+' {
                text@.drop_first()
            } else {
                text@
            }),
            all_digits(digits.subrange(0, i - start)),
            value == decimal_value(digits.subrange(0, i - start)),
        decreases len - i,
    {
        let c = text.get_char(i);
        assert(digits[i - start] == c);
        if !(c >= '0' && c <= '9') {
            assert(!is_digit(digits[i - start]));
            return None;
        }
        let d: u64 = (c as u8 - 48) as u64;
        let ghost longer = digits.subrange(0, i - start + 1);
        proof {
            assert(longer.drop_last() =~= digits.subrange(0, i - start));
            assert(longer.last() == c);
            lemma_decimal_value_grows(digits, i - start + 1);
        }
        if value > (u64::MAX - d) / 10 {
            return None;
        }
        value = value * 10 + d;
        i = i + 1;
    }
    assert(digits.subrange(0, len - start) =~= digits);
    Some(value)
}

/// Whether `text` ends in `suffix`.
fn ends_with(text: &str, suffix: &str) -> (ends: bool)
    ensures
        ends == (without_suffix(text@, suffix@) is Some),
{
    let len = text.unicode_len();
    let suffix_len = suffix.unicode_len();
    if len < suffix_len {
        return false;
    }
    let from = len - suffix_len;
    let mut i: usize = 0;
    while i < suffix_len
        invariant
            i <= suffix_len,
            len == text@.len(),
            suffix_len == suffix@.len(),
            from == len - suffix_len,
            forall|j: int| 0 <= j < i ==> text@[from + j] == suffix@[j],
        decreases suffix_len - i,
    {
        if text.get_char(from + i) != suffix.get_char(i) {
            assert(text@.subrange(from as int, len as int)[i as int] != suffix@[i as int]);
            return false;
        }
        i = i + 1;
    }
    assert(text@.subrange(from as int, len as int) =~= suffix@);
    true
}

/// The number in a file name that ends in `suffix`.
fn parse_index(file_name: &str, suffix: &str) -> (index: Option<u64>)
    ensures
        index == parsed_index(file_name@, suffix@),
{
    if ends_with(file_name, suffix) {
        let len = file_name.unicode_len();
        let suffix_len = suffix.unicode_len();
        parse_number(file_name.substring_char(0, len - suffix_len))
    } else {
        None
    }
}

/// The number of the segment that a file in the log directory holds, or
/// `None` for a file that is not a segment.
pub fn parse_log_index(file_name: &str) -> (index: Option<u64>)
    ensures
        index == parsed_index(file_name@, log_suffix()),
{
    proof {
        reveal_strlit(".log");
    }
    assert(".log"@ =~= log_suffix());
    parse_index(file_name, ".log")
}

/// The number of the snapshot that a file in the snapshot directory holds,
/// or `None` for a file that is not a finished snapshot.
pub fn parse_snapshot_index(file_name: &str) -> (index: Option<u64>)
    ensures
        index == parsed_index(file_name@, snapshot_suffix()),
{
    proof {
        reveal_strlit(".snapshot");
    }
    assert(".snapshot"@ =~= snapshot_suffix());
    parse_index(file_name, ".snapshot")
}

/// The name of the file of segment `index`.
pub fn log_file_name(index: u64) -> (name: String)
    ensures
        name@ == file_name(index, log_suffix()),
{
    proof {
        reveal_strlit(".log");
    }
    assert(".log"@ =~= log_suffix());
    let mut name = String::new();
    push_decimal(&mut name, index, INDEX_DIGITS);
    name.append(".log");
    assert(name@ =~= file_name(index, log_suffix()));
    name
}

/// The name of the file of snapshot `index`.
pub fn snapshot_file_name(index: u64) -> (name: String)
    ensures
        name@ == file_name(index, snapshot_suffix()),
{
    proof {
        reveal_strlit(".snapshot");
    }
    assert(".snapshot"@ =~= snapshot_suffix());
    let mut name = String::new();
    push_decimal(&mut name, index, INDEX_DIGITS);
    name.append(".snapshot");
    assert(name@ =~= file_name(index, snapshot_suffix()));
    name
}

/// The name of the file that snapshot `index` is written to before it is
/// given its own name.
pub fn snapshot_tmp_file_name(index: u64) -> (name: String)
    ensures
        name@ == file_name(index, snapshot_suffix()) + tmp_suffix(),
{
    proof {
        reveal_strlit(".tmp");
    }
    assert(".tmp"@ =~= tmp_suffix());
    let mut name = snapshot_file_name(index);
    name.append(".tmp");
    name
}

/// The largest number among those of `indices` that are there; `None` when
/// none is.
pub open spec fn largest(indices: Seq<Option<u64>>) -> Option<u64>
    decreases indices.len(),
{
    if indices.len() == 0 {
        None
    } else {
        let earlier = largest(indices.drop_last());
        match (earlier, indices.last()) {
            (Some(a), Some(b)) => if b > a {
                Some(b)
            } else {
                Some(a)
            },
            (Some(a), None) => Some(a),
            (None, last) => last,
        }
    }
}

/// The numbers that the names of a directory stand for, name by name.
pub open spec fn indices_of(names: Seq<String>, suffix: Seq<char>) -> Seq<Option<u64>> {
    Seq::new(names.len(), |i: int| parsed_index(names[i]@, suffix))
}

/// The largest number in the names that end in `suffix`.
fn last_index(names: &Vec<String>, suffix: &str) -> (last: Option<u64>)
    ensures
        last == largest(indices_of(names@, suffix@)),
{
    let mut last: Option<u64> = None;
    let mut i: usize = 0;
    let ghost indices = indices_of(names@, suffix@);
    while i < names.len()
        invariant
            i <= names@.len(),
            indices == indices_of(names@, suffix@),
            last == largest(indices.subrange(0, i as int)),
        decreases names.len() - i,
    {
        let index = parse_index(names[i].as_str(), suffix);
        proof {
            let upto = indices.subrange(0, i + 1);
            assert(upto.drop_last() =~= indices.subrange(0, i as int));
            assert(upto.last() == index);
        }
        last = match (last, index) {
            (Some(a), Some(b)) => if b > a {
                Some(b)
            } else {
                Some(a)
            },
            (Some(a), None) => Some(a),
            (None, index) => index,
        };
        i = i + 1;
    }
    assert(indices.subrange(0, names@.len() as int) =~= indices);
    last
}

/// The number of the newest segment among the files of the log directory.
pub fn last_log_index(names: &Vec<String>) -> (last: Option<u64>)
    ensures
        last == largest(indices_of(names@, log_suffix())),
{
    proof {
        reveal_strlit(".log");
    }
    assert(".log"@ =~= log_suffix());
    last_index(names, ".log")
}

/// The number of the newest finished snapshot among the files of the
/// snapshot directory.
pub fn last_snapshot_index(names: &Vec<String>) -> (last: Option<u64>)
    ensures
        last == largest(indices_of(names@, snapshot_suffix())),
{
    proof {
        reveal_strlit(".snapshot");
    }
    assert(".snapshot"@ =~= snapshot_suffix());
    last_index(names, ".snapshot")
}

/// `largest` is what its name says: no number there is larger, and it is
/// one of them.
pub proof fn lemma_largest(indices: Seq<Option<u64>>)
    ensures
        match largest(indices) {
            Some(top) => indices.contains(Some(top)) && forall|i: int|
                0 <= i < indices.len() ==> (#[trigger] indices[i] matches Some(n) ==> n <= top),
            None => forall|i: int| 0 <= i < indices.len() ==> #[trigger] indices[i] is None,
        },
    decreases indices.len(),
{
    if indices.len() > 0 {
        let earlier = indices.drop_last();
        lemma_largest(earlier);
        match largest(indices) {
            Some(top) => {
                if largest(earlier) == Some(top) {
                    let i = choose|i: int| 0 <= i < earlier.len() && earlier[i] == Some(top);
                    assert(indices[i] == Some(top));
                } else {
                    assert(indices[indices.len() - 1] == Some(top));
                }
                assert forall|i: int| 0 <= i < indices.len() implies (#[trigger] indices[i] matches Some(n)
                    ==> n <= top) by {
                    if i < earlier.len() {
                        assert(earlier[i] == indices[i]);
                    }
                }
            },
            None => {
                assert forall|i: int| 0 <= i < indices.len() implies #[trigger] indices[i] is None by {
                    if i < earlier.len() {
                        assert(earlier[i] == indices[i]);
                    }
                }
            },
        }
    }
}

/// The digits written for a number are digits, as many as asked for, and
/// stand for the number, less the part that does not fit them.
pub proof fn lemma_decimal(n: nat, width: nat)
    ensures
        decimal(n, width).len() == width,
        all_digits(decimal(n, width)),
        decimal_value(decimal(n, width)) == n % pow10(width),
        pow10(width) > 0,
    decreases width,
{
    if width > 0 {
        let shorter = decimal(n / 10, (width - 1) as nat);
        let digits = decimal(n, width);
        lemma_decimal(n / 10, (width - 1) as nat);
        assert(digits.drop_last() =~= shorter);
        assert(digits.last() == digit_char(n % 10));
        assert(digit_value(digit_char(n % 10)) == n % 10);
        assert(is_digit(digit_char(n % 10)));
        assert forall|i: int| 0 <= i < digits.len() implies is_digit(#[trigger] digits[i]) by {
            if i < shorter.len() {
                assert(digits[i] == shorter[i]);
            }
        }
        lemma_mod_breakdown(n as int, 10, pow10((width - 1) as nat) as int);
        assert(10 * pow10((width - 1) as nat) == pow10(width));
        assert(decimal_value(digits) == decimal_value(shorter) * 10 + n % 10);
    }
}

/// A file name that was written for a number is read back as that number.
pub proof fn lemma_file_name_round_trip(index: u64, suffix: Seq<char>)
    ensures
        parsed_index(file_name(index, suffix), suffix) == Some(index),
{
    let digits = decimal(index as nat, INDEX_DIGITS as nat);
    let name = file_name(index, suffix);
    lemma_decimal(index as nat, INDEX_DIGITS as nat);
    assert(name.subrange(name.len() - suffix.len(), name.len() as int) =~= suffix);
    assert(name.subrange(0, name.len() - suffix.len()) =~= digits);
    assert(pow10(20) == 100000000000000000000) by {
        reveal_with_fuel(pow10, 21);
    }
    assert(digits[0] != '+');
    assert((index as int) % 100000000000000000000 == index);
}

/// The file that a snapshot is written to before it is finished is not
/// taken for a snapshot.
pub proof fn lemma_tmp_is_no_snapshot(index: u64)
    ensures
        parsed_index(file_name(index, snapshot_suffix()) + tmp_suffix(), snapshot_suffix()) is None,
{
    let name = file_name(index, snapshot_suffix()) + tmp_suffix();
    let end = name.subrange(name.len() - snapshot_suffix().len(), name.len() as int);
    assert(end[end.len() - 1] == 'p');
    assert(snapshot_suffix()[snapshot_suffix().len() - 1] == 't');
}

} // verus!
