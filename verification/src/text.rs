//! Reading numbers and separated lists out of configuration text.

use vstd::prelude::*;
use vstd::string::StringExecFns;

verus! {

/// `c` is one of the decimal digits `0` to `9`.
pub open spec fn is_digit(c: char) -> bool {
    '0' <= c <= '9'
}

/// The value of a decimal digit; 0 for any other character.
pub open spec fn digit_of(c: char) -> nat {
    if is_digit(c) {
        (c as u32 - '0' as u32) as nat
    } else {
        0
    }
}

/// Every character of `text` is a decimal digit.
pub open spec fn all_digits(text: Seq<char>) -> bool {
    forall|i: int| 0 <= i < text.len() ==> is_digit(#[trigger] text[i])
}

/// The number that a run of decimal digits writes.
pub open spec fn digits_value(text: Seq<char>) -> nat
    decreases text.len(),
{
    if text.len() == 0 {
        0
    } else {
        digits_value(text.drop_last()) * 10 + digit_of(text.last())
    }
}

/// The number that `text` writes in decimal, where it writes one that is at
/// most `max`: an optional `+`, then one digit or more and nothing else.
pub open spec fn unsigned_decimal(text: Seq<char>, max: nat) -> Option<nat> {
    let digits = if text.len() > 0 && text[0] == '+' {
        text.skip(1)
    } else {
        text
    };
    if digits.len() > 0 && all_digits(digits) && digits_value(digits) <= max {
        Some(digits_value(digits))
    } else {
        None
    }
}

/// The number that `text` writes in decimal, where it writes one between
/// `min` and `max`: an optional `+` or `-`, then one digit or more and
/// nothing else.
pub open spec fn signed_decimal(text: Seq<char>, min: int, max: int) -> Option<int> {
    let signed = text.len() > 0 && (text[0] == '+' || text[0] == '-');
    let digits = if signed {
        text.skip(1)
    } else {
        text
    };
    let value = if signed && text[0] == '-' {
        -(digits_value(digits) as int)
    } else {
        digits_value(digits) as int
    };
    if digits.len() > 0 && all_digits(digits) && min <= value <= max {
        Some(value)
    } else {
        None
    }
}

/// The position of the first `sep` in `text`, or the length of `text` where
/// it holds none.
pub open spec fn first_index(text: Seq<char>, sep: char) -> nat
    decreases text.len(),
{
    if text.len() == 0 || text[0] == sep {
        0
    } else {
        1 + first_index(text.skip(1), sep)
    }
}

/// The pieces of `text` between occurrences of `sep`. A text without `sep`
/// is one piece, and so is the empty text; two separators in a row enclose
/// an empty piece.
pub open spec fn split(text: Seq<char>, sep: char) -> Seq<Seq<char>>
    decreases text.len(),
{
    let i = first_index(text, sep) as int;
    if i < text.len() {
        seq![text.take(i)] + split(text.skip(i + 1), sep)
    } else {
        seq![text]
    }
}

/// The texts of a sequence of strings.
pub open spec fn texts(strings: Seq<String>) -> Seq<Seq<char>> {
    strings.map_values(|s: String| s@)
}

/// A run of digits is worth at least as much as any of its beginnings.
proof fn lemma_digits_value_grows(text: Seq<char>, k: int)
    requires
        0 <= k <= text.len(),
    ensures
        digits_value(text.take(k)) <= digits_value(text),
    decreases text.len() - k,
{
    if k < text.len() {
        lemma_digits_value_grows(text, k + 1);
        assert(text.take(k + 1).drop_last() =~= text.take(k));
    } else {
        assert(text.take(k) =~= text);
    }
}

/// No character before the first occurrence of `sep` is `sep`, and where the
/// position lies within the text, `sep` stands there.
proof fn lemma_first_index(text: Seq<char>, sep: char)
    ensures
        first_index(text, sep) <= text.len(),
        forall|i: int| 0 <= i < first_index(text, sep) ==> text[i] != sep,
        first_index(text, sep) < text.len() ==> text[first_index(text, sep) as int] == sep,
    decreases text.len(),
{
    if text.len() > 0 && text[0] != sep {
        lemma_first_index(text.skip(1), sep);
        assert forall|i: int| 0 <= i < first_index(text, sep) implies text[i] != sep by {
            if i > 0 {
                assert(text.skip(1)[i - 1] == text[i]);
            }
        }
    }
}

/// A position that holds `sep` with none before it is the first index.
proof fn lemma_first_index_is(text: Seq<char>, sep: char, at: int)
    requires
        0 <= at <= text.len(),
        forall|i: int| 0 <= i < at ==> text[i] != sep,
        at < text.len() ==> text[at] == sep,
    ensures
        first_index(text, sep) == at,
{
    lemma_first_index(text, sep);
    let found = first_index(text, sep) as int;
    if found < at {
        assert(text[found] == sep);
    }
}

/// The magnitude that the characters of `text` from `from` on write in
/// decimal digits, where they do and it fits.
fn parse_magnitude(text: &str, from: usize) -> (r: Option<u64>)
    requires
        from <= text@.len(),
    ensures
        r == ({
            let digits = text@.skip(from as int);
            if digits.len() > 0 && all_digits(digits) && digits_value(digits) <= u64::MAX {
                Some(digits_value(digits) as u64)
            } else {
                None
            }
        }),
{
    let n = text.unicode_len();
    let ghost digits = text@.skip(from as int);
    if from == n {
        return None;
    }
    let mut value: u64 = 0;
    let mut i: usize = from;
    proof {
        assert(digits.take(0) =~= Seq::<char>::empty());
    }
    while i < n
        invariant
            from <= i <= n,
            n == text@.len(),
            digits == text@.skip(from as int),
            all_digits(digits.take(i - from)),
            value == digits_value(digits.take(i - from)),
        decreases n - i,
    {
        let c = text.get_char(i);
        let ghost upto = digits.take(i - from + 1);
        proof {
            assert(digits[i - from] == c);
            assert(upto.drop_last() =~= digits.take(i - from));
            assert(upto.last() == c);
            lemma_digits_value_grows(digits, i - from + 1);
        }
        if c < '0' || c > '9' {
            return None;
        }
        let d = (c as u32 - '0' as u32) as u64;
        if value > (u64::MAX - d) / 10 {
            return None;
        }
        value = value * 10 + d;
        proof {
            assert forall|j: int| 0 <= j < upto.len() implies is_digit(#[trigger] upto[j]) by {
                if j < i - from {
                    assert(digits.take(i - from)[j] == upto[j]);
                }
            }
        }
        i = i + 1;
    }
    proof {
        assert(digits.take(i - from) =~= digits);
    }
    Some(value)
}

/// Reads `text` as a decimal number of at most `max`.
pub fn parse_unsigned(text: &str, max: u64) -> (r: Option<u64>)
    ensures
        r == match unsigned_decimal(text@, max as nat) {
            Some(value) => Some(value as u64),
            None => None,
        },
{
    let n = text.unicode_len();
    let from: usize = if n > 0 && text.get_char(0) == '+' {
        1
    } else {
        0
    };
    proof {
        assert(text@.skip(0) =~= text@);
    }
    match parse_magnitude(text, from) {
        Some(value) => if value <= max {
            Some(value)
        } else {
            None
        },
        None => None,
    }
}

/// Reads `text` as a decimal number that fits 64 bits with a sign.
pub fn parse_signed(text: &str) -> (r: Option<i64>)
    ensures
        r == match signed_decimal(text@, i64::MIN as int, i64::MAX as int) {
            Some(value) => Some(value as i64),
            None => None,
        },
{
    let n = text.unicode_len();
    let negative = n > 0 && text.get_char(0) == '-';
    let from: usize = if n > 0 && (text.get_char(0) == '+' || text.get_char(0) == '-') {
        1
    } else {
        0
    };
    proof {
        assert(text@.skip(0) =~= text@);
    }
    match parse_magnitude(text, from) {
        Some(value) => {
            if negative {
                if value <= 0x7fff_ffff_ffff_ffff {
                    Some(-(value as i64))
                } else if value == 0x8000_0000_0000_0000 {
                    Some(i64::MIN)
                } else {
                    None
                }
            } else if value <= 0x7fff_ffff_ffff_ffff {
                Some(value as i64)
            } else {
                None
            }
        },
        None => None,
    }
}

/// Cuts `text` at every `sep` and returns the pieces in order.
pub fn split_text(text: &str, sep: char) -> (r: Vec<String>)
    ensures
        texts(r@) == split(text@, sep),
{
    let n = text.unicode_len();
    let mut pieces: Vec<String> = Vec::new();
    let mut start: usize = 0;
    let mut i: usize = 0;
    proof {
        assert(text@.skip(0) =~= text@);
        assert(texts(pieces@) + split(text@.skip(0), sep) =~= split(text@, sep));
    }
    while i < n
        invariant
            start <= i <= n,
            n == text@.len(),
            texts(pieces@) + split(text@.skip(start as int), sep) == split(text@, sep),
            forall|j: int| start <= j < i ==> text@[j] != sep,
        decreases n - i,
    {
        if text.get_char(i) == sep {
            let piece = String::from_str(text.substring_char(start, i));
            proof {
                let rest = text@.skip(start as int);
                lemma_first_index_is(rest, sep, i - start);
                assert(rest.take(i - start) =~= text@.subrange(start as int, i as int));
                assert(rest.skip(i - start + 1) =~= text@.skip(i + 1));
                assert(texts(pieces@.push(piece)) =~= texts(pieces@) + seq![piece@]);
            }
            pieces.push(piece);
            start = i + 1;
        }
        i = i + 1;
    }
    let piece = String::from_str(text.substring_char(start, n));
    proof {
        let rest = text@.skip(start as int);
        lemma_first_index_is(rest, sep, n - start);
        assert(rest =~= text@.subrange(start as int, n as int));
        assert(texts(pieces@.push(piece)) =~= texts(pieces@) + seq![piece@]);
    }
    pieces.push(piece);
    pieces
}

} // verus!
