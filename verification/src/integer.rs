//! Decimal integer texts: what they denote, how to read and how to write them.
//!
//! A text denotes an integer when it is an optional sign followed by one or
//! more ASCII digits. Reading accumulates into 128 bits and reports every
//! text whose value leaves the requested bounds as unreadable.

use crate::text::keep_last;
use crate::text::last_chars;
use crate::text::pad_left;
use crate::text::padded;
use crate::text::zeros;
use vstd::prelude::*;

verus! {

/// Whether `c` is one of `'0'..='9'`.
pub open spec fn is_digit(c: char) -> bool {
    48 <= c as u32 <= 57
}

/// The value of a digit; 0 for any other character.
pub open spec fn digit_value(c: char) -> nat {
    if is_digit(c) {
        (c as u32 - 48) as nat
    } else {
        0
    }
}

/// The digit that shows `d`, for `d < 10`.
pub open spec fn digit_char(d: nat) -> char {
    (d + 48) as char
}

/// Whether every character of `s` is a digit.
pub open spec fn all_digits(s: Seq<char>) -> bool {
    forall|i: int| 0 <= i < s.len() ==> is_digit(#[trigger] s[i])
}

/// Whether `s` is one or more digits.
pub open spec fn is_digit_text(s: Seq<char>) -> bool {
    s.len() > 0 && all_digits(s)
}

/// The number that a run of digits denotes, most significant digit first.
pub open spec fn digits_value(s: Seq<char>) -> nat
    decreases s.len(),
{
    if s.len() == 0 {
        0
    } else {
        10 * digits_value(s.drop_last()) + digit_value(s.last())
    }
}

/// The integer that `s` denotes, if any: an optional sign, then one or more
/// digits. A leading `'+'` is always accepted, a leading `'-'` only where
/// `minus` is set.
pub open spec fn integer_text_value(s: Seq<char>, minus: bool) -> Option<int> {
    if s.len() > 0 && s[0] == '+' {
        if is_digit_text(s.skip(1)) {
            Some(digits_value(s.skip(1)) as int)
        } else {
            None
        }
    } else if minus && s.len() > 0 && s[0] == '-' {
        if is_digit_text(s.skip(1)) {
            Some(-(digits_value(s.skip(1)) as int))
        } else {
            None
        }
    } else if is_digit_text(s) {
        Some(digits_value(s) as int)
    } else {
        None
    }
}

/// The digits of `n`, without leading zeros; `"0"` for zero.
pub open spec fn decimal_digits(n: nat) -> Seq<char>
    decreases n,
{
    if n < 10 {
        seq![digit_char(n)]
    } else {
        decimal_digits(n / 10).push(digit_char(n % 10))
    }
}

/// The canonical text of `v`: a `'-'` for a negative value, then its digits.
pub open spec fn integer_text(v: int) -> Seq<char> {
    if v < 0 {
        seq!['-'] + decimal_digits((-v) as nat)
    } else {
        decimal_digits(v as nat)
    }
}

/// A run of digits denotes at least what any of its prefixes denotes.
pub proof fn lemma_digits_value_prefix(s: Seq<char>, k: int)
    requires
        0 <= k <= s.len(),
    ensures
        digits_value(s.take(k)) <= digits_value(s),
    decreases s.len(),
{
    if k == s.len() {
        assert(s.take(k) =~= s);
    } else {
        lemma_digits_value_prefix(s.drop_last(), k);
        assert(s.drop_last().take(k) =~= s.take(k));
    }
}

/// The digits of a number are digits, start with no sign, and denote it.
pub proof fn lemma_decimal_digits_value(n: nat)
    ensures
        is_digit_text(decimal_digits(n)),
        digits_value(decimal_digits(n)) == n,
    decreases n,
{
    if n < 10 {
        let s = decimal_digits(n);
        assert(s.drop_last() =~= Seq::<char>::empty());
        assert(digits_value(s.drop_last()) == 0);
    } else {
        lemma_decimal_digits_value(n / 10);
        let s = decimal_digits(n);
        assert(s.drop_last() =~= decimal_digits(n / 10));
    }
}

/// Reading the canonical text of an integer gives the integer back, for
/// every value that the accepted signs can express.
pub proof fn lemma_integer_text_round_trip(v: int, minus: bool)
    requires
        v >= 0 || minus,
    ensures
        integer_text_value(integer_text(v), minus) == Some(v),
        integer_text(v).len() > 0,
        is_digit(integer_text(v).last()),
{
    if v < 0 {
        let d = decimal_digits((-v) as nat);
        lemma_decimal_digits_value((-v) as nat);
        let s = integer_text(v);
        assert(s.skip(1) =~= d);
        assert(s[0] == '-');
        assert(s.last() == d.last());
    } else {
        lemma_decimal_digits_value(v as nat);
        let s = integer_text(v);
        assert(is_digit(s[0]));
    }
}

/// Whether `c` is a digit.
pub fn is_digit_char(c: char) -> (r: bool)
    ensures
        r == is_digit(c),
{
    let code: u32 = c as u32;
    48 <= code && code <= 57
}

fn digit_of(c: char) -> (d: Option<u8>)
    ensures
        d is Some <==> is_digit(c),
        d is Some ==> d->0 as nat == digit_value(c),
{
    let code: u32 = c as u32;
    if 48 <= code && code <= 57 {
        Some((code - 48) as u8)
    } else {
        None
    }
}

fn char_of_digit(d: u8) -> (c: char)
    requires
        d < 10,
    ensures
        c == digit_char(d as nat),
{
    (d + 48) as char
}

/// Reads the characters of `chars` from index `from` on as a run of digits.
/// Gives `None` where they are not one or more digits, or where the number
/// does not fit in 128 bits.
pub fn parse_digits(chars: &Vec<char>, from: usize) -> (r: Option<u128>)
    requires
        from <= chars.len(),
    ensures
        r == if is_digit_text(chars@.skip(from as int)) && digits_value(chars@.skip(from as int))
            <= u128::MAX {
            Some(digits_value(chars@.skip(from as int)) as u128)
        } else {
            None
        },
{
    let ghost tail = chars@.skip(from as int);
    if from == chars.len() {
        return None;
    }
    let mut acc: u128 = 0;
    let mut i: usize = from;
    while i < chars.len()
        invariant
            from <= i <= chars.len(),
            tail == chars@.skip(from as int),
            all_digits(tail.take(i - from)),
            acc == digits_value(tail.take(i - from)),
        decreases chars.len() - i,
    {
        let ghost next = tail.take(i - from + 1);
        proof {
            assert(next.drop_last() =~= tail.take(i - from));
            assert(next.last() == chars@[i as int]);
            lemma_digits_value_prefix(tail, i - from + 1);
        }
        match digit_of(chars[i]) {
            None => {
                assert(!is_digit(tail[i - from]));
                return None;
            },
            Some(d) => {
                if acc > (u128::MAX - d as u128) / 10 {
                    return None;
                }
                acc = acc * 10 + d as u128;
                assert forall|j: int| 0 <= j < next.len() implies is_digit(#[trigger] next[j]) by {
                    if j < i - from {
                        assert(next[j] == tail.take(i - from)[j]);
                    }
                }
            },
        }
        i += 1;
    }
    proof {
        assert(tail.take(i - from) =~= tail);
    }
    Some(acc)
}

/// Reads a text that may carry either sign, within the bounds `lo..=hi`.
pub fn parse_signed(chars: &Vec<char>, lo: i128, hi: i128) -> (r: Option<i128>)
    ensures
        r == match integer_text_value(chars@, true) {
            Some(v) => if lo <= v <= hi {
                Some(v as i128)
            } else {
                None
            },
            None => None,
        },
{
    if chars.len() > 0 && chars[0] == '+' {
        match parse_digits(chars, 1) {
            Some(m) => {
                if m <= i128::MAX as u128 && lo <= m as i128 && m as i128 <= hi {
                    Some(m as i128)
                } else {
                    None
                }
            },
            None => None,
        }
    } else if chars.len() > 0 && chars[0] == '-' {
        match parse_digits(chars, 1) {
            Some(m) => {
                if m <= i128::MAX as u128 {
                    let v: i128 = -(m as i128);
                    if lo <= v && v <= hi {
                        Some(v)
                    } else {
                        None
                    }
                } else if m == i128::MAX as u128 + 1 && lo == i128::MIN {
                    Some(i128::MIN)
                } else {
                    None
                }
            },
            None => None,
        }
    } else {
        proof {
            assert(chars@.skip(0) =~= chars@);
        }
        match parse_digits(chars, 0) {
            Some(m) => {
                if m <= i128::MAX as u128 && lo <= m as i128 && m as i128 <= hi {
                    Some(m as i128)
                } else {
                    None
                }
            },
            None => None,
        }
    }
}

/// Reads a text that may carry a `'+'` but no `'-'`, within `0..=hi`.
pub fn parse_unsigned(chars: &Vec<char>, hi: u128) -> (r: Option<u128>)
    ensures
        r == match integer_text_value(chars@, false) {
            Some(v) => if v <= hi {
                Some(v as u128)
            } else {
                None
            },
            None => None,
        },
{
    let from: usize = if chars.len() > 0 && chars[0] == '+' {
        1
    } else {
        0
    };
    proof {
        assert(chars@.skip(0) =~= chars@);
    }
    match parse_digits(chars, from) {
        Some(m) => {
            if m <= hi {
                Some(m)
            } else {
                None
            }
        },
        None => None,
    }
}

/// Appends the digits of `n` to `out`.
pub fn push_digits(n: u128, out: &mut Vec<char>)
    ensures
        final(out)@ == old(out)@ + decimal_digits(n as nat),
    decreases n,
{
    if n >= 10 {
        push_digits(n / 10, out);
    }
    out.push(char_of_digit((n % 10) as u8));
    proof {
        assert(final(out)@ =~= old(out)@ + decimal_digits(n as nat));
    }
}

/// The canonical text of a signed value, as characters.
pub fn signed_chars(v: i128) -> (r: Vec<char>)
    ensures
        r@ == integer_text(v as int),
{
    let mut out: Vec<char> = Vec::new();
    if v < 0 {
        out.push('-');
        let m: u128 = if v == i128::MIN {
            i128::MAX as u128 + 1
        } else {
            (-v) as u128
        };
        push_digits(m, &mut out);
    } else {
        push_digits(v as u128, &mut out);
    }
    proof {
        assert(out@ =~= integer_text(v as int));
    }
    out
}

/// The canonical text of an unsigned value, as characters.
pub fn unsigned_chars(v: u128) -> (r: Vec<char>)
    ensures
        r@ == integer_text(v as int),
{
    let mut out: Vec<char> = Vec::new();
    push_digits(v, &mut out);
    proof {
        assert(out@ =~= integer_text(v as int));
    }
    out
}

/// Zeros in front of a run of digits change neither that it is one nor what
/// it denotes.
pub proof fn lemma_zeros_then_digits(count: nat, s: Seq<char>)
    requires
        all_digits(s),
    ensures
        all_digits(zeros(count) + s),
        digits_value(zeros(count) + s) == digits_value(s),
    decreases s.len(), count,
{
    let t = zeros(count) + s;
    assert forall|i: int| 0 <= i < t.len() implies is_digit(#[trigger] t[i]) by {
        if i >= count {
            assert(t[i] == s[i - count]);
        }
    }
    if s.len() > 0 {
        lemma_zeros_then_digits(count, s.drop_last());
        assert(t.drop_last() =~= zeros(count) + s.drop_last());
    } else if count > 0 {
        lemma_zeros_then_digits((count - 1) as nat, s);
        assert(t.drop_last() =~= zeros((count - 1) as nat) + s);
    }
}

/// The digits of a number, filled up with zeros on the left, still read as
/// that number.
pub proof fn lemma_padded_digits_value(n: nat, width: nat, minus: bool)
    ensures
        integer_text_value(padded(decimal_digits(n), width), minus) == Some(n as int),
{
    let d = decimal_digits(n);
    lemma_decimal_digits_value(n);
    let p = padded(d, width);
    if d.len() < width {
        lemma_zeros_then_digits((width - d.len()) as nat, d);
    }
    assert(is_digit(p[0]));
}

/// The last `width` digits of `n`, with zeros in front where `n` has fewer.
pub open spec fn fixed_digits(n: nat, width: nat) -> Seq<char> {
    last_chars(padded(decimal_digits(n), width), width)
}

/// The fixed digits of a number are digits, as many as asked for.
pub proof fn lemma_fixed_digits(n: nat, width: nat)
    ensures
        fixed_digits(n, width).len() == width,
        all_digits(fixed_digits(n, width)),
{
    let d = decimal_digits(n);
    lemma_decimal_digits_value(n);
    let p = padded(d, width);
    if d.len() < width {
        lemma_zeros_then_digits((width - d.len()) as nat, d);
    }
    let f = fixed_digits(n, width);
    assert forall|i: int| 0 <= i < f.len() implies is_digit(#[trigger] f[i]) by {
        if p.len() > width {
            assert(f[i] == p[i + p.len() - width]);
        }
    }
}

/// A number below ten thousand has four digits at most, one below a hundred
/// two.
pub proof fn lemma_decimal_digits_len(n: nat)
    ensures
        n < 100 ==> decimal_digits(n).len() <= 2,
        n < 10000 ==> decimal_digits(n).len() <= 4,
{
    if 10 <= n < 10000 {
        assert(decimal_digits(n) == decimal_digits(n / 10).push(digit_char(n % 10)));
        if n >= 100 {
            assert(decimal_digits(n / 10) == decimal_digits(n / 10 / 10).push(
                digit_char(n / 10 % 10),
            ));
            if n >= 1000 {
                assert(decimal_digits(n / 10 / 10) == decimal_digits(n / 10 / 10 / 10).push(
                    digit_char(n / 10 / 10 % 10),
                ));
            }
        }
    }
}

/// Where a number has no more than `width` digits, its fixed digits read as
/// that number.
pub proof fn lemma_fixed_digits_value(n: nat, width: nat, minus: bool)
    requires
        decimal_digits(n).len() <= width,
    ensures
        integer_text_value(fixed_digits(n, width), minus) == Some(n as int),
{
    lemma_padded_digits_value(n, width, minus);
}

/// The last `width` digits of `n`, as characters.
pub fn fixed_digit_chars(n: u128, width: usize) -> (r: Vec<char>)
    ensures
        r@ == fixed_digits(n as nat, width as nat),
{
    let digits = unsigned_chars(n);
    keep_last(&pad_left(&digits, width), width)
}

} // verus!
