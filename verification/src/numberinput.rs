//! The number field: typed text is cleaned, read and held to its bounds.
//!
//! While a number is being typed its text is often not yet a number. Each
//! edit is first normalised (decimals cut to the allowed count, a trailing
//! minus turned into a sign, a redundant leading zero dropped), then read.
//! A text that cannot be read leaves the field as it was; a value outside
//! the bounds is replaced by the bound it passed.

use crate::integer::all_digits;
use crate::integer::decimal_digits;
use crate::integer::integer_text;
use crate::integer::is_digit;
use crate::integer::is_digit_char;
use crate::integer::lemma_decimal_digits_value;
use crate::number::Number;
use crate::text::chars_of;
use crate::text::text_of;
use vstd::prelude::*;

verus! {

/// The index of the first `c` in `s`, or the length of `s` where it holds
/// none.
pub open spec fn first_index_of(s: Seq<char>, c: char) -> int
    decreases s.len(),
{
    if s.len() == 0 {
        0
    } else if s[0] == c {
        0
    } else {
        1 + first_index_of(s.skip(1), c)
    }
}

/// `text` with everything cut that follows the first `decimals` characters
/// after its first decimal point. A text without a point is unchanged.
pub open spec fn shortened(text: Seq<char>, decimals: nat) -> Seq<char> {
    let point = first_index_of(text, '.');
    if point + decimals < text.len() {
        text.take(point + decimals + 1)
    } else {
        text
    }
}

/// A lone minus is no text at all.
pub open spec fn without_lone_minus(text: Seq<char>) -> Seq<char> {
    if text == seq!['-'] {
        Seq::<char>::empty()
    } else {
        text
    }
}

/// A minus typed at the end toggles the sign: it cancels a leading minus, or
/// becomes one.
pub open spec fn with_trailing_minus_applied(text: Seq<char>) -> Seq<char> {
    if text.len() > 0 && text.last() == '-' {
        if text[0] == '-' {
            text.subrange(1, text.len() - 1)
        } else {
            seq!['-'] + text.drop_last()
        }
    } else {
        text
    }
}

/// One leading zero is dropped where more follows that is no decimal point.
pub open spec fn without_leading_zero(text: Seq<char>) -> Seq<char> {
    if text.len() > 1 && text[0] == '0' && text[1] != '.' {
        text.skip(1)
    } else {
        text
    }
}

/// The same behind a minus sign.
pub open spec fn without_leading_zero_after_minus(text: Seq<char>) -> Seq<char> {
    if text.len() > 2 && text[0] == '-' && text[1] == '0' && text[2] != '.' {
        seq!['-'] + text.skip(2)
    } else {
        text
    }
}

/// The cleaned form of a typed text: the five steps above, in order.
pub open spec fn normalized(text: Seq<char>, decimals: nat) -> Seq<char> {
    without_leading_zero_after_minus(
        without_leading_zero(
            with_trailing_minus_applied(without_lone_minus(shortened(text, decimals))),
        ),
    )
}

/// Whether cleaning has nothing to do on `text`: none of the five steps
/// applies to it.
pub open spec fn is_normal(text: Seq<char>, decimals: nat) -> bool {
    &&& text.len() <= first_index_of(text, '.') + decimals + 1
    &&& text != seq!['-']
    &&& !(text.len() > 0 && text.last() == '-')
    &&& !(text.len() > 1 && text[0] == '0' && text[1] != '.')
    &&& !(text.len() > 2 && text[0] == '-' && text[1] == '0' && text[2] != '.')
}

/// A value held to `min..=max`, and whether it had to be moved.
pub open spec fn clamped<N: Number>(value: N, min: N, max: N) -> (N, bool) {
    if value.below(min) {
        (min, true)
    } else if max.below(value) {
        (max, true)
    } else {
        (value, false)
    }
}

/// What a non-empty text reads as: its value held to the bounds, or nothing.
pub open spec fn parsed_value<N: Number>(text: Seq<char>, min: N, max: N) -> Option<(N, bool)> {
    match N::text_value(text) {
        Some(value) => Some(clamped(value, min, max)),
        None => None,
    }
}

/// `text` without its leading minus, if it has one.
pub open spec fn number_body(text: Seq<char>) -> Seq<char> {
    if text.len() > 0 && text[0] == '-' {
        text.skip(1)
    } else {
        text
    }
}

/// Whether `text` has the shape of a number, or of the beginning of one: an
/// optional leading minus, then digits, then at most one decimal point with
/// digits behind it.
pub open spec fn is_number_shape(text: Seq<char>) -> bool {
    let body = number_body(text);
    let point = first_index_of(body, '.');
    &&& all_digits(body.take(point))
    &&& point < body.len() ==> all_digits(body.skip(point + 1))
}

/// Whether no more than `decimals` characters follow the first decimal point
/// of `text`.
pub open spec fn within_decimals(text: Seq<char>, decimals: nat) -> bool {
    text.len() <= first_index_of(text, '.') + decimals + 1
}

/// Whether `text` is a number, or the beginning of one, with no more than
/// `decimals` digits behind its decimal point.
pub open spec fn is_number_prefix(text: Seq<char>, decimals: nat) -> bool {
    is_number_shape(text) && within_decimals(text, decimals)
}

/// Whether `text` ends with its only decimal point.
pub open spec fn ends_with_only_point(text: Seq<char>) -> bool {
    text.len() > 0 && text.last() == '.' && !text.drop_last().contains('.')
}

/// What a field text reads as. The flag says that the field must show the
/// canonical text of the value in place of what was typed.
///
/// An empty text reads as the kind's zero. A text that has not the shape of
/// a number is not read, whatever the kind would make of it: a sign other
/// than a leading minus, an exponent or a word has no place in the field.
/// For a decimal kind a point typed last is not read yet.
pub open spec fn parsed<N: Number>(text: Seq<char>, min: N, max: N) -> Option<(N, bool)> {
    if text.len() == 0 {
        Some((N::zero_value(), true))
    } else if !is_number_shape(text) {
        None
    } else if N::decimal_kind() && ends_with_only_point(text) {
        parsed_value(text.drop_last(), min, max)
    } else {
        parsed_value(text, min, max)
    }
}

/// Whether `value` lies in `min..=max`.
pub open spec fn within_bounds<N: Number>(value: N, min: N, max: N) -> bool {
    !value.below(min) && !max.below(value)
}

/// The field text after `typed` arrives: unchanged where the cleaned text
/// cannot be read, the canonical text of the bound where the value left the
/// bounds, else the cleaned text.
pub open spec fn text_after_edit<N: Number>(
    current: Seq<char>,
    typed: Seq<char>,
    min: N,
    max: N,
    decimals: nat,
) -> Seq<char> {
    let cleaned = normalized(typed, decimals);
    match parsed::<N>(cleaned, min, max) {
        None => current,
        Some((value, replace)) => if replace {
            value.canonical_text()
        } else {
            cleaned
        },
    }
}

/// `first_index_of` is the one index before which no `c` stands and at which
/// `c` stands or the text ends.
pub proof fn lemma_first_index_of(s: Seq<char>, c: char, i: int)
    requires
        0 <= i <= s.len(),
        forall|j: int| 0 <= j < i ==> s[j] != c,
        i < s.len() ==> s[i] == c,
    ensures
        first_index_of(s, c) == i,
    decreases s.len(),
{
    if s.len() > 0 && s[0] != c {
        let t = s.skip(1);
        assert forall|j: int| 0 <= j < i - 1 implies t[j] != c by {
            assert(t[j] == s[j + 1]);
        }
        lemma_first_index_of(t, c, i - 1);
    }
}

/// Before the index found no `c` stands, and at it, where it lies within
/// the text, `c` stands.
pub proof fn lemma_first_index_of_is_first(s: Seq<char>, c: char)
    ensures
        0 <= first_index_of(s, c) <= s.len(),
        forall|j: int| 0 <= j < first_index_of(s, c) ==> s[j] != c,
        first_index_of(s, c) < s.len() ==> s[first_index_of(s, c)] == c,
    decreases s.len(),
{
    if s.len() > 0 && s[0] != c {
        let t = s.skip(1);
        lemma_first_index_of_is_first(t, c);
        assert forall|j: int| 0 <= j < first_index_of(s, c) implies s[j] != c by {
            if j > 0 {
                assert(s[j] == t[j - 1]);
            }
        }
    }
}

/// The canonical text of an integer has the shape of a number and holds no
/// decimal point.
pub proof fn lemma_integer_text_is_number(v: int)
    ensures
        is_number_shape(integer_text(v)),
        !integer_text(v).contains('.'),
        first_index_of(integer_text(v), '.') == integer_text(v).len(),
{
    let text = integer_text(v);
    let body = number_body(text);
    let digits = decimal_digits(if v < 0 {
        (-v) as nat
    } else {
        v as nat
    });
    lemma_decimal_digits_value(if v < 0 {
        (-v) as nat
    } else {
        v as nat
    });
    if v < 0 {
        assert(text[0] == '-');
        assert(body =~= digits);
    } else {
        assert(is_digit(text[0]));
        assert(body =~= digits);
    }
    lemma_first_index_of(body, '.', body.len() as int);
    assert(body.take(body.len() as int) =~= body);
    assert forall|j: int| 0 <= j < text.len() implies text[j] != '.' by {
        if v < 0 && j > 0 {
            assert(text[j] == digits[j - 1]);
        }
    }
    lemma_first_index_of(text, '.', text.len() as int);
}

/// The index found lies within the text, or at its end.
pub proof fn lemma_first_index_of_bounds(s: Seq<char>, c: char)
    ensures
        0 <= first_index_of(s, c) <= s.len(),
    decreases s.len(),
{
    if s.len() > 0 && s[0] != c {
        lemma_first_index_of_bounds(s.skip(1), c);
    }
}

/// The texts on which cleaning changes nothing are exactly the normal ones.
pub proof fn lemma_normal_iff_unchanged(text: Seq<char>, decimals: nat)
    ensures
        is_normal(text, decimals) <==> normalized(text, decimals) == text,
{
    lemma_first_index_of_bounds(text, '.');
    let a = shortened(text, decimals);
    let b = without_lone_minus(a);
    let c = with_trailing_minus_applied(b);
    let d = without_leading_zero(c);
    let e = without_leading_zero_after_minus(d);
    assert(a.len() <= text.len());
    assert(b.len() <= a.len());
    if b.len() == 1 && b[0] == '-' {
        assert(b =~= seq!['-']);
    }
    assert(c.len() <= b.len());
    assert(d.len() <= c.len());
    assert(e.len() <= d.len());
    if is_normal(text, decimals) {
        assert(a =~= text);
        assert(b == text);
        assert(c == text);
        assert(d == text);
        assert(e == text);
    }
    if e == text {
        assert(a.len() == text.len());
        assert(a =~= text);
        assert(b.len() == a.len());
        assert(b == a);
        assert(d.len() == c.len());
        assert(d == c);
        assert(e == d);
        assert(c == text);
        if text.len() > 0 && text.last() == '-' {
            assert(c[0] == '-');
            assert(false);
        }
    }
}

/// Cleaning a cleaned text changes nothing exactly where the first cleaning
/// ended on a normal text.
pub proof fn lemma_normalized_twice(text: Seq<char>, decimals: nat)
    ensures
        normalized(normalized(text, decimals), decimals) == normalized(text, decimals)
            <==> is_normal(normalized(text, decimals), decimals),
{
    lemma_normal_iff_unchanged(normalized(text, decimals), decimals);
}

/// Whatever a text reads as lies within the bounds. Left out are bounds of
/// which the upper lies below the lower, and the empty text where the kind's
/// zero lies outside the bounds: an empty text reads as zero all the same.
pub proof fn lemma_parsed_within_bounds<N: Number>(text: Seq<char>, min: N, max: N)
    requires
        !max.below(min),
        text.len() == 0 ==> within_bounds(N::zero_value(), min, max),
    ensures
        match parsed::<N>(text, min, max) {
            Some((value, _)) => within_bounds(value, min, max),
            None => true,
        },
{
    N::law_below_irreflexive(min);
    N::law_below_irreflexive(max);
}

/// The canonical text of a value reads as that value held to the bounds.
pub proof fn lemma_canonical_text_parses<N: Number>(value: N, min: N, max: N)
    ensures
        parsed::<N>(value.canonical_text(), min, max) == Some(clamped(value, min, max)),
{
    N::law_canonical_text_reads_back(value);
    N::law_canonical_text_is_number(value);
}

/// Cutting a text behind its first decimal point leaves the point where it
/// was.
pub proof fn lemma_first_index_of_take(s: Seq<char>, c: char, k: int)
    requires
        first_index_of(s, c) < k <= s.len(),
    ensures
        first_index_of(s.take(k), c) == first_index_of(s, c),
{
    lemma_first_index_of_is_first(s, c);
    lemma_first_index_of(s.take(k), c, first_index_of(s, c));
}

/// Dropping a last character that is not `c` leaves the first `c` where it
/// was; a text without `c` stays without.
pub proof fn lemma_first_index_of_drop_last(s: Seq<char>, c: char)
    requires
        s.len() > 0,
        s.last() != c,
    ensures
        first_index_of(s, c) != s.len() - 1,
        first_index_of(s.drop_last(), c) == if first_index_of(s, c) == s.len() {
            s.len() - 1
        } else {
            first_index_of(s, c)
        },
{
    lemma_first_index_of_is_first(s, c);
    let p = first_index_of(s, c);
    if p == s.len() {
        lemma_first_index_of(s.drop_last(), c, s.len() - 1);
    } else {
        lemma_first_index_of(s.drop_last(), c, p);
    }
}

/// A cleaned text holds no more than `decimals` characters behind its first
/// decimal point.
pub proof fn lemma_normalized_within_decimals(text: Seq<char>, decimals: nat)
    ensures
        within_decimals(normalized(text, decimals), decimals),
{
    lemma_first_index_of_is_first(text, '.');
    let a = shortened(text, decimals);
    assert(within_decimals(a, decimals)) by {
        let point = first_index_of(text, '.');
        if point + decimals < text.len() {
            lemma_first_index_of_take(text, '.', point + decimals + 1);
        }
    }
    let b = without_lone_minus(a);
    assert(within_decimals(b, decimals)) by {
        lemma_first_index_of_is_first(b, '.');
    }
    let c = with_trailing_minus_applied(b);
    assert(within_decimals(c, decimals)) by {
        if b.len() > 0 && b.last() == '-' {
            if b.len() == 1 {
                assert(b =~= seq!['-']);
            }
            lemma_first_index_of_drop_last(b, '.');
            let head = b.drop_last();
            if b[0] == '-' {
                assert(head.skip(1) =~= c);
                assert(head[0] == '-');
            } else {
                assert(c.skip(1) =~= head);
                assert(c[0] == '-');
            }
        }
    }
    let d = without_leading_zero(c);
    assert(within_decimals(d, decimals));
    let e = without_leading_zero_after_minus(d);
    assert(within_decimals(e, decimals)) by {
        if d.len() > 2 && d[0] == '-' && d[1] == '0' && d[2] != '.' {
            let rest = d.skip(1).skip(1);
            assert(d.skip(1)[0] == '0');
            assert(e[0] == '-');
            assert(e.skip(1) =~= rest);
            assert(first_index_of(d, '.') == 1 + first_index_of(d.skip(1), '.'));
            assert(first_index_of(d.skip(1), '.') == 1 + first_index_of(rest, '.'));
            assert(first_index_of(e, '.') == 1 + first_index_of(e.skip(1), '.'));
        }
    }
}

/// A field whose text is a number, or the beginning of one, with no more
/// than `decimals` digits behind its point, still has such a text after any
/// edit. The count of the digits is not kept in one case: where a value of a
/// decimal kind left the bounds, the field shows the canonical text of the
/// bound, however many digits that has.
pub proof fn lemma_edit_keeps_number_text<N: Number>(
    current: Seq<char>,
    typed: Seq<char>,
    min: N,
    max: N,
    decimals: nat,
)
    requires
        is_number_prefix(current, decimals),
    ensures
        is_number_shape(text_after_edit::<N>(current, typed, min, max, decimals)),
        !N::decimal_kind() ==> is_number_prefix(
            text_after_edit::<N>(current, typed, min, max, decimals),
            decimals,
        ),
        parsed::<N>(normalized(typed, decimals), min, max) matches Some((_, false))
            ==> is_number_prefix(
            text_after_edit::<N>(current, typed, min, max, decimals),
            decimals,
        ),
{
    let cleaned = normalized(typed, decimals);
    lemma_normalized_within_decimals(typed, decimals);
    match parsed::<N>(cleaned, min, max) {
        Some((value, replace)) => {
            if replace {
                N::law_canonical_text_is_number(value);
            }
        },
        None => {},
    }
}

/// After an edit that was taken, the text of the field reads as the value
/// that the edit gave, with nothing left to correct, and that value lies
/// within the bounds. Left out are the inputs named at
/// [`lemma_parsed_within_bounds`].
pub proof fn lemma_edit_settles<N: Number>(
    current: Seq<char>,
    typed: Seq<char>,
    min: N,
    max: N,
    decimals: nat,
)
    requires
        !max.below(min),
        normalized(typed, decimals).len() == 0 ==> within_bounds(N::zero_value(), min, max),
    ensures
        match parsed::<N>(normalized(typed, decimals), min, max) {
            Some((value, _)) => within_bounds(value, min, max) && parsed::<N>(
                text_after_edit::<N>(current, typed, min, max, decimals),
                min,
                max,
            ) == Some((value, false)),
            None => text_after_edit::<N>(current, typed, min, max, decimals) == current,
        },
{
    let cleaned = normalized(typed, decimals);
    lemma_parsed_within_bounds::<N>(cleaned, min, max);
    match parsed::<N>(cleaned, min, max) {
        Some((value, replace)) => {
            lemma_canonical_text_parses(value, min, max);
            if !replace {
                N::law_below_irreflexive(min);
            }
        },
        None => {},
    }
}

/// Taking the same edit twice leaves the field as taking it once.
pub proof fn lemma_edit_is_idempotent<N: Number>(
    current: Seq<char>,
    typed: Seq<char>,
    min: N,
    max: N,
    decimals: nat,
)
    ensures
        text_after_edit::<N>(
            text_after_edit::<N>(current, typed, min, max, decimals),
            typed,
            min,
            max,
            decimals,
        ) == text_after_edit::<N>(current, typed, min, max, decimals),
{
}

fn find_point(chars: &Vec<char>) -> (i: usize)
    ensures
        i == first_index_of(chars@, '.'),
        i <= chars.len(),
        forall|j: int| 0 <= j < i ==> chars@[j] != '.',
        i < chars.len() ==> chars@[i as int] == '.',
{
    let mut i: usize = 0;
    while i < chars.len() && chars[i] != '.'
        invariant
            i <= chars.len(),
            forall|j: int| 0 <= j < i ==> chars@[j] != '.',
        decreases chars.len() - i,
    {
        i += 1;
    }
    proof {
        lemma_first_index_of(chars@, '.', i as int);
    }
    i
}

fn shorten_chars(chars: &mut Vec<char>, decimals: u16)
    ensures
        final(chars)@ == shortened(old(chars)@, decimals as nat),
{
    let point = find_point(chars);
    if point < chars.len() && (decimals as usize) < chars.len() - point {
        chars.truncate(point + decimals as usize + 1);
    }
}

fn normalize_chars(chars: &mut Vec<char>, decimals: u16)
    ensures
        final(chars)@ == normalized(old(chars)@, decimals as nat),
{
    shorten_chars(chars, decimals);
    let ghost a = chars@;
    if chars.len() == 1 && chars[0] == '-' {
        assert(a =~= seq!['-']);
        chars.clear();
    } else {
        assert(a.len() != 1 || a[0] != seq!['-'][0]);
    }
    let ghost b = chars@;
    assert(b =~= without_lone_minus(a));
    let n = chars.len();
    if n > 0 && chars[n - 1] == '-' {
        if chars[0] == '-' {
            chars.pop();
            chars.remove(0);
        } else {
            chars.pop();
            chars.insert(0, '-');
        }
    }
    let ghost c = chars@;
    assert(c =~= with_trailing_minus_applied(b));
    if chars.len() > 1 && chars[0] == '0' && chars[1] != '.' {
        chars.remove(0);
    }
    let ghost d = chars@;
    assert(d =~= without_leading_zero(c));
    if chars.len() > 2 && chars[0] == '-' && chars[1] == '0' && chars[2] != '.' {
        chars.remove(1);
    }
    assert(chars@ =~= without_leading_zero_after_minus(d));
}

/// Cuts a number text to `decimals` places after its decimal point.
pub fn shorten_to(value_str: &str, decimals: u16) -> (r: String)
    ensures
        r@ == shortened(value_str@, decimals as nat),
{
    let mut chars = chars_of(value_str);
    shorten_chars(&mut chars, decimals);
    text_of(&chars)
}

/// Cleans a typed number text.
pub fn transform_number(value_str: &str, decimals: u16) -> (r: String)
    ensures
        r@ == normalized(value_str@, decimals as nat),
{
    let mut chars = chars_of(value_str);
    normalize_chars(&mut chars, decimals);
    text_of(&chars)
}

/// Reads a non-empty number text and holds its value to `min..=max`.
pub fn parse_number_value<N: Number>(value_str: &str, min: N, max: N) -> (r: Option<(N, bool)>)
    ensures
        r == parsed_value::<N>(value_str@, min, max),
{
    match N::parse_text(value_str) {
        Some(value) => {
            if value.less_than(min) {
                Some((min, true))
            } else if max.less_than(value) {
                Some((max, true))
            } else {
                Some((value, false))
            }
        },
        None => None,
    }
}

fn has_number_shape_chars(chars: &Vec<char>) -> (r: bool)
    ensures
        r == is_number_shape(chars@),
{
    let n = chars.len();
    let start: usize = if n > 0 && chars[0] == '-' {
        1
    } else {
        0
    };
    let ghost body = number_body(chars@);
    proof {
        assert(chars@.skip(0) =~= chars@);
        assert(body == chars@.skip(start as int));
        lemma_first_index_of_is_first(body, '.');
    }
    let mut i: usize = start;
    while i < n && is_digit_char(chars[i])
        invariant
            start <= i <= n,
            n == chars.len(),
            forall|j: int| start <= j < i ==> is_digit(chars@[j]),
        decreases n - i,
    {
        i += 1;
    }
    let ghost point = first_index_of(body, '.');
    if i == n {
        proof {
            assert forall|j: int| 0 <= j < body.len() implies body[j] != '.' by {
                assert(is_digit(chars@[j + start]));
            }
            lemma_first_index_of(body, '.', body.len() as int);
            assert forall|j: int| 0 <= j < body.take(point).len() implies is_digit(
                #[trigger] body.take(point)[j],
            ) by {
                assert(is_digit(chars@[j + start]));
            }
        }
        return true;
    }
    if chars[i] != '.' {
        proof {
            assert forall|j: int| 0 <= j <= i - start implies body[j] != '.' by {
                if j < i - start {
                    assert(is_digit(chars@[j + start]));
                }
            }
            assert(point > i - start);
            assert(body.take(point)[i - start] == chars@[i as int]);
        }
        return false;
    }
    proof {
        assert forall|j: int| 0 <= j < i - start implies body[j] != '.' by {
            assert(is_digit(chars@[j + start]));
        }
        lemma_first_index_of(body, '.', i - start);
        assert forall|j: int| 0 <= j < body.take(point).len() implies is_digit(
            #[trigger] body.take(point)[j],
        ) by {
            assert(is_digit(chars@[j + start]));
        }
    }
    let mut k: usize = i + 1;
    while k < n && is_digit_char(chars[k])
        invariant
            i < k <= n,
            n == chars.len(),
            forall|j: int| i < j < k ==> is_digit(chars@[j]),
        decreases n - k,
    {
        k += 1;
    }
    proof {
        let tail = body.skip(point + 1);
        if k == n {
            assert forall|j: int| 0 <= j < tail.len() implies is_digit(#[trigger] tail[j]) by {
                assert(is_digit(chars@[j + i + 1]));
            }
        } else {
            assert(tail[k - i - 1] == chars@[k as int]);
        }
    }
    k == n
}

/// Whether `text` has the shape of a number, or of the beginning of one:
/// see [`is_number_shape`].
pub fn has_number_shape(text: &str) -> (r: bool)
    ensures
        r == is_number_shape(text@),
{
    has_number_shape_chars(&chars_of(text))
}

fn ends_with_single_point(chars: &Vec<char>) -> (r: bool)
    ensures
        r == ends_with_only_point(chars@),
{
    let n = chars.len();
    if n == 0 || chars[n - 1] != '.' {
        return false;
    }
    let point = find_point(chars);
    proof {
        let head = chars@.drop_last();
        if point < n - 1 {
            assert(head[point as int] == '.');
        }
    }
    point == n - 1
}

/// Reads a field text: see [`parsed`].
pub fn parse_number<N: Number>(value_str: &str, min: N, max: N) -> (r: Option<(N, bool)>)
    ensures
        r == parsed::<N>(value_str@, min, max),
{
    let mut chars = chars_of(value_str);
    if chars.len() == 0 {
        Some((N::zero(), true))
    } else if !has_number_shape_chars(&chars) {
        None
    } else if N::decimal() && ends_with_single_point(&chars) {
        chars.pop();
        let head = text_of(&chars);
        parse_number_value(head.as_str(), min, max)
    } else {
        parse_number_value(value_str, min, max)
    }
}

/// What a field with text `state` shows: the text, or for an empty text the
/// canonical text of the kind's zero.
pub open spec fn shown_text<N: Number>(state: Seq<char>) -> Seq<char> {
    if state.len() == 0 {
        N::zero_value().canonical_text()
    } else {
        state
    }
}

/// The text of a number field with its bounds.
#[derive(Clone, Debug)]
pub struct NumberState<N: Number> {
    /// The text as edited so far.
    pub state: String,
    /// The least value allowed.
    pub min: N,
    /// The greatest value allowed.
    pub max: N,
    /// The greatest number of digits after the decimal point.
    pub decimals: u16,
}

impl<N: Number> NumberState<N> {
    /// The text of the field can be read.
    pub open spec fn wf(&self) -> bool {
        parsed::<N>(self.state@, self.min, self.max) is Some
    }

    /// A field that shows `value`.
    pub fn new(value: N, min: N, max: N, decimals: u16) -> (r: Self)
        ensures
            r.state@ == value.canonical_text(),
            r.min == min,
            r.max == max,
            r.decimals == decimals,
            r.wf(),
            is_number_shape(r.state@),
            !N::decimal_kind() ==> is_number_prefix(r.state@, decimals as nat),
    {
        proof {
            lemma_canonical_text_parses(value, min, max);
            N::law_canonical_text_is_number(value);
        }
        NumberState { state: value.to_text(), min, max, decimals }
    }

    /// The value that the text of the field reads as, held to the bounds.
    pub fn get(&self) -> (value: N)
        requires
            self.wf(),
        ensures
            match parsed::<N>(self.state@, self.min, self.max) {
                Some((read, _)) => value == read,
                None => false,
            },
    {
        match parse_number(self.state.as_str(), self.min, self.max) {
            Some((value, _)) => value,
            None => N::zero(),
        }
    }

    /// Takes an edit of the text: see [`text_after_edit`].
    pub fn set(&mut self, new_value_str: &str)
        ensures
            final(self).state@ == text_after_edit::<N>(
                old(self).state@,
                new_value_str@,
                old(self).min,
                old(self).max,
                old(self).decimals as nat,
            ),
            final(self).min == old(self).min,
            final(self).max == old(self).max,
            final(self).decimals == old(self).decimals,
            old(self).wf() ==> final(self).wf(),
            parsed::<N>(normalized(new_value_str@, old(self).decimals as nat), old(self).min, old(self).max)
                is Some ==> final(self).wf(),
            is_number_shape(old(self).state@) ==> is_number_shape(final(self).state@),
            !N::decimal_kind() && is_number_prefix(old(self).state@, old(self).decimals as nat)
                ==> is_number_prefix(final(self).state@, old(self).decimals as nat),
    {
        proof {
            if is_number_prefix(self.state@, self.decimals as nat) {
                lemma_edit_keeps_number_text::<N>(
                    self.state@,
                    new_value_str@,
                    self.min,
                    self.max,
                    self.decimals as nat,
                );
            }
        }
        let new_value_transformed = transform_number(new_value_str, self.decimals);
        let maybe_new_value = parse_number(new_value_transformed.as_str(), self.min, self.max);
        if let Some((new_value, update_repr)) = maybe_new_value {
            if !update_repr {
                self.state = new_value_transformed;
            } else {
                proof {
                    lemma_canonical_text_parses(new_value, self.min, self.max);
                }
                self.state = new_value.to_text();
            }
        }
    }

    /// The text to show: see [`shown_text`].
    pub fn to_string(&self) -> (r: String)
        ensures
            r@ == shown_text::<N>(self.state@),
    {
        if self.state.as_str().unicode_len() == 0 {
            N::zero().to_text()
        } else {
            self.state.clone()
        }
    }
}

impl<N: Number> Default for NumberState<N> {
    /// An empty field over the whole range of the kind.
    fn default() -> (r: Self)
        ensures
            r.state@.len() == 0,
            r.min == N::least(),
            r.max == N::greatest(),
            r.decimals == u16::MAX,
            r.wf(),
            is_number_prefix(r.state@, r.decimals as nat),
    {
        NumberState {
            state: String::new(),
            min: N::number_min(),
            max: N::number_max(),
            decimals: u16::MAX,
        }
    }
}

/// A number field: the text being edited and the value last committed.
#[derive(Clone, Debug)]
pub struct NumericField<N: Number> {
    /// The text and the bounds.
    pub display: NumberState<N>,
    /// The value that the field stands for.
    pub committed: N,
}

impl<N: Number> NumericField<N> {
    /// A field that holds and shows `value`.
    pub fn new(value: N, min: N, max: N, decimals: u16) -> (r: Self)
        ensures
            r.committed == value,
            r.display.state@ == value.canonical_text(),
            r.display.min == min,
            r.display.max == max,
            r.display.decimals == decimals,
            r.display.wf(),
            is_number_shape(r.display.state@),
            !N::decimal_kind() ==> is_number_prefix(r.display.state@, decimals as nat),
    {
        NumericField { display: NumberState::new(value, min, max, decimals), committed: value }
    }

    /// An empty field over `min..=max`, which stands for the kind's zero.
    pub fn empty(min: N, max: N, decimals: u16) -> (r: Self)
        ensures
            r.committed == N::zero_value(),
            r.display.state@.len() == 0,
            r.display.min == min,
            r.display.max == max,
            r.display.decimals == decimals,
            r.display.wf(),
            is_number_prefix(r.display.state@, decimals as nat),
    {
        NumericField {
            display: NumberState { state: String::new(), min, max, decimals },
            committed: N::zero(),
        }
    }

    /// Takes the whole text of the input after a keystroke.
    ///
    /// A text that cannot be read changes nothing. Otherwise the value read,
    /// held to the bounds, is committed, and the field shows the cleaned text,
    /// or the canonical text of the value where the value had to be moved.
    pub fn on_keystroke(&mut self, raw_text: &str)
        ensures
            final(self).display.min == old(self).display.min,
            final(self).display.max == old(self).display.max,
            final(self).display.decimals == old(self).display.decimals,
            final(self).display.state@ == text_after_edit::<N>(
                old(self).display.state@,
                raw_text@,
                old(self).display.min,
                old(self).display.max,
                old(self).display.decimals as nat,
            ),
            match parsed::<N>(
                normalized(raw_text@, old(self).display.decimals as nat),
                old(self).display.min,
                old(self).display.max,
            ) {
                Some((value, _)) => final(self).committed == value && final(self).display.wf(),
                None => *final(self) == *old(self),
            },
            is_number_shape(old(self).display.state@) ==> is_number_shape(
                final(self).display.state@,
            ),
            !N::decimal_kind() && is_number_prefix(
                old(self).display.state@,
                old(self).display.decimals as nat,
            ) ==> is_number_prefix(final(self).display.state@, old(self).display.decimals as nat),
    {
        proof {
            if is_number_prefix(self.display.state@, self.display.decimals as nat) {
                lemma_edit_keeps_number_text::<N>(
                    self.display.state@,
                    raw_text@,
                    self.display.min,
                    self.display.max,
                    self.display.decimals as nat,
                );
            }
        }
        let cleaned = transform_number(raw_text, self.display.decimals);
        match parse_number(cleaned.as_str(), self.display.min, self.display.max) {
            Some((value, replace)) => {
                self.committed = value;
                if replace {
                    proof {
                        lemma_canonical_text_parses(value, self.display.min, self.display.max);
                    }
                    self.display.state = value.to_text();
                } else {
                    self.display.state = cleaned;
                }
            },
            None => {},
        }
    }

    /// The text to show: the text of the field, or for an empty text the
    /// canonical text of the committed value.
    pub fn render(&self) -> (r: String)
        ensures
            r@ == if self.display.state@.len() == 0 {
                self.committed.canonical_text()
            } else {
                self.display.state@
            },
    {
        if self.display.state.as_str().unicode_len() == 0 {
            self.committed.to_text()
        } else {
            self.display.state.clone()
        }
    }

    /// The committed value.
    pub fn value(&self) -> (r: N)
        ensures
            r == self.committed,
    {
        self.committed
    }
}

} // verus!
