//! The numeric kinds that a number field can hold.
//!
//! A kind says how its values are read from text, written as text and
//! ordered. The integer kinds of the language are the kinds provided here.

use crate::integer::integer_text;
use crate::integer::integer_text_value;
use crate::integer::lemma_integer_text_round_trip;
use crate::integer::parse_signed;
use crate::integer::parse_unsigned;
use crate::integer::signed_chars;
use crate::integer::unsigned_chars;
use crate::numberinput::first_index_of;
use crate::numberinput::is_number_shape;
use crate::numberinput::lemma_integer_text_is_number;
use crate::text::chars_of;
use crate::text::text_of;
use vstd::prelude::*;

verus! {

/// A numeric kind.
///
/// The spec functions are the model of the kind; each executable method
/// states its result over them. The laws are what the number field relies
/// on: a value is never below itself, and the canonical text of a value reads
/// back as that value and has the shape of a number. An implementation has to
/// prove them.
pub trait Number: Copy + Sized {
    /// Whether texts of this kind may hold a decimal point.
    spec fn decimal_kind() -> bool;

    /// The value that `text` denotes, if it denotes one.
    spec fn text_value(text: Seq<char>) -> Option<Self>;

    /// The canonical text of a value.
    spec fn canonical_text(self) -> Seq<char>;

    /// The strict order of the kind.
    spec fn below(self, other: Self) -> bool;

    /// The value of an empty field.
    spec fn zero_value() -> Self;

    /// The least value of the kind.
    spec fn least() -> Self;

    /// The greatest value of the kind.
    spec fn greatest() -> Self;

    /// The step between neighbouring values that a field offers.
    spec fn unit() -> Self;

    /// Whether texts of this kind may hold a decimal point.
    fn decimal() -> (r: bool)
        ensures
            r == Self::decimal_kind(),
    ;

    /// The least value of the kind.
    fn number_min() -> (r: Self)
        ensures
            r == Self::least(),
    ;

    /// The greatest value of the kind.
    fn number_max() -> (r: Self)
        ensures
            r == Self::greatest(),
    ;

    /// The step between neighbouring values that a field offers.
    fn number_step() -> (r: Self)
        ensures
            r == Self::unit(),
    ;

    /// The value of an empty field.
    fn zero() -> (r: Self)
        ensures
            r == Self::zero_value(),
    ;

    /// Reads a value from `text`; `None` where the text denotes none.
    fn parse_text(text: &str) -> (r: Option<Self>)
        ensures
            r == Self::text_value(text@),
    ;

    /// Writes the canonical text of the value.
    fn to_text(self) -> (r: String)
        ensures
            r@ == self.canonical_text(),
    ;

    /// Whether the value is strictly below `other`.
    fn less_than(self, other: Self) -> (r: bool)
        ensures
            r == self.below(other),
    ;

    /// No value is below itself.
    proof fn law_below_irreflexive(a: Self)
        ensures
            !a.below(a),
    ;

    /// The canonical text of a value denotes that value, is not empty and
    /// does not end with a decimal point.
    proof fn law_canonical_text_reads_back(v: Self)
        ensures
            Self::text_value(v.canonical_text()) == Some(v),
            v.canonical_text().len() > 0,
            v.canonical_text().last() != '.',
    ;

    /// The canonical text of a value has the shape of a number: an optional
    /// leading minus, digits, and at most one decimal point with digits
    /// behind it. For a kind that is not decimal it holds no point.
    proof fn law_canonical_text_is_number(v: Self)
        ensures
            is_number_shape(v.canonical_text()),
            !Self::decimal_kind() ==> first_index_of(v.canonical_text(), '.')
                == v.canonical_text().len(),
    ;
}

impl Number for i8 {
    open spec fn decimal_kind() -> bool {
        false
    }

    open spec fn text_value(text: Seq<char>) -> Option<i8> {
        match integer_text_value(text, true) {
            Some(v) => if i8::MIN <= v <= i8::MAX {
                Some(v as i8)
            } else {
                None
            },
            None => None,
        }
    }

    open spec fn canonical_text(self) -> Seq<char> {
        integer_text(self as int)
    }

    open spec fn below(self, other: i8) -> bool {
        self < other
    }

    open spec fn zero_value() -> i8 {
        0
    }

    open spec fn least() -> i8 {
        i8::MIN
    }

    open spec fn greatest() -> i8 {
        i8::MAX
    }

    open spec fn unit() -> i8 {
        1
    }

    fn decimal() -> (r: bool) {
        false
    }

    fn number_min() -> (r: i8) {
        i8::MIN
    }

    fn number_max() -> (r: i8) {
        i8::MAX
    }

    fn number_step() -> (r: i8) {
        1
    }

    fn zero() -> (r: i8) {
        0
    }

    fn parse_text(text: &str) -> (r: Option<i8>) {
        let chars = chars_of(text);
        match parse_signed(&chars, i8::MIN as i128, i8::MAX as i128) {
            Some(v) => Some(v as i8),
            None => None,
        }
    }

    fn to_text(self) -> (r: String) {
        let chars = signed_chars(self as i128);
        text_of(&chars)
    }

    fn less_than(self, other: i8) -> (r: bool) {
        self < other
    }

    proof fn law_below_irreflexive(a: i8) {
    }

    proof fn law_canonical_text_reads_back(v: i8) {
        lemma_integer_text_round_trip(v as int, true);
    }

    proof fn law_canonical_text_is_number(v: i8) {
        lemma_integer_text_is_number(v as int);
    }
}

impl Number for i16 {
    open spec fn decimal_kind() -> bool {
        false
    }

    open spec fn text_value(text: Seq<char>) -> Option<i16> {
        match integer_text_value(text, true) {
            Some(v) => if i16::MIN <= v <= i16::MAX {
                Some(v as i16)
            } else {
                None
            },
            None => None,
        }
    }

    open spec fn canonical_text(self) -> Seq<char> {
        integer_text(self as int)
    }

    open spec fn below(self, other: i16) -> bool {
        self < other
    }

    open spec fn zero_value() -> i16 {
        0
    }

    open spec fn least() -> i16 {
        i16::MIN
    }

    open spec fn greatest() -> i16 {
        i16::MAX
    }

    open spec fn unit() -> i16 {
        1
    }

    fn decimal() -> (r: bool) {
        false
    }

    fn number_min() -> (r: i16) {
        i16::MIN
    }

    fn number_max() -> (r: i16) {
        i16::MAX
    }

    fn number_step() -> (r: i16) {
        1
    }

    fn zero() -> (r: i16) {
        0
    }

    fn parse_text(text: &str) -> (r: Option<i16>) {
        let chars = chars_of(text);
        match parse_signed(&chars, i16::MIN as i128, i16::MAX as i128) {
            Some(v) => Some(v as i16),
            None => None,
        }
    }

    fn to_text(self) -> (r: String) {
        let chars = signed_chars(self as i128);
        text_of(&chars)
    }

    fn less_than(self, other: i16) -> (r: bool) {
        self < other
    }

    proof fn law_below_irreflexive(a: i16) {
    }

    proof fn law_canonical_text_reads_back(v: i16) {
        lemma_integer_text_round_trip(v as int, true);
    }

    proof fn law_canonical_text_is_number(v: i16) {
        lemma_integer_text_is_number(v as int);
    }
}

impl Number for i32 {
    open spec fn decimal_kind() -> bool {
        false
    }

    open spec fn text_value(text: Seq<char>) -> Option<i32> {
        match integer_text_value(text, true) {
            Some(v) => if i32::MIN <= v <= i32::MAX {
                Some(v as i32)
            } else {
                None
            },
            None => None,
        }
    }

    open spec fn canonical_text(self) -> Seq<char> {
        integer_text(self as int)
    }

    open spec fn below(self, other: i32) -> bool {
        self < other
    }

    open spec fn zero_value() -> i32 {
        0
    }

    open spec fn least() -> i32 {
        i32::MIN
    }

    open spec fn greatest() -> i32 {
        i32::MAX
    }

    open spec fn unit() -> i32 {
        1
    }

    fn decimal() -> (r: bool) {
        false
    }

    fn number_min() -> (r: i32) {
        i32::MIN
    }

    fn number_max() -> (r: i32) {
        i32::MAX
    }

    fn number_step() -> (r: i32) {
        1
    }

    fn zero() -> (r: i32) {
        0
    }

    fn parse_text(text: &str) -> (r: Option<i32>) {
        let chars = chars_of(text);
        match parse_signed(&chars, i32::MIN as i128, i32::MAX as i128) {
            Some(v) => Some(v as i32),
            None => None,
        }
    }

    fn to_text(self) -> (r: String) {
        let chars = signed_chars(self as i128);
        text_of(&chars)
    }

    fn less_than(self, other: i32) -> (r: bool) {
        self < other
    }

    proof fn law_below_irreflexive(a: i32) {
    }

    proof fn law_canonical_text_reads_back(v: i32) {
        lemma_integer_text_round_trip(v as int, true);
    }

    proof fn law_canonical_text_is_number(v: i32) {
        lemma_integer_text_is_number(v as int);
    }
}

impl Number for i64 {
    open spec fn decimal_kind() -> bool {
        false
    }

    open spec fn text_value(text: Seq<char>) -> Option<i64> {
        match integer_text_value(text, true) {
            Some(v) => if i64::MIN <= v <= i64::MAX {
                Some(v as i64)
            } else {
                None
            },
            None => None,
        }
    }

    open spec fn canonical_text(self) -> Seq<char> {
        integer_text(self as int)
    }

    open spec fn below(self, other: i64) -> bool {
        self < other
    }

    open spec fn zero_value() -> i64 {
        0
    }

    open spec fn least() -> i64 {
        i64::MIN
    }

    open spec fn greatest() -> i64 {
        i64::MAX
    }

    open spec fn unit() -> i64 {
        1
    }

    fn decimal() -> (r: bool) {
        false
    }

    fn number_min() -> (r: i64) {
        i64::MIN
    }

    fn number_max() -> (r: i64) {
        i64::MAX
    }

    fn number_step() -> (r: i64) {
        1
    }

    fn zero() -> (r: i64) {
        0
    }

    fn parse_text(text: &str) -> (r: Option<i64>) {
        let chars = chars_of(text);
        match parse_signed(&chars, i64::MIN as i128, i64::MAX as i128) {
            Some(v) => Some(v as i64),
            None => None,
        }
    }

    fn to_text(self) -> (r: String) {
        let chars = signed_chars(self as i128);
        text_of(&chars)
    }

    fn less_than(self, other: i64) -> (r: bool) {
        self < other
    }

    proof fn law_below_irreflexive(a: i64) {
    }

    proof fn law_canonical_text_reads_back(v: i64) {
        lemma_integer_text_round_trip(v as int, true);
    }

    proof fn law_canonical_text_is_number(v: i64) {
        lemma_integer_text_is_number(v as int);
    }
}

impl Number for i128 {
    open spec fn decimal_kind() -> bool {
        false
    }

    open spec fn text_value(text: Seq<char>) -> Option<i128> {
        match integer_text_value(text, true) {
            Some(v) => if i128::MIN <= v <= i128::MAX {
                Some(v as i128)
            } else {
                None
            },
            None => None,
        }
    }

    open spec fn canonical_text(self) -> Seq<char> {
        integer_text(self as int)
    }

    open spec fn below(self, other: i128) -> bool {
        self < other
    }

    open spec fn zero_value() -> i128 {
        0
    }

    open spec fn least() -> i128 {
        i128::MIN
    }

    open spec fn greatest() -> i128 {
        i128::MAX
    }

    open spec fn unit() -> i128 {
        1
    }

    fn decimal() -> (r: bool) {
        false
    }

    fn number_min() -> (r: i128) {
        i128::MIN
    }

    fn number_max() -> (r: i128) {
        i128::MAX
    }

    fn number_step() -> (r: i128) {
        1
    }

    fn zero() -> (r: i128) {
        0
    }

    fn parse_text(text: &str) -> (r: Option<i128>) {
        let chars = chars_of(text);
        match parse_signed(&chars, i128::MIN as i128, i128::MAX as i128) {
            Some(v) => Some(v as i128),
            None => None,
        }
    }

    fn to_text(self) -> (r: String) {
        let chars = signed_chars(self as i128);
        text_of(&chars)
    }

    fn less_than(self, other: i128) -> (r: bool) {
        self < other
    }

    proof fn law_below_irreflexive(a: i128) {
    }

    proof fn law_canonical_text_reads_back(v: i128) {
        lemma_integer_text_round_trip(v as int, true);
    }

    proof fn law_canonical_text_is_number(v: i128) {
        lemma_integer_text_is_number(v as int);
    }
}

impl Number for isize {
    open spec fn decimal_kind() -> bool {
        false
    }

    open spec fn text_value(text: Seq<char>) -> Option<isize> {
        match integer_text_value(text, true) {
            Some(v) => if isize::MIN <= v <= isize::MAX {
                Some(v as isize)
            } else {
                None
            },
            None => None,
        }
    }

    open spec fn canonical_text(self) -> Seq<char> {
        integer_text(self as int)
    }

    open spec fn below(self, other: isize) -> bool {
        self < other
    }

    open spec fn zero_value() -> isize {
        0
    }

    open spec fn least() -> isize {
        isize::MIN
    }

    open spec fn greatest() -> isize {
        isize::MAX
    }

    open spec fn unit() -> isize {
        1
    }

    fn decimal() -> (r: bool) {
        false
    }

    fn number_min() -> (r: isize) {
        isize::MIN
    }

    fn number_max() -> (r: isize) {
        isize::MAX
    }

    fn number_step() -> (r: isize) {
        1
    }

    fn zero() -> (r: isize) {
        0
    }

    fn parse_text(text: &str) -> (r: Option<isize>) {
        let chars = chars_of(text);
        match parse_signed(&chars, isize::MIN as i128, isize::MAX as i128) {
            Some(v) => Some(v as isize),
            None => None,
        }
    }

    fn to_text(self) -> (r: String) {
        let chars = signed_chars(self as i128);
        text_of(&chars)
    }

    fn less_than(self, other: isize) -> (r: bool) {
        self < other
    }

    proof fn law_below_irreflexive(a: isize) {
    }

    proof fn law_canonical_text_reads_back(v: isize) {
        lemma_integer_text_round_trip(v as int, true);
    }

    proof fn law_canonical_text_is_number(v: isize) {
        lemma_integer_text_is_number(v as int);
    }
}

impl Number for u8 {
    open spec fn decimal_kind() -> bool {
        false
    }

    open spec fn text_value(text: Seq<char>) -> Option<u8> {
        match integer_text_value(text, false) {
            Some(v) => if u8::MIN <= v <= u8::MAX {
                Some(v as u8)
            } else {
                None
            },
            None => None,
        }
    }

    open spec fn canonical_text(self) -> Seq<char> {
        integer_text(self as int)
    }

    open spec fn below(self, other: u8) -> bool {
        self < other
    }

    open spec fn zero_value() -> u8 {
        0
    }

    open spec fn least() -> u8 {
        u8::MIN
    }

    open spec fn greatest() -> u8 {
        u8::MAX
    }

    open spec fn unit() -> u8 {
        1
    }

    fn decimal() -> (r: bool) {
        false
    }

    fn number_min() -> (r: u8) {
        u8::MIN
    }

    fn number_max() -> (r: u8) {
        u8::MAX
    }

    fn number_step() -> (r: u8) {
        1
    }

    fn zero() -> (r: u8) {
        0
    }

    fn parse_text(text: &str) -> (r: Option<u8>) {
        let chars = chars_of(text);
        match parse_unsigned(&chars, u8::MAX as u128) {
            Some(v) => Some(v as u8),
            None => None,
        }
    }

    fn to_text(self) -> (r: String) {
        let chars = unsigned_chars(self as u128);
        text_of(&chars)
    }

    fn less_than(self, other: u8) -> (r: bool) {
        self < other
    }

    proof fn law_below_irreflexive(a: u8) {
    }

    proof fn law_canonical_text_reads_back(v: u8) {
        lemma_integer_text_round_trip(v as int, false);
    }

    proof fn law_canonical_text_is_number(v: u8) {
        lemma_integer_text_is_number(v as int);
    }
}

impl Number for u16 {
    open spec fn decimal_kind() -> bool {
        false
    }

    open spec fn text_value(text: Seq<char>) -> Option<u16> {
        match integer_text_value(text, false) {
            Some(v) => if u16::MIN <= v <= u16::MAX {
                Some(v as u16)
            } else {
                None
            },
            None => None,
        }
    }

    open spec fn canonical_text(self) -> Seq<char> {
        integer_text(self as int)
    }

    open spec fn below(self, other: u16) -> bool {
        self < other
    }

    open spec fn zero_value() -> u16 {
        0
    }

    open spec fn least() -> u16 {
        u16::MIN
    }

    open spec fn greatest() -> u16 {
        u16::MAX
    }

    open spec fn unit() -> u16 {
        1
    }

    fn decimal() -> (r: bool) {
        false
    }

    fn number_min() -> (r: u16) {
        u16::MIN
    }

    fn number_max() -> (r: u16) {
        u16::MAX
    }

    fn number_step() -> (r: u16) {
        1
    }

    fn zero() -> (r: u16) {
        0
    }

    fn parse_text(text: &str) -> (r: Option<u16>) {
        let chars = chars_of(text);
        match parse_unsigned(&chars, u16::MAX as u128) {
            Some(v) => Some(v as u16),
            None => None,
        }
    }

    fn to_text(self) -> (r: String) {
        let chars = unsigned_chars(self as u128);
        text_of(&chars)
    }

    fn less_than(self, other: u16) -> (r: bool) {
        self < other
    }

    proof fn law_below_irreflexive(a: u16) {
    }

    proof fn law_canonical_text_reads_back(v: u16) {
        lemma_integer_text_round_trip(v as int, false);
    }

    proof fn law_canonical_text_is_number(v: u16) {
        lemma_integer_text_is_number(v as int);
    }
}

impl Number for u32 {
    open spec fn decimal_kind() -> bool {
        false
    }

    open spec fn text_value(text: Seq<char>) -> Option<u32> {
        match integer_text_value(text, false) {
            Some(v) => if u32::MIN <= v <= u32::MAX {
                Some(v as u32)
            } else {
                None
            },
            None => None,
        }
    }

    open spec fn canonical_text(self) -> Seq<char> {
        integer_text(self as int)
    }

    open spec fn below(self, other: u32) -> bool {
        self < other
    }

    open spec fn zero_value() -> u32 {
        0
    }

    open spec fn least() -> u32 {
        u32::MIN
    }

    open spec fn greatest() -> u32 {
        u32::MAX
    }

    open spec fn unit() -> u32 {
        1
    }

    fn decimal() -> (r: bool) {
        false
    }

    fn number_min() -> (r: u32) {
        u32::MIN
    }

    fn number_max() -> (r: u32) {
        u32::MAX
    }

    fn number_step() -> (r: u32) {
        1
    }

    fn zero() -> (r: u32) {
        0
    }

    fn parse_text(text: &str) -> (r: Option<u32>) {
        let chars = chars_of(text);
        match parse_unsigned(&chars, u32::MAX as u128) {
            Some(v) => Some(v as u32),
            None => None,
        }
    }

    fn to_text(self) -> (r: String) {
        let chars = unsigned_chars(self as u128);
        text_of(&chars)
    }

    fn less_than(self, other: u32) -> (r: bool) {
        self < other
    }

    proof fn law_below_irreflexive(a: u32) {
    }

    proof fn law_canonical_text_reads_back(v: u32) {
        lemma_integer_text_round_trip(v as int, false);
    }

    proof fn law_canonical_text_is_number(v: u32) {
        lemma_integer_text_is_number(v as int);
    }
}

impl Number for u64 {
    open spec fn decimal_kind() -> bool {
        false
    }

    open spec fn text_value(text: Seq<char>) -> Option<u64> {
        match integer_text_value(text, false) {
            Some(v) => if u64::MIN <= v <= u64::MAX {
                Some(v as u64)
            } else {
                None
            },
            None => None,
        }
    }

    open spec fn canonical_text(self) -> Seq<char> {
        integer_text(self as int)
    }

    open spec fn below(self, other: u64) -> bool {
        self < other
    }

    open spec fn zero_value() -> u64 {
        0
    }

    open spec fn least() -> u64 {
        u64::MIN
    }

    open spec fn greatest() -> u64 {
        u64::MAX
    }

    open spec fn unit() -> u64 {
        1
    }

    fn decimal() -> (r: bool) {
        false
    }

    fn number_min() -> (r: u64) {
        u64::MIN
    }

    fn number_max() -> (r: u64) {
        u64::MAX
    }

    fn number_step() -> (r: u64) {
        1
    }

    fn zero() -> (r: u64) {
        0
    }

    fn parse_text(text: &str) -> (r: Option<u64>) {
        let chars = chars_of(text);
        match parse_unsigned(&chars, u64::MAX as u128) {
            Some(v) => Some(v as u64),
            None => None,
        }
    }

    fn to_text(self) -> (r: String) {
        let chars = unsigned_chars(self as u128);
        text_of(&chars)
    }

    fn less_than(self, other: u64) -> (r: bool) {
        self < other
    }

    proof fn law_below_irreflexive(a: u64) {
    }

    proof fn law_canonical_text_reads_back(v: u64) {
        lemma_integer_text_round_trip(v as int, false);
    }

    proof fn law_canonical_text_is_number(v: u64) {
        lemma_integer_text_is_number(v as int);
    }
}

impl Number for u128 {
    open spec fn decimal_kind() -> bool {
        false
    }

    open spec fn text_value(text: Seq<char>) -> Option<u128> {
        match integer_text_value(text, false) {
            Some(v) => if u128::MIN <= v <= u128::MAX {
                Some(v as u128)
            } else {
                None
            },
            None => None,
        }
    }

    open spec fn canonical_text(self) -> Seq<char> {
        integer_text(self as int)
    }

    open spec fn below(self, other: u128) -> bool {
        self < other
    }

    open spec fn zero_value() -> u128 {
        0
    }

    open spec fn least() -> u128 {
        u128::MIN
    }

    open spec fn greatest() -> u128 {
        u128::MAX
    }

    open spec fn unit() -> u128 {
        1
    }

    fn decimal() -> (r: bool) {
        false
    }

    fn number_min() -> (r: u128) {
        u128::MIN
    }

    fn number_max() -> (r: u128) {
        u128::MAX
    }

    fn number_step() -> (r: u128) {
        1
    }

    fn zero() -> (r: u128) {
        0
    }

    fn parse_text(text: &str) -> (r: Option<u128>) {
        let chars = chars_of(text);
        match parse_unsigned(&chars, u128::MAX as u128) {
            Some(v) => Some(v as u128),
            None => None,
        }
    }

    fn to_text(self) -> (r: String) {
        let chars = unsigned_chars(self as u128);
        text_of(&chars)
    }

    fn less_than(self, other: u128) -> (r: bool) {
        self < other
    }

    proof fn law_below_irreflexive(a: u128) {
    }

    proof fn law_canonical_text_reads_back(v: u128) {
        lemma_integer_text_round_trip(v as int, false);
    }

    proof fn law_canonical_text_is_number(v: u128) {
        lemma_integer_text_is_number(v as int);
    }
}

impl Number for usize {
    open spec fn decimal_kind() -> bool {
        false
    }

    open spec fn text_value(text: Seq<char>) -> Option<usize> {
        match integer_text_value(text, false) {
            Some(v) => if usize::MIN <= v <= usize::MAX {
                Some(v as usize)
            } else {
                None
            },
            None => None,
        }
    }

    open spec fn canonical_text(self) -> Seq<char> {
        integer_text(self as int)
    }

    open spec fn below(self, other: usize) -> bool {
        self < other
    }

    open spec fn zero_value() -> usize {
        0
    }

    open spec fn least() -> usize {
        usize::MIN
    }

    open spec fn greatest() -> usize {
        usize::MAX
    }

    open spec fn unit() -> usize {
        1
    }

    fn decimal() -> (r: bool) {
        false
    }

    fn number_min() -> (r: usize) {
        usize::MIN
    }

    fn number_max() -> (r: usize) {
        usize::MAX
    }

    fn number_step() -> (r: usize) {
        1
    }

    fn zero() -> (r: usize) {
        0
    }

    fn parse_text(text: &str) -> (r: Option<usize>) {
        let chars = chars_of(text);
        match parse_unsigned(&chars, usize::MAX as u128) {
            Some(v) => Some(v as usize),
            None => None,
        }
    }

    fn to_text(self) -> (r: String) {
        let chars = unsigned_chars(self as u128);
        text_of(&chars)
    }

    fn less_than(self, other: usize) -> (r: bool) {
        self < other
    }

    proof fn law_below_irreflexive(a: usize) {
    }

    proof fn law_canonical_text_reads_back(v: usize) {
        lemma_integer_text_round_trip(v as int, false);
    }

    proof fn law_canonical_text_is_number(v: usize) {
        lemma_integer_text_is_number(v as int);
    }
}

} // verus!
