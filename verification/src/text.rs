//! Texts as sequences of characters.
//!
//! The engines of this crate read and build texts character by character.
//! They do so on `Vec<char>`; the two conversions here connect that form to
//! `&str` and `String`.

use vstd::prelude::*;

verus! {

/// Appends one character to a `String`.
///
/// Trusted: `String::push` of the standard library, which appends the given
/// character to the end of the string.
#[verifier::external_body]
pub(crate) fn push_char(text: &mut String, c: char)
    ensures
        final(text)@ == old(text)@.push(c),
{
    text.push(c);
}

/// The characters of `text`, in order.
pub fn chars_of(text: &str) -> (chars: Vec<char>)
    ensures
        chars@ == text@,
{
    let mut chars: Vec<char> = Vec::new();
    for c in it: text.chars()
        invariant
            it.seq() == text@,
            chars@ == text@.take(it.index()),
    {
        chars.push(c);
    }
    chars
}

/// The text made of `chars`, in order.
pub fn text_of(chars: &Vec<char>) -> (text: String)
    ensures
        text@ == chars@,
{
    let mut text = String::new();
    let mut i: usize = 0;
    while i < chars.len()
        invariant
            i <= chars.len(),
            text@ == chars@.take(i as int),
        decreases chars.len() - i,
    {
        push_char(&mut text, chars[i]);
        i += 1;
    }
    text
}

/// `count` zeros.
pub open spec fn zeros(count: nat) -> Seq<char> {
    Seq::new(count, |i: int| '0')
}

/// `text` filled up with zeros on the left to `width` characters. A text of
/// that width or more is unchanged.
pub open spec fn padded(text: Seq<char>, width: nat) -> Seq<char> {
    if text.len() < width {
        zeros((width - text.len()) as nat) + text
    } else {
        text
    }
}

/// The last `width` characters of `text`; all of it where it holds no more.
pub open spec fn last_chars(text: Seq<char>, width: nat) -> Seq<char> {
    if text.len() <= width {
        text
    } else {
        text.skip(text.len() - width)
    }
}

/// Fills `chars` up with zeros on the left to `width` characters.
pub fn pad_left(chars: &Vec<char>, width: usize) -> (r: Vec<char>)
    ensures
        r@ == padded(chars@, width as nat),
{
    let n = chars.len();
    let mut r: Vec<char> = Vec::new();
    if n < width {
        let mut i: usize = 0;
        while i < width - n
            invariant
                n < width,
                i <= width - n,
                r@ == zeros(i as nat),
            decreases width - n - i,
        {
            r.push('0');
            i += 1;
            proof {
                assert(r@ =~= zeros(i as nat));
            }
        }
    }
    let mut j: usize = 0;
    let ghost fill = r@;
    while j < chars.len()
        invariant
            j <= chars.len(),
            r@ == fill + chars@.take(j as int),
        decreases chars.len() - j,
    {
        r.push(chars[j]);
        j += 1;
        proof {
            assert(r@ =~= fill + chars@.take(j as int));
        }
    }
    proof {
        assert(chars@.take(chars.len() as int) =~= chars@);
        if n >= width {
            assert(fill + chars@ =~= chars@);
        }
    }
    r
}

/// Keeps the last `width` characters of `chars`.
pub fn keep_last(chars: &Vec<char>, width: usize) -> (r: Vec<char>)
    ensures
        r@ == last_chars(chars@, width as nat),
{
    let n = chars.len();
    let start: usize = if n <= width {
        0
    } else {
        n - width
    };
    let mut r: Vec<char> = Vec::new();
    let mut j: usize = start;
    while j < n
        invariant
            start <= j <= n,
            n == chars.len(),
            r@ == chars@.subrange(start as int, j as int),
        decreases n - j,
    {
        r.push(chars[j]);
        j += 1;
        proof {
            assert(r@ =~= chars@.subrange(start as int, j as int));
        }
    }
    proof {
        assert(chars@.subrange(start as int, n as int) =~= last_chars(chars@, width as nat));
    }
    r
}

} // verus!
