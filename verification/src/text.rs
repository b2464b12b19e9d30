//! Characters: the facts that come from outside this crate, and the small
//! verified helpers built on them. The whitespace class is written out; the
//! letters and digits beyond ASCII and the character folding of the
//! `tokenizers` crate are only named, and the three functions that call out
//! are trusted. Everything else in the crate is proved on top of their
//! contracts.

use vstd::prelude::*;
use tokenizers::normalizers::BertNormalizer;
use tokenizers::{NormalizedString, Normalizer};

verus! {

/// The Unicode `White_Space` property: the ASCII space and the controls from
/// tab to carriage return, next line, the no-break spaces, the Ogham space
/// mark, the spaces of the general punctuation block, the line and paragraph
/// separators, and the ideographic space.
pub open spec fn unicode_whitespace(c: char) -> bool {
    let n: u32 = c as u32;
    ||| 0x09 <= n <= 0x0D
    ||| n == 0x20
    ||| n == 0x85
    ||| n == 0xA0
    ||| n == 0x1680
    ||| 0x2000 <= n <= 0x200A
    ||| n == 0x2028
    ||| n == 0x2029
    ||| n == 0x202F
    ||| n == 0x205F
    ||| n == 0x3000
}

/// Whether `char::is_alphanumeric` holds of `c`.
pub uninterp spec fn unicode_alphanumeric(c: char) -> bool;

/// Whether `c` is an ASCII character.
pub open spec fn is_ascii(c: char) -> bool {
    (c as u32) < 0x80
}

/// The ASCII letters and digits.
pub open spec fn ascii_alphanumeric(c: char) -> bool {
    let n: u32 = c as u32;
    ||| 0x30 <= n <= 0x39
    ||| 0x41 <= n <= 0x5A
    ||| 0x61 <= n <= 0x7A
}

/// Whether a character is a letter or a digit: written out on ASCII, the
/// named Unicode class beyond it.
pub open spec fn alphanumeric(c: char) -> bool {
    if is_ascii(c) {
        ascii_alphanumeric(c)
    } else {
        unicode_alphanumeric(c)
    }
}

/// The characters that the default `BertNormalizer` of `tokenizers` leaves of
/// a text: control characters removed, whitespace replaced by a plain space,
/// CJK ideographs surrounded by spaces, accents stripped, and lowercased.
pub uninterp spec fn bert_folded(text: Seq<char>) -> Seq<char>;

/// Calls `char::is_whitespace`. Trusted: the result is the Unicode
/// `White_Space` property of `c`, as `unicode_whitespace` lists it.
#[verifier::external_body]
pub(crate) fn is_whitespace(c: char) -> (r: bool)
    ensures
        r == unicode_whitespace(c),
{
    c.is_whitespace()
}

/// Calls `char::is_alphanumeric`. Trusted: the result says whether `c` is a
/// Unicode letter or digit, which this crate only names; and among the ASCII
/// characters those are the letters `A` to `Z` and `a` to `z` and the digits
/// `0` to `9` and no others.
#[verifier::external_body]
pub(crate) fn is_alphanumeric(c: char) -> (r: bool)
    ensures
        r == unicode_alphanumeric(c),
        is_ascii(c) ==> r == ascii_alphanumeric(c),
{
    c.is_alphanumeric()
}

/// Calls `BertNormalizer::default().normalize` of `tokenizers` on `text` and
/// hands back the characters it leaves. Trusted: the normalizer reports
/// success on every text, as every path of its source does, and the result
/// is then `bert_folded` of the text. An error, which the signature of the
/// normalizer allows, would come back as `None`.
#[verifier::external_body]
pub(crate) fn fold_text(text: &str) -> (r: Option<Vec<char>>)
    ensures
        r is Some,
        r matches Some(v) ==> v@ == bert_folded(text@),
{
    let mut normalized = NormalizedString::from(text);
    match BertNormalizer::default().normalize(&mut normalized) {
        Ok(()) => Some(normalized.get().chars().collect()),
        Err(_) => None,
    }
}

/// The three kinds of character that word splitting tells apart.
#[derive(Clone, Copy, Debug, PartialEq, Eq, Structural)]
pub enum CharClass {
    /// Whitespace: separates words and is dropped.
    Space,
    /// A letter or a digit: part of a word.
    Word,
    /// Anything else: a word of its own.
    Punct,
}

/// The class of a character: whitespace first, then letters and digits, and
/// punctuation for everything that is neither.
pub open spec fn class_of(c: char) -> CharClass {
    if unicode_whitespace(c) {
        CharClass::Space
    } else if alphanumeric(c) {
        CharClass::Word
    } else {
        CharClass::Punct
    }
}

/// Classifies one character.
pub fn classify(c: char) -> (r: CharClass)
    ensures
        r == class_of(c),
{
    if is_whitespace(c) {
        CharClass::Space
    } else if is_alphanumeric(c) {
        CharClass::Word
    } else {
        CharClass::Punct
    }
}

/// The characters of a string slice, in order.
pub fn chars_of(s: &str) -> (r: Vec<char>)
    ensures
        r@ == s@,
{
    let n: usize = s.unicode_len();
    let mut out: Vec<char> = Vec::new();
    let mut i: usize = 0;
    while i < n
        invariant
            n == s@.len(),
            i <= n,
            out@ == s@.take(i as int),
        decreases n - i,
    {
        out.push(s.get_char(i));
        i += 1;
        assert(out@ =~= s@.take(i as int));
    }
    assert(s@.take(n as int) =~= s@);
    out
}

/// Whether two character sequences are the same.
pub fn same_chars(a: &Vec<char>, b: &Vec<char>) -> (r: bool)
    ensures
        r == (a@ == b@),
{
    if a.len() != b.len() {
        return false;
    }
    let mut i: usize = 0;
    while i < a.len()
        invariant
            a.len() == b.len(),
            i <= a.len(),
            a@.take(i as int) == b@.take(i as int),
        decreases a.len() - i,
    {
        if a[i] != b[i] {
            assert(a@.take(i as int + 1)[i as int] != b@.take(i as int + 1)[i as int]);
            assert(a@[i as int] != b@[i as int]);
            return false;
        }
        i += 1;
        assert(a@.take(i as int) =~= a@.take(i - 1).push(a@[i - 1]));
        assert(b@.take(i as int) =~= b@.take(i - 1).push(b@[i - 1]));
    }
    assert(a@.take(a.len() as int) =~= a@);
    assert(b@.take(b.len() as int) =~= b@);
    true
}

/// Whether character folding leaves a text as it is.
pub fn is_folded(text: &str) -> (r: bool)
    ensures
        r == (bert_folded(text@) == text@),
{
    let plain = chars_of(text);
    match fold_text(text) {
        Some(folded) => same_chars(&folded, &plain),
        None => false,
    }
}

/// The plain space is whitespace, and the marker character `#` is
/// punctuation.
pub proof fn lemma_class_of_space_and_marker()
    ensures
        class_of(' ') == CharClass::Space,
        class_of('#') == CharClass::Punct,
{
}

} // verus!
