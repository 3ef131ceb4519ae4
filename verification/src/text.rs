//! Character and string primitives of std that the rest of the crate builds on.

use vstd::prelude::*;

verus! {

/// Appends one character to a `String` (`String::push`).
#[verifier::external_body]
pub fn push_char(s: &mut String, c: char)
    ensures
        final(s)@ == old(s)@.push(c),
{
    s.push(c);
}

/// The characters of a string slice, in order (`str::chars`, collected).
#[verifier::external_body]
pub fn chars_of(s: &str) -> (r: Vec<char>)
    ensures
        r@ == s@,
{
    s.chars().collect()
}

/// The characters of `cs` from `a` up to `b`, as a `String`.
pub fn string_of(cs: &Vec<char>, a: usize, b: usize) -> (r: String)
    requires
        a <= b <= cs@.len(),
    ensures
        r@ == cs@.subrange(a as int, b as int),
{
    let mut r = String::new();
    let mut i: usize = a;
    while i < b
        invariant
            a <= i <= b <= cs@.len(),
            r@ == cs@.subrange(a as int, i as int),
        decreases b - i,
    {
        push_char(&mut r, cs[i]);
        i = i + 1;
        assert(r@ =~= cs@.subrange(a as int, i as int));
    }
    r
}

/// Whether `c` has the Unicode `White_Space` property, which `char::is_whitespace`
/// tests: U+0009 to U+000D, U+0020, U+0085, U+00A0, U+1680, U+2000 to U+200A, U+2028,
/// U+2029, U+202F, U+205F and U+3000.
pub open spec fn is_white_space(c: char) -> bool {
    let u = c as u32;
    ||| 0x09 <= u <= 0x0D
    ||| u == 0x20
    ||| u == 0x85
    ||| u == 0xA0
    ||| u == 0x1680
    ||| 0x2000 <= u <= 0x200A
    ||| u == 0x2028
    ||| u == 0x2029
    ||| u == 0x202F
    ||| u == 0x205F
    ||| u == 0x3000
}

/// Whether `c` has the `White_Space` property, as `char::is_whitespace` answers it.
pub fn char_is_whitespace(c: char) -> (b: bool)
    ensures
        b == is_white_space(c),
{
    let u = c as u32;
    (0x09 <= u && u <= 0x0D) || u == 0x20 || u == 0x85 || u == 0xA0 || u == 0x1680 || (0x2000 <= u
        && u <= 0x200A) || u == 0x2028 || u == 0x2029 || u == 0x202F || u == 0x205F || u == 0x3000
}

/// The ASCII punctuation characters, as `char::is_ascii_punctuation` documents them:
/// `! " # $ % & ' ( ) * + , - . /`, `: ; < = > ? @`, `[ \ ] ^ _ \``, `{ | } ~`.
pub open spec fn is_ascii_punct(c: char) -> bool {
    let u = c as u32;
    (0x21 <= u <= 0x2F) || (0x3A <= u <= 0x40) || (0x5B <= u <= 0x60) || (0x7B <= u <= 0x7E)
}

/// Whether `c` is ASCII punctuation, as `char::is_ascii_punctuation` answers it.
pub fn char_is_ascii_punctuation(c: char) -> (b: bool)
    ensures
        b == is_ascii_punct(c),
{
    let u = c as u32;
    (0x21 <= u && u <= 0x2F) || (0x3A <= u && u <= 0x40) || (0x5B <= u && u <= 0x60) || (0x7B <= u && u <= 0x7E)
}

/// The character at index `i` of `cs`, if there is one.
pub open spec fn char_at(cs: Seq<char>, i: int) -> Option<char> {
    if 0 <= i < cs.len() {
        Some(cs[i])
    } else {
        None
    }
}

/// How many characters lie at and after `pos`.
pub open spec fn remaining(cs: Seq<char>, pos: int) -> nat {
    if 0 <= pos < cs.len() {
        (cs.len() - pos) as nat
    } else {
        0
    }
}

/// The characters of `cs` from `a` up to `b`, or nothing where that is no range of `cs`.
pub open spec fn slice(cs: Seq<char>, a: int, b: int) -> Seq<char> {
    if 0 <= a <= b <= cs.len() {
        cs.subrange(a, b)
    } else {
        seq![]
    }
}

/// The first position from `i` on at which `stop` holds, or the end of `cs` (or `i`
/// itself, when `i` is past the end).
pub open spec fn scan(cs: Seq<char>, i: int, stop: spec_fn(int) -> bool) -> int
    decreases cs.len() - i,
{
    if i >= cs.len() || stop(i) {
        i
    } else {
        scan(cs, i + 1, stop)
    }
}

/// What a scan finds: no stop before the result, a stop at it unless it is the end.
pub proof fn lemma_scan(cs: Seq<char>, i: int, stop: spec_fn(int) -> bool)
    ensures
        i <= scan(cs, i, stop),
        i <= cs.len() ==> scan(cs, i, stop) <= cs.len(),
        i >= cs.len() ==> scan(cs, i, stop) == i,
        forall|j: int| i <= j < scan(cs, i, stop) ==> j < cs.len() && !#[trigger] stop(j),
        scan(cs, i, stop) < cs.len() ==> stop(scan(cs, i, stop)),
    decreases cs.len() - i,
{
    if i < cs.len() && !stop(i) {
        lemma_scan(cs, i + 1, stop);
    }
}

/// The text that `str::to_lowercase` makes of `s`; a function of `s` alone.
pub uninterp spec fn lowercase(s: Seq<char>) -> Seq<char>;

/// `str::to_lowercase`.
#[verifier::external_body]
pub fn to_lowercase(s: &str) -> (r: String)
    ensures
        r@ == lowercase(s@),
{
    s.to_lowercase()
}

/// The text that `str::to_uppercase` makes of `s`; a function of `s` alone.
pub uninterp spec fn uppercase(s: Seq<char>) -> Seq<char>;

/// `str::to_uppercase`.
#[verifier::external_body]
pub fn to_uppercase(s: &str) -> (r: String)
    ensures
        r@ == uppercase(s@),
{
    s.to_uppercase()
}

/// The first character of what `char::to_lowercase` makes of `c`; a function of `c` alone.
pub uninterp spec fn lower_first(c: char) -> char;

/// `char::to_lowercase(c).next()`: the iterator yields at least one character.
#[verifier::external_body]
pub fn char_lower_first(c: char) -> (r: char)
    ensures
        r == lower_first(c),
{
    c.to_lowercase().next().unwrap()
}

/// `String::from_utf8`: the text that valid UTF-8 bytes encode; the error otherwise.
#[verifier::external_body]
pub fn string_from_utf8(bytes: Vec<u8>) -> (r: Result<String, std::string::FromUtf8Error>)
    ensures
        r is Ok <==> vstd::utf8::valid_utf8(bytes@),
        r matches Ok(s) ==> s@ == vstd::utf8::decode_utf8(bytes@),
{
    String::from_utf8(bytes)
}

/// Decoding UTF-8 gives at most one character per byte.
pub proof fn lemma_decode_len(bytes: Seq<u8>)
    requires
        vstd::utf8::valid_utf8(bytes),
    ensures
        vstd::utf8::decode_utf8(bytes).len() <= bytes.len(),
    decreases bytes.len(),
{
    if bytes.len() != 0 {
        let n = vstd::utf8::length_of_first_scalar(bytes);
        assert(1 <= n <= bytes.len());
        let rest = vstd::utf8::pop_first_scalar(bytes);
        assert(rest.len() == bytes.len() - n);
        lemma_decode_len(rest);
    }
}

} // verus!
