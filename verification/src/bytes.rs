//! Byte classes and byte patterns of the source language.
//!
//! Source text is read one byte at a time. Every byte that the grammar gives
//! a meaning to is ASCII; any other byte is carried along as text that no
//! rule recognises.

use vstd::prelude::*;

verus! {

/// The space.
pub const SPACE: u8 = 32;

/// `(`
pub const OPEN_PAREN: u8 = 40;

/// `)`
pub const CLOSE_PAREN: u8 = 41;

/// `,`
pub const COMMA: u8 = 44;

/// `;`
pub const SEMICOLON: u8 = 59;

/// `=`
pub const EQUALS: u8 = 61;

/// `{`
pub const OPEN_BRACE: u8 = 123;

/// `}`
pub const CLOSE_BRACE: u8 = 125;

/// `A`–`Z` or `a`–`z`.
pub open spec fn is_letter(byte: u8) -> bool {
    (65 <= byte <= 90) || (97 <= byte <= 122)
}

/// A byte that may stand in the name of a gate: a letter, or one of the
/// separators `,` and space.
pub open spec fn is_name_byte(byte: u8) -> bool {
    is_letter(byte) || byte == COMMA || byte == SPACE
}

/// `0`–`9`.
pub open spec fn is_digit(byte: u8) -> bool {
    48 <= byte <= 57
}

/// Every byte of `text` may stand in the name of a gate.
pub open spec fn all_name_bytes(text: Seq<u8>) -> bool {
    forall|i: int| 0 <= i < text.len() ==> is_name_byte(#[trigger] text[i])
}

/// Every byte of `text` is a digit.
pub open spec fn all_digits(text: Seq<u8>) -> bool {
    forall|i: int| 0 <= i < text.len() ==> is_digit(#[trigger] text[i])
}

/// The keyword that opens a gate header, with the space that follows it: `Gate `.
pub open spec fn gate_keyword() -> Seq<u8> {
    seq![71u8, 97u8, 116u8, 101u8, 32u8]
}

/// The keyword `in`.
pub open spec fn input_keyword() -> Seq<u8> {
    seq![105u8, 110u8]
}

/// The keyword `out`.
pub open spec fn output_keyword() -> Seq<u8> {
    seq![111u8, 117u8, 116u8]
}

/// The keyword `let`.
pub open spec fn declare_keyword() -> Seq<u8> {
    seq![108u8, 101u8, 116u8]
}

/// The bytes of `text` read as characters, each byte being the code of one
/// character.
pub open spec fn chars_of(text: Seq<u8>) -> Seq<char> {
    Seq::new(text.len(), |i: int| text[i] as char)
}

/// The characters of `text` as bytes: the inverse of [`chars_of`].
pub open spec fn bytes_of(text: Seq<char>) -> Seq<u8> {
    Seq::new(text.len(), |i: int| text[i] as u8)
}

/// `pattern` stands in `text` at index `at`.
pub open spec fn occurs_at(text: Seq<u8>, pattern: Seq<u8>, at: int) -> bool {
    &&& 0 <= at
    &&& at + pattern.len() <= text.len()
    &&& text.subrange(at, at + pattern.len()) == pattern
}

/// `pattern` stands somewhere in `text`.
pub open spec fn occurs_in(text: Seq<u8>, pattern: Seq<u8>) -> bool {
    exists|at: int| occurs_at(text, pattern, at)
}

/// `text` ends with `pattern`.
pub open spec fn ends_with(text: Seq<u8>, pattern: Seq<u8>) -> bool {
    occurs_at(text, pattern, text.len() - pattern.len())
}

/// The least index from `from` on at which `pattern` stands in `text`.
pub open spec fn first_occurrence(text: Seq<u8>, pattern: Seq<u8>, from: int) -> Option<int>
    decreases text.len() - from,
{
    if from < 0 || from + pattern.len() > text.len() {
        None
    } else if occurs_at(text, pattern, from) {
        Some(from)
    } else if from >= text.len() {
        None
    } else {
        first_occurrence(text, pattern, from + 1)
    }
}

/// Where the longest suffix of `text` that `accepts` holds of starts, looking
/// from `from` on: the least such index.
pub open spec fn longest_suffix(
    text: Seq<u8>,
    accepts: spec_fn(Seq<u8>) -> bool,
    from: int,
) -> Option<int>
    decreases text.len() - from,
{
    if from < 0 || from > text.len() {
        None
    } else if accepts(text.subrange(from, text.len() as int)) {
        Some(from)
    } else if from >= text.len() {
        None
    } else {
        longest_suffix(text, accepts, from + 1)
    }
}

/// Every byte of `text` from `lo` up to `hi` is a digit.
pub open spec fn digits_between(text: Seq<u8>, lo: int, hi: int) -> bool {
    forall|k: int| lo <= k < hi ==> is_digit(#[trigger] text[k])
}

/// Every byte of `text` from `lo` up to `hi` is a letter.
pub open spec fn letters_between(text: Seq<u8>, lo: int, hi: int) -> bool {
    forall|k: int| lo <= k < hi ==> is_letter(#[trigger] text[k])
}

/// Some byte of `text` from `lo` up to `hi` is a letter.
pub open spec fn letter_between(text: Seq<u8>, lo: int, hi: int) -> bool {
    exists|k: int| lo <= k < hi && is_letter(#[trigger] text[k])
}

/// Every byte of `text` is a letter.
pub open spec fn all_letters(text: Seq<u8>) -> bool {
    letters_between(text, 0, text.len() as int)
}

/// Some byte of `text` is a letter.
pub open spec fn has_letter(text: Seq<u8>) -> bool {
    letter_between(text, 0, text.len() as int)
}

/// Every byte of `text` from `lo` up to `hi` may stand in the name of a
/// gate.
pub open spec fn name_bytes_between(text: Seq<u8>, lo: int, hi: int) -> bool {
    forall|k: int| lo <= k < hi ==> is_name_byte(#[trigger] text[k])
}

/// Whether `byte` is a letter.
pub fn letter(byte: u8) -> (yes: bool)
    ensures
        yes == is_letter(byte),
{
    (byte >= 65 && byte <= 90) || (byte >= 97 && byte <= 122)
}

/// Whether `byte` may stand in the name of a gate.
pub fn name_byte(byte: u8) -> (yes: bool)
    ensures
        yes == is_name_byte(byte),
{
    letter(byte) || byte == COMMA || byte == SPACE
}

/// Whether `byte` is a digit.
pub fn digit(byte: u8) -> (yes: bool)
    ensures
        yes == is_digit(byte),
{
    byte >= 48 && byte <= 57
}

/// What [`first_occurrence`] returns is an occurrence with none before it
/// from `from` on, and it returns `None` only where there is none.
pub proof fn lemma_first_occurrence(text: Seq<u8>, pattern: Seq<u8>, from: int)
    requires
        0 <= from,
    ensures
        match first_occurrence(text, pattern, from) {
            Some(at) => from <= at && occurs_at(text, pattern, at) && forall|j: int|
                from <= j < at ==> !occurs_at(text, pattern, j),
            None => forall|j: int| from <= j ==> !occurs_at(text, pattern, j),
        },
    decreases text.len() - from,
{
    if from + pattern.len() > text.len() {
    } else if occurs_at(text, pattern, from) {
    } else if from >= text.len() {
    } else {
        lemma_first_occurrence(text, pattern, from + 1);
    }
}

/// What [`longest_suffix`] returns is the start of a suffix that `accepts`
/// holds of, with none longer from `from` on, and it returns `None` only
/// where there is none.
pub proof fn lemma_longest_suffix(text: Seq<u8>, accepts: spec_fn(Seq<u8>) -> bool, from: int)
    requires
        0 <= from,
    ensures
        match longest_suffix(text, accepts, from) {
            Some(at) => from <= at <= text.len() && accepts(text.subrange(at, text.len() as int))
                && forall|j: int|
                from <= j < at ==> !accepts(#[trigger] text.subrange(j, text.len() as int)),
            None => forall|j: int|
                from <= j <= text.len() ==> !accepts(
                    #[trigger] text.subrange(j, text.len() as int),
                ),
        },
    decreases text.len() - from,
{
    if from > text.len() {
    } else if accepts(text.subrange(from, text.len() as int)) {
    } else if from >= text.len() {
    } else {
        lemma_longest_suffix(text, accepts, from + 1);
    }
}

/// What stands in a text stands in every text that it starts.
pub proof fn lemma_occurs_in_longer(front: Seq<u8>, input: Seq<u8>, pattern: Seq<u8>, at: int)
    requires
        front.len() <= input.len(),
        front == input.take(front.len() as int),
        occurs_at(front, pattern, at),
    ensures
        occurs_at(input, pattern, at),
{
    assert(input.subrange(at, at + pattern.len()) =~= front.subrange(at, at + pattern.len()));
}

/// A text that ends with a pattern ends with the pattern's last byte.
pub proof fn lemma_ends_with_last(text: Seq<u8>, pattern: Seq<u8>)
    requires
        pattern.len() > 0,
        ends_with(text, pattern),
    ensures
        text.len() >= pattern.len(),
        text.last() == pattern.last(),
{
    let n = text.len() as int;
    let m = pattern.len() as int;
    assert(text.subrange(n - m, n)[m - 1] == text[n - 1]);
}

/// A pattern of one byte ends `text` exactly where it is the last byte.
pub proof fn lemma_ends_with_1(text: Seq<u8>, a: u8)
    ensures
        ends_with(text, seq![a]) <==> text.len() >= 1 && text[text.len() - 1] == a,
{
    let n = text.len() as int;
    if n >= 1 {
        let tail = text.subrange(n - 1, n);
        if text[n - 1] == a {
            assert(tail =~= seq![a]);
        }
        if ends_with(text, seq![a]) {
            assert(tail[0] == a);
        }
    }
}

/// A pattern of two bytes ends `text` exactly where they are its last two.
pub proof fn lemma_ends_with_2(text: Seq<u8>, a: u8, b: u8)
    ensures
        ends_with(text, seq![a, b]) <==> text.len() >= 2 && text[text.len() - 2] == a
            && text[text.len() - 1] == b,
{
    let n = text.len() as int;
    if n >= 2 {
        let tail = text.subrange(n - 2, n);
        if text[n - 2] == a && text[n - 1] == b {
            assert(tail =~= seq![a, b]);
        }
        if ends_with(text, seq![a, b]) {
            assert(tail[0] == a && tail[1] == b);
        }
    }
}

/// A pattern of three bytes ends `text` exactly where they are its last three.
pub proof fn lemma_ends_with_3(text: Seq<u8>, a: u8, b: u8, c: u8)
    ensures
        ends_with(text, seq![a, b, c]) <==> text.len() >= 3 && text[text.len() - 3] == a
            && text[text.len() - 2] == b && text[text.len() - 1] == c,
{
    let n = text.len() as int;
    if n >= 3 {
        let tail = text.subrange(n - 3, n);
        if text[n - 3] == a && text[n - 2] == b && text[n - 1] == c {
            assert(tail =~= seq![a, b, c]);
        }
        if ends_with(text, seq![a, b, c]) {
            assert(tail[0] == a && tail[1] == b && tail[2] == c);
        }
    }
}

/// The keyword `Gate ` stands at `at` exactly where its five bytes do.
pub proof fn lemma_gate_keyword_at(text: Seq<u8>, at: int)
    ensures
        occurs_at(text, gate_keyword(), at) <==> 0 <= at && at + 5 <= text.len() && text[at] == 71
            && text[at + 1] == 97 && text[at + 2] == 116 && text[at + 3] == 101 && text[at + 4]
            == 32,
{
    if 0 <= at && at + 5 <= text.len() {
        let part = text.subrange(at, at + 5);
        if text[at] == 71 && text[at + 1] == 97 && text[at + 2] == 116 && text[at + 3] == 101
            && text[at + 4] == 32 {
            assert(part =~= gate_keyword());
        }
        if occurs_at(text, gate_keyword(), at) {
            assert(part[0] == 71 && part[1] == 97 && part[2] == 116 && part[3] == 101 && part[4]
                == 32);
        }
    }
}

/// A name read as characters and back as bytes is the name.
pub proof fn lemma_bytes_of_chars(text: Seq<u8>)
    ensures
        bytes_of(chars_of(text)) == text,
{
    assert(bytes_of(chars_of(text)) =~= text);
}

} // verus!
