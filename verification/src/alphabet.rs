//! The 26-letter Latin alphabet: positions, letters, and ASCII case folding.
//!
//! A letter's *alphabet position* is its zero-based index in `a..z`,
//! independent of case: `'a' -> 0`, ..., `'z' -> 25`. The mapping is a
//! fixed arithmetic offset from the code point of `'a'`.

use vstd::prelude::*;

verus! {

/// Code point of `'a'`, the base of the alphabet-position mapping.
pub const ALPHA_BASE: u32 = 97;

/// Number of letters in the alphabet.
pub const ALPHABET_LEN: u32 = 26;

/// Is `c` a lowercase letter `'a'..='z'`?
pub open spec fn is_lower(c: char) -> bool {
    97 <= c as int <= 122
}

/// Is `c` an uppercase letter `'A'..='Z'`?
pub open spec fn is_upper(c: char) -> bool {
    65 <= c as int <= 90
}

/// ASCII case folding of a single character: uppercase letters map to
/// their lowercase counterpart, every other character is unchanged.
pub open spec fn lower_char(c: char) -> char {
    if is_upper(c) {
        (c as int + 32) as char
    } else {
        c
    }
}

/// Is `c` a letter of the alphabet, in either case?
pub open spec fn is_letter(c: char) -> bool {
    is_lower(lower_char(c))
}

/// ASCII case folding of a whole character sequence.
pub open spec fn lower_seq(s: Seq<char>) -> Seq<char> {
    s.map_values(|c: char| lower_char(c))
}

/// Does every character of `s` lie in `'a'..='z'`?
pub open spec fn all_lower(s: Seq<char>) -> bool {
    forall|i: int| 0 <= i < s.len() ==> is_lower(s[i])
}

/// Is every character of `s` a letter, in either case?
pub open spec fn all_letters(s: Seq<char>) -> bool {
    forall|i: int| 0 <= i < s.len() ==> is_letter(s[i])
}

/// Alphabet position of a lowercase letter: `'a' -> 0`, ..., `'z' -> 25`.
pub open spec fn pos_of(c: char) -> int {
    c as int - 97
}

/// Lowercase letter at alphabet position `p`: `0 -> 'a'`, ..., `25 -> 'z'`.
pub open spec fn char_of(p: int) -> char {
    (p + 97) as char
}

/// The two directions of the position mapping invert each other.
pub proof fn lemma_char_of_pos(p: int)
    requires
        0 <= p < 26,
    ensures
        is_lower(char_of(p)),
        pos_of(char_of(p)) == p,
{
}

/// A lowercase letter is recovered from its alphabet position.
pub proof fn lemma_pos_of_char(c: char)
    requires
        is_lower(c),
    ensures
        0 <= pos_of(c) < 26,
        char_of(pos_of(c)) == c,
{
}

/// Case folding is idempotent on characters.
pub proof fn lemma_lower_char_idempotent(c: char)
    ensures
        lower_char(lower_char(c)) == lower_char(c),
{
}

/// Case folding is idempotent on sequences.
pub proof fn lemma_lower_seq_idempotent(s: Seq<char>)
    ensures
        lower_seq(lower_seq(s)) == lower_seq(s),
{
    assert forall|i: int| 0 <= i < s.len() implies lower_seq(lower_seq(s))[i] == lower_seq(s)[i]
    by {
        lemma_lower_char_idempotent(s[i]);
    }
    assert(lower_seq(lower_seq(s)) =~= lower_seq(s));
}

/// Case folding leaves a sequence that is already lowercase unchanged.
pub proof fn lemma_lower_seq_identity(s: Seq<char>)
    requires
        all_lower(s),
    ensures
        lower_seq(s) == s,
{
    assert(lower_seq(s) =~= s);
}

/// ASCII case folding of a single character, executable form.
pub fn to_lowercase_char(c: char) -> (r: char)
    ensures
        r == lower_char(c),
{
    let n = c as u32;
    if 65 <= n && n <= 90 {
        ((n + 32) as u8) as char
    } else {
        c
    }
}

/// Encodes a lowercase letter as its alphabet position by subtracting the
/// code point of `'a'`.
pub fn encode_char(c: char) -> (r: u32)
    requires
        is_lower(c),
    ensures
        r == pos_of(c),
{
    (c as u32) - ALPHA_BASE
}

/// Decodes an alphabet position back to its lowercase letter by adding the
/// code point of `'a'`.
pub fn decode_u32(n: u32) -> (r: char)
    requires
        n < 26,
    ensures
        r == char_of(n as int),
{
    ((n + ALPHA_BASE) as u8) as char
}

/// Alphabet position of a letter of either case.
pub fn get_position(c: char) -> (r: u8)
    requires
        is_letter(c),
    ensures
        r == pos_of(lower_char(c)),
{
    let folded = to_lowercase_char(c);
    ((folded as u32) - ALPHA_BASE) as u8
}

/// Lowercase letter at an alphabet position.
pub fn alphabet_position_to_char(pos: u8) -> (r: char)
    requires
        pos < 26,
    ensures
        r == char_of(pos as int),
{
    (pos + (ALPHA_BASE as u8)) as char
}

} // verus!
