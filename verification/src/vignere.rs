//! The Vigenère cipher engine: key validation, keystream expansion, and the
//! character-wise modular shift in both directions.
//!
//! The engine holds one immutable attribute, the key: a non-empty sequence
//! of lowercase letters, validated and case-normalized at construction.
//! `encrypt` and `decrypt` are pure, stateless transformations: each call
//! expands the key cyclically from position 0 into a keystream of the
//! text's length and shifts each character by the alphabet position of the
//! corresponding keystream character, modulo 26.

use vstd::arithmetic::div_mod::lemma_mod_multiples_vanish;
use vstd::arithmetic::div_mod::lemma_small_mod;
use vstd::prelude::*;
use vstd::string::*;

use crate::alphabet::all_letters;
use crate::alphabet::all_lower;
use crate::alphabet::char_of;
use crate::alphabet::is_letter;
use crate::alphabet::is_lower;
use crate::alphabet::lower_char;
use crate::alphabet::lower_seq;
use crate::alphabet::pos_of;
use crate::alphabet::to_lowercase_char;
use crate::alphabet::ALPHABET_LEN;
use crate::alphabet::ALPHA_BASE;

verus! {

/// A validation failure: the input contained a character outside the
/// alphabet, or the key was empty.
#[derive(Clone, Copy, Debug, PartialEq, Eq)]
pub enum CipherError {
    /// The key was empty; a key must hold at least one letter.
    EmptyKey,
    /// The key held the given character, which is not a letter.
    InvalidKeyCharacter(char),
    /// The text to transform held the given character, which is not a letter.
    InvalidCharacter(char),
}

/// Index of the first non-letter in `s`; meaningful only when
/// `!all_letters(s)`, in which case it is uniquely determined.
pub open spec fn first_invalid(s: Seq<char>) -> int {
    choose|i: int|
        0 <= i < s.len() && !is_letter(s[i]) && (forall|j: int| 0 <= j < i ==> is_letter(s[j]))
}

/// `first_invalid` names exactly the least index holding a non-letter.
pub proof fn lemma_first_invalid(s: Seq<char>, i: int)
    requires
        0 <= i < s.len(),
        !is_letter(s[i]),
        forall|j: int| 0 <= j < i ==> is_letter(s[j]),
    ensures
        first_invalid(s) == i,
{
    let k = first_invalid(s);
    assert(0 <= k < s.len() && !is_letter(s[k]) && (forall|j: int| 0 <= j < k ==> is_letter(s[j])));
}

/// The keystream for a key and a length: the key repeated cyclically,
/// starting at its first character.
pub open spec fn keystream_seq(key: Seq<char>, len: nat) -> Seq<char> {
    Seq::new(len, |i: int| key[i % (key.len() as int)])
}

/// One encrypting shift: the letter whose position is the sum of the key
/// character's and the plaintext character's positions, modulo 26.
pub open spec fn shift_char(k: char, p: char) -> char {
    char_of((pos_of(k) + pos_of(p)) % 26)
}

/// One decrypting shift: the letter whose position is the ciphertext
/// character's position minus the key character's, modulo 26 (Euclidean,
/// so negative differences wrap into `[0, 26)`).
pub open spec fn unshift_char(k: char, c: char) -> char {
    char_of((pos_of(c) - pos_of(k)) % 26)
}

/// Vigenère encryption of a lowercase text under a lowercase key: each
/// character is shifted by the corresponding keystream character.
pub open spec fn encrypt_seq(key: Seq<char>, text: Seq<char>) -> Seq<char> {
    Seq::new(text.len(), |i: int| shift_char(key[i % (key.len() as int)], text[i]))
}

/// Vigenère decryption of a lowercase text under a lowercase key.
pub open spec fn decrypt_seq(key: Seq<char>, text: Seq<char>) -> Seq<char> {
    Seq::new(text.len(), |i: int| unshift_char(key[i % (key.len() as int)], text[i]))
}

/// A Vigenère transform of a lowercase text under a non-empty lowercase
/// key is itself pure lowercase `a..z`, in both directions.
pub proof fn lemma_transform_lower(key: Seq<char>, text: Seq<char>)
    requires
        key.len() > 0,
        all_lower(key),
        all_lower(text),
    ensures
        all_lower(encrypt_seq(key, text)),
        all_lower(decrypt_seq(key, text)),
{
    assert forall|i: int| 0 <= i < text.len() implies is_lower(encrypt_seq(key, text)[i])
        && is_lower(decrypt_seq(key, text)[i]) by {
        crate::alphabet::lemma_char_of_pos((pos_of(key[i % (key.len() as int)]) + pos_of(text[i]))
            % 26);
        crate::alphabet::lemma_char_of_pos((pos_of(text[i]) - pos_of(key[i % (key.len() as int)]))
            % 26);
    }
}

/// Round trip: decrypting the encryption of a lowercase text under the
/// same non-empty lowercase key recovers the text exactly.
pub proof fn lemma_round_trip(key: Seq<char>, text: Seq<char>)
    requires
        key.len() > 0,
        all_lower(key),
        all_lower(text),
    ensures
        decrypt_seq(key, encrypt_seq(key, text)) == text,
{
    let enc = encrypt_seq(key, text);
    assert forall|i: int| 0 <= i < text.len() implies decrypt_seq(key, enc)[i] == text[i] by {
        let k = pos_of(key[i % (key.len() as int)]);
        let p = pos_of(text[i]);
        let c = (k + p) % 26;
        if k + p < 26 {
            lemma_small_mod((k + p) as nat, 26);
        } else {
            lemma_mod_multiples_vanish(1, k + p - 26, 26);
            lemma_small_mod((k + p - 26) as nat, 26);
        }
        crate::alphabet::lemma_char_of_pos(c);
        if c - k < 0 {
            lemma_mod_multiples_vanish(1, c - k, 26);
        }
        lemma_small_mod(p as nat, 26);
        crate::alphabet::lemma_pos_of_char(text[i]);
    }
    assert(decrypt_seq(key, enc) =~= text);
}

/// Round trip at the engine's contracts: for a mixed-case text whose
/// characters are all letters, decrypting the (lowercase) ciphertext that
/// `encrypt` returns — which `decrypt` case-folds again — yields the
/// case-folded original text.
pub proof fn lemma_engine_round_trip(key: Seq<char>, text: Seq<char>)
    requires
        key.len() > 0,
        all_lower(key),
        all_letters(text),
    ensures
        decrypt_seq(key, lower_seq(encrypt_seq(key, lower_seq(text)))) == lower_seq(text),
{
    lemma_transform_lower(key, lower_seq(text));
    crate::alphabet::lemma_lower_seq_identity(encrypt_seq(key, lower_seq(text)));
    lemma_round_trip(key, lower_seq(text));
}

/// Case insensitivity: the ciphertext that `encrypt` guarantees for a
/// mixed-case text is the one it guarantees for the text's all-lowercase
/// form, since case folding is idempotent.
pub proof fn lemma_encrypt_case_insensitive(key: Seq<char>, text: Seq<char>)
    ensures
        encrypt_seq(key, lower_seq(lower_seq(text))) == encrypt_seq(key, lower_seq(text)),
{
    crate::alphabet::lemma_lower_seq_idempotent(text);
}

/// Shifting each character by the corresponding character of the expanded
/// keystream is the same transform as indexing the key cyclically, in both
/// directions.
pub proof fn lemma_keystream_transform(key: Seq<char>, text: Seq<char>)
    requires
        key.len() > 0,
    ensures
        encrypt_seq(keystream_seq(key, text.len()), text) == encrypt_seq(key, text),
        decrypt_seq(keystream_seq(key, text.len()), text) == decrypt_seq(key, text),
{
    let ks = keystream_seq(key, text.len());
    assert forall|i: int| 0 <= i < text.len() implies #[trigger] ks[i % (ks.len() as int)] == key[i
        % (key.len() as int)] by {
        lemma_small_mod(i as nat, ks.len());
    }
    assert(encrypt_seq(ks, text) =~= encrypt_seq(key, text));
    assert(decrypt_seq(ks, text) =~= decrypt_seq(key, text));
}

/// Relies on `String::push`: appends the given character to the end of the
/// string.
#[verifier::external_body]
fn push_char(s: &mut String, c: char)
    ensures
        final(s)@ == old(s)@.push(c),
{
    s.push(c);
}

/// Checks that every character of `s` is a letter `a..z`, in either case.
/// On the first character that is not, reports it in the error.
pub fn check_alphabetic(s: &str) -> (r: Result<(), CipherError>)
    ensures
        all_letters(s@) <==> r is Ok,
        r is Ok ==> r == Ok::<(), CipherError>(()),
        !all_letters(s@) ==> r == Err::<(), CipherError>(
            CipherError::InvalidCharacter(s@[first_invalid(s@)]),
        ),
{
    let n = s.unicode_len();
    let mut i: usize = 0;
    while i < n
        invariant
            i <= n,
            n == s@.len(),
            forall|j: int| 0 <= j < i ==> is_letter(s@[j]),
        decreases n - i,
    {
        let c = s.get_char(i);
        let folded = to_lowercase_char(c);
        let code = folded as u32;
        if !(ALPHA_BASE <= code && code <= 122) {
            proof {
                lemma_first_invalid(s@, i as int);
            }
            return Err(CipherError::InvalidCharacter(c));
        }
        i = i + 1;
    }
    Ok(())
}

/// Expands `keyword` (case-folded to lowercase) cyclically into a keystream
/// of exactly `length` characters: character `i` of the keystream is
/// character `i % keyword.len()` of the folded keyword.
pub fn generate_key(keyword: &str, length: usize) -> (r: String)
    requires
        keyword@.len() > 0 || length == 0,
    ensures
        r@ == keystream_seq(lower_seq(keyword@), length as nat),
{
    let n = keyword.unicode_len();
    let mut out = String::new();
    let mut i: usize = 0;
    while i < length
        invariant
            i <= length,
            n == keyword@.len(),
            n > 0 || length == 0,
            out@ =~= keystream_seq(lower_seq(keyword@), length as nat).take(i as int),
        decreases length - i,
    {
        let c = keyword.get_char(i % n);
        let folded = to_lowercase_char(c);
        push_char(&mut out, folded);
        proof {
            assert(out@ =~= keystream_seq(lower_seq(keyword@), length as nat).take(i + 1));
        }
        i = i + 1;
    }
    proof {
        assert(keystream_seq(lower_seq(keyword@), length as nat).take(length as int)
            =~= keystream_seq(lower_seq(keyword@), length as nat));
    }
    out
}

/// Encrypts a message against a key of at least the message's length,
/// character for character: position `i` of the result is the message's
/// character at `i` shifted forward by the key's character at `i`. Both
/// inputs are case-folded; the result is lowercase.
pub fn encrypt(message: &str, key: &str) -> (r: String)
    requires
        all_letters(message@),
        all_letters(key@),
        message@.len() <= key@.len(),
    ensures
        r@ == encrypt_seq(lower_seq(key@), lower_seq(message@)),
{
    let n = message.unicode_len();
    let mut out = String::new();
    let mut i: usize = 0;
    while i < n
        invariant
            i <= n,
            n == message@.len(),
            n <= key@.len(),
            all_letters(message@),
            all_letters(key@),
            out@ =~= encrypt_seq(lower_seq(key@), lower_seq(message@)).take(i as int),
        decreases n - i,
    {
        let k_i = crate::alphabet::get_position(key.get_char(i));
        let p_i = crate::alphabet::get_position(message.get_char(i));
        let c_i = (k_i + p_i) % (ALPHABET_LEN as u8);
        let out_c = crate::alphabet::alphabet_position_to_char(c_i);
        push_char(&mut out, out_c);
        proof {
            lemma_small_mod(i as nat, key@.len());
            assert(out@ =~= encrypt_seq(lower_seq(key@), lower_seq(message@)).take(i + 1));
        }
        i = i + 1;
    }
    proof {
        assert(encrypt_seq(lower_seq(key@), lower_seq(message@)).take(n as int) =~= encrypt_seq(
            lower_seq(key@),
            lower_seq(message@),
        ));
    }
    out
}

/// Decrypts a message against a key of at least the message's length,
/// character for character: position `i` of the result is the message's
/// character at `i` shifted backward by the key's character at `i`, with
/// the difference wrapped into `[0, 26)`. Both inputs are case-folded; the
/// result is lowercase.
pub fn decrypt(message: &str, key: &str) -> (r: String)
    requires
        all_letters(message@),
        all_letters(key@),
        message@.len() <= key@.len(),
    ensures
        r@ == decrypt_seq(lower_seq(key@), lower_seq(message@)),
{
    let n = message.unicode_len();
    let mut out = String::new();
    let mut i: usize = 0;
    while i < n
        invariant
            i <= n,
            n == message@.len(),
            n <= key@.len(),
            all_letters(message@),
            all_letters(key@),
            out@ =~= decrypt_seq(lower_seq(key@), lower_seq(message@)).take(i as int),
        decreases n - i,
    {
        let k_i = crate::alphabet::get_position(key.get_char(i));
        let c_i = crate::alphabet::get_position(message.get_char(i));
        let p_i = (c_i + (ALPHABET_LEN as u8) - k_i) % (ALPHABET_LEN as u8);
        proof {
            let ci = pos_of(lower_char(message@[i as int]));
            let ki = pos_of(lower_char(key@[i as int]));
            lemma_mod_multiples_vanish(1, ci - ki, 26);
        }
        let out_c = crate::alphabet::alphabet_position_to_char(p_i);
        push_char(&mut out, out_c);
        proof {
            lemma_small_mod(i as nat, key@.len());
            assert(out@ =~= decrypt_seq(lower_seq(key@), lower_seq(message@)).take(i + 1));
        }
        i = i + 1;
    }
    proof {
        assert(decrypt_seq(lower_seq(key@), lower_seq(message@)).take(n as int) =~= decrypt_seq(
            lower_seq(key@),
            lower_seq(message@),
        ));
    }
    out
}

/// The cipher engine: an immutable, validated key. Its view is the stored
/// key as a sequence of lowercase letters.
#[derive(Clone, Debug)]
pub struct Vignere {
    key: String,
}

impl View for Vignere {
    type V = Seq<char>;

    closed spec fn view(&self) -> Seq<char> {
        self.key@
    }
}

impl Vignere {
    /// The engine's invariant: the stored key is non-empty and pure
    /// lowercase `a..z`. Established by `new`, never broken afterwards.
    pub open spec fn wf(&self) -> bool {
        self@.len() > 0 && all_lower(self@)
    }

    /// Builds an engine from a keyword. The keyword must be non-empty and
    /// every character, after case folding, must lie in `a..z`; it is
    /// stored case-normalized to lowercase. An empty keyword or one holding
    /// a non-letter is rejected, and no engine is produced.
    pub fn new(key: &str) -> (r: Result<Self, CipherError>)
        ensures
            (key@.len() > 0 && all_letters(key@)) <==> r is Ok,
            r matches Ok(v) ==> v@ == lower_seq(key@) && v.wf(),
            key@.len() == 0 ==> r == Err::<Self, CipherError>(CipherError::EmptyKey),
            key@.len() > 0 && !all_letters(key@) ==> r == Err::<Self, CipherError>(
                CipherError::InvalidKeyCharacter(key@[first_invalid(key@)]),
            ),
    {
        let n = key.unicode_len();
        if n == 0 {
            return Err(CipherError::EmptyKey);
        }
        let mut folded_key = String::new();
        let mut i: usize = 0;
        while i < n
            invariant
                i <= n,
                n == key@.len(),
                forall|j: int| 0 <= j < i ==> is_letter(key@[j]),
                folded_key@ =~= lower_seq(key@).take(i as int),
            decreases n - i,
        {
            let c = key.get_char(i);
            let folded = to_lowercase_char(c);
            let code = folded as u32;
            if !(ALPHA_BASE <= code && code <= 122) {
                proof {
                    lemma_first_invalid(key@, i as int);
                }
                return Err(CipherError::InvalidKeyCharacter(c));
            }
            push_char(&mut folded_key, folded);
            proof {
                assert(folded_key@ =~= lower_seq(key@).take(i + 1));
            }
            i = i + 1;
        }
        proof {
            assert(lower_seq(key@).take(n as int) =~= lower_seq(key@));
        }
        Ok(Vignere { key: folded_key })
    }

    /// Encrypts a text: case-folds it to lowercase, checks that every
    /// character is a letter, and shifts each character forward by the
    /// alphabet position of the corresponding keystream character, modulo
    /// 26. The output has the input's length and is pure lowercase `a..z`.
    pub fn encrypt(&self, plaintext: &str) -> (r: Result<String, CipherError>)
        requires
            self.wf(),
        ensures
            all_letters(plaintext@) <==> r is Ok,
            r matches Ok(c) ==> c@ == encrypt_seq(self@, lower_seq(plaintext@)),
            r matches Ok(c) ==> c@.len() == plaintext@.len() && all_lower(c@),
            !all_letters(plaintext@) ==> r == Err::<String, CipherError>(
                CipherError::InvalidCharacter(plaintext@[first_invalid(plaintext@)]),
            ),
    {
        let n = plaintext.unicode_len();
        let klen = self.key.as_str().unicode_len();
        let mut out = String::new();
        let mut i: usize = 0;
        while i < n
            invariant
                i <= n,
                n == plaintext@.len(),
                klen == self@.len(),
                klen > 0,
                self.wf(),
                forall|j: int| 0 <= j < i ==> is_letter(plaintext@[j]),
                out@ =~= encrypt_seq(self@, lower_seq(plaintext@)).take(i as int),
                all_lower(out@),
            decreases n - i,
        {
            let c = plaintext.get_char(i);
            let folded = to_lowercase_char(c);
            let p_i = folded as u32;
            if !(ALPHA_BASE <= p_i && p_i <= 122) {
                proof {
                    lemma_first_invalid(plaintext@, i as int);
                }
                return Err(CipherError::InvalidCharacter(c));
            }
            let k_i = self.key.as_str().get_char(i % klen) as u32;
            let c_i = ((k_i - ALPHA_BASE) + (p_i - ALPHA_BASE)) % ALPHABET_LEN;
            let out_c = ((c_i + ALPHA_BASE) as u8) as char;
            push_char(&mut out, out_c);
            proof {
                assert(out@ =~= encrypt_seq(self@, lower_seq(plaintext@)).take(i + 1));
            }
            i = i + 1;
        }
        proof {
            assert(encrypt_seq(self@, lower_seq(plaintext@)).take(n as int) =~= encrypt_seq(
                self@,
                lower_seq(plaintext@),
            ));
        }
        Ok(out)
    }

    /// Decrypts a text: case-folds it to lowercase, checks that every
    /// character is a letter, and shifts each character backward by the
    /// alphabet position of the corresponding keystream character, with a
    /// Euclidean modulus so that negative differences wrap into `[0, 26)`.
    /// The output has the input's length and is pure lowercase `a..z`.
    pub fn decrypt(&self, ciphertext: &str) -> (r: Result<String, CipherError>)
        requires
            self.wf(),
        ensures
            all_letters(ciphertext@) <==> r is Ok,
            r matches Ok(p) ==> p@ == decrypt_seq(self@, lower_seq(ciphertext@)),
            r matches Ok(p) ==> p@.len() == ciphertext@.len() && all_lower(p@),
            !all_letters(ciphertext@) ==> r == Err::<String, CipherError>(
                CipherError::InvalidCharacter(ciphertext@[first_invalid(ciphertext@)]),
            ),
    {
        let n = ciphertext.unicode_len();
        let klen = self.key.as_str().unicode_len();
        let mut out = String::new();
        let mut i: usize = 0;
        while i < n
            invariant
                i <= n,
                n == ciphertext@.len(),
                klen == self@.len(),
                klen > 0,
                self.wf(),
                forall|j: int| 0 <= j < i ==> is_letter(ciphertext@[j]),
                out@ =~= decrypt_seq(self@, lower_seq(ciphertext@)).take(i as int),
                all_lower(out@),
            decreases n - i,
        {
            let c = ciphertext.get_char(i);
            let folded = to_lowercase_char(c);
            let c_i = folded as u32;
            if !(ALPHA_BASE <= c_i && c_i <= 122) {
                proof {
                    lemma_first_invalid(ciphertext@, i as int);
                }
                return Err(CipherError::InvalidCharacter(c));
            }
            let k_i = self.key.as_str().get_char(i % klen) as u32;
            let p_i = ((c_i - ALPHA_BASE) + ALPHABET_LEN - (k_i - ALPHA_BASE)) % ALPHABET_LEN;
            proof {
                let ci = pos_of(lower_char(ciphertext@[i as int]));
                let ki = pos_of(self@[i as int % self@.len() as int]);
                lemma_mod_multiples_vanish(1, ci - ki, 26);
            }
            let out_c = ((p_i + ALPHA_BASE) as u8) as char;
            push_char(&mut out, out_c);
            proof {
                assert(out@ =~= decrypt_seq(self@, lower_seq(ciphertext@)).take(i + 1));
            }
            i = i + 1;
        }
        proof {
            assert(decrypt_seq(self@, lower_seq(ciphertext@)).take(n as int) =~= decrypt_seq(
                self@,
                lower_seq(ciphertext@),
            ));
        }
        Ok(out)
    }
}

} // verus!
