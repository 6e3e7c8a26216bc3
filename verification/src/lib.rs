//! Verified implementation of the classical Vigenère polyalphabetic
//! substitution cipher over the 26-letter Latin alphabet.
//!
//! The cipher engine lives in [`vignere`]; the character-level alphabet
//! helpers (position mapping and case folding) live in [`alphabet`].

pub mod alphabet;
pub mod vignere;
