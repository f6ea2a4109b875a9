//! The character dictionary of a catalog: the GBK text at its end.

use vstd::prelude::*;
use encoding::all::GBK;
use encoding::{DecoderTrap, Encoding};
use crate::{RegionError, FIRST_CHAR_INDEX};

verus! {

/// The text that `bytes` stand for under the decoder that the `encoding`
/// crate hands out for GBK, or `None` where that decoder refuses them. The
/// decoder is the one of GB 18030: besides the two-byte sequences of GBK it
/// accepts four-byte sequences, and it reads the byte 0x80 as the euro sign.
pub uninterp spec fn gbk_text(bytes: Seq<u8>) -> Option<Seq<char>>;

/// Calls `encoding::all::GBK.decode` with `DecoderTrap::Strict`, which
/// returns the text that the bytes stand for, or an error at the first
/// sequence of bytes that the decoder does not know. Not proved: that the
/// call returns, and that its result depends on the bytes alone, so that
/// [`gbk_text`] names it.
#[verifier::external_body]
fn gbk_decode(bytes: &[u8]) -> (text: Option<String>)
    ensures
        match text {
            Some(t) => gbk_text(bytes@) == Some(t@),
            None => gbk_text(bytes@) is None,
        },
{
    match GBK.decode(bytes, DecoderTrap::Strict) {
        Ok(text) => Some(text),
        Err(_) => None,
    }
}

/// The characters that the packed names of a catalog refer to by number.
/// The first character has the number 64.
#[derive(Debug)]
pub struct CharacterDictionary {
    chars: Vec<char>,
}

impl View for CharacterDictionary {
    type V = Seq<char>;

    closed spec fn view(&self) -> Seq<char> {
        self.chars@
    }
}

/// The character with the number `index` in the dictionary `dict`.
pub open spec fn dictionary_char(dict: Seq<char>, index: int) -> Option<char> {
    if FIRST_CHAR_INDEX <= index < FIRST_CHAR_INDEX + dict.len() {
        Some(dict[index - FIRST_CHAR_INDEX])
    } else {
        None
    }
}

impl CharacterDictionary {
    /// The dictionary that holds the characters of `text` in order.
    pub fn from_text(text: &str) -> (dict: CharacterDictionary)
        ensures
            dict@ == text@,
    {
        let mut chars: Vec<char> = Vec::new();
        let iter = text.chars();
        #[verifier::loop_isolation(false)]
        for c in it: iter
            invariant
                chars@ == text@.take(it.index()),
        {
            chars.push(c);
            assert(text@.take(it.index() + 1) =~= text@.take(it.index()).push(c));
        }
        assert(text@.take(text@.len() as int) =~= text@);
        CharacterDictionary { chars }
    }

    /// Builds the dictionary from the GBK bytes at the end of a catalog.
    pub fn decode(bytes: &[u8]) -> (r: Result<CharacterDictionary, RegionError>)
        ensures
            match gbk_text(bytes@) {
                Some(text) => r matches Ok(dict) && dict@ == text,
                None => r matches Err(e) && e == RegionError::DecodeFailure,
            },
    {
        match gbk_decode(bytes) {
            Some(text) => Ok(CharacterDictionary::from_text(text.as_str())),
            None => Err(RegionError::DecodeFailure),
        }
    }

    /// The number of characters in the dictionary.
    pub fn len(&self) -> (n: usize)
        ensures
            n == self@.len(),
    {
        self.chars.len()
    }

    /// The character with the number `index`, if the dictionary has one.
    pub fn resolve(&self, index: u32) -> (c: Option<char>)
        ensures
            c == dictionary_char(self@, index as int),
    {
        if index < FIRST_CHAR_INDEX {
            return None;
        }
        let at: u32 = index - FIRST_CHAR_INDEX;
        if (at as usize) < self.chars.len() {
            Some(self.chars[at as usize])
        } else {
            None
        }
    }
}

} // verus!
