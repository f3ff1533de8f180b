//! Corpus text: decoding, normalisation, and training a chain on it.

use vstd::prelude::*;

use crate::chain::{train_result, MarkovChain, Row};
use crate::text::{
    char_is_alnum, char_is_space, chars_of, is_alnum, is_space, join_words, joined, lower_of,
    split_words, string_from_chars, to_lower, words,
};

verus! {

/// Why a corpus could not be read.
#[derive(Debug, Clone, PartialEq, Eq)]
pub enum CorpusError {
    /// No file at the given path.
    FileNotFound(String),
    /// Reading failed; the message says why.
    IoError(String),
    /// The bytes are not UTF-8 text.
    InvalidEncoding,
}

/// The text that a byte string encodes in UTF-8, if it is valid UTF-8.
pub uninterp spec fn utf8_text(b: Seq<u8>) -> Option<Seq<char>>;

/// Relies on `String::from_utf8`: the text when the bytes are valid UTF-8,
/// an error otherwise.
#[verifier::external_body]
fn decode_utf8(bytes: Vec<u8>) -> (r: Option<String>)
    ensures
        r matches Some(s) ==> utf8_text(bytes@) == Some(s@),
        r is None ==> utf8_text(bytes@) is None,
{
    String::from_utf8(bytes).ok()
}

/// The text of a corpus file's bytes.
pub fn corpus_text(bytes: Vec<u8>) -> (r: Result<String, CorpusError>)
    ensures
        r matches Ok(s) ==> utf8_text(bytes@) == Some(s@),
        r is Err <==> utf8_text(bytes@) is None,
        r matches Err(e) ==> e == CorpusError::InvalidEncoding,
{
    match decode_utf8(bytes) {
        Some(s) => Ok(s),
        None => Err(CorpusError::InvalidEncoding),
    }
}

/// Characters that survive normalisation: letters, digits, whitespace,
/// apostrophes and hyphens.
pub open spec fn kept(c: char) -> bool {
    is_alnum(c) || is_space(c) || c == '\'' || c == '-'
}

/// Every other character becomes a space.
pub open spec fn cleaned(s: Seq<char>) -> Seq<char> {
    s.map_values(|c: char| if kept(c) { c } else { ' ' })
}

/// Lower-case text with punctuation blanked out and whitespace runs
/// collapsed to single spaces, without leading or trailing space.
pub open spec fn normalized_lower(s: Seq<char>) -> Seq<char> {
    joined(words(cleaned(s)))
}

/// Normalises text that is already lower case.
pub fn normalize_lowered(lowered: &str) -> (r: String)
    ensures
        r@ == normalized_lower(lowered@),
{
    let cs = chars_of(lowered);
    let mut out: Vec<char> = Vec::new();
    let mut i: usize = 0;
    while i < cs.len()
        invariant
            cs@ == lowered@,
            i <= cs@.len(),
            out@ == cleaned(cs@.subrange(0, i as int)),
        decreases cs@.len() - i,
    {
        let c = cs[i];
        let keep = char_is_alnum(c) || char_is_space(c) || c == '\'' || c == '-';
        if keep {
            out.push(c);
        } else {
            out.push(' ');
        }
        assert(out@ =~= cleaned(cs@.subrange(0, i + 1)));
        i = i + 1;
    }
    assert(cs@.subrange(0, cs@.len() as int) == cs@);
    let spaced = string_from_chars(&out);
    let parts = split_words(spaced.as_str());
    join_words(&parts)
}

/// Lower-cases the text, blanks out punctuation other than apostrophes and
/// hyphens, and collapses whitespace to single spaces.
pub fn preprocess_text(text: &str) -> (r: String)
    ensures
        r@ == normalized_lower(lower_of(text@)),
{
    let lowered = to_lower(text);
    normalize_lowered(lowered.as_str())
}

/// A chain of the given order trained on the normalised corpus text.
pub fn train_from_corpus(raw_text: &str, order: usize) -> (r: MarkovChain)
    requires
        order > 0,
    ensures
        r.wf(),
        r.order_spec() == order,
        (r.vocabulary(), r.table()) == train_result(
            Seq::<Row>::empty(),
            Seq::<Seq<char>>::empty(),
            words(normalized_lower(lower_of(raw_text@))),
            order as nat,
        ),
{
    let processed = preprocess_text(raw_text);
    let mut chain = MarkovChain::new(order);
    chain.train(processed.as_str());
    chain
}

} // verus!
