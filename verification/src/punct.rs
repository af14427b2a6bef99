//! Punctuation decoration: a categorical draw over the fixed weight table.
//! Each word draws one variant; sentence-ending variants ask for the next
//! word to be capitalized.

use vstd::prelude::*;
use crate::rng::rand_below;

verus! {

/// How a word is decorated, if at all.
#[derive(Clone, Copy, PartialEq, Eq, Structural, Debug)]
pub enum Punctuation {
    /// Comma-like: appended to the word, no capital follows.
    Normal(char),
    /// Full stop, question or exclamation mark: the next word is capitalized.
    End(char),
    /// Brackets and quotes of all kinds, wrapped around the word.
    Paired(char, char),
    /// Reserved for an em-dash rendering between words; draws but renders
    /// nothing today.
    DashLike(char),
    Null,
}

/// The total weight of the draw table.
pub const PUNCT_WEIGHT_TOTAL: u16 = 983;

/// The variant drawn for a ticket `u` in `[0, 983)`. The buckets lie in
/// table order with the fixed relative weights 65, 6, 3, 61, 3, 3, 2, 3,
/// 2, 2, 13, 10, 10 and 800 for no punctuation at all.
pub open spec fn drawn_punct(u: int) -> Punctuation {
    if u < 65 {
        Punctuation::End('.')
    } else if u < 71 {
        Punctuation::End('?')
    } else if u < 74 {
        Punctuation::End('!')
    } else if u < 135 {
        Punctuation::Normal(',')
    } else if u < 138 {
        Punctuation::Normal(';')
    } else if u < 141 {
        Punctuation::Normal(':')
    } else if u < 143 {
        Punctuation::Paired('<', '>')
    } else if u < 146 {
        Punctuation::Paired('(', ')')
    } else if u < 148 {
        Punctuation::Paired('{', '}')
    } else if u < 150 {
        Punctuation::Paired('[', ']')
    } else if u < 163 {
        Punctuation::Paired('"', '"')
    } else if u < 173 {
        Punctuation::Paired('\'', '\'')
    } else if u < 183 {
        Punctuation::DashLike('-')
    } else {
        Punctuation::Null
    }
}

/// None of the drawable decoration characters is a space, so decoration
/// never introduces word-separator glyphs.
pub open spec fn punct_space_free(p: Punctuation) -> bool {
    match p {
        Punctuation::Normal(c) => c != ' ',
        Punctuation::End(c) => c != ' ',
        Punctuation::Paired(a, z) => a != ' ' && z != ' ',
        Punctuation::DashLike(c) => c != ' ',
        Punctuation::Null => true,
    }
}

/// Every bucket of the table yields a space-free decoration.
pub proof fn lemma_drawn_space_free(u: int)
    ensures
        punct_space_free(drawn_punct(u)),
{
}

/// Resolves a ticket to its bucket in the weight table.
pub fn pick_punctuation(u: u16) -> (r: Punctuation)
    requires
        u < PUNCT_WEIGHT_TOTAL,
    ensures
        r == drawn_punct(u as int),
{
    if u < 65 {
        Punctuation::End('.')
    } else if u < 71 {
        Punctuation::End('?')
    } else if u < 74 {
        Punctuation::End('!')
    } else if u < 135 {
        Punctuation::Normal(',')
    } else if u < 138 {
        Punctuation::Normal(';')
    } else if u < 141 {
        Punctuation::Normal(':')
    } else if u < 143 {
        Punctuation::Paired('<', '>')
    } else if u < 146 {
        Punctuation::Paired('(', ')')
    } else if u < 148 {
        Punctuation::Paired('{', '}')
    } else if u < 150 {
        Punctuation::Paired('[', ']')
    } else if u < 163 {
        Punctuation::Paired('"', '"')
    } else if u < 173 {
        Punctuation::Paired('\'', '\'')
    } else if u < 183 {
        Punctuation::DashLike('-')
    } else {
        Punctuation::Null
    }
}

/// Draws one punctuation variant from the weighted table.
pub fn choose_punctuation() -> (r: Punctuation)
    ensures
        exists|u: int| 0 <= u < PUNCT_WEIGHT_TOTAL && r == #[trigger] drawn_punct(u),
{
    let t = rand_below(PUNCT_WEIGHT_TOTAL as usize);
    let r = pick_punctuation(t as u16);
    proof {
        assert(r == drawn_punct(t as int));
    }
    r
}

} // verus!
