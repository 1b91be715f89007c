//! Splitting source text into plain word strings.
use crate::lexer::{split_words, views_of, words};
use vstd::prelude::*;

verus! {

/// The reason an expression could not be read or evaluated.
#[derive(Debug)]
pub enum RispErr {
    Reason(String),
}

/// The words of `source_code`: each parenthesis alone, and each maximal run
/// of other non-whitespace characters.
pub fn tokenize(source_code: String) -> (r: Vec<String>)
    ensures
        views_of(r@) == words(source_code@),
{
    split_words(source_code.as_str())
}

} // verus!
