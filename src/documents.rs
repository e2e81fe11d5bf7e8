//! A document as an owned list of words.
use vstd::prelude::*;

verus! {

pub type Document = Vec<String>;

/// Takes ownership of the words.
pub fn new_document(words: Vec<String>) -> (r: Document)
    ensures
        r@ == words@,
{
    words
}

/// Appends a word, through a mutable borrow of the document.
pub fn add_word(this: &mut Document, word: String)
    ensures
        final(this)@ == old(this)@.push(word),
{
    this.push(word)
}

/// The words, through a shared borrow of the document.
pub fn get_words(this: &Document) -> (r: &[String])
    ensures
        r@ == this@,
{
    this.as_slice()
}

} // verus!
