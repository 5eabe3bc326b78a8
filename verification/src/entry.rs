//! The lexical entry model: passive data shapes describing one dictionary
//! record, as delivered by the remote dictionary service.

use vstd::prelude::*;

verus! {

/// One phonetic rendering of a word.  `audio` is the locator (typically a
/// URL) of a pronunciation clip; it may be empty when no clip exists.
pub struct Phonetic {
    pub text: Option<String>,
    pub audio: String,
}

/// One definition of a word, with its synonym and antonym lists.
pub struct Definition {
    pub definition: String,
    pub synonyms: Vec<String>,
    pub antonyms: Vec<String>,
}

/// The definitions of a word under one part-of-speech tag.
pub struct Meaning {
    pub part_of_speech: String,
    pub definitions: Vec<Definition>,
}

/// One dictionary record: the word itself, its pronunciation variants and
/// its meanings.
pub struct Word {
    pub word: String,
    pub phonetics: Vec<Phonetic>,
    pub meanings: Vec<Meaning>,
}

/// The audio locators of one record, in the order its variants list them.
pub open spec fn phonetic_urls(w: Word) -> Seq<Seq<char>> {
    w.phonetics@.map_values(|p: Phonetic| p.audio@)
}

/// The audio locators of a whole entry list, record by record, variant by
/// variant, duplicates included.
pub open spec fn entry_urls(words: Seq<Word>) -> Seq<Seq<char>> {
    words.flat_map(|w: Word| phonetic_urls(w))
}

} // verus!
