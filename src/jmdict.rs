//! Records of the JMdict dictionary, as its entries are decoded from the
//! XML file.
use vstd::prelude::*;

verus! {

/// One dictionary entry.
#[derive(Debug, Default)]
pub struct Entry {
    /// The unique sequence number of the entry.
    pub ent_seq: u32,
    /// The kanji writings of the word.
    pub k_ele: Vec<Kanji>,
    /// The readings of the word.
    pub r_ele: Vec<Reading>,
    /// The senses of the word.
    pub sense: Vec<Sense>,
}

/// A kanji writing of a word.
#[derive(Debug, Default)]
pub struct Kanji {
    /// The writing itself.
    pub keb: String,
    /// Information particular to this writing.
    pub ke_inf: Vec<String>,
    /// Priority codes of this writing.
    pub ke_pri: Vec<String>,
}

/// A reading of a word.
#[derive(Debug, Default)]
pub struct Reading {
    /// The reading itself, in kana.
    pub reb: String,
    /// Whether the reading is not a true reading of the kanji writings.
    pub re_nokanji: bool,
    /// The kanji writings this reading is restricted to.
    pub re_restr: Vec<String>,
    /// Information particular to this reading.
    pub re_inf: Vec<String>,
    /// Priority codes of this reading.
    pub re_pri: Vec<String>,
}

/// A sense of a word, with its glosses.
#[derive(Debug, Default)]
pub struct Sense {
    /// The kanji writings this sense is restricted to.
    pub stagk: Vec<String>,
    /// The readings this sense is restricted to.
    pub stagr: Vec<String>,
    /// Parts of speech.
    pub pos: Vec<String>,
    /// Cross references to other entries.
    pub xref: Vec<String>,
    /// Antonyms.
    pub ant: Vec<String>,
    /// Fields of application.
    pub field: Vec<String>,
    /// Other information.
    pub misc: Vec<String>,
    /// Sense information.
    pub s_inf: Vec<String>,
    /// Source languages of loan words.
    pub lsource: Vec<Lang>,
    /// Dialects.
    pub dial: Vec<String>,
    /// Glosses: what the sense means, in other languages.
    pub gloss: Vec<Gloss>,
}

/// The source language of a loan word.
#[derive(Debug, Default)]
pub struct Lang {
    pub lsource: String,
    pub lang: String,
    /// Whether the source only partly describes the word.
    pub ls_type: bool,
    /// Whether the word was made in Japan from foreign words.
    pub ls_wasei: bool,
}

/// A gloss: the meaning of a sense in one language.
#[derive(Debug, Default)]
pub struct Gloss {
    pub gloss: String,
    pub lang: String,
    pub g_type: Option<String>,
}

} // verus!
