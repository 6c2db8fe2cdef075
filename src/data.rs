//! The archived record layout: entries and senses point into flat side arrays
//! through `(start, len)` ranges, and strings are addressed by pool index.
use vstd::prelude::*;

verus! {

/// Index into the short-string pool.
pub type StringId = u32;

/// Index into the long-text pool.
pub type TextId = u32;

/// A `(start, len)` slice descriptor over one of the side arrays.
#[derive(Debug, Clone, Copy)]
pub struct Range {
    pub start: u32,
    pub len: u32,
}

impl Range {
    pub fn new(start: u32, len: u32) -> (r: Self)
        ensures
            r.start == start,
            r.len == len,
    {
        Range { start, len }
    }

    /// The range lies inside a side array of length `n`.
    pub open spec fn fits(self, n: nat) -> bool {
        self.start + self.len <= n
    }

    /// The elements of `side` that the range selects.
    pub open spec fn select<T>(self, side: Seq<T>) -> Seq<T> {
        side.subrange(self.start as int, self.start + self.len)
    }

    /// Checks `fits` on an exact length.
    pub fn fits_in(&self, n: usize) -> (r: bool)
        ensures
            r == self.fits(n as nat),
    {
        (self.start as u64) + (self.len as u64) <= (n as u64)
    }
}

#[derive(Debug)]
pub struct EntryRecord {
    pub lexeme_id: u32,
    pub word: StringId,
    pub entry_id: StringId,
    pub text: Option<TextId>,
    pub is_stopword: bool,
    pub stopword_reason: Option<StringId>,
    pub parts_of_speech: Range,
    pub senses: Range,
    pub has_etymology: bool,
    pub etymology_summary: Option<StringId>,
    pub etymology_cognates: Range,
    pub has_encyclopedia: bool,
    pub encyclopedia_entry: Option<TextId>,
    pub all_definitions: Range,
    pub all_synonyms: Range,
    pub all_antonyms: Range,
    pub all_hypernyms: Range,
    pub all_hyponyms: Range,
    pub all_collocations: Range,
    pub all_inflections: Range,
    pub all_derivations: Range,
    pub all_examples: Range,
    pub synonym_neighbors: Range,
    pub antonym_neighbors: Range,
    pub hypernym_neighbors: Range,
    pub hyponym_neighbors: Range,
}

#[derive(Debug)]
pub struct SenseRecord {
    pub lexeme_id: u32,
    pub part_of_speech: Option<StringId>,
    pub sense_index: i32,
    pub definition: Option<StringId>,
    pub synonyms: Range,
    pub antonyms: Range,
    pub hypernyms: Range,
    pub hyponyms: Range,
    pub examples: Range,
}

/// Short strings, each one an independently compressed frame inside `data`.
#[derive(Debug)]
pub struct PackedStrings {
    pub offsets: Vec<u32>,
    pub lengths: Vec<u32>,
    pub data: Vec<u8>,
}

/// Long documents, each one an independently compressed frame inside `data`.
#[derive(Debug)]
pub struct CompressedTextStore {
    pub offsets: Vec<u32>,
    pub lengths: Vec<u32>,
    pub data: Vec<u8>,
}

#[derive(Debug)]
pub struct DataStore {
    pub strings: PackedStrings,
    pub long_texts: CompressedTextStore,
    pub entries: Vec<EntryRecord>,
    pub entry_parts_of_speech: Vec<StringId>,
    pub senses: Vec<SenseRecord>,
    pub sense_synonyms: Vec<StringId>,
    pub sense_antonyms: Vec<StringId>,
    pub sense_hypernyms: Vec<StringId>,
    pub sense_hyponyms: Vec<StringId>,
    pub sense_examples: Vec<StringId>,
    pub entry_all_definitions: Vec<StringId>,
    pub entry_all_synonyms: Vec<StringId>,
    pub entry_all_antonyms: Vec<StringId>,
    pub entry_all_hypernyms: Vec<StringId>,
    pub entry_all_hyponyms: Vec<StringId>,
    pub entry_all_collocations: Vec<StringId>,
    pub entry_all_inflections: Vec<StringId>,
    pub entry_all_derivations: Vec<StringId>,
    pub entry_all_examples: Vec<StringId>,
    pub entry_etymology_cognates: Vec<StringId>,
    pub entry_synonym_neighbors: Vec<u32>,
    pub entry_antonym_neighbors: Vec<u32>,
    pub entry_hypernym_neighbors: Vec<u32>,
    pub entry_hyponym_neighbors: Vec<u32>,
}

/// Every frame of a pool lies inside its byte buffer.
pub open spec fn pool_ok(offsets: Seq<u32>, lengths: Seq<u32>, data_len: nat) -> bool {
    &&& offsets.len() == lengths.len()
    &&& forall|i: int| 0 <= i < offsets.len() ==> offsets[i] + lengths[i] <= data_len
}

/// The compressed bytes of frame `i` of a pool.
pub open spec fn frame(offsets: Seq<u32>, lengths: Seq<u32>, data: Seq<u8>, i: int) -> Seq<u8> {
    data.subrange(offsets[i] as int, offsets[i] + lengths[i])
}

/// Every id of `ids` is below `bound`.
pub open spec fn ids_below(ids: Seq<u32>, bound: nat) -> bool {
    forall|i: int| 0 <= i < ids.len() ==> ids[i] < bound
}

pub open spec fn opt_below(id: Option<u32>, bound: nat) -> bool {
    match id {
        Some(v) => v < bound,
        None => true,
    }
}

impl PackedStrings {
    pub open spec fn count(&self) -> nat {
        self.offsets@.len()
    }

    pub open spec fn wf(&self) -> bool {
        pool_ok(self.offsets@, self.lengths@, self.data@.len())
    }

    /// The compressed frame of string `i`.
    pub open spec fn frame_of(&self, i: int) -> Seq<u8> {
        frame(self.offsets@, self.lengths@, self.data@, i)
    }
}

impl CompressedTextStore {
    pub open spec fn count(&self) -> nat {
        self.offsets@.len()
    }

    pub open spec fn wf(&self) -> bool {
        pool_ok(self.offsets@, self.lengths@, self.data@.len())
    }

    /// The compressed frame of document `i`.
    pub open spec fn frame_of(&self, i: int) -> Seq<u8> {
        frame(self.offsets@, self.lengths@, self.data@, i)
    }
}

impl DataStore {
    pub open spec fn n_strings(&self) -> nat {
        self.strings.count()
    }

    pub open spec fn n_entries(&self) -> nat {
        self.entries@.len()
    }

    /// The side arrays of string ids hold only valid string ids.
    pub open spec fn side_arrays_ok(&self) -> bool {
        let n = self.n_strings();
        &&& ids_below(self.entry_parts_of_speech@, n)
        &&& ids_below(self.sense_synonyms@, n)
        &&& ids_below(self.sense_antonyms@, n)
        &&& ids_below(self.sense_hypernyms@, n)
        &&& ids_below(self.sense_hyponyms@, n)
        &&& ids_below(self.sense_examples@, n)
        &&& ids_below(self.entry_all_definitions@, n)
        &&& ids_below(self.entry_all_synonyms@, n)
        &&& ids_below(self.entry_all_antonyms@, n)
        &&& ids_below(self.entry_all_hypernyms@, n)
        &&& ids_below(self.entry_all_hyponyms@, n)
        &&& ids_below(self.entry_all_collocations@, n)
        &&& ids_below(self.entry_all_inflections@, n)
        &&& ids_below(self.entry_all_derivations@, n)
        &&& ids_below(self.entry_all_examples@, n)
        &&& ids_below(self.entry_etymology_cognates@, n)
        &&& ids_below(self.entry_synonym_neighbors@, self.n_entries())
        &&& ids_below(self.entry_antonym_neighbors@, self.n_entries())
        &&& ids_below(self.entry_hypernym_neighbors@, self.n_entries())
        &&& ids_below(self.entry_hyponym_neighbors@, self.n_entries())
    }

    /// Entry `i` carries id `i` and points only at valid ids and ranges.
    pub open spec fn entry_ok(&self, i: int) -> bool {
        let e = self.entries@[i];
        let n = self.n_strings();
        &&& e.lexeme_id == i
        &&& e.word < n
        &&& e.entry_id < n
        &&& opt_below(e.stopword_reason, n)
        &&& opt_below(e.etymology_summary, n)
        &&& opt_below(e.text, self.long_texts.count())
        &&& opt_below(e.encyclopedia_entry, self.long_texts.count())
        &&& e.parts_of_speech.fits(self.entry_parts_of_speech@.len())
        &&& e.senses.fits(self.senses@.len())
        &&& e.etymology_cognates.fits(self.entry_etymology_cognates@.len())
        &&& e.all_definitions.fits(self.entry_all_definitions@.len())
        &&& e.all_synonyms.fits(self.entry_all_synonyms@.len())
        &&& e.all_antonyms.fits(self.entry_all_antonyms@.len())
        &&& e.all_hypernyms.fits(self.entry_all_hypernyms@.len())
        &&& e.all_hyponyms.fits(self.entry_all_hyponyms@.len())
        &&& e.all_collocations.fits(self.entry_all_collocations@.len())
        &&& e.all_inflections.fits(self.entry_all_inflections@.len())
        &&& e.all_derivations.fits(self.entry_all_derivations@.len())
        &&& e.all_examples.fits(self.entry_all_examples@.len())
        &&& e.synonym_neighbors.fits(self.entry_synonym_neighbors@.len())
        &&& e.antonym_neighbors.fits(self.entry_antonym_neighbors@.len())
        &&& e.hypernym_neighbors.fits(self.entry_hypernym_neighbors@.len())
        &&& e.hyponym_neighbors.fits(self.entry_hyponym_neighbors@.len())
    }

    /// Sense `j` points only at valid ids and ranges.
    pub open spec fn sense_ok(&self, j: int) -> bool {
        let s = self.senses@[j];
        let n = self.n_strings();
        &&& opt_below(s.part_of_speech, n)
        &&& opt_below(s.definition, n)
        &&& s.synonyms.fits(self.sense_synonyms@.len())
        &&& s.antonyms.fits(self.sense_antonyms@.len())
        &&& s.hypernyms.fits(self.sense_hypernyms@.len())
        &&& s.hyponyms.fits(self.sense_hyponyms@.len())
        &&& s.examples.fits(self.sense_examples@.len())
    }

    /// The layout invariants of a sealed archive.
    pub open spec fn wf(&self) -> bool {
        &&& self.strings.wf()
        &&& self.long_texts.wf()
        &&& self.entries@.len() < u32::MAX
        &&& self.side_arrays_ok()
        &&& forall|i: int| 0 <= i < self.entries@.len() ==> #[trigger] self.entry_ok(i)
        &&& forall|j: int| 0 <= j < self.senses@.len() ==> #[trigger] self.sense_ok(j)
    }
}

} // verus!
