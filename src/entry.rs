//! Read access to one lexeme's entry and to its senses.
use vstd::prelude::*;
use vstd::string::*;
use crate::data::{ids_below, Range};
use crate::index::LexemeIndex;
use crate::loader::{frame_text, frame_to_text};

verus! {

/// A typed neighbor relation between lexemes.
#[derive(Debug, Clone, Copy, PartialEq, Eq, Hash)]
pub enum RelationKind {
    Synonym,
    Antonym,
    Hypernym,
    Hyponym,
}

impl RelationKind {
    pub fn label(self) -> (r: &'static str)
        ensures
            r@ == self.label_spec(),
    {
        match self {
            RelationKind::Synonym => "synonym",
            RelationKind::Antonym => "antonym",
            RelationKind::Hypernym => "hypernym",
            RelationKind::Hyponym => "hyponym",
        }
    }

    pub open spec fn label_spec(self) -> Seq<char> {
        match self {
            RelationKind::Synonym => "synonym"@,
            RelationKind::Antonym => "antonym"@,
            RelationKind::Hypernym => "hypernym"@,
            RelationKind::Hyponym => "hyponym"@,
        }
    }

    /// The four relations, in their fixed default order.
    pub fn all() -> (r: Vec<RelationKind>)
        ensures
            r@ == seq![
                RelationKind::Synonym,
                RelationKind::Antonym,
                RelationKind::Hypernym,
                RelationKind::Hyponym,
            ],
    {
        let r = vec![
            RelationKind::Synonym,
            RelationKind::Antonym,
            RelationKind::Hypernym,
            RelationKind::Hyponym,
        ];
        assert(r@ =~= seq![
            RelationKind::Synonym,
            RelationKind::Antonym,
            RelationKind::Hypernym,
            RelationKind::Hyponym,
        ]);
        r
    }
}

pub open spec fn strs_view(v: Seq<&str>) -> Seq<Seq<char>> {
    v.map_values(|s: &str| s@)
}

impl LexemeIndex {
    /// The short strings that `range` selects from `side`.
    pub open spec fn string_list(&self, range: Range, side: Seq<u32>) -> Seq<Seq<char>> {
        range.select(side).map_values(|sid: u32| self.string(sid as int))
    }

    /// The neighbors of lexeme `id` under `rel`, in stored order.
    pub open spec fn neighbors(&self, id: int, rel: RelationKind) -> Seq<u32> {
        let e = self.store.entries@[id];
        match rel {
            RelationKind::Synonym => e.synonym_neighbors.select(self.store.entry_synonym_neighbors@),
            RelationKind::Antonym => e.antonym_neighbors.select(self.store.entry_antonym_neighbors@),
            RelationKind::Hypernym => e.hypernym_neighbors.select(self.store.entry_hypernym_neighbors@),
            RelationKind::Hyponym => e.hyponym_neighbors.select(self.store.entry_hyponym_neighbors@),
        }
    }

    /// The text of an optional long document.
    pub open spec fn opt_text(&self, t: Option<u32>) -> Option<Seq<char>> {
        match t {
            Some(tid) => Some(self.long_text(tid as int)),
            None => None,
        }
    }

    /// The text of an optional short string.
    pub open spec fn opt_string(&self, s: Option<u32>) -> Option<Seq<char>> {
        match s {
            Some(sid) => Some(self.string(sid as int)),
            None => None,
        }
    }

    /// The short strings that `range` selects from `side`.
    pub fn strings_in<'a>(&'a self, range: Range, side: &Vec<u32>) -> (r: Vec<&'a str>)
        requires
            self.wf(),
            range.fits(side@.len()),
            ids_below(side@, self.store.n_strings()),
        ensures
            strs_view(r@) == self.string_list(range, side@),
    {
        let mut out: Vec<&'a str> = Vec::new();
        let n: usize = side.len();
        let mut i: u32 = 0;
        while i < range.len
            invariant
                n == side@.len(),
                self.wf(),
                range.fits(side@.len()),
                ids_below(side@, self.store.n_strings()),
                i <= range.len,
                out@.len() == i,
                forall|k: int| 0 <= k < i ==> (#[trigger] out@[k])@ == self.string(side@[range.start + k] as int),
            decreases range.len - i,
        {
            let sid = side[range.start as usize + i as usize];
            out.push(self.strings[sid as usize].as_str());
            i = i + 1;
        }
        assert(strs_view(out@) =~= self.string_list(range, side@));
        out
    }

    /// The long document `tid` as text.
    fn text_of(&self, tid: u32) -> (r: String)
        requires
            self.wf(),
            tid < self.store.long_texts.count(),
        ensures
            r@ == self.long_text(tid as int),
    {
        let t = &self.store.long_texts;
        assert(frame_text(t.frame_of(tid as int)) is Some);
        match frame_to_text(&t.offsets, &t.lengths, &t.data, tid as usize) {
            Some(s) => s,
            None => {
                proof {
                    assert(false);
                }
                String::new()
            },
        }
    }

    fn opt_text_of(&self, t: Option<u32>) -> (r: Option<String>)
        requires
            self.wf(),
            t matches Some(tid) ==> tid < self.store.long_texts.count(),
        ensures
            match r {
                Some(s) => self.opt_text(t) == Some(s@),
                None => t is None,
            },
    {
        match t {
            Some(tid) => Some(self.text_of(tid)),
            None => None,
        }
    }

    fn opt_str<'a>(&'a self, s: Option<u32>) -> (r: Option<&'a str>)
        requires
            self.wf(),
            s matches Some(sid) ==> sid < self.store.n_strings(),
        ensures
            match r {
                Some(x) => self.opt_string(s) == Some(x@),
                None => s is None,
            },
    {
        match s {
            Some(sid) => Some(self.strings[sid as usize].as_str()),
            None => None,
        }
    }

    /// The entry of lexeme `lexeme_id`, if the archive holds it.
    pub fn entry_by_id(&self, lexeme_id: u32) -> (r: Option<LexemeEntry<'_>>)
        requires
            self.wf(),
        ensures
            r is Some <==> lexeme_id < self.n(),
            r matches Some(e) ==> e.index == self && e.id == lexeme_id,
    {
        if (lexeme_id as usize) < self.store.entries.len() {
            Some(LexemeEntry { index: self, id: lexeme_id })
        } else {
            None
        }
    }

    /// The entry whose word is exactly `word`, if the lexicon holds it.
    pub fn entry_by_word(&self, word: &str) -> (r: Option<LexemeEntry<'_>>)
        requires
            self.wf(),
        ensures
            r is Some <==> self.lookup(word.spec_bytes()) is Some,
            r matches Some(e) ==> e.index == self && Some(e.id) == self.lookup(word.spec_bytes())
                && self.word_of(e.id as int) == word@,
    {
        match self.get(word) {
            Some(id) => self.entry_by_id(id),
            None => None,
        }
    }
}

/// The entry of one lexeme.
pub struct LexemeEntry<'a> {
    pub index: &'a LexemeIndex,
    pub id: u32,
}

impl<'a> LexemeEntry<'a> {
    pub open spec fn valid(&self) -> bool {
        self.index.wf() && self.id < self.index.n()
    }

    pub open spec fn record(&self) -> crate::data::EntryRecord {
        self.index.store.entries@[self.id as int]
    }

    pub fn lexeme_id(&self) -> (r: u32)
        requires
            self.valid(),
        ensures
            r == self.id,
            r == self.record().lexeme_id,
    {
        proof {
            assert(self.index.store.entry_ok(self.id as int));
        }
        self.index.store.entries[self.id as usize].lexeme_id
    }

    pub fn word(&self) -> (r: &'a str)
        requires
            self.valid(),
        ensures
            r@ == self.index.word_of(self.id as int),
    {
        proof {
            assert(self.index.store.entry_ok(self.id as int));
        }
        let w = self.index.store.entries[self.id as usize].word;
        self.index.strings[w as usize].as_str()
    }

    pub fn text(&self) -> (r: Option<String>)
        requires
            self.valid(),
        ensures
            match r {
                Some(s) => self.index.opt_text(self.record().text) == Some(s@),
                None => self.record().text is None,
            },
    {
        proof {
            assert(self.index.store.entry_ok(self.id as int));
        }
        self.index.opt_text_of(self.index.store.entries[self.id as usize].text)
    }

    pub fn entry_id(&self) -> (r: &'a str)
        requires
            self.valid(),
        ensures
            r@ == self.index.string(self.record().entry_id as int),
    {
        proof {
            assert(self.index.store.entry_ok(self.id as int));
        }
        let s = self.index.store.entries[self.id as usize].entry_id;
        self.index.strings[s as usize].as_str()
    }

    pub fn is_stopword(&self) -> (r: bool)
        requires
            self.valid(),
        ensures
            r == self.record().is_stopword,
    {
        self.index.store.entries[self.id as usize].is_stopword
    }

    pub fn stopword_reason(&self) -> (r: Option<&'a str>)
        requires
            self.valid(),
        ensures
            match r {
                Some(x) => self.index.opt_string(self.record().stopword_reason) == Some(x@),
                None => self.record().stopword_reason is None,
            },
    {
        proof {
            assert(self.index.store.entry_ok(self.id as int));
        }
        self.index.opt_str(self.index.store.entries[self.id as usize].stopword_reason)
    }

    pub fn has_etymology(&self) -> (r: bool)
        requires
            self.valid(),
        ensures
            r == self.record().has_etymology,
    {
        self.index.store.entries[self.id as usize].has_etymology
    }

    pub fn etymology_summary(&self) -> (r: Option<&'a str>)
        requires
            self.valid(),
        ensures
            match r {
                Some(x) => self.index.opt_string(self.record().etymology_summary) == Some(x@),
                None => self.record().etymology_summary is None,
            },
    {
        proof {
            assert(self.index.store.entry_ok(self.id as int));
        }
        self.index.opt_str(self.index.store.entries[self.id as usize].etymology_summary)
    }

    pub fn has_encyclopedia(&self) -> (r: bool)
        requires
            self.valid(),
        ensures
            r == self.record().has_encyclopedia,
    {
        self.index.store.entries[self.id as usize].has_encyclopedia
    }

    pub fn encyclopedia_entry(&self) -> (r: Option<String>)
        requires
            self.valid(),
        ensures
            match r {
                Some(s) => self.index.opt_text(self.record().encyclopedia_entry) == Some(s@),
                None => self.record().encyclopedia_entry is None,
            },
    {
        proof {
            assert(self.index.store.entry_ok(self.id as int));
        }
        self.index.opt_text_of(self.index.store.entries[self.id as usize].encyclopedia_entry)
    }

    pub fn parts_of_speech(&self) -> (r: Vec<&'a str>)
        requires
            self.valid(),
        ensures
            strs_view(r@) == self.index.string_list(
                self.record().parts_of_speech,
                self.index.store.entry_parts_of_speech@,
            ),
    {
        proof {
            assert(self.index.store.entry_ok(self.id as int));
        }
        let e = &self.index.store.entries[self.id as usize];
        self.index.strings_in(e.parts_of_speech, &self.index.store.entry_parts_of_speech)
    }

    pub fn etymology_cognates(&self) -> (r: Vec<&'a str>)
        requires
            self.valid(),
        ensures
            strs_view(r@) == self.index.string_list(
                self.record().etymology_cognates,
                self.index.store.entry_etymology_cognates@,
            ),
    {
        proof {
            assert(self.index.store.entry_ok(self.id as int));
        }
        let e = &self.index.store.entries[self.id as usize];
        self.index.strings_in(e.etymology_cognates, &self.index.store.entry_etymology_cognates)
    }

    pub fn all_definitions(&self) -> (r: Vec<&'a str>)
        requires
            self.valid(),
        ensures
            strs_view(r@) == self.index.string_list(
                self.record().all_definitions,
                self.index.store.entry_all_definitions@,
            ),
    {
        proof {
            assert(self.index.store.entry_ok(self.id as int));
        }
        let e = &self.index.store.entries[self.id as usize];
        self.index.strings_in(e.all_definitions, &self.index.store.entry_all_definitions)
    }

    pub fn all_synonyms(&self) -> (r: Vec<&'a str>)
        requires
            self.valid(),
        ensures
            strs_view(r@) == self.index.string_list(
                self.record().all_synonyms,
                self.index.store.entry_all_synonyms@,
            ),
    {
        proof {
            assert(self.index.store.entry_ok(self.id as int));
        }
        let e = &self.index.store.entries[self.id as usize];
        self.index.strings_in(e.all_synonyms, &self.index.store.entry_all_synonyms)
    }

    pub fn all_antonyms(&self) -> (r: Vec<&'a str>)
        requires
            self.valid(),
        ensures
            strs_view(r@) == self.index.string_list(
                self.record().all_antonyms,
                self.index.store.entry_all_antonyms@,
            ),
    {
        proof {
            assert(self.index.store.entry_ok(self.id as int));
        }
        let e = &self.index.store.entries[self.id as usize];
        self.index.strings_in(e.all_antonyms, &self.index.store.entry_all_antonyms)
    }

    pub fn all_hypernyms(&self) -> (r: Vec<&'a str>)
        requires
            self.valid(),
        ensures
            strs_view(r@) == self.index.string_list(
                self.record().all_hypernyms,
                self.index.store.entry_all_hypernyms@,
            ),
    {
        proof {
            assert(self.index.store.entry_ok(self.id as int));
        }
        let e = &self.index.store.entries[self.id as usize];
        self.index.strings_in(e.all_hypernyms, &self.index.store.entry_all_hypernyms)
    }

    pub fn all_hyponyms(&self) -> (r: Vec<&'a str>)
        requires
            self.valid(),
        ensures
            strs_view(r@) == self.index.string_list(
                self.record().all_hyponyms,
                self.index.store.entry_all_hyponyms@,
            ),
    {
        proof {
            assert(self.index.store.entry_ok(self.id as int));
        }
        let e = &self.index.store.entries[self.id as usize];
        self.index.strings_in(e.all_hyponyms, &self.index.store.entry_all_hyponyms)
    }

    pub fn all_collocations(&self) -> (r: Vec<&'a str>)
        requires
            self.valid(),
        ensures
            strs_view(r@) == self.index.string_list(
                self.record().all_collocations,
                self.index.store.entry_all_collocations@,
            ),
    {
        proof {
            assert(self.index.store.entry_ok(self.id as int));
        }
        let e = &self.index.store.entries[self.id as usize];
        self.index.strings_in(e.all_collocations, &self.index.store.entry_all_collocations)
    }

    pub fn all_inflections(&self) -> (r: Vec<&'a str>)
        requires
            self.valid(),
        ensures
            strs_view(r@) == self.index.string_list(
                self.record().all_inflections,
                self.index.store.entry_all_inflections@,
            ),
    {
        proof {
            assert(self.index.store.entry_ok(self.id as int));
        }
        let e = &self.index.store.entries[self.id as usize];
        self.index.strings_in(e.all_inflections, &self.index.store.entry_all_inflections)
    }

    pub fn all_derivations(&self) -> (r: Vec<&'a str>)
        requires
            self.valid(),
        ensures
            strs_view(r@) == self.index.string_list(
                self.record().all_derivations,
                self.index.store.entry_all_derivations@,
            ),
    {
        proof {
            assert(self.index.store.entry_ok(self.id as int));
        }
        let e = &self.index.store.entries[self.id as usize];
        self.index.strings_in(e.all_derivations, &self.index.store.entry_all_derivations)
    }

    pub fn all_examples(&self) -> (r: Vec<&'a str>)
        requires
            self.valid(),
        ensures
            strs_view(r@) == self.index.string_list(
                self.record().all_examples,
                self.index.store.entry_all_examples@,
            ),
    {
        proof {
            assert(self.index.store.entry_ok(self.id as int));
        }
        let e = &self.index.store.entries[self.id as usize];
        self.index.strings_in(e.all_examples, &self.index.store.entry_all_examples)
    }

    /// The neighbors of this lexeme under `relation`, in stored order; each is
    /// the id of an entry of the archive.
    pub fn neighbor_ids(&self, relation: RelationKind) -> (r: Vec<u32>)
        requires
            self.valid(),
        ensures
            r@ == self.index.neighbors(self.id as int, relation),
            forall|i: int| 0 <= i < r@.len() ==> #[trigger] r@[i] < self.index.n(),
    {
        proof {
            assert(self.index.store.entry_ok(self.id as int));
        }
        let e = &self.index.store.entries[self.id as usize];
        let (range, side) = match relation {
            RelationKind::Synonym => (e.synonym_neighbors, &self.index.store.entry_synonym_neighbors),
            RelationKind::Antonym => (e.antonym_neighbors, &self.index.store.entry_antonym_neighbors),
            RelationKind::Hypernym => (e.hypernym_neighbors, &self.index.store.entry_hypernym_neighbors),
            RelationKind::Hyponym => (e.hyponym_neighbors, &self.index.store.entry_hyponym_neighbors),
        };
        let mut out: Vec<u32> = Vec::new();
        let n: usize = side.len();
        let mut i: u32 = 0;
        while i < range.len
            invariant
                n == side@.len(),
                range.fits(side@.len()),
                ids_below(side@, self.index.n()),
                i <= range.len,
                out@ == range.select(side@).take(i as int),
            decreases range.len - i,
        {
            out.push(side[range.start as usize + i as usize]);
            proof {
                assert(out@ =~= range.select(side@).take(i + 1));
            }
            i = i + 1;
        }
        assert(out@ =~= range.select(side@));
        out
    }

    pub fn synonym_neighbor_ids(&self) -> (r: Vec<u32>)
        requires
            self.valid(),
        ensures
            r@ == self.index.neighbors(self.id as int, RelationKind::Synonym),
            forall|i: int| 0 <= i < r@.len() ==> #[trigger] r@[i] < self.index.n(),
    {
        self.neighbor_ids(RelationKind::Synonym)
    }

    pub fn antonym_neighbor_ids(&self) -> (r: Vec<u32>)
        requires
            self.valid(),
        ensures
            r@ == self.index.neighbors(self.id as int, RelationKind::Antonym),
            forall|i: int| 0 <= i < r@.len() ==> #[trigger] r@[i] < self.index.n(),
    {
        self.neighbor_ids(RelationKind::Antonym)
    }

    pub fn hypernym_neighbor_ids(&self) -> (r: Vec<u32>)
        requires
            self.valid(),
        ensures
            r@ == self.index.neighbors(self.id as int, RelationKind::Hypernym),
            forall|i: int| 0 <= i < r@.len() ==> #[trigger] r@[i] < self.index.n(),
    {
        self.neighbor_ids(RelationKind::Hypernym)
    }

    pub fn hyponym_neighbor_ids(&self) -> (r: Vec<u32>)
        requires
            self.valid(),
        ensures
            r@ == self.index.neighbors(self.id as int, RelationKind::Hyponym),
            forall|i: int| 0 <= i < r@.len() ==> #[trigger] r@[i] < self.index.n(),
    {
        self.neighbor_ids(RelationKind::Hyponym)
    }

    /// The senses of this entry, in stored order.
    pub fn senses(&self) -> (r: Vec<SenseRef<'a>>)
        requires
            self.valid(),
        ensures
            r@.len() == self.record().senses.len,
            forall|i: int|
                0 <= i < r@.len() ==> (#[trigger] r@[i]).index == self.index && r@[i].pos
                    == self.record().senses.start + i,
    {
        proof {
            assert(self.index.store.entry_ok(self.id as int));
        }
        let range = self.index.store.entries[self.id as usize].senses;
        let mut out: Vec<SenseRef<'a>> = Vec::new();
        let n: usize = self.index.store.senses.len();
        let mut i: u32 = 0;
        while i < range.len
            invariant
                n == self.index.store.senses@.len(),
                range == self.record().senses,
                range.fits(self.index.store.senses@.len()),
                i <= range.len,
                out@.len() == i,
                forall|k: int|
                    0 <= k < i ==> (#[trigger] out@[k]).index == self.index && out@[k].pos
                        == range.start + k,
            decreases range.len - i,
        {
            out.push(SenseRef { index: self.index, pos: range.start as usize + i as usize });
            i = i + 1;
        }
        out
    }
}

/// One sense of an entry.
pub struct SenseRef<'a> {
    pub index: &'a LexemeIndex,
    /// Position of the sense in the archive's sense array.
    pub pos: usize,
}

impl<'a> SenseRef<'a> {
    pub open spec fn valid(&self) -> bool {
        self.index.wf() && self.pos < self.index.store.senses@.len()
    }

    pub open spec fn record(&self) -> crate::data::SenseRecord {
        self.index.store.senses@[self.pos as int]
    }

    pub fn lexeme_id(&self) -> (r: u32)
        requires
            self.valid(),
        ensures
            r == self.record().lexeme_id,
    {
        self.index.store.senses[self.pos].lexeme_id
    }

    pub fn sense_index(&self) -> (r: i32)
        requires
            self.valid(),
        ensures
            r == self.record().sense_index,
    {
        self.index.store.senses[self.pos].sense_index
    }

    pub fn part_of_speech(&self) -> (r: Option<&'a str>)
        requires
            self.valid(),
        ensures
            match r {
                Some(x) => self.index.opt_string(self.record().part_of_speech) == Some(x@),
                None => self.record().part_of_speech is None,
            },
    {
        proof {
            assert(self.index.store.sense_ok(self.pos as int));
        }
        self.index.opt_str(self.index.store.senses[self.pos].part_of_speech)
    }

    pub fn definition(&self) -> (r: Option<&'a str>)
        requires
            self.valid(),
        ensures
            match r {
                Some(x) => self.index.opt_string(self.record().definition) == Some(x@),
                None => self.record().definition is None,
            },
    {
        proof {
            assert(self.index.store.sense_ok(self.pos as int));
        }
        self.index.opt_str(self.index.store.senses[self.pos].definition)
    }

    pub fn synonyms(&self) -> (r: Vec<&'a str>)
        requires
            self.valid(),
        ensures
            strs_view(r@) == self.index.string_list(self.record().synonyms, self.index.store.sense_synonyms@),
    {
        proof {
            assert(self.index.store.sense_ok(self.pos as int));
        }
        let s = &self.index.store.senses[self.pos];
        self.index.strings_in(s.synonyms, &self.index.store.sense_synonyms)
    }

    pub fn antonyms(&self) -> (r: Vec<&'a str>)
        requires
            self.valid(),
        ensures
            strs_view(r@) == self.index.string_list(self.record().antonyms, self.index.store.sense_antonyms@),
    {
        proof {
            assert(self.index.store.sense_ok(self.pos as int));
        }
        let s = &self.index.store.senses[self.pos];
        self.index.strings_in(s.antonyms, &self.index.store.sense_antonyms)
    }

    pub fn hypernyms(&self) -> (r: Vec<&'a str>)
        requires
            self.valid(),
        ensures
            strs_view(r@) == self.index.string_list(self.record().hypernyms, self.index.store.sense_hypernyms@),
    {
        proof {
            assert(self.index.store.sense_ok(self.pos as int));
        }
        let s = &self.index.store.senses[self.pos];
        self.index.strings_in(s.hypernyms, &self.index.store.sense_hypernyms)
    }

    pub fn hyponyms(&self) -> (r: Vec<&'a str>)
        requires
            self.valid(),
        ensures
            strs_view(r@) == self.index.string_list(self.record().hyponyms, self.index.store.sense_hyponyms@),
    {
        proof {
            assert(self.index.store.sense_ok(self.pos as int));
        }
        let s = &self.index.store.senses[self.pos];
        self.index.strings_in(s.hyponyms, &self.index.store.sense_hyponyms)
    }

    pub fn examples(&self) -> (r: Vec<&'a str>)
        requires
            self.valid(),
        ensures
            strs_view(r@) == self.index.string_list(self.record().examples, self.index.store.sense_examples@),
    {
        proof {
            assert(self.index.store.sense_ok(self.pos as int));
        }
        let s = &self.index.store.senses[self.pos];
        self.index.strings_in(s.examples, &self.index.store.sense_examples)
    }
}

/// Every entry of the archive carries its own position as lexeme id.
pub proof fn lemma_entry_carries_its_id(idx: LexemeIndex, id: int)
    requires
        idx.wf(),
        0 <= id < idx.n(),
    ensures
        idx.store.entries@[id].lexeme_id == id,
{
    assert(idx.store.entry_ok(id));
}

/// Every neighbor of every entry, under every relation, is the id of an entry.
pub proof fn lemma_neighbors_resolve(idx: LexemeIndex, id: int, rel: RelationKind, k: int)
    requires
        idx.wf(),
        0 <= id < idx.n(),
        0 <= k < idx.neighbors(id, rel).len(),
    ensures
        idx.neighbors(id, rel)[k] < idx.n(),
{
    assert(idx.store.entry_ok(id));
    let e = idx.store.entries@[id];
    match rel {
        RelationKind::Synonym => assert(idx.store.entry_synonym_neighbors@[e.synonym_neighbors.start + k] < idx.n()),
        RelationKind::Antonym => assert(idx.store.entry_antonym_neighbors@[e.antonym_neighbors.start + k] < idx.n()),
        RelationKind::Hypernym => assert(idx.store.entry_hypernym_neighbors@[e.hypernym_neighbors.start + k] < idx.n()),
        RelationKind::Hyponym => assert(idx.store.entry_hyponym_neighbors@[e.hyponym_neighbors.start + k] < idx.n()),
    }
}

/// Every word of the lexicon leads to an entry with that very word: looking
/// the word up gives an id whose entry carries that id and that word.
pub proof fn lemma_lexicon_words_resolve(idx: LexemeIndex, i: int)
    requires
        idx.wf(),
        0 <= i < idx.keys().len(),
    ensures
        idx.lookup(idx.keys()[i].0) is Some,
        idx.lookup(idx.keys()[i].0)->0 < idx.n(),
        idx.store.entries@[idx.lookup(idx.keys()[i].0)->0 as int].lexeme_id == idx.lookup(idx.keys()[i].0)->0,
        vstd::utf8::encode_utf8(idx.word_of(idx.lookup(idx.keys()[i].0)->0 as int)) == idx.keys()[i].0,
{
    let key = idx.keys()[i].0;
    assert(idx.keys()[i].0 == key);
    assert forall|c: int| 0 <= c < idx.keys().len() && (#[trigger] idx.keys()[c]).0 == key implies {
        &&& idx.keys()[c].1 < idx.n()
        &&& idx.keys()[c].1 as u32 == idx.keys()[c].1
        &&& idx.store.entries@[idx.keys()[c].1 as int].lexeme_id == idx.keys()[c].1
        &&& vstd::utf8::encode_utf8(idx.word_of(idx.keys()[c].1 as int)) == key
    } by {
        assert(idx.store.entry_ok(idx.keys()[c].1 as int));
    }
}

} // verus!
