//! The query façade: the lexicon (an FST from word to lexeme id), the sealed
//! archive, the resolved short strings and the two result caches.
use vstd::prelude::*;
use vstd::string::*;
use vstd::utf8::*;
use crate::bindings::{
    cached_matches, cached_rankings, fst_all, fst_entries, fst_get, fst_prefix, match_cache_get,
    match_cache_put, match_rows_view, new_match_cache, new_rank_cache, utf8_string, MatchCache,
    RankCache,
};
use crate::data::DataStore;
use crate::lexical::{
    bytes_lt, contains_bytes, is_infix, is_prefix, key_has_infix, key_has_prefix, keys_increasing, lemma_filter_from,
    lemma_filter_step, pairs_view, same_bytes, value_for,
};
use crate::loader::{frame_text, layout_ok, pool_texts_ok, resolve_pool, texts_readable};

verus! {

broadcast use vstd::utf8::group_utf8_lib;

/// Capacity of the cache of substring scans.
pub const SUBSTRING_CACHE_CAPACITY: usize = 64;

/// Capacity of the cache of fuzzy rankings.
pub const FUZZY_CACHE_CAPACITY: usize = 32;

/// Lexicon entries as `(word, id)` rows.
pub open spec fn as_rows(s: Seq<(Seq<u8>, u64)>) -> Seq<(Seq<char>, u32)> {
    s.map_values(|e: (Seq<u8>, u64)| (decode_utf8(e.0), e.1 as u32))
}

pub open spec fn min_len(a: nat, b: nat) -> nat {
    if a <= b {
        a
    } else {
        b
    }
}

pub struct LexemeIndex {
    pub lexicon: fst::Map<Vec<u8>>,
    pub store: DataStore,
    pub strings: Vec<String>,
    pub substring_cache: MatchCache,
    pub fuzzy_cache: RankCache,
}

impl LexemeIndex {
    /// The lexicon as `(key bytes, id)` pairs in key order.
    pub open spec fn keys(&self) -> Seq<(Seq<u8>, u64)> {
        fst_entries(self.lexicon)
    }

    pub open spec fn n(&self) -> nat {
        self.store.entries@.len()
    }

    /// The resolved short string `sid`.
    pub open spec fn string(&self, sid: int) -> Seq<char> {
        self.strings@[sid]@
    }

    /// The surface word of lexeme `id`.
    pub open spec fn word_of(&self, id: int) -> Seq<char> {
        self.string(self.store.entries@[id].word as int)
    }

    /// The text of long document `tid`.
    pub open spec fn long_text(&self, tid: int) -> Seq<char> {
        frame_text(self.store.long_texts.frame_of(tid))->0
    }

    /// The lexeme id that the lexicon stores under exactly `key`.
    pub open spec fn lookup(&self, key: Seq<u8>) -> Option<u32> {
        match value_for(self.keys(), key) {
            Some(v) => Some(v as u32),
            None => None,
        }
    }

    /// The lexicon entries whose key starts with the bytes of `p`.
    pub open spec fn prefix_hits(&self, p: Seq<char>) -> Seq<(Seq<u8>, u64)> {
        self.keys().filter(key_has_prefix(encode_utf8(p)))
    }

    /// The lexicon entries whose key contains the bytes of `p`.
    pub open spec fn substring_hits(&self, p: Seq<char>) -> Seq<(Seq<u8>, u64)> {
        self.keys().filter(key_has_infix(encode_utf8(p)))
    }

    /// Every cached substring scan is a leading part of the full list of matches.
    pub open spec fn substring_cache_ok(&self) -> bool {
        forall|p: Seq<char>| #[trigger]
            cached_matches(self.substring_cache).contains_key(p) ==> {
                let v = cached_matches(self.substring_cache)[p];
                v.len() <= self.substring_hits(p).len() && v == as_rows(self.substring_hits(p)).take(
                    v.len() as int,
                )
            }
    }

    /// The invariants of a loaded index.
    pub open spec fn wf(&self) -> bool {
        &&& self.store.wf()
        &&& self.strings@.len() == self.store.n_strings()
        &&& forall|i: int|
            0 <= i < self.strings@.len() ==> frame_text(self.store.strings.frame_of(i)) == Some(
                #[trigger] self.strings@[i]@,
            )
        &&& pool_texts_ok(
            self.store.long_texts.offsets@,
            self.store.long_texts.lengths@,
            self.store.long_texts.data@,
        )
        &&& self.lexicon_ok()
        &&& self.substring_cache_ok()
        &&& self.ranking_cache_ok()
    }

    /// The archive, the lexicon and the resolved strings of `other` are those of `self`.
    pub open spec fn same_data(&self, other: &LexemeIndex) -> bool {
        &&& self.lexicon == other.lexicon
        &&& self.store == other.store
        &&& self.strings == other.strings
    }

    /// The lexicon is consistent with the archive: every key is the word of the
    /// lexeme it maps to.
    pub open spec fn lexicon_ok(&self) -> bool {
        &&& keys_increasing(self.keys())
        &&& forall|i: int|
            0 <= i < self.keys().len() ==> (#[trigger] self.keys()[i]).1 < self.n()
                && self.keys()[i].0 == encode_utf8(self.word_of(self.keys()[i].1 as int))
        &&& forall|id: int|
            0 <= id < self.n() ==> #[trigger] value_for(self.keys(), encode_utf8(self.word_of(id)))
                == Some(id as u64)
    }

    /// The inputs from which `new` builds a working index.
    pub open spec fn loadable(lexicon: fst::Map<Vec<u8>>, store: DataStore) -> bool {
        &&& store.wf()
        &&& pool_texts_ok(store.strings.offsets@, store.strings.lengths@, store.strings.data@)
        &&& pool_texts_ok(store.long_texts.offsets@, store.long_texts.lengths@, store.long_texts.data@)
        &&& keys_increasing(fst_entries(lexicon))
        &&& forall|id: int|
            0 <= id < store.entries@.len() ==> #[trigger] value_for(
                fst_entries(lexicon),
                encode_utf8(frame_text(store.strings.frame_of(store.entries@[id].word as int))->0),
            ) == Some(id as u64)
        &&& forall|i: int|
            0 <= i < fst_entries(lexicon).len() ==> (#[trigger] fst_entries(lexicon)[i]).1
                < store.entries@.len() && fst_entries(lexicon)[i].0 == encode_utf8(
                frame_text(
                    store.strings.frame_of(store.entries@[fst_entries(lexicon)[i].1 as int].word as int),
                )->0,
            )
    }

    /// Opens an archive and its lexicon. Returns `None` when the archive breaks
    /// a layout invariant, a pooled string or document does not decompress to
    /// UTF-8 text, or a lexicon key is not the word of the lexeme it maps to.
    pub fn new(lexicon: fst::Map<Vec<u8>>, store: DataStore) -> (r: Option<LexemeIndex>)
        ensures
            r is Some <==> Self::loadable(lexicon, store),
            r matches Some(idx) ==> {
                &&& idx.wf()
                &&& idx.lexicon == lexicon
                &&& idx.store == store
                &&& cached_matches(idx.substring_cache).is_empty()
                &&& cached_rankings(idx.fuzzy_cache).is_empty()
            },
    {
        if !layout_ok(&store) {
            return None;
        }
        let strings = match resolve_pool(&store.strings) {
            Some(v) => v,
            None => {
                return None;
            },
        };
        if !texts_readable(&store.long_texts) {
            return None;
        }
        let all = fst_all(&lexicon);
        let mut i: usize = 0;
        while i < all.len()
            invariant
                store.wf(),
                strings@.len() == store.n_strings(),
                forall|k: int|
                    0 <= k < strings@.len() ==> frame_text(store.strings.frame_of(k)) == Some(
                        #[trigger] strings@[k]@,
                    ),
                pairs_view(all@) == fst_entries(lexicon),
                i <= all@.len(),
                forall|k: int|
                    0 <= k < i ==> (#[trigger] fst_entries(lexicon)[k]).1 < store.entries@.len()
                        && fst_entries(lexicon)[k].0 == encode_utf8(
                        strings@[store.entries@[fst_entries(lexicon)[k].1 as int].word as int]@,
                    ),
            decreases all@.len() - i,
        {
            assert(pairs_view(all@)[i as int] == (all@[i as int].0@, all@[i as int].1));
            let v: u64 = all[i].1;
            if v >= store.entries.len() as u64 {
                assert(!(fst_entries(lexicon)[i as int].1 < store.entries@.len()));
                return None;
            }
            let w = store.entries[v as usize].word as usize;
            assert(store.entry_ok(v as int));
            assert(frame_text(store.strings.frame_of(w as int)) == Some(strings@[w as int]@));
            if !same_bytes(strings[w].as_str().as_bytes(), all[i].0.as_slice()) {
                assert(fst_entries(lexicon)[i as int].0 != encode_utf8(
                    frame_text(store.strings.frame_of(w as int))->0,
                ));
                return None;
            }
            i = i + 1;
        }
        assert forall|k: int| 0 <= k < fst_entries(lexicon).len() implies (#[trigger] fst_entries(
            lexicon,
        )[k]).1 < store.entries@.len() && fst_entries(lexicon)[k].0 == encode_utf8(
            frame_text(
                store.strings.frame_of(store.entries@[fst_entries(lexicon)[k].1 as int].word as int),
            )->0,
        ) by {
            let v = fst_entries(lexicon)[k].1 as int;
            assert(store.entry_ok(v));
            let w = store.entries@[v].word as int;
            assert(frame_text(store.strings.frame_of(w)) == Some(strings@[w]@));
        }
        let mut id: usize = 0;
        while id < store.entries.len()
            invariant
                store.wf(),
                strings@.len() == store.n_strings(),
                forall|k: int|
                    0 <= k < strings@.len() ==> frame_text(store.strings.frame_of(k)) == Some(
                        #[trigger] strings@[k]@,
                    ),
                id <= store.entries@.len(),
                keys_increasing(fst_entries(lexicon)),
                forall|k: int|
                    0 <= k < fst_entries(lexicon).len() ==> (#[trigger] fst_entries(lexicon)[k]).1
                        < store.entries@.len() && fst_entries(lexicon)[k].0 == encode_utf8(
                        frame_text(
                            store.strings.frame_of(store.entries@[fst_entries(lexicon)[k].1 as int].word as int),
                        )->0,
                    ),
                forall|j: int|
                    0 <= j < id ==> #[trigger] value_for(
                        fst_entries(lexicon),
                        encode_utf8(frame_text(store.strings.frame_of(store.entries@[j].word as int))->0),
                    ) == Some(j as u64),
            decreases store.entries@.len() - id,
        {
            assert(store.entry_ok(id as int));
            let w = store.entries[id].word as usize;
            assert(frame_text(store.strings.frame_of(w as int)) == Some(strings@[w as int]@));
            let ghost key = encode_utf8(frame_text(store.strings.frame_of(w as int))->0);
            let word = strings[w].as_str();
            assert(word.spec_bytes() == key);
            match fst_get(&lexicon, word) {
                Some(v) => {
                    if v != id as u64 {
                        assert(value_for(fst_entries(lexicon), key) != Some(id as u64));
                        return None;
                    }
                },
                None => {
                    assert(value_for(fst_entries(lexicon), key) != Some(id as u64));
                    return None;
                },
            }
            id = id + 1;
        }
        let idx = LexemeIndex {
            lexicon,
            store,
            strings,
            substring_cache: new_match_cache(SUBSTRING_CACHE_CAPACITY),
            fuzzy_cache: new_rank_cache(FUZZY_CACHE_CAPACITY),
        };
        assert forall|j: int| 0 <= j < idx.n() implies #[trigger] value_for(
            idx.keys(),
            encode_utf8(idx.word_of(j)),
        ) == Some(j as u64) by {
            assert(store.entry_ok(j));
            let w = store.entries@[j].word as int;
            assert(frame_text(store.strings.frame_of(w)) == Some(strings@[w]@));
            assert(value_for(
                fst_entries(lexicon),
                encode_utf8(frame_text(store.strings.frame_of(store.entries@[j].word as int))->0),
            ) == Some(j as u64));
            assert(idx.word_of(j) == strings@[w]@);
        }
        assert forall|k: int| 0 <= k < idx.keys().len() implies (#[trigger] idx.keys()[k]).1 < idx.n()
            && idx.keys()[k].0 == encode_utf8(idx.word_of(idx.keys()[k].1 as int)) by {
            let v = fst_entries(lexicon)[k].1 as int;
            assert(store.entry_ok(v));
            let w = store.entries@[v].word as int;
            assert(frame_text(store.strings.frame_of(w)) == Some(strings@[w]@));
        }
        assert(idx.substring_cache_ok());
        assert(idx.ranking_cache_ok());
        Some(idx)
    }

    /// Reads the word of a lexicon key as text.
    fn key_text(&self, key: &Vec<u8>) -> (r: String)
        requires
            valid_utf8(key@),
        ensures
            r@ == decode_utf8(key@),
    {
        match utf8_string(key.clone()) {
            Some(s) => s,
            None => {
                proof {
                    assert(false);
                }
                String::new()
            },
        }
    }

    /// Every lexicon key is valid UTF-8 and decodes to its lexeme's word.
    proof fn lemma_key(&self, i: int)
        requires
            self.lexicon_ok(),
            0 <= i < self.keys().len(),
        ensures
            valid_utf8(self.keys()[i].0),
            decode_utf8(self.keys()[i].0) == self.word_of(self.keys()[i].1 as int),
    {
        let w = self.word_of(self.keys()[i].1 as int);
        assert(self.keys()[i].0 == encode_utf8(w));
    }

    /// The lexeme id stored under exactly `word`, if the lexicon holds it.
    pub fn get(&self, word: &str) -> (r: Option<u32>)
        requires
            self.wf(),
        ensures
            r == self.lookup(word.spec_bytes()),
            r matches Some(id) ==> id < self.n() && self.word_of(id as int) == word@,
    {
        match fst_get(&self.lexicon, word) {
            Some(v) => {
                proof {
                    let k = choose|k: int|
                        0 <= k < self.keys().len() && self.keys()[k].0 == word.spec_bytes();
                    self.lemma_key(k);
                    assert(self.keys()[k].1 == v);
                }
                Some(v as u32)
            },
            None => None,
        }
    }

    /// Up to `limit` `(word, id)` pairs whose word starts with `prefix`, in
    /// increasing byte order.
    pub fn prefix(&self, prefix: &str, limit: usize) -> (r: Vec<(String, u32)>)
        requires
            self.wf(),
        ensures
            match_rows_view(r@) == as_rows(self.prefix_hits(prefix@)).take(
                min_len(limit as nat, self.prefix_hits(prefix@).len()) as int,
            ),
            r@.len() <= limit,
            forall|i: int|
                0 <= i < r@.len() ==> is_prefix(prefix.spec_bytes(), encode_utf8(#[trigger] r@[i].0@)),
            forall|i: int, j: int|
                0 <= i < j < r@.len() ==> bytes_lt(
                    encode_utf8(#[trigger] r@[i].0@),
                    encode_utf8(#[trigger] r@[j].0@),
                ),
            forall|i: int| 0 <= i < r@.len() ==> self.lookup(encode_utf8(#[trigger] r@[i].0@)) == Some(r@[i].1),
    {
        let hits = fst_prefix(&self.lexicon, prefix);
        let ghost hv = pairs_view(hits@);
        let ghost pred = key_has_prefix(encode_utf8(prefix@));
        assert(hv == self.prefix_hits(prefix@));
        let end: usize = if limit < hits.len() {
            limit
        } else {
            hits.len()
        };
        let mut out: Vec<(String, u32)> = Vec::new();
        let mut i: usize = 0;
        while i < end
            invariant
                self.wf(),
                end <= hits@.len(),
                end <= limit,
                hv == pairs_view(hits@),
                hv == self.keys().filter(pred),
                keys_increasing(hv),
                i <= end,
                out@.len() == i,
                forall|k: int| 0 <= k < i ==> valid_utf8(#[trigger] hv[k].0),
                match_rows_view(out@) == as_rows(hv).take(i as int),
            decreases end - i,
        {
            proof {
                lemma_filter_from(self.keys(), pred, i as int);
                let k = choose|k: int| 0 <= k < self.keys().len() && self.keys()[k] == hv[i as int];
                self.lemma_key(k);
                assert(hv[i as int] == (hits@[i as int].0@, hits@[i as int].1));
            }
            let word = self.key_text(&hits[i].0);
            let id = hits[i].1 as u32;
            out.push((word, id));
            proof {
                assert(match_rows_view(out@) =~= as_rows(hv).take(i + 1));
            }
            i = i + 1;
        }
        proof {
            assert forall|a: int| 0 <= a < out@.len() implies is_prefix(
                prefix.spec_bytes(),
                encode_utf8(#[trigger] out@[a].0@),
            ) by {
                assert(match_rows_view(out@)[a] == as_rows(hv)[a]);
                self.keys().lemma_filter_pred(pred, a);
                lemma_filter_from(self.keys(), pred, a);
            }
            assert forall|a: int| 0 <= a < out@.len() implies self.lookup(encode_utf8(#[trigger] out@[a].0@))
                == Some(out@[a].1) by {
                assert(match_rows_view(out@)[a] == as_rows(hv)[a]);
                lemma_filter_from(self.keys(), pred, a);
                let k = choose|k: int| 0 <= k < self.keys().len() && self.keys()[k] == hv[a];
                self.lemma_key(k);
                lemma_unique_lookup(self.keys(), k);
            }
            assert forall|a: int, b: int| 0 <= a < b < out@.len() implies bytes_lt(
                encode_utf8(#[trigger] out@[a].0@),
                encode_utf8(#[trigger] out@[b].0@),
            ) by {
                assert(match_rows_view(out@)[a] == as_rows(hv)[a]);
                assert(match_rows_view(out@)[b] == as_rows(hv)[b]);
            }
        }
        out
    }
}

/// What a substring scan returns and leaves behind: a leading part of the
/// matches in key order, at most `limit` long; all of them up to `limit` unless
/// the cache held a shorter list for `p`; afterwards the cache holds a list for
/// `p` whose first `limit` rows are the answer.
pub open spec fn contains_outcome(
    before: LexemeIndex,
    after: LexemeIndex,
    p: Seq<char>,
    limit: nat,
    rows: Seq<(Seq<char>, u32)>,
) -> bool {
    let hits = as_rows(before.substring_hits(p));
    let old_cache = cached_matches(before.substring_cache);
    let new_cache = cached_matches(after.substring_cache);
    &&& after.same_data(&before)
    &&& cached_rankings(after.fuzzy_cache) == cached_rankings(before.fuzzy_cache)
    &&& rows.len() <= limit
    &&& rows == hits.take(rows.len() as int)
    &&& if p.len() == 0 {
        &&& rows.len() == 0
        &&& new_cache == old_cache
    } else {
        &&& if old_cache.contains_key(p) {
            rows == old_cache[p].take(min_len(limit, old_cache[p].len()) as int)
        } else {
            rows.len() == min_len(limit, hits.len())
        }
        &&& new_cache.contains_key(p)
        &&& new_cache[p].take(min_len(limit, new_cache[p].len()) as int) == rows
    }
}

/// Two substring scans for the same pattern and limit, one right after the
/// other, return the same rows, and for a non-empty pattern the second finds
/// the pattern in the cache.
pub proof fn lemma_contains_repeatable(
    s0: LexemeIndex,
    s1: LexemeIndex,
    s2: LexemeIndex,
    p: Seq<char>,
    limit: nat,
    r1: Seq<(Seq<char>, u32)>,
    r2: Seq<(Seq<char>, u32)>,
)
    requires
        contains_outcome(s0, s1, p, limit, r1),
        contains_outcome(s1, s2, p, limit, r2),
    ensures
        r1 == r2,
        p.len() > 0 ==> cached_matches(s1.substring_cache).contains_key(p),
{
    if p.len() == 0 {
        assert(r1 =~= r2);
    }
}

/// No byte string comes strictly before itself.
pub proof fn lemma_bytes_lt_irreflexive(a: Seq<u8>)
    ensures
        !bytes_lt(a, a),
    decreases a.len(),
{
    if a.len() > 0 {
        lemma_bytes_lt_irreflexive(a.drop_first());
    }
}

/// With strictly increasing keys, looking up a key gives its own value.
pub proof fn lemma_unique_lookup(keys: Seq<(Seq<u8>, u64)>, i: int)
    requires
        keys_increasing(keys),
        0 <= i < keys.len(),
    ensures
        value_for(keys, keys[i].0) == Some(keys[i].1),
{
    assert(exists|j: int| 0 <= j < keys.len() && keys[j].0 == keys[i].0);
    let j = choose|j: int| 0 <= j < keys.len() && keys[j].0 == keys[i].0;
    lemma_bytes_lt_irreflexive(keys[i].0);
    if j < i {
        assert(bytes_lt(keys[j].0, keys[i].0));
    } else if i < j {
        assert(bytes_lt(keys[i].0, keys[j].0));
    }
}

/// The lexicon stays consistent while the data stays the same.
pub proof fn lemma_lexicon_same_data(a: LexemeIndex, b: LexemeIndex)
    requires
        a.same_data(&b),
        a.lexicon_ok(),
    ensures
        b.lexicon_ok(),
{
    assert(a.keys() == b.keys());
    assert forall|i: int| 0 <= i < b.keys().len() implies (#[trigger] b.keys()[i]).1 < b.n()
        && b.keys()[i].0 == encode_utf8(b.word_of(b.keys()[i].1 as int)) by {
        assert(a.keys()[i] == b.keys()[i]);
        assert(a.word_of(a.keys()[i].1 as int) == b.word_of(b.keys()[i].1 as int));
    }
    assert forall|id: int| 0 <= id < b.n() implies #[trigger] value_for(b.keys(), encode_utf8(b.word_of(id)))
        == Some(id as u64) by {
        assert(a.word_of(id) == b.word_of(id));
        assert(value_for(a.keys(), encode_utf8(a.word_of(id))) == Some(id as u64));
    }
}

/// Mapping rows over a concatenation keeps the rows of the first part in front.
proof fn lemma_rows_front(a: Seq<(Seq<u8>, u64)>, b: Seq<(Seq<u8>, u64)>)
    ensures
        as_rows(a + b).take(a.len() as int) == as_rows(a),
{
    assert(as_rows(a + b).take(a.len() as int) =~= as_rows(a));
}

impl LexemeIndex {
    /// Up to `limit` `(word, id)` pairs whose word contains `pattern`, in key
    /// order; an empty pattern gives nothing. Scans are cached by pattern.
    pub fn search_contains(&mut self, pattern: &str, limit: usize) -> (r: Vec<(String, u32)>)
        requires
            old(self).wf(),
        ensures
            final(self).wf(),
            contains_outcome(*old(self), *final(self), pattern@, limit as nat, match_rows_view(r@)),
    {
        if pattern.is_empty() {
            let out: Vec<(String, u32)> = Vec::new();
            assert(match_rows_view(out@) =~= as_rows(self.substring_hits(pattern@)).take(0));
            return out;
        }
        let ghost before = *self;
        let fetched = match_cache_get(&mut self.substring_cache, pattern);
        proof {
            crate::ranking::lemma_ranking_cache_same_data(before, *self);
            assert(self.substring_cache_ok());
            lemma_lexicon_same_data(before, *self);
            assert(self.wf());
        }
        match fetched {
            Some(hit) => {
                let ghost c = cached_matches(before.substring_cache)[pattern@];
                let end: usize = if limit < hit.len() {
                    limit
                } else {
                    hit.len()
                };
                let mut out: Vec<(String, u32)> = Vec::new();
                let mut i: usize = 0;
                while i < end
                    invariant
                        end <= hit@.len(),
                        match_rows_view(hit@) == c,
                        i <= end,
                        out@.len() == i,
                        match_rows_view(out@) == c.take(i as int),
                    decreases end - i,
                {
                    let w = hit[i].0.clone();
                    let id = hit[i].1;
                    let ghost prev = out@;
                    proof {
                        assert(c[i as int] == (hit@[i as int].0@, hit@[i as int].1));
                        assert(w@ == hit@[i as int].0@);
                    }
                    out.push((w, id));
                    proof {
                        assert(out@ == prev.push((w, id)));
                        assert(match_rows_view(out@)[i as int] == (w@, id));
                        assert forall|k: int| 0 <= k < i implies match_rows_view(out@)[k] == c[k] by {
                            assert(match_rows_view(prev)[k] == c.take(i as int)[k]);
                            assert(out@[k] == prev[k]);
                        }
                        assert(match_rows_view(out@) =~= c.take(i + 1));
                    }
                    i = i + 1;
                }
                proof {
                    assert(before.substring_cache_ok());
                    let hits = as_rows(before.substring_hits(pattern@));
                    assert(c == hits.take(c.len() as int));
                    assert(match_rows_view(out@) =~= hits.take(end as int));
                }
                return out;
            },
            None => {},
        }
        let all = fst_all(&self.lexicon);
        let ghost av = pairs_view(all@);
        let ghost pred = key_has_infix(encode_utf8(pattern@));
        let pb = pattern.as_bytes();
        let mut out: Vec<(String, u32)> = Vec::new();
        let mut kept: Vec<(String, u32)> = Vec::new();
        let mut i: usize = 0;
        while i < all.len() && out.len() < limit
            invariant
                self.wf(),
                self.same_data(&before),
                av == pairs_view(all@),
                av == self.keys(),
                pred == key_has_infix(encode_utf8(pattern@)),
                pb@ == encode_utf8(pattern@),
                i <= all@.len(),
                out@.len() <= limit,
                match_rows_view(out@) == as_rows(av.take(i as int).filter(pred)),
                match_rows_view(kept@) == match_rows_view(out@),
            decreases all@.len() - i,
        {
            assert(av[i as int] == (all@[i as int].0@, all@[i as int].1));
            proof {
                lemma_filter_step(av, pred, i as int);
            }
            let found = contains_bytes(all[i].0.as_slice(), pb);
            proof {
                assert(found == is_infix(encode_utf8(pattern@), av[i as int].0));
                assert(found == pred(av[i as int]));
            }
            if found {
                proof {
                    self.lemma_key(i as int);
                }
                let w = self.key_text(&all[i].0);
                let id = all[i].1 as u32;
                let ghost prev = out@;
                let ghost prev_kept = kept@;
                let ghost rows_prev = as_rows(av.take(i as int).filter(pred));
                proof {
                    assert(pred(av[i as int]));
                    assert(av.take(i + 1).filter(pred) == av.take(i as int).filter(pred).push(av[i as int]));
                    assert(as_rows(av.take(i + 1).filter(pred)) =~= rows_prev.push((w@, id)));
                }
                let w2 = w.clone();
                out.push((w2, id));
                kept.push((w, id));
                proof {
                    assert(out@ == prev.push((w2, id)));
                    assert(kept@ == prev_kept.push((w, id)));
                    assert forall|k: int| 0 <= k < prev.len() implies match_rows_view(out@)[k] == rows_prev[k] by {
                        assert(out@[k] == prev[k]);
                        assert(match_rows_view(prev)[k] == rows_prev[k]);
                    }
                    assert forall|k: int| 0 <= k < prev.len() implies match_rows_view(kept@)[k] == rows_prev[k] by {
                        assert(kept@[k] == prev_kept[k]);
                        assert(match_rows_view(prev_kept)[k] == match_rows_view(prev)[k]);
                        assert(match_rows_view(prev)[k] == rows_prev[k]);
                    }
                    assert(match_rows_view(out@) =~= as_rows(av.take(i + 1).filter(pred)));
                    assert(match_rows_view(kept@) =~= match_rows_view(out@));
                }
            } else {
                proof {
                    assert(av.take(i + 1).filter(pred) == av.take(i as int).filter(pred));
                }
            }
            i = i + 1;
        }
        proof {
            let hits = av.filter(pred);
            assert(hits == self.substring_hits(pattern@));
            assert(av =~= av.take(i as int) + av.skip(i as int));
            Seq::filter_distributes_over_add(av.take(i as int), av.skip(i as int), pred);
            lemma_rows_front(av.take(i as int).filter(pred), av.skip(i as int).filter(pred));
            if i == all.len() {
                assert(av.take(i as int) =~= av);
            }
        }
        let ghost mid = *self;
        match_cache_put(&mut self.substring_cache, pattern.to_owned(), kept);
        proof {
            crate::ranking::lemma_ranking_cache_same_data(mid, *self);
            lemma_lexicon_same_data(mid, *self);
            let hits = as_rows(self.substring_hits(pattern@));
            let v = match_rows_view(out@);
            assert(v.len() <= hits.len());
            assert(v == hits.take(v.len() as int));
            assert(cached_matches(self.substring_cache)[pattern@] == v);
            assert(v.take(min_len(limit as nat, v.len()) as int) =~= v);
            assert forall|q: Seq<char>| #[trigger]
                cached_matches(self.substring_cache).contains_key(q) implies {
                let w = cached_matches(self.substring_cache)[q];
                w.len() <= self.substring_hits(q).len() && w == as_rows(self.substring_hits(q)).take(
                    w.len() as int,
                )
            } by {
                if q != pattern@ {
                    assert(cached_matches(mid.substring_cache).contains_key(q));
                    assert(mid.substring_cache_ok());
                }
            }
        }
        out
    }
}

/// Every row of a substring scan is a word that contains the pattern, and
/// there are at most `limit` of them.
pub proof fn lemma_contains_rows_hold_pattern(
    before: LexemeIndex,
    after: LexemeIndex,
    p: Seq<char>,
    limit: nat,
    rows: Seq<(Seq<char>, u32)>,
)
    requires
        before.wf(),
        contains_outcome(before, after, p, limit, rows),
    ensures
        rows.len() <= limit,
        forall|i: int| 0 <= i < rows.len() ==> is_infix(encode_utf8(p), encode_utf8(#[trigger] rows[i].0)),
{
    let hits = before.substring_hits(p);
    let pred = key_has_infix(encode_utf8(p));
    assert forall|i: int| 0 <= i < rows.len() implies is_infix(
        encode_utf8(p),
        encode_utf8(#[trigger] rows[i].0),
    ) by {
        assert(rows[i] == as_rows(hits)[i]);
        lemma_filter_from(before.keys(), pred, i);
        let k = choose|k: int| 0 <= k < before.keys().len() && before.keys()[k] == hits[i];
        before.lemma_key(k);
    }
}

/// Looking up the word of any lexeme gives that lexeme's id: the lexicon and
/// the archive are a bijection between words and ids.
pub proof fn lemma_word_lookup(idx: LexemeIndex, id: int)
    requires
        idx.wf(),
        0 <= id < idx.n(),
    ensures
        idx.lookup(encode_utf8(idx.word_of(id))) == Some(id as u32),
{
    assert(value_for(idx.keys(), encode_utf8(idx.word_of(id))) == Some(id as u64));
}

} // verus!
