//! Weighted multi-field fuzzy ranking.
//!
//! Scores are fixed-point: a field similarity runs from 0 to 10000 (that is,
//! 0 to 100 points in hundredths), and weights and the score threshold are
//! given in hundredths too (a weight of 300 stands for 3.0).
use vstd::prelude::*;
use vstd::string::*;
use vstd::string::StringExecFns;
use crate::bindings::{
    cached_rankings, indel, indel_distance, rank_cache_get, rank_cache_put, rank_rows_view,
    RankKey, RankKeyView,
};
use crate::bindings::cached_matches;
use crate::index::LexemeIndex;

verus! {

/// The similarity of a string with itself.
pub const FULL_SCORE: u32 = 10000;

/// Fuzzy similarity of `v` to the query `q`, from 0 to 10000: one minus the
/// Indel distance over the combined length; an empty value scores 0.
pub open spec fn similarity(q: Seq<char>, v: Seq<char>) -> nat {
    if v.len() == 0 {
        0
    } else {
        let total: int = q.len() as int + v.len() as int;
        ((10000 * (total - indel_distance(q, v))) / total) as nat
    }
}

/// The best similarity over a list of values, 0 for an empty list.
pub open spec fn best_similarity(q: Seq<char>, items: Seq<Seq<char>>) -> nat
    decreases items.len(),
{
    if items.len() == 0 {
        0
    } else {
        let rest = best_similarity(q, items.drop_last());
        let s = similarity(q, items.last());
        if s > rest {
            s
        } else {
            rest
        }
    }
}

/// Field weights and the score threshold, all in hundredths.
#[derive(Debug, Clone, Copy, PartialEq, Eq, Structural, Hash)]
pub struct SearchConfig {
    pub weight_word: u32,
    pub weight_definitions: u32,
    pub weight_synonyms: u32,
    pub weight_text: u32,
    pub weight_encyclopedia: u32,
    pub min_score: u32,
}

impl Default for SearchConfig {
    fn default() -> (r: Self)
        ensures
            r.weight_word == 300,
            r.weight_definitions == 200,
            r.weight_synonyms == 100,
            r.weight_text == 150,
            r.weight_encyclopedia == 150,
            r.min_score == 15,
    {
        SearchConfig {
            weight_word: 300,
            weight_definitions: 200,
            weight_synonyms: 100,
            weight_text: 150,
            weight_encyclopedia: 150,
            min_score: 15,
        }
    }
}

impl SearchConfig {
    pub open spec fn total_weight_spec(&self) -> nat {
        (self.weight_word + self.weight_definitions + self.weight_synonyms + self.weight_text
            + self.weight_encyclopedia) as nat
    }

    /// The sum of the five field weights.
    pub fn total_weight(&self) -> (r: u64)
        ensures
            r == self.total_weight_spec(),
    {
        self.weight_word as u64 + self.weight_definitions as u64 + self.weight_synonyms as u64
            + self.weight_text as u64 + self.weight_encyclopedia as u64
    }
}

/// One ranked lexeme.
#[derive(Debug, Clone)]
pub struct SearchResult {
    pub lexeme_id: u32,
    pub word: String,
    pub score: u32,
}

/// Ranked lexemes and whether they came from the cache.
#[derive(Debug, Clone)]
pub struct SearchSummary {
    pub results: Vec<SearchResult>,
    pub cache_hit: bool,
}

/// `(id, score)` pair `a` ranks before `b`: higher score, then lower id.
pub open spec fn better(a: (u32, u32), b: (u32, u32)) -> bool {
    a.1 > b.1 || (a.1 == b.1 && a.0 < b.0)
}

/// `(id, score)` pair `a` ranks before lexeme `id` with score `score`.
pub open spec fn ranks_before(a: (u32, u32), id: u32, score: nat) -> bool {
    a.1 > score || (a.1 == score && a.0 < id)
}

/// Some pair of `t` carries lexeme `id`.
pub open spec fn has_id(t: Seq<(u32, u32)>, id: u32) -> bool {
    exists|k: int| 0 <= k < t.len() && t[k].0 == id
}

/// The ranking after offering `cand` at place `pos`: it goes in while there
/// is room, else it takes the place of the last pair when it ranks before it.
pub open spec fn top_after(t: Seq<(u32, u32)>, limit: nat, pos: int, cand: (u32, u32)) -> Seq<
    (u32, u32),
> {
    if t.len() < limit {
        t.insert(pos, cand)
    } else if pos < t.len() {
        t.insert(pos, cand).subrange(0, t.len() as int)
    } else {
        t
    }
}

/// Each pair ranks before every later one.
pub open spec fn ranked(s: Seq<(u32, u32)>) -> bool {
    forall|i: int, j: int| 0 <= i < j < s.len() ==> better(#[trigger] s[i], #[trigger] s[j])
}

/// Unicode white space, as `char::is_whitespace` classifies it.
pub open spec fn is_space(c: char) -> bool {
    ('\u{9}' <= c && c <= '\u{d}') || c == ' ' || c == '\u{85}' || c == '\u{a0}' || c == '\u{1680}'
        || ('\u{2000}' <= c && c <= '\u{200a}') || c == '\u{2028}' || c == '\u{2029}' || c
        == '\u{202f}' || c == '\u{205f}' || c == '\u{3000}'
}

/// The query holds nothing but white space.
pub open spec fn is_blank(q: Seq<char>) -> bool {
    forall|i: int| 0 <= i < q.len() ==> is_space(#[trigger] q[i])
}

pub fn char_is_space(c: char) -> (r: bool)
    ensures
        r == is_space(c),
{
    ('\u{9}' <= c && c <= '\u{d}') || c == ' ' || c == '\u{85}' || c == '\u{a0}' || c == '\u{1680}'
        || ('\u{2000}' <= c && c <= '\u{200a}') || c == '\u{2028}' || c == '\u{2029}' || c
        == '\u{202f}' || c == '\u{205f}' || c == '\u{3000}'
}

/// Whether the query holds nothing but white space.
pub fn query_is_blank(q: &str) -> (r: bool)
    ensures
        r == is_blank(q@),
{
    let n = q.unicode_len();
    let mut i: usize = 0;
    while i < n
        invariant
            n == q@.len(),
            i <= n,
            forall|k: int| 0 <= k < i ==> is_space(#[trigger] q@[k]),
        decreases n - i,
    {
        if !char_is_space(q.get_char(i)) {
            return false;
        }
        i = i + 1;
    }
    true
}

/// A zero weight cancels its similarity.
proof fn lemma_unweighted(w: u32, s: nat)
    requires
        w == 0,
    ensures
        w * s == 0,
{
}

/// A similarity scaled by its weight.
fn weigh(w: u32, s: u32) -> (r: u64)
    requires
        s <= FULL_SCORE,
    ensures
        r == w * s,
        r <= 10000 * w,
{
    assert(w * s <= 10000 * w) by (nonlinear_arith)
        requires
            s <= 10000,
    ;
    assert(w * s <= 0xffff_ffff * 10000) by (nonlinear_arith)
        requires
            s <= 10000,
            w <= 0xffff_ffff,
    ;
    w as u64 * s as u64
}

/// The similarity of `v` to `q`.
pub fn fuzzy_score(q: &str, v: &str) -> (r: u32)
    ensures
        r == similarity(q@, v@),
        r <= FULL_SCORE,
{
    let vl = v.unicode_len();
    if vl == 0 {
        return 0;
    }
    let ql = q.unicode_len();
    let d = indel(q, v);
    let total: u128 = ql as u128 + vl as u128;
    let kept: u128 = total - d as u128;
    assert(kept <= total);
    assert(10000 * kept <= 10000 * total) by (nonlinear_arith)
        requires
            kept <= total,
    ;
    let num: u128 = 10000u128 * kept;
    let s: u128 = num / total;
    assert(s <= 10000) by (nonlinear_arith)
        requires
            s == num / total,
            num <= 10000 * total,
            total > 0,
    ;
    s as u32
}

/// The best similarity over `items`.
pub fn best_score(q: &str, items: &Vec<&str>) -> (r: u32)
    ensures
        r == best_similarity(q@, crate::entry::strs_view(items@)),
        r <= FULL_SCORE,
{
    let ghost view = crate::entry::strs_view(items@);
    let mut best: u32 = 0;
    let mut i: usize = 0;
    while i < items.len()
        invariant
            view == crate::entry::strs_view(items@),
            i <= items@.len(),
            best == best_similarity(q@, view.take(i as int)),
            best <= FULL_SCORE,
        decreases items@.len() - i,
    {
        let s = fuzzy_score(q, items[i]);
        proof {
            assert(view.take(i + 1).drop_last() =~= view.take(i as int));
            assert(view.take(i + 1).last() == items@[i as int]@);
        }
        if s > best {
            best = s;
        }
        i = i + 1;
    }
    assert(view.take(items@.len() as int) =~= view);
    best
}

/// The ranking of `(id, score)` pairs owed over the lexemes below `bound`:
/// at most `limit` qualifying lexemes in rank order; a qualifying lexeme
/// below `bound` is left out only when `limit` pairs are given and all of
/// them rank before it.
pub open spec fn top_upto(
    qs: spec_fn(u32) -> Option<nat>,
    limit: nat,
    t: Seq<(u32, u32)>,
    bound: nat,
) -> bool {
    &&& t.len() <= limit
    &&& ranked(t)
    &&& forall|k: int|
        0 <= k < t.len() ==> (#[trigger] t[k]).0 < bound && qs(t[k].0) == Some(t[k].1 as nat)
    &&& forall|id: u32|
        id < bound && #[trigger] qs(id) is Some && !has_id(t, id)
            ==> t.len() == limit && forall|k: int|
            0 <= k < t.len() ==> ranks_before(#[trigger] t[k], id, qs(id)->0)
}

#[verifier::rlimit(60)]
/// Adding lexeme `i`, which qualifies with score `s`, at the first place
/// where it ranks before the pair there keeps the ranking owed.
proof fn lemma_top_add(
    qs: spec_fn(u32) -> Option<nat>,
    limit: nat,
    t: Seq<(u32, u32)>,
    i: u32,
    s: u32,
    pos: int,
)
    requires
        top_upto(qs, limit, t, i as nat),
        qs(i) == Some(s as nat),
        0 <= pos <= t.len(),
        forall|k: int| 0 <= k < pos ==> (#[trigger] t[k]).1 >= s,
        pos < t.len() ==> t[pos].1 < s,
    ensures
        top_upto(qs, limit, top_after(t, limit, pos, (i, s)), (i + 1) as nat),
{
    let cand = (i, s);
    let u = t.insert(pos, cand);
    t.insert_ensures(pos, cand);
    assert forall|a: int| 0 <= a < u.len() implies #[trigger] u[a] == (if a < pos {
        t[a]
    } else if a == pos {
        cand
    } else {
        t[a - 1]
    }) by {
        if a > pos {
            assert(u[(a - 1) + 1] == t[a - 1]);
        }
    }
    assert forall|a: int, b: int| 0 <= a < b < u.len() implies better(
        #[trigger] u[a],
        #[trigger] u[b],
    ) by {
        if a < pos && b < pos {
            assert(better(t[a], t[b]));
        } else if a < pos && b == pos {
        } else if a < pos {
            assert(better(t[a], t[b - 1]));
        } else if a == pos {
            if b - 1 > pos {
                assert(better(t[pos], t[b - 1]));
            }
        } else {
            assert(better(t[a - 1], t[b - 1]));
        }
    }
    let t2 = top_after(t, limit, pos, cand);
    if t.len() < limit {
        assert forall|id: u32|
            id < i + 1 && #[trigger] qs(id) is Some && !has_id(
                t2,
                id,
            ) implies t2.len() == limit && forall|k: int|
            0 <= k < t2.len() ==> ranks_before(#[trigger] t2[k], id, qs(id)->0) by {
            if id == i {
                assert(t2[pos].0 == id);
            } else {
                if has_id(t, id) {
                    let j = choose|j: int| 0 <= j < t.len() && t[j].0 == id;
                    if j < pos {
                        assert(t2[j].0 == id);
                    } else {
                        assert(t2[j + 1].0 == id);
                    }
                }
            }
        }
    } else if pos < t.len() {
        let d = t[t.len() - 1];
        assert(t2 == u.subrange(0, t.len() as int));
        assert(better(cand, d)) by {
            if t.len() - 1 > pos {
                assert(better(t[pos], t[t.len() - 1]));
            }
        }
        assert forall|a: int, b: int| 0 <= a < b < t2.len() implies better(
            #[trigger] t2[a],
            #[trigger] t2[b],
        ) by {
            assert(better(u[a], u[b]));
        }
        assert forall|k: int| 0 <= k < t2.len() implies better(#[trigger] t2[k], d) by {
            assert(t2[k] == u[k]);
            if k < pos {
                assert(better(t[k], t[t.len() - 1]));
            } else if k > pos {
                if k - 1 < t.len() - 1 {
                    assert(better(t[k - 1], t[t.len() - 1]));
                }
            }
        }
        assert forall|id: u32|
            id < i + 1 && #[trigger] qs(id) is Some && !has_id(
                t2,
                id,
            ) implies t2.len() == limit && forall|k: int|
            0 <= k < t2.len() ==> ranks_before(#[trigger] t2[k], id, qs(id)->0) by {
            if id == i {
                assert(t2[pos].0 == id);
            } else if has_id(t, id) {
                let j = choose|j: int| 0 <= j < t.len() && t[j].0 == id;
                if j < pos {
                    assert(t2[j].0 == id);
                } else if j < t.len() - 1 {
                    assert(t2[j + 1] == u[j + 1]);
                    assert(t2[j + 1].0 == id);
                } else {
                    assert(d.0 == id && d.1 == qs(id)->0);
                }
            } else {
                assert forall|k: int| 0 <= k < t2.len() implies ranks_before(#[trigger] t2[k], id, qs(id)->0) by {
                    assert(ranks_before(t[t.len() - 1], id, qs(id)->0));
                    assert(better(t2[k], d));
                }
            }
        }
    } else {
        assert forall|id: u32|
            id < i + 1 && #[trigger] qs(id) is Some && !has_id(
                t2,
                id,
            ) implies t2.len() == limit && forall|k: int|
            0 <= k < t2.len() ==> ranks_before(#[trigger] t2[k], id, qs(id)->0) by {
            if id == i {
                assert forall|k: int| 0 <= k < t2.len() implies ranks_before(#[trigger] t2[k], id, qs(id)->0) by {
                    assert(t[k].1 >= s);
                }
            }
        }
    }
}


impl LexemeIndex {
    pub open spec fn word_similarity(&self, q: Seq<char>, id: int) -> nat {
        similarity(q, self.word_of(id))
    }

    pub open spec fn definitions_similarity(&self, q: Seq<char>, id: int) -> nat {
        let e = self.store.entries@[id];
        best_similarity(q, self.string_list(e.all_definitions, self.store.entry_all_definitions@))
    }

    pub open spec fn synonyms_similarity(&self, q: Seq<char>, id: int) -> nat {
        let e = self.store.entries@[id];
        best_similarity(q, self.string_list(e.all_synonyms, self.store.entry_all_synonyms@))
    }

    /// Similarity to an optional long document; `None` when it is absent.
    pub open spec fn doc_similarity(&self, q: Seq<char>, t: Option<u32>) -> Option<nat> {
        match t {
            Some(tid) => Some(similarity(q, self.long_text(tid as int))),
            None => None,
        }
    }

    /// The weights that count for lexeme `id`: the body and the article only
    /// when the entry has them.
    pub open spec fn weight_sum(&self, c: SearchConfig, id: int) -> nat {
        let e = self.store.entries@[id];
        (c.weight_word + c.weight_definitions + c.weight_synonyms + (if e.text is Some {
            c.weight_text as int
        } else {
            0int
        }) + (if e.encyclopedia_entry is Some {
            c.weight_encyclopedia as int
        } else {
            0int
        })) as nat
    }

    /// The weighted sum of field similarities of lexeme `id`.
    pub open spec fn weighted_sum(&self, q: Seq<char>, c: SearchConfig, id: int) -> nat {
        let e = self.store.entries@[id];
        (c.weight_word * self.word_similarity(q, id) + c.weight_definitions
            * self.definitions_similarity(q, id) + c.weight_synonyms * self.synonyms_similarity(q, id)
            + (match self.doc_similarity(q, e.text) {
            Some(s) => c.weight_text * s,
            None => 0,
        }) + (match self.doc_similarity(q, e.encyclopedia_entry) {
            Some(s) => c.weight_encyclopedia * s,
            None => 0,
        })) as nat
    }

    /// The score of lexeme `id`: the weight-normalised sum of its field
    /// similarities, or `None` when no weight counts.
    pub open spec fn entry_score(&self, q: Seq<char>, c: SearchConfig, id: int) -> Option<nat> {
        if self.weight_sum(c, id) > 0 {
            Some(self.weighted_sum(q, c, id) / self.weight_sum(c, id))
        } else {
            None
        }
    }

    /// The score of lexeme `id` when it reaches the threshold.
    pub open spec fn qualifying_score(&self, q: Seq<char>, c: SearchConfig, id: int) -> Option<nat> {
        match self.entry_score(q, c, id) {
            Some(s) => if s >= c.min_score {
                Some(s)
            } else {
                None
            },
            None => None,
        }
    }

    /// The qualifying score of each lexeme, as a function of its id.
    pub open spec fn scores(&self, q: Seq<char>, c: SearchConfig) -> spec_fn(u32) -> Option<nat> {
        |id: u32| self.qualifying_score(q, c, id as int)
    }

    /// The ranking of `(id, score)` pairs that a query owes over all lexemes.
    pub open spec fn top_ok(&self, q: Seq<char>, c: SearchConfig, limit: nat, t: Seq<(u32, u32)>) -> bool {
        top_upto(self.scores(q, c), limit, t, self.n())
    }

    /// The score of lexeme `id` for query `q`.
    pub fn score_entry(&self, q: &str, c: &SearchConfig, id: u32) -> (r: Option<u32>)
        requires
            self.wf(),
            id < self.n(),
        ensures
            match r {
                Some(s) => self.entry_score(q@, *c, id as int) == Some(s as nat),
                None => self.entry_score(q@, *c, id as int) is None,
            },
            r matches Some(s) ==> s <= FULL_SCORE,
    {
        proof {
            assert(self.store.entry_ok(id as int));
        }
        let entry = self.entry_by_id(id).unwrap();
        let mut total: u64 = 0;
        let mut accum: u64 = 0;
        if c.weight_word > 0 {
            let s = fuzzy_score(q, entry.word());
            total = total + c.weight_word as u64;
            accum = accum + weigh(c.weight_word, s);
        } else {
            proof {
                lemma_unweighted(c.weight_word, self.word_similarity(q@, id as int));
            }
        }
        assert(total == c.weight_word);
        assert(accum == c.weight_word * self.word_similarity(q@, id as int));
        assert(accum <= 10000 * total);
        if c.weight_definitions > 0 {
            let s = best_score(q, &entry.all_definitions());
            total = total + c.weight_definitions as u64;
            accum = accum + weigh(c.weight_definitions, s);
        } else {
            proof {
                lemma_unweighted(c.weight_definitions, self.definitions_similarity(q@, id as int));
            }
        }
        assert(accum == c.weight_word * self.word_similarity(q@, id as int) + c.weight_definitions
            * self.definitions_similarity(q@, id as int));
        assert(accum <= 10000 * total);
        if c.weight_synonyms > 0 {
            let s = best_score(q, &entry.all_synonyms());
            total = total + c.weight_synonyms as u64;
            accum = accum + weigh(c.weight_synonyms, s);
        } else {
            proof {
                lemma_unweighted(c.weight_synonyms, self.synonyms_similarity(q@, id as int));
            }
        }
        assert(accum <= 10000 * total);
        if c.weight_text > 0 {
            match entry.text() {
                Some(body) => {
                    let s = fuzzy_score(q, body.as_str());
                    total = total + c.weight_text as u64;
                    accum = accum + weigh(c.weight_text, s);
                },
                None => {},
            }
        } else {
            proof {
                if let Some(t) = self.doc_similarity(q@, self.store.entries@[id as int].text) {
                    lemma_unweighted(c.weight_text, t);
                }
            }
        }
        assert(accum <= 10000 * total);
        if c.weight_encyclopedia > 0 {
            match entry.encyclopedia_entry() {
                Some(body) => {
                    let s = fuzzy_score(q, body.as_str());
                    total = total + c.weight_encyclopedia as u64;
                    accum = accum + weigh(c.weight_encyclopedia, s);
                },
                None => {},
            }
        } else {
            proof {
                if let Some(t) = self.doc_similarity(q@, self.store.entries@[id as int].encyclopedia_entry) {
                    lemma_unweighted(c.weight_encyclopedia, t);
                }
            }
        }
        assert(total == self.weight_sum(*c, id as int));
        assert(accum == self.weighted_sum(q@, *c, id as int));
        if total > 0 {
            let score = accum / total;
            assert(score <= 10000) by (nonlinear_arith)
                requires
                    score == accum / total,
                    accum <= 10000 * total,
                    total > 0,
            ;
            Some(score as u32)
        } else {
            None
        }
    }
}

/// A qualifying lexeme beyond those seen so far does not change what is owed
/// when it does not qualify.
proof fn lemma_top_skip(qs: spec_fn(u32) -> Option<nat>, limit: nat, t: Seq<(u32, u32)>, i: u32)
    requires
        top_upto(qs, limit, t, i as nat),
        qs(i) is None,
    ensures
        top_upto(qs, limit, t, (i + 1) as nat),
{
}

/// The `(id, score)` pairs of ranked rows.
pub open spec fn row_pairs(rows: Seq<(u32, Seq<char>, u32)>) -> Seq<(u32, u32)> {
    rows.map_values(|r: (u32, Seq<char>, u32)| (r.0, r.2))
}

/// Ranked results as `(id, word, score)` rows.
pub open spec fn results_view(v: Seq<SearchResult>) -> Seq<(u32, Seq<char>, u32)> {
    v.map_values(|r: SearchResult| (r.lexeme_id, r.word@, r.score))
}

/// The configuration that a ranking cache key carries.
pub open spec fn key_config(k: RankKeyView) -> SearchConfig {
    SearchConfig {
        weight_word: k.1,
        weight_definitions: k.2,
        weight_synonyms: k.3,
        weight_text: k.4,
        weight_encyclopedia: k.5,
        min_score: k.6,
    }
}

/// The ranking cache key of a request.
pub open spec fn request_key(q: Seq<char>, c: SearchConfig, limit: usize) -> RankKeyView {
    (
        q,
        c.weight_word,
        c.weight_definitions,
        c.weight_synonyms,
        c.weight_text,
        c.weight_encyclopedia,
        c.min_score,
        limit,
    )
}

impl LexemeIndex {
    /// The rows that a ranking request owes: none for a blank query or when
    /// every weight is zero; otherwise the owed ranking, each row with the
    /// lexeme's word.
    pub open spec fn ranking_ok(
        &self,
        q: Seq<char>,
        c: SearchConfig,
        limit: nat,
        rows: Seq<(u32, Seq<char>, u32)>,
    ) -> bool {
        if is_blank(q) || c.total_weight_spec() == 0 {
            rows.len() == 0
        } else {
            &&& self.top_ok(q, c, limit, row_pairs(rows))
            &&& forall|k: int| 0 <= k < rows.len() ==> (#[trigger] rows[k]).1 == self.word_of(rows[k].0 as int)
        }
    }

    /// Every cached ranking is the one its request owes.
    pub open spec fn ranking_cache_ok(&self) -> bool {
        forall|k: RankKeyView| #[trigger]
            cached_rankings(self.fuzzy_cache).contains_key(k) ==> self.ranking_ok(
                k.0,
                key_config(k),
                k.7 as nat,
                cached_rankings(self.fuzzy_cache)[k],
            )
    }

    /// The `limit` best qualifying lexemes as `(id, score)` pairs, in rank order.
    pub fn rank_top(&self, q: &str, c: &SearchConfig, limit: usize) -> (r: Vec<(u32, u32)>)
        requires
            self.wf(),
        ensures
            self.top_ok(q@, *c, limit as nat, r@),
    {
        let n: usize = self.store.entries.len();
        let ghost qs = self.scores(q@, *c);
        let mut top: Vec<(u32, u32)> = Vec::new();
        let mut i: usize = 0;
        while i < n
            invariant
                self.wf(),
                n == self.n(),
                i <= n,
                qs == self.scores(q@, *c),
                top_upto(qs, limit as nat, top@, i as nat),
            decreases n - i,
        {
            let id = i as u32;
            let scored = self.score_entry(q, c, id);
            assert(qs(id) == self.qualifying_score(q@, *c, id as int));
            match scored {
                Some(s) => {
                    if s >= c.min_score {
                        let mut pos: usize = 0;
                        while pos < top.len() && top[pos].1 >= s
                            invariant
                                pos <= top@.len(),
                                forall|k: int| 0 <= k < pos ==> (#[trigger] top@[k]).1 >= s,
                            decreases top@.len() - pos,
                        {
                            pos = pos + 1;
                        }
                        proof {
                            lemma_top_add(qs, limit as nat, top@, id, s, pos as int);
                        }
                        if top.len() < limit {
                            top.insert(pos, (id, s));
                        } else if pos < top.len() {
                            top.insert(pos, (id, s));
                            top.pop();
                        }
                    } else {
                        proof {
                            lemma_top_skip(qs, limit as nat, top@, id);
                        }
                    }
                },
                None => {
                    proof {
                        lemma_top_skip(qs, limit as nat, top@, id);
                    }
                },
            }
            i = i + 1;
        }
        top
    }
}

/// Rankings owed depend on the archive, the lexicon and the resolved strings
/// alone, not on what the caches hold.
pub proof fn lemma_ranking_same_data(
    a: LexemeIndex,
    b: LexemeIndex,
    q: Seq<char>,
    c: SearchConfig,
    limit: nat,
    rows: Seq<(u32, Seq<char>, u32)>,
)
    requires
        a.same_data(&b),
    ensures
        a.ranking_ok(q, c, limit, rows) == b.ranking_ok(q, c, limit, rows),
{
    assert forall|id: u32| #[trigger] a.scores(q, c)(id) == b.scores(q, c)(id) by {
        let e = a.store.entries@[id as int];
        assert(a.string_list(e.all_definitions, a.store.entry_all_definitions@) =~= b.string_list(
            e.all_definitions,
            b.store.entry_all_definitions@,
        ));
        assert(a.string_list(e.all_synonyms, a.store.entry_all_synonyms@) =~= b.string_list(
            e.all_synonyms,
            b.store.entry_all_synonyms@,
        ));
        assert(a.entry_score(q, c, id as int) == b.entry_score(q, c, id as int));
    }
    assert(a.scores(q, c) =~= b.scores(q, c));
}

/// A cache of rankings stays valid while the data stays the same.
pub proof fn lemma_ranking_cache_same_data(a: LexemeIndex, b: LexemeIndex)
    requires
        a.same_data(&b),
        a.ranking_cache_ok(),
        cached_rankings(a.fuzzy_cache) == cached_rankings(b.fuzzy_cache),
    ensures
        b.ranking_cache_ok(),
{
    assert forall|k: RankKeyView| #[trigger]
        cached_rankings(b.fuzzy_cache).contains_key(k) implies b.ranking_ok(
        k.0,
        key_config(k),
        k.7 as nat,
        cached_rankings(b.fuzzy_cache)[k],
    ) by {
        lemma_ranking_same_data(a, b, k.0, key_config(k), k.7 as nat, cached_rankings(b.fuzzy_cache)[k]);
    }
}

impl LexemeIndex {
    /// Turns ranked `(id, score)` pairs into result rows carrying each word.
    fn rows_of(&self, top: &Vec<(u32, u32)>) -> (r: (Vec<(u32, String, u32)>, Vec<SearchResult>))
        requires
            self.wf(),
            forall|k: int| 0 <= k < top@.len() ==> (#[trigger] top@[k]).0 < self.n(),
        ensures
            row_pairs(rank_rows_view(r.0@)) == top@,
            results_view(r.1@) == rank_rows_view(r.0@),
            forall|k: int|
                0 <= k < r.0@.len() ==> (#[trigger] rank_rows_view(r.0@)[k]).1 == self.word_of(
                    rank_rows_view(r.0@)[k].0 as int,
                ),
    {
        let mut rows: Vec<(u32, String, u32)> = Vec::new();
        let mut results: Vec<SearchResult> = Vec::new();
        let mut k: usize = 0;
        while k < top.len()
            invariant
                self.wf(),
                forall|j: int| 0 <= j < top@.len() ==> (#[trigger] top@[j]).0 < self.n(),
                k <= top@.len(),
                row_pairs(rank_rows_view(rows@)) == top@.take(k as int),
                results_view(results@) == rank_rows_view(rows@),
                rows@.len() == k,
                results@.len() == k,
                forall|j: int|
                    0 <= j < k ==> (#[trigger] rank_rows_view(rows@)[j]).1 == self.word_of(
                        rank_rows_view(rows@)[j].0 as int,
                    ),
            decreases top@.len() - k,
        {
            let (id, score) = top[k];
            let entry = self.entry_by_id(id).unwrap();
            let word = entry.word().to_owned();
            let ghost prev_rows = rows@;
            let ghost prev_results = results@;
            let copy = word.clone();
            assert(copy@ == self.word_of(id as int));
            rows.push((id, copy, score));
            results.push(SearchResult { lexeme_id: id, word, score });
            proof {
                assert(rows@ == prev_rows.push((id, copy, score)));
                assert(rank_rows_view(rows@)[k as int] == (id, self.word_of(id as int), score));
                assert(results_view(results@)[k as int] == (id, self.word_of(id as int), score));
                assert forall|j: int| 0 <= j < prev_rows.len() implies rank_rows_view(rows@)[j]
                    == rank_rows_view(prev_rows)[j] by {
                    assert(rows@[j] == prev_rows[j]);
                }
                assert forall|j: int| 0 <= j < prev_results.len() implies results_view(results@)[j]
                    == rank_rows_view(rows@)[j] by {
                    assert(results@[j] == prev_results[j]);
                    assert(rows@[j] == prev_rows[j]);
                    assert(results_view(prev_results)[j] == rank_rows_view(prev_rows)[j]);
                }
                assert forall|j: int| 0 <= j < k + 1 implies (#[trigger] rank_rows_view(rows@)[j]).1
                    == self.word_of(rank_rows_view(rows@)[j].0 as int) by {
                    if j < k {
                        assert(rank_rows_view(rows@)[j] == rank_rows_view(prev_rows)[j]);
                    }
                }
                assert(row_pairs(rank_rows_view(rows@)) =~= top@.take(k + 1));
                assert(results_view(results@) =~= rank_rows_view(rows@));
            }
            k = k + 1;
        }
        assert(top@.take(top@.len() as int) =~= top@);
        (rows, results)
    }

    /// The best `limit` lexemes for `query`, ranked by score and then by id,
    /// and whether they came from the cache of recent rankings.
    pub fn search_fuzzy_with_stats(&mut self, query: &str, config: &SearchConfig, limit: usize) -> (r:
        SearchSummary)
        requires
            old(self).wf(),
        ensures
            final(self).wf(),
            final(self).same_data(&*old(self)),
            cached_matches(final(self).substring_cache) == cached_matches(old(self).substring_cache),
            old(self).ranking_ok(query@, *config, limit as nat, results_view(r.results@)),
            r.cache_hit == (!is_blank(query@) && config.total_weight_spec() > 0 && cached_rankings(
                old(self).fuzzy_cache,
            ).contains_key(request_key(query@, *config, limit))),
            !is_blank(query@) && config.total_weight_spec() > 0 ==> cached_rankings(
                final(self).fuzzy_cache,
            ).contains_key(request_key(query@, *config, limit)) && cached_rankings(final(self).fuzzy_cache)[request_key(
                query@,
                *config,
                limit,
            )] == results_view(r.results@),
    {
        if query_is_blank(query) || config.total_weight() == 0 {
            let results: Vec<SearchResult> = Vec::new();
            assert(results_view(results@) =~= Seq::<(u32, Seq<char>, u32)>::empty());
            return SearchSummary { results, cache_hit: false };
        }
        let ghost before = *self;
        let key: RankKey = (
            query.to_owned(),
            config.weight_word,
            config.weight_definitions,
            config.weight_synonyms,
            config.weight_text,
            config.weight_encyclopedia,
            config.min_score,
            limit,
        );
        assert(crate::bindings::rank_key_view(key) == request_key(query@, *config, limit));
        let fetched = rank_cache_get(&mut self.fuzzy_cache, &key);
        proof {
            lemma_ranking_cache_same_data(before, *self);
            crate::index::lemma_lexicon_same_data(before, *self);
            assert(key_config(request_key(query@, *config, limit)) == *config);
        }
        match fetched {
            Some(rows) => {
                let mut results: Vec<SearchResult> = Vec::new();
                let mut k: usize = 0;
                while k < rows.len()
                    invariant
                        k <= rows@.len(),
                        results@.len() == k,
                        results_view(results@) == rank_rows_view(rows@).take(k as int),
                    decreases rows@.len() - k,
                {
                    let ghost prev = results@;
                    let w = rows[k].1.clone();
                    assert(w@ == rows@[k as int].1@);
                    results.push(SearchResult { lexeme_id: rows[k].0, word: w, score: rows[k].2 });
                    proof {
                        assert(results_view(results@)[k as int] == rank_rows_view(rows@)[k as int]);
                        assert forall|j: int| 0 <= j < prev.len() implies results_view(results@)[j]
                            == results_view(prev)[j] by {
                            assert(results@[j] == prev[j]);
                        }
                        assert(results_view(results@) =~= rank_rows_view(rows@).take(k + 1));
                    }
                    k = k + 1;
                }
                assert(rank_rows_view(rows@).take(rows@.len() as int) =~= rank_rows_view(rows@));
                return SearchSummary { results, cache_hit: true };
            },
            None => {},
        }
        let top = self.rank_top(query, config, limit);
        let (rows, results) = self.rows_of(&top);
        let ghost mid = *self;
        rank_cache_put(&mut self.fuzzy_cache, key, rows);
        proof {
            lemma_ranking_same_data(before, mid, query@, *config, limit as nat, rank_rows_view(rows@));
            crate::index::lemma_lexicon_same_data(mid, *self);
            assert forall|k: RankKeyView| #[trigger]
                cached_rankings(self.fuzzy_cache).contains_key(k) implies self.ranking_ok(
                k.0,
                key_config(k),
                k.7 as nat,
                cached_rankings(self.fuzzy_cache)[k],
            ) by {
                lemma_ranking_same_data(mid, *self, k.0, key_config(k), k.7 as nat, cached_rankings(self.fuzzy_cache)[k]);
                if k != request_key(query@, *config, limit) {
                    assert(cached_rankings(mid.fuzzy_cache).contains_key(k));
                }
            }
        }
        SearchSummary { results, cache_hit: false }
    }

    /// The best `limit` lexemes for `query`, ranked by score and then by id.
    pub fn search_fuzzy(&mut self, query: &str, config: &SearchConfig, limit: usize) -> (r: Vec<
        SearchResult,
    >)
        requires
            old(self).wf(),
        ensures
            final(self).wf(),
            final(self).same_data(&*old(self)),
            old(self).ranking_ok(query@, *config, limit as nat, results_view(r@)),
    {
        self.search_fuzzy_with_stats(query, config, limit).results
    }
}

/// Samples in an explanation keep at most this many characters.
pub const SAMPLE_CHARS: usize = 96;

/// A sample of `text`: the text itself when short, else its first
/// `SAMPLE_CHARS` characters followed by an ellipsis.
pub open spec fn truncated(text: Seq<char>) -> Seq<char> {
    if text.len() <= SAMPLE_CHARS {
        text
    } else {
        text.take(SAMPLE_CHARS as int).push('\u{2026}')
    }
}

/// Cuts `text` down to a sample.
pub fn truncate_sample(text: &str) -> (r: String)
    ensures
        r@ == truncated(text@),
{
    let n = text.unicode_len();
    if n <= SAMPLE_CHARS {
        return text.to_owned();
    }
    let head = text.substring_char(0, SAMPLE_CHARS).to_owned();
    let r = head.concat("\u{2026}");
    proof {
        reveal_strlit("\u{2026}");
        assert(r@ =~= text@.take(SAMPLE_CHARS as int).push('\u{2026}'));
    }
    r
}

/// A ranking comes in non-increasing score order, holds only scores that
/// reach the threshold, and holds at most `limit` rows.
pub proof fn lemma_ranking_sound(
    idx: LexemeIndex,
    q: Seq<char>,
    c: SearchConfig,
    limit: nat,
    rows: Seq<(u32, Seq<char>, u32)>,
)
    requires
        idx.ranking_ok(q, c, limit, rows),
    ensures
        rows.len() <= limit,
        forall|i: int, j: int| 0 <= i < j < rows.len() ==> (#[trigger] rows[i]).2 >= (#[trigger] rows[j]).2,
        forall|i: int| 0 <= i < rows.len() ==> (#[trigger] rows[i]).2 >= c.min_score,
{
    if !(is_blank(q) || c.total_weight_spec() == 0) {
        let t = row_pairs(rows);
        assert forall|i: int, j: int| 0 <= i < j < rows.len() implies (#[trigger] rows[i]).2 >= (
        #[trigger] rows[j]).2 by {
            assert(better(t[i], t[j]));
        }
        assert forall|i: int| 0 <= i < rows.len() implies (#[trigger] rows[i]).2 >= c.min_score by {
            assert(t[i] == (rows[i].0, rows[i].2));
        }
    }
}

/// With every weight at zero a ranking is empty.
pub proof fn lemma_zero_weights_rank_nothing(
    idx: LexemeIndex,
    q: Seq<char>,
    c: SearchConfig,
    limit: nat,
    rows: Seq<(u32, Seq<char>, u32)>,
)
    requires
        idx.ranking_ok(q, c, limit, rows),
        c.weight_word == 0,
        c.weight_definitions == 0,
        c.weight_synonyms == 0,
        c.weight_text == 0,
        c.weight_encyclopedia == 0,
    ensures
        rows.len() == 0,
{
}

} // verus!
