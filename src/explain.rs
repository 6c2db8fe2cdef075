//! Score breakdowns: the same score as the ranking, field by field.
use vstd::prelude::*;
use vstd::string::*;
use crate::entry::strs_view;
use crate::index::LexemeIndex;
use crate::lexical::lemma_filter_step;
use crate::ranking::{
    best_similarity, fuzzy_score, row_pairs, similarity, truncate_sample, truncated, SearchConfig,
    SearchResult, FULL_SCORE,
};

verus! {

/// A scored field of an entry.
#[derive(Debug, Clone, Copy, PartialEq, Eq, Hash)]
pub enum FieldKind {
    Word,
    Definitions,
    Synonyms,
    Text,
    Encyclopedia,
}

impl FieldKind {
    pub fn label(self) -> (r: &'static str)
        ensures
            r@ == match self {
                FieldKind::Word => "word"@,
                FieldKind::Definitions => "definitions"@,
                FieldKind::Synonyms => "synonyms"@,
                FieldKind::Text => "text"@,
                FieldKind::Encyclopedia => "encyclopedia"@,
            },
    {
        match self {
            FieldKind::Word => "word",
            FieldKind::Definitions => "definitions",
            FieldKind::Synonyms => "synonyms",
            FieldKind::Text => "text",
            FieldKind::Encyclopedia => "encyclopedia",
        }
    }
}

/// One field's part in a score, with a short sample of the matched value.
#[derive(Debug, Clone)]
pub struct FieldContribution {
    pub field: FieldKind,
    pub score: u32,
    pub weight: u32,
    pub sample: Option<String>,
}

/// The score of one lexeme, field by field.
#[derive(Debug, Clone)]
pub struct SearchBreakdown {
    pub lexeme_id: u32,
    pub word: String,
    pub total_score: u32,
    pub fields: Vec<FieldContribution>,
}

/// A contribution as plain values: field, similarity, weight, sample.
pub type Contribution = (FieldKind, u32, u32, Option<Seq<char>>);

pub open spec fn opt_view(s: Option<String>) -> Option<Seq<char>> {
    match s {
        Some(x) => Some(x@),
        None => None,
    }
}

pub open spec fn contribution_view(f: FieldContribution) -> Contribution {
    (f.field, f.score, f.weight, opt_view(f.sample))
}

pub open spec fn contributions_view(s: Seq<FieldContribution>) -> Seq<Contribution> {
    s.map_values(|f: FieldContribution| contribution_view(f))
}

/// The value of a list that the best similarity came from: the last one
/// that scored at least as well as all before it.
pub open spec fn best_sample(q: Seq<char>, items: Seq<Seq<char>>) -> Option<Seq<char>>
    decreases items.len(),
{
    if items.len() == 0 {
        None
    } else if similarity(q, items.last()) >= best_similarity(q, items.drop_last()) {
        Some(items.last())
    } else {
        best_sample(q, items.drop_last())
    }
}

pub open spec fn truncated_opt(s: Option<Seq<char>>) -> Option<Seq<char>> {
    match s {
        Some(x) => Some(truncated(x)),
        None => None,
    }
}

/// The contribution of a list field, present only when weighted.
pub open spec fn list_part(kind: FieldKind, w: u32, q: Seq<char>, items: Seq<Seq<char>>) -> Seq<
    Contribution,
> {
    if w > 0 {
        seq![(kind, best_similarity(q, items) as u32, w, truncated_opt(best_sample(q, items)))]
    } else {
        seq![]
    }
}

/// The contribution of a document field, present only when weighted and held.
pub open spec fn doc_part(kind: FieldKind, w: u32, q: Seq<char>, doc: Option<Seq<char>>) -> Seq<
    Contribution,
> {
    match doc {
        Some(d) => if w > 0 {
            seq![(kind, similarity(q, d) as u32, w, Some(truncated(d)))]
        } else {
            seq![]
        },
        None => seq![],
    }
}

impl LexemeIndex {
    /// The contributions that an explanation of lexeme `id` lists, in field order.
    pub open spec fn contributions(&self, q: Seq<char>, c: SearchConfig, id: int) -> Seq<Contribution> {
        let e = self.store.entries@[id];
        let word_part = if c.weight_word > 0 {
            seq![
                (
                    FieldKind::Word,
                    self.word_similarity(q, id) as u32,
                    c.weight_word,
                    Some(self.word_of(id)),
                ),
            ]
        } else {
            seq![]
        };
        word_part + list_part(
            FieldKind::Definitions,
            c.weight_definitions,
            q,
            self.string_list(e.all_definitions, self.store.entry_all_definitions@),
        ) + list_part(
            FieldKind::Synonyms,
            c.weight_synonyms,
            q,
            self.string_list(e.all_synonyms, self.store.entry_all_synonyms@),
        ) + doc_part(FieldKind::Text, c.weight_text, q, self.opt_text(e.text)) + doc_part(
            FieldKind::Encyclopedia,
            c.weight_encyclopedia,
            q,
            self.opt_text(e.encyclopedia_entry),
        )
    }

    /// Lexemes that an explanation covers: held by the archive, with some
    /// weight that counts.
    pub open spec fn explainable(&self, c: SearchConfig) -> spec_fn(u32) -> bool {
        |id: u32| id < self.n() && self.weight_sum(c, id as int) > 0
    }
}

/// The best similarity over `items` and the sample it came from.
pub fn best_with_sample(q: &str, items: &Vec<&str>) -> (r: (u32, Option<String>))
    ensures
        r.0 == best_similarity(q@, strs_view(items@)),
        opt_view(r.1) == truncated_opt(best_sample(q@, strs_view(items@))),
{
    let ghost view = strs_view(items@);
    let mut best: u32 = 0;
    let mut sample: Option<&str> = None;
    let mut i: usize = 0;
    while i < items.len()
        invariant
            view == strs_view(items@),
            i <= items@.len(),
            best == best_similarity(q@, view.take(i as int)),
            best <= FULL_SCORE,
            match sample {
                Some(x) => best_sample(q@, view.take(i as int)) == Some(x@),
                None => best_sample(q@, view.take(i as int)) is None,
            },
        decreases items@.len() - i,
    {
        let s = fuzzy_score(q, items[i]);
        proof {
            assert(view.take(i + 1).drop_last() =~= view.take(i as int));
            assert(view.take(i + 1).last() == items@[i as int]@);
        }
        if s >= best {
            best = s;
            sample = Some(items[i]);
        }
        i = i + 1;
    }
    assert(view.take(items@.len() as int) =~= view);
    let out = match sample {
        Some(x) => Some(truncate_sample(x)),
        None => None,
    };
    (best, out)
}

/// Contributions of two parts, one after the other.
proof fn lemma_contributions_concat(a: Seq<FieldContribution>, b: Seq<FieldContribution>)
    ensures
        contributions_view(a + b) == contributions_view(a) + contributions_view(b),
{
    assert(contributions_view(a + b) =~= contributions_view(a) + contributions_view(b));
}

/// The contribution of a weighted list field.
fn list_part_of(kind: FieldKind, w: u32, q: &str, items: &Vec<&str>) -> (r: Vec<FieldContribution>)
    requires
        w > 0,
    ensures
        contributions_view(r@) == list_part(kind, w, q@, strs_view(items@)),
{
    let (s, sample) = best_with_sample(q, items);
    let mut out: Vec<FieldContribution> = Vec::new();
    out.push(FieldContribution { field: kind, score: s, weight: w, sample });
    assert(contributions_view(out@) =~= list_part(kind, w, q@, strs_view(items@)));
    out
}

/// The contribution of a weighted document field, if the entry holds it.
fn doc_part_of(kind: FieldKind, w: u32, q: &str, doc: Option<String>) -> (r: Vec<FieldContribution>)
    requires
        w > 0,
    ensures
        contributions_view(r@) == doc_part(kind, w, q@, opt_view(doc)),
{
    let mut out: Vec<FieldContribution> = Vec::new();
    match doc {
        Some(body) => {
            let s = fuzzy_score(q, body.as_str());
            let sample = truncate_sample(body.as_str());
            out.push(FieldContribution { field: kind, score: s, weight: w, sample: Some(sample) });
        },
        None => {},
    }
    assert(contributions_view(out@) =~= doc_part(kind, w, q@, opt_view(doc)));
    out
}

impl LexemeIndex {
    /// The score of lexeme `id` field by field; `None` when no weight counts.
    pub fn explain_entry(&self, q: &str, c: &SearchConfig, id: u32) -> (r: Option<SearchBreakdown>)
        requires
            self.wf(),
            id < self.n(),
        ensures
            r is Some <==> self.weight_sum(*c, id as int) > 0,
            r matches Some(b) ==> {
                &&& b.lexeme_id == id
                &&& b.word@ == self.word_of(id as int)
                &&& self.entry_score(q@, *c, id as int) == Some(b.total_score as nat)
                &&& contributions_view(b.fields@) == self.contributions(q@, *c, id as int)
            },
    {
        proof {
            assert(self.store.entry_ok(id as int));
        }
        let score = self.score_entry(q, c, id);
        let entry = self.entry_by_id(id).unwrap();
        let mut fields: Vec<FieldContribution> = Vec::new();
        if c.weight_word > 0 {
            let word = entry.word();
            let s = fuzzy_score(q, word);
            fields.push(
                FieldContribution {
                    field: FieldKind::Word,
                    score: s,
                    weight: c.weight_word,
                    sample: Some(word.to_owned()),
                },
            );
        }
        let ghost e0 = fields@;
        let mut defs = if c.weight_definitions > 0 {
            list_part_of(FieldKind::Definitions, c.weight_definitions, q, &entry.all_definitions())
        } else {
            Vec::new()
        };
        let ghost d0 = defs@;
        fields.append(&mut defs);
        proof {
            lemma_contributions_concat(e0, d0);
        }
        let ghost e1 = fields@;
        let mut syns = if c.weight_synonyms > 0 {
            list_part_of(FieldKind::Synonyms, c.weight_synonyms, q, &entry.all_synonyms())
        } else {
            Vec::new()
        };
        let ghost s0 = syns@;
        fields.append(&mut syns);
        proof {
            lemma_contributions_concat(e1, s0);
        }
        let ghost e2 = fields@;
        let mut text = if c.weight_text > 0 {
            doc_part_of(FieldKind::Text, c.weight_text, q, entry.text())
        } else {
            Vec::new()
        };
        let ghost t0 = text@;
        fields.append(&mut text);
        proof {
            lemma_contributions_concat(e2, t0);
        }
        let ghost e3 = fields@;
        let mut article = if c.weight_encyclopedia > 0 {
            doc_part_of(FieldKind::Encyclopedia, c.weight_encyclopedia, q, entry.encyclopedia_entry())
        } else {
            Vec::new()
        };
        let ghost a0 = article@;
        fields.append(&mut article);
        proof {
            lemma_contributions_concat(e3, a0);
            let e = self.store.entries@[id as int];
            assert(contributions_view(e0) =~= (if c.weight_word > 0 {
                seq![
                    (
                        FieldKind::Word,
                        self.word_similarity(q@, id as int) as u32,
                        c.weight_word,
                        Some(self.word_of(id as int)),
                    ),
                ]
            } else {
                seq![]
            }));
            assert(contributions_view(d0) =~= list_part(
                FieldKind::Definitions,
                c.weight_definitions,
                q@,
                self.string_list(e.all_definitions, self.store.entry_all_definitions@),
            ));
            assert(contributions_view(s0) =~= list_part(
                FieldKind::Synonyms,
                c.weight_synonyms,
                q@,
                self.string_list(e.all_synonyms, self.store.entry_all_synonyms@),
            ));
            assert(contributions_view(t0) =~= doc_part(FieldKind::Text, c.weight_text, q@, self.opt_text(e.text)));
            assert(contributions_view(a0) =~= doc_part(
                FieldKind::Encyclopedia,
                c.weight_encyclopedia,
                q@,
                self.opt_text(e.encyclopedia_entry),
            ));
        }
        match score {
            Some(total) => Some(
                SearchBreakdown {
                    lexeme_id: id,
                    word: entry.word().to_owned(),
                    total_score: total,
                    fields,
                },
            ),
            None => None,
        }
    }

    /// Breakdowns of the given results, in their order; results whose lexeme
    /// the archive lacks or that no weight covers are left out.
    pub fn explain_search(&self, query: &str, config: &SearchConfig, results: &[SearchResult]) -> (r:
        Vec<SearchBreakdown>)
        requires
            self.wf(),
        ensures
            breakdown_ids(r@) == result_ids(results@).filter(self.explainable(*config)),
            forall|j: int|
                0 <= j < r@.len() ==> {
                    let b = #[trigger] r@[j];
                    &&& b.lexeme_id < self.n()
                    &&& b.word@ == self.word_of(b.lexeme_id as int)
                    &&& self.entry_score(query@, *config, b.lexeme_id as int) == Some(b.total_score as nat)
                    &&& contributions_view(b.fields@) == self.contributions(query@, *config, b.lexeme_id as int)
                },
    {
        let ghost ids = result_ids(results@);
        let ghost pred = self.explainable(*config);
        let mut out: Vec<SearchBreakdown> = Vec::new();
        let mut i: usize = 0;
        while i < results.len()
            invariant
                self.wf(),
                ids == result_ids(results@),
                pred == self.explainable(*config),
                i <= results@.len(),
                breakdown_ids(out@) == ids.take(i as int).filter(pred),
                forall|j: int|
                    0 <= j < out@.len() ==> {
                        let b = #[trigger] out@[j];
                        &&& b.lexeme_id < self.n()
                        &&& b.word@ == self.word_of(b.lexeme_id as int)
                        &&& self.entry_score(query@, *config, b.lexeme_id as int) == Some(b.total_score as nat)
                        &&& contributions_view(b.fields@) == self.contributions(query@, *config, b.lexeme_id as int)
                    },
            decreases results@.len() - i,
        {
            let id = results[i].lexeme_id;
            proof {
                lemma_filter_step(ids, pred, i as int);
                assert(ids[i as int] == id);
            }
            if (id as usize) < self.store.entries.len() {
                match self.explain_entry(query, config, id) {
                    Some(b) => {
                        let ghost prev = out@;
                        out.push(b);
                        proof {
                            assert forall|j: int| 0 <= j < prev.len() implies breakdown_ids(out@)[j]
                                == breakdown_ids(prev)[j] by {
                                assert(out@[j] == prev[j]);
                            }
                            assert(breakdown_ids(out@) =~= ids.take(i + 1).filter(pred));
                        }
                    },
                    None => {},
                }
            }
            i = i + 1;
        }
        assert(ids.take(results@.len() as int) =~= ids);
        out
    }
}

pub open spec fn result_ids(v: Seq<SearchResult>) -> Seq<u32> {
    v.map_values(|r: SearchResult| r.lexeme_id)
}

pub open spec fn breakdown_ids(v: Seq<SearchBreakdown>) -> Seq<u32> {
    v.map_values(|b: SearchBreakdown| b.lexeme_id)
}

/// A filter that keeps everything leaves the sequence as it is.
proof fn lemma_filter_all<A>(s: Seq<A>, pred: spec_fn(A) -> bool)
    requires
        forall|i: int| 0 <= i < s.len() ==> pred(#[trigger] s[i]),
    ensures
        s.filter(pred) == s,
    decreases s.len(),
{
    reveal(Seq::filter);
    if s.len() > 0 {
        lemma_filter_all(s.drop_last(), pred);
        assert(s.drop_last().push(s.last()) =~= s);
    }
}

/// Explaining the results of a ranking covers every result, in order, with
/// the very score it was ranked by.
pub proof fn lemma_explain_agrees(
    idx: LexemeIndex,
    q: Seq<char>,
    c: SearchConfig,
    limit: nat,
    results: Seq<SearchResult>,
    out: Seq<SearchBreakdown>,
)
    requires
        idx.wf(),
        idx.ranking_ok(q, c, limit, crate::ranking::results_view(results)),
        breakdown_ids(out) == result_ids(results).filter(idx.explainable(c)),
        forall|j: int|
            0 <= j < out.len() ==> idx.entry_score(q, c, (#[trigger] out[j]).lexeme_id as int) == Some(
                out[j].total_score as nat,
            ),
    ensures
        out.len() == results.len(),
        forall|i: int|
            0 <= i < results.len() ==> (#[trigger] out[i]).lexeme_id == results[i].lexeme_id
                && out[i].total_score == results[i].score,
{
    let rows = crate::ranking::results_view(results);
    let ids = result_ids(results);
    assert forall|i: int| 0 <= i < ids.len() implies #[trigger] idx.explainable(c)(ids[i]) by {
        assert(rows[i] == (results[i].lexeme_id, results[i].word@, results[i].score));
        assert(row_pairs(rows)[i] == (results[i].lexeme_id, results[i].score));
    }
    lemma_filter_all(ids, idx.explainable(c));
    assert forall|i: int| 0 <= i < results.len() implies (#[trigger] out[i]).lexeme_id
        == results[i].lexeme_id && out[i].total_score == results[i].score by {
        assert(breakdown_ids(out)[i] == ids[i]);
        assert(rows[i] == (results[i].lexeme_id, results[i].word@, results[i].score));
        assert(row_pairs(rows)[i] == (results[i].lexeme_id, results[i].score));
    }
}

} // verus!
