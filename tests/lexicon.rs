use fst::Streamer;
use opengloss::{
    CompressedTextStore, DataStore, EntryRecord, LexemeIndex, PackedStrings, Range,
    SenseRecord,
};

const WORDS: [&str; 10] = [
    "algorithm",
    "biology",
    "biome",
    "cat",
    "dog",
    "graph",
    "hound",
    "paragraph",
    "photograph",
    "puppy",
];

const ALGORITHM: u32 = 0;
const CAT: u32 = 3;
const DOG: u32 = 4;
const HOUND: u32 = 6;
const PUPPY: u32 = 9;

const LONG_ARTICLE: &str = "An algorithm is a finite sequence of mathematically rigorous instructions, typically used to solve a class of specific problems or to perform a computation.";

#[derive(Default)]
struct Pool {
    offsets: Vec<u32>,
    lengths: Vec<u32>,
    data: Vec<u8>,
}

impl Pool {
    fn add(&mut self, text: &str) -> u32 {
        let frame = zstd::encode_all(text.as_bytes(), 3).expect("compress");
        self.offsets.push(self.data.len() as u32);
        self.lengths.push(frame.len() as u32);
        self.data.extend_from_slice(&frame);
        (self.offsets.len() - 1) as u32
    }
}

fn list(side: &mut Vec<u32>, pool: &mut Pool, items: &[&str]) -> Range {
    let start = side.len() as u32;
    for item in items {
        let id = pool.add(item);
        side.push(id);
    }
    Range::new(start, items.len() as u32)
}

fn ids(side: &mut Vec<u32>, items: &[u32]) -> Range {
    let start = side.len() as u32;
    side.extend_from_slice(items);
    Range::new(start, items.len() as u32)
}

fn empty() -> Range {
    Range::new(0, 0)
}

fn definitions_of(word: &str) -> Vec<&'static str> {
    match word {
        "algorithm" => vec!["a finite sequence of rigorous instructions"],
        "biology" => vec!["the study of living organisms"],
        "biome" => vec!["a large naturally occurring community of flora and fauna"],
        "cat" => vec!["a small domesticated carnivorous mammal"],
        "dog" => vec!["a domesticated carnivorous mammal", "a person regarded as unpleasant"],
        "graph" => vec!["a diagram showing the relation between variable quantities"],
        "hound" => vec!["a dog of a breed used for hunting"],
        "paragraph" => vec!["a distinct section of a piece of writing"],
        "photograph" => vec!["a picture made using a camera"],
        _ => vec!["a young dog"],
    }
}

fn build_store() -> DataStore {
    build_store_of(&WORDS)
}

fn build_store_of(words: &[&str]) -> DataStore {
    let mut strings = Pool::default();
    let mut texts = Pool::default();
    let mut store = DataStore {
        strings: PackedStrings { offsets: vec![], lengths: vec![], data: vec![] },
        long_texts: CompressedTextStore { offsets: vec![], lengths: vec![], data: vec![] },
        entries: vec![],
        entry_parts_of_speech: vec![],
        senses: vec![],
        sense_synonyms: vec![],
        sense_antonyms: vec![],
        sense_hypernyms: vec![],
        sense_hyponyms: vec![],
        sense_examples: vec![],
        entry_all_definitions: vec![],
        entry_all_synonyms: vec![],
        entry_all_antonyms: vec![],
        entry_all_hypernyms: vec![],
        entry_all_hyponyms: vec![],
        entry_all_collocations: vec![],
        entry_all_inflections: vec![],
        entry_all_derivations: vec![],
        entry_all_examples: vec![],
        entry_etymology_cognates: vec![],
        entry_synonym_neighbors: vec![],
        entry_antonym_neighbors: vec![],
        entry_hypernym_neighbors: vec![],
        entry_hyponym_neighbors: vec![],
    };
    for (i, word) in words.iter().enumerate() {
        let id = i as u32;
        let word_id = strings.add(word);
        let entry_id = strings.add(&format!("entry-{word}"));
        let pos = list(&mut store.entry_parts_of_speech, &mut strings, &["noun"]);
        let definitions = list(&mut store.entry_all_definitions, &mut strings, &definitions_of(word));
        let synonyms: Vec<&str> = match *word {
            "dog" => vec!["hound", "puppy"],
            "hound" => vec!["dog"],
            _ => vec![],
        };
        let all_synonyms = list(&mut store.entry_all_synonyms, &mut strings, &synonyms);
        let sense_start = store.senses.len() as u32;
        let definition = strings.add(definitions_of(word)[0]);
        let sense_synonyms = list(&mut store.sense_synonyms, &mut strings, &synonyms);
        let examples = list(&mut store.sense_examples, &mut strings, &[]);
        store.senses.push(SenseRecord {
            lexeme_id: id,
            part_of_speech: Some(strings.add("noun")),
            sense_index: 0,
            definition: Some(definition),
            synonyms: sense_synonyms,
            antonyms: empty(),
            hypernyms: empty(),
            hyponyms: empty(),
            examples,
        });
        let (syn, ant, hyper, hypo): (&[u32], &[u32], &[u32], &[u32]) = match *word {
            "dog" => (&[HOUND, PUPPY], &[CAT], &[], &[PUPPY]),
            "hound" => (&[DOG], &[], &[], &[]),
            "puppy" => (&[], &[], &[DOG], &[]),
            "cat" => (&[], &[DOG], &[], &[]),
            _ => (&[], &[], &[], &[]),
        };
        let text = if *word == "algorithm" {
            Some(texts.add("An algorithm is a procedure for solving a problem."))
        } else {
            None
        };
        let article = if *word == "algorithm" { Some(texts.add(LONG_ARTICLE)) } else { None };
        store.entries.push(EntryRecord {
            lexeme_id: id,
            word: word_id,
            entry_id,
            text,
            is_stopword: false,
            stopword_reason: None,
            parts_of_speech: pos,
            senses: Range::new(sense_start, 1),
            has_etymology: *word == "dog",
            etymology_summary: if *word == "dog" { Some(strings.add("from Old English docga")) } else { None },
            etymology_cognates: empty(),
            has_encyclopedia: article.is_some(),
            encyclopedia_entry: article,
            all_definitions: definitions,
            all_synonyms,
            all_antonyms: empty(),
            all_hypernyms: empty(),
            all_hyponyms: empty(),
            all_collocations: empty(),
            all_inflections: empty(),
            all_derivations: empty(),
            all_examples: empty(),
            synonym_neighbors: ids(&mut store.entry_synonym_neighbors, syn),
            antonym_neighbors: ids(&mut store.entry_antonym_neighbors, ant),
            hypernym_neighbors: ids(&mut store.entry_hypernym_neighbors, hyper),
            hyponym_neighbors: ids(&mut store.entry_hyponym_neighbors, hypo),
        });
    }
    store.strings = PackedStrings { offsets: strings.offsets, lengths: strings.lengths, data: strings.data };
    store.long_texts = CompressedTextStore { offsets: texts.offsets, lengths: texts.lengths, data: texts.data };
    store
}

fn build_lexicon(pairs: &[(&str, u32)]) -> fst::Map<Vec<u8>> {
    let mut sorted: Vec<(&str, u32)> = pairs.to_vec();
    sorted.sort();
    let mut builder = fst::MapBuilder::memory();
    for (word, id) in sorted {
        builder.insert(word, id as u64).expect("sorted keys");
    }
    builder.into_map()
}

fn lexicon() -> fst::Map<Vec<u8>> {
    let pairs: Vec<(&str, u32)> = WORDS.iter().enumerate().map(|(i, w)| (*w, i as u32)).collect();
    build_lexicon(&pairs)
}

fn index() -> LexemeIndex {
    LexemeIndex::new(lexicon(), build_store()).expect("fixture loads")
}

use opengloss::archive::{ArchiveBuilder, EntryInput, SealError, SenseInput};
use opengloss::builder::{is_header, parse_lexeme_line, LineError};
use opengloss::{FieldKind, SearchBreakdown};
use opengloss::ranking::{fuzzy_score, query_is_blank, truncate_sample};
use opengloss::{
    GraphOptions, IssueKind, RelationKind, SearchConfig, SearchResult, SectionVoteSummary,
};

fn words(rows: &[(String, u32)]) -> Vec<&str> {
    rows.iter().map(|(w, _)| w.as_str()).collect()
}

fn word_only() -> SearchConfig {
    SearchConfig {
        weight_word: 300,
        weight_definitions: 0,
        weight_synonyms: 0,
        weight_text: 0,
        weight_encyclopedia: 0,
        min_score: 0,
    }
}

#[test]
fn lookup_dog_resolves() {
    let idx = index();
    assert_eq!(idx.get("dog"), Some(DOG));
    let entry = idx.entry_by_id(DOG).expect("dog entry");
    assert_eq!(entry.word(), "dog");
    assert_eq!(idx.get("wolf"), None);
    assert!(idx.entry_by_id(WORDS.len() as u32).is_none());
}

#[test]
fn every_entry_carries_its_id() {
    let idx = index();
    for id in 0..WORDS.len() as u32 {
        assert_eq!(idx.entry_by_id(id).expect("entry").lexeme_id(), id);
    }
}

#[test]
fn every_lexicon_word_resolves() {
    let idx = index();
    for word in WORDS {
        let entry = idx.entry_by_word(word).expect("entry by word");
        assert_eq!(entry.word(), word);
        assert_eq!(idx.get(word), Some(entry.lexeme_id()));
    }
    assert!(idx.entry_by_word("unicorn").is_none());
}

#[test]
fn every_neighbor_resolves() {
    let idx = index();
    let relations = [
        RelationKind::Synonym,
        RelationKind::Antonym,
        RelationKind::Hypernym,
        RelationKind::Hyponym,
    ];
    for id in 0..WORDS.len() as u32 {
        let entry = idx.entry_by_id(id).unwrap();
        for relation in relations {
            for neighbor in entry.neighbor_ids(relation) {
                assert!(idx.entry_by_id(neighbor).is_some());
            }
        }
    }
    let dog = idx.entry_by_id(DOG).unwrap();
    assert_eq!(dog.synonym_neighbor_ids(), vec![HOUND, PUPPY]);
    assert_eq!(dog.antonym_neighbor_ids(), vec![CAT]);
    assert_eq!(dog.hypernym_neighbor_ids(), Vec::<u32>::new());
    assert_eq!(dog.hyponym_neighbor_ids(), vec![PUPPY]);
}

#[test]
fn entry_fields_read_back() {
    let idx = index();
    let dog = idx.entry_by_id(DOG).unwrap();
    assert_eq!(dog.entry_id(), "entry-dog");
    assert_eq!(dog.parts_of_speech(), vec!["noun"]);
    assert_eq!(dog.all_definitions(), vec!["a domesticated carnivorous mammal", "a person regarded as unpleasant"]);
    assert_eq!(dog.all_synonyms(), vec!["hound", "puppy"]);
    assert!(dog.has_etymology());
    assert_eq!(dog.etymology_summary(), Some("from Old English docga"));
    assert!(!dog.is_stopword());
    assert_eq!(dog.stopword_reason(), None);
    assert_eq!(dog.text(), None);
    assert!(!dog.has_encyclopedia());
    let senses = dog.senses();
    assert_eq!(senses.len(), 1);
    assert_eq!(senses[0].lexeme_id(), DOG);
    assert_eq!(senses[0].sense_index(), 0);
    assert_eq!(senses[0].definition(), Some("a domesticated carnivorous mammal"));
    assert_eq!(senses[0].part_of_speech(), Some("noun"));
    assert_eq!(senses[0].synonyms(), vec!["hound", "puppy"]);
    let algorithm = idx.entry_by_id(ALGORITHM).unwrap();
    assert_eq!(algorithm.text().as_deref(), Some("An algorithm is a procedure for solving a problem."));
    assert_eq!(algorithm.encyclopedia_entry().as_deref(), Some(LONG_ARTICLE));
}

#[test]
fn prefix_bio() {
    let idx = index();
    let rows = idx.prefix("bio", 10);
    assert!(rows.len() <= 10);
    assert_eq!(rows, vec![("biology".to_string(), 1), ("biome".to_string(), 2)]);
    for pair in rows.windows(2) {
        assert!(pair[0].0 < pair[1].0);
    }
    for (word, _) in &rows {
        assert!(word.starts_with("bio"));
    }
}

#[test]
fn prefix_respects_limit() {
    let idx = index();
    assert_eq!(words(&idx.prefix("bio", 1)), vec!["biology"]);
    assert!(idx.prefix("bio", 0).is_empty());
    assert_eq!(words(&idx.prefix("", 3)), vec!["algorithm", "biology", "biome"]);
    assert!(idx.prefix("zebra", 5).is_empty());
}

#[test]
fn search_contains_graph() {
    let mut idx = index();
    let rows = idx.search_contains("graph", 5);
    assert!(rows.len() <= 5);
    assert_eq!(
        rows,
        vec![("graph".to_string(), 5), ("paragraph".to_string(), 7), ("photograph".to_string(), 8)]
    );
    for (word, _) in &rows {
        assert!(word.contains("graph"));
    }
}

#[test]
fn search_contains_twice_is_identical() {
    let mut idx = index();
    let first = idx.search_contains("o", 3);
    let second = idx.search_contains("o", 3);
    assert_eq!(first, second);
    assert_eq!(words(&first), vec!["algorithm", "biology", "biome"]);
}

#[test]
fn search_contains_cache_serves_cached_prefix() {
    let mut idx = index();
    assert_eq!(words(&idx.search_contains("graph", 2)), vec!["graph", "paragraph"]);
    assert_eq!(words(&idx.search_contains("graph", 1)), vec!["graph"]);
    assert_eq!(words(&idx.search_contains("graph", 5)), vec!["graph", "paragraph"]);
}

#[test]
fn search_contains_empty_pattern() {
    let mut idx = index();
    assert!(idx.search_contains("", 10).is_empty());
    assert!(idx.search_contains("xyz", 10).is_empty());
}

#[test]
fn fuzzy_algorithm_ranks_itself_first() {
    let mut idx = index();
    let results = idx.search_fuzzy("algorithm", &SearchConfig::default(), 10);
    assert!(!results.is_empty());
    assert_eq!(results[0].word, "algorithm");
    assert_eq!(results[0].lexeme_id, ALGORITHM);
    let exact = idx.search_fuzzy("algorithm", &word_only(), 1);
    assert_eq!(exact.len(), 1);
    assert_eq!(exact[0].word, "algorithm");
    assert_eq!(exact[0].score, 10000);
}

#[test]
fn fuzzy_zero_weights_is_empty() {
    let mut idx = index();
    let config = SearchConfig {
        weight_word: 0,
        weight_definitions: 0,
        weight_synonyms: 0,
        weight_text: 0,
        weight_encyclopedia: 0,
        min_score: 0,
    };
    let summary = idx.search_fuzzy_with_stats("photosynthesis", &config, 10);
    assert!(summary.results.is_empty());
    assert!(!summary.cache_hit);
}

#[test]
fn fuzzy_blank_query_is_empty() {
    let mut idx = index();
    let summary = idx.search_fuzzy_with_stats(" \t ", &SearchConfig::default(), 10);
    assert!(summary.results.is_empty());
    assert!(!summary.cache_hit);
}

#[test]
fn fuzzy_results_are_ranked() {
    let mut idx = index();
    let config = SearchConfig::default();
    let results = idx.search_fuzzy("dog", &config, 4);
    assert_eq!(results.len(), 4);
    for pair in results.windows(2) {
        assert!(pair[0].score > pair[1].score || (pair[0].score == pair[1].score && pair[0].lexeme_id < pair[1].lexeme_id));
    }
    for row in &results {
        assert!(row.score >= config.min_score);
    }
    assert_eq!(results[0].word, "dog");
    let all = idx.search_fuzzy("dog", &config, 100);
    assert_eq!(all.len(), WORDS.len());
    let top: Vec<u32> = all.iter().take(4).map(|r| r.lexeme_id).collect();
    let got: Vec<u32> = results.iter().map(|r| r.lexeme_id).collect();
    assert_eq!(top, got);
}

#[test]
fn fuzzy_threshold_filters() {
    let mut idx = index();
    let mut config = word_only();
    config.min_score = 10000;
    let results = idx.search_fuzzy("biome", &config, 10);
    assert_eq!(results.len(), 1);
    assert_eq!(results[0].word, "biome");
}

#[test]
fn fuzzy_second_call_hits_cache() {
    let mut idx = index();
    let config = SearchConfig::default();
    let first = idx.search_fuzzy_with_stats("graph", &config, 3);
    let second = idx.search_fuzzy_with_stats("graph", &config, 3);
    assert!(!first.cache_hit);
    assert!(second.cache_hit);
    let a: Vec<(u32, String, u32)> = first.results.iter().map(|r| (r.lexeme_id, r.word.clone(), r.score)).collect();
    let b: Vec<(u32, String, u32)> = second.results.iter().map(|r| (r.lexeme_id, r.word.clone(), r.score)).collect();
    assert_eq!(a, b);
    let other = idx.search_fuzzy_with_stats("graph", &config, 2);
    assert!(!other.cache_hit);
}

#[test]
fn explain_agrees_with_ranking() {
    let mut idx = index();
    let config = SearchConfig::default();
    let results = idx.search_fuzzy("algorithm", &config, 5);
    let explained: Vec<SearchBreakdown> = idx.explain_search("algorithm", &config, &results);
    assert_eq!(explained.len(), results.len());
    for (row, breakdown) in results.iter().zip(explained.iter()) {
        assert_eq!(row.lexeme_id, breakdown.lexeme_id);
        assert_eq!(row.score, breakdown.total_score);
        assert_eq!(row.word, breakdown.word);
    }
}

#[test]
fn explain_lists_fields_with_samples() {
    let idx = index();
    let config = SearchConfig::default();
    let breakdown = idx.explain_entry("algorithm", &config, ALGORITHM).expect("weighted");
    let kinds: Vec<FieldKind> = breakdown.fields.iter().map(|f| f.field).collect();
    assert_eq!(
        kinds,
        vec![FieldKind::Word, FieldKind::Definitions, FieldKind::Synonyms, FieldKind::Text, FieldKind::Encyclopedia]
    );
    assert_eq!(breakdown.fields[0].score, 10000);
    assert_eq!(breakdown.fields[0].weight, 300);
    assert_eq!(breakdown.fields[0].sample.as_deref(), Some("algorithm"));
    assert_eq!(breakdown.fields[2].score, 0);
    assert_eq!(breakdown.fields[2].sample, None);
    let article = breakdown.fields[4].sample.clone().expect("sample");
    assert_eq!(article.chars().count(), 97);
    assert!(article.ends_with('\u{2026}'));
    assert!(LONG_ARTICLE.starts_with(article.trim_end_matches('\u{2026}')));
    let rows = vec![SearchResult { lexeme_id: 99, word: "ghost".to_string(), score: 1 }];
    assert!(idx.explain_search("algorithm", &config, &rows).is_empty());
}

#[test]
fn explain_and_score_use_the_same_formula() {
    let idx = index();
    let config = SearchConfig::default();
    let breakdown = idx.explain_entry("dog", &config, DOG).expect("weighted");
    let weights: u64 = breakdown.fields.iter().map(|f| f.weight as u64).sum();
    let accum: u64 = breakdown.fields.iter().map(|f| f.weight as u64 * f.score as u64).sum();
    assert_eq!(weights, 600);
    assert_eq!(breakdown.total_score as u64, accum / weights);
    assert_eq!(idx.score_entry("dog", &config, DOG), Some(breakdown.total_score));
}

#[test]
fn traverse_dog_synonyms() {
    let idx = index();
    let options = GraphOptions { max_depth: 1, max_nodes: 0, max_edges: 0, relations: vec![RelationKind::Synonym] };
    let graph = idx.traverse_graph(DOG, &options).expect("dog present");
    assert_eq!(graph.root, DOG);
    assert_eq!(graph.nodes[0].lexeme_id, DOG);
    assert_eq!(graph.nodes[0].depth, 0);
    assert_eq!(graph.nodes.len(), 3);
    for node in &graph.nodes[1..] {
        assert_eq!(node.depth, 1);
        assert_eq!(node.via, Some(RelationKind::Synonym));
        assert_eq!(node.parent, Some(DOG));
    }
    let ids: Vec<u32> = graph.nodes.iter().map(|n| n.lexeme_id).collect();
    assert_eq!(ids, vec![DOG, HOUND, PUPPY]);
    assert_eq!(graph.edges.len(), 2);
    assert_eq!(graph.max_depth_reached, 1);
    assert_eq!(graph.nodes[1].word, "hound");
}

#[test]
fn traverse_respects_bounds() {
    let idx = index();
    let two_nodes = GraphOptions { max_depth: 3, max_nodes: 2, max_edges: 0, relations: vec![] };
    let graph = idx.traverse_graph(DOG, &two_nodes).unwrap();
    assert_eq!(graph.nodes.len(), 2);
    assert_eq!(graph.edges.len(), 1);
    let one_edge = GraphOptions { max_depth: 3, max_nodes: 0, max_edges: 1, relations: vec![] };
    let graph = idx.traverse_graph(DOG, &one_edge).unwrap();
    assert_eq!(graph.edges.len(), 1);
    let root_only = GraphOptions { max_depth: 0, max_nodes: 0, max_edges: 0, relations: vec![] };
    let graph = idx.traverse_graph(DOG, &root_only).unwrap();
    assert_eq!(graph.nodes.len(), 1);
    assert!(graph.edges.is_empty());
    assert!(idx.traverse_graph(42, &GraphOptions::default()).is_none());
}

#[test]
fn traverse_is_sound() {
    let idx = index();
    let graph = idx.traverse_graph(CAT, &GraphOptions::default()).unwrap();
    let ids: Vec<u32> = graph.nodes.iter().map(|n| n.lexeme_id).collect();
    assert_eq!(ids, vec![CAT, DOG, HOUND, PUPPY]);
    for edge in &graph.edges {
        assert!(ids.contains(&edge.from));
        assert!(ids.contains(&edge.to));
    }
    let mut sorted = ids.clone();
    sorted.sort();
    sorted.dedup();
    assert_eq!(sorted.len(), ids.len());
    for node in &graph.nodes {
        assert!(node.depth <= 2);
    }
    assert_eq!(graph.max_depth_reached, 2);
}

#[test]
fn loader_rejects_corrupt_frames() {
    let mut store = build_store();
    store.strings.data[store.strings.offsets[0] as usize] ^= 0xff;
    assert!(LexemeIndex::new(lexicon(), store).is_none());
}

#[test]
fn loader_rejects_out_of_place_ids() {
    let mut store = build_store();
    store.entries[1].lexeme_id = 5;
    assert!(LexemeIndex::new(lexicon(), store).is_none());
    let mut store = build_store();
    store.entry_synonym_neighbors[0] = 77;
    assert!(LexemeIndex::new(lexicon(), store).is_none());
}

#[test]
fn loader_rejects_mismatched_lexicon() {
    let wrong = build_lexicon(&[("cat", CAT), ("dog", CAT)]);
    assert!(LexemeIndex::new(wrong, build_store()).is_none());
    let partial = build_lexicon(&[("cat", CAT), ("dog", DOG)]);
    assert!(LexemeIndex::new(partial, build_store()).is_none());
    assert!(LexemeIndex::new(lexicon(), build_store()).is_some());
}

#[test]
fn fuzzy_score_values() {
    assert_eq!(fuzzy_score("abc", "abc"), 10000);
    assert_eq!(fuzzy_score("abc", ""), 0);
    assert_eq!(fuzzy_score("ab", "ac"), 5000);
    assert_eq!(fuzzy_score("", "abcd"), 0);
    assert_eq!(fuzzy_score("abc", "abcd"), 8571);
}

#[test]
fn samples_are_truncated() {
    assert_eq!(truncate_sample("short"), "short");
    let long = "x".repeat(100);
    let sample = truncate_sample(&long);
    assert_eq!(sample.chars().count(), 97);
    assert_eq!(sample, format!("{}\u{2026}", "x".repeat(96)));
    assert_eq!(truncate_sample(&"y".repeat(96)), "y".repeat(96));
}

#[test]
fn blank_queries() {
    assert!(query_is_blank(""));
    assert!(query_is_blank(" \t\n\u{3000}"));
    assert!(!query_is_blank(" a "));
}

#[test]
fn config_defaults() {
    let config = SearchConfig::default();
    assert_eq!(config.total_weight(), 900);
    assert_eq!(config.min_score, 15);
    let options = GraphOptions::default();
    assert_eq!((options.max_depth, options.max_nodes, options.max_edges), (2, 128, 256));
}

#[test]
fn labels() {
    assert_eq!(RelationKind::Hypernym.label(), "hypernym");
    assert_eq!(FieldKind::Encyclopedia.label(), "encyclopedia");
    assert_eq!(IssueKind::BrokenRelation.label(), "Broken relation");
    assert_eq!(RelationKind::all().len(), 4);
}

#[test]
fn vote_totals_saturate() {
    let summary = SectionVoteSummary { up: 3, down: 4, last_vote_ts: 0 };
    assert_eq!(summary.total(), 7);
    let full = SectionVoteSummary { up: u64::MAX, down: 1, last_vote_ts: 0 };
    assert_eq!(full.total(), u64::MAX);
}

fn sorted_rows() -> Vec<(String, u32)> {
    let mut rows: Vec<(String, u32)> = WORDS.iter().enumerate().map(|(i, w)| (w.to_string(), i as u32)).collect();
    rows.sort();
    rows
}

#[test]
fn lexicon_builds_from_ordered_rows() {
    let lexicon = opengloss::builder::build_lexicon(&sorted_rows()).expect("ordered rows");
    let mut idx = LexemeIndex::new(lexicon, build_store()).expect("consistent");
    assert_eq!(idx.get("puppy"), Some(PUPPY));
    assert_eq!(words(&idx.search_contains("graph", 10)), vec!["graph", "paragraph", "photograph"]);
}

#[test]
fn lexicon_rejects_duplicate_and_unordered_rows() {
    let duplicate = vec![("cat".to_string(), 3), ("dog".to_string(), 4), ("dog".to_string(), 5)];
    match opengloss::builder::build_lexicon(&duplicate) {
        Err(opengloss::builder::BuildError::DuplicateWord(w)) => assert_eq!(w, "dog"),
        other => panic!("unexpected: {:?}", other.map(|m| m.len())),
    }
    let unordered = vec![("dog".to_string(), 4), ("cat".to_string(), 3)];
    match opengloss::builder::build_lexicon(&unordered) {
        Err(opengloss::builder::BuildError::OutOfOrder(at)) => assert_eq!(at, 0),
        other => panic!("unexpected: {:?}", other.map(|m| m.len())),
    }
    assert!(opengloss::builder::build_lexicon(&Vec::new()).is_ok());
}

#[test]
fn neighbor_names_resolve_through_lexicon() {
    let names = vec!["dog".to_string(), "unicorn".to_string(), "cat".to_string()];
    assert_eq!(opengloss::builder::resolve_names(&lexicon(), &names), vec![DOG, CAT]);
    assert!(opengloss::builder::resolve_names(&lexicon(), &Vec::new()).is_empty());
}

#[test]
fn lexeme_lines_parse() {
    assert_eq!(parse_lexeme_line("12\tdog\textra"), Ok(Some(("dog".to_string(), 12))));
    assert_eq!(parse_lexeme_line("7\tcat"), Ok(Some(("cat".to_string(), 7))));
    assert_eq!(parse_lexeme_line("+7\tcat"), Ok(Some(("cat".to_string(), 7))));
    assert_eq!(parse_lexeme_line("4294967295\tmax"), Ok(Some(("max".to_string(), u32::MAX))));
    assert_eq!(parse_lexeme_line("  \t "), Ok(None));
    assert_eq!(parse_lexeme_line(""), Ok(None));
    assert_eq!(parse_lexeme_line("5\t"), Ok(None));
    assert_eq!(parse_lexeme_line("5\t\tx"), Ok(None));
    assert_eq!(parse_lexeme_line("nodelimiter"), Err(LineError::MissingWord));
    assert_eq!(parse_lexeme_line("abc\tdog"), Err(LineError::BadId));
    assert_eq!(parse_lexeme_line("\tdog"), Err(LineError::BadId));
    assert_eq!(parse_lexeme_line("4294967296\tbig"), Err(LineError::BadId));
    assert_eq!(parse_lexeme_line("3d\tword"), Err(LineError::BadId));
    assert!(is_header("lexeme_id\tword"));
    assert!(!is_header("12\tdog"));
}

#[test]
fn non_ascii_words_match_by_bytes() {
    let accented = ["café", "naïve", "nació"];
    let pairs: Vec<(&str, u32)> = accented.iter().enumerate().map(|(i, w)| (*w, i as u32)).collect();
    let mut idx = LexemeIndex::new(build_lexicon(&pairs), build_store_of(&accented)).expect("loads");
    assert_eq!(idx.get("naïve"), Some(1));
    assert_eq!(words(&idx.prefix("na", 5)), vec!["nació", "naïve"]);
    assert_eq!(words(&idx.search_contains("ï", 5)), vec!["naïve"]);
    assert_eq!(idx.entry_by_word("café").unwrap().word(), "café");
    assert_eq!(fuzzy_score("café", "cafe"), 7500);
}

fn entry_input(id: u32, word: &str) -> EntryInput {
    let synonyms: Vec<String> = match word {
        "dog" => vec!["hound".to_string(), "puppy".to_string(), "unknown-word".to_string()],
        "hound" => vec!["dog".to_string()],
        _ => vec![],
    };
    EntryInput {
        lexeme_id: id,
        entry_id: format!("entry-{word}"),
        word: word.to_string(),
        text: if word == "algorithm" { Some("An algorithm is a procedure.".to_string()) } else { None },
        is_stopword: false,
        stopword_reason: None,
        parts_of_speech: vec!["noun".to_string()],
        senses: vec![SenseInput {
            part_of_speech: Some("noun".to_string()),
            sense_index: if word == "cat" { None } else { Some(1) },
            definition: Some(format!("the {word}")),
            synonyms: synonyms.clone(),
            antonyms: vec![],
            hypernyms: vec![],
            hyponyms: vec![],
            examples: vec![format!("a {word} here")],
        }],
        has_etymology: false,
        etymology_summary: None,
        etymology_cognates: vec![],
        has_encyclopedia: word == "algorithm",
        encyclopedia_entry: if word == "algorithm" { Some(LONG_ARTICLE.to_string()) } else { None },
        all_definitions: vec![format!("the {word}")],
        all_synonyms: synonyms,
        all_antonyms: if word == "cat" { vec!["dog".to_string()] } else { vec![] },
        all_hypernyms: vec![],
        all_hyponyms: vec![],
        all_collocations: vec![],
        all_inflections: vec![],
        all_derivations: vec![],
        all_examples: vec![],
    }
}

fn sealed_store() -> DataStore {
    let mut builder = ArchiveBuilder::new(lexicon());
    for (i, word) in WORDS.iter().enumerate() {
        builder.add_entry(&entry_input(i as u32, word)).expect("entry seals");
    }
    builder.finish(WORDS.len()).expect("archive seals")
}

#[test]
fn archive_builder_seals_a_loadable_store() {
    let store = sealed_store();
    let idx = LexemeIndex::new(lexicon(), store).expect("sealed archive loads");
    let dog = idx.entry_by_word("dog").unwrap();
    assert_eq!(dog.lexeme_id(), DOG);
    assert_eq!(dog.entry_id(), "entry-dog");
    assert_eq!(dog.synonym_neighbor_ids(), vec![HOUND, PUPPY]);
    assert_eq!(dog.all_synonyms(), vec!["hound", "puppy", "unknown-word"]);
    assert_eq!(dog.parts_of_speech(), vec!["noun"]);
    let senses = dog.senses();
    assert_eq!(senses.len(), 1);
    assert_eq!(senses[0].definition(), Some("the dog"));
    assert_eq!(senses[0].sense_index(), 1);
    assert_eq!(senses[0].examples(), vec!["a dog here"]);
    let cat = idx.entry_by_id(CAT).unwrap();
    assert_eq!(cat.antonym_neighbor_ids(), vec![DOG]);
    assert_eq!(cat.senses()[0].sense_index(), -1);
    let algorithm = idx.entry_by_id(ALGORITHM).unwrap();
    assert_eq!(algorithm.encyclopedia_entry().as_deref(), Some(LONG_ARTICLE));
    assert_eq!(algorithm.text().as_deref(), Some("An algorithm is a procedure."));
}

#[test]
fn archive_builder_shares_equal_strings() {
    let store = sealed_store();
    let first = store.entry_parts_of_speech[store.entries[0].parts_of_speech.start as usize];
    for entry in &store.entries {
        assert_eq!(store.entry_parts_of_speech[entry.parts_of_speech.start as usize], first);
        let sense = &store.senses[entry.senses.start as usize];
        assert_eq!(sense.part_of_speech, Some(first));
        assert_eq!(store.entry_all_definitions[entry.all_definitions.start as usize], sense.definition.unwrap());
    }
}

#[test]
fn archive_builder_rejects_bad_order_and_count() {
    let mut builder = ArchiveBuilder::new(lexicon());
    assert_eq!(builder.add_entry(&entry_input(1, "biology")), Err(SealError::OutOfOrderEntry(0, 1)));
    builder.add_entry(&entry_input(0, "algorithm")).unwrap();
    assert_eq!(builder.finish(2).err(), Some(SealError::EntryCount(1)));
    let mut dangling = ArchiveBuilder::new(lexicon());
    dangling.add_entry(&entry_input(0, "dog")).unwrap();
    assert_eq!(dangling.finish(1).err(), Some(SealError::Layout));
}

#[test]
fn every_word_looks_up_to_its_own_id() {
    let idx = index();
    for id in 0..WORDS.len() as u32 {
        let word = idx.entry_by_id(id).unwrap().word();
        assert_eq!(idx.get(word), Some(id));
    }
    for (word, id) in idx.prefix("", 100) {
        assert_eq!(idx.get(&word), Some(id));
    }
}

#[test]
fn traversal_depths_are_breadth_first() {
    let idx = index();
    let graph = idx.traverse_graph(CAT, &GraphOptions { max_depth: 5, max_nodes: 0, max_edges: 0, relations: vec![] }).unwrap();
    for pair in graph.nodes.windows(2) {
        assert!(pair[0].depth <= pair[1].depth);
    }
    let depth_of = |id: u32| graph.nodes.iter().find(|n| n.lexeme_id == id).map(|n| n.depth);
    assert_eq!(depth_of(CAT), Some(0));
    assert_eq!(depth_of(DOG), Some(1));
    assert_eq!(depth_of(HOUND), Some(2));
    assert_eq!(depth_of(PUPPY), Some(2));
}

#[test]
fn lexicon_from_unsorted_rows() {
    let rows = vec![("dog".to_string(), 4), ("cat".to_string(), 3), ("ant".to_string(), 0)];
    let map = opengloss::builder::lexicon_from_rows(rows).expect("distinct words");
    assert_eq!(map.get("cat"), Some(3));
    let keys: Vec<Vec<u8>> = {
        let mut stream = map.stream();
        let mut keys = Vec::new();
        while let Some((k, _)) = stream.next() {
            keys.push(k.to_vec());
        }
        keys
    };
    assert_eq!(keys, vec![b"ant".to_vec(), b"cat".to_vec(), b"dog".to_vec()]);
    let dup = vec![("dog".to_string(), 4), ("dog".to_string(), 5)];
    assert!(matches!(opengloss::builder::lexicon_from_rows(dup), Err(opengloss::builder::BuildError::DuplicateWord(_))));
}

#[test]
fn fuzzy_cache_holds_the_last_request() {
    let mut idx = index();
    let config = SearchConfig::default();
    let first = idx.search_fuzzy_with_stats("cat", &config, 2);
    let second = idx.search_fuzzy_with_stats("cat", &config, 2);
    assert!(!first.cache_hit && second.cache_hit);
    assert_eq!(first.results.len(), second.results.len());
}
