//! The calls this library makes into outside code, each with the contract it
//! relies on.
use vstd::prelude::*;
use vstd::string::*;
use vstd::utf8::*;
use crate::lexical::{key_has_prefix, keys_increasing, pairs_view, value_for};
use fst::{Automaton, IntoStreamer};

verus! {

/// fst::Map, the ordered map from byte-string keys to `u64` values.
#[verifier::external_type_specification]
#[verifier::external_body]
#[verifier::reject_recursive_types(D)]
pub struct ExFstMap<D>(fst::Map<D>);

/// lru::LruCache, a map of bounded size that evicts its least recently used entry.
#[verifier::external_type_specification]
#[verifier::external_body]
#[verifier::reject_recursive_types(K)]
#[verifier::reject_recursive_types(V)]
#[verifier::reject_recursive_types(S)]
pub struct ExLruCache<K, V, S>(lru::LruCache<K, V, S>);

/// The hasher that lru::LruCache uses by default.
#[verifier::external_type_specification]
#[verifier::external_body]
pub struct ExLruHasher(lru::DefaultHasher);

/// The `(key, value)` pairs of an FST map, in the order its streams yield them.
pub uninterp spec fn fst_entries(m: fst::Map<Vec<u8>>) -> Seq<(Seq<u8>, u64)>;

/// What a substring cache holds: pattern to list of `(word, id)` matches.
pub uninterp spec fn cached_matches(c: MatchCache) -> Map<
    Seq<char>,
    Seq<(Seq<char>, u32)>,
>;

/// What a ranking cache holds: request key to list of `(id, word, score)` rows.
pub uninterp spec fn cached_rankings(c: RankCache) -> Map<
    RankKeyView,
    Seq<(u32, Seq<char>, u32)>,
>;

/// The bytes that a zstd frame decompresses to, or `None` for a corrupt frame.
pub uninterp spec fn zstd_decoded(frame: Seq<u8>) -> Option<Seq<u8>>;

/// The length of a longest common subsequence of two character sequences.
pub open spec fn lcs_len(a: Seq<char>, b: Seq<char>) -> nat
    decreases a.len() + b.len(),
{
    if a.len() == 0 || b.len() == 0 {
        0
    } else if a.last() == b.last() {
        lcs_len(a.drop_last(), b.drop_last()) + 1
    } else {
        let x = lcs_len(a.drop_last(), b);
        let y = lcs_len(a, b.drop_last());
        if x >= y {
            x
        } else {
            y
        }
    }
}

/// The Indel distance: the fewest insertions and deletions that turn `a`
/// into `b`, that is both lengths less twice a longest common subsequence.
pub open spec fn indel_distance(a: Seq<char>, b: Seq<char>) -> nat {
    (a.len() + b.len() - 2 * lcs_len(a, b)) as nat
}

/// Recent substring scans: pattern to `(word, id)` matches.
pub type MatchCache = lru::LruCache<String, Vec<(String, u32)>>;

/// Recent rankings: request to `(id, word, score)` rows.
pub type RankCache = lru::LruCache<RankKey, Vec<(u32, String, u32)>>;

/// A ranking request as a cache key: query, the six configuration values, limit.
pub type RankKey = (String, u32, u32, u32, u32, u32, u32, usize);

pub type RankKeyView = (Seq<char>, u32, u32, u32, u32, u32, u32, usize);

pub open spec fn rank_key_view(k: RankKey) -> RankKeyView {
    (k.0@, k.1, k.2, k.3, k.4, k.5, k.6, k.7)
}

pub open spec fn match_rows_view(s: Seq<(String, u32)>) -> Seq<(Seq<char>, u32)> {
    s.map_values(|p: (String, u32)| (p.0@, p.1))
}

pub open spec fn rank_rows_view(s: Seq<(u32, String, u32)>) -> Seq<(u32, Seq<char>, u32)> {
    s.map_values(|p: (u32, String, u32)| (p.0, p.1@, p.2))
}

/// `after` holds `key -> value`, and otherwise only entries that `before` held.
pub open spec fn cache_put<K, V>(before: Map<K, V>, after: Map<K, V>, key: K, value: V) -> bool {
    &&& after.contains_key(key)
    &&& after[key] == value
    &&& forall|k: K| #[trigger]
        after.contains_key(k) && k != key ==> before.contains_key(k) && after[k] == before[k]
}

/// Relies on fst::Map::stream and Stream::into_byte_vec: every key of the map
/// with its value, in strictly increasing byte order.
#[verifier::external_body]
pub(crate) fn fst_all(m: &fst::Map<Vec<u8>>) -> (r: Vec<(Vec<u8>, u64)>)
    ensures
        pairs_view(r@) == fst_entries(*m),
        keys_increasing(pairs_view(r@)),
{
    m.stream().into_byte_vec()
}

/// Relies on fst::Map::get: the value stored under exactly this key.
#[verifier::external_body]
pub(crate) fn fst_get(m: &fst::Map<Vec<u8>>, key: &str) -> (r: Option<u64>)
    ensures
        r == value_for(fst_entries(*m), key.spec_bytes()),
{
    m.get(key)
}

/// Relies on fst::Map::search with automaton::Str::starts_with and
/// Stream::into_byte_vec: the entries whose key starts with `p`, in strictly
/// increasing byte order.
#[verifier::external_body]
pub(crate) fn fst_prefix(m: &fst::Map<Vec<u8>>, p: &str) -> (r: Vec<(Vec<u8>, u64)>)
    ensures
        pairs_view(r@) == fst_entries(*m).filter(key_has_prefix(p.spec_bytes())),
        keys_increasing(pairs_view(r@)),
{
    m.search(fst::automaton::Str::new(p).starts_with()).into_stream().into_byte_vec()
}

/// Relies on lru::LruCache::new: an empty cache that holds at most `cap` items.
#[verifier::external_body]
pub(crate) fn new_match_cache(cap: usize) -> (r: MatchCache)
    requires
        cap > 0,
    ensures
        cached_matches(r) =~= Map::empty(),
{
    lru::LruCache::new(std::num::NonZeroUsize::new(cap).unwrap())
}

/// Relies on lru::LruCache::get: a copy of the list stored under `key`, if
/// any; the stored entries stay as they are.
#[verifier::external_body]
pub(crate) fn match_cache_get(c: &mut MatchCache, key: &str) -> (r:
    Option<Vec<(String, u32)>>)
    ensures
        cached_matches(*final(c)) == cached_matches(*old(c)),
        r is Some <==> cached_matches(*old(c)).contains_key(key@),
        r matches Some(v) ==> match_rows_view(v@) == cached_matches(*old(c))[key@],
{
    c.get(key).cloned()
}

/// Relies on lru::LruCache::put: stores `key -> value`, evicting at most the
/// least recently used other entry.
#[verifier::external_body]
pub(crate) fn match_cache_put(
    c: &mut MatchCache,
    key: String,
    value: Vec<(String, u32)>,
)
    ensures
        cache_put(cached_matches(*old(c)), cached_matches(*final(c)), key@, match_rows_view(value@)),
{
    c.put(key, value);
}

/// Relies on lru::LruCache::new: an empty cache that holds at most `cap` items.
#[verifier::external_body]
pub(crate) fn new_rank_cache(cap: usize) -> (r: RankCache)
    requires
        cap > 0,
    ensures
        cached_rankings(r) =~= Map::empty(),
{
    lru::LruCache::new(std::num::NonZeroUsize::new(cap).unwrap())
}

/// Relies on lru::LruCache::get: a copy of the rows stored under `key`, if
/// any; the stored entries stay as they are.
#[verifier::external_body]
pub(crate) fn rank_cache_get(c: &mut RankCache, key: &RankKey) -> (r:
    Option<Vec<(u32, String, u32)>>)
    ensures
        cached_rankings(*final(c)) == cached_rankings(*old(c)),
        r is Some <==> cached_rankings(*old(c)).contains_key(rank_key_view(*key)),
        r matches Some(v) ==> rank_rows_view(v@) == cached_rankings(*old(c))[rank_key_view(*key)],
{
    c.get(key).cloned()
}

/// Relies on lru::LruCache::put: stores `key -> value`, evicting at most the
/// least recently used other entry.
#[verifier::external_body]
pub(crate) fn rank_cache_put(
    c: &mut RankCache,
    key: RankKey,
    value: Vec<(u32, String, u32)>,
)
    ensures
        cache_put(
            cached_rankings(*old(c)),
            cached_rankings(*final(c)),
            rank_key_view(key),
            rank_rows_view(value@),
        ),
{
    c.put(key, value);
}

/// Relies on zstd::decode_all: decompresses one frame held in memory; the
/// outcome depends on the bytes alone.
#[verifier::external_body]
pub(crate) fn zstd_decode(frame: &[u8]) -> (r: Option<Vec<u8>>)
    ensures
        match r {
            Some(v) => zstd_decoded(frame@) == Some(v@),
            None => zstd_decoded(frame@) is None,
        },
{
    zstd::decode_all(frame).ok()
}

/// Relies on String::from_utf8: it succeeds exactly on valid UTF-8 and then
/// holds the characters that the bytes encode.
#[verifier::external_body]
pub(crate) fn utf8_string(bytes: Vec<u8>) -> (r: Option<String>)
    ensures
        r is Some <==> valid_utf8(bytes@),
        r matches Some(s) ==> s@ == decode_utf8(bytes@),
{
    String::from_utf8(bytes).ok()
}

/// Relies on rapidfuzz::distance::indel::distance over the characters of both
/// strings, which computes both lengths less twice the longest common
/// subsequence; that is at most the two lengths together, and 0 for equal strings.
#[verifier::external_body]
pub(crate) fn indel(a: &str, b: &str) -> (r: usize)
    ensures
        r == indel_distance(a@, b@),
        r <= a@.len() + b@.len(),
        a@ == b@ ==> r == 0,
{
    rapidfuzz::distance::indel::distance(a.chars(), b.chars())
}

/// Relies on fst::MapBuilder::memory, MapBuilder::extend_iter and
/// MapBuilder::into_map: given keys in strictly increasing byte order, the map
/// holds exactly those keys with their values, in that order.
#[verifier::external_body]
pub(crate) fn fst_from_rows(rows: &Vec<(String, u32)>) -> (r: fst::Map<Vec<u8>>)
    requires
        crate::builder::words_increasing(rows@),
    ensures
        fst_entries(r) == crate::builder::row_keys(rows@),
{
    let mut builder = fst::MapBuilder::memory();
    builder.extend_iter(rows.iter().map(|row| (row.0.as_bytes(), row.1 as u64))).unwrap();
    builder.into_map()
}

/// The frame that zstd compresses bytes to at a level, or `None` when it fails.
pub uninterp spec fn zstd_encoded(bytes: Seq<u8>, level: i32) -> Option<Seq<u8>>;

/// Relies on zstd::encode_all: compresses the bytes into one frame that
/// decompresses back to exactly those bytes, or fails; the outcome depends on
/// the bytes and the level alone.
#[verifier::external_body]
pub(crate) fn zstd_encode(bytes: &[u8], level: i32) -> (r: Option<Vec<u8>>)
    ensures
        match r {
            Some(f) => zstd_encoded(bytes@, level) == Some(f@),
            None => zstd_encoded(bytes@, level) is None,
        },
        r matches Some(f) ==> zstd_decoded(f@) == Some(bytes@),
{
    zstd::encode_all(bytes, level).ok()
}

/// Relies on slice::sort: the same rows, reordered so that words ascend in
/// byte order (`str`'s order), ties broken by id.
#[verifier::external_body]
pub(crate) fn sort_rows(rows: &mut Vec<(String, u32)>)
    ensures
        crate::builder::row_keys(final(rows)@).to_multiset() == crate::builder::row_keys(old(rows)@).to_multiset(),
        forall|i: int|
            0 <= i < final(rows)@.len() - 1 ==> !crate::lexical::bytes_lt(
                vstd::utf8::encode_utf8((#[trigger] final(rows)@[i + 1]).0@),
                vstd::utf8::encode_utf8(final(rows)@[i].0@),
            ),
{
    rows.sort();
}

} // verus!
