//! Checks that an archive honours its layout invariants, and resolves the
//! short-string pool once so that every later read is a table lookup.
use vstd::prelude::*;
use vstd::slice::slice_subrange;
use vstd::utf8::*;
use crate::bindings::{utf8_string, zstd_decode, zstd_decoded};
use crate::data::{
    frame, ids_below, opt_below, pool_ok, CompressedTextStore, DataStore, PackedStrings,
};

verus! {

/// The text that a compressed frame holds: it must decompress, and to valid UTF-8.
pub open spec fn frame_text(f: Seq<u8>) -> Option<Seq<char>> {
    match zstd_decoded(f) {
        Some(b) => if valid_utf8(b) {
            Some(decode_utf8(b))
        } else {
            None
        },
        None => None,
    }
}

/// Every frame of a pool holds text.
pub open spec fn pool_texts_ok(offsets: Seq<u32>, lengths: Seq<u32>, data: Seq<u8>) -> bool {
    forall|i: int| 0 <= i < offsets.len() ==> (#[trigger] frame_text(frame(offsets, lengths, data, i))) is Some
}

/// Decompresses one frame and reads it as UTF-8 text.
pub fn frame_to_text(offsets: &Vec<u32>, lengths: &Vec<u32>, data: &Vec<u8>, i: usize) -> (r: Option<String>)
    requires
        pool_ok(offsets@, lengths@, data@.len()),
        i < offsets@.len(),
    ensures
        match r {
            Some(s) => frame_text(frame(offsets@, lengths@, data@, i as int)) == Some(s@),
            None => frame_text(frame(offsets@, lengths@, data@, i as int)) is None,
        },
{
    let total: usize = data.len();
    assert(offsets@[i as int] + lengths@[i as int] <= total);
    let start: usize = offsets[i] as usize;
    let end: usize = start + lengths[i] as usize;
    let bytes = slice_subrange(data.as_slice(), start, end);
    match zstd_decode(bytes) {
        Some(raw) => utf8_string(raw),
        None => None,
    }
}

/// Checks that every frame of a pool lies inside its buffer.
pub fn pool_fits(offsets: &Vec<u32>, lengths: &Vec<u32>, data: &Vec<u8>) -> (r: bool)
    ensures
        r == pool_ok(offsets@, lengths@, data@.len()),
{
    if offsets.len() != lengths.len() {
        return false;
    }
    let mut i: usize = 0;
    while i < offsets.len()
        invariant
            offsets@.len() == lengths@.len(),
            i <= offsets@.len(),
            forall|k: int| 0 <= k < i ==> offsets@[k] + lengths@[k] <= data@.len(),
        decreases offsets@.len() - i,
    {
        if (offsets[i] as u64) + (lengths[i] as u64) > data.len() as u64 {
            return false;
        }
        i = i + 1;
    }
    true
}

/// Resolves every frame of the short-string pool, or `None` if one does not hold text.
pub fn resolve_pool(strings: &PackedStrings) -> (r: Option<Vec<String>>)
    requires
        strings.wf(),
    ensures
        r is Some <==> pool_texts_ok(strings.offsets@, strings.lengths@, strings.data@),
        r matches Some(v) ==> v@.len() == strings.count() && forall|i: int|
            0 <= i < v@.len() ==> frame_text(strings.frame_of(i)) == Some(#[trigger] v@[i]@),
{
    let mut out: Vec<String> = Vec::new();
    let mut i: usize = 0;
    while i < strings.offsets.len()
        invariant
            strings.wf(),
            i <= strings.offsets@.len(),
            out@.len() == i,
            forall|k: int| 0 <= k < i ==> frame_text(strings.frame_of(k)) == Some(#[trigger] out@[k]@),
        decreases strings.offsets@.len() - i,
    {
        match frame_to_text(&strings.offsets, &strings.lengths, &strings.data, i) {
            Some(s) => out.push(s),
            None => return None,
        }
        i = i + 1;
    }
    assert(pool_texts_ok(strings.offsets@, strings.lengths@, strings.data@)) by {
        assert forall|k: int| 0 <= k < strings.offsets@.len() implies (#[trigger] frame_text(
            frame(strings.offsets@, strings.lengths@, strings.data@, k),
        )) is Some by {
            assert(frame_text(strings.frame_of(k)) == Some(out@[k]@));
        }
    }
    Some(out)
}

/// Checks that every long document decompresses to text.
pub fn texts_readable(texts: &CompressedTextStore) -> (r: bool)
    requires
        texts.wf(),
    ensures
        r == pool_texts_ok(texts.offsets@, texts.lengths@, texts.data@),
{
    let mut i: usize = 0;
    while i < texts.offsets.len()
        invariant
            texts.wf(),
            i <= texts.offsets@.len(),
            forall|k: int| 0 <= k < i ==> (#[trigger] frame_text(texts.frame_of(k))) is Some,
        decreases texts.offsets@.len() - i,
    {
        if frame_to_text(&texts.offsets, &texts.lengths, &texts.data, i).is_none() {
            return false;
        }
        i = i + 1;
    }
    assert forall|k: int| 0 <= k < texts.offsets@.len() implies (#[trigger] frame_text(
        frame(texts.offsets@, texts.lengths@, texts.data@, k),
    )) is Some by {
        assert(frame_text(texts.frame_of(k)) is Some);
    }
    true
}

/// Checks that every id of `ids` is below `bound`.
pub fn ids_fit(ids: &Vec<u32>, bound: usize) -> (r: bool)
    ensures
        r == ids_below(ids@, bound as nat),
{
    let mut i: usize = 0;
    while i < ids.len()
        invariant
            i <= ids@.len(),
            forall|k: int| 0 <= k < i ==> ids@[k] < bound,
        decreases ids@.len() - i,
    {
        if ids[i] as usize >= bound {
            return false;
        }
        i = i + 1;
    }
    true
}

fn opt_fits(id: Option<u32>, bound: usize) -> (r: bool)
    ensures
        r == opt_below(id, bound as nat),
{
    match id {
        Some(v) => (v as usize) < bound,
        None => true,
    }
}

/// Checks `entry_ok` for entry `i`.
fn entry_fits(store: &DataStore, i: usize) -> (r: bool)
    requires
        i < store.entries@.len(),
    ensures
        r == store.entry_ok(i as int),
{
    let e = &store.entries[i];
    let n = store.strings.offsets.len();
    let t = store.long_texts.offsets.len();
    e.lexeme_id as usize == i && (e.word as usize) < n && (e.entry_id as usize) < n && opt_fits(
        e.stopword_reason,
        n,
    ) && opt_fits(e.etymology_summary, n) && opt_fits(e.text, t) && opt_fits(
        e.encyclopedia_entry,
        t,
    ) && e.parts_of_speech.fits_in(store.entry_parts_of_speech.len()) && e.senses.fits_in(
        store.senses.len(),
    ) && e.etymology_cognates.fits_in(store.entry_etymology_cognates.len())
        && e.all_definitions.fits_in(store.entry_all_definitions.len())
        && e.all_synonyms.fits_in(store.entry_all_synonyms.len())
        && e.all_antonyms.fits_in(store.entry_all_antonyms.len())
        && e.all_hypernyms.fits_in(store.entry_all_hypernyms.len())
        && e.all_hyponyms.fits_in(store.entry_all_hyponyms.len())
        && e.all_collocations.fits_in(store.entry_all_collocations.len())
        && e.all_inflections.fits_in(store.entry_all_inflections.len())
        && e.all_derivations.fits_in(store.entry_all_derivations.len())
        && e.all_examples.fits_in(store.entry_all_examples.len())
        && e.synonym_neighbors.fits_in(store.entry_synonym_neighbors.len())
        && e.antonym_neighbors.fits_in(store.entry_antonym_neighbors.len())
        && e.hypernym_neighbors.fits_in(store.entry_hypernym_neighbors.len())
        && e.hyponym_neighbors.fits_in(store.entry_hyponym_neighbors.len())
}

/// Checks `sense_ok` for sense `j`.
fn sense_fits(store: &DataStore, j: usize) -> (r: bool)
    requires
        j < store.senses@.len(),
    ensures
        r == store.sense_ok(j as int),
{
    let s = &store.senses[j];
    let n = store.strings.offsets.len();
    opt_fits(s.part_of_speech, n) && opt_fits(s.definition, n) && s.synonyms.fits_in(
        store.sense_synonyms.len(),
    ) && s.antonyms.fits_in(store.sense_antonyms.len()) && s.hypernyms.fits_in(
        store.sense_hypernyms.len(),
    ) && s.hyponyms.fits_in(store.sense_hyponyms.len()) && s.examples.fits_in(
        store.sense_examples.len(),
    )
}

/// Checks the side arrays of ids.
fn side_arrays_fit(store: &DataStore) -> (r: bool)
    ensures
        r == store.side_arrays_ok(),
{
    let n = store.strings.offsets.len();
    let m = store.entries.len();
    ids_fit(&store.entry_parts_of_speech, n) && ids_fit(&store.sense_synonyms, n) && ids_fit(
        &store.sense_antonyms,
        n,
    ) && ids_fit(&store.sense_hypernyms, n) && ids_fit(&store.sense_hyponyms, n) && ids_fit(
        &store.sense_examples,
        n,
    ) && ids_fit(&store.entry_all_definitions, n) && ids_fit(&store.entry_all_synonyms, n)
        && ids_fit(&store.entry_all_antonyms, n) && ids_fit(&store.entry_all_hypernyms, n)
        && ids_fit(&store.entry_all_hyponyms, n) && ids_fit(&store.entry_all_collocations, n)
        && ids_fit(&store.entry_all_inflections, n) && ids_fit(&store.entry_all_derivations, n)
        && ids_fit(&store.entry_all_examples, n) && ids_fit(&store.entry_etymology_cognates, n)
        && ids_fit(&store.entry_synonym_neighbors, m) && ids_fit(&store.entry_antonym_neighbors, m)
        && ids_fit(&store.entry_hypernym_neighbors, m) && ids_fit(&store.entry_hyponym_neighbors, m)
}

/// Checks every layout invariant of a sealed archive.
pub fn layout_ok(store: &DataStore) -> (r: bool)
    ensures
        r == store.wf(),
{
    if !pool_fits(&store.strings.offsets, &store.strings.lengths, &store.strings.data) {
        return false;
    }
    if !pool_fits(&store.long_texts.offsets, &store.long_texts.lengths, &store.long_texts.data) {
        return false;
    }
    if store.entries.len() >= 0xffff_ffff {
        return false;
    }
    if !side_arrays_fit(store) {
        return false;
    }
    let mut i: usize = 0;
    while i < store.entries.len()
        invariant
            i <= store.entries@.len(),
            forall|k: int| 0 <= k < i ==> #[trigger] store.entry_ok(k),
        decreases store.entries@.len() - i,
    {
        if !entry_fits(store, i) {
            return false;
        }
        i = i + 1;
    }
    let mut j: usize = 0;
    while j < store.senses.len()
        invariant
            j <= store.senses@.len(),
            forall|k: int| 0 <= k < j ==> #[trigger] store.sense_ok(k),
        decreases store.senses@.len() - j,
    {
        if !sense_fits(store, j) {
            return false;
        }
        j = j + 1;
    }
    assert(store.strings.wf());
    true
}

} // verus!
