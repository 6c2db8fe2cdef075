//! Sealing entries into an archive: strings and documents interned into
//! compressed pools, list and neighbor ranges, and senses.
use vstd::prelude::*;
use vstd::hash_map::StringHashMap;
use vstd::string::*;
use vstd::utf8::*;
use crate::bindings::{fst_entries, zstd_encode, zstd_encoded};
use crate::builder::{names_view, resolve_names, resolved_ids};
use crate::data::{frame, pool_ok, CompressedTextStore, DataStore, EntryRecord, PackedStrings, Range, SenseRecord};
use crate::loader::{layout_ok, pool_texts_ok};
use crate::loader::frame_text;

verus! {

broadcast use vstd::utf8::group_utf8_lib, vstd::map_lib::lemma_submap_of_trans;

/// Compression level of short strings.
pub const STRING_LEVEL: i32 = 5;

/// Compression level of long documents, a little higher than for strings.
pub const LONG_TEXT_LEVEL: i32 = 6;

/// Why an entry or an archive cannot be built.
#[derive(Debug, Clone, Copy, PartialEq, Eq)]
pub enum SealError {
    /// Entries must come in lexeme id order: this id was expected, that one came.
    OutOfOrderEntry(usize, u32),
    /// A string or document could not be compressed.
    Compression,
    /// A pool or side array outgrew 32-bit offsets.
    TooLarge,
    /// The archive holds this many entries, not the number expected.
    EntryCount(usize),
    /// The sealed archive breaks a layout invariant (a neighbor id without entry).
    Layout,
}

/// The text of frame `i` of a pool.
pub open spec fn pool_text(offsets: Seq<u32>, lengths: Seq<u32>, data: Seq<u8>, i: int) -> Seq<char> {
    frame_text(frame(offsets, lengths, data, i))->0
}

/// A pool of compressed texts with its index: every frame holds text, the
/// index maps each text to the one frame that holds it, and equal texts
/// share that frame.
pub open spec fn interned(offsets: Seq<u32>, lengths: Seq<u32>, data: Seq<u8>, ids: Map<Seq<char>, u32>) -> bool {
    &&& pool_ok(offsets, lengths, data.len())
    &&& offsets.len() < u32::MAX
    &&& data.len() <= u32::MAX
    &&& forall|i: int| 0 <= i < offsets.len() ==> (#[trigger] frame_text(frame(offsets, lengths, data, i))) is Some
    &&& forall|k: Seq<char>| #[trigger]
        ids.contains_key(k) ==> ids[k] < offsets.len() && pool_text(offsets, lengths, data, ids[k] as int) == k
    &&& forall|i: int|
        0 <= i < offsets.len() ==> ids.contains_key(#[trigger] pool_text(offsets, lengths, data, i))
            && ids[pool_text(offsets, lengths, data, i)] == i
}

/// The second pool extends the first: its earlier frames are unchanged.
pub open spec fn pool_grows(
    o0: Seq<u32>,
    l0: Seq<u32>,
    d0: Seq<u8>,
    o1: Seq<u32>,
    l1: Seq<u32>,
    d1: Seq<u8>,
) -> bool {
    &&& o0.len() <= o1.len()
    &&& o1.take(o0.len() as int) == o0
    &&& l1.take(l0.len() as int) == l0
    &&& l0.len() <= l1.len()
    &&& d0.len() <= d1.len()
    &&& d1.take(d0.len() as int) == d0
}

/// Frames that were there stay the same as a pool grows.
pub proof fn lemma_frames_kept(
    o0: Seq<u32>,
    l0: Seq<u32>,
    d0: Seq<u8>,
    o1: Seq<u32>,
    l1: Seq<u32>,
    d1: Seq<u8>,
    i: int,
)
    requires
        pool_ok(o0, l0, d0.len()),
        pool_grows(o0, l0, d0, o1, l1, d1),
        0 <= i < o0.len(),
    ensures
        frame(o1, l1, d1, i) == frame(o0, l0, d0, i),
        pool_text(o1, l1, d1, i) == pool_text(o0, l0, d0, i),
{
    assert(o1[i] == o1.take(o0.len() as int)[i]);
    assert(l1[i] == l1.take(l0.len() as int)[i]);
    assert(frame(o1, l1, d1, i) =~= frame(o0, l0, d0, i)) by {
        assert forall|k: int| 0 <= k < frame(o0, l0, d0, i).len() implies frame(o1, l1, d1, i)[k]
            == frame(o0, l0, d0, i)[k] by {
            assert(d1.take(d0.len() as int)[o0[i] + k] == d1[o0[i] + k]);
        }
    }
}

/// `s` compresses at `level`.
pub open spec fn compresses(s: Seq<char>, level: i32) -> bool {
    zstd_encoded(encode_utf8(s), level) is Some
}

/// The length of the frame that `s` compresses to, 0 when it does not compress.
pub open spec fn frame_len(s: Seq<char>, level: i32) -> nat {
    match zstd_encoded(encode_utf8(s), level) {
        Some(f) => f.len(),
        None => 0,
    }
}

/// The total length of the frames the texts of `l` compress to.
pub open spec fn frames_size(l: Seq<Seq<char>>, level: i32) -> nat
    decreases l.len(),
{
    if l.len() == 0 {
        0
    } else {
        frames_size(l.drop_last(), level) + frame_len(l.last(), level)
    }
}

/// Every text of `l` compresses at `level`.
pub open spec fn all_compress(l: Seq<Seq<char>>, level: i32) -> bool {
    forall|k: int| 0 <= k < l.len() ==> compresses(#[trigger] l[k], level)
}

/// A pool of `count` frames and `bytes` bytes has room for `more` frames of
/// `more_bytes` bytes within 32-bit ids and offsets.
pub open spec fn room(count: int, bytes: int, more: int, more_bytes: int) -> bool {
    count + more <= 0xffff_fffe && bytes + more_bytes <= 0xffff_ffff
}

/// What interning `s` gives: its id when held; else a compression failure,
/// a full pool, or the next id.
pub open spec fn intern_result(count: nat, bytes: nat, ids: Map<Seq<char>, u32>, s: Seq<char>, level: i32) -> Result<u32, SealError> {
    if ids.contains_key(s) {
        Ok(ids[s])
    } else if !compresses(s, level) {
        Err(SealError::Compression)
    } else if !room(count as int, bytes as int, 1, frame_len(s, level) as int) {
        Err(SealError::TooLarge)
    } else {
        Ok(count as u32)
    }
}

/// A longer list's frames take at least as many bytes as its front part's.
proof fn lemma_frames_size_prefix(l: Seq<Seq<char>>, level: i32, k: int)
    requires
        0 <= k <= l.len(),
    ensures
        frames_size(l.take(k), level) <= frames_size(l, level),
    decreases l.len(),
{
    if k < l.len() {
        assert(l.drop_last().take(k) =~= l.take(k));
        lemma_frames_size_prefix(l.drop_last(), level, k);
    } else {
        assert(l.take(k) =~= l);
    }
}

/// Interns `s`: the id of the frame holding it, compressing it into a new
/// frame when the pool does not hold it yet.
pub fn intern(
    offsets: &mut Vec<u32>,
    lengths: &mut Vec<u32>,
    data: &mut Vec<u8>,
    ids: &mut StringHashMap<u32>,
    s: &str,
    level: i32,
) -> (r: Result<u32, SealError>)
    requires
        interned(old(offsets)@, old(lengths)@, old(data)@, old(ids)@),
    ensures
        interned(final(offsets)@, final(lengths)@, final(data)@, final(ids)@),
        pool_grows(old(offsets)@, old(lengths)@, old(data)@, final(offsets)@, final(lengths)@, final(data)@),
        old(ids)@.contains_key(s@) ==> r == Ok::<u32, SealError>(old(ids)@[s@]) && final(offsets)@ == old(
            offsets,
        )@ && final(lengths)@ == old(lengths)@ && final(data)@ == old(data)@ && final(ids)@ == old(ids)@,
        old(ids)@.submap_of(final(ids)@),
        r matches Ok(id) ==> final(ids)@.contains_key(s@) && final(ids)@[s@] == id,
        r matches Ok(id) ==> id < final(offsets)@.len() && pool_text(
            final(offsets)@,
            final(lengths)@,
            final(data)@,
            id as int,
        ) == s@,
        r is Err ==> final(offsets)@ == old(offsets)@ && final(lengths)@ == old(lengths)@ && final(data)@
            == old(data)@ && final(ids)@ == old(ids)@,
        r == intern_result(old(offsets)@.len(), old(data)@.len(), old(ids)@, s@, level),
        final(offsets)@.len() <= old(offsets)@.len() + 1,
        final(data)@.len() <= old(data)@.len() + frame_len(s@, level),
{
    match ids.get(s) {
        Some(id) => {
            let id = *id;
            assert(offsets@.take(offsets@.len() as int) =~= offsets@);
            assert(lengths@.take(lengths@.len() as int) =~= lengths@);
            assert(data@.take(data@.len() as int) =~= data@);
            return Ok(id);
        },
        None => {},
    }
    let frame_bytes = match zstd_encode(s.as_bytes(), level) {
        Some(f) => f,
        None => {
            assert(offsets@.take(offsets@.len() as int) =~= offsets@);
            assert(lengths@.take(lengths@.len() as int) =~= lengths@);
            assert(data@.take(data@.len() as int) =~= data@);
            return Err(SealError::Compression);
        },
    };
    let start = data.len();
    let n = offsets.len();
    if frame_bytes.len() > 0xffff_ffff - start || n >= 0xffff_fffe {
        assert(offsets@.take(offsets@.len() as int) =~= offsets@);
        assert(lengths@.take(lengths@.len() as int) =~= lengths@);
        assert(data@.take(data@.len() as int) =~= data@);
        return Err(SealError::TooLarge);
    }
    let ghost o0 = offsets@;
    let ghost l0 = lengths@;
    let ghost d0 = data@;
    let ghost m0 = ids@;
    offsets.push(start as u32);
    lengths.push(frame_bytes.len() as u32);
    data.extend_from_slice(frame_bytes.as_slice());
    ids.insert(s.to_owned(), n as u32);
    proof {
        assert(offsets@.take(o0.len() as int) =~= o0);
        assert(lengths@.take(l0.len() as int) =~= l0);
        assert(data@.take(d0.len() as int) =~= d0);
        assert(frame(offsets@, lengths@, data@, n as int) =~= frame_bytes@);
        assert(frame_text(frame(offsets@, lengths@, data@, n as int)) == Some(s@));
        assert forall|i: int| 0 <= i < o0.len() implies frame(offsets@, lengths@, data@, i) == frame(
            o0,
            l0,
            d0,
            i,
        ) by {
            lemma_frames_kept(o0, l0, d0, offsets@, lengths@, data@, i);
        }
        assert forall|i: int| 0 <= i < offsets@.len() implies (#[trigger] frame_text(
            frame(offsets@, lengths@, data@, i),
        )) is Some by {
            if i < o0.len() {
                assert(frame_text(frame(o0, l0, d0, i)) is Some);
            }
        }
        assert forall|k: Seq<char>| #[trigger] ids@.contains_key(k) implies ids@[k] < offsets@.len()
            && pool_text(offsets@, lengths@, data@, ids@[k] as int) == k by {
            if k != s@ {
                assert(m0.contains_key(k));
                assert(pool_text(o0, l0, d0, m0[k] as int) == k);
            }
        }
        assert forall|i: int| 0 <= i < offsets@.len() implies ids@.contains_key(
            #[trigger] pool_text(offsets@, lengths@, data@, i),
        ) && ids@[pool_text(offsets@, lengths@, data@, i)] == i by {
            if i < o0.len() {
                assert(pool_text(offsets@, lengths@, data@, i) == pool_text(o0, l0, d0, i));
                assert(m0.contains_key(pool_text(o0, l0, d0, i)));
                assert(pool_text(o0, l0, d0, i) != s@);
            }
        }
    }
    Ok(n as u32)
}

/// One sense of an entry, as plain values.
#[derive(Debug, Clone)]
pub struct SenseInput {
    pub part_of_speech: Option<String>,
    /// The sense's index; a sense without one is sealed with index -1.
    pub sense_index: Option<i32>,
    pub definition: Option<String>,
    pub synonyms: Vec<String>,
    pub antonyms: Vec<String>,
    pub hypernyms: Vec<String>,
    pub hyponyms: Vec<String>,
    pub examples: Vec<String>,
}

/// One entry of the corpus, as plain values.
#[derive(Debug, Clone)]
pub struct EntryInput {
    pub lexeme_id: u32,
    pub entry_id: String,
    pub word: String,
    pub text: Option<String>,
    pub is_stopword: bool,
    pub stopword_reason: Option<String>,
    pub parts_of_speech: Vec<String>,
    pub senses: Vec<SenseInput>,
    pub has_etymology: bool,
    pub etymology_summary: Option<String>,
    pub etymology_cognates: Vec<String>,
    pub has_encyclopedia: bool,
    pub encyclopedia_entry: Option<String>,
    pub all_definitions: Vec<String>,
    pub all_synonyms: Vec<String>,
    pub all_antonyms: Vec<String>,
    pub all_hypernyms: Vec<String>,
    pub all_hyponyms: Vec<String>,
    pub all_collocations: Vec<String>,
    pub all_inflections: Vec<String>,
    pub all_derivations: Vec<String>,
    pub all_examples: Vec<String>,
}

pub open spec fn opt_text_view(s: Option<String>) -> Option<Seq<char>> {
    match s {
        Some(x) => Some(x@),
        None => None,
    }
}

/// Every text of `list` is in the index, and `ids` holds its id at the same place.
pub open spec fn ids_of(index: Map<Seq<char>, u32>, list: Seq<Seq<char>>, ids: Seq<u32>) -> bool {
    &&& ids.len() == list.len()
    &&& forall|k: int| 0 <= k < list.len() ==> index.contains_key(#[trigger] list[k]) && index[list[k]] == ids[k]
}

/// An optional text and the optional id it was interned as.
pub open spec fn opt_id_of(index: Map<Seq<char>, u32>, s: Option<Seq<char>>, id: Option<u32>) -> bool {
    match s {
        Some(t) => id is Some && index.contains_key(t) && index[t] == id->0,
        None => id is None,
    }
}

/// Appends `ids` to a side array and returns the range they occupy.
pub fn attach(side: &mut Vec<u32>, ids: Vec<u32>) -> (r: Result<Range, SealError>)
    ensures
        r is Err <==> old(side)@.len() + ids@.len() > 0xffff_ffff,
        r is Err ==> r == Err::<Range, SealError>(SealError::TooLarge),
        r is Err ==> final(side)@ == old(side)@,
        r matches Ok(rg) ==> rg.start == old(side)@.len() && rg.len == ids@.len() && final(side)@ == old(
            side,
        )@ + ids@ && rg.select(final(side)@) == ids@,
{
    let start = side.len();
    if start > 0xffff_ffff || ids.len() > 0xffff_ffff - start {
        return Err(SealError::TooLarge);
    }
    let count = ids.len();
    let mut moved = ids;
    let ghost added = moved@;
    side.append(&mut moved);
    let rg = Range { start: start as u32, len: count as u32 };
    assert(rg.select(side@) =~= added);
    Ok(rg)
}

/// The texts of an optional text: none or one.
pub open spec fn opt_seq(s: Option<Seq<char>>) -> Seq<Seq<char>> {
    match s {
        Some(t) => seq![t],
        None => seq![],
    }
}

/// What interning the list `l` into a pool that held `c0` frames of `b0`
/// bytes does: the pool grows by at most `l`'s frames; success is owed when
/// `l` compresses and fits; a compression failure means some text of `l`
/// does not compress, and a full pool means it does not fit.
pub open spec fn step_ok<T>(c0: nat, b0: nat, c1: nat, b1: nat, l: Seq<Seq<char>>, level: i32, r: Result<T, SealError>) -> bool {
    &&& c1 <= c0 + l.len()
    &&& b1 <= b0 + frames_size(l, level)
    &&& all_compress(l, level) && room(c0 as int, b0 as int, l.len() as int, frames_size(l, level) as int) ==> r is Ok
    &&& r matches Err(x) ==> (x == SealError::Compression && !all_compress(l, level)) || (x == SealError::TooLarge
        && !room(c0 as int, b0 as int, l.len() as int, frames_size(l, level) as int))
}

/// One text: its frames are its frame, and it compresses when it does.
proof fn lemma_single(x: Seq<char>, level: i32)
    ensures
        frames_size(seq![x], level) == frame_len(x, level),
        all_compress(seq![x], level) == compresses(x, level),
        frames_size(Seq::<Seq<char>>::empty(), level) == 0,
        all_compress(Seq::<Seq<char>>::empty(), level),
{
    reveal_with_fuel(frames_size, 2);
    assert(seq![x].drop_last() =~= Seq::<Seq<char>>::empty());
    assert(seq![x].last() == x);
    if !compresses(x, level) {
        assert(seq![x][0] == x);
    }
}

/// The short-string pool holds text in every frame, indexed by `ids`.
pub open spec fn strings_ok(pool: PackedStrings, ids: Map<Seq<char>, u32>) -> bool {
    interned(pool.offsets@, pool.lengths@, pool.data@, ids)
}

/// The document pool holds text in every frame, indexed by `ids`.
pub open spec fn texts_ok(pool: CompressedTextStore, ids: Map<Seq<char>, u32>) -> bool {
    interned(pool.offsets@, pool.lengths@, pool.data@, ids)
}

fn intern_str(pool: &mut PackedStrings, ids: &mut StringHashMap<u32>, s: &str) -> (r: Result<u32, SealError>)
    requires
        strings_ok(*old(pool), old(ids)@),
    ensures
        strings_ok(*final(pool), final(ids)@),
        old(ids)@.submap_of(final(ids)@),
        r matches Ok(id) ==> final(ids)@.contains_key(s@) && final(ids)@[s@] == id,
        step_ok(
            old(pool).offsets@.len(),
            old(pool).data@.len(),
            final(pool).offsets@.len(),
            final(pool).data@.len(),
            seq![s@],
            STRING_LEVEL,
            r,
        ),
{
    proof {
        lemma_single(s@, STRING_LEVEL);
    }
    intern(&mut pool.offsets, &mut pool.lengths, &mut pool.data, ids, s, STRING_LEVEL)
}

fn intern_opt(pool: &mut PackedStrings, ids: &mut StringHashMap<u32>, s: &Option<String>) -> (r: Result<
    Option<u32>,
    SealError,
>)
    requires
        strings_ok(*old(pool), old(ids)@),
    ensures
        strings_ok(*final(pool), final(ids)@),
        old(ids)@.submap_of(final(ids)@),
        r matches Ok(id) ==> opt_id_of(final(ids)@, opt_text_view(*s), id),
        step_ok(
            old(pool).offsets@.len(),
            old(pool).data@.len(),
            final(pool).offsets@.len(),
            final(pool).data@.len(),
            opt_seq(opt_text_view(*s)),
            STRING_LEVEL,
            r,
        ),
{
    proof {
        if let Some(t) = s {
            lemma_single(t@, STRING_LEVEL);
        } else {
            lemma_single(Seq::<char>::empty(), STRING_LEVEL);
        }
    }
    match s {
        Some(t) => match intern_str(pool, ids, t.as_str()) {
            Ok(id) => Ok(Some(id)),
            Err(e) => Err(e),
        },
        None => Ok(None),
    }
}

fn intern_doc(pool: &mut CompressedTextStore, ids: &mut StringHashMap<u32>, s: &Option<String>) -> (r:
    Result<Option<u32>, SealError>)
    requires
        texts_ok(*old(pool), old(ids)@),
    ensures
        texts_ok(*final(pool), final(ids)@),
        old(ids)@.submap_of(final(ids)@),
        r matches Ok(id) ==> opt_id_of(final(ids)@, opt_text_view(*s), id),
        step_ok(
            old(pool).offsets@.len(),
            old(pool).data@.len(),
            final(pool).offsets@.len(),
            final(pool).data@.len(),
            opt_seq(opt_text_view(*s)),
            LONG_TEXT_LEVEL,
            r,
        ),
{
    proof {
        if let Some(t) = s {
            lemma_single(t@, LONG_TEXT_LEVEL);
        } else {
            lemma_single(Seq::<char>::empty(), LONG_TEXT_LEVEL);
        }
    }
    match s {
        Some(t) => match intern(
            &mut pool.offsets,
            &mut pool.lengths,
            &mut pool.data,
            ids,
            t.as_str(),
            LONG_TEXT_LEVEL,
        ) {
            Ok(id) => Ok(Some(id)),
            Err(e) => Err(e),
        },
        None => Ok(None),
    }
}

/// Interns every string of a list, in order.
fn intern_list(pool: &mut PackedStrings, ids: &mut StringHashMap<u32>, list: &Vec<String>) -> (r: Result<
    Vec<u32>,
    SealError,
>)
    requires
        strings_ok(*old(pool), old(ids)@),
    ensures
        strings_ok(*final(pool), final(ids)@),
        old(ids)@.submap_of(final(ids)@),
        r matches Ok(v) ==> ids_of(final(ids)@, names_view(list@), v@),
        step_ok(
            old(pool).offsets@.len(),
            old(pool).data@.len(),
            final(pool).offsets@.len(),
            final(pool).data@.len(),
            names_view(list@),
            STRING_LEVEL,
            r,
        ),
{
    let ghost l = names_view(list@);
    let ghost c0 = pool.offsets@.len();
    let ghost b0 = pool.data@.len();
    let mut out: Vec<u32> = Vec::new();
    let mut i: usize = 0;
    assert(l.take(0) =~= Seq::<Seq<char>>::empty());
    proof {
        lemma_single(Seq::<char>::empty(), STRING_LEVEL);
    }
    while i < list.len()
        invariant
            strings_ok(*pool, ids@),
            old(ids)@.submap_of(ids@),
            l == names_view(list@),
            c0 == old(pool).offsets@.len(),
            b0 == old(pool).data@.len(),
            i <= list@.len(),
            ids_of(ids@, names_view(list@).take(i as int), out@),
            pool.offsets@.len() <= c0 + i,
            pool.data@.len() <= b0 + frames_size(l.take(i as int), STRING_LEVEL),
        decreases list@.len() - i,
    {
        let ghost before = ids@;
        proof {
            assert(l.take(i + 1).drop_last() =~= l.take(i as int));
            assert(l.take(i + 1).last() == list@[i as int]@);
            lemma_frames_size_prefix(l, STRING_LEVEL, i + 1);
            lemma_single(list@[i as int]@, STRING_LEVEL);
        }
        let result = intern_str(pool, ids, list[i].as_str());
        let id = match result {
            Ok(id) => id,
            Err(e) => {
                proof {
                    if e == SealError::Compression {
                        assert(!compresses(l[i as int], STRING_LEVEL));
                    }
                }
                return Err(e);
            },
        };
        out.push(id);
        proof {
            assert forall|k: int| 0 <= k < i + 1 implies ids@.contains_key(
                #[trigger] names_view(list@).take(i + 1)[k],
            ) && ids@[names_view(list@).take(i + 1)[k]] == out@[k] by {
                let x = names_view(list@).take(i + 1)[k];
                if k < i {
                    assert(x == names_view(list@).take(i as int)[k]);
                    assert(before.contains_key(x));
                    assert(before.submap_of(ids@));
                    assert(ids@.contains_key(x) && ids@[x] == before[x]);
                } else {
                    assert(x == list@[k]@);
                }
            }
        }
        i = i + 1;
    }
    assert(names_view(list@).take(list@.len() as int) =~= names_view(list@));
    assert(l.take(list@.len() as int) =~= l);
    Ok(out)
}

/// Interns a list and appends its ids to a side array.
fn push_list(
    pool: &mut PackedStrings,
    ids: &mut StringHashMap<u32>,
    side: &mut Vec<u32>,
    list: &Vec<String>,
) -> (r: Result<Range, SealError>)
    requires
        strings_ok(*old(pool), old(ids)@),
    ensures
        strings_ok(*final(pool), final(ids)@),
        old(ids)@.submap_of(final(ids)@),
        final(side)@.len() >= old(side)@.len(),
        final(side)@.take(old(side)@.len() as int) == old(side)@,
        r matches Ok(rg) ==> rg.start == old(side)@.len() && rg.fits(final(side)@.len()) && ids_of(
            final(ids)@,
            names_view(list@),
            rg.select(final(side)@),
        ),
        r is Ok ==> final(side)@.len() == old(side)@.len() + list@.len(),
        final(pool).offsets@.len() <= old(pool).offsets@.len() + list@.len(),
        final(pool).data@.len() <= old(pool).data@.len() + frames_size(names_view(list@), STRING_LEVEL),
        all_compress(names_view(list@), STRING_LEVEL) && room(
            old(pool).offsets@.len() as int,
            old(pool).data@.len() as int,
            list@.len() as int,
            frames_size(names_view(list@), STRING_LEVEL) as int,
        ) && old(side)@.len() + list@.len() <= 0xffff_ffff ==> r is Ok,
        r matches Err(x) ==> (x == SealError::Compression && !all_compress(names_view(list@), STRING_LEVEL))
            || (x == SealError::TooLarge && (!room(
            old(pool).offsets@.len() as int,
            old(pool).data@.len() as int,
            list@.len() as int,
            frames_size(names_view(list@), STRING_LEVEL) as int,
        ) || old(side)@.len() + list@.len() > 0xffff_ffff)),
{
    let v = match intern_list(pool, ids, list) {
        Ok(v) => v,
        Err(e) => {
            assert(side@.take(side@.len() as int) =~= side@);
            return Err(e);
        },
    };
    let ghost s0 = side@;
    let r = attach(side, v);
    assert(side@.take(s0.len() as int) =~= s0);
    r
}

/// Resolves neighbor names and appends their ids to a side array.
fn push_neighbors(lexicon: &fst::Map<Vec<u8>>, side: &mut Vec<u32>, names: &Vec<String>) -> (r: Result<
    Range,
    SealError,
>)
    ensures
        r is Err <==> old(side)@.len() + resolved_ids(fst_entries(*lexicon), names_view(names@)).len()
            > 0xffff_ffff,
        r is Err ==> r == Err::<Range, SealError>(SealError::TooLarge),
        r is Err ==> final(side)@ == old(side)@,
        r matches Ok(rg) ==> rg.start == old(side)@.len() && rg.fits(final(side)@.len())
            && rg.select(final(side)@) == resolved_ids(fst_entries(*lexicon), names_view(names@)),
{
    attach(side, resolve_names(lexicon, names))
}

/// The index a sense is sealed with: its own, or -1 when it has none.
pub open spec fn sense_index_of(s: SenseInput) -> i32 {
    match s.sense_index {
        Some(v) => v,
        None => -1i32,
    }
}

/// How many short strings a sense interns.
pub open spec fn sense_count(s: SenseInput) -> nat {
    opt_seq(opt_text_view(s.part_of_speech)).len() + opt_seq(opt_text_view(s.definition)).len()
        + s.synonyms@.len() + s.antonyms@.len() + s.hypernyms@.len() + s.hyponyms@.len()
        + s.examples@.len()
}

/// How many bytes of frames a sense's short strings take.
pub open spec fn sense_bytes(s: SenseInput) -> nat {
    frames_size(opt_seq(opt_text_view(s.part_of_speech)), STRING_LEVEL) + frames_size(
        opt_seq(opt_text_view(s.definition)),
        STRING_LEVEL,
    ) + frames_size(names_view(s.synonyms@), STRING_LEVEL) + frames_size(names_view(s.antonyms@), STRING_LEVEL)
        + frames_size(names_view(s.hypernyms@), STRING_LEVEL) + frames_size(names_view(s.hyponyms@), STRING_LEVEL)
        + frames_size(names_view(s.examples@), STRING_LEVEL)
}

/// Every short string of a sense compresses.
pub open spec fn sense_compresses(s: SenseInput) -> bool {
    &&& all_compress(opt_seq(opt_text_view(s.part_of_speech)), STRING_LEVEL)
    &&& all_compress(opt_seq(opt_text_view(s.definition)), STRING_LEVEL)
    &&& all_compress(names_view(s.synonyms@), STRING_LEVEL)
    &&& all_compress(names_view(s.antonyms@), STRING_LEVEL)
    &&& all_compress(names_view(s.hypernyms@), STRING_LEVEL)
    &&& all_compress(names_view(s.hyponyms@), STRING_LEVEL)
    &&& all_compress(names_view(s.examples@), STRING_LEVEL)
}

/// The sense side arrays have room for a sense's lists.
pub open spec fn sense_sides_fit(st: DataStore, s: SenseInput) -> bool {
    &&& st.sense_synonyms@.len() + s.synonyms@.len() <= 0xffff_ffff
    &&& st.sense_antonyms@.len() + s.antonyms@.len() <= 0xffff_ffff
    &&& st.sense_hypernyms@.len() + s.hypernyms@.len() <= 0xffff_ffff
    &&& st.sense_hyponyms@.len() + s.hyponyms@.len() <= 0xffff_ffff
    &&& st.sense_examples@.len() + s.examples@.len() <= 0xffff_ffff
}

/// The sum of `f` over a list of senses.
pub open spec fn senses_total(l: Seq<SenseInput>, f: spec_fn(SenseInput) -> nat) -> nat
    decreases l.len(),
{
    if l.len() == 0 {
        0
    } else {
        senses_total(l.drop_last(), f) + f(l.last())
    }
}

/// A front part of a list of senses sums to no more than the whole.
proof fn lemma_senses_total_prefix(l: Seq<SenseInput>, f: spec_fn(SenseInput) -> nat, k: int)
    requires
        0 <= k <= l.len(),
    ensures
        senses_total(l.take(k), f) <= senses_total(l, f),
    decreases l.len(),
{
    if k < l.len() {
        assert(l.drop_last().take(k) =~= l.take(k));
        lemma_senses_total_prefix(l.drop_last(), f, k);
    } else {
        assert(l.take(k) =~= l);
    }
}

/// Each sense's count of short strings.
pub open spec fn by_count() -> spec_fn(SenseInput) -> nat {
    |s: SenseInput| sense_count(s)
}

/// Each sense's bytes of frames.
pub open spec fn by_bytes() -> spec_fn(SenseInput) -> nat {
    |s: SenseInput| sense_bytes(s)
}

pub open spec fn by_synonyms() -> spec_fn(SenseInput) -> nat {
    |s: SenseInput| s.synonyms@.len()
}

pub open spec fn by_antonyms() -> spec_fn(SenseInput) -> nat {
    |s: SenseInput| s.antonyms@.len()
}

pub open spec fn by_hypernyms() -> spec_fn(SenseInput) -> nat {
    |s: SenseInput| s.hypernyms@.len()
}

pub open spec fn by_hyponyms() -> spec_fn(SenseInput) -> nat {
    |s: SenseInput| s.hyponyms@.len()
}

pub open spec fn by_examples() -> spec_fn(SenseInput) -> nat {
    |s: SenseInput| s.examples@.len()
}

/// The sense side arrays have room for all the lists of a list of senses.
pub open spec fn senses_sides_fit(st: DataStore, l: Seq<SenseInput>) -> bool {
    &&& st.sense_synonyms@.len() + senses_total(l, by_synonyms()) <= 0xffff_ffff
    &&& st.sense_antonyms@.len() + senses_total(l, by_antonyms()) <= 0xffff_ffff
    &&& st.sense_hypernyms@.len() + senses_total(l, by_hypernyms()) <= 0xffff_ffff
    &&& st.sense_hyponyms@.len() + senses_total(l, by_hyponyms()) <= 0xffff_ffff
    &&& st.sense_examples@.len() + senses_total(l, by_examples()) <= 0xffff_ffff
}

/// Every short string of every sense compresses.
pub open spec fn senses_compress(l: Seq<SenseInput>) -> bool {
    forall|j: int| 0 <= j < l.len() ==> sense_compresses(#[trigger] l[j])
}

/// What a sealed sense holds: its lexeme, its index, and through the string
/// index, the texts of its fields and lists.
pub open spec fn sense_sealed(index: Map<Seq<char>, u32>, st: DataStore, rec: SenseRecord, s: SenseInput, lexeme_id: u32) -> bool {
    &&& rec.lexeme_id == lexeme_id
    &&& rec.sense_index == sense_index_of(s)
    &&& opt_id_of(index, opt_text_view(s.part_of_speech), rec.part_of_speech)
    &&& opt_id_of(index, opt_text_view(s.definition), rec.definition)
    &&& rec.synonyms.fits(st.sense_synonyms@.len())
    &&& ids_of(index, names_view(s.synonyms@), rec.synonyms.select(st.sense_synonyms@))
    &&& rec.antonyms.fits(st.sense_antonyms@.len())
    &&& ids_of(index, names_view(s.antonyms@), rec.antonyms.select(st.sense_antonyms@))
    &&& rec.hypernyms.fits(st.sense_hypernyms@.len())
    &&& ids_of(index, names_view(s.hypernyms@), rec.hypernyms.select(st.sense_hypernyms@))
    &&& rec.hyponyms.fits(st.sense_hyponyms@.len())
    &&& ids_of(index, names_view(s.hyponyms@), rec.hyponyms.select(st.sense_hyponyms@))
    &&& rec.examples.fits(st.sense_examples@.len())
    &&& ids_of(index, names_view(s.examples@), rec.examples.select(st.sense_examples@))
}

/// Ids of a list stay right as the index grows.
proof fn lemma_ids_kept(i0: Map<Seq<char>, u32>, i1: Map<Seq<char>, u32>, list: Seq<Seq<char>>, ids: Seq<u32>)
    requires
        ids_of(i0, list, ids),
        i0.submap_of(i1),
    ensures
        ids_of(i1, list, ids),
{
    assert forall|k: int| 0 <= k < list.len() implies i1.contains_key(#[trigger] list[k]) && i1[list[k]] == ids[k] by {
        assert(i0.contains_key(list[k]));
        assert(i0.dom().contains(list[k]) ==> i1.dom().contains(list[k]) && i0[list[k]] == i1[list[k]]);
    }
}

/// An optional id stays right as the index grows.
proof fn lemma_opt_kept(i0: Map<Seq<char>, u32>, i1: Map<Seq<char>, u32>, s: Option<Seq<char>>, id: Option<u32>)
    requires
        opt_id_of(i0, s, id),
        i0.submap_of(i1),
    ensures
        opt_id_of(i1, s, id),
{
    if let Some(t) = s {
        assert(i0.contains_key(t));
    }
}

/// A range keeps selecting the same ids as its side array grows at the end.
proof fn lemma_select_kept(rg: Range, a: Seq<u32>, b: Seq<u32>)
    requires
        rg.fits(a.len()),
        a.len() <= b.len(),
        b.take(a.len() as int) == a,
    ensures
        rg.select(b) == rg.select(a),
{
    assert(rg.select(b) =~= rg.select(a)) by {
        assert forall|k: int| 0 <= k < rg.len implies rg.select(b)[k] == rg.select(a)[k] by {
            assert(b.take(a.len() as int)[rg.start + k] == b[rg.start + k]);
        }
    }
}

/// The entry-level side arrays and entries of `a` and `b` are the same.
pub open spec fn entry_sides_same(a: DataStore, b: DataStore) -> bool {
    &&& a.entries == b.entries
    &&& a.entry_parts_of_speech == b.entry_parts_of_speech
    &&& a.entry_etymology_cognates == b.entry_etymology_cognates
    &&& a.entry_all_definitions == b.entry_all_definitions
    &&& a.entry_all_synonyms == b.entry_all_synonyms
    &&& a.entry_all_antonyms == b.entry_all_antonyms
    &&& a.entry_all_hypernyms == b.entry_all_hypernyms
    &&& a.entry_all_hyponyms == b.entry_all_hyponyms
    &&& a.entry_all_collocations == b.entry_all_collocations
    &&& a.entry_all_inflections == b.entry_all_inflections
    &&& a.entry_all_derivations == b.entry_all_derivations
    &&& a.entry_all_examples == b.entry_all_examples
    &&& a.entry_synonym_neighbors == b.entry_synonym_neighbors
    &&& a.entry_antonym_neighbors == b.entry_antonym_neighbors
    &&& a.entry_hypernym_neighbors == b.entry_hypernym_neighbors
    &&& a.entry_hyponym_neighbors == b.entry_hyponym_neighbors
}

/// The sense side arrays of `b` extend those of `a`; everything else is the same.
pub open spec fn senses_grow(a: DataStore, b: DataStore) -> bool {
    &&& a.senses@.len() <= b.senses@.len()
    &&& b.senses@.take(a.senses@.len() as int) == a.senses@
    &&& a.sense_synonyms@.len() <= b.sense_synonyms@.len()
    &&& b.sense_synonyms@.take(a.sense_synonyms@.len() as int) == a.sense_synonyms@
    &&& a.sense_antonyms@.len() <= b.sense_antonyms@.len()
    &&& b.sense_antonyms@.take(a.sense_antonyms@.len() as int) == a.sense_antonyms@
    &&& a.sense_hypernyms@.len() <= b.sense_hypernyms@.len()
    &&& b.sense_hypernyms@.take(a.sense_hypernyms@.len() as int) == a.sense_hypernyms@
    &&& a.sense_hyponyms@.len() <= b.sense_hyponyms@.len()
    &&& b.sense_hyponyms@.take(a.sense_hyponyms@.len() as int) == a.sense_hyponyms@
    &&& a.sense_examples@.len() <= b.sense_examples@.len()
    &&& b.sense_examples@.take(a.sense_examples@.len() as int) == a.sense_examples@
}

/// A sealed sense stays sealed as the index and the sense arrays grow.
proof fn lemma_sense_kept(
    i0: Map<Seq<char>, u32>,
    i1: Map<Seq<char>, u32>,
    a: DataStore,
    b: DataStore,
    rec: SenseRecord,
    s: SenseInput,
    lexeme_id: u32,
)
    requires
        sense_sealed(i0, a, rec, s, lexeme_id),
        i0.submap_of(i1),
        senses_grow(a, b),
    ensures
        sense_sealed(i1, b, rec, s, lexeme_id),
{
    lemma_opt_kept(i0, i1, opt_text_view(s.part_of_speech), rec.part_of_speech);
    lemma_opt_kept(i0, i1, opt_text_view(s.definition), rec.definition);
    lemma_ids_kept(i0, i1, names_view(s.synonyms@), rec.synonyms.select(a.sense_synonyms@));
    lemma_ids_kept(i0, i1, names_view(s.antonyms@), rec.antonyms.select(a.sense_antonyms@));
    lemma_ids_kept(i0, i1, names_view(s.hypernyms@), rec.hypernyms.select(a.sense_hypernyms@));
    lemma_ids_kept(i0, i1, names_view(s.hyponyms@), rec.hyponyms.select(a.sense_hyponyms@));
    lemma_ids_kept(i0, i1, names_view(s.examples@), rec.examples.select(a.sense_examples@));
    lemma_select_kept(rec.synonyms, a.sense_synonyms@, b.sense_synonyms@);
    lemma_select_kept(rec.antonyms, a.sense_antonyms@, b.sense_antonyms@);
    lemma_select_kept(rec.hypernyms, a.sense_hypernyms@, b.sense_hypernyms@);
    lemma_select_kept(rec.hyponyms, a.sense_hyponyms@, b.sense_hyponyms@);
    lemma_select_kept(rec.examples, a.sense_examples@, b.sense_examples@);
}

/// Seals one sense.
fn push_sense(
    pool: &mut PackedStrings,
    ids: &mut StringHashMap<u32>,
    st: &mut DataStore,
    lexeme_id: u32,
    s: &SenseInput,
) -> (r: Result<(), SealError>)
    requires
        strings_ok(*old(pool), old(ids)@),
    ensures
        strings_ok(*final(pool), final(ids)@),
        old(ids)@.submap_of(final(ids)@),
        senses_grow(*old(st), *final(st)),
        entry_sides_same(*old(st), *final(st)),
        r is Ok ==> final(st).senses@.len() == old(st).senses@.len() + 1 && sense_sealed(
            final(ids)@,
            *final(st),
            final(st).senses@.last(),
            *s,
            lexeme_id,
        ),
        r is Ok ==> final(st).sense_synonyms@.len() == old(st).sense_synonyms@.len() + s.synonyms@.len()
            && final(st).sense_antonyms@.len() == old(st).sense_antonyms@.len() + s.antonyms@.len()
            && final(st).sense_hypernyms@.len() == old(st).sense_hypernyms@.len() + s.hypernyms@.len()
            && final(st).sense_hyponyms@.len() == old(st).sense_hyponyms@.len() + s.hyponyms@.len()
            && final(st).sense_examples@.len() == old(st).sense_examples@.len() + s.examples@.len(),
        final(pool).offsets@.len() <= old(pool).offsets@.len() + sense_count(*s),
        final(pool).data@.len() <= old(pool).data@.len() + sense_bytes(*s),
        sense_compresses(*s) && room(
            old(pool).offsets@.len() as int,
            old(pool).data@.len() as int,
            sense_count(*s) as int,
            sense_bytes(*s) as int,
        ) && sense_sides_fit(*old(st), *s) ==> r is Ok,
        r matches Err(x) ==> (x == SealError::Compression && !sense_compresses(*s)) || (x
            == SealError::TooLarge && (!room(
            old(pool).offsets@.len() as int,
            old(pool).data@.len() as int,
            sense_count(*s) as int,
            sense_bytes(*s) as int,
        ) || !sense_sides_fit(*old(st), *s))),
{
    let ghost st0 = *st;
    proof {
        lemma_grow_refl(st0);
    }
    let part_of_speech = match intern_opt(pool, ids, &s.part_of_speech) {
        Ok(v) => v,
        Err(e) => {
            return Err(e);
        },
    };
    let definition = match intern_opt(pool, ids, &s.definition) {
        Ok(v) => v,
        Err(e) => {
            return Err(e);
        },
    };
    let ghost m0 = ids@;
    let synonyms = match push_list(pool, ids, &mut st.sense_synonyms, &s.synonyms) {
        Ok(v) => v,
        Err(e) => {
            return Err(e);
        },
    };
    let ghost m1 = ids@;
    let antonyms = match push_list(pool, ids, &mut st.sense_antonyms, &s.antonyms) {
        Ok(v) => v,
        Err(e) => {
            return Err(e);
        },
    };
    let ghost m2 = ids@;
    let hypernyms = match push_list(pool, ids, &mut st.sense_hypernyms, &s.hypernyms) {
        Ok(v) => v,
        Err(e) => {
            return Err(e);
        },
    };
    let ghost m3 = ids@;
    let hyponyms = match push_list(pool, ids, &mut st.sense_hyponyms, &s.hyponyms) {
        Ok(v) => v,
        Err(e) => {
            return Err(e);
        },
    };
    let ghost m4 = ids@;
    let examples = match push_list(pool, ids, &mut st.sense_examples, &s.examples) {
        Ok(v) => v,
        Err(e) => {
            return Err(e);
        },
    };
    let sense_index = match s.sense_index {
        Some(v) => v,
        None => -1i32,
    };
    st.senses.push(
        SenseRecord {
            lexeme_id,
            part_of_speech,
            sense_index,
            definition,
            synonyms,
            antonyms,
            hypernyms,
            hyponyms,
            examples,
        },
    );
    proof {
        assert(st.senses@.take(st0.senses@.len() as int) =~= st0.senses@);
        let fin = ids@;
        lemma_opt_kept(m0, fin, opt_text_view(s.part_of_speech), part_of_speech);
        lemma_opt_kept(m0, fin, opt_text_view(s.definition), definition);
        lemma_ids_kept(m1, fin, names_view(s.synonyms@), synonyms.select(st.sense_synonyms@));
        lemma_ids_kept(m2, fin, names_view(s.antonyms@), antonyms.select(st.sense_antonyms@));
        lemma_ids_kept(m3, fin, names_view(s.hypernyms@), hypernyms.select(st.sense_hypernyms@));
        lemma_ids_kept(m4, fin, names_view(s.hyponyms@), hyponyms.select(st.sense_hyponyms@));
    }
    Ok(())
}

proof fn lemma_grow_refl(a: DataStore)
    ensures
        senses_grow(a, a),
{
    assert(a.senses@.take(a.senses@.len() as int) =~= a.senses@);
    assert(a.sense_synonyms@.take(a.sense_synonyms@.len() as int) =~= a.sense_synonyms@);
    assert(a.sense_antonyms@.take(a.sense_antonyms@.len() as int) =~= a.sense_antonyms@);
    assert(a.sense_hypernyms@.take(a.sense_hypernyms@.len() as int) =~= a.sense_hypernyms@);
    assert(a.sense_hyponyms@.take(a.sense_hyponyms@.len() as int) =~= a.sense_hyponyms@);
    assert(a.sense_examples@.take(a.sense_examples@.len() as int) =~= a.sense_examples@);
}

/// Growth of the sense arrays composes.
proof fn lemma_grow_trans(a: DataStore, b: DataStore, c: DataStore)
    requires
        senses_grow(a, b),
        senses_grow(b, c),
    ensures
        senses_grow(a, c),
{
    assert(c.senses@.take(a.senses@.len() as int) =~= b.senses@.take(a.senses@.len() as int));
    assert(c.sense_synonyms@.take(a.sense_synonyms@.len() as int) =~= b.sense_synonyms@.take(
        a.sense_synonyms@.len() as int,
    ));
    assert(c.sense_antonyms@.take(a.sense_antonyms@.len() as int) =~= b.sense_antonyms@.take(
        a.sense_antonyms@.len() as int,
    ));
    assert(c.sense_hypernyms@.take(a.sense_hypernyms@.len() as int) =~= b.sense_hypernyms@.take(
        a.sense_hypernyms@.len() as int,
    ));
    assert(c.sense_hyponyms@.take(a.sense_hyponyms@.len() as int) =~= b.sense_hyponyms@.take(
        a.sense_hyponyms@.len() as int,
    ));
    assert(c.sense_examples@.take(a.sense_examples@.len() as int) =~= b.sense_examples@.take(
        a.sense_examples@.len() as int,
    ));
}

/// Every sense of `input` sealed in order from position `start` of the sense array.
pub open spec fn senses_sealed(
    index: Map<Seq<char>, u32>,
    st: DataStore,
    start: int,
    input: Seq<SenseInput>,
    lexeme_id: u32,
) -> bool {
    forall|j: int|
        0 <= j < input.len() ==> sense_sealed(index, st, #[trigger] st.senses@[start + j], input[j], lexeme_id)
}

/// Seals the senses of one entry and returns their range.
fn push_senses(
    pool: &mut PackedStrings,
    ids: &mut StringHashMap<u32>,
    st: &mut DataStore,
    lexeme_id: u32,
    senses: &Vec<SenseInput>,
) -> (r: Result<Range, SealError>)
    requires
        strings_ok(*old(pool), old(ids)@),
    ensures
        strings_ok(*final(pool), final(ids)@),
        old(ids)@.submap_of(final(ids)@),
        senses_grow(*old(st), *final(st)),
        entry_sides_same(*old(st), *final(st)),
        r matches Ok(rg) ==> rg.start == old(st).senses@.len() && rg.len == senses@.len() && rg.fits(
            final(st).senses@.len(),
        ) && senses_sealed(final(ids)@, *final(st), rg.start as int, senses@, lexeme_id),
        final(pool).offsets@.len() <= old(pool).offsets@.len() + senses_total(senses@, by_count()),
        final(pool).data@.len() <= old(pool).data@.len() + senses_total(senses@, by_bytes()),
        senses_compress(senses@) && room(
            old(pool).offsets@.len() as int,
            old(pool).data@.len() as int,
            senses_total(senses@, by_count()) as int,
            senses_total(senses@, by_bytes()) as int,
        ) && senses_sides_fit(*old(st), senses@) && old(st).senses@.len() + senses@.len() <= 0xffff_ffff
            ==> r is Ok,
        r matches Err(x) ==> (x == SealError::Compression && !senses_compress(senses@)) || (x
            == SealError::TooLarge && (!room(
            old(pool).offsets@.len() as int,
            old(pool).data@.len() as int,
            senses_total(senses@, by_count()) as int,
            senses_total(senses@, by_bytes()) as int,
        ) || !senses_sides_fit(*old(st), senses@) || old(st).senses@.len() + senses@.len() > 0xffff_ffff)),
{
    proof {
        lemma_grow_refl(*st);
    }
    let ghost l = senses@;
    let ghost c0 = pool.offsets@.len();
    let ghost b0 = pool.data@.len();
    assert(l.take(0) =~= Seq::<SenseInput>::empty());
    let start = st.senses.len();
    if start > 0xffff_ffff || senses.len() > 0xffff_ffff - start {
        return Err(SealError::TooLarge);
    }
    let mut i: usize = 0;
    while i < senses.len()
        invariant
            strings_ok(*pool, ids@),
            old(ids)@.submap_of(ids@),
            senses_grow(*old(st), *st),
            entry_sides_same(*old(st), *st),
            start == old(st).senses@.len(),
            start + senses@.len() <= 0xffff_ffff,
            i <= senses@.len(),
            st.senses@.len() == start + i,
            senses_sealed(ids@, *st, start as int, senses@.take(i as int), lexeme_id),
            l == senses@,
            c0 == old(pool).offsets@.len(),
            b0 == old(pool).data@.len(),
            pool.offsets@.len() <= c0 + senses_total(l.take(i as int), by_count()),
            pool.data@.len() <= b0 + senses_total(l.take(i as int), by_bytes()),
            st.sense_synonyms@.len() == old(st).sense_synonyms@.len() + senses_total(l.take(i as int), by_synonyms()),
            st.sense_antonyms@.len() == old(st).sense_antonyms@.len() + senses_total(l.take(i as int), by_antonyms()),
            st.sense_hypernyms@.len() == old(st).sense_hypernyms@.len() + senses_total(l.take(i as int), by_hypernyms()),
            st.sense_hyponyms@.len() == old(st).sense_hyponyms@.len() + senses_total(l.take(i as int), by_hyponyms()),
            st.sense_examples@.len() == old(st).sense_examples@.len() + senses_total(l.take(i as int), by_examples()),
        decreases senses@.len() - i,
    {
        let ghost i0 = ids@;
        let ghost st0 = *st;
        proof {
            assert(l.take(i + 1).drop_last() =~= l.take(i as int));
            assert(l.take(i + 1).last() == l[i as int]);
            lemma_senses_total_prefix(l, by_count(), i + 1);
            lemma_senses_total_prefix(l, by_bytes(), i + 1);
            lemma_senses_total_prefix(l, by_synonyms(), i + 1);
            lemma_senses_total_prefix(l, by_antonyms(), i + 1);
            lemma_senses_total_prefix(l, by_hypernyms(), i + 1);
            lemma_senses_total_prefix(l, by_hyponyms(), i + 1);
            lemma_senses_total_prefix(l, by_examples(), i + 1);
        }
        let result = push_sense(pool, ids, st, lexeme_id, &senses[i]);
        proof {
            lemma_grow_trans(*old(st), st0, *st);
        }
        match result {
            Ok(()) => {},
            Err(e) => {
                proof {
                    if e == SealError::Compression {
                        assert(!sense_compresses(l[i as int]));
                    }
                }
                return Err(e);
            },
        }
        proof {
            assert forall|j: int| 0 <= j < i + 1 implies sense_sealed(
                ids@,
                *st,
                #[trigger] st.senses@[start + j],
                senses@.take(i + 1)[j],
                lexeme_id,
            ) by {
                if j < i {
                    assert(senses@.take(i + 1)[j] == senses@.take(i as int)[j]);
                    assert(st.senses@[start + j] == st0.senses@[start + j]) by {
                        assert(st.senses@.take(st0.senses@.len() as int)[start + j] == st.senses@[start + j]);
                    }
                    assert(sense_sealed(i0, st0, st0.senses@[start + j], senses@.take(i as int)[j], lexeme_id));
                    lemma_sense_kept(i0, ids@, st0, *st, st0.senses@[start + j], senses@.take(i as int)[j], lexeme_id);
                } else {
                    assert(senses@.take(i + 1)[j] == senses@[i as int]);
                }
            }
        }
        i = i + 1;
    }
    assert(senses@.take(senses@.len() as int) =~= senses@);
    assert(l.take(senses@.len() as int) =~= l);
    Ok(Range { start: start as u32, len: senses.len() as u32 })
}

/// How many short strings an entry interns.
pub open spec fn entry_count(e: EntryInput) -> nat {
    2 + opt_seq(opt_text_view(e.stopword_reason)).len() + opt_seq(opt_text_view(e.etymology_summary)).len()
        + e.parts_of_speech@.len() + e.etymology_cognates@.len() + e.all_definitions@.len() + e.all_synonyms@.len() + e.all_antonyms@.len() + e.all_hypernyms@.len() + e.all_hyponyms@.len() + e.all_collocations@.len() + e.all_inflections@.len() + e.all_derivations@.len() + e.all_examples@.len()
        + senses_total(e.senses@, by_count())
}

/// How many bytes of frames an entry's short strings take.
pub open spec fn entry_bytes(e: EntryInput) -> nat {
    frames_size(seq![e.word@], STRING_LEVEL) + frames_size(seq![e.entry_id@], STRING_LEVEL)
        + frames_size(opt_seq(opt_text_view(e.stopword_reason)), STRING_LEVEL)
        + frames_size(opt_seq(opt_text_view(e.etymology_summary)), STRING_LEVEL)
        + frames_size(names_view(e.parts_of_speech@), STRING_LEVEL)
        + frames_size(names_view(e.etymology_cognates@), STRING_LEVEL)
        + frames_size(names_view(e.all_definitions@), STRING_LEVEL)
        + frames_size(names_view(e.all_synonyms@), STRING_LEVEL)
        + frames_size(names_view(e.all_antonyms@), STRING_LEVEL)
        + frames_size(names_view(e.all_hypernyms@), STRING_LEVEL)
        + frames_size(names_view(e.all_hyponyms@), STRING_LEVEL)
        + frames_size(names_view(e.all_collocations@), STRING_LEVEL)
        + frames_size(names_view(e.all_inflections@), STRING_LEVEL)
        + frames_size(names_view(e.all_derivations@), STRING_LEVEL)
        + frames_size(names_view(e.all_examples@), STRING_LEVEL)
        + senses_total(e.senses@, by_bytes())
}

/// How many documents an entry interns.
pub open spec fn doc_count(e: EntryInput) -> nat {
    opt_seq(opt_text_view(e.text)).len() + opt_seq(opt_text_view(e.encyclopedia_entry)).len()
}

/// How many bytes of frames an entry's documents take.
pub open spec fn doc_bytes(e: EntryInput) -> nat {
    frames_size(opt_seq(opt_text_view(e.text)), LONG_TEXT_LEVEL) + frames_size(
        opt_seq(opt_text_view(e.encyclopedia_entry)),
        LONG_TEXT_LEVEL,
    )
}

/// Every string and document of an entry compresses.
pub open spec fn entry_compresses(e: EntryInput) -> bool {
    &&& all_compress(seq![e.word@], STRING_LEVEL)
    &&& all_compress(seq![e.entry_id@], STRING_LEVEL)
    &&& all_compress(opt_seq(opt_text_view(e.stopword_reason)), STRING_LEVEL)
    &&& all_compress(opt_seq(opt_text_view(e.etymology_summary)), STRING_LEVEL)
    &&& all_compress(opt_seq(opt_text_view(e.text)), LONG_TEXT_LEVEL)
    &&& all_compress(opt_seq(opt_text_view(e.encyclopedia_entry)), LONG_TEXT_LEVEL)
    &&& all_compress(names_view(e.parts_of_speech@), STRING_LEVEL)
    &&& all_compress(names_view(e.etymology_cognates@), STRING_LEVEL)
    &&& all_compress(names_view(e.all_definitions@), STRING_LEVEL)
    &&& all_compress(names_view(e.all_synonyms@), STRING_LEVEL)
    &&& all_compress(names_view(e.all_antonyms@), STRING_LEVEL)
    &&& all_compress(names_view(e.all_hypernyms@), STRING_LEVEL)
    &&& all_compress(names_view(e.all_hyponyms@), STRING_LEVEL)
    &&& all_compress(names_view(e.all_collocations@), STRING_LEVEL)
    &&& all_compress(names_view(e.all_inflections@), STRING_LEVEL)
    &&& all_compress(names_view(e.all_derivations@), STRING_LEVEL)
    &&& all_compress(names_view(e.all_examples@), STRING_LEVEL)
    &&& senses_compress(e.senses@)
}

/// The builder has room for an entry: both pools stay within 32-bit ids and
/// offsets, and every side array within 32-bit ranges.
pub open spec fn entry_fits(b: ArchiveBuilder, e: EntryInput) -> bool {
    &&& room(
        b.strings.offsets@.len() as int,
        b.strings.data@.len() as int,
        entry_count(e) as int,
        entry_bytes(e) as int,
    )
    &&& room(
        b.long_texts.offsets@.len() as int,
        b.long_texts.data@.len() as int,
        doc_count(e) as int,
        doc_bytes(e) as int,
    )
    &&& b.store.entry_parts_of_speech@.len() + e.parts_of_speech@.len() <= 0xffff_ffff
    &&& b.store.entry_etymology_cognates@.len() + e.etymology_cognates@.len() <= 0xffff_ffff
    &&& b.store.entry_all_definitions@.len() + e.all_definitions@.len() <= 0xffff_ffff
    &&& b.store.entry_all_synonyms@.len() + e.all_synonyms@.len() <= 0xffff_ffff
    &&& b.store.entry_all_antonyms@.len() + e.all_antonyms@.len() <= 0xffff_ffff
    &&& b.store.entry_all_hypernyms@.len() + e.all_hypernyms@.len() <= 0xffff_ffff
    &&& b.store.entry_all_hyponyms@.len() + e.all_hyponyms@.len() <= 0xffff_ffff
    &&& b.store.entry_all_collocations@.len() + e.all_collocations@.len() <= 0xffff_ffff
    &&& b.store.entry_all_inflections@.len() + e.all_inflections@.len() <= 0xffff_ffff
    &&& b.store.entry_all_derivations@.len() + e.all_derivations@.len() <= 0xffff_ffff
    &&& b.store.entry_all_examples@.len() + e.all_examples@.len() <= 0xffff_ffff
    &&& b.store.entry_synonym_neighbors@.len() + resolved_ids(fst_entries(b.lexicon), names_view(e.all_synonyms@)).len() <= 0xffff_ffff
    &&& b.store.entry_antonym_neighbors@.len() + resolved_ids(fst_entries(b.lexicon), names_view(e.all_antonyms@)).len() <= 0xffff_ffff
    &&& b.store.entry_hypernym_neighbors@.len() + resolved_ids(fst_entries(b.lexicon), names_view(e.all_hypernyms@)).len() <= 0xffff_ffff
    &&& b.store.entry_hyponym_neighbors@.len() + resolved_ids(fst_entries(b.lexicon), names_view(e.all_hyponyms@)).len() <= 0xffff_ffff
    &&& senses_sides_fit(b.store, e.senses@)
    &&& b.store.senses@.len() + e.senses@.len() <= 0xffff_ffff
}

/// Collects entries and interned pools, then seals them into an archive.
pub struct ArchiveBuilder {
    pub lexicon: fst::Map<Vec<u8>>,
    pub strings: PackedStrings,
    pub string_ids: StringHashMap<u32>,
    pub long_texts: CompressedTextStore,
    pub text_ids: StringHashMap<u32>,
    /// The entries, senses and side arrays; its pools are filled in by `finish`.
    pub store: DataStore,
}

impl ArchiveBuilder {
    pub open spec fn wf(&self) -> bool {
        &&& strings_ok(self.strings, self.string_ids@)
        &&& texts_ok(self.long_texts, self.text_ids@)
    }

    /// What a sealed entry holds: its id, its flags, through the two indexes
    /// the texts of its strings, documents and lists, the resolved ids of its
    /// neighbor names, and its senses.
    pub open spec fn entry_sealed(&self, rec: EntryRecord, e: EntryInput) -> bool {
        let s = self.string_ids@;
        let st = self.store;
        let names = fst_entries(self.lexicon);
        &&& rec.lexeme_id == e.lexeme_id
        &&& rec.is_stopword == e.is_stopword
        &&& rec.has_etymology == e.has_etymology
        &&& rec.has_encyclopedia == e.has_encyclopedia
        &&& opt_id_of(s, Some(e.word@), Some(rec.word))
        &&& opt_id_of(s, Some(e.entry_id@), Some(rec.entry_id))
        &&& opt_id_of(s, opt_text_view(e.stopword_reason), rec.stopword_reason)
        &&& opt_id_of(s, opt_text_view(e.etymology_summary), rec.etymology_summary)
        &&& opt_id_of(self.text_ids@, opt_text_view(e.text), rec.text)
        &&& opt_id_of(self.text_ids@, opt_text_view(e.encyclopedia_entry), rec.encyclopedia_entry)
        &&& ids_of(s, names_view(e.parts_of_speech@), rec.parts_of_speech.select(st.entry_parts_of_speech@))
        &&& ids_of(s, names_view(e.etymology_cognates@), rec.etymology_cognates.select(st.entry_etymology_cognates@))
        &&& ids_of(s, names_view(e.all_definitions@), rec.all_definitions.select(st.entry_all_definitions@))
        &&& ids_of(s, names_view(e.all_synonyms@), rec.all_synonyms.select(st.entry_all_synonyms@))
        &&& ids_of(s, names_view(e.all_antonyms@), rec.all_antonyms.select(st.entry_all_antonyms@))
        &&& ids_of(s, names_view(e.all_hypernyms@), rec.all_hypernyms.select(st.entry_all_hypernyms@))
        &&& ids_of(s, names_view(e.all_hyponyms@), rec.all_hyponyms.select(st.entry_all_hyponyms@))
        &&& ids_of(s, names_view(e.all_collocations@), rec.all_collocations.select(st.entry_all_collocations@))
        &&& ids_of(s, names_view(e.all_inflections@), rec.all_inflections.select(st.entry_all_inflections@))
        &&& ids_of(s, names_view(e.all_derivations@), rec.all_derivations.select(st.entry_all_derivations@))
        &&& ids_of(s, names_view(e.all_examples@), rec.all_examples.select(st.entry_all_examples@))
        &&& rec.synonym_neighbors.select(st.entry_synonym_neighbors@) == resolved_ids(names, names_view(e.all_synonyms@))
        &&& rec.antonym_neighbors.select(st.entry_antonym_neighbors@) == resolved_ids(names, names_view(e.all_antonyms@))
        &&& rec.hypernym_neighbors.select(st.entry_hypernym_neighbors@) == resolved_ids(names, names_view(e.all_hypernyms@))
        &&& rec.hyponym_neighbors.select(st.entry_hyponym_neighbors@) == resolved_ids(names, names_view(e.all_hyponyms@))
        &&& rec.senses.len == e.senses@.len()
        &&& senses_sealed(s, st, rec.senses.start as int, e.senses@, e.lexeme_id)
    }

    /// An empty archive that resolves neighbor names through `lexicon`.
    pub fn new(lexicon: fst::Map<Vec<u8>>) -> (r: Self)
        ensures
            r.wf(),
            r.lexicon == lexicon,
            r.store.entries@.len() == 0,
    {
        ArchiveBuilder {
            lexicon,
            strings: PackedStrings { offsets: Vec::new(), lengths: Vec::new(), data: Vec::new() },
            string_ids: StringHashMap::new(),
            long_texts: CompressedTextStore { offsets: Vec::new(), lengths: Vec::new(), data: Vec::new() },
            text_ids: StringHashMap::new(),
            store: DataStore {
                strings: PackedStrings { offsets: Vec::new(), lengths: Vec::new(), data: Vec::new() },
                long_texts: CompressedTextStore {
                    offsets: Vec::new(),
                    lengths: Vec::new(),
                    data: Vec::new(),
                },
                entries: Vec::new(),
                entry_parts_of_speech: Vec::new(),
                senses: Vec::new(),
                sense_synonyms: Vec::new(),
                sense_antonyms: Vec::new(),
                sense_hypernyms: Vec::new(),
                sense_hyponyms: Vec::new(),
                sense_examples: Vec::new(),
                entry_all_definitions: Vec::new(),
                entry_all_synonyms: Vec::new(),
                entry_all_antonyms: Vec::new(),
                entry_all_hypernyms: Vec::new(),
                entry_all_hyponyms: Vec::new(),
                entry_all_collocations: Vec::new(),
                entry_all_inflections: Vec::new(),
                entry_all_derivations: Vec::new(),
                entry_all_examples: Vec::new(),
                entry_etymology_cognates: Vec::new(),
                entry_synonym_neighbors: Vec::new(),
                entry_antonym_neighbors: Vec::new(),
                entry_hypernym_neighbors: Vec::new(),
                entry_hyponym_neighbors: Vec::new(),
            },
        }
    }

    /// The archive: the store with the two pools in place.
    pub open spec fn sealed(&self) -> DataStore {
        DataStore { strings: self.strings, long_texts: self.long_texts, ..self.store }
    }

    /// Seals the next entry. Entries must come in lexeme id order; on any
    /// other error the builder stays usable but the build should stop.
    #[verifier::rlimit(100)]
    pub fn add_entry(&mut self, e: &EntryInput) -> (r: Result<(), SealError>)
        requires
            old(self).wf(),
        ensures
            final(self).wf(),
            final(self).lexicon == old(self).lexicon,
            e.lexeme_id != old(self).store.entries@.len() ==> r == Err::<(), SealError>(
                SealError::OutOfOrderEntry(old(self).store.entries@.len() as usize, e.lexeme_id),
            ) && *final(self) == *old(self),
            final(self).store.entries@.len() >= old(self).store.entries@.len(),
            final(self).store.entries@.take(old(self).store.entries@.len() as int) == old(self).store.entries@,
            e.lexeme_id == old(self).store.entries@.len() && entry_fits(*old(self), *e) && entry_compresses(*e)
                ==> r is Ok,
            r matches Err(x) ==> (x == SealError::OutOfOrderEntry(
                old(self).store.entries@.len() as usize,
                e.lexeme_id,
            ) && e.lexeme_id != old(self).store.entries@.len()) || (x == SealError::Compression
                && !entry_compresses(*e)) || (x == SealError::TooLarge && !entry_fits(*old(self), *e)),
            r is Ok ==> e.lexeme_id == old(self).store.entries@.len() && final(self).store.entries@.len()
                == old(self).store.entries@.len() + 1 && final(self).entry_sealed(
                final(self).store.entries@.last(),
                *e,
            ),
    {
        let n = self.store.entries.len();
        if e.lexeme_id as usize != n {
            return Err(SealError::OutOfOrderEntry(n, e.lexeme_id));
        }
        let ghost entries0 = self.store.entries@;
        proof {
            assert(entries0.take(entries0.len() as int) =~= entries0);
        }
        let word = match intern_str(&mut self.strings, &mut self.string_ids, e.word.as_str()) {
            Ok(v) => v,
            Err(x) => { return Err(x); },
        };
        let ghost m1 = self.string_ids@;
        let entry_id = match intern_str(&mut self.strings, &mut self.string_ids, e.entry_id.as_str()) {
            Ok(v) => v,
            Err(x) => { return Err(x); },
        };
        let ghost m2 = self.string_ids@;
        let stopword_reason = match intern_opt(&mut self.strings, &mut self.string_ids, &e.stopword_reason) {
            Ok(v) => v,
            Err(x) => { return Err(x); },
        };
        let ghost m3 = self.string_ids@;
        let etymology_summary = match intern_opt(&mut self.strings, &mut self.string_ids, &e.etymology_summary) {
            Ok(v) => v,
            Err(x) => { return Err(x); },
        };
        let ghost m4 = self.string_ids@;
        let text = match intern_doc(&mut self.long_texts, &mut self.text_ids, &e.text) {
            Ok(v) => v,
            Err(x) => { return Err(x); },
        };
        let ghost t1 = self.text_ids@;
        let encyclopedia_entry = match intern_doc(&mut self.long_texts, &mut self.text_ids, &e.encyclopedia_entry) {
            Ok(v) => v,
            Err(x) => { return Err(x); },
        };
        let parts_of_speech = match push_list(&mut self.strings, &mut self.string_ids, &mut self.store.entry_parts_of_speech, &e.parts_of_speech) {
            Ok(v) => v,
            Err(x) => { return Err(x); },
        };
        let ghost l1 = self.string_ids@;
        let etymology_cognates = match push_list(&mut self.strings, &mut self.string_ids, &mut self.store.entry_etymology_cognates, &e.etymology_cognates) {
            Ok(v) => v,
            Err(x) => { return Err(x); },
        };
        let ghost l2 = self.string_ids@;
        let all_definitions = match push_list(&mut self.strings, &mut self.string_ids, &mut self.store.entry_all_definitions, &e.all_definitions) {
            Ok(v) => v,
            Err(x) => { return Err(x); },
        };
        let ghost l3 = self.string_ids@;
        let all_synonyms = match push_list(&mut self.strings, &mut self.string_ids, &mut self.store.entry_all_synonyms, &e.all_synonyms) {
            Ok(v) => v,
            Err(x) => { return Err(x); },
        };
        let ghost l4 = self.string_ids@;
        let all_antonyms = match push_list(&mut self.strings, &mut self.string_ids, &mut self.store.entry_all_antonyms, &e.all_antonyms) {
            Ok(v) => v,
            Err(x) => { return Err(x); },
        };
        let ghost l5 = self.string_ids@;
        let all_hypernyms = match push_list(&mut self.strings, &mut self.string_ids, &mut self.store.entry_all_hypernyms, &e.all_hypernyms) {
            Ok(v) => v,
            Err(x) => { return Err(x); },
        };
        let ghost l6 = self.string_ids@;
        let all_hyponyms = match push_list(&mut self.strings, &mut self.string_ids, &mut self.store.entry_all_hyponyms, &e.all_hyponyms) {
            Ok(v) => v,
            Err(x) => { return Err(x); },
        };
        let ghost l7 = self.string_ids@;
        let all_collocations = match push_list(&mut self.strings, &mut self.string_ids, &mut self.store.entry_all_collocations, &e.all_collocations) {
            Ok(v) => v,
            Err(x) => { return Err(x); },
        };
        let ghost l8 = self.string_ids@;
        let all_inflections = match push_list(&mut self.strings, &mut self.string_ids, &mut self.store.entry_all_inflections, &e.all_inflections) {
            Ok(v) => v,
            Err(x) => { return Err(x); },
        };
        let ghost l9 = self.string_ids@;
        let all_derivations = match push_list(&mut self.strings, &mut self.string_ids, &mut self.store.entry_all_derivations, &e.all_derivations) {
            Ok(v) => v,
            Err(x) => { return Err(x); },
        };
        let ghost l10 = self.string_ids@;
        let all_examples = match push_list(&mut self.strings, &mut self.string_ids, &mut self.store.entry_all_examples, &e.all_examples) {
            Ok(v) => v,
            Err(x) => { return Err(x); },
        };
        let ghost l11 = self.string_ids@;
        let synonym_neighbors = match push_neighbors(&self.lexicon, &mut self.store.entry_synonym_neighbors, &e.all_synonyms) {
            Ok(v) => v,
            Err(x) => { return Err(x); },
        };
        let antonym_neighbors = match push_neighbors(&self.lexicon, &mut self.store.entry_antonym_neighbors, &e.all_antonyms) {
            Ok(v) => v,
            Err(x) => { return Err(x); },
        };
        let hypernym_neighbors = match push_neighbors(&self.lexicon, &mut self.store.entry_hypernym_neighbors, &e.all_hypernyms) {
            Ok(v) => v,
            Err(x) => { return Err(x); },
        };
        let hyponym_neighbors = match push_neighbors(&self.lexicon, &mut self.store.entry_hyponym_neighbors, &e.all_hyponyms) {
            Ok(v) => v,
            Err(x) => { return Err(x); },
        };
        let senses = match push_senses(&mut self.strings, &mut self.string_ids, &mut self.store, e.lexeme_id, &e.senses) {
            Ok(v) => v,
            Err(x) => { return Err(x); },
        };
        let ghost st_before_push = self.store;
        let rec = EntryRecord {
            lexeme_id: e.lexeme_id,
            word,
            entry_id,
            text,
            is_stopword: e.is_stopword,
            stopword_reason,
            parts_of_speech,
            senses,
            has_etymology: e.has_etymology,
            etymology_summary,
            etymology_cognates,
            has_encyclopedia: e.has_encyclopedia,
            encyclopedia_entry,
            all_definitions,
            all_synonyms,
            all_antonyms,
            all_hypernyms,
            all_hyponyms,
            all_collocations,
            all_inflections,
            all_derivations,
            all_examples,
            synonym_neighbors,
            antonym_neighbors,
            hypernym_neighbors,
            hyponym_neighbors,
        };
        self.store.entries.push(rec);
        proof {
            let f = self.string_ids@;
            assert(self.store.entries@.take(entries0.len() as int) =~= entries0);
            lemma_opt_kept(m1, f, Some(e.word@), Some(word));
            lemma_opt_kept(m2, f, Some(e.entry_id@), Some(entry_id));
            lemma_opt_kept(m3, f, opt_text_view(e.stopword_reason), stopword_reason);
            lemma_opt_kept(m4, f, opt_text_view(e.etymology_summary), etymology_summary);
            lemma_opt_kept(t1, self.text_ids@, opt_text_view(e.text), text);
            let st = self.store;
            lemma_ids_kept(l1, f, names_view(e.parts_of_speech@), parts_of_speech.select(st.entry_parts_of_speech@));
            lemma_ids_kept(l2, f, names_view(e.etymology_cognates@), etymology_cognates.select(st.entry_etymology_cognates@));
            lemma_ids_kept(l3, f, names_view(e.all_definitions@), all_definitions.select(st.entry_all_definitions@));
            lemma_ids_kept(l4, f, names_view(e.all_synonyms@), all_synonyms.select(st.entry_all_synonyms@));
            lemma_ids_kept(l5, f, names_view(e.all_antonyms@), all_antonyms.select(st.entry_all_antonyms@));
            lemma_ids_kept(l6, f, names_view(e.all_hypernyms@), all_hypernyms.select(st.entry_all_hypernyms@));
            lemma_ids_kept(l7, f, names_view(e.all_hyponyms@), all_hyponyms.select(st.entry_all_hyponyms@));
            lemma_ids_kept(l8, f, names_view(e.all_collocations@), all_collocations.select(st.entry_all_collocations@));
            lemma_ids_kept(l9, f, names_view(e.all_inflections@), all_inflections.select(st.entry_all_inflections@));
            lemma_ids_kept(l10, f, names_view(e.all_derivations@), all_derivations.select(st.entry_all_derivations@));
            lemma_ids_kept(l11, f, names_view(e.all_examples@), all_examples.select(st.entry_all_examples@));
            lemma_grow_refl(st_before_push);
            assert(senses_grow(st_before_push, st));
            assert forall|j: int| 0 <= j < e.senses@.len() implies sense_sealed(
                f,
                st,
                #[trigger] st.senses@[senses.start + j],
                e.senses@[j],
                e.lexeme_id,
            ) by {
                lemma_sense_kept(f, f, st_before_push, st, st_before_push.senses@[senses.start + j], e.senses@[j], e.lexeme_id);
            }
            assert(self.store.entries@.last() == rec);
        }
        Ok(())
    }

    /// The archive, once `expected` entries have been added and its layout
    /// invariants hold (every neighbor id names an entry).
    pub fn finish(self, expected: usize) -> (r: Result<DataStore, SealError>)
        requires
            self.wf(),
        ensures
            r is Ok <==> self.store.entries@.len() == expected && self.sealed().wf(),
            r matches Ok(s) ==> s == self.sealed() && s.wf() && pool_texts_ok(
                s.strings.offsets@,
                s.strings.lengths@,
                s.strings.data@,
            ) && pool_texts_ok(s.long_texts.offsets@, s.long_texts.lengths@, s.long_texts.data@),
            r == Err::<DataStore, SealError>(SealError::EntryCount(self.store.entries@.len() as usize))
                <== self.store.entries@.len() != expected,
    {
        let found = self.store.entries.len();
        if found != expected {
            return Err(SealError::EntryCount(found));
        }
        let ghost sealed = self.sealed();
        let ArchiveBuilder { lexicon: _, strings, string_ids: _, long_texts, text_ids: _, store } = self;
        let store = DataStore { strings, long_texts, ..store };
        assert(store == sealed);
        if !layout_ok(&store) {
            return Err(SealError::Layout);
        }
        Ok(store)
    }
}

} // verus!
