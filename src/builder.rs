//! Build-time steps: the lexicon from ordered `(word, id)` rows, and
//! neighbor names resolved against it.
use vstd::prelude::*;
use vstd::string::*;
use vstd::utf8::*;
use crate::bindings::{fst_entries, fst_from_rows, fst_get, sort_rows};
use crate::lexical::{bytes_lt, has_prefix, is_prefix, keys_increasing, same_bytes, value_for};
use crate::ranking::{is_blank, query_is_blank};

verus! {

broadcast use vstd::utf8::group_utf8_lib;

/// Why a lexicon cannot be built from a list of rows.
#[derive(Debug, Clone)]
pub enum BuildError {
    /// Two rows carry this word.
    DuplicateWord(String),
    /// The rows at this position and the next are not in increasing word order.
    OutOfOrder(usize),
}

/// Rows as `(key bytes, value)` pairs.
pub open spec fn row_keys(rows: Seq<(String, u32)>) -> Seq<(Seq<u8>, u64)> {
    rows.map_values(|r: (String, u32)| (encode_utf8(r.0@), r.1 as u64))
}

/// Each row's word comes strictly before the next row's word, byte-wise.
pub open spec fn words_increasing(rows: Seq<(String, u32)>) -> bool {
    forall|i: int| 0 <= i < rows.len() - 1 ==> bytes_lt(encode_utf8((#[trigger] rows[i]).0@), encode_utf8(rows[i + 1].0@))
}

/// Compares two byte strings in lexicographic order.
pub fn bytes_less(a: &[u8], b: &[u8]) -> (r: bool)
    ensures
        r == bytes_lt(a@, b@),
{
    let mut i: usize = 0;
    assert(a@.skip(0) =~= a@);
    assert(b@.skip(0) =~= b@);
    while i < a.len() && i < b.len()
        invariant
            i <= a@.len(),
            i <= b@.len(),
            forall|k: int| 0 <= k < i ==> a@[k] == b@[k],
            bytes_lt(a@, b@) == bytes_lt(a@.skip(i as int), b@.skip(i as int)),
        decreases a@.len() - i,
    {
        if a[i] != b[i] {
            proof {
                assert(a@.skip(i as int)[0] == a@[i as int]);
                assert(b@.skip(i as int)[0] == b@[i as int]);
            }
            return a[i] < b[i];
        }
        proof {
            assert(a@.skip(i as int).drop_first() =~= a@.skip(i + 1));
            assert(b@.skip(i as int).drop_first() =~= b@.skip(i + 1));
        }
        i = i + 1;
    }
    i == a.len() && i < b.len()
}

/// Of two different byte strings, one comes before the other.
proof fn lemma_bytes_lt_total(a: Seq<u8>, b: Seq<u8>)
    requires
        a != b,
        !bytes_lt(a, b),
    ensures
        bytes_lt(b, a),
    decreases a.len(),
{
    if a.len() > 0 && b.len() > 0 && a[0] == b[0] {
        if a.drop_first() == b.drop_first() {
            assert(a =~= seq![a[0]] + a.drop_first());
            assert(b =~= seq![b[0]] + b.drop_first());
        }
        lemma_bytes_lt_total(a.drop_first(), b.drop_first());
    } else if a.len() == 0 && b.len() == 0 {
        assert(a =~= b);
    }
}

/// Builds the lexicon from rows in strictly increasing word order. A repeated
/// word gives `DuplicateWord`, any other break in the order `OutOfOrder`.
pub fn build_lexicon(rows: &Vec<(String, u32)>) -> (r: Result<fst::Map<Vec<u8>>, BuildError>)
    ensures
        r is Ok <==> words_increasing(rows@),
        r matches Ok(m) ==> fst_entries(m) == row_keys(rows@),
        r matches Err(BuildError::DuplicateWord(w)) ==> exists|i: int|
            0 <= i < rows@.len() - 1 && (#[trigger] rows@[i]).0@ == w@ && rows@[i + 1].0@ == w@,
        r matches Err(BuildError::OutOfOrder(i)) ==> i < rows@.len() - 1 && bytes_lt(
            encode_utf8(rows@[i + 1].0@),
            encode_utf8(rows@[i as int].0@),
        ),
{
    let n: usize = rows.len();
    let mut i: usize = 0;
    while n > 0 && i < n - 1
        invariant
            n == rows@.len(),
            i <= rows@.len(),
            forall|k: int| 0 <= k < i && k < rows@.len() - 1 ==> bytes_lt(
                encode_utf8((#[trigger] rows@[k]).0@),
                encode_utf8(rows@[k + 1].0@),
            ),
        decreases rows@.len() - i,
    {
        let a = rows[i].0.as_str().as_bytes();
        let b = rows[i + 1].0.as_str().as_bytes();
        if !bytes_less(a, b) {
            if same_bytes(a, b) {
                proof {
                    assert(decode_utf8(encode_utf8(rows@[i as int].0@)) == rows@[i as int].0@);
                    assert(decode_utf8(encode_utf8(rows@[i + 1].0@)) == rows@[i + 1].0@);
                }
                return Err(BuildError::DuplicateWord(rows[i].0.clone()));
            }
            proof {
                lemma_bytes_lt_total(a@, b@);
            }
            return Err(BuildError::OutOfOrder(i));
        }
        i = i + 1;
    }
    Ok(fst_from_rows(rows))
}

/// The ids of the names that the lexicon holds, in order; names it lacks,
/// or whose value is no 32-bit id, are dropped.
pub open spec fn resolved_ids(keys: Seq<(Seq<u8>, u64)>, names: Seq<Seq<char>>) -> Seq<u32>
    decreases names.len(),
{
    if names.len() == 0 {
        seq![]
    } else {
        let rest = resolved_ids(keys, names.drop_last());
        match value_for(keys, encode_utf8(names.last())) {
            Some(v) => if v <= u32::MAX {
                rest.push(v as u32)
            } else {
                rest
            },
            None => rest,
        }
    }
}

pub open spec fn names_view(names: Seq<String>) -> Seq<Seq<char>> {
    names.map_values(|s: String| s@)
}

/// Resolves neighbor names to lexeme ids through the lexicon.
pub fn resolve_names(lexicon: &fst::Map<Vec<u8>>, names: &Vec<String>) -> (r: Vec<u32>)
    ensures
        r@ == resolved_ids(fst_entries(*lexicon), names_view(names@)),
{
    let ghost view = names_view(names@);
    let mut out: Vec<u32> = Vec::new();
    let mut i: usize = 0;
    while i < names.len()
        invariant
            view == names_view(names@),
            i <= names@.len(),
            out@ == resolved_ids(fst_entries(*lexicon), view.take(i as int)),
        decreases names@.len() - i,
    {
        proof {
            assert(view.take(i + 1).drop_last() =~= view.take(i as int));
            assert(view.take(i + 1).last() == names@[i as int]@);
        }
        match fst_get(lexicon, names[i].as_str()) {
            Some(v) => {
                if v <= 0xffff_ffff {
                    out.push(v as u32);
                }
            },
            None => {},
        }
        i = i + 1;
    }
    assert(view.take(names@.len() as int) =~= view);
    out
}

/// Why a line of the lexeme file cannot be read.
#[derive(Debug, Clone, Copy, PartialEq, Eq)]
pub enum LineError {
    /// The line has no tab, so no word field.
    MissingWord,
    /// The id field is not a decimal number that fits in 32 bits.
    BadId,
}

/// Where the field that starts at `from` ends: at the next tab or at the end.
pub open spec fn field_end(s: Seq<char>, from: int) -> int
    decreases s.len() - from,
{
    if from >= s.len() || s[from] == '\t' {
        from
    } else {
        field_end(s, from + 1)
    }
}

pub open spec fn is_digit(c: char) -> bool {
    '0' <= c && c <= '9'
}

/// The number that a string of decimal digits spells.
pub open spec fn digits_value(s: Seq<char>) -> int
    decreases s.len(),
{
    if s.len() == 0 {
        0
    } else {
        digits_value(s.drop_last()) * 10 + (s.last() as int - '0' as int)
    }
}

/// The digits of an id field: all of it but a leading plus sign.
pub open spec fn id_digits(f: Seq<char>) -> Seq<char> {
    if f.len() > 0 && f[0] == '+' {
        f.drop_first()
    } else {
        f
    }
}

/// The id that an id field spells: one or more decimal digits, after an
/// optional plus sign, for a value that fits in 32 bits.
pub open spec fn id_value(f: Seq<char>) -> Option<u32> {
    let digits = id_digits(f);
    if digits.len() > 0 && (forall|i: int| 0 <= i < digits.len() ==> is_digit(#[trigger] digits[i]))
        && digits_value(digits) <= u32::MAX {
        Some(digits_value(digits) as u32)
    } else {
        None
    }
}

/// What a line of the lexeme file holds: nothing for a blank line or an
/// empty word, else the word of the second field with the id of the first.
pub open spec fn line_row(s: Seq<char>) -> Result<Option<(Seq<char>, u32)>, LineError> {
    let e1 = field_end(s, 0);
    if is_blank(s) {
        Ok(None)
    } else if e1 >= s.len() {
        Err(LineError::MissingWord)
    } else {
        let word = s.subrange(e1 + 1, field_end(s, e1 + 1));
        if word.len() == 0 {
            Ok(None)
        } else {
            match id_value(s.subrange(0, e1)) {
                Some(id) => Ok(Some((word, id))),
                None => Err(LineError::BadId),
            }
        }
    }
}

/// Finds where the field that starts at `from` ends.
fn find_field_end(s: &str, from: usize) -> (r: usize)
    requires
        from <= s@.len(),
    ensures
        r == field_end(s@, from as int),
        from <= r <= s@.len(),
{
    let n = s.unicode_len();
    let mut i = from;
    while i < n && s.get_char(i) != '\t'
        invariant
            n == s@.len(),
            from <= i <= n,
            field_end(s@, from as int) == field_end(s@, i as int),
        decreases n - i,
    {
        i = i + 1;
    }
    i
}

/// Reads the id field: optional plus sign, then decimal digits.
fn parse_id(f: &str) -> (r: Option<u32>)
    ensures
        r == id_value(f@),
{
    let n = f.unicode_len();
    let start: usize = if n > 0 && f.get_char(0) == '+' {
        1
    } else {
        0
    };
    let ghost digits = id_digits(f@);
    assert(digits =~= f@.subrange(start as int, n as int));
    if start == n {
        return None;
    }
    let mut value: u64 = 0;
    let mut i: usize = start;
    while i < n
        invariant
            n == f@.len(),
            start <= i <= n,
            digits == id_digits(f@),
            digits == f@.subrange(start as int, n as int),
            forall|k: int| start <= k < i ==> is_digit(#[trigger] f@[k]),
            value == digits_value(f@.subrange(start as int, i as int)),
            value <= u32::MAX,
        decreases n - i,
    {
        let c = f.get_char(i);
        if !('0' <= c && c <= '9') {
            proof {
                assert(digits[i - start] == f@[i as int]);
                assert(!is_digit(digits[i - start]));
                assert(!(forall|k: int| 0 <= k < digits.len() ==> is_digit(#[trigger] digits[k])));
                assert(id_value(f@) is None);
            }
            return None;
        }
        let d = (c as u32 - '0' as u32) as u64;
        proof {
            assert(f@.subrange(start as int, i + 1).drop_last() =~= f@.subrange(start as int, i as int));
        }
        value = value * 10 + d;
        proof {
            assert(f@.subrange(start as int, i + 1).last() == c);
            assert(digits_value(f@.subrange(start as int, i + 1)) == value);
        }
        if value > 0xffff_ffff {
            proof {
                assert(f@.subrange(start as int, i + 1) =~= digits.subrange(0, i + 1 - start));
                if forall|k: int| 0 <= k < digits.len() ==> is_digit(#[trigger] digits[k]) {
                    lemma_digits_grow(digits, (i + 1 - start) as int);
                }
                assert(id_value(f@) is None);
            }
            return None;
        }
        i = i + 1;
    }
    assert(f@.subrange(start as int, n as int) =~= digits);
    Some(value as u32)
}

/// A longer run of digits spells at least as much as its front part.
proof fn lemma_digits_grow(s: Seq<char>, k: int)
    requires
        0 <= k <= s.len(),
        forall|i: int| 0 <= i < s.len() ==> is_digit(#[trigger] s[i]),
    ensures
        digits_value(s) >= digits_value(s.subrange(0, k)),
        digits_value(s.subrange(0, k)) >= 0,
    decreases s.len(),
{
    if s.len() > k {
        lemma_digits_grow(s.drop_last(), k);
        assert(s.drop_last().subrange(0, k) =~= s.subrange(0, k));
        lemma_digits_grow(s.drop_last(), s.len() - 1);
        assert(s.drop_last().subrange(0, s.len() - 1) =~= s.drop_last());
    } else {
        assert(s.subrange(0, k) =~= s);
        if s.len() > 0 {
            lemma_digits_grow(s.drop_last(), s.len() - 1);
            assert(s.drop_last().subrange(0, s.len() - 1) =~= s.drop_last());
        }
    }
}

/// Reads one line of the lexeme file.
pub fn parse_lexeme_line(line: &str) -> (r: Result<Option<(String, u32)>, LineError>)
    ensures
        match r {
            Ok(Some((w, id))) => line_row(line@) == Ok::<Option<(Seq<char>, u32)>, LineError>(Some((w@, id))),
            Ok(None) => line_row(line@) == Ok::<Option<(Seq<char>, u32)>, LineError>(None),
            Err(e) => line_row(line@) == Err::<Option<(Seq<char>, u32)>, LineError>(e),
        },
{
    if query_is_blank(line) {
        return Ok(None);
    }
    let n = line.unicode_len();
    let e1 = find_field_end(line, 0);
    if e1 >= n {
        return Err(LineError::MissingWord);
    }
    let e2 = find_field_end(line, e1 + 1);
    if e2 == e1 + 1 {
        return Ok(None);
    }
    let word = line.substring_char(e1 + 1, e2).to_owned();
    match parse_id(line.substring_char(0, e1)) {
        Some(id) => Ok(Some((word, id))),
        None => Err(LineError::BadId),
    }
}

/// The first field name that marks the optional header line of the lexeme file.
pub const HEADER_PREFIX: &'static str = "lexeme_id";

/// Whether `line` is a header line: it starts with `lexeme_id`.
pub fn is_header(line: &str) -> (r: bool)
    ensures
        r == is_prefix(HEADER_PREFIX.spec_bytes(), line.spec_bytes()),
{
    has_prefix(HEADER_PREFIX.as_bytes(), line.as_bytes())
}

/// Two different pairs of `l` carry key `k`.
pub open spec fn key_twice(l: Seq<(Seq<u8>, u64)>, k: Seq<u8>) -> bool {
    exists|p: int, q: int| 0 <= p < q < l.len() && l[p].0 == k && l[q].0 == k
}

/// Byte order is transitive.
pub proof fn lemma_bytes_lt_trans(a: Seq<u8>, b: Seq<u8>, c: Seq<u8>)
    requires
        bytes_lt(a, b),
        bytes_lt(b, c),
    ensures
        bytes_lt(a, c),
    decreases a.len(),
{
    if a.len() > 0 && b.len() > 0 && c.len() > 0 && a[0] == b[0] && b[0] == c[0] {
        lemma_bytes_lt_trans(a.drop_first(), b.drop_first(), c.drop_first());
    }
}

/// Keys that increase from each pair to the next increase throughout.
proof fn lemma_adjacent_increasing(rows: Seq<(String, u32)>)
    requires
        words_increasing(rows),
    ensures
        keys_increasing(row_keys(rows)),
{
    let keys = row_keys(rows);
    assert forall|i: int, j: int| 0 <= i < j < keys.len() implies bytes_lt(
        #[trigger] keys[i].0,
        #[trigger] keys[j].0,
    ) by {
        lemma_increasing_span(rows, i, j);
    }
}

proof fn lemma_increasing_span(rows: Seq<(String, u32)>, i: int, j: int)
    requires
        words_increasing(rows),
        0 <= i < j < rows.len(),
    ensures
        bytes_lt(row_keys(rows)[i].0, row_keys(rows)[j].0),
    decreases j - i,
{
    assert(bytes_lt(encode_utf8(rows[j - 1].0@), encode_utf8(rows[j].0@)));
    if i < j - 1 {
        lemma_increasing_span(rows, i, j - 1);
        lemma_bytes_lt_trans(row_keys(rows)[i].0, row_keys(rows)[j - 1].0, row_keys(rows)[j].0);
    }
}

/// A key carried by two pairs is carried by two pairs of any sequence with
/// the same pairs.
proof fn lemma_key_twice_transfer(a: Seq<(Seq<u8>, u64)>, b: Seq<(Seq<u8>, u64)>, k: Seq<u8>)
    requires
        a.to_multiset() == b.to_multiset(),
        key_twice(a, k),
    ensures
        key_twice(b, k),
{
    a.to_multiset_ensures();
    b.to_multiset_ensures();
    let (p, q) = choose|p: int, q: int| 0 <= p < q < a.len() && a[p].0 == k && a[q].0 == k;
    let x = a[p];
    let y = a[q];
    assert(a.contains(x));
    assert(a.contains(y));
    assert(a.to_multiset().count(x) > 0);
    assert(a.to_multiset().count(y) > 0);
    assert(b.contains(x));
    assert(b.contains(y));
    let p1 = choose|i: int| 0 <= i < b.len() && b[i] == x;
    if x != y {
        let q1 = choose|i: int| 0 <= i < b.len() && b[i] == y;
        if p1 < q1 {
            assert(b[p1].0 == k && b[q1].0 == k);
        } else {
            assert(b[q1].0 == k && b[p1].0 == k);
        }
    } else {
        let ar = a.remove(p);
        ar.to_multiset_ensures();
        assert(ar[q - 1] == y);
        assert(ar.contains(x));
        assert(ar.to_multiset() =~= a.to_multiset().remove(x));
        let br = b.remove(p1);
        br.to_multiset_ensures();
        assert(br.to_multiset() =~= b.to_multiset().remove(x));
        assert(br.to_multiset().count(x) > 0);
        assert(br.contains(x));
        let r = choose|i: int| 0 <= i < br.len() && br[i] == x;
        let q1 = if r < p1 { r } else { r + 1 };
        assert(b[q1] == x);
        if p1 < q1 {
            assert(b[p1].0 == k && b[q1].0 == k);
        } else {
            assert(b[q1].0 == k && b[p1].0 == k);
        }
    }
}

/// Builds the lexicon from `(word, id)` rows in any order: they are sorted
/// by word first. It succeeds exactly when no two rows carry the same word,
/// and then holds exactly the rows, in strictly increasing word order; a
/// `DuplicateWord` error names a word that two rows carry.
pub fn lexicon_from_rows(rows: Vec<(String, u32)>) -> (r: Result<fst::Map<Vec<u8>>, BuildError>)
    ensures
        r is Ok <==> forall|k: Seq<u8>| !key_twice(row_keys(rows@), k),
        r matches Ok(m) ==> fst_entries(m).to_multiset() == row_keys(rows@).to_multiset(),
        r matches Ok(m) ==> keys_increasing(fst_entries(m)),
        r matches Err(e) ==> e is DuplicateWord,
        r matches Err(BuildError::DuplicateWord(w)) ==> key_twice(row_keys(rows@), encode_utf8(w@)),
{
    let ghost original = rows@;
    let mut sorted = rows;
    sort_rows(&mut sorted);
    let built = build_lexicon(&sorted);
    match built {
        Ok(m) => {
            proof {
                lemma_adjacent_increasing(sorted@);
                assert forall|k: Seq<u8>| !key_twice(row_keys(original), k) by {
                    if key_twice(row_keys(original), k) {
                        lemma_key_twice_transfer(row_keys(original), row_keys(sorted@), k);
                        let (p, q) = choose|p: int, q: int|
                            0 <= p < q < row_keys(sorted@).len() && row_keys(sorted@)[p].0 == k
                                && row_keys(sorted@)[q].0 == k;
                        assert(bytes_lt(row_keys(sorted@)[p].0, row_keys(sorted@)[q].0));
                        crate::index::lemma_bytes_lt_irreflexive(k);
                    }
                }
            }
            Ok(m)
        },
        Err(BuildError::DuplicateWord(w)) => {
            proof {
                let i = choose|i: int|
                    0 <= i < sorted@.len() - 1 && (#[trigger] sorted@[i]).0@ == w@ && sorted@[i + 1].0@ == w@;
                assert(row_keys(sorted@)[i].0 == encode_utf8(w@));
                assert(row_keys(sorted@)[i + 1].0 == encode_utf8(w@));
                assert(key_twice(row_keys(sorted@), encode_utf8(w@)));
                lemma_key_twice_transfer(row_keys(sorted@), row_keys(original), encode_utf8(w@));
            }
            Err(BuildError::DuplicateWord(w))
        },
        Err(BuildError::OutOfOrder(i)) => {
            proof {
                assert(!bytes_lt(encode_utf8(sorted@[i + 1].0@), encode_utf8(sorted@[i as int].0@)));
                assert(false);
            }
            Err(BuildError::OutOfOrder(i))
        },
    }
}

} // verus!
