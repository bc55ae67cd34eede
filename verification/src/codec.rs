//! The persistence boundary: a whole stripe framed as one byte sequence
//! and read back as a single unit.
//!
//! The layout is little-endian 64-bit words for every tag, count and
//! number, and UTF-8 for text.  Columns are written in path order, the
//! order the stripe keeps them in.  [`law_codec_round_trip`] states that
//! parsing what was framed gives back exactly what was framed.

use crate::columnar::column::{Column, ColumnData, ColumnModel, DataModel, UnionModel};
use crate::columnar::{path_view, Path, PathCompModel, PathComponent, Stripe};
use vstd::bytes::{lemma_auto_spec_u64_to_from_le_bytes, spec_u64_from_le_bytes, spec_u64_to_le_bytes};
use vstd::prelude::*;
use vstd::utf8::{decode_utf8, encode_utf8, encode_utf8_decode_utf8, encode_utf8_valid_utf8, valid_utf8};

verus! {

/// One framed 64-bit word.
pub open spec fn le64(v: u64) -> Seq<u8> {
    spec_u64_to_le_bytes(v)
}

/// A framed string: its UTF-8 length, then its UTF-8 bytes.
pub open spec fn str_bytes(s: Seq<char>) -> Seq<u8> {
    le64(encode_utf8(s).len() as u64) + encode_utf8(s)
}

/// A framed path component: a tag word, then a key's text.
pub open spec fn comp_bytes(c: PathCompModel) -> Seq<u8> {
    match c {
        PathCompModel::Key(s) => le64(0) + str_bytes(s),
        PathCompModel::Array => le64(1),
    }
}

/// The framed path components at positions `i` and beyond.
pub open spec fn comps_bytes(p: Seq<PathCompModel>, i: int) -> Seq<u8>
    decreases p.len() - i,
{
    if i < 0 || i >= p.len() {
        Seq::empty()
    } else {
        comp_bytes(p[i]) + comps_bytes(p, i + 1)
    }
}

/// A framed path: its component count, then its components.
pub open spec fn path_bytes(p: Seq<PathCompModel>) -> Seq<u8> {
    le64(p.len() as u64) + comps_bytes(p, 0)
}

/// The framed words at positions `i` and beyond of a word sequence.
pub open spec fn words_bytes(s: Seq<u64>, i: int) -> Seq<u8>
    decreases s.len() - i,
{
    if i < 0 || i >= s.len() {
        Seq::empty()
    } else {
        le64(s[i]) + words_bytes(s, i + 1)
    }
}

/// A framed word sequence: its length, then its words.
pub open spec fn word_seq_bytes(s: Seq<u64>) -> Seq<u8> {
    le64(s.len() as u64) + words_bytes(s, 0)
}

/// Every payload sequence is framed as words: this is how each entry kind
/// maps to one word.
pub open spec fn word_of_u32(v: u32) -> u64 {
    v as u64
}

/// The word form of a stored boolean.
pub open spec fn word_of_bool(v: bool) -> u64 {
    if v {
        1u64
    } else {
        0u64
    }
}

/// The word form of a narrow integer: its unsigned byte.
pub open spec fn word_of_i8(v: i8) -> u64 {
    (v as u8) as u64
}

/// The word form of a narrow integer: its unsigned pair of bytes.
pub open spec fn word_of_i16(v: i16) -> u64 {
    (v as u16) as u64
}

/// A size or offset fits one word exactly when it is a machine size.
pub open spec fn int_ok(v: int) -> bool {
    0 <= v <= usize::MAX
}

/// Sequences of each payload kind, as word sequences.
pub open spec fn words_of_u32s(s: Seq<u32>) -> Seq<u64> {
    Seq::new(s.len(), |i: int| word_of_u32(s[i]))
}

/// The word form of a boolean sequence.
pub open spec fn words_of_bools(s: Seq<bool>) -> Seq<u64> {
    Seq::new(s.len(), |i: int| word_of_bool(s[i]))
}

/// The word form of a narrow integer sequence.
pub open spec fn words_of_i8s(s: Seq<i8>) -> Seq<u64> {
    Seq::new(s.len(), |i: int| word_of_i8(s[i]))
}

/// The word form of a narrow integer sequence.
pub open spec fn words_of_i16s(s: Seq<i16>) -> Seq<u64> {
    Seq::new(s.len(), |i: int| word_of_i16(s[i]))
}

/// The word form of a size or offset sequence.
pub open spec fn words_of_ints(s: Seq<int>) -> Seq<u64> {
    Seq::new(s.len(), |i: int| s[i] as u64)
}

/// A framed union entry: a tag word, then the payload.
pub open spec fn union_bytes(u: UnionModel) -> Seq<u8> {
    match u {
        UnionModel::Null => le64(0),
        UnionModel::Float(b) => le64(1) + le64(b),
        UnionModel::Bool(b) => le64(2) + le64(word_of_bool(b)),
        UnionModel::String(s) => le64(3) + str_bytes(s),
        UnionModel::Array(n) => le64(4) + le64(n as u64),
        UnionModel::Object(n) => le64(5) + le64(n as u64),
    }
}

/// The framed union entries at positions `i` and beyond.
pub open spec fn unions_bytes(s: Seq<UnionModel>, i: int) -> Seq<u8>
    decreases s.len() - i,
{
    if i < 0 || i >= s.len() {
        Seq::empty()
    } else {
        union_bytes(s[i]) + unions_bytes(s, i + 1)
    }
}

/// A framed payload: a tag word for its representation, then its buffers.
pub open spec fn data_bytes(d: DataModel) -> Seq<u8> {
    match d {
        DataModel::Null => le64(0),
        DataModel::TinyInt(s) => le64(1) + word_seq_bytes(words_of_i8s(s)),
        DataModel::SmallInt(s) => le64(2) + word_seq_bytes(words_of_i16s(s)),
        DataModel::Float(s) => le64(3) + word_seq_bytes(s),
        DataModel::Bool(s) => le64(4) + word_seq_bytes(words_of_bools(s)),
        DataModel::String(buf, offs) => le64(5) + str_bytes(buf) + word_seq_bytes(
            words_of_ints(offs),
        ),
        DataModel::Object(s) => le64(6) + word_seq_bytes(words_of_ints(s)),
        DataModel::Array(s) => le64(7) + word_seq_bytes(words_of_ints(s)),
        DataModel::Union(s) => le64(8) + le64(s.len() as u64) + unions_bytes(s, 0),
    }
}

/// The framed index buffers at depths `i` and beyond.
pub open spec fn bufs_bytes(s: Seq<Seq<u32>>, i: int) -> Seq<u8>
    decreases s.len() - i,
{
    if i < 0 || i >= s.len() {
        Seq::empty()
    } else {
        word_seq_bytes(words_of_u32s(s[i])) + bufs_bytes(s, i + 1)
    }
}

/// A framed column: its depth and index buffers, its null bitmap, then
/// its payload.
pub open spec fn col_bytes(c: ColumnModel) -> Seq<u8> {
    le64(c.indexes.len() as u64) + bufs_bytes(c.indexes, 0) + word_seq_bytes(
        words_of_bools(c.nulls),
    ) + data_bytes(c.data)
}

/// The framed path-and-column entries at positions `i` and beyond.
pub open spec fn entries_bytes(s: Seq<(Seq<PathCompModel>, ColumnModel)>, i: int) -> Seq<u8>
    decreases s.len() - i,
{
    if i < 0 || i >= s.len() {
        Seq::empty()
    } else {
        path_bytes(s[i].0) + col_bytes(s[i].1) + entries_bytes(s, i + 1)
    }
}

/// A framed stripe: its row count, its column count, then each column in
/// the order the stripe keeps them (path order).
pub open spec fn stripe_bytes(s: Seq<(Seq<PathCompModel>, ColumnModel)>, count: int) -> Seq<u8> {
    le64(count as u64) + le64(s.len() as u64) + entries_bytes(s, 0)
}

/// The ordered path-and-column entries a stripe holds.
pub open spec fn pairs_view(s: Seq<(Path, Column)>) -> Seq<(Seq<PathCompModel>, ColumnModel)> {
    Seq::new(s.len(), |i: int| (path_view(s[i].0@), s[i].1@))
}

// ---------------------------------------------------------------------
// The parser, at the specification level: a cursor over the bytes.
// ---------------------------------------------------------------------

/// One word read at `pos`, and the cursor after it.
pub open spec fn parse_u64(b: Seq<u8>, pos: int) -> Option<(u64, int)> {
    if 0 <= pos && pos + 8 <= b.len() {
        Some((spec_u64_from_le_bytes(b.subrange(pos, pos + 8)), pos + 8))
    } else {
        None
    }
}

/// A length word: a word small enough to be a machine size.
pub open spec fn parse_len(b: Seq<u8>, pos: int) -> Option<(int, int)> {
    match parse_u64(b, pos) {
        Some((v, p)) => if v <= usize::MAX as u64 {
            Some((v as int, p))
        } else {
            None
        },
        None => None,
    }
}

/// A string: its UTF-8 length, then that many bytes of valid UTF-8.
pub open spec fn parse_str(b: Seq<u8>, pos: int) -> Option<(Seq<char>, int)> {
    match parse_len(b, pos) {
        Some((n, p)) => if p + n <= b.len() && valid_utf8(b.subrange(p, p + n)) {
            Some((decode_utf8(b.subrange(p, p + n)), p + n))
        } else {
            None
        },
        None => None,
    }
}

/// One path component: a tag word, then a key's text if the tag asks for
/// one.
pub open spec fn parse_comp(b: Seq<u8>, pos: int) -> Option<(PathCompModel, int)> {
    match parse_u64(b, pos) {
        Some((t, p)) => if t == 0 {
            match parse_str(b, p) {
                Some((s, p2)) => Some((PathCompModel::Key(s), p2)),
                None => None,
            }
        } else if t == 1 {
            Some((PathCompModel::Array, p))
        } else {
            None
        },
        None => None,
    }
}

/// `n` more path components, accumulated in order.
pub open spec fn parse_comps(b: Seq<u8>, pos: int, n: int, acc: Seq<PathCompModel>) -> Option<
    (Seq<PathCompModel>, int),
>
    decreases n,
{
    if n <= 0 {
        Some((acc, pos))
    } else {
        match parse_comp(b, pos) {
            Some((c, p)) => parse_comps(b, p, n - 1, acc.push(c)),
            None => None,
        }
    }
}

/// A path: its component count, then its components.
pub open spec fn parse_path(b: Seq<u8>, pos: int) -> Option<(Seq<PathCompModel>, int)> {
    match parse_len(b, pos) {
        Some((n, p)) => parse_comps(b, p, n, Seq::empty()),
        None => None,
    }
}

/// `n` more words, accumulated in order.
pub open spec fn parse_words(b: Seq<u8>, pos: int, n: int, acc: Seq<u64>) -> Option<
    (Seq<u64>, int),
>
    decreases n,
{
    if n <= 0 {
        Some((acc, pos))
    } else {
        match parse_u64(b, pos) {
            Some((v, p)) => parse_words(b, p, n - 1, acc.push(v)),
            None => None,
        }
    }
}

/// A word sequence: its length, then its words.
pub open spec fn parse_word_seq(b: Seq<u8>, pos: int) -> Option<(Seq<u64>, int)> {
    match parse_len(b, pos) {
        Some((n, p)) => parse_words(b, p, n, Seq::empty()),
        None => None,
    }
}

/// Words back to stored booleans, when every word is a framed boolean.
pub open spec fn bools_of_words(s: Seq<u64>) -> Option<Seq<bool>> {
    if forall|i: int| 0 <= i < s.len() ==> #[trigger] s[i] <= 1 {
        Some(Seq::new(s.len(), |i: int| s[i] == 1))
    } else {
        None
    }
}

/// Words back to index entries, when every word fits 32 bits.
pub open spec fn u32s_of_words(s: Seq<u64>) -> Option<Seq<u32>> {
    if forall|i: int| 0 <= i < s.len() ==> #[trigger] s[i] <= u32::MAX as u64 {
        Some(Seq::new(s.len(), |i: int| s[i] as u32))
    } else {
        None
    }
}

/// Words back to narrow integers, when every word fits one byte.
pub open spec fn i8s_of_words(s: Seq<u64>) -> Option<Seq<i8>> {
    if forall|i: int| 0 <= i < s.len() ==> #[trigger] s[i] <= 0xFF {
        Some(Seq::new(s.len(), |i: int| (s[i] as u8) as i8))
    } else {
        None
    }
}

/// Words back to narrow integers, when every word fits two bytes.
pub open spec fn i16s_of_words(s: Seq<u64>) -> Option<Seq<i16>> {
    if forall|i: int| 0 <= i < s.len() ==> #[trigger] s[i] <= 0xFFFF {
        Some(Seq::new(s.len(), |i: int| (s[i] as u16) as i16))
    } else {
        None
    }
}

/// Words back to sizes or offsets, when every word is a machine size.
pub open spec fn ints_of_words(s: Seq<u64>) -> Option<Seq<int>> {
    if forall|i: int| 0 <= i < s.len() ==> #[trigger] s[i] <= usize::MAX as u64 {
        Some(Seq::new(s.len(), |i: int| s[i] as int))
    } else {
        None
    }
}

/// One union entry: a tag word, then its payload.
pub open spec fn parse_union(b: Seq<u8>, pos: int) -> Option<(UnionModel, int)> {
    match parse_u64(b, pos) {
        Some((t, p)) => if t == 0 {
            Some((UnionModel::Null, p))
        } else if t == 1 {
            match parse_u64(b, p) {
                Some((v, p2)) => Some((UnionModel::Float(v), p2)),
                None => None,
            }
        } else if t == 2 {
            match parse_u64(b, p) {
                Some((v, p2)) => if v <= 1 {
                    Some((UnionModel::Bool(v == 1), p2))
                } else {
                    None
                },
                None => None,
            }
        } else if t == 3 {
            match parse_str(b, p) {
                Some((s, p2)) => Some((UnionModel::String(s), p2)),
                None => None,
            }
        } else if t == 4 {
            match parse_u64(b, p) {
                Some((v, p2)) => if v <= usize::MAX as u64 {
                    Some((UnionModel::Array(v as int), p2))
                } else {
                    None
                },
                None => None,
            }
        } else if t == 5 {
            match parse_u64(b, p) {
                Some((v, p2)) => if v <= usize::MAX as u64 {
                    Some((UnionModel::Object(v as int), p2))
                } else {
                    None
                },
                None => None,
            }
        } else {
            None
        },
        None => None,
    }
}

/// `n` more union entries, accumulated in order.
pub open spec fn parse_unions(b: Seq<u8>, pos: int, n: int, acc: Seq<UnionModel>) -> Option<
    (Seq<UnionModel>, int),
>
    decreases n,
{
    if n <= 0 {
        Some((acc, pos))
    } else {
        match parse_union(b, pos) {
            Some((u, p)) => parse_unions(b, p, n - 1, acc.push(u)),
            None => None,
        }
    }
}

/// A payload: its representation tag, then its buffers.
pub open spec fn parse_data(b: Seq<u8>, pos: int) -> Option<(DataModel, int)> {
    match parse_u64(b, pos) {
        Some((t, p)) => if t == 0 {
            Some((DataModel::Null, p))
        } else if t == 1 {
            match parse_word_seq(b, p) {
                Some((w, p2)) => match i8s_of_words(w) {
                    Some(s) => Some((DataModel::TinyInt(s), p2)),
                    None => None,
                },
                None => None,
            }
        } else if t == 2 {
            match parse_word_seq(b, p) {
                Some((w, p2)) => match i16s_of_words(w) {
                    Some(s) => Some((DataModel::SmallInt(s), p2)),
                    None => None,
                },
                None => None,
            }
        } else if t == 3 {
            match parse_word_seq(b, p) {
                Some((w, p2)) => Some((DataModel::Float(w), p2)),
                None => None,
            }
        } else if t == 4 {
            match parse_word_seq(b, p) {
                Some((w, p2)) => match bools_of_words(w) {
                    Some(s) => Some((DataModel::Bool(s), p2)),
                    None => None,
                },
                None => None,
            }
        } else if t == 5 {
            match parse_str(b, p) {
                Some((buf, p2)) => match parse_word_seq(b, p2) {
                    Some((w, p3)) => match ints_of_words(w) {
                        Some(offs) => Some((DataModel::String(buf, offs), p3)),
                        None => None,
                    },
                    None => None,
                },
                None => None,
            }
        } else if t == 6 {
            match parse_word_seq(b, p) {
                Some((w, p2)) => match ints_of_words(w) {
                    Some(s) => Some((DataModel::Object(s), p2)),
                    None => None,
                },
                None => None,
            }
        } else if t == 7 {
            match parse_word_seq(b, p) {
                Some((w, p2)) => match ints_of_words(w) {
                    Some(s) => Some((DataModel::Array(s), p2)),
                    None => None,
                },
                None => None,
            }
        } else if t == 8 {
            match parse_len(b, p) {
                Some((n, p2)) => match parse_unions(b, p2, n, Seq::empty()) {
                    Some((s, p3)) => Some((DataModel::Union(s), p3)),
                    None => None,
                },
                None => None,
            }
        } else {
            None
        },
        None => None,
    }
}

/// `n` more index buffers, accumulated in depth order.
pub open spec fn parse_bufs(b: Seq<u8>, pos: int, n: int, acc: Seq<Seq<u32>>) -> Option<
    (Seq<Seq<u32>>, int),
>
    decreases n,
{
    if n <= 0 {
        Some((acc, pos))
    } else {
        match parse_word_seq(b, pos) {
            Some((w, p)) => match u32s_of_words(w) {
                Some(s) => parse_bufs(b, p, n - 1, acc.push(s)),
                None => None,
            },
            None => None,
        }
    }
}

/// A column: its depth and index buffers, its null bitmap, its payload.
pub open spec fn parse_col(b: Seq<u8>, pos: int) -> Option<(ColumnModel, int)> {
    match parse_len(b, pos) {
        Some((depth, p)) => match parse_bufs(b, p, depth, Seq::empty()) {
            Some((bufs, p2)) => match parse_word_seq(b, p2) {
                Some((w, p3)) => match bools_of_words(w) {
                    Some(nulls) => match parse_data(b, p3) {
                        Some((data, p4)) => Some(
                            (ColumnModel { indexes: bufs, nulls: nulls, data: data }, p4),
                        ),
                        None => None,
                    },
                    None => None,
                },
                None => None,
            },
            None => None,
        },
        None => None,
    }
}

/// `n` more path-and-column entries, accumulated in order.
pub open spec fn parse_entries(
    b: Seq<u8>,
    pos: int,
    n: int,
    acc: Seq<(Seq<PathCompModel>, ColumnModel)>,
) -> Option<(Seq<(Seq<PathCompModel>, ColumnModel)>, int)>
    decreases n,
{
    if n <= 0 {
        Some((acc, pos))
    } else {
        match parse_path(b, pos) {
            Some((p1, q)) => match parse_col(b, q) {
                Some((c, q2)) => parse_entries(b, q2, n - 1, acc.push((p1, c))),
                None => None,
            },
            None => None,
        }
    }
}

/// A whole stripe: its row count, its column count, its entries, and
/// nothing after them.
pub open spec fn parse_stripe(b: Seq<u8>) -> Option<
    (Seq<(Seq<PathCompModel>, ColumnModel)>, int),
> {
    match parse_len(b, 0) {
        Some((count, p)) => match parse_len(b, p) {
            Some((n, p2)) => match parse_entries(b, p2, n, Seq::empty()) {
                Some((list, p3)) => if p3 == b.len() {
                    Some((list, count))
                } else {
                    None
                },
                None => None,
            },
            None => None,
        },
        None => None,
    }
}


// ---------------------------------------------------------------------
// Framing round trip: parsing what was framed gives back what was framed.
// ---------------------------------------------------------------------

/// Dimensions small enough for the 64-bit framing: strings.
pub open spec fn str_ok(s: Seq<char>) -> bool {
    encode_utf8(s).len() <= usize::MAX
}

/// Dimensions small enough for the 64-bit framing: path components.
pub open spec fn comp_ok(c: PathCompModel) -> bool {
    match c {
        PathCompModel::Key(s) => str_ok(s),
        PathCompModel::Array => true,
    }
}

/// Dimensions small enough for the 64-bit framing: paths.
pub open spec fn comps_ok(p: Seq<PathCompModel>) -> bool {
    p.len() <= usize::MAX && forall|i: int| 0 <= i < p.len() ==> comp_ok(#[trigger] p[i])
}

/// Dimensions small enough for the 64-bit framing: union entries.
pub open spec fn union_ok(u: UnionModel) -> bool {
    match u {
        UnionModel::String(s) => str_ok(s),
        UnionModel::Array(n) => int_ok(n),
        UnionModel::Object(n) => int_ok(n),
        _ => true,
    }
}

/// Dimensions small enough for the 64-bit framing: payloads.
pub open spec fn data_ok(d: DataModel) -> bool {
    match d {
        DataModel::Null => true,
        DataModel::TinyInt(s) => s.len() <= usize::MAX,
        DataModel::SmallInt(s) => s.len() <= usize::MAX,
        DataModel::Float(s) => s.len() <= usize::MAX,
        DataModel::Bool(s) => s.len() <= usize::MAX,
        DataModel::String(buf, offs) => str_ok(buf) && offs.len() <= usize::MAX && forall|i: int|
            0 <= i < offs.len() ==> int_ok(#[trigger] offs[i]),
        DataModel::Object(s) => s.len() <= usize::MAX && forall|i: int|
            0 <= i < s.len() ==> int_ok(#[trigger] s[i]),
        DataModel::Array(s) => s.len() <= usize::MAX && forall|i: int|
            0 <= i < s.len() ==> int_ok(#[trigger] s[i]),
        DataModel::Union(s) => s.len() <= usize::MAX && forall|i: int|
            0 <= i < s.len() ==> union_ok(#[trigger] s[i]),
    }
}

/// Dimensions small enough for the 64-bit framing: columns.
pub open spec fn col_ok(c: ColumnModel) -> bool {
    &&& c.indexes.len() <= usize::MAX
    &&& forall|d: int| 0 <= d < c.indexes.len() ==> (#[trigger] c.indexes[d]).len() <= usize::MAX
    &&& c.nulls.len() <= usize::MAX
    &&& data_ok(c.data)
}

/// Dimensions small enough for the 64-bit framing: whole column lists.
pub open spec fn entries_ok(s: Seq<(Seq<PathCompModel>, ColumnModel)>) -> bool {
    s.len() <= usize::MAX && forall|i: int|
        0 <= i < s.len() ==> comps_ok((#[trigger] s[i]).0) && col_ok(s[i].1)
}

/// Splitting a suffix equation at a known prefix length.
proof fn lemma_split(b: Seq<u8>, pos: int, x: Seq<u8>, rest: Seq<u8>)
    requires
        0 <= pos <= b.len(),
        b.subrange(pos, b.len() as int) == x + rest,
    ensures
        pos + x.len() <= b.len(),
        b.subrange(pos, pos + x.len() as int) =~= x,
        b.subrange(pos + x.len() as int, b.len() as int) =~= rest,
{
    assert(b.subrange(pos, b.len() as int).len() == b.len() - pos);
    assert((x + rest).len() == x.len() + rest.len());
    assert(b.len() - pos == x.len() + rest.len());
    assert forall|j: int| 0 <= j < x.len() implies b.subrange(pos, pos + x.len() as int)[j] == x[j]
        by {
        assert(b.subrange(pos, b.len() as int)[j] == x[j]);
    }
    assert forall|j: int| 0 <= j < rest.len() implies b.subrange(
        pos + x.len() as int,
        b.len() as int,
    )[j] == rest[j] by {
        assert(b.subrange(pos, b.len() as int)[j + x.len()] == rest[j]);
    }
}

/// A framed word parses back to itself.
proof fn lemma_parse_u64_at(b: Seq<u8>, pos: int, v: u64, rest: Seq<u8>)
    requires
        0 <= pos <= b.len(),
        b.subrange(pos, b.len() as int) == le64(v) + rest,
    ensures
        parse_u64(b, pos) == Some((v, pos + 8)),
        pos + 8 <= b.len(),
        b.subrange(pos + 8, b.len() as int) == rest,
{
    lemma_auto_spec_u64_to_from_le_bytes();
    lemma_split(b, pos, le64(v), rest);
    assert(b.subrange(pos, pos + 8) == le64(v));
}

/// A framed machine size parses back to itself.
proof fn lemma_parse_len_at(b: Seq<u8>, pos: int, n: int, rest: Seq<u8>)
    requires
        0 <= pos <= b.len(),
        int_ok(n),
        b.subrange(pos, b.len() as int) == le64(n as u64) + rest,
    ensures
        parse_len(b, pos) == Some((n, pos + 8)),
        pos + 8 <= b.len(),
        b.subrange(pos + 8, b.len() as int) == rest,
{
    lemma_parse_u64_at(b, pos, n as u64, rest);
}

/// A framed string parses back to itself.
proof fn lemma_parse_str_at(b: Seq<u8>, pos: int, s: Seq<char>, rest: Seq<u8>)
    requires
        0 <= pos <= b.len(),
        str_ok(s),
        b.subrange(pos, b.len() as int) == str_bytes(s) + rest,
    ensures
        parse_str(b, pos) == Some((s, pos + str_bytes(s).len())),
        pos + str_bytes(s).len() <= b.len(),
        b.subrange(pos + str_bytes(s).len() as int, b.len() as int) == rest,
{
    lemma_auto_spec_u64_to_from_le_bytes();
    let u = encode_utf8(s);
    let n = u.len() as int;
    assert(b.subrange(pos, b.len() as int) == le64(n as u64) + (u + rest)) by {
        assert(str_bytes(s) + rest =~= le64(n as u64) + (u + rest));
    }
    lemma_parse_len_at(b, pos, n, u + rest);
    lemma_split(b, pos + 8, u, rest);
    encode_utf8_valid_utf8(s);
    encode_utf8_decode_utf8(s);
    assert(b.subrange(pos + 8, pos + 8 + n) == u);
}

/// A framed path component parses back to itself.
proof fn lemma_parse_comp_at(b: Seq<u8>, pos: int, c: PathCompModel, rest: Seq<u8>)
    requires
        0 <= pos <= b.len(),
        comp_ok(c),
        b.subrange(pos, b.len() as int) == comp_bytes(c) + rest,
    ensures
        parse_comp(b, pos) == Some((c, pos + comp_bytes(c).len())),
        pos + comp_bytes(c).len() <= b.len(),
        b.subrange(pos + comp_bytes(c).len() as int, b.len() as int) == rest,
{
    lemma_auto_spec_u64_to_from_le_bytes();
    match c {
        PathCompModel::Key(s) => {
            assert(b.subrange(pos, b.len() as int) == le64(0) + (str_bytes(s) + rest)) by {
                assert(comp_bytes(c) + rest =~= le64(0) + (str_bytes(s) + rest));
            }
            lemma_parse_u64_at(b, pos, 0, str_bytes(s) + rest);
            lemma_parse_str_at(b, pos + 8, s, rest);
        },
        PathCompModel::Array => {
            lemma_parse_u64_at(b, pos, 1, rest);
        },
    }
}

/// A framed run of path components parses back to itself.
proof fn lemma_parse_comps_at(
    b: Seq<u8>,
    pos: int,
    p: Seq<PathCompModel>,
    i: int,
    acc: Seq<PathCompModel>,
    rest: Seq<u8>,
)
    requires
        0 <= pos <= b.len(),
        0 <= i <= p.len(),
        comps_ok(p),
        b.subrange(pos, b.len() as int) == comps_bytes(p, i) + rest,
    ensures
        parse_comps(b, pos, p.len() - i, acc) == Some(
            (acc + p.skip(i), pos + comps_bytes(p, i).len()),
        ),
        pos + comps_bytes(p, i).len() <= b.len(),
        b.subrange(pos + comps_bytes(p, i).len() as int, b.len() as int) == rest,
    decreases p.len() - i,
{
    lemma_auto_spec_u64_to_from_le_bytes();
    if i < p.len() {
        assert(b.subrange(pos, b.len() as int) == comp_bytes(p[i]) + (comps_bytes(p, i + 1)
            + rest)) by {
            assert(comps_bytes(p, i) + rest =~= comp_bytes(p[i]) + (comps_bytes(p, i + 1)
                + rest));
        }
        lemma_parse_comp_at(b, pos, p[i], comps_bytes(p, i + 1) + rest);
        lemma_parse_comps_at(b, pos + comp_bytes(p[i]).len(), p, i + 1, acc.push(p[i]), rest);
        assert(acc.push(p[i]) + p.skip(i + 1) =~= acc + p.skip(i));
    } else {
        assert(acc + p.skip(i) =~= acc);
        assert(b.subrange(pos, b.len() as int) =~= rest);
    }
}

/// A framed path parses back to itself.
proof fn lemma_parse_path_at(b: Seq<u8>, pos: int, p: Seq<PathCompModel>, rest: Seq<u8>)
    requires
        0 <= pos <= b.len(),
        comps_ok(p),
        b.subrange(pos, b.len() as int) == path_bytes(p) + rest,
    ensures
        parse_path(b, pos) == Some((p, pos + path_bytes(p).len())),
        pos + path_bytes(p).len() <= b.len(),
        b.subrange(pos + path_bytes(p).len() as int, b.len() as int) == rest,
{
    lemma_auto_spec_u64_to_from_le_bytes();
    assert(b.subrange(pos, b.len() as int) == le64(p.len() as u64) + (comps_bytes(p, 0) + rest))
        by {
        assert(path_bytes(p) + rest =~= le64(p.len() as u64) + (comps_bytes(p, 0) + rest));
    }
    lemma_parse_len_at(b, pos, p.len() as int, comps_bytes(p, 0) + rest);
    lemma_parse_comps_at(b, pos + 8, p, 0, Seq::empty(), rest);
    assert(Seq::<PathCompModel>::empty() + p.skip(0) =~= p);
}

/// A framed run of words parses back to itself.
proof fn lemma_parse_words_at(
    b: Seq<u8>,
    pos: int,
    s: Seq<u64>,
    i: int,
    acc: Seq<u64>,
    rest: Seq<u8>,
)
    requires
        0 <= pos <= b.len(),
        0 <= i <= s.len(),
        b.subrange(pos, b.len() as int) == words_bytes(s, i) + rest,
    ensures
        parse_words(b, pos, s.len() - i, acc) == Some(
            (acc + s.skip(i), pos + words_bytes(s, i).len()),
        ),
        pos + words_bytes(s, i).len() <= b.len(),
        b.subrange(pos + words_bytes(s, i).len() as int, b.len() as int) == rest,
    decreases s.len() - i,
{
    lemma_auto_spec_u64_to_from_le_bytes();
    if i < s.len() {
        assert(b.subrange(pos, b.len() as int) == le64(s[i]) + (words_bytes(s, i + 1) + rest))
            by {
            assert(words_bytes(s, i) + rest =~= le64(s[i]) + (words_bytes(s, i + 1) + rest));
        }
        lemma_parse_u64_at(b, pos, s[i], words_bytes(s, i + 1) + rest);
        lemma_parse_words_at(b, pos + 8, s, i + 1, acc.push(s[i]), rest);
        assert(acc.push(s[i]) + s.skip(i + 1) =~= acc + s.skip(i));
    } else {
        assert(acc + s.skip(i) =~= acc);
        assert(b.subrange(pos, b.len() as int) =~= rest);
    }
}

/// A framed word sequence parses back to itself.
proof fn lemma_parse_word_seq_at(b: Seq<u8>, pos: int, s: Seq<u64>, rest: Seq<u8>)
    requires
        0 <= pos <= b.len(),
        s.len() <= usize::MAX,
        b.subrange(pos, b.len() as int) == word_seq_bytes(s) + rest,
    ensures
        parse_word_seq(b, pos) == Some((s, pos + word_seq_bytes(s).len())),
        pos + word_seq_bytes(s).len() <= b.len(),
        b.subrange(pos + word_seq_bytes(s).len() as int, b.len() as int) == rest,
{
    lemma_auto_spec_u64_to_from_le_bytes();
    assert(b.subrange(pos, b.len() as int) == le64(s.len() as u64) + (words_bytes(s, 0) + rest))
        by {
        assert(word_seq_bytes(s) + rest =~= le64(s.len() as u64) + (words_bytes(s, 0) + rest));
    }
    lemma_parse_len_at(b, pos, s.len() as int, words_bytes(s, 0) + rest);
    lemma_parse_words_at(b, pos + 8, s, 0, Seq::empty(), rest);
    assert(Seq::<u64>::empty() + s.skip(0) =~= s);
}

/// The word maps invert exactly on framed values.
proof fn lemma_words_invert_u32s(s: Seq<u32>)
    ensures
        u32s_of_words(words_of_u32s(s)) == Some(s),
{
    let w = words_of_u32s(s);
    assert(forall|i: int| 0 <= i < w.len() ==> #[trigger] w[i] <= u32::MAX as u64);
    assert(u32s_of_words(w)->0 =~= s);
}

/// The word maps invert exactly on framed values.
proof fn lemma_words_invert_bools(s: Seq<bool>)
    ensures
        bools_of_words(words_of_bools(s)) == Some(s),
{
    let w = words_of_bools(s);
    assert(forall|i: int| 0 <= i < w.len() ==> #[trigger] w[i] <= 1);
    assert(bools_of_words(w)->0 =~= s);
}

/// The word maps invert exactly on framed values.
proof fn lemma_words_invert_i8s(s: Seq<i8>)
    ensures
        i8s_of_words(words_of_i8s(s)) == Some(s),
{
    let w = words_of_i8s(s);
    assert(forall|i: int| 0 <= i < w.len() ==> #[trigger] w[i] <= 0xFF);
    assert forall|i: int| 0 <= i < s.len() implies (i8s_of_words(w)->0)[i] == s[i] by {
        let x = s[i];
        assert((x as u8) as u64 <= 0xFF) by (bit_vector);
        assert(((x as u8) as u64 as u8) as i8 == x) by (bit_vector);
    }
    assert(i8s_of_words(w)->0 =~= s);
}

/// The word maps invert exactly on framed values.
proof fn lemma_words_invert_i16s(s: Seq<i16>)
    ensures
        i16s_of_words(words_of_i16s(s)) == Some(s),
{
    let w = words_of_i16s(s);
    assert(forall|i: int| 0 <= i < w.len() ==> #[trigger] w[i] <= 0xFFFF);
    assert forall|i: int| 0 <= i < s.len() implies (i16s_of_words(w)->0)[i] == s[i] by {
        let x = s[i];
        assert((x as u16) as u64 <= 0xFFFF) by (bit_vector);
        assert(((x as u16) as u64 as u16) as i16 == x) by (bit_vector);
    }
    assert(i16s_of_words(w)->0 =~= s);
}

/// The word maps invert exactly on framed values.
proof fn lemma_words_invert_ints(s: Seq<int>)
    requires
        forall|i: int| 0 <= i < s.len() ==> int_ok(#[trigger] s[i]),
    ensures
        ints_of_words(words_of_ints(s)) == Some(s),
{
    let w = words_of_ints(s);
    assert(forall|i: int| 0 <= i < w.len() ==> #[trigger] w[i] <= usize::MAX as u64);
    assert(ints_of_words(w)->0 =~= s);
}

/// A framed union entry parses back to itself.
proof fn lemma_parse_union_at(b: Seq<u8>, pos: int, u: UnionModel, rest: Seq<u8>)
    requires
        0 <= pos <= b.len(),
        union_ok(u),
        b.subrange(pos, b.len() as int) == union_bytes(u) + rest,
    ensures
        parse_union(b, pos) == Some((u, pos + union_bytes(u).len())),
        pos + union_bytes(u).len() <= b.len(),
        b.subrange(pos + union_bytes(u).len() as int, b.len() as int) == rest,
{
    lemma_auto_spec_u64_to_from_le_bytes();
    match u {
        UnionModel::Null => {
            lemma_parse_u64_at(b, pos, 0, rest);
        },
        UnionModel::Float(v) => {
            assert(b.subrange(pos, b.len() as int) == le64(1) + (le64(v) + rest)) by {
                assert(union_bytes(u) + rest =~= le64(1) + (le64(v) + rest));
            }
            lemma_parse_u64_at(b, pos, 1, le64(v) + rest);
            lemma_parse_u64_at(b, pos + 8, v, rest);
        },
        UnionModel::Bool(v) => {
            assert(b.subrange(pos, b.len() as int) == le64(2) + (le64(word_of_bool(v)) + rest))
                by {
                assert(union_bytes(u) + rest =~= le64(2) + (le64(word_of_bool(v)) + rest));
            }
            lemma_parse_u64_at(b, pos, 2, le64(word_of_bool(v)) + rest);
            lemma_parse_u64_at(b, pos + 8, word_of_bool(v), rest);
        },
        UnionModel::String(s) => {
            assert(b.subrange(pos, b.len() as int) == le64(3) + (str_bytes(s) + rest)) by {
                assert(union_bytes(u) + rest =~= le64(3) + (str_bytes(s) + rest));
            }
            lemma_parse_u64_at(b, pos, 3, str_bytes(s) + rest);
            lemma_parse_str_at(b, pos + 8, s, rest);
        },
        UnionModel::Array(n) => {
            assert(b.subrange(pos, b.len() as int) == le64(4) + (le64(n as u64) + rest)) by {
                assert(union_bytes(u) + rest =~= le64(4) + (le64(n as u64) + rest));
            }
            lemma_parse_u64_at(b, pos, 4, le64(n as u64) + rest);
            lemma_parse_u64_at(b, pos + 8, n as u64, rest);
        },
        UnionModel::Object(n) => {
            assert(b.subrange(pos, b.len() as int) == le64(5) + (le64(n as u64) + rest)) by {
                assert(union_bytes(u) + rest =~= le64(5) + (le64(n as u64) + rest));
            }
            lemma_parse_u64_at(b, pos, 5, le64(n as u64) + rest);
            lemma_parse_u64_at(b, pos + 8, n as u64, rest);
        },
    }
}

/// A framed run of union entries parses back to itself.
proof fn lemma_parse_unions_at(
    b: Seq<u8>,
    pos: int,
    s: Seq<UnionModel>,
    i: int,
    acc: Seq<UnionModel>,
    rest: Seq<u8>,
)
    requires
        0 <= pos <= b.len(),
        0 <= i <= s.len(),
        forall|j: int| 0 <= j < s.len() ==> union_ok(#[trigger] s[j]),
        b.subrange(pos, b.len() as int) == unions_bytes(s, i) + rest,
    ensures
        parse_unions(b, pos, s.len() - i, acc) == Some(
            (acc + s.skip(i), pos + unions_bytes(s, i).len()),
        ),
        pos + unions_bytes(s, i).len() <= b.len(),
        b.subrange(pos + unions_bytes(s, i).len() as int, b.len() as int) == rest,
    decreases s.len() - i,
{
    lemma_auto_spec_u64_to_from_le_bytes();
    if i < s.len() {
        assert(b.subrange(pos, b.len() as int) == union_bytes(s[i]) + (unions_bytes(s, i + 1)
            + rest)) by {
            assert(unions_bytes(s, i) + rest =~= union_bytes(s[i]) + (unions_bytes(s, i + 1)
                + rest));
        }
        lemma_parse_union_at(b, pos, s[i], unions_bytes(s, i + 1) + rest);
        lemma_parse_unions_at(b, pos + union_bytes(s[i]).len(), s, i + 1, acc.push(s[i]), rest);
        assert(acc.push(s[i]) + s.skip(i + 1) =~= acc + s.skip(i));
    } else {
        assert(acc + s.skip(i) =~= acc);
        assert(b.subrange(pos, b.len() as int) =~= rest);
    }
}

/// A framed payload parses back to itself.
proof fn lemma_parse_data_at(b: Seq<u8>, pos: int, d: DataModel, rest: Seq<u8>)
    requires
        0 <= pos <= b.len(),
        data_ok(d),
        b.subrange(pos, b.len() as int) == data_bytes(d) + rest,
    ensures
        parse_data(b, pos) == Some((d, pos + data_bytes(d).len())),
        pos + data_bytes(d).len() <= b.len(),
        b.subrange(pos + data_bytes(d).len() as int, b.len() as int) == rest,
{
    lemma_auto_spec_u64_to_from_le_bytes();
    match d {
        DataModel::Null => {
            lemma_parse_u64_at(b, pos, 0, rest);
        },
        DataModel::TinyInt(s) => {
            let w = words_of_i8s(s);
            assert(b.subrange(pos, b.len() as int) == le64(1) + (word_seq_bytes(w) + rest)) by {
                assert(data_bytes(d) + rest =~= le64(1) + (word_seq_bytes(w) + rest));
            }
            lemma_parse_u64_at(b, pos, 1, word_seq_bytes(w) + rest);
            lemma_parse_word_seq_at(b, pos + 8, w, rest);
            lemma_words_invert_i8s(s);
        },
        DataModel::SmallInt(s) => {
            let w = words_of_i16s(s);
            assert(b.subrange(pos, b.len() as int) == le64(2) + (word_seq_bytes(w) + rest)) by {
                assert(data_bytes(d) + rest =~= le64(2) + (word_seq_bytes(w) + rest));
            }
            lemma_parse_u64_at(b, pos, 2, word_seq_bytes(w) + rest);
            lemma_parse_word_seq_at(b, pos + 8, w, rest);
            lemma_words_invert_i16s(s);
        },
        DataModel::Float(s) => {
            assert(b.subrange(pos, b.len() as int) == le64(3) + (word_seq_bytes(s) + rest)) by {
                assert(data_bytes(d) + rest =~= le64(3) + (word_seq_bytes(s) + rest));
            }
            lemma_parse_u64_at(b, pos, 3, word_seq_bytes(s) + rest);
            lemma_parse_word_seq_at(b, pos + 8, s, rest);
        },
        DataModel::Bool(s) => {
            let w = words_of_bools(s);
            assert(b.subrange(pos, b.len() as int) == le64(4) + (word_seq_bytes(w) + rest)) by {
                assert(data_bytes(d) + rest =~= le64(4) + (word_seq_bytes(w) + rest));
            }
            lemma_parse_u64_at(b, pos, 4, word_seq_bytes(w) + rest);
            lemma_parse_word_seq_at(b, pos + 8, w, rest);
            lemma_words_invert_bools(s);
        },
        DataModel::String(buf, offs) => {
            let w = words_of_ints(offs);
            assert(b.subrange(pos, b.len() as int) == le64(5) + (str_bytes(buf) + (word_seq_bytes(
                w,
            ) + rest))) by {
                assert(data_bytes(d) + rest =~= le64(5) + (str_bytes(buf) + (word_seq_bytes(w)
                    + rest)));
            }
            lemma_parse_u64_at(b, pos, 5, str_bytes(buf) + (word_seq_bytes(w) + rest));
            lemma_parse_str_at(b, pos + 8, buf, word_seq_bytes(w) + rest);
            lemma_parse_word_seq_at(b, pos + 8 + str_bytes(buf).len(), w, rest);
            lemma_words_invert_ints(offs);
        },
        DataModel::Object(s) => {
            let w = words_of_ints(s);
            assert(b.subrange(pos, b.len() as int) == le64(6) + (word_seq_bytes(w) + rest)) by {
                assert(data_bytes(d) + rest =~= le64(6) + (word_seq_bytes(w) + rest));
            }
            lemma_parse_u64_at(b, pos, 6, word_seq_bytes(w) + rest);
            lemma_parse_word_seq_at(b, pos + 8, w, rest);
            lemma_words_invert_ints(s);
        },
        DataModel::Array(s) => {
            let w = words_of_ints(s);
            assert(b.subrange(pos, b.len() as int) == le64(7) + (word_seq_bytes(w) + rest)) by {
                assert(data_bytes(d) + rest =~= le64(7) + (word_seq_bytes(w) + rest));
            }
            lemma_parse_u64_at(b, pos, 7, word_seq_bytes(w) + rest);
            lemma_parse_word_seq_at(b, pos + 8, w, rest);
            lemma_words_invert_ints(s);
        },
        DataModel::Union(s) => {
            assert(b.subrange(pos, b.len() as int) == le64(8) + (le64(s.len() as u64)
                + (unions_bytes(s, 0) + rest))) by {
                assert(data_bytes(d) + rest =~= le64(8) + (le64(s.len() as u64) + (unions_bytes(
                    s,
                    0,
                ) + rest)));
            }
            lemma_parse_u64_at(b, pos, 8, le64(s.len() as u64) + (unions_bytes(s, 0) + rest));
            lemma_parse_len_at(b, pos + 8, s.len() as int, unions_bytes(s, 0) + rest);
            lemma_parse_unions_at(b, pos + 16, s, 0, Seq::empty(), rest);
            assert(Seq::<UnionModel>::empty() + s.skip(0) =~= s);
        },
    }
}

/// A framed run of index buffers parses back to itself.
proof fn lemma_parse_bufs_at(
    b: Seq<u8>,
    pos: int,
    s: Seq<Seq<u32>>,
    i: int,
    acc: Seq<Seq<u32>>,
    rest: Seq<u8>,
)
    requires
        0 <= pos <= b.len(),
        0 <= i <= s.len(),
        forall|j: int| 0 <= j < s.len() ==> (#[trigger] s[j]).len() <= usize::MAX,
        b.subrange(pos, b.len() as int) == bufs_bytes(s, i) + rest,
    ensures
        parse_bufs(b, pos, s.len() - i, acc) == Some(
            (acc + s.skip(i), pos + bufs_bytes(s, i).len()),
        ),
        pos + bufs_bytes(s, i).len() <= b.len(),
        b.subrange(pos + bufs_bytes(s, i).len() as int, b.len() as int) == rest,
    decreases s.len() - i,
{
    lemma_auto_spec_u64_to_from_le_bytes();
    if i < s.len() {
        let w = words_of_u32s(s[i]);
        assert(b.subrange(pos, b.len() as int) == word_seq_bytes(w) + (bufs_bytes(s, i + 1)
            + rest)) by {
            assert(bufs_bytes(s, i) + rest =~= word_seq_bytes(w) + (bufs_bytes(s, i + 1) + rest));
        }
        lemma_parse_word_seq_at(b, pos, w, bufs_bytes(s, i + 1) + rest);
        lemma_words_invert_u32s(s[i]);
        lemma_parse_bufs_at(b, pos + word_seq_bytes(w).len(), s, i + 1, acc.push(s[i]), rest);
        assert(acc.push(s[i]) + s.skip(i + 1) =~= acc + s.skip(i));
    } else {
        assert(acc + s.skip(i) =~= acc);
        assert(b.subrange(pos, b.len() as int) =~= rest);
    }
}

/// A framed column parses back to itself.
proof fn lemma_parse_col_at(b: Seq<u8>, pos: int, c: ColumnModel, rest: Seq<u8>)
    requires
        0 <= pos <= b.len(),
        col_ok(c),
        b.subrange(pos, b.len() as int) == col_bytes(c) + rest,
    ensures
        parse_col(b, pos) == Some((c, pos + col_bytes(c).len())),
        pos + col_bytes(c).len() <= b.len(),
        b.subrange(pos + col_bytes(c).len() as int, b.len() as int) == rest,
{
    lemma_auto_spec_u64_to_from_le_bytes();
    let w = words_of_bools(c.nulls);
    assert(b.subrange(pos, b.len() as int) == le64(c.indexes.len() as u64) + (bufs_bytes(
        c.indexes,
        0,
    ) + (word_seq_bytes(w) + (data_bytes(c.data) + rest)))) by {
        assert(col_bytes(c) + rest =~= le64(c.indexes.len() as u64) + (bufs_bytes(c.indexes, 0)
            + (word_seq_bytes(w) + (data_bytes(c.data) + rest))));
    }
    lemma_parse_len_at(
        b,
        pos,
        c.indexes.len() as int,
        bufs_bytes(c.indexes, 0) + (word_seq_bytes(w) + (data_bytes(c.data) + rest)),
    );
    lemma_parse_bufs_at(
        b,
        pos + 8,
        c.indexes,
        0,
        Seq::empty(),
        word_seq_bytes(w) + (data_bytes(c.data) + rest),
    );
    assert(Seq::<Seq<u32>>::empty() + c.indexes.skip(0) =~= c.indexes);
    let p2 = pos + 8 + bufs_bytes(c.indexes, 0).len();
    lemma_parse_word_seq_at(b, p2, w, data_bytes(c.data) + rest);
    lemma_words_invert_bools(c.nulls);
    let p3 = p2 + word_seq_bytes(w).len();
    lemma_parse_data_at(b, p3, c.data, rest);
}

/// A framed run of path-and-column entries parses back to itself.
proof fn lemma_parse_entries_at(
    b: Seq<u8>,
    pos: int,
    s: Seq<(Seq<PathCompModel>, ColumnModel)>,
    i: int,
    acc: Seq<(Seq<PathCompModel>, ColumnModel)>,
    rest: Seq<u8>,
)
    requires
        0 <= pos <= b.len(),
        0 <= i <= s.len(),
        entries_ok(s),
        b.subrange(pos, b.len() as int) == entries_bytes(s, i) + rest,
    ensures
        parse_entries(b, pos, s.len() - i, acc) == Some(
            (acc + s.skip(i), pos + entries_bytes(s, i).len()),
        ),
        pos + entries_bytes(s, i).len() <= b.len(),
        b.subrange(pos + entries_bytes(s, i).len() as int, b.len() as int) == rest,
    decreases s.len() - i,
{
    lemma_auto_spec_u64_to_from_le_bytes();
    if i < s.len() {
        assert(b.subrange(pos, b.len() as int) == path_bytes(s[i].0) + (col_bytes(s[i].1)
            + (entries_bytes(s, i + 1) + rest))) by {
            assert(entries_bytes(s, i) + rest =~= path_bytes(s[i].0) + (col_bytes(s[i].1)
                + (entries_bytes(s, i + 1) + rest)));
        }
        lemma_parse_path_at(b, pos, s[i].0, col_bytes(s[i].1) + (entries_bytes(s, i + 1) + rest));
        let q = pos + path_bytes(s[i].0).len();
        lemma_parse_col_at(b, q, s[i].1, entries_bytes(s, i + 1) + rest);
        let q2 = q + col_bytes(s[i].1).len();
        lemma_parse_entries_at(b, q2, s, i + 1, acc.push((s[i].0, s[i].1)), rest);
        assert(acc.push((s[i].0, s[i].1)) + s.skip(i + 1) =~= acc + s.skip(i));
    } else {
        assert(acc + s.skip(i) =~= acc);
        assert(b.subrange(pos, b.len() as int) =~= rest);
    }
}

/// Round trip: a stripe framed and then parsed is exactly the stripe that
/// was framed — the same paths, the same per-column contents, the same
/// row count.
pub proof fn law_codec_round_trip(s: Seq<(Seq<PathCompModel>, ColumnModel)>, count: int)
    requires
        entries_ok(s),
        int_ok(count),
    ensures
        parse_stripe(stripe_bytes(s, count)) == Some((s, count)),
{
    lemma_auto_spec_u64_to_from_le_bytes();
    let b = stripe_bytes(s, count);
    assert(b.subrange(0, b.len() as int) =~= b);
    assert(b == le64(count as u64) + (le64(s.len() as u64) + (entries_bytes(s, 0)
        + Seq::<u8>::empty()))) by {
        assert(b =~= le64(count as u64) + (le64(s.len() as u64) + (entries_bytes(s, 0)
            + Seq::<u8>::empty())));
    }
    lemma_parse_len_at(b, 0, count, le64(s.len() as u64) + (entries_bytes(s, 0)
        + Seq::<u8>::empty()));
    lemma_parse_len_at(b, 8, s.len() as int, entries_bytes(s, 0) + Seq::<u8>::empty());
    lemma_parse_entries_at(b, 16, s, 0, Seq::empty(), Seq::empty());
    assert(Seq::<(Seq<PathCompModel>, ColumnModel)>::empty() + s.skip(0) =~= s);
}


// ---------------------------------------------------------------------
// The executable encoder.
// ---------------------------------------------------------------------

/// Appends one framed word.
fn enc_u64(out: &mut Vec<u8>, v: u64)
    ensures
        final(out)@ == old(out)@ + le64(v),
{
    let mut b = vstd::bytes::u64_to_le_bytes(v);
    out.append(&mut b);
}

/// Appends one framed string.
fn enc_str(out: &mut Vec<u8>, s: &str)
    ensures
        final(out)@ == old(out)@ + str_bytes(s@),
        str_ok(s@),
{
    let bytes = s.as_bytes();
    let n = bytes.len();
    enc_u64(out, n as u64);
    let mut bv = vstd::slice::slice_to_vec(bytes);
    out.append(&mut bv);
    proof {
        assert(final(out)@ =~= old(out)@ + str_bytes(s@));
    }
}

/// Appends one framed path component.
fn enc_comp(out: &mut Vec<u8>, c: &PathComponent)
    ensures
        final(out)@ == old(out)@ + comp_bytes(c@),
        comp_ok(c@),
{
    match c {
        PathComponent::Key(s) => {
            enc_u64(out, 0);
            enc_str(out, s.as_str());
            proof {
                assert(final(out)@ =~= old(out)@ + comp_bytes(c@));
            }
        },
        PathComponent::Array => {
            enc_u64(out, 1);
        },
    }
}

/// Appends one framed path.
fn enc_path(out: &mut Vec<u8>, p: &Vec<PathComponent>)
    ensures
        final(out)@ == old(out)@ + path_bytes(path_view(p@)),
        comps_ok(path_view(p@)),
{
    let n = p.len();
    enc_u64(out, n as u64);
    let mut i: usize = 0;
    while i < n
        invariant
            0 <= i <= n,
            n == p@.len(),
            out@ + comps_bytes(path_view(p@), i as int) == old(out)@ + path_bytes(path_view(p@)),
            forall|j: int| 0 <= j < i ==> comp_ok(#[trigger] path_view(p@)[j]),
        decreases n - i,
    {
        let ghost before = out@;
        enc_comp(out, &p[i]);
        proof {
            assert(path_view(p@)[i as int] == p@[i as int]@);
            assert(out@ + comps_bytes(path_view(p@), i + 1) =~= before + (comp_bytes(
                path_view(p@)[i as int],
            ) + comps_bytes(path_view(p@), i + 1)));
            assert(comp_bytes(path_view(p@)[i as int]) + comps_bytes(path_view(p@), i + 1)
                =~= comps_bytes(path_view(p@), i as int));
            assert(out@ + comps_bytes(path_view(p@), i + 1) =~= before + comps_bytes(
                path_view(p@),
                i as int,
            ));
        }
        i = i + 1;
    }
    proof {
        assert(comps_bytes(path_view(p@), n as int) =~= Seq::<u8>::empty());
        assert(out@ + comps_bytes(path_view(p@), n as int) =~= out@);
    }
}



/// Appends a framed word sequence of index entries.
fn enc_u32s(out: &mut Vec<u8>, v: &Vec<u32>)
    ensures
        final(out)@ == old(out)@ + word_seq_bytes(words_of_u32s(v@)),
        v@.len() <= usize::MAX,
{
    let ghost w = words_of_u32s(v@);
    let n = v.len();
    enc_u64(out, n as u64);
    let mut i: usize = 0;
    while i < n
        invariant
            0 <= i <= n,
            n == v@.len(),
            w == words_of_u32s(v@),
            out@ + words_bytes(w, i as int) == old(out)@ + word_seq_bytes(w),
        decreases n - i,
    {
        let ghost before = out@;
        enc_u64(out, v[i] as u64);
        proof {
            assert(w[i as int] == v@[i as int] as u64);
            assert(out@ + words_bytes(w, i + 1) =~= before + words_bytes(w, i as int));
        }
        i = i + 1;
    }
    proof {
        assert(out@ + words_bytes(w, n as int) =~= out@);
    }
}

/// Appends a framed word sequence of stored booleans, from a bit vector.
fn enc_bools(out: &mut Vec<u8>, v: &bit_vec::BitVec<u32>)
    ensures
        final(out)@ == old(out)@ + word_seq_bytes(words_of_bools(crate::bits::bits_of(*v))),
        crate::bits::bits_of(*v).len() <= usize::MAX,
{
    let ghost w = words_of_bools(crate::bits::bits_of(*v));
    let n = crate::bits::bv_len(v);
    enc_u64(out, n as u64);
    let mut i: usize = 0;
    while i < n
        invariant
            0 <= i <= n,
            n == crate::bits::bits_of(*v).len(),
            w == words_of_bools(crate::bits::bits_of(*v)),
            out@ + words_bytes(w, i as int) == old(out)@ + word_seq_bytes(w),
        decreases n - i,
    {
        let ghost before = out@;
        let bit = crate::bits::bv_get(v, i);
        enc_u64(out, if bit { 1 } else { 0 });
        proof {
            assert(w[i as int] == word_of_bool(crate::bits::bits_of(*v)[i as int]));
            assert(out@ + words_bytes(w, i + 1) =~= before + words_bytes(w, i as int));
        }
        i = i + 1;
    }
    proof {
        assert(out@ + words_bytes(w, n as int) =~= out@);
    }
}

/// Appends a framed word sequence of narrow integers.
fn enc_i8s(out: &mut Vec<u8>, v: &Vec<i8>)
    ensures
        final(out)@ == old(out)@ + word_seq_bytes(words_of_i8s(v@)),
        v@.len() <= usize::MAX,
{
    let ghost w = words_of_i8s(v@);
    let n = v.len();
    enc_u64(out, n as u64);
    let mut i: usize = 0;
    while i < n
        invariant
            0 <= i <= n,
            n == v@.len(),
            w == words_of_i8s(v@),
            out@ + words_bytes(w, i as int) == old(out)@ + word_seq_bytes(w),
        decreases n - i,
    {
        let ghost before = out@;
        enc_u64(out, (v[i] as u8) as u64);
        proof {
            assert(w[i as int] == word_of_i8(v@[i as int]));
            assert(out@ + words_bytes(w, i + 1) =~= before + words_bytes(w, i as int));
        }
        i = i + 1;
    }
    proof {
        assert(out@ + words_bytes(w, n as int) =~= out@);
    }
}

/// Appends a framed word sequence of narrow integers.
fn enc_i16s(out: &mut Vec<u8>, v: &Vec<i16>)
    ensures
        final(out)@ == old(out)@ + word_seq_bytes(words_of_i16s(v@)),
        v@.len() <= usize::MAX,
{
    let ghost w = words_of_i16s(v@);
    let n = v.len();
    enc_u64(out, n as u64);
    let mut i: usize = 0;
    while i < n
        invariant
            0 <= i <= n,
            n == v@.len(),
            w == words_of_i16s(v@),
            out@ + words_bytes(w, i as int) == old(out)@ + word_seq_bytes(w),
        decreases n - i,
    {
        let ghost before = out@;
        enc_u64(out, (v[i] as u16) as u64);
        proof {
            assert(w[i as int] == word_of_i16(v@[i as int]));
            assert(out@ + words_bytes(w, i + 1) =~= before + words_bytes(w, i as int));
        }
        i = i + 1;
    }
    proof {
        assert(out@ + words_bytes(w, n as int) =~= out@);
    }
}

/// Appends a framed word sequence of doubles' bit patterns.
fn enc_u64s(out: &mut Vec<u8>, v: &Vec<u64>)
    ensures
        final(out)@ == old(out)@ + word_seq_bytes(v@),
        v@.len() <= usize::MAX,
{
    let n = v.len();
    enc_u64(out, n as u64);
    let mut i: usize = 0;
    while i < n
        invariant
            0 <= i <= n,
            n == v@.len(),
            out@ + words_bytes(v@, i as int) == old(out)@ + word_seq_bytes(v@),
        decreases n - i,
    {
        let ghost before = out@;
        enc_u64(out, v[i]);
        proof {
            assert(out@ + words_bytes(v@, i + 1) =~= before + words_bytes(v@, i as int));
        }
        i = i + 1;
    }
    proof {
        assert(out@ + words_bytes(v@, n as int) =~= out@);
    }
}

/// Appends a framed word sequence of sizes or offsets.
fn enc_usizes(out: &mut Vec<u8>, v: &Vec<usize>)
    ensures
        final(out)@ == old(out)@ + word_seq_bytes(words_of_ints(crate::columnar::column::ints_of(v@))),
        forall|i: int|
            0 <= i < v@.len() ==> int_ok(#[trigger] crate::columnar::column::ints_of(v@)[i]),
        v@.len() <= usize::MAX,
{
    let ghost w = words_of_ints(crate::columnar::column::ints_of(v@));
    let n = v.len();
    enc_u64(out, n as u64);
    let mut i: usize = 0;
    while i < n
        invariant
            0 <= i <= n,
            n == v@.len(),
            w == words_of_ints(crate::columnar::column::ints_of(v@)),
            out@ + words_bytes(w, i as int) == old(out)@ + word_seq_bytes(w),
        decreases n - i,
    {
        let ghost before = out@;
        enc_u64(out, v[i] as u64);
        proof {
            assert(crate::columnar::column::ints_of(v@)[i as int] == v@[i as int] as int);
            assert(w[i as int] == v@[i as int] as u64);
            assert(out@ + words_bytes(w, i + 1) =~= before + words_bytes(w, i as int));
        }
        i = i + 1;
    }
    proof {
        assert(out@ + words_bytes(w, n as int) =~= out@);
    }
}

/// Appends one framed union entry.
fn enc_union(out: &mut Vec<u8>, u: &crate::columnar::column::Union)
    ensures
        final(out)@ == old(out)@ + union_bytes(u@),
        union_ok(u@),
{
    match u {
        crate::columnar::column::Union::Null => {
            enc_u64(out, 0);
        },
        crate::columnar::column::Union::Float(v) => {
            enc_u64(out, 1);
            enc_u64(out, *v);
            proof {
                assert(final(out)@ =~= old(out)@ + union_bytes(u@));
            }
        },
        crate::columnar::column::Union::Bool(v) => {
            enc_u64(out, 2);
            enc_u64(out, if *v { 1 } else { 0 });
            proof {
                assert(final(out)@ =~= old(out)@ + union_bytes(u@));
            }
        },
        crate::columnar::column::Union::String(s) => {
            enc_u64(out, 3);
            enc_str(out, s.as_str());
            proof {
                assert(final(out)@ =~= old(out)@ + union_bytes(u@));
            }
        },
        crate::columnar::column::Union::Array(n) => {
            enc_u64(out, 4);
            enc_u64(out, *n as u64);
            proof {
                assert(final(out)@ =~= old(out)@ + union_bytes(u@));
            }
        },
        crate::columnar::column::Union::Object(n) => {
            enc_u64(out, 5);
            enc_u64(out, *n as u64);
            proof {
                assert(final(out)@ =~= old(out)@ + union_bytes(u@));
            }
        },
    }
}

/// Appends one framed payload.
fn enc_data(out: &mut Vec<u8>, d: &crate::columnar::column::ColumnData)
    ensures
        final(out)@ == old(out)@ + data_bytes(d@),
        data_ok(d@),
{
    match d {
        crate::columnar::column::ColumnData::Null => {
            enc_u64(out, 0);
        },
        crate::columnar::column::ColumnData::TinyInt(v) => {
            enc_u64(out, 1);
            enc_i8s(out, v);
            proof {
                assert(final(out)@ =~= old(out)@ + data_bytes(d@));
            }
        },
        crate::columnar::column::ColumnData::SmallInt(v) => {
            enc_u64(out, 2);
            enc_i16s(out, v);
            proof {
                assert(final(out)@ =~= old(out)@ + data_bytes(d@));
            }
        },
        crate::columnar::column::ColumnData::Float(v) => {
            enc_u64(out, 3);
            enc_u64s(out, v);
            proof {
                assert(final(out)@ =~= old(out)@ + data_bytes(d@));
            }
        },
        crate::columnar::column::ColumnData::Bool(v) => {
            enc_u64(out, 4);
            enc_bools(out, v);
            proof {
                assert(final(out)@ =~= old(out)@ + data_bytes(d@));
            }
        },
        crate::columnar::column::ColumnData::String(buf, offs) => {
            enc_u64(out, 5);
            enc_str(out, buf.as_str());
            enc_usizes(out, offs);
            proof {
                assert(final(out)@ =~= old(out)@ + data_bytes(d@));
            }
        },
        crate::columnar::column::ColumnData::Object(v) => {
            enc_u64(out, 6);
            enc_usizes(out, v);
            proof {
                assert(final(out)@ =~= old(out)@ + data_bytes(d@));
            }
        },
        crate::columnar::column::ColumnData::Array(v) => {
            enc_u64(out, 7);
            enc_usizes(out, v);
            proof {
                assert(final(out)@ =~= old(out)@ + data_bytes(d@));
            }
        },
        crate::columnar::column::ColumnData::Union(v) => {
            enc_u64(out, 8);
            let ghost uv = v.deep_view();
            let n = v.len();
            enc_u64(out, n as u64);
            let mut i: usize = 0;
            while i < n
                invariant
                    0 <= i <= n,
                    n == v@.len(),
                    uv == v.deep_view(),
                    uv.len() == n,
                    out@ + unions_bytes(uv, i as int) == old(out)@ + data_bytes(d@),
                    forall|j: int| 0 <= j < i ==> union_ok(#[trigger] uv[j]),
                decreases n - i,
            {
                let ghost before = out@;
                enc_union(out, &v[i]);
                proof {
                    assert(uv[i as int] == v@[i as int]@);
                    assert(out@ + unions_bytes(uv, i + 1) =~= before + unions_bytes(
                        uv,
                        i as int,
                    ));
                }
                i = i + 1;
            }
            proof {
                assert(out@ + unions_bytes(uv, n as int) =~= out@);
            }
        },
    }
}

/// Appends one framed column.
fn enc_col(out: &mut Vec<u8>, c: &Column)
    ensures
        final(out)@ == old(out)@ + col_bytes(c@),
        col_ok(c@),
{
    let ghost bufs = c@.indexes;
    let n = c.indexes.len();
    enc_u64(out, n as u64);
    proof {
        assert(bufs.len() == n);
    }
    let mut i: usize = 0;
    while i < n
        invariant
            0 <= i <= n,
            n == c.indexes@.len(),
            bufs == c@.indexes,
            bufs.len() == n,
            out@ + bufs_bytes(bufs, i as int) == old(out)@ + le64(n as u64) + bufs_bytes(bufs, 0),
            forall|j: int| 0 <= j < i ==> (#[trigger] bufs[j]).len() <= usize::MAX,
        decreases n - i,
    {
        let ghost before = out@;
        let blen = c.indexes[i].len();
        enc_u32s(out, &c.indexes[i]);
        proof {
            assert(bufs[i as int] == c.indexes@[i as int]@);
            assert(words_of_u32s(c.indexes@[i as int]@).len() == blen);
            assert(out@ + bufs_bytes(bufs, i + 1) =~= before + bufs_bytes(bufs, i as int));
        }
        i = i + 1;
    }
    proof {
        assert(out@ + bufs_bytes(bufs, n as int) =~= out@);
    }
    let nl = crate::bits::bv_len(&c.null_map);
    enc_bools(out, &c.null_map);
    enc_data(out, &c.data);
    proof {
        assert(final(out)@ =~= old(out)@ + col_bytes(c@));
    }
}

impl Stripe {
    /// Frames the whole stripe as one byte sequence: the row count, then
    /// every column in path order.
    pub fn encode(&self) -> (r: Vec<u8>)
        ensures
            r@ == stripe_bytes(pairs_view(self.columns@), self@.count),
            entries_ok(pairs_view(self.columns@)),
            int_ok(self@.count),
    {
        let ghost entries = pairs_view(self.columns@);
        let mut out: Vec<u8> = Vec::new();
        enc_u64(&mut out, self.count as u64);
        let n = self.columns.len();
        enc_u64(&mut out, n as u64);
        let mut i: usize = 0;
        while i < n
            invariant
                0 <= i <= n,
                n == self.columns@.len(),
                entries == pairs_view(self.columns@),
                entries.len() == n,
                out@ + entries_bytes(entries, i as int) == stripe_bytes(entries, self@.count),
                forall|j: int|
                    0 <= j < i ==> comps_ok((#[trigger] entries[j]).0) && col_ok(entries[j].1),
            decreases n - i,
        {
            let ghost before = out@;
            enc_path(&mut out, &self.columns[i].0);
            enc_col(&mut out, &self.columns[i].1);
            proof {
                assert(entries[i as int].0 == path_view(self.columns@[i as int].0@));
                assert(entries[i as int].1 == self.columns@[i as int].1@);
                assert(out@ + entries_bytes(entries, i + 1) =~= before + entries_bytes(
                    entries,
                    i as int,
                ));
            }
            i = i + 1;
        }
        proof {
            assert(out@ + entries_bytes(entries, n as int) =~= out@);
        }
        out
    }
}


// ---------------------------------------------------------------------
// The executable decoder: a faithful mirror of the parser.
// ---------------------------------------------------------------------

/// Relies on String::from_utf8: it accepts exactly the byte sequences
/// that are valid UTF-8, and the string it returns reads back as those
/// very bytes.
#[verifier::external_body]
fn string_from_utf8(bytes: Vec<u8>) -> (r: Option<String>)
    ensures
        match r {
            Some(s) => valid_utf8(bytes@) && encode_utf8(s@) == bytes@,
            None => !valid_utf8(bytes@),
        },
{
    String::from_utf8(bytes).ok()
}

/// Reads one word at the cursor.
fn dec_u64(b: &Vec<u8>, pos: &mut usize) -> (r: Option<u64>)
    ensures
        match r {
            Some(v) => parse_u64(b@, *old(pos) as int) == Some((v, *final(pos) as int)),
            None => parse_u64(b@, *old(pos) as int) is None,
        },
{
    if b.len() < 8 || *pos > b.len() - 8 {
        return None;
    }
    let sub = vstd::slice::slice_subrange(b.as_slice(), *pos, *pos + 8);
    let v = vstd::bytes::u64_from_le_bytes(sub);
    *pos = *pos + 8;
    Some(v)
}

/// Reads one machine-size word at the cursor.
fn dec_len(b: &Vec<u8>, pos: &mut usize) -> (r: Option<usize>)
    ensures
        match r {
            Some(v) => parse_len(b@, *old(pos) as int) == Some((v as int, *final(pos) as int)),
            None => parse_len(b@, *old(pos) as int) is None,
        },
{
    match dec_u64(b, pos) {
        Some(v) => if v <= usize::MAX as u64 {
            Some(v as usize)
        } else {
            None
        },
        None => None,
    }
}

/// Reads one framed string at the cursor.
fn dec_str(b: &Vec<u8>, pos: &mut usize) -> (r: Option<String>)
    ensures
        match r {
            Some(v) => parse_str(b@, *old(pos) as int) == Some((v@, *final(pos) as int)),
            None => parse_str(b@, *old(pos) as int) is None,
        },
{
    let n = match dec_len(b, pos) {
        Some(n) => n,
        None => {
            return None;
        },
    };
    if n > b.len() || *pos > b.len() - n {
        return None;
    }
    let sub = vstd::slice::slice_subrange(b.as_slice(), *pos, *pos + n);
    let bytes = vstd::slice::slice_to_vec(sub);
    match string_from_utf8(bytes) {
        Some(st) => {
            proof {
                encode_utf8_decode_utf8(st@);
            }
            *pos = *pos + n;
            Some(st)
        },
        None => None,
    }
}

/// Reads one framed path component at the cursor.
fn dec_comp(b: &Vec<u8>, pos: &mut usize) -> (r: Option<PathComponent>)
    ensures
        match r {
            Some(v) => parse_comp(b@, *old(pos) as int) == Some((v@, *final(pos) as int)),
            None => parse_comp(b@, *old(pos) as int) is None,
        },
{
    let t = match dec_u64(b, pos) {
        Some(t) => t,
        None => {
            return None;
        },
    };
    if t == 0 {
        match dec_str(b, pos) {
            Some(st) => Some(PathComponent::Key(st)),
            None => None,
        }
    } else if t == 1 {
        Some(PathComponent::Array)
    } else {
        None
    }
}

/// Reads one framed path at the cursor.
#[verifier::loop_isolation(false)]
fn dec_path(b: &Vec<u8>, pos: &mut usize) -> (r: Option<Path>)
    ensures
        match r {
            Some(v) => parse_path(b@, *old(pos) as int) == Some(
                (path_view(v@), *final(pos) as int),
            ),
            None => parse_path(b@, *old(pos) as int) is None,
        },
{
    let n = match dec_len(b, pos) {
        Some(n) => n,
        None => {
            return None;
        },
    };
    let ghost p0 = *pos as int;
    let mut acc: Vec<PathComponent> = Vec::new();
    let mut i: usize = 0;
    proof {
        assert(path_view(acc@) =~= Seq::<PathCompModel>::empty());
    }
    while i < n
        invariant
            0 <= i <= n,
            acc@.len() == i,
            parse_comps(b@, p0, n as int, Seq::empty()) == parse_comps(
                b@,
                *pos as int,
                n - i,
                path_view(acc@),
            ),
        decreases n - i,
    {
        let ghost acc0 = path_view(acc@);
        match dec_comp(b, pos) {
            Some(c) => {
                acc.push(c);
                proof {
                    assert(path_view(acc@) =~= acc0.push(c@));
                }
            },
            None => {
                return None;
            },
        }
        i = i + 1;
    }
    Some(acc)
}

/// Reads one framed word sequence at the cursor.
#[verifier::loop_isolation(false)]
fn dec_words(b: &Vec<u8>, pos: &mut usize) -> (r: Option<Vec<u64>>)
    ensures
        match r {
            Some(v) => parse_word_seq(b@, *old(pos) as int) == Some((v@, *final(pos) as int)),
            None => parse_word_seq(b@, *old(pos) as int) is None,
        },
{
    let n = match dec_len(b, pos) {
        Some(n) => n,
        None => {
            return None;
        },
    };
    let ghost p0 = *pos as int;
    let mut acc: Vec<u64> = Vec::new();
    let mut i: usize = 0;
    proof {
        assert(acc@ =~= Seq::<u64>::empty());
    }
    while i < n
        invariant
            0 <= i <= n,
            acc@.len() == i,
            parse_words(b@, p0, n as int, Seq::empty()) == parse_words(
                b@,
                *pos as int,
                n - i,
                acc@,
            ),
        decreases n - i,
    {
        match dec_u64(b, pos) {
            Some(v) => {
                acc.push(v);
            },
            None => {
                return None;
            },
        }
        i = i + 1;
    }
    Some(acc)
}

/// Narrows a word sequence to index entries, exactly when every word
/// fits.
fn conv_u32s(w: &Vec<u64>) -> (r: Option<Vec<u32>>)
    ensures
        match r {
            Some(v) => u32s_of_words(w@) == Some(v@),
            None => u32s_of_words(w@) is None,
        },
{
    let n = w.len();
    let mut acc: Vec<u32> = Vec::new();
    let mut i: usize = 0;
    while i < n
        invariant
            0 <= i <= n,
            n == w@.len(),
            acc@.len() == i,
            forall|j: int| 0 <= j < i ==> #[trigger] w@[j] <= u32::MAX as u64,
            forall|j: int| 0 <= j < i ==> acc@[j] == w@[j] as u32,
        decreases n - i,
    {
        if w[i] > u32::MAX as u64 {
            return None;
        }
        acc.push(w[i] as u32);
        i = i + 1;
    }
    proof {
        assert(u32s_of_words(w@)->0 =~= acc@);
    }
    Some(acc)
}

/// Narrows a word sequence to stored booleans, exactly when every word is
/// a framed boolean; the result is a bit vector.
fn conv_bools(w: &Vec<u64>) -> (r: Option<bit_vec::BitVec<u32>>)
    ensures
        match r {
            Some(v) => bools_of_words(w@) == Some(crate::bits::bits_of(v)),
            None => bools_of_words(w@) is None,
        },
{
    let n = w.len();
    let mut acc = crate::bits::bv_new();
    let mut i: usize = 0;
    while i < n
        invariant
            0 <= i <= n,
            n == w@.len(),
            crate::bits::bits_of(acc).len() == i,
            forall|j: int| 0 <= j < i ==> #[trigger] w@[j] <= 1,
            forall|j: int| 0 <= j < i ==> crate::bits::bits_of(acc)[j] == (w@[j] == 1),
        decreases n - i,
    {
        if w[i] > 1 {
            return None;
        }
        proof {
            assert(crate::bits::bits_of(acc).len() < usize::MAX);
        }
        crate::bits::bv_push(&mut acc, w[i] == 1);
        i = i + 1;
    }
    proof {
        assert(bools_of_words(w@)->0 =~= crate::bits::bits_of(acc));
    }
    Some(acc)
}

/// Narrows a word sequence to narrow integers, exactly when every word
/// fits one byte.
fn conv_i8s(w: &Vec<u64>) -> (r: Option<Vec<i8>>)
    ensures
        match r {
            Some(v) => i8s_of_words(w@) == Some(v@),
            None => i8s_of_words(w@) is None,
        },
{
    let n = w.len();
    let mut acc: Vec<i8> = Vec::new();
    let mut i: usize = 0;
    while i < n
        invariant
            0 <= i <= n,
            n == w@.len(),
            acc@.len() == i,
            forall|j: int| 0 <= j < i ==> #[trigger] w@[j] <= 0xFF,
            forall|j: int| 0 <= j < i ==> acc@[j] == (w@[j] as u8) as i8,
        decreases n - i,
    {
        if w[i] > 0xFF {
            return None;
        }
        acc.push((w[i] as u8) as i8);
        i = i + 1;
    }
    proof {
        assert(i8s_of_words(w@)->0 =~= acc@);
    }
    Some(acc)
}

/// Narrows a word sequence to narrow integers, exactly when every word
/// fits two bytes.
fn conv_i16s(w: &Vec<u64>) -> (r: Option<Vec<i16>>)
    ensures
        match r {
            Some(v) => i16s_of_words(w@) == Some(v@),
            None => i16s_of_words(w@) is None,
        },
{
    let n = w.len();
    let mut acc: Vec<i16> = Vec::new();
    let mut i: usize = 0;
    while i < n
        invariant
            0 <= i <= n,
            n == w@.len(),
            acc@.len() == i,
            forall|j: int| 0 <= j < i ==> #[trigger] w@[j] <= 0xFFFF,
            forall|j: int| 0 <= j < i ==> acc@[j] == (w@[j] as u16) as i16,
        decreases n - i,
    {
        if w[i] > 0xFFFF {
            return None;
        }
        acc.push((w[i] as u16) as i16);
        i = i + 1;
    }
    proof {
        assert(i16s_of_words(w@)->0 =~= acc@);
    }
    Some(acc)
}

/// Narrows a word sequence to sizes or offsets, exactly when every word
/// is a machine size.
fn conv_usizes(w: &Vec<u64>) -> (r: Option<Vec<usize>>)
    ensures
        match r {
            Some(v) => ints_of_words(w@) == Some(crate::columnar::column::ints_of(v@)),
            None => ints_of_words(w@) is None,
        },
{
    let n = w.len();
    let mut acc: Vec<usize> = Vec::new();
    let mut i: usize = 0;
    while i < n
        invariant
            0 <= i <= n,
            n == w@.len(),
            acc@.len() == i,
            forall|j: int| 0 <= j < i ==> #[trigger] w@[j] <= usize::MAX as u64,
            forall|j: int| 0 <= j < i ==> acc@[j] == w@[j] as usize,
        decreases n - i,
    {
        if w[i] > usize::MAX as u64 {
            return None;
        }
        acc.push(w[i] as usize);
        i = i + 1;
    }
    proof {
        assert(ints_of_words(w@)->0 =~= crate::columnar::column::ints_of(acc@));
    }
    Some(acc)
}

/// Reads one framed union entry at the cursor.
fn dec_union(b: &Vec<u8>, pos: &mut usize) -> (r: Option<crate::columnar::column::Union>)
    ensures
        match r {
            Some(v) => parse_union(b@, *old(pos) as int) == Some((v@, *final(pos) as int)),
            None => parse_union(b@, *old(pos) as int) is None,
        },
{
    let t = match dec_u64(b, pos) {
        Some(t) => t,
        None => {
            return None;
        },
    };
    if t == 0 {
        Some(crate::columnar::column::Union::Null)
    } else if t == 1 {
        match dec_u64(b, pos) {
            Some(v) => Some(crate::columnar::column::Union::Float(v)),
            None => None,
        }
    } else if t == 2 {
        match dec_u64(b, pos) {
            Some(v) => if v <= 1 {
                Some(crate::columnar::column::Union::Bool(v == 1))
            } else {
                None
            },
            None => None,
        }
    } else if t == 3 {
        match dec_str(b, pos) {
            Some(st) => Some(crate::columnar::column::Union::String(st)),
            None => None,
        }
    } else if t == 4 {
        match dec_u64(b, pos) {
            Some(v) => if v <= usize::MAX as u64 {
                Some(crate::columnar::column::Union::Array(v as usize))
            } else {
                None
            },
            None => None,
        }
    } else if t == 5 {
        match dec_u64(b, pos) {
            Some(v) => if v <= usize::MAX as u64 {
                Some(crate::columnar::column::Union::Object(v as usize))
            } else {
                None
            },
            None => None,
        }
    } else {
        None
    }
}

/// Reads one framed payload at the cursor.
#[verifier::loop_isolation(false)]
fn dec_data(b: &Vec<u8>, pos: &mut usize) -> (r: Option<crate::columnar::column::ColumnData>)
    ensures
        match r {
            Some(v) => parse_data(b@, *old(pos) as int) == Some((v@, *final(pos) as int)),
            None => parse_data(b@, *old(pos) as int) is None,
        },
{
    let t = match dec_u64(b, pos) {
        Some(t) => t,
        None => {
            return None;
        },
    };
    if t == 0 {
        Some(crate::columnar::column::ColumnData::Null)
    } else if t == 1 {
        let w = match dec_words(b, pos) {
            Some(w) => w,
            None => {
                return None;
            },
        };
        match conv_i8s(&w) {
            Some(v) => Some(crate::columnar::column::ColumnData::TinyInt(v)),
            None => None,
        }
    } else if t == 2 {
        let w = match dec_words(b, pos) {
            Some(w) => w,
            None => {
                return None;
            },
        };
        match conv_i16s(&w) {
            Some(v) => Some(crate::columnar::column::ColumnData::SmallInt(v)),
            None => None,
        }
    } else if t == 3 {
        match dec_words(b, pos) {
            Some(w) => Some(crate::columnar::column::ColumnData::Float(w)),
            None => None,
        }
    } else if t == 4 {
        let w = match dec_words(b, pos) {
            Some(w) => w,
            None => {
                return None;
            },
        };
        match conv_bools(&w) {
            Some(v) => Some(crate::columnar::column::ColumnData::Bool(v)),
            None => None,
        }
    } else if t == 5 {
        let buf = match dec_str(b, pos) {
            Some(buf) => buf,
            None => {
                return None;
            },
        };
        let w = match dec_words(b, pos) {
            Some(w) => w,
            None => {
                return None;
            },
        };
        match conv_usizes(&w) {
            Some(offs) => Some(crate::columnar::column::ColumnData::String(buf, offs)),
            None => None,
        }
    } else if t == 6 {
        let w = match dec_words(b, pos) {
            Some(w) => w,
            None => {
                return None;
            },
        };
        match conv_usizes(&w) {
            Some(v) => Some(crate::columnar::column::ColumnData::Object(v)),
            None => None,
        }
    } else if t == 7 {
        let w = match dec_words(b, pos) {
            Some(w) => w,
            None => {
                return None;
            },
        };
        match conv_usizes(&w) {
            Some(v) => Some(crate::columnar::column::ColumnData::Array(v)),
            None => None,
        }
    } else if t == 8 {
        let n = match dec_len(b, pos) {
            Some(n) => n,
            None => {
                return None;
            },
        };
        let ghost p0 = *pos as int;
        let mut acc: Vec<crate::columnar::column::Union> = Vec::new();
        let mut i: usize = 0;
        proof {
            assert(acc.deep_view() =~= Seq::<UnionModel>::empty());
        }
        while i < n
            invariant
                0 <= i <= n,
                acc@.len() == i,
                parse_unions(b@, p0, n as int, Seq::empty()) == parse_unions(
                    b@,
                    *pos as int,
                    n - i,
                    acc.deep_view(),
                ),
            decreases n - i,
        {
            let ghost acc0 = acc.deep_view();
            match dec_union(b, pos) {
                Some(u) => {
                    acc.push(u);
                    proof {
                        assert(acc.deep_view() =~= acc0.push(acc@[i as int]@));
                    }
                },
                None => {
                    return None;
                },
            }
            i = i + 1;
        }
        Some(crate::columnar::column::ColumnData::Union(acc))
    } else {
        None
    }
}

/// Reads one framed column at the cursor.
#[verifier::loop_isolation(false)]
fn dec_col(b: &Vec<u8>, pos: &mut usize) -> (r: Option<Column>)
    ensures
        match r {
            Some(v) => parse_col(b@, *old(pos) as int) == Some((v@, *final(pos) as int)),
            None => parse_col(b@, *old(pos) as int) is None,
        },
{
    let depth = match dec_len(b, pos) {
        Some(n) => n,
        None => {
            return None;
        },
    };
    let ghost p0 = *pos as int;
    let mut bufs: Vec<Vec<u32>> = Vec::new();
    let mut i: usize = 0;
    proof {
        assert(crate::columnar::column::idx_view(bufs@) =~= Seq::<Seq<u32>>::empty());
    }
    while i < depth
        invariant
            0 <= i <= depth,
            bufs@.len() == i,
            parse_bufs(b@, p0, depth as int, Seq::empty()) == parse_bufs(
                b@,
                *pos as int,
                depth - i,
                crate::columnar::column::idx_view(bufs@),
            ),
        decreases depth - i,
    {
        let ghost acc0 = crate::columnar::column::idx_view(bufs@);
        let w = match dec_words(b, pos) {
            Some(w) => w,
            None => {
                return None;
            },
        };
        match conv_u32s(&w) {
            Some(v) => {
                bufs.push(v);
                proof {
                    assert(crate::columnar::column::idx_view(bufs@) =~= acc0.push(
                        bufs@[i as int]@,
                    ));
                }
            },
            None => {
                return None;
            },
        }
        i = i + 1;
    }
    let w = match dec_words(b, pos) {
        Some(w) => w,
        None => {
            return None;
        },
    };
    let nulls = match conv_bools(&w) {
        Some(v) => v,
        None => {
            return None;
        },
    };
    let data = match dec_data(b, pos) {
        Some(d) => d,
        None => {
            return None;
        },
    };
    Some(Column { indexes: bufs, data: data, null_map: nulls })
}


/// What a parsed column list must satisfy to be a stripe: strict path
/// order, aligned columns, and each column's depth matching its path.
pub open spec fn list_valid(s: Seq<(Seq<PathCompModel>, ColumnModel)>) -> bool {
    &&& forall|i: int, j: int|
        0 <= i < j < s.len() ==> crate::columnar::path_lt((#[trigger] s[i]).0, (#[trigger] s[j]).0)
    &&& forall|i: int| 0 <= i < s.len() ==> (#[trigger] s[i]).1.wf()
    &&& forall|i: int|
        0 <= i < s.len() ==> (#[trigger] s[i]).1.indexes.len() == 1 + crate::columnar::arrays_in(
            s[i].0,
        )
}

/// A chain of adjacent strict orderings spans any distance.
proof fn lemma_lt_span(s: Seq<(Seq<PathCompModel>, ColumnModel)>, i: int, j: int)
    requires
        forall|k: int|
            0 <= k < s.len() - 1 ==> crate::columnar::path_lt((#[trigger] s[k]).0, s[k + 1].0),
        0 <= i < j < s.len(),
    ensures
        crate::columnar::path_lt(s[i].0, s[j].0),
    decreases j - i,
{
    if j == i + 1 {
        assert(crate::columnar::path_lt(s[i].0, s[i + 1].0));
    } else {
        lemma_lt_span(s, i, j - 1);
        assert(crate::columnar::path_lt(s[j - 1].0, s[j].0));
        crate::columnar::lemma_path_lt_trans(s[i].0, s[j - 1].0, s[j].0);
    }
}

/// A chain of adjacent inequalities spans any distance.
proof fn lemma_monotone_span(o: Seq<int>, i: int, j: int)
    requires
        forall|k: int| 1 <= k < o.len() ==> #[trigger] o[k - 1] <= o[k],
        0 <= i <= j < o.len(),
    ensures
        o[i] <= o[j],
    decreases j - i,
{
    if i < j {
        lemma_monotone_span(o, i, j - 1);
        assert(o[j - 1] <= o[j]);
    }
}

/// How many levels of array nesting a path crosses, executably.
fn count_arrays(p: &Vec<PathComponent>) -> (r: usize)
    ensures
        r as int == crate::columnar::arrays_in(path_view(p@)),
{
    let n = p.len();
    let mut r: usize = 0;
    let mut i: usize = 0;
    while i < n
        invariant
            0 <= i <= n,
            r <= i,
            n == p@.len(),
            r as int == crate::columnar::arrays_in(path_view(p@).take(i as int)),
        decreases n - i,
    {
        proof {
            assert(path_view(p@).take(i + 1) =~= path_view(p@).take(i as int).push(
                path_view(p@)[i as int],
            ));
            crate::columnar::lemma_arrays_in_push(
                path_view(p@).take(i as int),
                path_view(p@)[i as int],
            );
            assert(path_view(p@)[i as int] == p@[i as int]@);
        }
        if matches!(&p[i], PathComponent::Array) {
            r = r + 1;
        }
        i = i + 1;
    }
    proof {
        assert(path_view(p@).take(n as int) =~= path_view(p@));
    }
    r
}

/// Whether a column satisfies the alignment invariant, executably.
#[verifier::loop_isolation(false)]
fn check_col(c: &Column) -> (r: bool)
    ensures
        r == c@.wf(),
{
    let n = crate::bits::bv_len(&c.null_map);
    let depth = c.indexes.len();
    if depth == 0 {
        return false;
    }
    let mut d: usize = 0;
    while d < depth
        invariant
            0 <= d <= depth,
            forall|j: int| 0 <= j < d ==> (#[trigger] c@.indexes[j]).len() == n,
        decreases depth - d,
    {
        proof {
            assert(c@.indexes[d as int] == c.indexes@[d as int]@);
        }
        if c.indexes[d].len() != n {
            proof {
                if c@.wf() {
                    assert((c@.indexes[d as int]).len() == c@.nulls.len());
                    assert(false);
                }
            }
            return false;
        }
        d = d + 1;
    }
    match &c.data {
        ColumnData::Null => {
            let mut i: usize = 0;
            while i < n
                invariant
                    0 <= i <= n,
                    forall|j: int| 0 <= j < i ==> c@.nulls[j],
                decreases n - i,
            {
                if !crate::bits::bv_get(&c.null_map, i) {
                    proof {
                        if c@.wf() {
                            assert(c@.data is Null);
                            assert(c@.nulls[i as int]);
                            assert(false);
                        }
                    }
                    return false;
                }
                i = i + 1;
            }
            true
        },
        ColumnData::TinyInt(v) => v.len() == n,
        ColumnData::SmallInt(v) => v.len() == n,
        ColumnData::Float(v) => v.len() == n,
        ColumnData::Bool(bv) => crate::bits::bv_len(bv) == n,
        ColumnData::Object(v) => v.len() == n,
        ColumnData::Array(v) => v.len() == n,
        ColumnData::Union(v) => {
            proof {
                assert(v.deep_view().len() == v@.len());
            }
            v.len() == n
        },
        ColumnData::String(buf, offs) => {
            let ghost ofs = crate::columnar::column::ints_of(offs@);
            if offs.len() != n {
                return false;
            }
            let blen = buf.as_str().unicode_len();
            if n == 0 {
                proof {
                    if blen == 0 {
                        assert(crate::columnar::column::offsets_wf(buf@, ofs));
                    }
                }
                return blen == 0;
            }
            let mut i: usize = 1;
            while i < n
                invariant
                    1 <= i <= n,
                    forall|k: int| 1 <= k < i ==> #[trigger] ofs[k - 1] <= ofs[k],
                decreases n - i,
            {
                proof {
                    assert(ofs[i - 1] == offs@[i - 1] as int);
                    assert(ofs[i as int] == offs@[i as int] as int);
                }
                if offs[i - 1] > offs[i] {
                    return false;
                }
                i = i + 1;
            }
            proof {
                assert(ofs[n - 1] == offs@[n - 1] as int);
            }
            if offs[n - 1] != blen {
                proof {
                    if c@.wf() {
                        assert(crate::columnar::column::offsets_wf(buf@, ofs));
                        assert(ofs[n - 1] == buf@.len());
                        assert(false);
                    }
                }
                return false;
            }
            proof {
                assert forall|a: int, j: int| 0 <= a <= j < ofs.len() implies #[trigger] ofs[a]
                    <= #[trigger] ofs[j] by {
                    lemma_monotone_span(ofs, a, j);
                }
                assert forall|a: int| 0 <= a < ofs.len() implies 0 <= #[trigger] ofs[a]
                    <= buf@.len() by {
                    lemma_monotone_span(ofs, a, n - 1);
                }
                assert(crate::columnar::column::offsets_wf(buf@, ofs));
            }
            true
        },
    }
}

impl Stripe {
    /// Reads a framed stripe back as a single unit: `None` when the bytes
    /// are not a well-formed frame.  Decoding what [`Stripe::encode`]
    /// produced gives back a stripe with the same paths, the same
    /// per-column contents and the same row count.
    #[verifier::loop_isolation(false)]
    pub fn decode(b: &Vec<u8>) -> (r: Option<Stripe>)
        ensures
            match r {
                Some(st) => st.wf() && parse_stripe(b@) == Some(
                    (pairs_view(st.columns@), st@.count),
                ),
                None => match parse_stripe(b@) {
                    Some(parsed) => !list_valid(parsed.0),
                    None => true,
                },
            },
    {
        let mut pos: usize = 0;
        let count = match dec_len(b, &mut pos) {
            Some(c) => c,
            None => {
                return None;
            },
        };
        let n = match dec_len(b, &mut pos) {
            Some(c) => c,
            None => {
                return None;
            },
        };
        let ghost p0 = pos as int;
        let mut cols: Vec<(Path, Column)> = Vec::new();
        let mut i: usize = 0;
        proof {
            assert(pairs_view(cols@) =~= Seq::<(Seq<PathCompModel>, ColumnModel)>::empty());
        }
        while i < n
            invariant
                0 <= i <= n,
                cols@.len() == i,
                parse_entries(b@, p0, n as int, Seq::empty()) == parse_entries(
                    b@,
                    pos as int,
                    n - i,
                    pairs_view(cols@),
                ),
            decreases n - i,
        {
            let ghost acc0 = pairs_view(cols@);
            let p = match dec_path(b, &mut pos) {
                Some(p) => p,
                None => {
                    return None;
                },
            };
            let c = match dec_col(b, &mut pos) {
                Some(c) => c,
                None => {
                    return None;
                },
            };
            cols.push((p, c));
            proof {
                assert(pairs_view(cols@) =~= acc0.push(
                    (path_view(cols@[i as int].0@), cols@[i as int].1@),
                ));
            }
            i = i + 1;
        }
        if pos != b.len() {
            return None;
        }
        let ghost list = pairs_view(cols@);
        proof {
            assert(parse_stripe(b@) == Some((list, count as int)));
        }
        let m = cols.len();
        let mut k: usize = 0;
        while k < m
            invariant
                0 <= k <= m,
                m == cols@.len(),
                forall|j: int| 0 <= j < k ==> (#[trigger] list[j]).1.wf(),
                forall|j: int|
                    0 <= j < k ==> (#[trigger] list[j]).1.indexes.len() == 1
                        + crate::columnar::arrays_in(list[j].0),
            decreases m - k,
        {
            proof {
                assert(list[k as int].1 == cols@[k as int].1@);
                assert(list[k as int].0 == path_view(cols@[k as int].0@));
            }
            if !check_col(&cols[k].1) {
                return None;
            }
            let d = cols[k].1.indexes.len();
            let na = count_arrays(&cols[k].0);
            proof {
                assert(cols@[k as int].1@.indexes.len() == cols[k as int].1.indexes@.len());
            }
            if d == 0 || d - 1 != na {
                return None;
            }
            k = k + 1;
        }
        if m > 1 {
            let mut k2: usize = 0;
            while k2 < m - 1
                invariant
                    0 <= k2 <= m - 1,
                    m == cols@.len(),
                    m >= 1,
                    forall|j: int|
                        0 <= j < k2 ==> crate::columnar::path_lt(
                            (#[trigger] list[j]).0,
                            list[j + 1].0,
                        ),
                decreases m - k2,
            {
                let o = crate::columnar::path_compare(
                    cols[k2].0.as_slice(),
                    cols[k2 + 1].0.as_slice(),
                );
                if !matches!(o, crate::text::Order::Less) {
                    proof {
                        assert(list[k2 as int].0 == path_view(cols@[k2 as int].0@));
                        assert(list[k2 as int + 1].0 == path_view(cols@[k2 as int + 1].0@));
                    }
                    return None;
                }
                proof {
                    assert(list[k2 as int].0 == path_view(cols@[k2 as int].0@));
                    assert(list[k2 as int + 1].0 == path_view(cols@[k2 as int + 1].0@));
                }
                k2 = k2 + 1;
            }
        }
        proof {
            assert forall|a: int, j: int| 0 <= a < j < list.len() implies crate::columnar::path_lt(
                (#[trigger] list[a]).0,
                (#[trigger] list[j]).0,
            ) by {
                lemma_lt_span(list, a, j);
            }
            assert(list_valid(list));
        }
        let st = Stripe { columns: cols, count: count };
        proof {
            assert forall|a: int| 0 <= a < st.columns@.len() implies (
            #[trigger] st.columns@[a]).1@.wf() by {
                assert(list[a].1 == st.columns@[a].1@);
            }
            assert forall|a: int, j: int| 0 <= a < j < st.columns@.len() implies
                crate::columnar::path_lt(
                path_view((#[trigger] st.columns@[a]).0@),
                path_view((#[trigger] st.columns@[j]).0@),
            ) by {
                assert(list[a].0 == path_view(st.columns@[a].0@));
                assert(list[j].0 == path_view(st.columns@[j].0@));
            }
            assert forall|a: int| 0 <= a < st.columns@.len() implies (
            #[trigger] st.columns@[a]).1@.indexes.len() == 1 + crate::columnar::arrays_in(
                path_view(st.columns@[a].0@),
            ) by {
                assert(list[a].1 == st.columns@[a].1@);
                assert(list[a].0 == path_view(st.columns@[a].0@));
            }
            assert(st.wf());
        }
        Some(st)
    }
}


/// The column list of a well-formed stripe is exactly what the decoder
/// accepts; together with [`law_codec_round_trip`] and the contracts of
/// [`Stripe::encode`] and [`Stripe::decode`], framing a well-formed stripe
/// and reading the frame back always succeeds and gives back the same
/// paths, the same per-column contents and the same row count.
pub proof fn law_stripe_frame_round_trip(st: Stripe)
    requires
        st.wf(),
        entries_ok(pairs_view(st.columns@)),
        int_ok(st@.count),
    ensures
        parse_stripe(stripe_bytes(pairs_view(st.columns@), st@.count)) == Some(
            (pairs_view(st.columns@), st@.count),
        ),
        list_valid(pairs_view(st.columns@)),
{
    let list = pairs_view(st.columns@);
    law_codec_round_trip(list, st@.count);
    assert forall|i: int, j: int| 0 <= i < j < list.len() implies crate::columnar::path_lt(
        (#[trigger] list[i]).0,
        (#[trigger] list[j]).0,
    ) by {
        assert(list[i].0 == path_view(st.columns@[i].0@));
        assert(list[j].0 == path_view(st.columns@[j].0@));
    }
    assert forall|i: int| 0 <= i < list.len() implies (#[trigger] list[i]).1.wf() by {
        assert(list[i].1 == st.columns@[i].1@);
    }
    assert forall|i: int| 0 <= i < list.len() implies (#[trigger] list[i]).1.indexes.len() == 1
        + crate::columnar::arrays_in(list[i].0) by {
        assert(list[i].1 == st.columns@[i].1@);
        assert(list[i].0 == path_view(st.columns@[i].0@));
    }
}

} // verus!
