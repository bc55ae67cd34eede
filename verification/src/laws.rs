//! The library's laws: what holds of every stripe, every column and every
//! push, stated over the mathematical models and proved once and for all.

use crate::columnar::column::{
    col_append, upcast_data, ColumnModel, DataModel, EntryModel,
};
use crate::columnar::{
    arrays_in, lemma_arrays_in_push, shred, shred_elems, shred_fields, stripe_push, StripeModel,
};
use crate::datum::{Datum, InternalType};
use crate::fbits::f64_bits_of;
use vstd::prelude::*;

verus! {

/// How far along the widening lattice a representation sits: dataless,
/// then the numeric chain, then every other concrete type, then the
/// terminal union.
pub open spec fn type_rank(t: InternalType) -> int {
    match t {
        InternalType::Null => 0,
        InternalType::TinyInt => 1,
        InternalType::SmallInt => 2,
        InternalType::Float => 3,
        InternalType::Bool => 3,
        InternalType::String => 3,
        InternalType::Object => 3,
        InternalType::Array => 3,
        InternalType::Union => 4,
        InternalType::Missing => 0,
    }
}

/// A column's type only ever widens: appending keeps the representation
/// or moves it strictly up the lattice, and a union, once reached, is
/// terminal.
pub proof fn law_upcast_monotone(c: ColumnModel, d: Datum, idx: Seq<u32>)
    ensures
        type_rank(col_append(c, d, idx).data.type_of()) >= type_rank(c.data.type_of()),
        col_append(c, d, idx).data.type_of() == c.data.type_of() || type_rank(
            col_append(c, d, idx).data.type_of(),
        ) > type_rank(c.data.type_of()),
        c.data is Union ==> col_append(c, d, idx).data is Union,
{
}

/// How one logical entry appears after its column widens to kind `t`:
/// narrow integers re-encode exactly along the numeric chain (or into the
/// union's float tag); every other entry is untouched.
pub open spec fn widen_entry(e: EntryModel, t: InternalType) -> EntryModel {
    match e {
        EntryModel::TinyInt(x) => match t {
            InternalType::TinyInt => e,
            InternalType::SmallInt => EntryModel::SmallInt(x as i16),
            _ => EntryModel::Float(f64_bits_of(x as int)),
        },
        EntryModel::SmallInt(x) => match t {
            InternalType::SmallInt => e,
            _ => EntryModel::Float(f64_bits_of(x as int)),
        },
        _ => e,
    }
}

/// The raw logical form of one datum, before any widening: scalars by
/// value, containers by their size.
pub open spec fn raw_entry_of(d: Datum) -> EntryModel {
    match d {
        Datum::Null => EntryModel::Null,
        Datum::Missing => EntryModel::Null,
        Datum::Float(b) => EntryModel::Float(b),
        Datum::TinyInt(x) => EntryModel::TinyInt(x),
        Datum::SmallInt(x) => EntryModel::SmallInt(x),
        Datum::Bool(b) => EntryModel::Bool(b),
        Datum::String(s) => EntryModel::String(s@),
        Datum::Array(v) => EntryModel::Array(v@.len() as int),
        Datum::Object(v) => EntryModel::Object(v@.len() as int),
    }
}

/// Appending never disturbs what a consumer reads of the entries already
/// present: a null entry stays null whatever filler sits in its slot, and
/// a value entry is preserved exactly, up to the lattice's own numeric
/// widening.  In particular the union fallback re-encodes every existing
/// entry faithfully.
pub proof fn law_append_preserves_reads(c: ColumnModel, d: Datum, idx: Seq<u32>, i: int)
    requires
        c.wf(),
        !(d is Missing),
        idx.len() == c.indexes.len(),
        0 <= i < c.len(),
    ensures
        col_append(c, d, idx).read(i) == widen_entry(
            c.read(i),
            col_append(c, d, idx).data.type_of(),
        ),
{
    let c2 = col_append(c, d, idx);
    let data1 = upcast_data(c.data, d.spec_internal_type(), c.nulls);
    assert(c2.nulls[i] == c.nulls[i]);
    match c.data {
        DataModel::String(buf, offs) => {
            if !c.nulls[i] {
                match c2.data {
                    DataModel::String(buf2, offs2) => {
                        assert(buf2.subrange(
                            crate::columnar::column::str_start(offs2, i),
                            offs2[i],
                        ) =~= buf.subrange(crate::columnar::column::str_start(offs, i), offs[i]));
                    },
                    DataModel::Union(_) => {
                    },
                    _ => {},
                }
            }
        },
        _ => {},
    }
}

/// What the entry appended for `d` reads as: null for an explicit null
/// (never the filler), and otherwise exactly the datum's logical form,
/// widened only as the lattice demands.
pub proof fn law_append_new_read(c: ColumnModel, d: Datum, idx: Seq<u32>)
    requires
        c.wf(),
        !(d is Missing),
        idx.len() == c.indexes.len(),
    ensures
        col_append(c, d, idx).read(c.len() as int) == widen_entry(
            raw_entry_of(d),
            col_append(c, d, idx).data.type_of(),
        ),
{
    let c2 = col_append(c, d, idx);
    let i = c.len() as int;
    let data1 = upcast_data(c.data, d.spec_internal_type(), c.nulls);
    match (data1, d) {
        (DataModel::String(buf, offs), Datum::String(s)) => {
            match c2.data {
                DataModel::String(buf2, offs2) => {
                    assert(offs.len() == i);
                    assert(crate::columnar::column::str_start(offs2, i) == buf.len()) by {
                        if i > 0 {
                            assert(offs[i - 1] == buf.len());
                        }
                    }
                    assert(buf2.subrange(buf.len() as int, offs2[i]) =~= s@);
                },
                _ => {
                    assert(false);
                },
            }
        },
        _ => {},
    }
}

/// Alignment: ingesting any record leaves every column of the stripe with
/// its index buffers, null bitmap and payload of equal length, and each
/// column's depth matching its path.
pub proof fn law_push_alignment(s: StripeModel, d: Datum)
    requires
        s.wf(),
    ensures
        stripe_push(s, d).wf(),
{
    lemma_shred_wf(s.columns, d, Seq::empty(), seq![s.count as u32]);
}

/// Ingesting a missing value creates no column, changes no column, and
/// pads nothing; only the row counter moves.
pub proof fn law_missing_invisible(s: StripeModel, d: Datum)
    requires
        d is Missing,
    ensures
        stripe_push(s, d).columns == s.columns,
        stripe_push(s, d).count == s.count + 1,
{
}

/// Shredding preserves every column's alignment and depth.
pub proof fn lemma_shred_wf(
    m: Map<Seq<crate::columnar::PathCompModel>, ColumnModel>,
    d: Datum,
    p: Seq<crate::columnar::PathCompModel>,
    idx: Seq<u32>,
)
    requires
        forall|q: Seq<crate::columnar::PathCompModel>|
            m.contains_key(q) ==> (#[trigger] m[q]).wf(),
        forall|q: Seq<crate::columnar::PathCompModel>| #[trigger]
            m.contains_key(q) ==> m[q].indexes.len() == 1 + arrays_in(q),
        idx.len() == 1 + arrays_in(p),
    ensures
        forall|q: Seq<crate::columnar::PathCompModel>|
            shred(m, d, p, idx).contains_key(q) ==> (#[trigger] shred(m, d, p, idx)[q]).wf(),
        forall|q: Seq<crate::columnar::PathCompModel>| #[trigger]
            shred(m, d, p, idx).contains_key(q) ==> shred(m, d, p, idx)[q].indexes.len() == 1
                + arrays_in(q),
    decreases d, 0int, 0int,
{
    if d is Missing {
    } else {
        let c0 = if m.contains_key(p) {
            m[p]
        } else {
            ColumnModel::empty(idx.len() as nat)
        };
        crate::columnar::lemma_arrays_in_nonneg(p);
        crate::columnar::column::lemma_col_append_wf(c0, d, idx);
        let m1 = m.insert(p, col_append(c0, d, idx));
        match d {
            Datum::Object(fields) => {
                lemma_shred_fields_wf(m1, fields@, 0, p, idx);
            },
            Datum::Array(elems) => {
                lemma_arrays_in_push(p, crate::columnar::PathCompModel::Array);
                lemma_shred_elems_wf(m1, elems@, 0, p.push(crate::columnar::PathCompModel::Array), idx);
            },
            _ => {},
        }
    }
}

/// Shredding a run of object fields preserves every column's alignment
/// and depth.
pub proof fn lemma_shred_fields_wf(
    m: Map<Seq<crate::columnar::PathCompModel>, ColumnModel>,
    fields: Seq<(String, Datum)>,
    i: int,
    p: Seq<crate::columnar::PathCompModel>,
    idx: Seq<u32>,
)
    requires
        forall|q: Seq<crate::columnar::PathCompModel>|
            m.contains_key(q) ==> (#[trigger] m[q]).wf(),
        forall|q: Seq<crate::columnar::PathCompModel>| #[trigger]
            m.contains_key(q) ==> m[q].indexes.len() == 1 + arrays_in(q),
        idx.len() == 1 + arrays_in(p),
    ensures
        forall|q: Seq<crate::columnar::PathCompModel>|
            shred_fields(m, fields, i, p, idx).contains_key(q) ==> (#[trigger] shred_fields(
                m,
                fields,
                i,
                p,
                idx,
            )[q]).wf(),
        forall|q: Seq<crate::columnar::PathCompModel>| #[trigger]
            shred_fields(m, fields, i, p, idx).contains_key(q) ==> shred_fields(
                m,
                fields,
                i,
                p,
                idx,
            )[q].indexes.len() == 1 + arrays_in(q),
    decreases fields, 1int, fields.len() - i,
{
    if 0 <= i < fields.len() {
        let pk = p.push(crate::columnar::PathCompModel::Key(fields[i].0@));
        lemma_arrays_in_push(p, crate::columnar::PathCompModel::Key(fields[i].0@));
        lemma_shred_wf(m, fields[i].1, pk, idx);
        lemma_shred_fields_wf(shred(m, fields[i].1, pk, idx), fields, i + 1, p, idx);
    }
}

/// Shredding a run of array elements preserves every column's alignment
/// and depth.
pub proof fn lemma_shred_elems_wf(
    m: Map<Seq<crate::columnar::PathCompModel>, ColumnModel>,
    elems: Seq<Datum>,
    i: int,
    p: Seq<crate::columnar::PathCompModel>,
    idx: Seq<u32>,
)
    requires
        forall|q: Seq<crate::columnar::PathCompModel>|
            m.contains_key(q) ==> (#[trigger] m[q]).wf(),
        forall|q: Seq<crate::columnar::PathCompModel>| #[trigger]
            m.contains_key(q) ==> m[q].indexes.len() == 1 + arrays_in(q),
        idx.len() == arrays_in(p),
    ensures
        forall|q: Seq<crate::columnar::PathCompModel>|
            shred_elems(m, elems, i, p, idx).contains_key(q) ==> (#[trigger] shred_elems(
                m,
                elems,
                i,
                p,
                idx,
            )[q]).wf(),
        forall|q: Seq<crate::columnar::PathCompModel>| #[trigger]
            shred_elems(m, elems, i, p, idx).contains_key(q) ==> shred_elems(
                m,
                elems,
                i,
                p,
                idx,
            )[q].indexes.len() == 1 + arrays_in(q),
    decreases elems, 1int, elems.len() - i,
{
    if 0 <= i < elems.len() {
        lemma_shred_wf(m, elems[i], p, idx.push(i as u32));
        lemma_shred_elems_wf(shred(m, elems[i], p, idx.push(i as u32)), elems, i + 1, p, idx);
    }
}


/// One path is a prefix of another.
pub open spec fn is_prefix(p: Seq<crate::columnar::PathCompModel>, q: Seq<crate::columnar::PathCompModel>) -> bool {
    p.len() <= q.len() && q.subrange(0, p.len() as int) == p
}

/// A prefix one component longer is still a prefix.
proof fn lemma_prefix_push(
    p: Seq<crate::columnar::PathCompModel>,
    c: crate::columnar::PathCompModel,
    q: Seq<crate::columnar::PathCompModel>,
)
    requires
        is_prefix(p.push(c), q),
    ensures
        is_prefix(p, q),
        q.len() > p.len(),
        q[p.len() as int] == c,
{
    assert(q.subrange(0, p.len() as int) =~= p) by {
        assert forall|j: int| 0 <= j < p.len() implies q.subrange(0, p.len() as int)[j] == p[j]
            by {
            assert(q.subrange(0, (p.len() + 1) as int)[j] == p.push(c)[j]);
        }
    }
    assert(q.subrange(0, (p.len() + 1) as int)[p.len() as int] == p.push(c)[p.len() as int]);
}

/// Shredding at `p` touches no column whose path does not extend `p`.
pub proof fn lemma_shred_frame(
    m: Map<Seq<crate::columnar::PathCompModel>, ColumnModel>,
    d: Datum,
    p: Seq<crate::columnar::PathCompModel>,
    idx: Seq<u32>,
    q: Seq<crate::columnar::PathCompModel>,
)
    requires
        !is_prefix(p, q),
    ensures
        shred(m, d, p, idx).contains_key(q) == m.contains_key(q),
        m.contains_key(q) ==> shred(m, d, p, idx)[q] == m[q],
    decreases d, 0int, 0int,
{
    if d is Missing {
    } else {
        assert(p != q) by {
            if p == q {
                assert(q.subrange(0, p.len() as int) =~= p);
            }
        }
        let c0 = if m.contains_key(p) {
            m[p]
        } else {
            ColumnModel::empty(idx.len() as nat)
        };
        let m1 = m.insert(p, col_append(c0, d, idx));
        match d {
            Datum::Object(fields) => {
                lemma_shred_fields_frame(m1, fields@, 0, p, idx, q);
            },
            Datum::Array(elems) => {
                let p1 = p.push(crate::columnar::PathCompModel::Array);
                assert(!is_prefix(p1, q)) by {
                    if is_prefix(p1, q) {
                        lemma_prefix_push(p, crate::columnar::PathCompModel::Array, q);
                    }
                }
                lemma_shred_elems_frame(m1, elems@, 0, p1, idx, q);
            },
            _ => {},
        }
    }
}

/// Shredding object fields under `p` touches no column whose path is not
/// a strict extension of `p`.
pub proof fn lemma_shred_fields_frame(
    m: Map<Seq<crate::columnar::PathCompModel>, ColumnModel>,
    fields: Seq<(String, Datum)>,
    i: int,
    p: Seq<crate::columnar::PathCompModel>,
    idx: Seq<u32>,
    q: Seq<crate::columnar::PathCompModel>,
)
    requires
        !(is_prefix(p, q) && q.len() > p.len()),
    ensures
        shred_fields(m, fields, i, p, idx).contains_key(q) == m.contains_key(q),
        m.contains_key(q) ==> shred_fields(m, fields, i, p, idx)[q] == m[q],
    decreases fields, 1int, fields.len() - i,
{
    if 0 <= i < fields.len() {
        let pk = p.push(crate::columnar::PathCompModel::Key(fields[i].0@));
        assert(!is_prefix(pk, q)) by {
            if is_prefix(pk, q) {
                lemma_prefix_push(p, crate::columnar::PathCompModel::Key(fields[i].0@), q);
            }
        }
        lemma_shred_frame(m, fields[i].1, pk, idx, q);
        lemma_shred_fields_frame(shred(m, fields[i].1, pk, idx), fields, i + 1, p, idx, q);
    }
}

/// Shredding array elements at `p1` touches no column whose path does not
/// extend `p1`.
pub proof fn lemma_shred_elems_frame(
    m: Map<Seq<crate::columnar::PathCompModel>, ColumnModel>,
    elems: Seq<Datum>,
    i: int,
    p1: Seq<crate::columnar::PathCompModel>,
    idx: Seq<u32>,
    q: Seq<crate::columnar::PathCompModel>,
)
    requires
        !is_prefix(p1, q),
    ensures
        shred_elems(m, elems, i, p1, idx).contains_key(q) == m.contains_key(q),
        m.contains_key(q) ==> shred_elems(m, elems, i, p1, idx)[q] == m[q],
    decreases elems, 1int, elems.len() - i,
{
    if 0 <= i < elems.len() {
        lemma_shred_frame(m, elems[i], p1, idx.push(i as u32), q);
        lemma_shred_elems_frame(shred(m, elems[i], p1, idx.push(i as u32)), elems, i + 1, p1, idx, q);
    }
}

/// Shredding a datum at `p` appends exactly that datum to the column at
/// `p` itself; the recursion into children writes only deeper.
pub proof fn lemma_shred_at(
    m: Map<Seq<crate::columnar::PathCompModel>, ColumnModel>,
    d: Datum,
    p: Seq<crate::columnar::PathCompModel>,
    idx: Seq<u32>,
)
    requires
        !(d is Missing),
    ensures
        shred(m, d, p, idx).contains_key(p),
        shred(m, d, p, idx)[p] == col_append(
            if m.contains_key(p) {
                m[p]
            } else {
                ColumnModel::empty(idx.len() as nat)
            },
            d,
            idx,
        ),
{
    let c0 = if m.contains_key(p) {
        m[p]
    } else {
        ColumnModel::empty(idx.len() as nat)
    };
    let m1 = m.insert(p, col_append(c0, d, idx));
    match d {
        Datum::Object(fields) => {
            lemma_shred_fields_frame(m1, fields@, 0, p, idx, p);
        },
        Datum::Array(elems) => {
            let p1 = p.push(crate::columnar::PathCompModel::Array);
            assert(!is_prefix(p1, p));
            lemma_shred_elems_frame(m1, elems@, 0, p1, idx, p);
        },
        _ => {},
    }
}

/// The depth-one path of a key.
pub open spec fn key_path(k: Seq<char>) -> Seq<crate::columnar::PathCompModel> {
    seq![crate::columnar::PathCompModel::Key(k)]
}

/// Shredding a run of object fields at the root writes the column at
/// `key_path(k)` exactly once, with the value of the field whose key is
/// `k`, and not at all when no field carries `k`.
proof fn lemma_fields_key_effect(
    m: Map<Seq<crate::columnar::PathCompModel>, ColumnModel>,
    fields: Seq<(String, Datum)>,
    i: int,
    idx: Seq<u32>,
    k: Seq<char>,
)
    requires
        crate::datum::keys_distinct(fields),
        0 <= i,
    ensures
        ({
            let kp = key_path(k);
            let out = shred_fields(m, fields, i, Seq::empty(), idx);
            match crate::datum::field_lookup(fields, k, i) {
                Some(child) => if child is Missing {
                    &&& out.contains_key(kp) == m.contains_key(kp)
                    &&& m.contains_key(kp) ==> out[kp] == m[kp]
                } else {
                    &&& out.contains_key(kp)
                    &&& out[kp] == col_append(
                        if m.contains_key(kp) {
                            m[kp]
                        } else {
                            ColumnModel::empty(idx.len() as nat)
                        },
                        child,
                        idx,
                    )
                },
                None => {
                    &&& out.contains_key(kp) == m.contains_key(kp)
                    &&& m.contains_key(kp) ==> out[kp] == m[kp]
                },
            }
        }),
    decreases fields.len() - i,
{
    let kp = key_path(k);
    if i < fields.len() {
        let pk = Seq::empty().push(
            crate::columnar::PathCompModel::Key(fields[i].0@),
        );
        let m1 = shred(m, fields[i].1, pk, idx);
        if fields[i].0@ == k {
            assert(pk =~= kp);
            if fields[i].1 is Missing {
                assert(m1 == m);
            } else {
                lemma_shred_at(m, fields[i].1, pk, idx);
            }
            assert(crate::datum::field_lookup(fields, k, i + 1) is None) by {
                lemma_lookup_none_when_absent(fields, k, i + 1);
            }
            lemma_fields_key_effect(m1, fields, i + 1, idx, k);
        } else {
            assert(!is_prefix(pk, kp)) by {
                if is_prefix(pk, kp) {
                    assert(kp.subrange(0, 1) =~= seq![kp[0]]);
                    assert(pk =~= seq![pk[0]]);
                    assert(kp[0] == pk[0]);
                }
            }
            lemma_shred_frame(m, fields[i].1, pk, idx, kp);
            lemma_fields_key_effect(m1, fields, i + 1, idx, k);
        }
    }
}

/// When keys are distinct and `k` sits at or before `i`, no later field
/// carries `k`.
proof fn lemma_lookup_none_when_absent(fields: Seq<(String, Datum)>, k: Seq<char>, i: int)
    requires
        crate::datum::keys_distinct(fields),
        0 <= i,
        exists|j: int| 0 <= j < i && j < fields.len() && (#[trigger] fields[j].0)@ == k,
    ensures
        crate::datum::field_lookup(fields, k, i) is None,
    decreases fields.len() - i,
{
    if i < fields.len() {
        let j = choose|j: int| 0 <= j < i && j < fields.len() && (#[trigger] fields[j].0)@ == k;
        assert(fields[i].0@ != k);
        lemma_lookup_none_when_absent(fields, k, i + 1);
    }
}

/// Ingesting one record writes the column at `key_path(k)` exactly when
/// the record is an object that carries `k` with a non-missing value, and
/// then appends exactly that value.
pub proof fn lemma_push_key(
    m: Map<Seq<crate::columnar::PathCompModel>, ColumnModel>,
    d: Datum,
    idx: Seq<u32>,
    k: Seq<char>,
)
    requires
        d.wf(),
    ensures
        ({
            let kp = key_path(k);
            let out = shred(m, d, Seq::empty(), idx);
            match d.spec_get_key(k) {
                Some(child) => if child is Missing {
                    &&& out.contains_key(kp) == m.contains_key(kp)
                    &&& m.contains_key(kp) ==> out[kp] == m[kp]
                } else {
                    &&& out.contains_key(kp)
                    &&& out[kp] == col_append(
                        if m.contains_key(kp) {
                            m[kp]
                        } else {
                            ColumnModel::empty(idx.len() as nat)
                        },
                        child,
                        idx,
                    )
                },
                None => {
                    &&& out.contains_key(kp) == m.contains_key(kp)
                    &&& m.contains_key(kp) ==> out[kp] == m[kp]
                },
            }
        }),
{
    let kp = key_path(k);
    if d is Missing {
    } else {
        let p = Seq::<crate::columnar::PathCompModel>::empty();
        let c0 = if m.contains_key(p) {
            m[p]
        } else {
            ColumnModel::empty(idx.len() as nat)
        };
        let m1 = m.insert(p, col_append(c0, d, idx));
        assert(p != kp) by {
            assert(kp.len() == 1);
            assert(p.len() == 0);
        }
        match d {
            Datum::Object(fields) => {
                lemma_fields_key_effect(m1, fields@, 0, idx, k);
            },
            Datum::Array(elems) => {
                let p1 = p.push(crate::columnar::PathCompModel::Array);
                assert(!is_prefix(p1, kp)) by {
                    if is_prefix(p1, kp) {
                        assert(kp.subrange(0, 1) =~= seq![kp[0]]);
                        assert(p1 =~= seq![p1[0]]);
                        assert(kp[0] == p1[0]);
                    }
                }
                lemma_shred_elems_frame(m1, elems@, 0, p1, idx, kp);
            },
            _ => {},
        }
    }
}


/// The numeric chain: the representations a column passes through while
/// only numbers and explicit nulls arrive at its path.
pub open spec fn numeric_chain(d: DataModel) -> bool {
    d is Null || d is TinyInt || d is SmallInt || d is Float
}

/// The widened double a consumer extracts from one entry, honouring the
/// null bitmap.
pub open spec fn opt_f64_of_entry(e: EntryModel) -> Option<u64> {
    match e {
        EntryModel::Null => None,
        EntryModel::TinyInt(x) => Some(f64_bits_of(x as int)),
        EntryModel::SmallInt(x) => Some(f64_bits_of(x as int)),
        EntryModel::Float(b) => Some(b),
        _ => None,
    }
}

/// Column-wise aggregation input: every entry, read through the null
/// bitmap, as the double it widens to.
pub open spec fn column_f64s(c: ColumnModel) -> Seq<Option<u64>> {
    Seq::new(c.len(), |i: int| opt_f64_of_entry(c.read(i)))
}

/// The column at a path, read as aggregation input; an absent column
/// contributes nothing.
pub open spec fn column_f64s_at(
    m: Map<Seq<crate::columnar::PathCompModel>, ColumnModel>,
    kp: Seq<crate::columnar::PathCompModel>,
) -> Seq<Option<u64>> {
    if m.contains_key(kp) {
        column_f64s(m[kp])
    } else {
        Seq::empty()
    }
}

/// Row-wise aggregation input: one value per record that carries the
/// field at all, null or number exactly as it came.
pub open spec fn rows_f64s(rows: Seq<Datum>, k: Seq<char>) -> Seq<Option<u64>>
    decreases rows.len(),
{
    if rows.len() == 0 {
        Seq::empty()
    } else {
        let rest = rows_f64s(rows.drop_last(), k);
        match rows.last().spec_get_key(k) {
            Some(c) => rest.push(c.spec_as_f64()),
            None => rest,
        }
    }
}

/// Whether a record's value under `k`, if any, is a number or an explicit
/// null.
pub open spec fn numeric_field(d: Datum, k: Seq<char>) -> bool {
    match d.spec_get_key(k) {
        Some(c) => c is TinyInt || c is SmallInt || c is Float || c is Null,
        None => true,
    }
}

/// A whole batch of records, ingested in order.
pub open spec fn push_rows(s: StripeModel, rows: Seq<Datum>) -> StripeModel
    decreases rows.len(),
{
    if rows.len() == 0 {
        s
    } else {
        stripe_push(push_rows(s, rows.drop_last()), rows.last())
    }
}

/// Appending a number or null to a numeric-chain column keeps the chain
/// and extends the aggregation input by exactly that value.
proof fn lemma_numeric_append(c: ColumnModel, d: Datum, idx: Seq<u32>)
    requires
        c.wf(),
        numeric_chain(c.data),
        idx.len() == c.indexes.len(),
        d is TinyInt || d is SmallInt || d is Float || d is Null,
    ensures
        numeric_chain(col_append(c, d, idx).data),
        col_append(c, d, idx).len() == c.len() + 1,
        column_f64s(col_append(c, d, idx)) == column_f64s(c).push(d.spec_as_f64()),
{
    let c2 = col_append(c, d, idx);
    crate::columnar::column::lemma_col_append_wf(c, d, idx);
    assert forall|i: int| 0 <= i < c.len() implies column_f64s(c2)[i] == column_f64s(c)[i] by {
        law_append_preserves_reads(c, d, idx, i);
    }
    law_append_new_read(c, d, idx);
    assert(column_f64s(c2) =~= column_f64s(c).push(d.spec_as_f64()));
}

/// Row/columnar equivalence: aggregating one numeric field over the rows
/// directly, and over the column the stripe built for it, read the very
/// same sequence of values — the same numbers, the same nulls, the same
/// skipped records — whatever mix of present, absent and null values the
/// rows carry.
pub proof fn law_row_columnar_equivalence(s0: StripeModel, rows: Seq<Datum>, k: Seq<char>)
    requires
        s0.wf(),
        s0.columns.contains_key(key_path(k)) ==> numeric_chain(
            s0.columns[key_path(k)].data,
        ),
        forall|i: int| 0 <= i < rows.len() ==> (#[trigger] rows[i]).wf(),
        forall|i: int| 0 <= i < rows.len() ==> numeric_field(#[trigger] rows[i], k),
    ensures
        push_rows(s0, rows).wf(),
        push_rows(s0, rows).columns.contains_key(key_path(k)) ==> numeric_chain(
            push_rows(s0, rows).columns[key_path(k)].data,
        ),
        column_f64s_at(push_rows(s0, rows).columns, key_path(k)) == column_f64s_at(
            s0.columns,
            key_path(k),
        ) + rows_f64s(rows, k),
    decreases rows.len(),
{
    let kp = key_path(k);
    if rows.len() == 0 {
        assert(column_f64s_at(s0.columns, kp) + rows_f64s(rows, k) =~= column_f64s_at(
            s0.columns,
            kp,
        ));
    } else {
        let prev = rows.drop_last();
        let last = rows.last();
        assert forall|i: int| 0 <= i < prev.len() implies (#[trigger] prev[i]).wf()
            && numeric_field(prev[i], k) by {
            assert(prev[i] == rows[i]);
        }
        law_row_columnar_equivalence(s0, prev, k);
        let mid = push_rows(s0, prev);
        let idx = seq![mid.count as u32];
        law_push_alignment(mid, last);
        assert(last.wf() && numeric_field(last, k)) by {
            assert(rows[rows.len() - 1] == last);
        }
        lemma_push_key(mid.columns, last, idx, k);
        let out = stripe_push(mid, last);
        assert(arrays_in(kp) == 0) by {
            assert(kp.len() == 1);
            assert(kp.last() == crate::columnar::PathCompModel::Key(k));
            assert(kp.drop_last() =~= Seq::<crate::columnar::PathCompModel>::empty());
            assert(arrays_in(Seq::<crate::columnar::PathCompModel>::empty()) == 0);
        }
        match last.spec_get_key(k) {
            Some(child) => {
                let c0 = if mid.columns.contains_key(kp) {
                    mid.columns[kp]
                } else {
                    ColumnModel::empty(1)
                };
                assert(c0.wf() && numeric_chain(c0.data) && c0.indexes.len() == 1) by {
                    if mid.columns.contains_key(kp) {
                        assert(mid.columns[kp].wf());
                        assert(mid.columns[kp].indexes.len() == 1 + arrays_in(kp));
                    } else {
                        assert(ColumnModel::empty(1).indexes.len() == 1);
                    }
                }
                lemma_numeric_append(c0, child, idx);
                assert(out.columns[kp] == col_append(c0, child, idx));
                assert(column_f64s_at(out.columns, kp) == column_f64s_at(mid.columns, kp).push(
                    child.spec_as_f64(),
                )) by {
                    if !mid.columns.contains_key(kp) {
                        assert(column_f64s(c0) =~= Seq::<Option<u64>>::empty());
                    }
                }
                assert(rows_f64s(rows, k) == rows_f64s(prev, k).push(child.spec_as_f64()));
                assert(column_f64s_at(out.columns, kp) =~= column_f64s_at(s0.columns, kp)
                    + rows_f64s(rows, k));
            },
            None => {
                assert(rows_f64s(rows, k) == rows_f64s(prev, k));
                assert(column_f64s_at(out.columns, kp) == column_f64s_at(mid.columns, kp));
                assert(column_f64s_at(out.columns, kp) =~= column_f64s_at(s0.columns, kp)
                    + rows_f64s(rows, k));
            },
        }
    }
}

} // verus!
