//! The columnar store: paths, their total order, and the stripe that
//! shreds incoming records into per-path columns.

pub mod column;

use crate::columnar::column::{
    col_append, lemma_col_append_wf, Column, ColumnModel,
};
use crate::datum::Datum;
use crate::text::{lemma_str_lt_total, lemma_str_lt_trans, str_compare, str_lt, Order};
use vstd::prelude::*;

verus! {

/// A segment of a path to a node: a named object key, or one level of
/// array nesting (element positions are not part of the path; they go to
/// the index buffers).
#[derive(Debug)]
pub enum PathComponent {
    Key(String),
    Array,
}

/// A path to a node.
pub type Path = Vec<PathComponent>;

/// The mathematical view of a path component.
pub enum PathCompModel {
    Key(Seq<char>),
    Array,
}

impl View for PathComponent {
    type V = PathCompModel;

    open spec fn view(&self) -> PathCompModel {
        match self {
            PathComponent::Key(s) => PathCompModel::Key(s@),
            PathComponent::Array => PathCompModel::Array,
        }
    }
}

/// A path, as the sequence of its components' views.
pub open spec fn path_view(p: Seq<PathComponent>) -> Seq<PathCompModel> {
    Seq::new(p.len(), |i: int| p[i]@)
}

/// The component order: keys before the array marker, keys among
/// themselves by their characters.
pub open spec fn comp_lt(a: PathCompModel, b: PathCompModel) -> bool {
    match (a, b) {
        (PathCompModel::Key(x), PathCompModel::Key(y)) => str_lt(x, y),
        (PathCompModel::Key(_), PathCompModel::Array) => true,
        (PathCompModel::Array, _) => false,
    }
}

/// Strict component-wise order on the path components at positions `i`
/// and beyond; a strict prefix precedes every extension of it.
pub open spec fn path_lt_from(p: Seq<PathCompModel>, q: Seq<PathCompModel>, i: int) -> bool
    decreases q.len() - i,
{
    if i >= q.len() {
        false
    } else if i >= p.len() {
        true
    } else if p[i] != q[i] {
        comp_lt(p[i], q[i])
    } else {
        path_lt_from(p, q, i + 1)
    }
}

/// The total order on paths: component-wise, stable, and the order in
/// which columns are kept and persisted.
pub open spec fn path_lt(p: Seq<PathCompModel>, q: Seq<PathCompModel>) -> bool {
    path_lt_from(p, q, 0)
}

/// The component order is total and asymmetric.
pub proof fn lemma_comp_lt_total(a: PathCompModel, b: PathCompModel)
    ensures
        comp_lt(a, b) || comp_lt(b, a) || a == b,
        !(comp_lt(a, b) && comp_lt(b, a)),
{
    match (a, b) {
        (PathCompModel::Key(x), PathCompModel::Key(y)) => {
            lemma_str_lt_total(x, y);
        },
        _ => {},
    }
}

/// While two paths agree on a prefix, the order is decided by the rest.
pub proof fn lemma_path_lt_skip_prefix(p: Seq<PathCompModel>, q: Seq<PathCompModel>, i: int)
    requires
        0 <= i <= p.len(),
        i <= q.len(),
        forall|j: int| 0 <= j < i ==> p[j] == q[j],
    ensures
        path_lt(p, q) == path_lt_from(p, q, i),
    decreases i,
{
    if i > 0 {
        lemma_path_lt_skip_prefix(p, q, i - 1);
        assert(p[i - 1] == q[i - 1]);
    }
}

/// The path order is total and asymmetric, position by position.
pub proof fn lemma_path_lt_total_from(p: Seq<PathCompModel>, q: Seq<PathCompModel>, i: int)
    requires
        0 <= i <= p.len(),
        i <= q.len(),
    ensures
        path_lt_from(p, q, i) || path_lt_from(q, p, i) || (p.len() == q.len() && forall|j: int|
            i <= j < p.len() ==> p[j] == q[j]),
        !(path_lt_from(p, q, i) && path_lt_from(q, p, i)),
    decreases p.len() + q.len() - 2 * i,
{
    if i < p.len() && i < q.len() {
        if p[i] != q[i] {
            lemma_comp_lt_total(p[i], q[i]);
        } else {
            lemma_path_lt_total_from(p, q, i + 1);
        }
    }
}

/// Totality of [`path_lt`]: two paths compare strictly one way, strictly
/// the other way, or are equal, and never more than one of these.
pub proof fn lemma_path_lt_total(p: Seq<PathCompModel>, q: Seq<PathCompModel>)
    ensures
        path_lt(p, q) || path_lt(q, p) || p == q,
        !(path_lt(p, q) && path_lt(q, p)),
        path_lt(p, q) ==> p != q,
{
    lemma_path_lt_total_from(p, q, 0);
    if !path_lt(p, q) && !path_lt(q, p) {
        assert(p =~= q);
    }
    if path_lt(p, q) && p == q {
        assert(false);
    }
}

/// The component order is transitive.
pub proof fn lemma_comp_lt_trans(a: PathCompModel, b: PathCompModel, c: PathCompModel)
    requires
        comp_lt(a, b),
        comp_lt(b, c),
    ensures
        comp_lt(a, c),
{
    match (a, b) {
        (PathCompModel::Key(x), PathCompModel::Key(y)) => match c {
            PathCompModel::Key(z) => {
                lemma_str_lt_trans(x, y, z);
            },
            PathCompModel::Array => {},
        },
        _ => {},
    }
}

/// The path order is transitive, position by position.
pub proof fn lemma_path_lt_trans_from(
    p: Seq<PathCompModel>,
    q: Seq<PathCompModel>,
    r: Seq<PathCompModel>,
    i: int,
)
    requires
        0 <= i,
        path_lt_from(p, q, i),
        path_lt_from(q, r, i),
    ensures
        path_lt_from(p, r, i),
    decreases r.len() - i,
{
    if i >= q.len() {
        assert(false);
    } else if i >= p.len() {
    } else {
        if p[i] == q[i] && q[i] == r[i] {
            lemma_path_lt_trans_from(p, q, r, i + 1);
        } else if p[i] != q[i] && q[i] != r[i] {
            lemma_comp_lt_trans(p[i], q[i], r[i]);
            lemma_comp_lt_total(p[i], r[i]);
            lemma_comp_lt_total(p[i], q[i]);
            lemma_comp_lt_total(q[i], r[i]);
            if p[i] == r[i] {
                assert(false);
            }
        } else {
            lemma_comp_lt_total(p[i], q[i]);
            lemma_comp_lt_total(q[i], r[i]);
            if p[i] == r[i] {
                assert(false);
            }
        }
    }
}

/// Transitivity of [`path_lt`].
pub proof fn lemma_path_lt_trans(p: Seq<PathCompModel>, q: Seq<PathCompModel>, r: Seq<PathCompModel>)
    requires
        path_lt(p, q),
        path_lt(q, r),
    ensures
        path_lt(p, r),
{
    lemma_path_lt_trans_from(p, q, r, 0);
}

/// Three-way comparison of two path components under [`comp_lt`].
fn comp_compare(a: &PathComponent, b: &PathComponent) -> (r: Order)
    ensures
        r is Less <==> comp_lt(a@, b@),
        r is Equal <==> a@ == b@,
        r is Greater <==> comp_lt(b@, a@),
{
    match (a, b) {
        (PathComponent::Key(x), PathComponent::Key(y)) => str_compare(x.as_str(), y.as_str()),
        (PathComponent::Key(_), PathComponent::Array) => Order::Less,
        (PathComponent::Array, PathComponent::Key(_)) => Order::Greater,
        (PathComponent::Array, PathComponent::Array) => Order::Equal,
    }
}

/// Three-way comparison of two paths under [`path_lt`].
pub fn path_compare(a: &[PathComponent], b: &[PathComponent]) -> (r: Order)
    ensures
        r is Less <==> path_lt(path_view(a@), path_view(b@)),
        r is Equal <==> path_view(a@) == path_view(b@),
        r is Greater <==> path_lt(path_view(b@), path_view(a@)),
{
    let alen = a.len();
    let blen = b.len();
    let mut i: usize = 0;
    while i < alen && i < blen
        invariant
            0 <= i <= alen,
            i <= blen,
            alen == a@.len(),
            blen == b@.len(),
            forall|j: int| 0 <= j < i ==> path_view(a@)[j] == path_view(b@)[j],
        decreases alen - i,
    {
        let o = comp_compare(&a[i], &b[i]);
        match o {
            Order::Less => {
                proof {
                    lemma_path_lt_skip_prefix(path_view(a@), path_view(b@), i as int);
                    lemma_path_lt_skip_prefix(path_view(b@), path_view(a@), i as int);
                    lemma_path_lt_total(path_view(a@), path_view(b@));
                    assert(path_view(a@)[i as int] == a@[i as int]@);
                    assert(path_view(b@)[i as int] == b@[i as int]@);
                }
                return Order::Less;
            },
            Order::Greater => {
                proof {
                    lemma_path_lt_skip_prefix(path_view(a@), path_view(b@), i as int);
                    lemma_path_lt_skip_prefix(path_view(b@), path_view(a@), i as int);
                    lemma_path_lt_total(path_view(a@), path_view(b@));
                    assert(path_view(a@)[i as int] == a@[i as int]@);
                    assert(path_view(b@)[i as int] == b@[i as int]@);
                }
                return Order::Greater;
            },
            Order::Equal => {
                proof {
                    assert(path_view(a@)[i as int] == a@[i as int]@);
                    assert(path_view(b@)[i as int] == b@[i as int]@);
                }
                i = i + 1;
            },
        }
    }
    proof {
        lemma_path_lt_skip_prefix(path_view(a@), path_view(b@), i as int);
        lemma_path_lt_skip_prefix(path_view(b@), path_view(a@), i as int);
        if alen == blen {
            assert(path_view(a@) =~= path_view(b@));
        }
        lemma_path_lt_total(path_view(a@), path_view(b@));
    }
    if alen < blen {
        Order::Less
    } else if alen == blen {
        Order::Equal
    } else {
        Order::Greater
    }
}

/// An owned copy of a path, component by component.
fn dup_path(p: &Vec<PathComponent>) -> (r: Vec<PathComponent>)
    ensures
        path_view(r@) == path_view(p@),
        r@.len() == p@.len(),
{
    let n = p.len();
    let mut r: Vec<PathComponent> = Vec::new();
    let mut i: usize = 0;
    while i < n
        invariant
            0 <= i <= n,
            n == p@.len(),
            r@.len() == i,
            forall|j: int| 0 <= j < i ==> (#[trigger] r@[j])@ == p@[j]@,
        decreases n - i,
    {
        let c = match &p[i] {
            PathComponent::Key(s) => PathComponent::Key(s.clone()),
            PathComponent::Array => PathComponent::Array,
        };
        r.push(c);
        i = i + 1;
    }
    proof {
        assert(path_view(r@) =~= path_view(p@));
    }
    r
}

/// How many levels of array nesting a path crosses.
pub open spec fn arrays_in(p: Seq<PathCompModel>) -> int
    decreases p.len(),
{
    if p.len() == 0 {
        0
    } else {
        arrays_in(p.drop_last()) + if p.last() is Array {
            1int
        } else {
            0int
        }
    }
}

/// Nesting never makes the count negative.
pub proof fn lemma_arrays_in_nonneg(p: Seq<PathCompModel>)
    ensures
        arrays_in(p) >= 0,
    decreases p.len(),
{
    if p.len() > 0 {
        lemma_arrays_in_nonneg(p.drop_last());
    }
}

/// Extending a path touches the count only through the new component.
pub proof fn lemma_arrays_in_push(p: Seq<PathCompModel>, c: PathCompModel)
    ensures
        arrays_in(p.push(c)) == arrays_in(p) + if c is Array {
            1int
        } else {
            0int
        },
{
    assert(p.push(c).drop_last() =~= p);
}

/// A chunk of shredded data: the per-path columns of one ingestion batch,
/// kept in path order, and the number of top-level records pushed.
pub struct Stripe {
    /// The columns, keyed by path and strictly ordered by [`path_lt`].
    /// Read-only outside this crate.
    pub columns: Vec<(Path, Column)>,
    /// How many top-level records were pushed.  Read-only outside this
    /// crate.
    pub count: usize,
}

/// The mathematical view of a stripe: column models keyed by path.
#[verifier::ext_equal]
pub struct StripeModel {
    pub columns: Map<Seq<PathCompModel>, ColumnModel>,
    pub count: int,
}

/// The map an association list denotes.
pub open spec fn assoc_map(s: Seq<(Path, Column)>) -> Map<Seq<PathCompModel>, ColumnModel>
    decreases s.len(),
{
    if s.len() == 0 {
        Map::empty()
    } else {
        assoc_map(s.drop_last()).insert(path_view(s.last().0@), s.last().1@)
    }
}

impl View for Stripe {
    type V = StripeModel;

    open spec fn view(&self) -> StripeModel {
        StripeModel { columns: assoc_map(self.columns@), count: self.count as int }
    }
}

/// A key is in the association map exactly when some entry carries it.
pub proof fn lemma_assoc_contains(s: Seq<(Path, Column)>, p: Seq<PathCompModel>)
    ensures
        assoc_map(s).contains_key(p) <==> exists|i: int|
            0 <= i < s.len() && path_view((#[trigger] s[i]).0@) == p,
    decreases s.len(),
{
    if s.len() > 0 {
        lemma_assoc_contains(s.drop_last(), p);
        if assoc_map(s).contains_key(p) {
            if path_view(s.last().0@) == p {
                assert(path_view(s[s.len() - 1].0@) == p);
            } else {
                let i = choose|i: int|
                    0 <= i < s.len() - 1 && path_view((#[trigger] s.drop_last()[i]).0@) == p;
                assert(s.drop_last()[i] == s[i]);
            }
        }
        if exists|i: int| 0 <= i < s.len() && path_view((#[trigger] s[i]).0@) == p {
            let i = choose|i: int| 0 <= i < s.len() && path_view((#[trigger] s[i]).0@) == p;
            if i < s.len() - 1 {
                assert(s.drop_last()[i] == s[i]);
            }
        }
    }
}

/// With distinct keys, each entry is the association map's value at its
/// own key.
pub proof fn lemma_assoc_index(s: Seq<(Path, Column)>, i: int)
    requires
        0 <= i < s.len(),
        forall|j: int, k: int|
            0 <= j < k < s.len() ==> path_view((#[trigger] s[j]).0@) != path_view(
                (#[trigger] s[k]).0@,
            ),
    ensures
        assoc_map(s).contains_key(path_view(s[i].0@)),
        assoc_map(s)[path_view(s[i].0@)] == s[i].1@,
    decreases s.len(),
{
    if i == s.len() - 1 {
    } else {
        assert forall|j: int, k: int| 0 <= j < k < s.drop_last().len() implies path_view(
            (#[trigger] s.drop_last()[j]).0@,
        ) != path_view((#[trigger] s.drop_last()[k]).0@) by {
            assert(s.drop_last()[j] == s[j]);
            assert(s.drop_last()[k] == s[k]);
        }
        assert(s.drop_last()[i] == s[i]);
        lemma_assoc_index(s.drop_last(), i);
        assert(path_view(s.last().0@) != path_view(s[i].0@));
    }
}

/// Inserting an entry whose key is fresh inserts exactly that binding.
pub proof fn lemma_assoc_insert_at(s: Seq<(Path, Column)>, i: int, e: (Path, Column))
    requires
        0 <= i <= s.len(),
        forall|j: int| 0 <= j < s.len() ==> path_view((#[trigger] s[j]).0@) != path_view(e.0@),
    ensures
        assoc_map(s.insert(i, e)) == assoc_map(s).insert(path_view(e.0@), e.1@),
    decreases s.len(),
{
    let s2 = s.insert(i, e);
    if i == s.len() {
        assert(s2.drop_last() =~= s);
        assert(s2.last() == e);
    } else {
        assert(s2.last() == s.last());
        assert(s2.drop_last() =~= s.drop_last().insert(i, e));
        assert forall|j: int| 0 <= j < s.drop_last().len() implies path_view(
            (#[trigger] s.drop_last()[j]).0@,
        ) != path_view(e.0@) by {
            assert(s.drop_last()[j] == s[j]);
        }
        lemma_assoc_insert_at(s.drop_last(), i, e);
        assert(path_view(s.last().0@) != path_view(e.0@));
        assert(assoc_map(s2) =~= assoc_map(s).insert(path_view(e.0@), e.1@));
    }
}

/// Replacing an entry's column, key untouched, updates exactly that
/// binding.
pub proof fn lemma_assoc_update_at(s: Seq<(Path, Column)>, i: int, c: Column)
    requires
        0 <= i < s.len(),
        forall|j: int, k: int|
            0 <= j < k < s.len() ==> path_view((#[trigger] s[j]).0@) != path_view(
                (#[trigger] s[k]).0@,
            ),
    ensures
        assoc_map(s.update(i, (s[i].0, c))) == assoc_map(s).insert(path_view(s[i].0@), c@),
    decreases s.len(),
{
    let s2 = s.update(i, (s[i].0, c));
    if i == s.len() - 1 {
        assert(s2.drop_last() =~= s.drop_last());
        assert(s2.last() == (s[i].0, c));
        assert(assoc_map(s2) =~= assoc_map(s).insert(path_view(s[i].0@), c@));
    } else {
        assert(s2.last() == s.last());
        assert(s2.drop_last() =~= s.drop_last().update(i, (s[i].0, c)));
        assert forall|j: int, k: int| 0 <= j < k < s.drop_last().len() implies path_view(
            (#[trigger] s.drop_last()[j]).0@,
        ) != path_view((#[trigger] s.drop_last()[k]).0@) by {
            assert(s.drop_last()[j] == s[j]);
            assert(s.drop_last()[k] == s[k]);
        }
        assert(s.drop_last()[i] == s[i]);
        lemma_assoc_update_at(s.drop_last(), i, c);
        assert(path_view(s.last().0@) != path_view(s[i].0@));
        assert(assoc_map(s2) =~= assoc_map(s).insert(path_view(s[i].0@), c@));
    }
}

/// The column map after routing datum `d`, observed at path `p` with
/// index context `idx`, into the store: the mirror of
/// [`Stripe::push_datum_at_path`].  A missing datum touches nothing; any
/// other datum is appended to its path's column (created on demand), and
/// an object or array recurses into its children.
pub open spec fn shred(
    m: Map<Seq<PathCompModel>, ColumnModel>,
    d: Datum,
    p: Seq<PathCompModel>,
    idx: Seq<u32>,
) -> Map<Seq<PathCompModel>, ColumnModel>
    decreases d, 0int, 0int,
{
    if d is Missing {
        m
    } else {
        let c0 = if m.contains_key(p) {
            m[p]
        } else {
            ColumnModel::empty(idx.len())
        };
        let m1 = m.insert(p, col_append(c0, d, idx));
        match d {
            Datum::Object(fields) => shred_fields(m1, fields@, 0, p, idx),
            Datum::Array(elems) => shred_elems(m1, elems@, 0, p.push(PathCompModel::Array), idx),
            _ => m1,
        }
    }
}

/// Routes the object fields at positions `i` and beyond, each at the
/// parent's path extended by its key, sharing the parent's context.
pub open spec fn shred_fields(
    m: Map<Seq<PathCompModel>, ColumnModel>,
    fields: Seq<(String, Datum)>,
    i: int,
    p: Seq<PathCompModel>,
    idx: Seq<u32>,
) -> Map<Seq<PathCompModel>, ColumnModel>
    decreases fields, 1int, fields.len() - i,
{
    if i < 0 || i >= fields.len() {
        m
    } else {
        shred_fields(
            shred(m, fields[i].1, p.push(PathCompModel::Key(fields[i].0@)), idx),
            fields,
            i + 1,
            p,
            idx,
        )
    }
}

/// Routes the array elements at positions `i` and beyond, each at the
/// parent's path extended by the array marker, with the context extended
/// by the element's own position.
pub open spec fn shred_elems(
    m: Map<Seq<PathCompModel>, ColumnModel>,
    elems: Seq<Datum>,
    i: int,
    p: Seq<PathCompModel>,
    idx: Seq<u32>,
) -> Map<Seq<PathCompModel>, ColumnModel>
    decreases elems, 1int, elems.len() - i,
{
    if i < 0 || i >= elems.len() {
        m
    } else {
        shred_elems(shred(m, elems[i], p, idx.push(i as u32)), elems, i + 1, p, idx)
    }
}

/// A stripe after ingesting one record: the record is shredded at the
/// empty path with the row number as context, and the row counter moves.
pub open spec fn stripe_push(s: StripeModel, d: Datum) -> StripeModel {
    StripeModel {
        columns: shred(s.columns, d, Seq::empty(), seq![s.count as u32]),
        count: s.count + 1,
    }
}

impl StripeModel {
    /// Every column is aligned, and its depth matches its path: one index
    /// buffer for the row plus one per array level crossed.
    pub open spec fn wf(self) -> bool {
        &&& forall|p: Seq<PathCompModel>|
            self.columns.contains_key(p) ==> (#[trigger] self.columns[p]).wf()
        &&& forall|p: Seq<PathCompModel>| #[trigger]
            self.columns.contains_key(p) ==> self.columns[p].indexes.len() == 1 + arrays_in(p)
        &&& self.count >= 0
    }
}

impl Stripe {
    /// The representation invariant: columns strictly ordered by path (so
    /// each path occurs once), every column aligned, every column's depth
    /// matching its path.
    pub open spec fn wf(self) -> bool {
        &&& forall|i: int, j: int|
            0 <= i < j < self.columns@.len() ==> path_lt(
                path_view((#[trigger] self.columns@[i]).0@),
                path_view((#[trigger] self.columns@[j]).0@),
            )
        &&& forall|i: int|
            0 <= i < self.columns@.len() ==> ((#[trigger] self.columns@[i]).1)@.wf()
        &&& forall|i: int|
            0 <= i < self.columns@.len() ==> ((#[trigger] self.columns@[i]).1)@.indexes.len() == 1
                + arrays_in(path_view(self.columns@[i].0@))
    }

    /// Distinct entries carry distinct paths.
    pub proof fn lemma_keys_distinct(self)
        requires
            self.wf(),
        ensures
            forall|j: int, k: int|
                0 <= j < k < self.columns@.len() ==> path_view(
                    (#[trigger] self.columns@[j]).0@,
                ) != path_view((#[trigger] self.columns@[k]).0@),
    {
        assert forall|j: int, k: int| 0 <= j < k < self.columns@.len() implies path_view(
            (#[trigger] self.columns@[j]).0@,
        ) != path_view((#[trigger] self.columns@[k]).0@) by {
            lemma_path_lt_total(
                path_view(self.columns@[j].0@),
                path_view(self.columns@[k].0@),
            );
        }
    }

    /// An empty stripe: no columns, no rows.
    pub fn new() -> (r: Stripe)
        ensures
            r.wf(),
            r@.columns == Map::<Seq<PathCompModel>, ColumnModel>::empty(),
            r@.count == 0,
    {
        Stripe { columns: Vec::new(), count: 0 }
    }

    /// Looks a column up by exact path: `None` when no datum was ever
    /// observed there, never an error.
    pub fn get_column(&self, path: &[PathComponent]) -> (r: Option<&Column>)
        requires
            self.wf(),
        ensures
            match r {
                Some(c) => self@.columns.contains_key(path_view(path@)) && c@
                    == self@.columns[path_view(path@)],
                None => !self@.columns.contains_key(path_view(path@)),
            },
    {
        let n = self.columns.len();
        let mut i: usize = 0;
        while i < n
            invariant
                self.wf(),
                0 <= i <= n,
                n == self.columns@.len(),
                forall|j: int|
                    0 <= j < i ==> path_view((#[trigger] self.columns@[j]).0@) != path_view(
                        path@,
                    ),
            decreases n - i,
        {
            let o = path_compare(self.columns[i].0.as_slice(), path);
            if matches!(o, Order::Equal) {
                proof {
                    self.lemma_keys_distinct();
                    lemma_assoc_index(self.columns@, i as int);
                }
                return Some(&self.columns[i].1);
            }
            proof {
                lemma_path_lt_total(path_view(self.columns@[i as int].0@), path_view(path@));
            }
            i = i + 1;
        }
        proof {
            lemma_assoc_contains(self.columns@, path_view(path@));
        }
        None
    }

    /// The insertion point of `path` among the ordered columns, and
    /// whether a column already sits there.
    fn find_slot(&self, path: &Vec<PathComponent>) -> (r: (usize, bool))
        requires
            self.wf(),
        ensures
            r.0 <= self.columns@.len(),
            r.1 ==> r.0 < self.columns@.len() && path_view(
                self.columns@[r.0 as int].0@,
            ) == path_view(path@),
            !r.1 ==> !self@.columns.contains_key(path_view(path@)),
            !r.1 ==> forall|j: int|
                0 <= j < r.0 ==> path_lt(
                    path_view((#[trigger] self.columns@[j]).0@),
                    path_view(path@),
                ),
            !r.1 ==> forall|j: int|
                r.0 <= j < self.columns@.len() ==> path_lt(
                    path_view(path@),
                    path_view((#[trigger] self.columns@[j]).0@),
                ),
    {
        let n = self.columns.len();
        let mut i: usize = 0;
        while i < n
            invariant
                self.wf(),
                0 <= i <= n,
                n == self.columns@.len(),
                forall|j: int|
                    0 <= j < i ==> path_lt(
                        path_view((#[trigger] self.columns@[j]).0@),
                        path_view(path@),
                    ),
            decreases n - i,
        {
            let o = path_compare(self.columns[i].0.as_slice(), path.as_slice());
            match o {
                Order::Less => {
                    i = i + 1;
                },
                Order::Equal => {
                    return (i, true);
                },
                Order::Greater => {
                    proof {
                        assert forall|j: int| i as int <= j < n implies path_lt(
                            path_view(path@),
                            path_view((#[trigger] self.columns@[j]).0@),
                        ) by {
                            if j > i as int {
                                lemma_path_lt_trans(
                                    path_view(path@),
                                    path_view(self.columns@[i as int].0@),
                                    path_view(self.columns@[j].0@),
                                );
                            }
                        }
                        assert forall|j: int| 0 <= j < n implies path_view(
                            (#[trigger] self.columns@[j]).0@,
                        ) != path_view(path@) by {
                            lemma_path_lt_total(
                                path_view(self.columns@[j].0@),
                                path_view(path@),
                            );
                        }
                        lemma_assoc_contains(self.columns@, path_view(path@));
                    }
                    return (i, false);
                },
            }
        }
        proof {
            assert forall|j: int| 0 <= j < n implies path_view(
                (#[trigger] self.columns@[j]).0@,
            ) != path_view(path@) by {
                lemma_path_lt_total(path_view(self.columns@[j].0@), path_view(path@));
            }
            lemma_assoc_contains(self.columns@, path_view(path@));
        }
        (n, false)
    }

    /// Shreds one datum observed at `path` with index context `idx`:
    /// appends it to its column (created on demand), then recurses into
    /// object fields (same context) and array elements (context extended
    /// by the element's position).  A missing datum touches nothing.
    /// `path` and `idx` are scratch space, handed back as they came.
    #[verifier::loop_isolation(false)]
    fn push_datum_at_path(
        &mut self,
        datum: &Datum,
        path: &mut Vec<PathComponent>,
        idx: &mut Vec<u32>,
    )
        requires
            old(self).wf(),
            (*datum).wf(),
            (*datum).fits(),
            old(idx)@.len() == 1 + arrays_in(path_view(old(path)@)),
        ensures
            final(self).wf(),
            assoc_map(final(self).columns@) == shred(
                assoc_map(old(self).columns@),
                *datum,
                path_view(old(path)@),
                old(idx)@,
            ),
            final(self).count == old(self).count,
            final(path)@ == old(path)@,
            final(idx)@ == old(idx)@,
        decreases *datum,
    {
        if datum.is_missing() {
            return;
        }
        let ghost p0 = path_view(old(path)@);
        let ghost idx0 = old(idx)@;
        let ghost scols = self.columns@;
        let ghost c0: ColumnModel = if assoc_map(scols).contains_key(p0) {
            assoc_map(scols)[p0]
        } else {
            ColumnModel::empty(idx0.len() as nat)
        };
        proof {
            lemma_arrays_in_nonneg(p0);
        }
        let (pos, found) = self.find_slot(path);
        if !found {
            let p2 = dup_path(path);
            let col = Column::new(idx.len());
            let ghost entry = (p2, col);
            proof {
                self.lemma_keys_distinct();
                assert forall|j: int| 0 <= j < scols.len() implies path_view(
                    (#[trigger] scols[j]).0@,
                ) != path_view(entry.0@) by {
                    lemma_path_lt_total(path_view(scols[j].0@), path_view(path@));
                }
                lemma_assoc_insert_at(scols, pos as int, entry);
            }
            self.columns.insert(pos, (p2, col));
            proof {
                let s2 = self.columns@;
                assert(s2 == scols.insert(pos as int, entry));
                assert forall|a: int, b: int| 0 <= a < b < s2.len() implies path_lt(
                    path_view((#[trigger] s2[a]).0@),
                    path_view((#[trigger] s2[b]).0@),
                ) by {
                    if a < pos as int && b < pos as int {
                        assert(s2[a] == scols[a] && s2[b] == scols[b]);
                    } else if a < pos as int && b == pos as int {
                        assert(s2[a] == scols[a]);
                    } else if a < pos as int && b > pos as int {
                        assert(s2[a] == scols[a] && s2[b] == scols[b - 1]);
                    } else if a == pos as int {
                        assert(s2[b] == scols[b - 1]);
                    } else {
                        assert(s2[a] == scols[a - 1] && s2[b] == scols[b - 1]);
                    }
                }
                assert forall|a: int| 0 <= a < s2.len() implies ((#[trigger] s2[a]).1)@.wf() by {
                    if a < pos as int {
                        assert(s2[a] == scols[a]);
                    } else if a > pos as int {
                        assert(s2[a] == scols[a - 1]);
                    }
                }
                assert forall|a: int| 0 <= a < s2.len() implies ((#[trigger] s2[a]).1)@.indexes.len()
                    == 1 + arrays_in(path_view(s2[a].0@)) by {
                    if a < pos as int {
                        assert(s2[a] == scols[a]);
                    } else if a > pos as int {
                        assert(s2[a] == scols[a - 1]);
                    } else {
                        assert(ColumnModel::empty(idx0.len() as nat).indexes.len() == idx0.len());
                    }
                }
                assert(self.wf());
            }
        }
        let ghost sbefore = self.columns@;
        proof {
            assert(path_view(sbefore[pos as int].0@) == p0);
            assert(sbefore[pos as int].1@.wf());
            assert(sbefore[pos as int].1@.indexes.len() == 1 + arrays_in(p0));
            assert(sbefore[pos as int].1@ == c0) by {
                self.lemma_keys_distinct();
                lemma_assoc_index(sbefore, pos as int);
                if found {
                } else {
                    assert(assoc_map(sbefore) == assoc_map(scols).insert(
                        p0,
                        ColumnModel::empty(idx0.len() as nat),
                    ));
                }
            }
        }
        self.columns[pos].1.add_datum(datum, idx);
        proof {
            self.lemma_keys_distinct();
            assert(self.columns@ == sbefore.update(
                pos as int,
                (sbefore[pos as int].0, self.columns@[pos as int].1),
            )) by {
                assert(self.columns@ =~= sbefore.update(
                    pos as int,
                    (sbefore[pos as int].0, self.columns@[pos as int].1),
                ));
            }
            assert forall|j: int, k: int| 0 <= j < k < sbefore.len() implies path_view(
                (#[trigger] sbefore[j]).0@,
            ) != path_view((#[trigger] sbefore[k]).0@) by {
                lemma_path_lt_total(path_view(sbefore[j].0@), path_view(sbefore[k].0@));
            }
            lemma_assoc_update_at(sbefore, pos as int, self.columns[pos as int].1);
            lemma_col_append_wf(c0, *datum, idx0);
            assert(assoc_map(self.columns@) == assoc_map(scols).insert(
                p0,
                col_append(c0, *datum, idx0),
            )) by {
                if !found {
                    assert(assoc_map(self.columns@) =~= assoc_map(scols).insert(
                        p0,
                        col_append(c0, *datum, idx0),
                    ));
                }
            }
            assert forall|a: int, b: int| 0 <= a < b < self.columns@.len() implies path_lt(
                path_view((#[trigger] self.columns@[a]).0@),
                path_view((#[trigger] self.columns@[b]).0@),
            ) by {
                assert(self.columns@[a].0 == sbefore[a].0);
                assert(self.columns@[b].0 == sbefore[b].0);
            }
            assert(self.wf());
        }
        let ghost m1 = assoc_map(self.columns@);
        match datum {
            Datum::Object(fields) => {
                let n = fields.len();
                let mut i: usize = 0;
                while i < n
                    invariant
                        0 <= i <= n,
                        self.wf(),
                        self.count == old(self).count,
                        path@ == old(path)@,
                        idx@ == old(idx)@,
                        shred_fields(assoc_map(self.columns@), fields@, i as int, p0, idx0)
                            == shred_fields(m1, fields@, 0, p0, idx0),
                    decreases n - i,
                {
                    let ghost pv_before = path@;
                    path.push(PathComponent::Key(fields[i].0.clone()));
                    proof {
                        assert(path_view(path@) =~= p0.push(
                            PathCompModel::Key(fields@[i as int].0@),
                        ));
                        lemma_arrays_in_push(p0, PathCompModel::Key(fields@[i as int].0@));
                        let f = (*datum)->Object_0;
                        assert(decreases_to!(*datum => f));
                        assert(decreases_to!(f => f@));
                        assert(decreases_to!(f@ => f@[i as int]));
                        assert(decreases_to!(f@[i as int] => f@[i as int].1));
                        assert(*datum is Object);
                        assert((*datum)->Object_0 == *fields);
                        crate::datum::lemma_object_child(*datum, i as int);
                        assert(fields@[i as int].1.wf());
                        assert(fields@[i as int].1.fits());
                    }
                    self.push_datum_at_path(&fields[i].1, path, idx);
                    let _ = path.pop();
                    proof {
                        assert(path@ =~= pv_before);
                    }
                    i = i + 1;
                }
            },
            Datum::Array(elems) => {
                path.push(PathComponent::Array);
                let ghost p1 = p0.push(PathCompModel::Array);
                proof {
                    assert(path_view(path@) =~= p1);
                    lemma_arrays_in_push(p0, PathCompModel::Array);
                }
                let n = elems.len();
                let mut i: usize = 0;
                while i < n
                    invariant
                        0 <= i <= n,
                        self.wf(),
                        self.count == old(self).count,
                        path@ == old(path)@.push(PathComponent::Array),
                        idx@ == old(idx)@,
                        shred_elems(assoc_map(self.columns@), elems@, i as int, p1, idx0)
                            == shred_elems(m1, elems@, 0, p1, idx0),
                    decreases n - i,
                {
                    let ghost iv_before = idx@;
                    idx.push(i as u32);
                    proof {
                        assert(path_view(path@) =~= p1);
                        let f = (*datum)->Array_0;
                        assert(decreases_to!(*datum => f));
                        assert(decreases_to!(f => f@));
                        assert(decreases_to!(f@ => f@[i as int]));
                        assert(*datum is Array);
                        assert((*datum)->Array_0 == *elems);
                        crate::datum::lemma_array_child(*datum, i as int);
                        assert(elems@[i as int].wf());
                        assert(elems@[i as int].fits());
                    }
                    self.push_datum_at_path(&elems[i], path, idx);
                    let _ = idx.pop();
                    proof {
                        assert(idx@ =~= iv_before);
                    }
                    i = i + 1;
                }
                let _ = path.pop();
                proof {
                    assert(path@ =~= old(path)@);
                }
            },
            _ => {},
        }
    }

    /// Ingests one record: the datum is shredded at the empty path with
    /// the row number as index context, and the row counter moves by one.
    /// Never fails for a well-formed record; explicit null and missing are
    /// both handled.
    pub fn push_datum(&mut self, datum: &Datum)
        requires
            old(self).wf(),
            (*datum).wf(),
            (*datum).fits(),
            old(self).count < u32::MAX as usize,
        ensures
            final(self).wf(),
            final(self)@ == stripe_push(old(self)@, *datum),
    {
        let mut path: Vec<PathComponent> = Vec::new();
        let mut idx: Vec<u32> = Vec::new();
        idx.push(self.count as u32);
        proof {
            assert(path_view(path@) =~= Seq::<PathCompModel>::empty());
            assert(idx@ =~= seq![old(self)@.count as u32]);
            assert(arrays_in(path_view(path@)) == 0);
        }
        self.push_datum_at_path(datum, &mut path, &mut idx);
        self.count = self.count + 1;
        proof {
            assert(self@ =~~= stripe_push(old(self)@, *datum));
        }
    }
}

} // verus!
