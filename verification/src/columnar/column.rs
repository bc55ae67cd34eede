//! One column: per-depth index buffers, a null bitmap, and a typed payload
//! that only ever widens as heterogeneous data arrives.

use crate::bits::{bits_of, bv_get, bv_grow, bv_len, bv_new, bv_push};
use crate::datum::{Datum, InternalType};
use crate::fbits::{f64_bits_from_i16, f64_bits_of};
use vstd::prelude::*;
use vstd::string::{StrSliceExecFns, StringExecFns};

verus! {

/// The data observed at one path.
pub struct Column {
    /// One buffer per nesting depth the path crosses (the row index at
    /// depth zero, then one per array level); entry `i` of buffer `d` is
    /// the position within its parent context that produced entry `i`.
    /// Read-only outside this crate.
    pub indexes: Vec<Vec<u32>>,
    /// The typed payload.
    pub data: ColumnData,
    /// One bit per entry: set iff that entry was an explicit null.
    pub null_map: bit_vec::BitVec<u32>,
}

/// The typed payload of one column.
pub enum ColumnData {
    /// Nothing but nulls observed yet: dataless and untyped.
    Null,
    TinyInt(Vec<i8>),
    SmallInt(Vec<i16>),
    /// Doubles, as IEEE-754 bit patterns.
    Float(Vec<u64>),
    Bool(bit_vec::BitVec<u32>),
    /// One shared character buffer, and each row's cumulative end offset
    /// in it: row `i` is the slice between offset `i - 1` (zero for the
    /// first row) and offset `i`.
    String(String, Vec<usize>),
    /// Per-row child count of an object; the children live in deeper
    /// columns keyed by longer paths.
    Object(Vec<usize>),
    /// Per-row element count of an array; the elements live in deeper
    /// columns keyed by longer paths.
    Array(Vec<usize>),
    /// Tagged per-row values: the terminal fallback when no single type
    /// fits every row at this path.
    Union(Vec<Union>),
}

/// One tagged entry of a union column; arrays and objects carry only
/// their size here, exactly as the typed representations do.
#[derive(Debug, PartialEq)]
pub enum Union {
    Null,
    /// A double, as its IEEE-754 bit pattern; integer rows widen to this.
    Float(u64),
    Bool(bool),
    String(String),
    Array(usize),
    Object(usize),
}

/// The mathematical view of a union entry.
pub enum UnionModel {
    Null,
    Float(u64),
    Bool(bool),
    String(Seq<char>),
    Array(int),
    Object(int),
}

impl View for Union {
    type V = UnionModel;

    open spec fn view(&self) -> UnionModel {
        match self {
            Union::Null => UnionModel::Null,
            Union::Float(b) => UnionModel::Float(*b),
            Union::Bool(b) => UnionModel::Bool(*b),
            Union::String(s) => UnionModel::String(s@),
            Union::Array(n) => UnionModel::Array(*n as int),
            Union::Object(n) => UnionModel::Object(*n as int),
        }
    }
}

impl DeepView for Union {
    type V = UnionModel;

    open spec fn deep_view(&self) -> UnionModel {
        self.view()
    }
}

/// The mathematical view of a column payload; sizes and offsets as
/// unbounded integers.
#[verifier::ext_equal]
pub enum DataModel {
    Null,
    TinyInt(Seq<i8>),
    SmallInt(Seq<i16>),
    Float(Seq<u64>),
    Bool(Seq<bool>),
    String(Seq<char>, Seq<int>),
    Object(Seq<int>),
    Array(Seq<int>),
    Union(Seq<UnionModel>),
}

/// A sequence of machine sizes, as integers.
pub open spec fn ints_of(s: Seq<usize>) -> Seq<int> {
    Seq::new(s.len(), |i: int| s[i] as int)
}

impl View for ColumnData {
    type V = DataModel;

    open spec fn view(&self) -> DataModel {
        match self {
            ColumnData::Null => DataModel::Null,
            ColumnData::TinyInt(v) => DataModel::TinyInt(v@),
            ColumnData::SmallInt(v) => DataModel::SmallInt(v@),
            ColumnData::Float(v) => DataModel::Float(v@),
            ColumnData::Bool(bv) => DataModel::Bool(bits_of(*bv)),
            ColumnData::String(s, o) => DataModel::String(s@, ints_of(o@)),
            ColumnData::Object(v) => DataModel::Object(ints_of(v@)),
            ColumnData::Array(v) => DataModel::Array(ints_of(v@)),
            ColumnData::Union(v) => DataModel::Union(v.deep_view()),
        }
    }
}

/// The index buffers of a column, as sequences.
pub open spec fn idx_view(s: Seq<Vec<u32>>) -> Seq<Seq<u32>> {
    Seq::new(s.len(), |i: int| s[i]@)
}

/// The mathematical view of a column.
#[verifier::ext_equal]
pub struct ColumnModel {
    pub indexes: Seq<Seq<u32>>,
    pub nulls: Seq<bool>,
    pub data: DataModel,
}

impl View for Column {
    type V = ColumnModel;

    open spec fn view(&self) -> ColumnModel {
        ColumnModel {
            indexes: idx_view(self.indexes@),
            nulls: bits_of(self.null_map),
            data: self.data@,
        }
    }
}

impl DataModel {
    /// The kind this payload representation stores.
    pub open spec fn type_of(self) -> InternalType {
        match self {
            DataModel::Null => InternalType::Null,
            DataModel::TinyInt(_) => InternalType::TinyInt,
            DataModel::SmallInt(_) => InternalType::SmallInt,
            DataModel::Float(_) => InternalType::Float,
            DataModel::Bool(_) => InternalType::Bool,
            DataModel::String(_, _) => InternalType::String,
            DataModel::Object(_) => InternalType::Object,
            DataModel::Array(_) => InternalType::Array,
            DataModel::Union(_) => InternalType::Union,
        }
    }

    /// The number of entries the payload holds of its own (the dataless
    /// [`DataModel::Null`] holds none; its entry count lives in the null
    /// bitmap alone).
    pub open spec fn len(self) -> nat {
        match self {
            DataModel::Null => 0,
            DataModel::TinyInt(s) => s.len(),
            DataModel::SmallInt(s) => s.len(),
            DataModel::Float(s) => s.len(),
            DataModel::Bool(s) => s.len(),
            DataModel::String(_, o) => o.len(),
            DataModel::Object(s) => s.len(),
            DataModel::Array(s) => s.len(),
            DataModel::Union(s) => s.len(),
        }
    }
}

/// Cumulative string end offsets are nonnegative, monotone, bounded by the
/// buffer, and end exactly at the buffer's end.
pub open spec fn offsets_wf(buf: Seq<char>, offs: Seq<int>) -> bool {
    &&& forall|i: int, j: int| 0 <= i <= j < offs.len() ==> #[trigger] offs[i] <= #[trigger] offs[j]
    &&& forall|i: int| 0 <= i < offs.len() ==> 0 <= #[trigger] offs[i] <= buf.len()
    &&& (offs.len() == 0 ==> buf.len() == 0)
    &&& (offs.len() > 0 ==> offs[offs.len() - 1] == buf.len())
}

/// Where row `i`'s slice of the shared string buffer begins.
pub open spec fn str_start(offs: Seq<int>, i: int) -> int {
    if i == 0 {
        0
    } else {
        offs[i - 1]
    }
}

impl ColumnModel {
    /// The alignment invariant: every index buffer, the null bitmap and
    /// the payload agree on the entry count at all times, and a dataless
    /// column is null throughout.
    pub open spec fn wf(self) -> bool {
        &&& self.indexes.len() >= 1
        &&& forall|d: int|
            0 <= d < self.indexes.len() ==> (#[trigger] self.indexes[d]).len() == self.nulls.len()
        &&& match self.data {
            DataModel::Null => forall|i: int| 0 <= i < self.nulls.len() ==> self.nulls[i],
            DataModel::String(buf, offs) => offs.len() == self.nulls.len() && offsets_wf(buf, offs),
            _ => self.data.len() == self.nulls.len(),
        }
    }

    /// The number of entries the column holds.
    pub open spec fn len(self) -> nat {
        self.nulls.len()
    }

    /// A fresh column of the given depth: empty buffers, no entries.
    pub open spec fn empty(depth: nat) -> ColumnModel {
        ColumnModel {
            indexes: Seq::new(depth, |d: int| Seq::<u32>::empty()),
            nulls: Seq::empty(),
            data: DataModel::Null,
        }
    }
}

/// The logical value of one entry, as a consumer that respects the null
/// bitmap sees it: the payload slot of a null entry is never exposed.
pub enum EntryModel {
    Null,
    TinyInt(i8),
    SmallInt(i16),
    Float(u64),
    Bool(bool),
    String(Seq<char>),
    Object(int),
    Array(int),
}

impl ColumnModel {
    /// Reads entry `i` through the null bitmap.
    pub open spec fn read(self, i: int) -> EntryModel
        recommends
            self.wf(),
            0 <= i < self.len(),
    {
        if self.nulls[i] {
            EntryModel::Null
        } else {
            match self.data {
                DataModel::Null => EntryModel::Null,
                DataModel::TinyInt(s) => EntryModel::TinyInt(s[i]),
                DataModel::SmallInt(s) => EntryModel::SmallInt(s[i]),
                DataModel::Float(s) => EntryModel::Float(s[i]),
                DataModel::Bool(s) => EntryModel::Bool(s[i]),
                DataModel::String(buf, offs) => EntryModel::String(
                    buf.subrange(str_start(offs, i), offs[i]),
                ),
                DataModel::Object(s) => EntryModel::Object(s[i]),
                DataModel::Array(s) => EntryModel::Array(s[i]),
                DataModel::Union(s) => match s[i] {
                    UnionModel::Null => EntryModel::Null,
                    UnionModel::Float(b) => EntryModel::Float(b),
                    UnionModel::Bool(b) => EntryModel::Bool(b),
                    UnionModel::String(t) => EntryModel::String(t),
                    UnionModel::Array(n) => EntryModel::Array(n),
                    UnionModel::Object(n) => EntryModel::Object(n),
                },
            }
        }
    }
}

/// The union-tagged form of a datum: scalars by value (integers widened to
/// the double bit pattern), objects and arrays by their size alone.
pub open spec fn union_of_datum(d: Datum) -> UnionModel {
    match d {
        Datum::Null => UnionModel::Null,
        Datum::Missing => UnionModel::Null,
        Datum::Float(b) => UnionModel::Float(b),
        Datum::TinyInt(i) => UnionModel::Float(f64_bits_of(i as int)),
        Datum::SmallInt(i) => UnionModel::Float(f64_bits_of(i as int)),
        Datum::Bool(b) => UnionModel::Bool(b),
        Datum::String(s) => UnionModel::String(s@),
        Datum::Array(v) => UnionModel::Array(v@.len() as int),
        Datum::Object(v) => UnionModel::Object(v@.len() as int),
    }
}

/// The union-tagged re-encoding of entry `i` of an existing payload; an
/// entry the null bitmap flags becomes the union null, never a filler.
pub open spec fn union_entry(data: DataModel, nulls: Seq<bool>, i: int) -> UnionModel {
    if nulls[i] {
        UnionModel::Null
    } else {
        match data {
            DataModel::Null => UnionModel::Null,
            DataModel::TinyInt(s) => UnionModel::Float(f64_bits_of(s[i] as int)),
            DataModel::SmallInt(s) => UnionModel::Float(f64_bits_of(s[i] as int)),
            DataModel::Float(s) => UnionModel::Float(s[i]),
            DataModel::Bool(s) => UnionModel::Bool(s[i]),
            DataModel::String(buf, offs) => UnionModel::String(
                buf.subrange(str_start(offs, i), offs[i]),
            ),
            DataModel::Object(s) => UnionModel::Object(s[i]),
            DataModel::Array(s) => UnionModel::Array(s[i]),
            DataModel::Union(s) => s[i],
        }
    }
}

/// The whole payload re-encoded as union entries.
pub open spec fn to_union(data: DataModel, nulls: Seq<bool>) -> Seq<UnionModel> {
    Seq::new(nulls.len(), |i: int| union_entry(data, nulls, i))
}

/// One step of the widening lattice: the payload representation after
/// making room for an incoming datum of kind `t`.  A dataless column
/// adopts the incoming type, backfilling one filler per existing (all
/// null) entry; the numeric chain re-encodes and widens; a union accepts
/// anything; any other mismatch re-encodes the whole payload as a union.
pub open spec fn upcast_data(data: DataModel, t: InternalType, nulls: Seq<bool>) -> DataModel {
    match (data, t) {
        (_, InternalType::Missing) => data,
        (_, InternalType::Null) => data,
        (DataModel::Union(_), _) => data,
        (DataModel::TinyInt(_), InternalType::TinyInt) => data,
        (DataModel::SmallInt(_), InternalType::SmallInt) => data,
        (DataModel::SmallInt(_), InternalType::TinyInt) => data,
        (DataModel::Float(_), InternalType::Float) => data,
        (DataModel::Float(_), InternalType::TinyInt) => data,
        (DataModel::Float(_), InternalType::SmallInt) => data,
        (DataModel::Bool(_), InternalType::Bool) => data,
        (DataModel::String(_, _), InternalType::String) => data,
        (DataModel::Object(_), InternalType::Object) => data,
        (DataModel::Array(_), InternalType::Array) => data,
        (DataModel::Null, InternalType::TinyInt) => DataModel::TinyInt(
            Seq::new(nulls.len(), |i: int| 0i8),
        ),
        (DataModel::Null, InternalType::SmallInt) => DataModel::SmallInt(
            Seq::new(nulls.len(), |i: int| 0i16),
        ),
        (DataModel::Null, InternalType::Float) => DataModel::Float(
            Seq::new(nulls.len(), |i: int| 0u64),
        ),
        (DataModel::Null, InternalType::Bool) => DataModel::Bool(
            Seq::new(nulls.len(), |i: int| false),
        ),
        (DataModel::Null, InternalType::String) => DataModel::String(
            Seq::empty(),
            Seq::new(nulls.len(), |i: int| 0int),
        ),
        (DataModel::Null, InternalType::Object) => DataModel::Object(
            Seq::new(nulls.len(), |i: int| 0int),
        ),
        (DataModel::Null, InternalType::Array) => DataModel::Array(
            Seq::new(nulls.len(), |i: int| 0int),
        ),
        (DataModel::TinyInt(s), InternalType::SmallInt) => DataModel::SmallInt(
            Seq::new(s.len(), |i: int| s[i] as i16),
        ),
        (DataModel::TinyInt(s), InternalType::Float) => DataModel::Float(
            Seq::new(s.len(), |i: int| f64_bits_of(s[i] as int)),
        ),
        (DataModel::SmallInt(s), InternalType::Float) => DataModel::Float(
            Seq::new(s.len(), |i: int| f64_bits_of(s[i] as int)),
        ),
        (_, _) => DataModel::Union(to_union(data, nulls)),
    }
}

/// The payload after appending `d` to a representation already widened to
/// accept it: a null appends a type-appropriate filler, an integer widens
/// to the payload's type, an object or array contributes its size only.
pub open spec fn data_append(data: DataModel, d: Datum) -> DataModel {
    match data {
        DataModel::Null => DataModel::Null,
        DataModel::TinyInt(s) => DataModel::TinyInt(
            s.push(
                match d {
                    Datum::TinyInt(i) => i,
                    _ => 0i8,
                },
            ),
        ),
        DataModel::SmallInt(s) => DataModel::SmallInt(
            s.push(
                match d {
                    Datum::SmallInt(i) => i,
                    Datum::TinyInt(i) => i as i16,
                    _ => 0i16,
                },
            ),
        ),
        DataModel::Float(s) => DataModel::Float(
            s.push(
                match d {
                    Datum::Float(b) => b,
                    Datum::TinyInt(i) => f64_bits_of(i as int),
                    Datum::SmallInt(i) => f64_bits_of(i as int),
                    _ => 0u64,
                },
            ),
        ),
        DataModel::Bool(s) => DataModel::Bool(
            s.push(
                match d {
                    Datum::Bool(b) => b,
                    _ => false,
                },
            ),
        ),
        DataModel::String(buf, offs) => match d {
            Datum::String(s) => DataModel::String(buf + s@, offs.push((buf.len() + s@.len()) as int)),
            _ => DataModel::String(buf, offs.push(buf.len() as int)),
        },
        DataModel::Object(s) => DataModel::Object(
            s.push(
                match d {
                    Datum::Object(fields) => fields@.len() as int,
                    _ => 0int,
                },
            ),
        ),
        DataModel::Array(s) => DataModel::Array(
            s.push(
                match d {
                    Datum::Array(elems) => elems@.len() as int,
                    _ => 0int,
                },
            ),
        ),
        DataModel::Union(s) => DataModel::Union(s.push(union_of_datum(d))),
    }
}

/// A column after appending one datum with index context `idx`: the
/// mirror of [`Column::add_datum`].
pub open spec fn col_append(c: ColumnModel, d: Datum, idx: Seq<u32>) -> ColumnModel {
    ColumnModel {
        indexes: Seq::new(
            c.indexes.len(),
            |k: int|
                if k < idx.len() {
                    c.indexes[k].push(idx[k])
                } else {
                    c.indexes[k]
                },
        ),
        nulls: c.nulls.push(d is Null),
        data: data_append(upcast_data(c.data, d.spec_internal_type(), c.nulls), d),
    }
}

/// Widening preserves the alignment invariant.
pub proof fn lemma_upcast_wf(c: ColumnModel, t: InternalType)
    requires
        c.wf(),
    ensures
        (ColumnModel { data: upcast_data(c.data, t, c.nulls), ..c }).wf(),
{
}

/// Appending one datum keeps every buffer aligned and adds one entry.
pub proof fn lemma_col_append_wf(c: ColumnModel, d: Datum, idx: Seq<u32>)
    requires
        c.wf(),
        !(d is Missing),
        idx.len() == c.indexes.len(),
    ensures
        col_append(c, d, idx).wf(),
        col_append(c, d, idx).len() == c.len() + 1,
        col_append(c, d, idx).indexes.len() == c.indexes.len(),
{
    lemma_upcast_wf(c, d.spec_internal_type());
    let c2 = col_append(c, d, idx);
    let data1 = upcast_data(c.data, d.spec_internal_type(), c.nulls);
    match data1 {
        DataModel::String(buf, offs) => match c2.data {
            DataModel::String(buf2, offs2) => {
                assert(offs2[offs2.len() - 1] == buf2.len());
                assert forall|i: int, j: int| 0 <= i <= j < offs2.len() implies #[trigger] offs2[i]
                    <= #[trigger] offs2[j] by {
                    if j < offs2.len() - 1 {
                        assert(offs[i] <= offs[j]);
                    } else if i < j {
                        assert(offs[i] <= offs[offs.len() - 1]);
                    }
                }
            },
            _ => {
                assert(false);
            },
        },
        DataModel::Null => {
            assert(d is Null);
        },
        _ => {},
    }
}

impl ColumnData {
    /// Whether the column is still dataless and untyped.
    pub fn is_null(&self) -> (r: bool)
        ensures
            r == (self@ is Null),
    {
        matches!(self, ColumnData::Null)
    }

    /// The kind this payload representation stores.
    pub(crate) fn type_for(&self) -> (t: InternalType)
        ensures
            t == self@.type_of(),
    {
        match self {
            ColumnData::Null => InternalType::Null,
            ColumnData::TinyInt(_) => InternalType::TinyInt,
            ColumnData::SmallInt(_) => InternalType::SmallInt,
            ColumnData::Float(_) => InternalType::Float,
            ColumnData::Bool(_) => InternalType::Bool,
            ColumnData::String(_, _) => InternalType::String,
            ColumnData::Object(_) => InternalType::Object,
            ColumnData::Array(_) => InternalType::Array,
            ColumnData::Union(_) => InternalType::Union,
        }
    }
}

/// Every `i8` entry widened to `i16`.
fn widen_i8_to_i16(v: &Vec<i8>) -> (r: Vec<i16>)
    ensures
        r@ == Seq::new(v@.len(), |i: int| v@[i] as i16),
{
    let n = v.len();
    let mut r: Vec<i16> = Vec::new();
    let mut i: usize = 0;
    while i < n
        invariant
            0 <= i <= n,
            n == v@.len(),
            r@.len() == i,
            forall|j: int| 0 <= j < i ==> r@[j] == v@[j] as i16,
        decreases n - i,
    {
        r.push(v[i] as i16);
        i = i + 1;
    }
    proof {
        assert(r@ =~= Seq::new(v@.len(), |i: int| v@[i] as i16));
    }
    r
}

/// Every `i8` entry widened to its exact double bit pattern.
fn widen_i8_to_bits(v: &Vec<i8>) -> (r: Vec<u64>)
    ensures
        r@ == Seq::new(v@.len(), |i: int| f64_bits_of(v@[i] as int)),
{
    let n = v.len();
    let mut r: Vec<u64> = Vec::new();
    let mut i: usize = 0;
    while i < n
        invariant
            0 <= i <= n,
            n == v@.len(),
            r@.len() == i,
            forall|j: int| 0 <= j < i ==> r@[j] == f64_bits_of(v@[j] as int),
        decreases n - i,
    {
        r.push(f64_bits_from_i16(v[i] as i16));
        i = i + 1;
    }
    proof {
        assert(r@ =~= Seq::new(v@.len(), |i: int| f64_bits_of(v@[i] as int)));
    }
    r
}

/// Every `i16` entry widened to its exact double bit pattern.
fn widen_i16_to_bits(v: &Vec<i16>) -> (r: Vec<u64>)
    ensures
        r@ == Seq::new(v@.len(), |i: int| f64_bits_of(v@[i] as int)),
{
    let n = v.len();
    let mut r: Vec<u64> = Vec::new();
    let mut i: usize = 0;
    while i < n
        invariant
            0 <= i <= n,
            n == v@.len(),
            r@.len() == i,
            forall|j: int| 0 <= j < i ==> r@[j] == f64_bits_of(v@[j] as int),
        decreases n - i,
    {
        r.push(f64_bits_from_i16(v[i]));
        i = i + 1;
    }
    proof {
        assert(r@ =~= Seq::new(v@.len(), |i: int| f64_bits_of(v@[i] as int)));
    }
    r
}

/// `n` zero fillers for a backfilled integer payload.
fn zeros_i8(n: usize) -> (r: Vec<i8>)
    ensures
        r@ == Seq::new(n as nat, |i: int| 0i8),
{
    let mut r: Vec<i8> = Vec::new();
    let mut i: usize = 0;
    while i < n
        invariant
            0 <= i <= n,
            r@.len() == i,
            forall|j: int| 0 <= j < i ==> r@[j] == 0i8,
        decreases n - i,
    {
        r.push(0);
        i = i + 1;
    }
    proof {
        assert(r@ =~= Seq::new(n as nat, |i: int| 0i8));
    }
    r
}

/// `n` zero fillers for a backfilled integer payload.
fn zeros_i16(n: usize) -> (r: Vec<i16>)
    ensures
        r@ == Seq::new(n as nat, |i: int| 0i16),
{
    let mut r: Vec<i16> = Vec::new();
    let mut i: usize = 0;
    while i < n
        invariant
            0 <= i <= n,
            r@.len() == i,
            forall|j: int| 0 <= j < i ==> r@[j] == 0i16,
        decreases n - i,
    {
        r.push(0);
        i = i + 1;
    }
    proof {
        assert(r@ =~= Seq::new(n as nat, |i: int| 0i16));
    }
    r
}

/// `n` zero fillers for a backfilled double payload (the bit pattern of
/// positive zero is zero).
fn zeros_u64(n: usize) -> (r: Vec<u64>)
    ensures
        r@ == Seq::new(n as nat, |i: int| 0u64),
{
    let mut r: Vec<u64> = Vec::new();
    let mut i: usize = 0;
    while i < n
        invariant
            0 <= i <= n,
            r@.len() == i,
            forall|j: int| 0 <= j < i ==> r@[j] == 0u64,
        decreases n - i,
    {
        r.push(0);
        i = i + 1;
    }
    proof {
        assert(r@ =~= Seq::new(n as nat, |i: int| 0u64));
    }
    r
}

/// `n` zero fillers for a backfilled size or offset payload.
fn zeros_usize(n: usize) -> (r: Vec<usize>)
    ensures
        ints_of(r@) == Seq::new(n as nat, |i: int| 0int),
{
    let mut r: Vec<usize> = Vec::new();
    let mut i: usize = 0;
    while i < n
        invariant
            0 <= i <= n,
            r@.len() == i,
            forall|j: int| 0 <= j < i ==> r@[j] == 0usize,
        decreases n - i,
    {
        r.push(0);
        i = i + 1;
    }
    proof {
        assert(ints_of(r@) =~= Seq::new(n as nat, |i: int| 0int));
    }
    r
}

/// Row `i`'s slice of a shared string buffer, copied out.
fn read_string_entry(buf: &String, offs: &Vec<usize>, i: usize) -> (r: String)
    requires
        offsets_wf(buf@, ints_of(offs@)),
        i < offs@.len(),
    ensures
        r@ == buf@.subrange(str_start(ints_of(offs@), i as int), ints_of(offs@)[i as int]),
{
    let start: usize = if i == 0 {
        0
    } else {
        offs[i - 1]
    };
    let end: usize = offs[i];
    proof {
        assert(ints_of(offs@)[i as int] <= buf@.len());
        if i > 0 {
            assert(ints_of(offs@)[i as int - 1] <= ints_of(offs@)[i as int]);
        }
    }
    let sub = buf.as_str().substring_char(start, end);
    String::from_str(sub)
}

/// The whole payload re-encoded as union entries, one per row; a row the
/// null bitmap flags becomes the union null, never a filler.
fn to_union_vec(data: &ColumnData, nulls: &bit_vec::BitVec<u32>, n: usize) -> (r: Vec<Union>)
    requires
        n == bits_of(*nulls).len(),
        !(data@ is Union),
        match data@ {
            DataModel::Null => true,
            DataModel::String(buf, offs) => offs.len() == n && offsets_wf(buf, offs),
            _ => data@.len() == n,
        },
    ensures
        r.deep_view() == to_union(data@, bits_of(*nulls)),
{
    let mut r: Vec<Union> = Vec::new();
    let mut i: usize = 0;
    while i < n
        invariant
            0 <= i <= n,
            n == bits_of(*nulls).len(),
            !(data@ is Union),
            match data@ {
                DataModel::Null => true,
                DataModel::String(buf, offs) => offs.len() == n && offsets_wf(buf, offs),
                _ => data@.len() == n,
            },
            r@.len() == i,
            forall|j: int|
                0 <= j < i ==> (#[trigger] r@[j])@ == union_entry(data@, bits_of(*nulls), j),
        decreases n - i,
    {
        let u: Union = if bv_get(nulls, i) {
            Union::Null
        } else {
            match data {
                ColumnData::Null => Union::Null,
                ColumnData::TinyInt(s) => Union::Float(f64_bits_from_i16(s[i] as i16)),
                ColumnData::SmallInt(s) => Union::Float(f64_bits_from_i16(s[i])),
                ColumnData::Float(s) => Union::Float(s[i]),
                ColumnData::Bool(bv) => Union::Bool(bv_get(bv, i)),
                ColumnData::String(buf, offs) => Union::String(read_string_entry(buf, offs, i)),
                ColumnData::Object(s) => Union::Object(s[i]),
                ColumnData::Array(s) => Union::Array(s[i]),
                ColumnData::Union(_) => {
                    proof {
                        assert(false);
                    }
                    Union::Null
                },
            }
        };
        r.push(u);
        i = i + 1;
    }
    proof {
        assert(r.deep_view() =~= to_union(data@, bits_of(*nulls)));
    }
    r
}

impl Column {
    /// A fresh column with one empty index buffer per depth level.
    pub(crate) fn new(depth: usize) -> (r: Column)
        ensures
            r@ == ColumnModel::empty(depth as nat),
    {
        let mut idx: Vec<Vec<u32>> = Vec::new();
        let mut d: usize = 0;
        while d < depth
            invariant
                0 <= d <= depth,
                idx@.len() == d,
                forall|k: int| 0 <= k < d ==> (#[trigger] idx@[k])@ == Seq::<u32>::empty(),
            decreases depth - d,
        {
            idx.push(Vec::new());
            d = d + 1;
        }
        let r = Column { indexes: idx, data: ColumnData::Null, null_map: bv_new() };
        proof {
            assert(r@.indexes =~~= ColumnModel::empty(depth as nat).indexes);
            assert(r@ =~~= ColumnModel::empty(depth as nat));
        }
        r
    }

    /// The number of entries this column holds.
    pub fn len(&self) -> (r: usize)
        ensures
            r == self@.len(),
    {
        bv_len(&self.null_map)
    }

    /// How many nesting levels this column records: one index buffer each.
    pub fn depth(&self) -> (r: usize)
        ensures
            r == self@.indexes.len(),
    {
        self.indexes.len()
    }

    /// Whether entry `i` was an explicit null.
    pub fn null_at(&self, i: usize) -> (r: bool)
        requires
            i < self@.len(),
        ensures
            r == self@.nulls[i as int],
    {
        bv_get(&self.null_map, i)
    }

    /// The position, within its parent context at depth `d`, that produced
    /// entry `i`.
    pub fn index_at(&self, d: usize, i: usize) -> (r: u32)
        requires
            self@.wf(),
            d < self@.indexes.len(),
            i < self@.len(),
        ensures
            r == self@.indexes[d as int][i as int],
    {
        proof {
            assert(self@.indexes[d as int] == self.indexes@[d as int]@);
        }
        self.indexes[d][i]
    }

    /// Widens the payload so that a datum of kind `data_type` can be
    /// appended; index buffers and the null bitmap are untouched.
    fn up_cast(&mut self, data_type: InternalType)
        requires
            old(self)@.wf(),
            !(data_type is Union),
        ensures
            final(self)@.data == upcast_data(old(self)@.data, data_type, old(self)@.nulls),
            final(self)@.indexes == old(self)@.indexes,
            final(self)@.nulls == old(self)@.nulls,
            final(self)@.wf(),
    {
        proof {
            lemma_upcast_wf(old(self)@, data_type);
        }
        if matches!(data_type, InternalType::Missing | InternalType::Null) {
            return;
        }
        let t_cur = self.data.type_for();
        match (t_cur, data_type) {
            (InternalType::Union, _) => {},
            (InternalType::Float, InternalType::Float)
            | (InternalType::TinyInt, InternalType::TinyInt)
            | (InternalType::SmallInt, InternalType::SmallInt)
            | (InternalType::Array, InternalType::Array)
            | (InternalType::String, InternalType::String)
            | (InternalType::Object, InternalType::Object)
            | (InternalType::Bool, InternalType::Bool) => {},
            (InternalType::SmallInt, InternalType::TinyInt)
            | (InternalType::Float, InternalType::TinyInt)
            | (InternalType::Float, InternalType::SmallInt) => {},
            (InternalType::Null, _) => {
                let n = bv_len(&self.null_map);
                match data_type {
                    InternalType::Bool => {
                        let mut bv = bv_new();
                        bv_grow(&mut bv, n, false);
                        self.data = ColumnData::Bool(bv);
                        proof {
                            assert(self@.data =~~= upcast_data(
                                old(self)@.data,
                                data_type,
                                old(self)@.nulls,
                            ));
                        }
                    },
                    InternalType::TinyInt => {
                        self.data = ColumnData::TinyInt(zeros_i8(n));
                    },
                    InternalType::SmallInt => {
                        self.data = ColumnData::SmallInt(zeros_i16(n));
                    },
                    InternalType::Float => {
                        self.data = ColumnData::Float(zeros_u64(n));
                    },
                    InternalType::String => {
                        self.data = ColumnData::String(String::new(), zeros_usize(n));
                    },
                    InternalType::Object => {
                        self.data = ColumnData::Object(zeros_usize(n));
                    },
                    InternalType::Array => {
                        self.data = ColumnData::Array(zeros_usize(n));
                    },
                    _ => {
                        proof {
                            assert(false);
                        }
                    },
                }
                proof {
                    assert(self@.data =~~= upcast_data(
                        old(self)@.data,
                        data_type,
                        old(self)@.nulls,
                    ));
                }
            },
            (InternalType::TinyInt, InternalType::SmallInt) => {
                let v = match &self.data {
                    ColumnData::TinyInt(v) => widen_i8_to_i16(v),
                    _ => {
                        proof {
                            assert(false);
                        }
                        Vec::new()
                    },
                };
                self.data = ColumnData::SmallInt(v);
            },
            (InternalType::TinyInt, InternalType::Float) => {
                let v = match &self.data {
                    ColumnData::TinyInt(v) => widen_i8_to_bits(v),
                    _ => {
                        proof {
                            assert(false);
                        }
                        Vec::new()
                    },
                };
                self.data = ColumnData::Float(v);
            },
            (InternalType::SmallInt, InternalType::Float) => {
                let v = match &self.data {
                    ColumnData::SmallInt(v) => widen_i16_to_bits(v),
                    _ => {
                        proof {
                            assert(false);
                        }
                        Vec::new()
                    },
                };
                self.data = ColumnData::Float(v);
            },
            (_, _) => {
                let n = bv_len(&self.null_map);
                let u = to_union_vec(&self.data, &self.null_map, n);
                self.data = ColumnData::Union(u);
                proof {
                    assert(self@.data =~~= upcast_data(
                        old(self)@.data,
                        data_type,
                        old(self)@.nulls,
                    ));
                }
            },
        }
    }

    /// Appends one datum: widens the payload, records one positional index
    /// per depth, one null bit, and the datum's payload (a filler for an
    /// explicit null, the size alone for an object or array).
    pub(crate) fn add_datum(&mut self, datum: &Datum, indexes: &Vec<u32>)
        requires
            old(self)@.wf(),
            !(*datum is Missing),
            indexes@.len() == old(self)@.indexes.len(),
        ensures
            final(self)@ == col_append(old(self)@, *datum, indexes@),
            final(self)@.wf(),
    {
        proof {
            lemma_col_append_wf(old(self)@, *datum, indexes@);
            assert(!(datum.spec_internal_type() is Union));
        }
        self.up_cast(datum.internal_type());
        proof {
            assert forall|j: int| 0 <= j < self.indexes@.len() implies (
            #[trigger] self.indexes@[j])@ == old(self).indexes@[j]@ by {
                assert(idx_view(self.indexes@)[j] == idx_view(old(self).indexes@)[j]);
            }
        }
        let depth = self.indexes.len();
        let mut k: usize = 0;
        while k < depth
            invariant
                0 <= k <= depth,
                self.indexes@.len() == depth,
                depth == indexes@.len(),
                depth == old(self).indexes@.len(),
                self@.data == upcast_data(
                    old(self)@.data,
                    (*datum).spec_internal_type(),
                    old(self)@.nulls,
                ),
                self@.nulls == old(self)@.nulls,
                forall|j: int|
                    0 <= j < k ==> (#[trigger] self.indexes@[j])@ == old(self).indexes@[j]@.push(
                        indexes@[j],
                    ),
                forall|j: int|
                    k <= j < depth ==> (#[trigger] self.indexes@[j])@ == old(self).indexes@[j]@,
            decreases depth - k,
        {
            self.indexes[k].push(indexes[k]);
            k = k + 1;
        }
        proof {
            assert(old(self)@.indexes[0] == old(self).indexes@[0]@);
            assert(old(self).indexes@[0]@.len() == old(self)@.nulls.len());
        }
        let l = self.indexes[0].len();
        proof {
            assert(l == old(self)@.nulls.len() + 1);
            assert(bits_of(self.null_map).len() < usize::MAX);
        }
        bv_push(&mut self.null_map, datum.is_null());
        match (&mut self.data, datum) {
            (ColumnData::Null, Datum::Null) => {},
            (ColumnData::Bool(vec), Datum::Bool(b)) => bv_push(vec, *b),
            (ColumnData::Bool(vec), Datum::Null) => bv_push(vec, false),
            (ColumnData::TinyInt(vec), Datum::TinyInt(i)) => vec.push(*i),
            (ColumnData::TinyInt(vec), Datum::Null) => vec.push(0),
            (ColumnData::SmallInt(vec), Datum::SmallInt(i)) => vec.push(*i),
            (ColumnData::SmallInt(vec), Datum::TinyInt(i)) => vec.push(*i as i16),
            (ColumnData::SmallInt(vec), Datum::Null) => vec.push(0),
            (ColumnData::Float(vec), Datum::Float(f)) => vec.push(*f),
            (ColumnData::Float(vec), Datum::SmallInt(i)) => vec.push(f64_bits_from_i16(*i)),
            (ColumnData::Float(vec), Datum::TinyInt(i)) => vec.push(f64_bits_from_i16(*i as i16)),
            (ColumnData::Float(vec), Datum::Null) => vec.push(0),
            (ColumnData::String(str_buf, offsets), Datum::String(s)) => {
                str_buf.append(s.as_str());
                let e = str_buf.as_str().unicode_len();
                offsets.push(e);
            },
            (ColumnData::String(str_buf, offsets), Datum::Null) => {
                let e = str_buf.as_str().unicode_len();
                offsets.push(e);
            },
            (ColumnData::Array(sizes), Datum::Array(arr)) => sizes.push(arr.len()),
            (ColumnData::Array(sizes), Datum::Null) => sizes.push(0),
            (ColumnData::Object(sizes), Datum::Object(obj)) => sizes.push(obj.len()),
            (ColumnData::Object(sizes), Datum::Null) => sizes.push(0),
            (ColumnData::Union(vec), Datum::Null) => vec.push(Union::Null),
            (ColumnData::Union(vec), Datum::Bool(b)) => vec.push(Union::Bool(*b)),
            (ColumnData::Union(vec), Datum::TinyInt(i)) => vec.push(
                Union::Float(f64_bits_from_i16(*i as i16)),
            ),
            (ColumnData::Union(vec), Datum::SmallInt(i)) => vec.push(
                Union::Float(f64_bits_from_i16(*i)),
            ),
            (ColumnData::Union(vec), Datum::Float(f)) => vec.push(Union::Float(*f)),
            (ColumnData::Union(vec), Datum::String(s)) => vec.push(Union::String(s.clone())),
            (ColumnData::Union(vec), Datum::Object(obj)) => vec.push(Union::Object(obj.len())),
            (ColumnData::Union(vec), Datum::Array(arr)) => vec.push(Union::Array(arr.len())),
            _ => {
                proof {
                    assert(false);
                }
            },
        }
        proof {
            let target = col_append(old(self)@, *datum, indexes@);
            assert(self@.data =~~= target.data);
            assert(self@.indexes =~~= target.indexes);
            assert(self@ =~~= target);
        }
    }
}

} // verus!
