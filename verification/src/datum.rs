//! The row-oriented value model: one JSON-like value as a tagged union.

use crate::fbits::{f64_bits_from_i16, f64_bits_of};
use vstd::prelude::*;

verus! {

/// One semi-structured value: the row-oriented intermediate form that the
/// loader produces and the stripe shreds.
#[derive(Debug, PartialEq)]
pub enum Datum {
    Null,
    /// A key that is absent altogether: the difference between `{"a": null}`
    /// and `{}` when looking up `"a"`.
    Missing,
    /// A 64-bit IEEE-754 value, carried as its bit pattern.
    Float(u64),
    TinyInt(i8),
    SmallInt(i16),
    Bool(bool),
    String(String),
    Array(Vec<Datum>),
    /// A mapping from string key to value; well-formed data has no
    /// duplicate keys.
    Object(Vec<(String, Datum)>),
}

/// The coarse, externally visible kind of a datum.
#[derive(Copy, Clone, Debug, PartialEq, Eq, Structural)]
pub enum JsonType {
    Null,
    Missing,
    Number,
    Bool,
    String,
    Array,
    Object,
}

/// The fine-grained kind used to drive a column's type-widening lattice.
#[derive(Copy, Clone, Debug, PartialEq, Eq, Structural)]
pub enum InternalType {
    Null,
    Missing,
    Float,
    TinyInt,
    SmallInt,
    Bool,
    String,
    Array,
    Object,
    Union,
}

impl Datum {
    /// The fine-grained kind of this datum.
    pub open spec fn spec_internal_type(self) -> InternalType {
        match self {
            Datum::Null => InternalType::Null,
            Datum::Missing => InternalType::Missing,
            Datum::Float(_) => InternalType::Float,
            Datum::TinyInt(_) => InternalType::TinyInt,
            Datum::SmallInt(_) => InternalType::SmallInt,
            Datum::Bool(_) => InternalType::Bool,
            Datum::String(_) => InternalType::String,
            Datum::Array(_) => InternalType::Array,
            Datum::Object(_) => InternalType::Object,
        }
    }

    /// The coarse kind of this datum.
    pub open spec fn spec_json_type(self) -> JsonType {
        match self {
            Datum::Null => JsonType::Null,
            Datum::Missing => JsonType::Missing,
            Datum::Float(_) => JsonType::Number,
            Datum::TinyInt(_) => JsonType::Number,
            Datum::SmallInt(_) => JsonType::Number,
            Datum::Bool(_) => JsonType::Bool,
            Datum::String(_) => JsonType::String,
            Datum::Array(_) => JsonType::Array,
            Datum::Object(_) => JsonType::Object,
        }
    }

    /// Every array the datum contains is short enough for its element
    /// positions to be recorded in 32-bit index buffers.
    pub open spec fn fits(self) -> bool
        decreases self, 0int, 0int,
    {
        match self {
            Datum::Array(elems) => elems@.len() <= u32::MAX && seq_fits(elems@, 0),
            Datum::Object(fields) => fields_fit(fields@, 0),
            _ => true,
        }
    }

    /// Every object the datum contains maps each key at most once.
    pub open spec fn wf(self) -> bool
        decreases self, 0int, 0int,
    {
        match self {
            Datum::Array(elems) => seq_wf(elems@, 0),
            Datum::Object(fields) => keys_distinct(fields@) && fields_wf(fields@, 0),
            _ => true,
        }
    }

    /// The widened double bit pattern of a numeric datum.
    pub open spec fn spec_as_f64(self) -> Option<u64> {
        match self {
            Datum::Float(b) => Some(b),
            Datum::TinyInt(i) => Some(f64_bits_of(i as int)),
            Datum::SmallInt(i) => Some(f64_bits_of(i as int)),
            _ => None,
        }
    }

    /// The coarse kind of this datum.
    pub fn json_type(&self) -> (t: JsonType)
        ensures
            t == self.spec_json_type(),
    {
        match self {
            Datum::Null => JsonType::Null,
            Datum::Missing => JsonType::Missing,
            Datum::Float(_) => JsonType::Number,
            Datum::TinyInt(_) => JsonType::Number,
            Datum::SmallInt(_) => JsonType::Number,
            Datum::Bool(_) => JsonType::Bool,
            Datum::String(_) => JsonType::String,
            Datum::Array(_) => JsonType::Array,
            Datum::Object(_) => JsonType::Object,
        }
    }

    /// Whether this datum is the explicit `null` value.
    pub fn is_null(&self) -> (r: bool)
        ensures
            r == (self is Null),
    {
        matches!(self, Datum::Null)
    }

    /// Whether this datum marks an absent key.
    pub fn is_missing(&self) -> (r: bool)
        ensures
            r == (self is Missing),
    {
        matches!(self, Datum::Missing)
    }

    /// The widened double bit pattern of a numeric datum; `None` for every
    /// non-numeric variant.
    pub fn as_f64(&self) -> (r: Option<u64>)
        ensures
            r == self.spec_as_f64(),
    {
        match self {
            Datum::Float(b) => Some(*b),
            Datum::SmallInt(i) => Some(f64_bits_from_i16(*i)),
            Datum::TinyInt(i) => Some(f64_bits_from_i16(*i as i16)),
            _ => None,
        }
    }

    /// The fine-grained kind of this datum.
    pub(crate) fn internal_type(&self) -> (t: InternalType)
        ensures
            t == self.spec_internal_type(),
    {
        match self {
            Datum::Null => InternalType::Null,
            Datum::Missing => InternalType::Missing,
            Datum::Float(_) => InternalType::Float,
            Datum::TinyInt(_) => InternalType::TinyInt,
            Datum::SmallInt(_) => InternalType::SmallInt,
            Datum::Bool(_) => InternalType::Bool,
            Datum::String(_) => InternalType::String,
            Datum::Array(_) => InternalType::Array,
            Datum::Object(_) => InternalType::Object,
        }
    }

    /// The narrowest integer datum that represents `v` exactly, if the
    /// narrow integer types can hold it at all.
    pub fn from_i64(v: i64) -> (r: Option<Datum>)
        ensures
            -0x80 <= v <= 0x7F ==> r == Some(Datum::TinyInt(v as i8)),
            !(-0x80 <= v <= 0x7F) && -0x8000 <= v <= 0x7FFF ==> r == Some(
                Datum::SmallInt(v as i16),
            ),
            !(-0x8000 <= v <= 0x7FFF) ==> r is None,
    {
        if -0x80 <= v && v <= 0x7F {
            Some(Datum::TinyInt(v as i8))
        } else if -0x8000 <= v && v <= 0x7FFF {
            Some(Datum::SmallInt(v as i16))
        } else {
            None
        }
    }

    /// The value stored under `key`, if this datum is an object that
    /// contains that key.
    pub open spec fn spec_get_key(self, key: Seq<char>) -> Option<Datum> {
        match self {
            Datum::Object(fields) => field_lookup(fields@, key, 0),
            _ => None,
        }
    }

    /// Looks `key` up in an object datum; `None` for every other variant
    /// and for an object without that key.
    pub fn get_key<'a>(&'a self, key: &String) -> (r: Option<&'a Datum>)
        ensures
            match r {
                Some(d) => self.spec_get_key(key@) == Some(*d),
                None => self.spec_get_key(key@) is None,
            },
    {
        match self {
            Datum::Object(fields) => {
                let n = fields.len();
                let mut i: usize = 0;
                while i < n
                    invariant
                        self is Object,
                        *fields == self->Object_0,
                        n == fields@.len(),
                        0 <= i <= n,
                        field_lookup(fields@, key@, 0) == field_lookup(
                            fields@,
                            key@,
                            i as int,
                        ),
                    decreases n - i,
                {
                    if fields[i].0.eq(key) {
                        proof {
                            assert(fields@[i as int].0@ == key@);
                            assert(field_lookup(fields@, key@, i as int) == Some(
                                fields@[i as int].1,
                            ));
                            assert(self is Object);
                            assert(self->Object_0 == *fields);
                            assert(self.spec_get_key(key@) == field_lookup(fields@, key@, 0));
                            assert(self.spec_get_key(key@) == Some(fields@[i as int].1));
                        }
                        return Some(&fields[i].1);
                    }
                    i = i + 1;
                }
                None
            },
            _ => None,
        }
    }
}


/// No two fields share a key.
pub open spec fn keys_distinct(fields: Seq<(String, Datum)>) -> bool {
    forall|i: int, j: int|
        0 <= i < j < fields.len() ==> (#[trigger] fields[i].0)@ != (#[trigger] fields[j].0)@
}

/// The elements at positions `i` and beyond all fit.
pub open spec fn seq_fits(s: Seq<Datum>, i: int) -> bool
    decreases s, 1int, s.len() - i,
{
    if i < 0 || i >= s.len() {
        true
    } else {
        s[i].fits() && seq_fits(s, i + 1)
    }
}

/// The field values at positions `i` and beyond all fit.
pub open spec fn fields_fit(s: Seq<(String, Datum)>, i: int) -> bool
    decreases s, 1int, s.len() - i,
{
    if i < 0 || i >= s.len() {
        true
    } else {
        s[i].1.fits() && fields_fit(s, i + 1)
    }
}

/// The elements at positions `i` and beyond are all well-formed.
pub open spec fn seq_wf(s: Seq<Datum>, i: int) -> bool
    decreases s, 1int, s.len() - i,
{
    if i < 0 || i >= s.len() {
        true
    } else {
        s[i].wf() && seq_wf(s, i + 1)
    }
}

/// The field values at positions `i` and beyond are all well-formed.
pub open spec fn fields_wf(s: Seq<(String, Datum)>, i: int) -> bool
    decreases s, 1int, s.len() - i,
{
    if i < 0 || i >= s.len() {
        true
    } else {
        s[i].1.wf() && fields_wf(s, i + 1)
    }
}

/// An element property recorded from the front reaches every position.
proof fn lemma_seq_fits_from(s: Seq<Datum>, j: int, i: int)
    requires
        seq_fits(s, j),
        0 <= j <= i < s.len(),
    ensures
        s[i].fits(),
    decreases i - j,
{
    if j < i {
        lemma_seq_fits_from(s, j + 1, i);
    }
}

/// An element property recorded from the front reaches every position.
proof fn lemma_fields_fit_from(s: Seq<(String, Datum)>, j: int, i: int)
    requires
        fields_fit(s, j),
        0 <= j <= i < s.len(),
    ensures
        s[i].1.fits(),
    decreases i - j,
{
    if j < i {
        lemma_fields_fit_from(s, j + 1, i);
    }
}

/// An element property recorded from the front reaches every position.
proof fn lemma_seq_wf_from(s: Seq<Datum>, j: int, i: int)
    requires
        seq_wf(s, j),
        0 <= j <= i < s.len(),
    ensures
        s[i].wf(),
    decreases i - j,
{
    if j < i {
        lemma_seq_wf_from(s, j + 1, i);
    }
}

/// An element property recorded from the front reaches every position.
proof fn lemma_fields_wf_from(s: Seq<(String, Datum)>, j: int, i: int)
    requires
        fields_wf(s, j),
        0 <= j <= i < s.len(),
    ensures
        s[i].1.wf(),
    decreases i - j,
{
    if j < i {
        lemma_fields_wf_from(s, j + 1, i);
    }
}

/// A well-formed object that fits passes both properties to each field.
pub proof fn lemma_object_child(d: Datum, i: int)
    requires
        d.wf(),
        d.fits(),
        d is Object,
        0 <= i < d->Object_0@.len(),
    ensures
        d->Object_0@[i].1.wf(),
        d->Object_0@[i].1.fits(),
{
    match d {
        Datum::Object(fields) => {
            lemma_fields_wf_from(fields@, 0, i);
            lemma_fields_fit_from(fields@, 0, i);
        },
        _ => {},
    }
}

/// A well-formed array that fits passes both properties to each element.
pub proof fn lemma_array_child(d: Datum, i: int)
    requires
        d.wf(),
        d.fits(),
        d is Array,
        0 <= i < d->Array_0@.len(),
    ensures
        d->Array_0@[i].wf(),
        d->Array_0@[i].fits(),
{
    match d {
        Datum::Array(elems) => {
            lemma_seq_wf_from(elems@, 0, i);
            lemma_seq_fits_from(elems@, 0, i);
        },
        _ => {},
    }
}

/// First match of `key` among the fields at positions `i` and beyond.
pub open spec fn field_lookup(fields: Seq<(String, Datum)>, key: Seq<char>, i: int) -> Option<
    Datum,
>
    decreases fields.len() - i,
{
    if i < 0 || i >= fields.len() {
        None
    } else if fields[i].0@ == key {
        Some(fields[i].1)
    } else {
        field_lookup(fields, key, i + 1)
    }
}

} // verus!
