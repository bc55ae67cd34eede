use jsonc::columnar::column::{ColumnData, Union};
use jsonc::columnar::{PathComponent, Stripe};
use jsonc::datum::{Datum, JsonType};
use jsonc::fbits::f64_bits_from_i16;

fn obj(fields: Vec<(&str, Datum)>) -> Datum {
    Datum::Object(fields.into_iter().map(|(k, v)| (String::from(k), v)).collect())
}

fn key_path(k: &str) -> Vec<PathComponent> {
    vec![PathComponent::Key(String::from(k))]
}

#[test]
fn f64_bits_match_hardware_doubles() {
    let samples: Vec<i16> = vec![0, 1, -1, 2, 5, 127, -128, 255, 256, 300, -300, 1023, 4096, 32767, -32768];
    for v in samples {
        assert_eq!(f64_bits_from_i16(v), (v as f64).to_bits(), "value {}", v);
    }
    let mut v: i32 = -32768;
    while v <= 32767 {
        assert_eq!(f64_bits_from_i16(v as i16), (v as f64).to_bits());
        v += 97;
    }
}

#[test]
fn datum_classification() {
    assert_eq!(Datum::Null.json_type(), JsonType::Null);
    assert_eq!(Datum::Missing.json_type(), JsonType::Missing);
    assert_eq!(Datum::TinyInt(3).json_type(), JsonType::Number);
    assert_eq!(Datum::SmallInt(300).json_type(), JsonType::Number);
    assert_eq!(Datum::Float(2.5f64.to_bits()).json_type(), JsonType::Number);
    assert_eq!(Datum::Bool(true).json_type(), JsonType::Bool);
    assert_eq!(Datum::String(String::from("x")).json_type(), JsonType::String);
    assert_eq!(Datum::Array(vec![]).json_type(), JsonType::Array);
    assert_eq!(obj(vec![]).json_type(), JsonType::Object);
    assert!(Datum::Null.is_null());
    assert!(!Datum::Missing.is_null());
    assert!(Datum::Missing.is_missing());
}

#[test]
fn as_f64_widens_numbers_exactly() {
    assert_eq!(Datum::TinyInt(-7).as_f64(), Some((-7f64).to_bits()));
    assert_eq!(Datum::SmallInt(1234).as_f64(), Some(1234f64.to_bits()));
    assert_eq!(Datum::Float(0.5f64.to_bits()).as_f64(), Some(0.5f64.to_bits()));
    assert_eq!(Datum::Bool(true).as_f64(), None);
    assert_eq!(Datum::Null.as_f64(), None);
    assert_eq!(Datum::String(String::from("1")).as_f64(), None);
}

#[test]
fn from_i64_picks_narrowest() {
    assert_eq!(Datum::from_i64(7), Some(Datum::TinyInt(7)));
    assert_eq!(Datum::from_i64(-128), Some(Datum::TinyInt(-128)));
    assert_eq!(Datum::from_i64(127), Some(Datum::TinyInt(127)));
    assert_eq!(Datum::from_i64(128), Some(Datum::SmallInt(128)));
    assert_eq!(Datum::from_i64(-129), Some(Datum::SmallInt(-129)));
    assert_eq!(Datum::from_i64(32767), Some(Datum::SmallInt(32767)));
    assert_eq!(Datum::from_i64(-32768), Some(Datum::SmallInt(-32768)));
    assert_eq!(Datum::from_i64(32768), None);
    assert_eq!(Datum::from_i64(-32769), None);
}

#[test]
fn missing_is_invisible() {
    let mut s = Stripe::new();
    s.push_datum(&obj(vec![]));
    s.push_datum(&obj(vec![("a", Datum::Null)]));
    s.push_datum(&obj(vec![("a", Datum::TinyInt(1))]));
    let col = s.get_column(&key_path("a")).expect("column for a");
    assert_eq!(col.len(), 2);
    assert!(col.null_at(0));
    assert!(!col.null_at(1));
    match &col.data {
        ColumnData::TinyInt(v) => assert_eq!(v.as_slice(), &[0, 1]),
        _ => panic!("unexpected representation"),
    }
    // the root object column saw all three pushes
    let root = s.get_column(&[]).expect("root column");
    assert_eq!(root.len(), 3);
    // depth-0 index buffer carries the row numbers
    assert_eq!(col.index_at(0, 0), 1);
    assert_eq!(col.index_at(0, 1), 2);
}

#[test]
fn upcast_widens_exactly() {
    let mut s = Stripe::new();
    s.push_datum(&Datum::TinyInt(5));
    s.push_datum(&Datum::SmallInt(300));
    s.push_datum(&Datum::Float(2.5f64.to_bits()));
    let col = s.get_column(&[]).expect("root column");
    assert_eq!(col.len(), 3);
    match &col.data {
        ColumnData::Float(v) => {
            assert_eq!(v.as_slice(), &[5f64.to_bits(), 300f64.to_bits(), 2.5f64.to_bits()]);
        },
        _ => panic!("expected a float column"),
    }
}

#[test]
fn upcast_through_null_padding() {
    let mut s = Stripe::new();
    s.push_datum(&obj(vec![("a", Datum::Null)]));
    s.push_datum(&obj(vec![("a", Datum::Null)]));
    s.push_datum(&obj(vec![("a", Datum::Bool(true))]));
    let col = s.get_column(&key_path("a")).expect("column for a");
    assert_eq!(col.len(), 3);
    assert!(col.null_at(0) && col.null_at(1) && !col.null_at(2));
    match &col.data {
        ColumnData::Bool(bv) => {
            assert_eq!(bv.get(0), Some(false));
            assert_eq!(bv.get(1), Some(false));
            assert_eq!(bv.get(2), Some(true));
        },
        _ => panic!("expected a boolean column"),
    }
}

#[test]
fn union_fallback_round_trip() {
    let mut s = Stripe::new();
    s.push_datum(&Datum::Bool(true));
    s.push_datum(&Datum::String(String::from("hi")));
    let col = s.get_column(&[]).expect("root column");
    assert_eq!(col.len(), 2);
    match &col.data {
        ColumnData::Union(v) => {
            assert_eq!(v[0], Union::Bool(true));
            assert_eq!(v[1], Union::String(String::from("hi")));
        },
        _ => panic!("expected a union column"),
    }
}

#[test]
fn union_preserves_null_entries() {
    let mut s = Stripe::new();
    s.push_datum(&Datum::TinyInt(4));
    s.push_datum(&Datum::Null);
    s.push_datum(&Datum::String(String::from("z")));
    let col = s.get_column(&[]).expect("root column");
    assert_eq!(col.len(), 3);
    assert!(!col.null_at(0) && col.null_at(1) && !col.null_at(2));
    match &col.data {
        ColumnData::Union(v) => {
            assert_eq!(v[0], Union::Float(4f64.to_bits()));
            assert_eq!(v[1], Union::Null);
            assert_eq!(v[2], Union::String(String::from("z")));
        },
        _ => panic!("expected a union column"),
    }
}

#[test]
fn nested_array_indexing() {
    let mut s = Stripe::new();
    s.push_datum(&obj(vec![(
        "a",
        Datum::Array(vec![Datum::TinyInt(1), Datum::TinyInt(2)]),
    )]));
    s.push_datum(&obj(vec![("a", Datum::Array(vec![]))]));

    let sizes = s.get_column(&key_path("a")).expect("size column");
    assert_eq!(sizes.len(), 2);
    match &sizes.data {
        ColumnData::Array(v) => assert_eq!(v.as_slice(), &[2usize, 0usize]),
        _ => panic!("expected an array-size column"),
    }

    let elems_path = vec![PathComponent::Key(String::from("a")), PathComponent::Array];
    let elems = s.get_column(&elems_path).expect("element column");
    assert_eq!(elems.len(), 2);
    assert_eq!(elems.depth(), 2);
    match &elems.data {
        ColumnData::TinyInt(v) => assert_eq!(v.as_slice(), &[1, 2]),
        _ => panic!("expected a narrow integer column"),
    }
    assert_eq!(elems.index_at(1, 0), 0);
    assert_eq!(elems.index_at(1, 1), 1);
    assert_eq!(elems.index_at(0, 0), 0);
    assert_eq!(elems.index_at(0, 1), 0);
}

#[test]
fn object_children_share_parent_context() {
    let mut s = Stripe::new();
    s.push_datum(&obj(vec![(
        "outer",
        obj(vec![("inner", Datum::TinyInt(9))]),
    )]));
    let outer = s.get_column(&key_path("outer")).expect("outer column");
    match &outer.data {
        ColumnData::Object(v) => assert_eq!(v.as_slice(), &[1usize]),
        _ => panic!("expected an object-size column"),
    }
    let inner_path = vec![
        PathComponent::Key(String::from("outer")),
        PathComponent::Key(String::from("inner")),
    ];
    let inner = s.get_column(&inner_path).expect("inner column");
    assert_eq!(inner.depth(), 1);
    assert_eq!(inner.len(), 1);
    assert_eq!(inner.index_at(0, 0), 0);
}

#[test]
fn lookup_misses_are_not_errors() {
    let mut s = Stripe::new();
    s.push_datum(&obj(vec![("a", Datum::TinyInt(1))]));
    assert!(s.get_column(&key_path("b")).is_none());
    assert!(s.get_column(&key_path("a")).is_some());
}

#[test]
fn get_key_reads_object_fields() {
    let d = obj(vec![("a", Datum::TinyInt(1)), ("b", Datum::Bool(false))]);
    assert!(matches!(d.get_key(&String::from("a")), Some(&Datum::TinyInt(1))));
    assert!(matches!(d.get_key(&String::from("b")), Some(&Datum::Bool(false))));
    assert!(d.get_key(&String::from("c")).is_none());
    assert!(Datum::TinyInt(1).get_key(&String::from("a")).is_none());
}

fn mixed_stripe() -> Stripe {
    let mut s = Stripe::new();
    s.push_datum(&obj(vec![
        ("num", Datum::TinyInt(1)),
        ("txt", Datum::String(String::from("alpha"))),
        ("arr", Datum::Array(vec![Datum::TinyInt(1), Datum::Null])),
        ("sub", obj(vec![("f", Datum::Float(2.5f64.to_bits()))])),
    ]));
    s.push_datum(&obj(vec![
        ("num", Datum::SmallInt(4000)),
        ("txt", Datum::Null),
        ("arr", Datum::Array(vec![])),
        ("mix", Datum::Bool(true)),
    ]));
    s.push_datum(&obj(vec![
        ("mix", Datum::String(String::from("now a union"))),
        ("txt", Datum::String(String::from("beta"))),
    ]));
    s
}

#[test]
fn codec_round_trips_a_mixed_stripe() {
    let s = mixed_stripe();
    let bytes = s.encode();
    let back = Stripe::decode(&bytes).expect("decoding an encoded stripe");
    // framing is deterministic, so a faithful round trip re-frames identically
    assert_eq!(back.encode(), bytes);
    assert_eq!(back.count, s.count);
    assert_eq!(back.columns.len(), s.columns.len());
    let txt = back.get_column(&key_path("txt")).expect("txt column");
    assert_eq!(txt.len(), 3);
    assert!(txt.null_at(1));
    match &txt.data {
        ColumnData::String(buf, offs) => {
            assert_eq!(buf.as_str(), "alphabeta");
            assert_eq!(offs.as_slice(), &[5usize, 5usize, 9usize]);
        },
        _ => panic!("expected a string column"),
    }
    // a column that starts part way through holds entries only for the
    // rows that reached it; the row index buffer says which rows those were
    let mix = back.get_column(&key_path("mix")).expect("mix column");
    assert_eq!(mix.len(), 2);
    assert_eq!(mix.index_at(0, 0), 1);
    assert_eq!(mix.index_at(0, 1), 2);
    match &mix.data {
        ColumnData::Union(v) => {
            assert_eq!(v[0], Union::Bool(true));
            assert_eq!(v[1], Union::String(String::from("now a union")));
        },
        _ => panic!("expected a union column"),
    }
}

#[test]
fn codec_rejects_mangled_frames() {
    let s = mixed_stripe();
    let bytes = s.encode();
    // truncation
    let mut cut = bytes.clone();
    cut.pop();
    assert!(Stripe::decode(&cut).is_none());
    // trailing garbage
    let mut extended = bytes.clone();
    extended.push(0);
    assert!(Stripe::decode(&extended).is_none());
    // empty input
    assert!(Stripe::decode(&Vec::new()).is_none());
    // an absurd tag word up front is not a frame either
    let junk: Vec<u8> = vec![0xFF; 64];
    assert!(Stripe::decode(&junk).is_none());
}

#[test]
fn codec_round_trips_an_empty_stripe() {
    let s = Stripe::new();
    let bytes = s.encode();
    let back = Stripe::decode(&bytes).expect("decoding an empty stripe");
    assert_eq!(back.count, 0);
    assert_eq!(back.columns.len(), 0);
}

#[test]
fn row_and_columnar_aggregation_agree() {
    let rows = vec![
        obj(vec![("v", Datum::TinyInt(1))]),
        obj(vec![]),
        obj(vec![("v", Datum::Null)]),
        obj(vec![("v", Datum::Float(2.5f64.to_bits()))]),
        obj(vec![("v", Datum::SmallInt(300))]),
        obj(vec![("w", Datum::TinyInt(9))]),
    ];
    // row-wise
    let mut row_sum = 0f64;
    let mut row_count = 0u64;
    for r in &rows {
        if let Some(field) = r.get_key(&String::from("v")) {
            if let Some(bits) = field.as_f64() {
                row_sum += f64::from_bits(bits);
                row_count += 1;
            }
        }
    }
    // columnar
    let mut s = Stripe::new();
    for r in &rows {
        s.push_datum(r);
    }
    let col = s.get_column(&key_path("v")).expect("v column");
    let mut col_sum = 0f64;
    let mut col_count = 0u64;
    match &col.data {
        ColumnData::Float(v) => {
            for i in 0..col.len() {
                if !col.null_at(i) {
                    col_sum += f64::from_bits(v[i]);
                    col_count += 1;
                }
            }
        },
        _ => panic!("expected a float column"),
    }
    assert_eq!(row_count, col_count);
    assert_eq!(row_sum, col_sum);
    assert_eq!(row_sum, 1.0 + 2.5 + 300.0);
}

#[test]
fn null_fillers_stay_hidden_behind_the_bitmap() {
    let mut s = Stripe::new();
    s.push_datum(&obj(vec![("v", Datum::Null)]));
    s.push_datum(&obj(vec![("v", Datum::TinyInt(0))]));
    let col = s.get_column(&key_path("v")).expect("v column");
    // both slots hold a zero payload; only the bitmap tells them apart
    match &col.data {
        ColumnData::TinyInt(v) => assert_eq!(v.as_slice(), &[0, 0]),
        _ => panic!("expected a narrow integer column"),
    }
    assert!(col.null_at(0));
    assert!(!col.null_at(1));
}

#[test]
fn columns_are_kept_in_path_order() {
    let mut s = Stripe::new();
    s.push_datum(&obj(vec![("zeta", Datum::TinyInt(1))]));
    s.push_datum(&obj(vec![("alpha", Datum::TinyInt(2))]));
    s.push_datum(&obj(vec![("alphabet", Datum::TinyInt(3))]));
    // root object column first (empty path), then keys lexicographically,
    // with a strict prefix before its extensions
    let names: Vec<String> = s
        .columns
        .iter()
        .map(|(p, _)| match p.first() {
            Some(PathComponent::Key(k)) => k.clone(),
            Some(PathComponent::Array) => String::from("[]"),
            None => String::new(),
        })
        .collect();
    assert_eq!(names, vec!["", "alpha", "alphabet", "zeta"]);
    // the frame is therefore deterministic no matter the arrival order
    let mut t = Stripe::new();
    t.push_datum(&obj(vec![("zeta", Datum::TinyInt(1))]));
    t.push_datum(&obj(vec![("alpha", Datum::TinyInt(2))]));
    t.push_datum(&obj(vec![("alphabet", Datum::TinyInt(3))]));
    assert_eq!(s.encode(), t.encode());
}

#[test]
fn doubly_nested_arrays_deepen_the_context() {
    // {"foo": [[{"bar": 5}]]}
    let mut s = Stripe::new();
    s.push_datum(&obj(vec![(
        "foo",
        Datum::Array(vec![Datum::Array(vec![obj(vec![("bar", Datum::TinyInt(5))])])]),
    )]));

    let inner_obj_path = vec![
        PathComponent::Key(String::from("foo")),
        PathComponent::Array,
        PathComponent::Array,
    ];
    let inner_obj = s.get_column(&inner_obj_path).expect("inner object column");
    assert_eq!(inner_obj.depth(), 3);
    assert_eq!(inner_obj.len(), 1);
    match &inner_obj.data {
        ColumnData::Object(v) => assert_eq!(v.as_slice(), &[1usize]),
        _ => panic!("expected an object-size column"),
    }

    let bar_path = vec![
        PathComponent::Key(String::from("foo")),
        PathComponent::Array,
        PathComponent::Array,
        PathComponent::Key(String::from("bar")),
    ];
    let bar = s.get_column(&bar_path).expect("bar column");
    assert_eq!(bar.depth(), 3);
    assert_eq!(bar.len(), 1);
    assert_eq!(bar.index_at(0, 0), 0);
    assert_eq!(bar.index_at(1, 0), 0);
    assert_eq!(bar.index_at(2, 0), 0);
    match &bar.data {
        ColumnData::TinyInt(v) => assert_eq!(v.as_slice(), &[5]),
        _ => panic!("expected a narrow integer column"),
    }
}
