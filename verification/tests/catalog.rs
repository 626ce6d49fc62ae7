//! Schemas, values, keys and the registry of tables and indexes.
use cmudb::buffer_pool::BufferPoolManager;
use cmudb::catalog::catalog as plain;
use cmudb::catalog::index_schema::{IndexValue, TableIndex};
use cmudb::catalog::table_index::ValueBound;
use cmudb::catalog::{
    is_null, Catalog, CatalogError, DataType, FloatBits, IndexType, Schema, Value,
};
use cmudb::create_buffer_pool_manager;
use cmudb::disk::DiskManager;
use cmudb::replacer::ArcReplacer;
use cmudb::table_heap::{RecordId, Tuple};

#[test]
fn catalog_test_index_encoder() {
    // 1. create a schema
    let schema = plain::Schema::new(vec![
        plain::DataType::INT,
        plain::DataType::BOOLEAN,
        plain::DataType::INT,
        plain::DataType::INT,
    ]);
    // each tuple in this schema should be 4 + 1 + 4 + 4 bytes
    assert_eq!(13, schema.data_len);

    // 2. create a tuple that abides to this schema
    let i1 = 12i32.to_le_bytes();
    let i2 = 13i32.to_le_bytes();
    let i3 = 14i32.to_le_bytes();
    let b1: u8 = 1;
    let mut buf = Vec::new();
    buf.extend_from_slice(&i1);
    buf.extend_from_slice(&i2);
    buf.extend_from_slice(&i3);
    buf.push(b1);

    let t1 = plain::Tuple::new(
        &schema,
        plain::RecordId {
            page_id: 1,
            slot_id: 2,
        },
        buf.as_slice(),
    )
    .unwrap();

    // 3. create an index
    let index_cols = vec![
        schema.cols.get(0).unwrap().clone(),
        schema.cols.get(2).unwrap().clone(),
    ];
    // we expect each index key to be: 4 bytes + 4 bytes long
    let index = plain::IndexDefinition::new(index_cols);
    assert_eq!(8, index.schema.data_len);

    // 4. create index keys
    let tuples = vec![t1];
    for t in tuples.iter() {
        let index_key = index.encode_key(t.data).0;
        assert_eq!(8, index_key.len());
    }
}

#[test]
fn test_schema_encode_decode_roundtrip() {
    let schema = Schema::new(vec![
        (DataType::INT, "a".to_string()),
        (DataType::BOOLEAN, "b".to_string()),
        (DataType::FLOAT, "c".to_string()),
        (DataType::TIMESTAMP, "d".to_string()),
    ]);
    assert_eq!(4 + 1 + 4 + 8, schema.data_len);
    assert_eq!(1, schema.bitmap_len);

    let values = vec![
        Some(Value::INT(-42)),
        Some(Value::BOOLEAN(true)),
        Some(Value::FLOAT(FloatBits(3.5f32.to_bits()))),
        Some(Value::TIMESTAMP(1_700_000_000_000)),
    ];
    let tuple = schema.encode_tuple(&values).unwrap();
    assert_eq!(schema.bitmap_len + schema.data_len, tuple.data.len());

    for (i, expected) in values.iter().enumerate() {
        let got = schema.get_value(&tuple, i).unwrap();
        assert_eq!(*expected, got);
    }

    assert!(matches!(
        schema.get_value(&tuple, 99),
        Err(CatalogError::ColumnOutOfBounds)
    ));
}

#[test]
fn test_schema_encode_decode_with_nulls() {
    let schema = Schema::new(vec![
        (DataType::INT, "a".to_string()),
        (DataType::BOOLEAN, "b".to_string()),
        (DataType::INT, "c".to_string()),
    ]);

    let values = vec![Some(Value::INT(7)), None, Some(Value::INT(9))];
    let tuple = schema.encode_tuple(&values).unwrap();
    assert_eq!(schema.bitmap_len + schema.data_len, tuple.data.len());

    assert_eq!(Some(Value::INT(7)), schema.get_value(&tuple, 0).unwrap());
    assert_eq!(None, schema.get_value(&tuple, 1).unwrap());
    assert_eq!(Some(Value::INT(9)), schema.get_value(&tuple, 2).unwrap());
}

#[test]
fn test_schema_col_idx() {
    let schema = Schema::new(vec![
        (DataType::INT, "id".to_string()),
        (DataType::BOOLEAN, "active".to_string()),
        (DataType::FLOAT, "score".to_string()),
    ]);

    assert_eq!(Some(0), schema.col_idx("id"));
    assert_eq!(Some(1), schema.col_idx("active"));
    assert_eq!(Some(2), schema.col_idx("score"));
    assert_eq!(None, schema.col_idx("missing"));
}

#[test]
fn test_schema_encode_tuple_type_mismatch() {
    let schema = Schema::new(vec![
        (DataType::INT, "a".to_string()),
        (DataType::BOOLEAN, "b".to_string()),
    ]);

    // second value is wrong type
    let bad = vec![Some(Value::INT(1)), Some(Value::INT(2))];
    assert!(matches!(
        schema.encode_tuple(&bad),
        Err(CatalogError::TupleSchemaMismatch)
    ));
}

fn make_bpm(num_frames: usize) -> BufferPoolManager {
    create_buffer_pool_manager(
        num_frames,
        ArcReplacer::new(num_frames),
        DiskManager::new(Vec::new()),
    )
}

#[test]
fn index_schema_test_index_encoder() {
    // 1. create a schema
    let schema = Schema::new(vec![
        (DataType::INT, "a".to_string()),
        (DataType::BOOLEAN, "b".to_string()),
        (DataType::INT, "c".to_string()),
        (DataType::INT, "d".to_string()),
    ]);
    // each tuple in this schema should be 4 + 1 + 4 + 4 bytes
    assert_eq!(13, schema.data_len);

    // 2. create a tuple that abides to this schema
    let values = vec![
        Some(Value::INT(12)),
        Some(Value::BOOLEAN(true)),
        Some(Value::INT(13)),
        Some(Value::INT(14)),
    ];
    let tup = schema.encode_tuple(&values).unwrap();

    // 3. create an index
    let index_cols = vec![
        schema.cols.get(0).unwrap().clone(),
        schema.cols.get(2).unwrap().clone(),
    ];
    let index_col_idxs = vec![0, 2];

    let mut bpm = make_bpm(10);

    let index = TableIndex::new(
        &mut bpm,
        "mock_index".to_string(),
        index_cols,
        index_col_idxs,
        schema.bitmap_len,
        IndexType::BPlusTree,
    )
    .unwrap();
    assert_eq!(8, index.schema.data_len);

    let tuples = vec![tup];
    for t in tuples.iter() {
        let index_key = index.encode_key(t).0;
        assert_eq!(2 * 4, index_key.len());
    }
}

#[test]
fn a_tuple_is_a_bitmap_and_then_little_endian_values() {
    let schema = Schema::new(vec![
        (DataType::INT, "a".to_string()),
        (DataType::BOOLEAN, "b".to_string()),
        (DataType::INT, "c".to_string()),
    ]);
    let tuple = schema
        .encode_tuple(&[Some(Value::INT(-2)), None, Some(Value::INT(258))])
        .unwrap();
    assert_eq!(
        vec![0b010, 0xfe, 0xff, 0xff, 0xff, 0, 2, 1, 0, 0],
        tuple.data
    );
    assert!(is_null(&tuple.data, 1));
    assert!(!is_null(&tuple.data, 2));
}

#[test]
fn a_bitmap_has_a_byte_for_every_eight_columns() {
    let cols: Vec<(DataType, String)> = (0..9)
        .map(|i| (DataType::BOOLEAN, format!("c{i}")))
        .collect();
    let schema = Schema::new(cols);
    assert_eq!(2, schema.bitmap_len);
    assert_eq!(9, schema.data_len);
    let mut values = vec![Some(Value::BOOLEAN(true)); 9];
    values[8] = None;
    let tuple = schema.encode_tuple(&values).unwrap();
    assert_eq!(vec![0, 1, 1, 1, 1, 1, 1, 1, 1, 1, 0], tuple.data);
    for (i, v) in values.iter().enumerate() {
        assert_eq!(*v, schema.get_value(&tuple, i).unwrap());
    }
}

#[test]
fn a_short_tuple_is_refused() {
    let schema = Schema::new(vec![(DataType::INT, "a".to_string())]);
    let short = Tuple { data: vec![0, 1, 2] };
    assert!(matches!(
        schema.get_value(&short, 0),
        Err(CatalogError::TupleSchemaMismatch)
    ));
    assert!(matches!(
        schema.encode_tuple(&[]),
        Err(CatalogError::TupleSchemaMismatch)
    ));
}

fn key(vals: &[Value]) -> Vec<u8> {
    let mut out = Vec::new();
    for v in vals {
        v.encode_key(&mut out);
    }
    out
}

#[test]
fn keys_are_big_endian_with_the_sign_flipped() {
    assert_eq!(vec![0x80, 0, 0, 1], key(&[Value::INT(1)]));
    assert_eq!(vec![0x7f, 0xff, 0xff, 0xff], key(&[Value::INT(-1)]));
    assert_eq!(
        vec![0x80, 0, 0, 0, 0, 0, 1, 2],
        key(&[Value::TIMESTAMP(258)])
    );
    assert_eq!(vec![1], key(&[Value::BOOLEAN(true)]));
    assert_eq!(
        vec![0xc0, 0x70, 0, 0],
        key(&[Value::FLOAT(FloatBits(3.75f32.to_bits()))])
    );
    assert_eq!(
        vec![0x3f, 0x90, 0, 0],
        key(&[Value::FLOAT(FloatBits((-3.75f32).to_bits()))])
    );
}

#[test]
fn keys_compare_as_the_values_do() {
    let ints = [i32::MIN, -7, -1, 0, 1, 300, i32::MAX];
    for a in ints {
        for b in ints {
            assert_eq!(a < b, key(&[Value::INT(a)]) < key(&[Value::INT(b)]));
        }
    }
    let longs = [i64::MIN, -1, 0, 1 << 40, i64::MAX];
    for a in longs {
        for b in longs {
            assert_eq!(
                a < b,
                key(&[Value::TIMESTAMP(a)]) < key(&[Value::TIMESTAMP(b)])
            );
        }
    }
    let floats = [
        f32::NEG_INFINITY,
        -1e30,
        -1.7,
        -1.2,
        -f32::MIN_POSITIVE,
        0.0,
        1.2,
        1.7,
        3e9,
        f32::INFINITY,
        f32::NAN,
    ];
    for (i, a) in floats.iter().enumerate() {
        for (j, b) in floats.iter().enumerate() {
            let ka = key(&[Value::FLOAT(FloatBits(a.to_bits()))]);
            let kb = key(&[Value::FLOAT(FloatBits(b.to_bits()))]);
            assert_eq!(i < j, ka < kb);
        }
    }
    assert_eq!(
        key(&[Value::FLOAT(FloatBits(0.0f32.to_bits()))]),
        key(&[Value::FLOAT(FloatBits((-0.0f32).to_bits()))])
    );
    let lists = [(1, -5), (1, 5), (2, -9), (-2, 100)];
    for a in lists {
        for b in lists {
            let ka = key(&[Value::INT(a.0), Value::INT(a.1)]);
            let kb = key(&[Value::INT(b.0), Value::INT(b.1)]);
            assert_eq!(a < b, ka < kb);
        }
    }
}

#[test]
fn floats_are_ordered_with_nan_last() {
    let sorted = [
        f32::NEG_INFINITY,
        -1e10,
        -1.5,
        0.0,
        1e-30,
        1.5,
        f32::INFINITY,
        f32::NAN,
    ];
    for (i, a) in sorted.iter().enumerate() {
        for (j, b) in sorted.iter().enumerate() {
            let (x, y) = (
                Value::FLOAT(FloatBits(a.to_bits())),
                Value::FLOAT(FloatBits(b.to_bits())),
            );
            assert_eq!(i < j, x.is_before(&y));
            assert_eq!(i == j, x == y);
        }
    }
    let zero = Value::FLOAT(FloatBits(0.0f32.to_bits()));
    let minus_zero = Value::FLOAT(FloatBits((-0.0f32).to_bits()));
    assert_eq!(zero, minus_zero);
    // values of different types are ordered by their types
    assert!(Value::BOOLEAN(true).is_before(&Value::INT(-5)));
    assert!(Value::INT(5).is_before(&zero));
    assert!(zero.is_before(&Value::TIMESTAMP(-1)));
    assert!(Value::INT(1) != Value::TIMESTAMP(1));
}

fn users() -> Schema {
    Schema::new(vec![
        (DataType::INT, "id".to_string()),
        (DataType::INT, "age".to_string()),
    ])
}

#[test]
fn tables_are_found_by_name_and_oid_until_dropped() {
    let mut bpm = make_bpm(8);
    let mut catalog = Catalog::new();
    let a = catalog.create_table(&mut bpm, "a".to_string(), users()).unwrap();
    let b = catalog.create_table(&mut bpm, "b".to_string(), users()).unwrap();
    assert_ne!(a, b);
    assert_eq!(a, catalog.table_oid("a").unwrap());
    assert_eq!("b", catalog.get_table(b).unwrap().name);
    assert!(matches!(
        catalog.create_table(&mut bpm, "a".to_string(), users()),
        Err(CatalogError::TableExists)
    ));
    assert!(catalog.drop_table(a).unwrap());
    assert!(!catalog.drop_table(a).unwrap());
    assert!(matches!(
        catalog.table_oid("a"),
        Err(CatalogError::TableDoesNotExist)
    ));
    assert!(matches!(
        catalog.get_table(a),
        Err(CatalogError::TableDoesNotExist)
    ));
    let again = catalog.create_table(&mut bpm, "a".to_string(), users()).unwrap();
    assert_ne!(a, again);
}

#[test]
fn indexes_belong_to_tables() {
    let mut bpm = make_bpm(8);
    let mut catalog = Catalog::new();
    let t = catalog.create_table(&mut bpm, "t".to_string(), users()).unwrap();
    assert!(matches!(
        catalog.index_oid("t", "i"),
        Err(CatalogError::TableDoesNotExist)
    ));
    assert!(matches!(
        catalog.create_index(&mut bpm, 77, "i".to_string(), &["id"], IndexType::BPlusTree),
        Err(CatalogError::TableDoesNotExist)
    ));
    assert!(matches!(
        catalog.create_index(&mut bpm, t, "i".to_string(), &["nope"], IndexType::BPlusTree),
        Err(CatalogError::ColumnNotFound)
    ));
    assert!(matches!(
        catalog.create_index(&mut bpm, t, "i".to_string(), &[], IndexType::BPlusTree),
        Err(CatalogError::IndexCreationError(m)) if m == "failed to create index"
    ));
    let i = catalog
        .create_index(&mut bpm, t, "i".to_string(), &["age", "id"], IndexType::BPlusTree)
        .unwrap();
    assert!(matches!(
        catalog.create_index(&mut bpm, t, "i".to_string(), &["id"], IndexType::BPlusTree),
        Err(CatalogError::IndexExists)
    ));
    let j = catalog
        .create_index(&mut bpm, t, "j".to_string(), &["id"], IndexType::BPlusTree)
        .unwrap();
    assert_eq!(i, catalog.index_oid("t", "i").unwrap());
    assert_eq!(vec![1, 0], catalog.get_index(i).unwrap().index.indexed_col_idxs);
    let names: Vec<String> = catalog
        .get_table_indexes(t)
        .unwrap()
        .iter()
        .map(|x| x.name.clone())
        .collect();
    assert_eq!(vec!["i".to_string(), "j".to_string()], names);
    assert!(catalog.drop_index(i).unwrap());
    assert!(!catalog.drop_index(i).unwrap());
    assert!(matches!(
        catalog.index_oid("t", "i"),
        Err(CatalogError::IndexDoesNotExist)
    ));
    assert!(matches!(
        catalog.get_index(i),
        Err(CatalogError::IndexDoesNotExist)
    ));
    assert!(catalog.drop_table(t).unwrap());
    assert!(catalog.get_index(j).is_err());
    assert!(catalog.get_table_indexes(t).is_err());
}

#[test]
fn an_index_finds_rows_by_value_and_skips_nulls() {
    let mut bpm = make_bpm(8);
    let schema = users();
    let index = TableIndex::new(
        &mut bpm,
        "i".to_string(),
        vec![schema.cols[1].clone()],
        vec![1],
        schema.bitmap_len,
        IndexType::BPlusTree,
    )
    .unwrap();
    for (n, age) in [30, -4, 12].iter().enumerate() {
        let t = schema
            .encode_tuple(&[Some(Value::INT(n as i32)), Some(Value::INT(*age))])
            .unwrap();
        let rid = RecordId {
            page_id: 1,
            slot_id: n as u32,
        };
        index.insert(&mut bpm, &t, rid).unwrap();
    }
    let null = schema.encode_tuple(&[Some(Value::INT(9)), None]).unwrap();
    let nowhere = RecordId {
        page_id: 1,
        slot_id: 9,
    };
    index.insert(&mut bpm, &null, nowhere).unwrap();
    index.remove(&mut bpm, &null).unwrap();
    // of a row whose key is NULL, nothing but the bitmap is read
    let short = Tuple {
        data: vec![null.data[0]],
    };
    index.insert(&mut bpm, &short, nowhere).unwrap();
    index.remove(&mut bpm, &short).unwrap();
    let found = index.search(&mut bpm, &[Value::INT(12)]).unwrap().unwrap();
    assert_eq!(2, found.slot_id);
    assert!(index.search(&mut bpm, &[Value::INT(13)]).unwrap().is_none());
    let all = index
        .scan(&mut bpm, &ValueBound::Unbounded, &ValueBound::Unbounded)
        .unwrap()
        .collect(&mut bpm)
        .unwrap();
    let slots: Vec<u32> = all
        .iter()
        .map(|(_, IndexValue::IndexValue(rid))| rid.slot_id)
        .collect();
    assert_eq!(vec![1, 2, 0], slots);
    let some = index
        .scan(
            &mut bpm,
            &ValueBound::Excluded(vec![Value::INT(-4)]),
            &ValueBound::Included(vec![Value::INT(12)]),
        )
        .unwrap()
        .collect(&mut bpm)
        .unwrap();
    assert_eq!(1, some.len());
}

#[test]
fn plain_tuples_have_the_length_of_their_schema() {
    let schema = plain::Schema::new(vec![plain::DataType::TIMESTAMP, plain::DataType::BOOLEAN]);
    assert_eq!(9, schema.data_len);
    let rid = plain::RecordId {
        page_id: 3,
        slot_id: 40,
    };
    assert_eq!("page_id: 3, slot_id: 40", rid.describe());
    assert!(matches!(
        plain::Tuple::new(&schema, rid, &[0; 8]),
        Err(plain::CatalogError::TupleSchemaMismatch)
    ));
    let bytes = [1, 0, 0, 0, 0, 0, 0, 0, 1];
    let t = plain::Tuple::new(&schema, rid, &bytes).unwrap();
    assert!(t.validate(&schema).is_ok());
    let index = plain::IndexDefinition::new(schema.cols.clone());
    assert_eq!(
        vec![0x80, 0, 0, 0, 0, 0, 0, 1, 1],
        index.encode_key(t.data).0
    );
    assert!(matches!(
        plain::Value::INT(4).data_type(),
        plain::DataType::INT
    ));
}
