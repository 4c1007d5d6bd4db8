use haste::{
    BitReader, BitWriter, DemoError, Entities, FieldValue, FlattenedSerializers, PathSeg,
    StringTable, PATH_SENTINEL,
};

fn write_lp(w: &mut BitWriter, bytes: &[u8]) {
    w.write_varint32(bytes.len() as u32).unwrap();
    w.write_bytes(&bytes.to_vec()).unwrap();
}

fn put_entry(
    w: &mut BitWriter,
    index: Option<u32>,
    key: Option<(u32, &[u8])>,
    value: Option<&[u8]>,
    user_int: Option<u32>,
) {
    w.write_bool(index.is_none()).unwrap();
    if let Some(i) = index {
        w.write_ubitvar(i).unwrap();
    }
    w.write_bool(key.is_some()).unwrap();
    if let Some((prefix, suffix)) = key {
        w.write_bits(prefix, 5).unwrap();
        w.write_ubitvar(suffix.len() as u32).unwrap();
        w.write_bytes(&suffix.to_vec()).unwrap();
    }
    w.write_bool(value.is_some()).unwrap();
    if let Some(v) = value {
        w.write_bool(false).unwrap(); // not a back-reference
        w.write_ubitvar(v.len() as u32).unwrap();
        w.write_bytes(&v.to_vec()).unwrap();
    }
    w.write_bool(user_int.is_some()).unwrap();
    if let Some(u) = user_int {
        w.write_ubitvar(u).unwrap();
    }
}

#[test]
fn snapshot_builds_table() {
    let mut w = BitWriter::new();
    put_entry(&mut w, None, Some((0, b"alpha")), Some(b"one"), Some(7));
    put_entry(&mut w, None, Some((0, b"beta")), None, None);
    let bytes = w.into_bytes();

    let mut t = StringTable::new(b"demo".to_vec(), false, 0);
    let mut r = BitReader::new(&bytes);
    t.parse_update(&mut r, 2).unwrap();

    assert_eq!(t.len(), 2);
    assert_eq!(t.entry(0).key, b"alpha".to_vec());
    assert_eq!(t.entry(0).value, Some(b"one".to_vec()));
    assert_eq!(t.entry(0).user_int, Some(7));
    assert_eq!(t.entry(1).key, b"beta".to_vec());
    assert_eq!(t.entry(1).value, None);
}

#[test]
fn empty_diff_is_identity() {
    // a full snapshot followed by zero incremental diffs leaves the
    // table exactly as replaying the entries directly would build it
    let mut w = BitWriter::new();
    put_entry(&mut w, None, Some((0, b"k0")), Some(b"v0"), None);
    let bytes = w.into_bytes();

    let mut t = StringTable::new(b"demo".to_vec(), false, 0);
    let mut r = BitReader::new(&bytes);
    t.parse_update(&mut r, 1).unwrap();

    let before: Vec<(Vec<u8>, Option<Vec<u8>>)> =
        (0..t.len()).map(|i| (t.entry(i).key.clone(), t.entry(i).value.clone())).collect();

    let empty: Vec<u8> = Vec::new();
    let mut r2 = BitReader::new(&empty);
    t.parse_update(&mut r2, 0).unwrap();

    let after: Vec<(Vec<u8>, Option<Vec<u8>>)> =
        (0..t.len()).map(|i| (t.entry(i).key.clone(), t.entry(i).value.clone())).collect();
    assert_eq!(before, after);
}

#[test]
fn key_prefix_reuse() {
    // the second key shares its first three bytes with the first
    let mut w = BitWriter::new();
    put_entry(&mut w, None, Some((0, b"abcde")), None, None);
    put_entry(&mut w, None, Some((3, b"XY")), None, None);
    let bytes = w.into_bytes();

    let mut t = StringTable::new(b"demo".to_vec(), false, 0);
    let mut r = BitReader::new(&bytes);
    t.parse_update(&mut r, 2).unwrap();
    assert_eq!(t.entry(1).key, b"abcXY".to_vec());
}

#[test]
fn value_back_reference() {
    let mut w = BitWriter::new();
    put_entry(&mut w, None, Some((0, b"k0")), Some(b"shared"), None);
    // second entry reuses entry zero's value bytes verbatim
    w.write_bool(true).unwrap(); // consecutive index
    w.write_bool(true).unwrap(); // has key
    w.write_bits(0, 5).unwrap();
    w.write_ubitvar(2).unwrap();
    w.write_bytes(&b"k1".to_vec()).unwrap();
    w.write_bool(true).unwrap(); // has value
    w.write_bool(true).unwrap(); // by reference
    w.write_ubitvar(0).unwrap(); // back to entry zero
    w.write_bool(false).unwrap(); // no user int
    let bytes = w.into_bytes();

    let mut t = StringTable::new(b"demo".to_vec(), false, 0);
    let mut r = BitReader::new(&bytes);
    t.parse_update(&mut r, 2).unwrap();
    assert_eq!(t.entry(1).value, Some(b"shared".to_vec()));
}

#[test]
fn update_in_place_keeps_absent_fields() {
    let mut w = BitWriter::new();
    put_entry(&mut w, None, Some((0, b"k0")), Some(b"old"), Some(3));
    let snap = w.into_bytes();
    let mut t = StringTable::new(b"demo".to_vec(), false, 0);
    let mut r = BitReader::new(&snap);
    t.parse_update(&mut r, 1).unwrap();

    // a key-only change: the value and user data stay
    let mut w2 = BitWriter::new();
    put_entry(&mut w2, Some(0), Some((0, b"renamed")), None, None);
    let diff = w2.into_bytes();
    let mut r2 = BitReader::new(&diff);
    t.parse_update(&mut r2, 1).unwrap();

    assert_eq!(t.len(), 1);
    assert_eq!(t.entry(0).key, b"renamed".to_vec());
    assert_eq!(t.entry(0).value, Some(b"old".to_vec()));
    assert_eq!(t.entry(0).user_int, Some(3));
}

#[test]
fn out_of_range_index_is_malformed() {
    let mut w = BitWriter::new();
    put_entry(&mut w, Some(5), Some((0, b"k")), None, None);
    let bytes = w.into_bytes();
    let mut t = StringTable::new(b"demo".to_vec(), false, 0);
    let mut r = BitReader::new(&bytes);
    assert_eq!(t.parse_update(&mut r, 1), Err(DemoError::MalformedPath));
}

#[test]
fn truncated_diff_fails() {
    let mut w = BitWriter::new();
    w.write_bool(true).unwrap(); // consecutive
    w.write_bool(true).unwrap(); // has key, then nothing
    let bytes = w.into_bytes();
    let mut t = StringTable::new(b"demo".to_vec(), false, 0);
    let mut r = BitReader::new(&bytes);
    // the five prefix bits fit in the padding, the suffix does not
    assert_eq!(t.parse_update(&mut r, 1), Err(DemoError::Truncated));
}

fn schema_two_fields_and_ref() -> Vec<u8> {
    // serializer "point": x, y unsigned bytes; serializer "player":
    // "pos" referencing point, and "hp" primitive, "inv" a repeated
    // primitive of two slots
    let mut w = BitWriter::new();
    w.write_varint32(2).unwrap(); // two serializers
    // point
    write_lp(&mut w, b"point");
    w.write_varint32(0).unwrap(); // version
    w.write_varint32(2).unwrap(); // two fields
    for name in [b"x".as_slice(), b"y".as_slice()] {
        write_lp(&mut w, name);
        w.write_bool(false).unwrap(); // primitive
        w.write_bits(1, 8).unwrap(); // unsigned rule
        w.write_varint32(8).unwrap(); // eight bits
        w.write_bool(false).unwrap(); // not repeated
    }
    // player
    write_lp(&mut w, b"player");
    w.write_varint32(0).unwrap();
    w.write_varint32(3).unwrap();
    write_lp(&mut w, b"pos");
    w.write_bool(true).unwrap(); // reference
    write_lp(&mut w, b"point");
    w.write_varint32(0).unwrap(); // referenced version
    w.write_bool(false).unwrap(); // not repeated
    write_lp(&mut w, b"hp");
    w.write_bool(false).unwrap();
    w.write_bits(1, 8).unwrap();
    w.write_varint32(8).unwrap();
    w.write_bool(false).unwrap();
    write_lp(&mut w, b"inv");
    w.write_bool(false).unwrap();
    w.write_bits(1, 8).unwrap();
    w.write_varint32(8).unwrap();
    w.write_bool(true).unwrap(); // repeated
    w.write_varint32(2).unwrap(); // two slots
    w.into_bytes()
}

fn path_names(f: &haste::FlatField) -> Vec<String> {
    f.path
        .iter()
        .map(|s| match s {
            PathSeg::Field(n) => String::from_utf8(n.clone()).unwrap(),
            PathSeg::Index(k) => format!("{}", k),
        })
        .collect()
}

#[test]
fn flattening_expands_depth_first() {
    let bytes = schema_two_fields_and_ref();
    let mut fs = FlattenedSerializers::new();
    fs.parse(&bytes).unwrap();
    let name = b"player".to_vec();
    let idx = fs.find(&name, 0).unwrap();
    fs.ensure_flattened(idx).unwrap();
    let flat = fs.flat(idx).unwrap();
    let paths: Vec<Vec<String>> = flat.iter().map(path_names).collect();
    assert_eq!(
        paths,
        vec![
            vec!["pos".to_string(), "x".to_string()],
            vec!["pos".to_string(), "y".to_string()],
            vec!["hp".to_string()],
            vec!["inv".to_string(), "0".to_string()],
            vec!["inv".to_string(), "1".to_string()],
        ]
    );
}

#[test]
fn flattening_twice_is_identical() {
    let bytes = schema_two_fields_and_ref();
    let mut fs = FlattenedSerializers::new();
    fs.parse(&bytes).unwrap();
    let name = b"player".to_vec();
    let idx = fs.find(&name, 0).unwrap();
    fs.ensure_flattened(idx).unwrap();
    let first: Vec<Vec<String>> = fs.flat(idx).unwrap().iter().map(path_names).collect();
    // a second request finds the cached list and recomputes nothing
    fs.ensure_flattened(idx).unwrap();
    let second: Vec<Vec<String>> = fs.flat(idx).unwrap().iter().map(path_names).collect();
    assert_eq!(first, second);
}

#[test]
fn cyclic_schema_is_rejected() {
    let mut w = BitWriter::new();
    w.write_varint32(1).unwrap();
    write_lp(&mut w, b"loop");
    w.write_varint32(0).unwrap();
    w.write_varint32(1).unwrap();
    write_lp(&mut w, b"next");
    w.write_bool(true).unwrap(); // reference
    write_lp(&mut w, b"loop"); // to itself
    w.write_varint32(0).unwrap();
    w.write_bool(false).unwrap();
    let bytes = w.into_bytes();
    let mut fs = FlattenedSerializers::new();
    fs.parse(&bytes).unwrap();
    let name = b"loop".to_vec();
    let idx = fs.find(&name, 0).unwrap();
    assert_eq!(fs.ensure_flattened(idx), Err(DemoError::CyclicSerializer));
}

#[test]
fn changed_paths_skip_fixture() {
    // the skip sequence [0, 2, sentinel] over 0..8 marks exactly {0, 3}
    let mut w = BitWriter::new();
    w.write_ubitvar(0).unwrap();
    w.write_ubitvar(2).unwrap();
    w.write_ubitvar(PATH_SENTINEL).unwrap();
    let bytes = w.into_bytes();
    let mut r = BitReader::new(&bytes);
    let ords = haste::decode_changed_paths(&mut r, 8).unwrap();
    assert_eq!(ords, vec![0usize, 3]);
}

#[test]
fn changed_paths_out_of_space_is_malformed() {
    let mut w = BitWriter::new();
    w.write_ubitvar(5).unwrap(); // would mark ordinal 5 of 0..3
    let bytes = w.into_bytes();
    let mut r = BitReader::new(&bytes);
    assert_eq!(
        haste::decode_changed_paths(&mut r, 3),
        Err(DemoError::MalformedPath)
    );
}

#[test]
fn baseline_overlay_on_create() {
    // an empty delta leaves the entity exactly the baseline; a subset
    // delta changes exactly the marked ordinals
    let base = vec![
        Some(FieldValue::U32(10)),
        Some(FieldValue::U32(20)),
        Some(FieldValue::U32(30)),
    ];
    let mut ents = Entities::new();
    let ords: Vec<usize> = Vec::new();
    ents.apply_create(1, 0, 0, base, &ords, Vec::new());
    let e = ents.get(1).unwrap();
    for (i, want) in [(0usize, 10u32), (1, 20), (2, 30)] {
        match e.field(i) {
            Some(FieldValue::U32(v)) => assert_eq!(*v, want),
            _ => panic!("missing field"),
        }
    }

    let base2 = vec![
        Some(FieldValue::U32(10)),
        Some(FieldValue::U32(20)),
        Some(FieldValue::U32(30)),
    ];
    let ords2 = vec![1usize];
    ents.apply_create(2, 0, 0, base2, &ords2, vec![FieldValue::U32(99)]);
    let e2 = ents.get(2).unwrap();
    for (i, want) in [(0usize, 10u32), (1, 99), (2, 30)] {
        match e2.field(i) {
            Some(FieldValue::U32(v)) => assert_eq!(*v, want),
            _ => panic!("missing field"),
        }
    }
}

#[test]
fn delete_and_leave() {
    let mut ents = Entities::new();
    ents.apply_create(1, 0, 0, vec![Some(FieldValue::U32(5))], &Vec::new(), Vec::new());
    ents.apply_leave(1).unwrap();
    let e = ents.get(1).unwrap();
    assert!(!e.active);
    match e.field(0) {
        Some(FieldValue::U32(v)) => assert_eq!(*v, 5),
        _ => panic!("leave dropped a value"),
    }
    ents.apply_delete(1);
    assert!(ents.get(1).is_none());
    assert_eq!(ents.len(), 0);
}

#[test]
fn fixed_size_values_read_exact_bits() {
    // a table whose values are twelve-bit fields packed into bytes
    let mut w = BitWriter::new();
    w.write_bool(true).unwrap(); // consecutive index
    w.write_bool(true).unwrap(); // has key
    w.write_bits(0, 5).unwrap();
    w.write_ubitvar(1).unwrap();
    w.write_bytes(&b"k".to_vec()).unwrap();
    w.write_bool(true).unwrap(); // has value
    w.write_bool(false).unwrap(); // not a back-reference
    w.write_bits(0xABC, 12).unwrap(); // the fixed-size field
    w.write_bool(false).unwrap(); // no user int
    let bytes = w.into_bytes();

    let mut t = StringTable::new(b"fixed".to_vec(), true, 12);
    let mut r = BitReader::new(&bytes);
    t.parse_update(&mut r, 1).unwrap();
    // twelve bits, least-significant first, packed into two bytes
    assert_eq!(t.entry(0).value, Some(vec![0xBC, 0x0A]));
}

#[test]
fn unknown_table_id_is_reported() {
    let mut ts = haste::StringTables::new();
    assert!(matches!(ts.table(0), Err(DemoError::UnknownTable)));
    let empty: Vec<u8> = Vec::new();
    let mut r = BitReader::new(&empty);
    assert_eq!(ts.update_string_table(3, &mut r, 0), Err(DemoError::UnknownTable));
}

#[test]
fn unknown_class_is_reported() {
    let classes = haste::EntityClasses::new();
    assert!(matches!(classes.class_name(0), Err(DemoError::UnknownClass)));
}

#[test]
fn unknown_entity_is_reported() {
    let mut ents = Entities::new();
    let ords: Vec<usize> = Vec::new();
    assert_eq!(ents.apply_update(5, &ords, Vec::new()), Err(DemoError::UnknownEntity));
    assert_eq!(ents.apply_leave(5), Err(DemoError::UnknownEntity));
}
