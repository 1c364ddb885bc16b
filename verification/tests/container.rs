use colbin::model::{
    batch_is_wf, make_field, make_schema, schema_eq, schema_is_wf, Batch, Column, ReadError,
    Schema, WriteError,
};
use colbin::reader::{read_container, Reader};
use colbin::writer::{write_container, Writer};
use colbin::LogicalType;

fn int_schema() -> Schema {
    make_schema(vec![make_field(b"0".to_vec(), LogicalType::Int32, false)])
}

fn utf8_schema() -> Schema {
    make_schema(vec![make_field(b"0".to_vec(), LogicalType::Utf8, false)])
}

fn int_batch(values: Vec<i32>) -> Batch {
    Batch {
        schema: int_schema(),
        columns: vec![Column::Int32(values)],
    }
}

fn utf8_batch(values: Vec<Vec<u8>>) -> Batch {
    Batch {
        schema: utf8_schema(),
        columns: vec![Column::Utf8(values)],
    }
}

fn int_column_values(b: &Batch) -> Vec<i32> {
    match &b.columns[0] {
        Column::Int32(v) => v.clone(),
        Column::Utf8(_) => panic!("expected an Int32 column"),
    }
}

fn utf8_column_values(b: &Batch) -> Vec<Vec<u8>> {
    match &b.columns[0] {
        Column::Utf8(v) => v.clone(),
        Column::Int32(_) => panic!("expected a Utf8 column"),
    }
}

#[test]
fn roundtrip_int32_values_exact() {
    let values = vec![5, -3, 0, i32::MAX, i32::MIN, 42];
    let bytes = write_container(int_schema(), &vec![int_batch(values.clone())]).unwrap();
    let (schema, batches) = read_container(bytes).unwrap();
    assert!(schema_eq(&schema, &int_schema()));
    assert_eq!(batches.len(), 1);
    assert_eq!(int_column_values(&batches[0]), values);
}

#[test]
fn roundtrip_utf8_byte_exact() {
    let values: Vec<Vec<u8>> = vec![
        b"".to_vec(),
        b"#0000000042".to_vec(),
        b"hello".to_vec(),
        vec![0u8, 1u8, 255u8],
    ];
    let bytes = write_container(utf8_schema(), &vec![utf8_batch(values.clone())]).unwrap();
    let (schema, batches) = read_container(bytes).unwrap();
    assert!(schema_eq(&schema, &utf8_schema()));
    assert_eq!(batches.len(), 1);
    assert_eq!(utf8_column_values(&batches[0]), values);
}

#[test]
fn roundtrip_multiple_batches_in_order() {
    let batches_in = vec![int_batch(vec![1, 2, 3]), int_batch(vec![4, 5]), int_batch(vec![])];
    let bytes = write_container(int_schema(), &batches_in).unwrap();
    let (_, batches) = read_container(bytes).unwrap();
    assert_eq!(batches.len(), 3);
    assert_eq!(int_column_values(&batches[0]), vec![1, 2, 3]);
    assert_eq!(int_column_values(&batches[1]), vec![4, 5]);
    assert_eq!(int_column_values(&batches[2]), Vec::<i32>::new());
    let total: usize = batches
        .iter()
        .map(|b| match &b.columns[0] {
            Column::Int32(v) => v.len(),
            Column::Utf8(v) => v.len(),
        })
        .sum();
    assert_eq!(total, 5);
}

#[test]
fn roundtrip_empty_batch() {
    let bytes = write_container(int_schema(), &vec![int_batch(vec![])]).unwrap();
    let (schema, batches) = read_container(bytes).unwrap();
    assert!(schema_eq(&schema, &int_schema()));
    assert_eq!(batches.len(), 1);
    assert_eq!(int_column_values(&batches[0]).len(), 0);
}

#[test]
fn roundtrip_no_batches() {
    let bytes = write_container(int_schema(), &Vec::new()).unwrap();
    let (schema, batches) = read_container(bytes).unwrap();
    assert!(schema_eq(&schema, &int_schema()));
    assert_eq!(batches.len(), 0);
}

#[test]
fn schema_mismatch_rejected_and_header_intact() {
    let mut w = Writer::open(int_schema());
    let wrong = utf8_batch(vec![b"x".to_vec()]);
    assert!(batch_is_wf(&wrong));
    assert_eq!(w.write(&wrong), Err(WriteError::SchemaMismatch));
    let good = int_batch(vec![7, 8]);
    assert_eq!(w.write(&good), Ok(()));
    let bytes = w.finish();
    let (schema, batches) = read_container(bytes).unwrap();
    assert!(schema_eq(&schema, &int_schema()));
    assert_eq!(batches.len(), 1);
    assert_eq!(int_column_values(&batches[0]), vec![7, 8]);
}

#[test]
fn schema_mismatch_on_field_count() {
    let two_fields = make_schema(vec![
        make_field(b"a".to_vec(), LogicalType::Int32, false),
        make_field(b"b".to_vec(), LogicalType::Int32, false),
    ]);
    assert!(schema_is_wf(&two_fields));
    let batch = Batch {
        schema: two_fields,
        columns: vec![Column::Int32(vec![1]), Column::Int32(vec![2])],
    };
    let mut w = Writer::open(int_schema());
    assert_eq!(w.write(&batch), Err(WriteError::SchemaMismatch));
}

#[test]
fn truncation_at_every_point_fails() {
    let batches = vec![int_batch(vec![1, 2, 3]), int_batch(vec![4])];
    let bytes = write_container(int_schema(), &batches).unwrap();
    assert!(read_container(bytes.clone()).is_ok());
    for k in 0..bytes.len() {
        let cut = bytes[0..k].to_vec();
        assert!(read_container(cut).is_err(), "prefix of length {} decoded", k);
    }
}

#[test]
fn truncation_of_string_frame_fails() {
    let values: Vec<Vec<u8>> = vec![b"abc".to_vec(), b"defg".to_vec()];
    let bytes = write_container(utf8_schema(), &vec![utf8_batch(values)]).unwrap();
    for k in 0..bytes.len() {
        assert!(read_container(bytes[0..k].to_vec()).is_err());
    }
}

#[test]
fn malformed_header_bad_magic() {
    let bytes = write_container(int_schema(), &vec![int_batch(vec![1])]).unwrap();
    let mut bad = bytes.clone();
    bad[0] = bad[0].wrapping_add(1);
    assert!(matches!(read_container(bad), Err(ReadError::MalformedHeader)));
}

#[test]
fn malformed_header_unknown_type_tag() {
    // magic, field count 1, name length 1, name "0", type tag 9, non-null, footer
    let bytes = vec![
        0x43, 0x42, 0x46, 0x31, 1, 0, 0, 0, 1, 0, 0, 0, b'0', 9, 0, 0,
    ];
    assert!(matches!(read_container(bytes), Err(ReadError::MalformedHeader)));
}

#[test]
fn trailing_bytes_rejected() {
    let mut bytes = write_container(int_schema(), &vec![int_batch(vec![1])]).unwrap();
    bytes.push(0);
    assert!(matches!(read_container(bytes), Err(ReadError::TruncatedFrame)));
}

#[test]
fn reader_yields_batches_lazily() {
    let batches = vec![int_batch(vec![10, 20]), int_batch(vec![30])];
    let bytes = write_container(int_schema(), &batches).unwrap();
    let mut rd = Reader::open(bytes).unwrap();
    assert!(schema_eq(rd.schema(), &int_schema()));
    let first = rd.next().unwrap().unwrap();
    assert_eq!(int_column_values(&first), vec![10, 20]);
    let second = rd.next().unwrap().unwrap();
    assert_eq!(int_column_values(&second), vec![30]);
    assert!(rd.next().unwrap().is_none());
    assert!(rd.at_end());
}

#[test]
fn reader_error_state_is_terminal() {
    let bytes = write_container(int_schema(), &vec![int_batch(vec![1, 2])]).unwrap();
    let cut = bytes[0..bytes.len() - 2].to_vec();
    let mut rd = Reader::open(cut).unwrap();
    assert!(matches!(rd.next(), Err(ReadError::TruncatedFrame)));
    assert!(matches!(rd.next(), Err(ReadError::TruncatedFrame)));
}

#[test]
fn header_too_short_is_malformed() {
    assert!(matches!(read_container(Vec::new()), Err(ReadError::MalformedHeader)));
    assert!(matches!(read_container(vec![0x43, 0x42, 0x46]), Err(ReadError::MalformedHeader)));
}

#[test]
fn builders_and_checkers() {
    let f = make_field(b"count".to_vec(), LogicalType::Int32, false);
    assert_eq!(f.name, b"count".to_vec());
    assert!(!f.nullable);
    let s = make_schema(vec![f]);
    assert!(schema_is_wf(&s));
    assert_eq!(s.fields.len(), 1);
    let b = Batch {
        schema: s,
        columns: vec![Column::Int32(vec![1, 2, 3])],
    };
    assert!(batch_is_wf(&b));
    assert_eq!(colbin::model::column_len(&b.columns[0]), 3);
}
