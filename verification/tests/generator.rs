use colbin::generate::generate;
use colbin::model::{batch_is_wf, schema_eq, schema_is_wf, Column};
use colbin::reader::read_container;
use colbin::writer::write_container;
use colbin::LogicalType;

fn int_values(b: &colbin::model::Batch) -> Vec<i32> {
    match &b.columns[0] {
        Column::Int32(v) => v.clone(),
        Column::Utf8(_) => panic!("expected an Int32 column"),
    }
}

fn utf8_values(b: &colbin::model::Batch) -> Vec<Vec<u8>> {
    match &b.columns[0] {
        Column::Utf8(v) => v.clone(),
        Column::Int32(_) => panic!("expected a Utf8 column"),
    }
}

#[test]
fn generate_int32_covers_range_once() {
    let n = 100;
    let (schema, batch) = generate(LogicalType::Int32, n);
    assert!(schema_is_wf(&schema));
    assert!(batch_is_wf(&batch));
    let mut values = int_values(&batch);
    assert_eq!(values.len(), n);
    values.sort();
    let expected: Vec<i32> = (0..n as i32).collect();
    assert_eq!(values, expected);
}

#[test]
fn generate_utf8_format_and_coverage() {
    let n = 50;
    let (_, batch) = generate(LogicalType::Utf8, n);
    let mut values = utf8_values(&batch);
    assert_eq!(values.len(), n);
    for v in &values {
        assert_eq!(v.len(), 11);
        assert_eq!(v[0], b'#');
        for d in &v[1..] {
            assert!(d.is_ascii_digit());
        }
    }
    values.sort();
    let mut expected: Vec<Vec<u8>> = (0..n).map(|i| format!("#{:0>10}", i).into_bytes()).collect();
    expected.sort();
    assert_eq!(values, expected);
}

#[test]
fn generate_schema_shape() {
    let (schema, batch) = generate(LogicalType::Utf8, 3);
    assert_eq!(schema.fields.len(), 1);
    assert_eq!(schema.fields[0].name, b"0".to_vec());
    assert!(matches!(schema.fields[0].ty, LogicalType::Utf8));
    assert!(!schema.fields[0].nullable);
    assert!(schema_eq(&schema, &batch.schema));
}

#[test]
fn generate_empty_roundtrips() {
    let (schema, batch) = generate(LogicalType::Int32, 0);
    assert_eq!(int_values(&batch).len(), 0);
    let bytes = write_container(schema, &vec![batch]).unwrap();
    let (_, batches) = read_container(bytes).unwrap();
    assert_eq!(batches.len(), 1);
    assert_eq!(int_values(&batches[0]).len(), 0);
}

#[test]
fn end_to_end_int32_1024() {
    let n = 1024;
    let (schema, batch) = generate(LogicalType::Int32, n);
    let bytes = write_container(schema, &vec![batch]).unwrap();

    let (schema_a, batches_a) = read_container(bytes.clone()).unwrap();
    let (schema_b, batches_b) = read_container(bytes).unwrap();

    assert!(schema_eq(&schema_a, &schema_b));
    assert_eq!(batches_a.len(), 1);
    assert_eq!(batches_b.len(), 1);

    let values_a = int_values(&batches_a[0]);
    let values_b = int_values(&batches_b[0]);
    assert_eq!(values_a, values_b);
    assert_eq!(values_a.len(), n);

    let mut sorted = values_a;
    sorted.sort();
    let expected: Vec<i32> = (0..n as i32).collect();
    assert_eq!(sorted, expected);
}

#[test]
fn end_to_end_utf8_roundtrip() {
    let n = 256;
    let (schema, batch) = generate(LogicalType::Utf8, n);
    let written = utf8_values(&batch);
    let bytes = write_container(schema, &vec![batch]).unwrap();
    let (_, batches) = read_container(bytes).unwrap();
    assert_eq!(utf8_values(&batches[0]), written);
    let mut sorted = utf8_values(&batches[0]);
    sorted.sort();
    let mut expected: Vec<Vec<u8>> = (0..n).map(|i| format!("#{:0>10}", i).into_bytes()).collect();
    expected.sort();
    assert_eq!(sorted, expected);
}
