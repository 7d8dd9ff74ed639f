use minidb::{split_fields, Record, Schema, Value};

fn strings(v: &[&str]) -> Vec<String> {
    v.iter().map(|s| s.to_string()).collect()
}

fn decode_floats(fields: &Vec<Vec<u8>>) -> Vec<Option<u64>> {
    fields
        .iter()
        .map(|f| {
            std::str::from_utf8(f)
                .ok()
                .and_then(|s| s.parse::<f64>().ok())
                .map(|x| x.to_bits())
        })
        .collect()
}

fn extract(schema: &Schema, data: &[u8]) -> Option<Record> {
    let (fields, _) = split_fields(data, 0, schema.get_num_atts())?;
    let floats = decode_floats(&fields);
    Record::from_fields(schema, &fields, &floats)
}

fn float_texts(r: &Record) -> Vec<Vec<u8>> {
    r.get_data()
        .iter()
        .map(|v| match v {
            Value::Float(b) => f64::from_bits(*b).to_string().into_bytes(),
            _ => Vec::new(),
        })
        .collect()
}

fn schema_of(names: &[&str], types: &[&str]) -> Schema {
    let distincts = vec![0; names.len()];
    Schema::new(&strings(names), &strings(types), &distincts, 0, "test.tbl")
}

#[test]
fn test_record_basic_operations() {
    let record = Record::new();
    let data = record.get_data();
    assert!(data.is_empty(), "empty record should return empty data");
    let _size = record.get_size();
    assert!(record.get_column(0).is_none(), "get_column on empty record should return None");
    assert!(record.get_column(100).is_none(), "get_column with invalid index should return None");
}

#[test]
fn test_record_extract_from_pipe_delimited() {
    let schema = schema_of(&["id", "name", "salary"], &["Integer", "String", "Float"]);
    let record = extract(&schema, "123|John Doe|25.5|".as_bytes());
    assert!(record.is_some());
    let record = record.unwrap();
    assert_eq!(record.get_data().len(), 3);
    match record.get_column(0) {
        Some(Value::Integer(val)) => assert_eq!(*val, 123),
        _ => panic!("Expected integer for first column"),
    }
    match record.get_column(1) {
        Some(Value::String(val)) => assert_eq!(val.as_slice(), "John Doe".as_bytes()),
        _ => panic!("Expected string for second column"),
    }
    match record.get_column(2) {
        Some(Value::Float(bits)) => assert!((f64::from_bits(*bits) - 25.5).abs() < f64::EPSILON),
        _ => panic!("Expected float for third column"),
    }
}

#[test]
fn test_record_extract_malformed_data() {
    let schema = schema_of(&["id", "name", "age"], &["Integer", "String", "Integer"]);
    let result = extract(&schema, "123|John Doe".as_bytes());
    assert!(result.is_none());
}

#[test]
fn test_record_project() {
    let schema = schema_of(&["id", "name", "age", "job"], &["Integer", "String", "Integer", "String"]);
    let mut record = extract(&schema, "1|Alice|30|Engineer|".as_bytes()).unwrap();
    let result = record.project(&[0, 2]);
    assert!(result.is_some());
    assert_eq!(record.get_data().len(), 2);
}

#[test]
fn test_record_merge() {
    let schema1 = Schema::new(&strings(&["id", "name"]), &strings(&["Integer", "String"]), &[0, 0], 0, "test1.tbl");
    let schema2 = Schema::new(&strings(&["age", "job"]), &strings(&["Integer", "String"]), &[0, 0], 0, "test2.tbl");
    let mut record1 = extract(&schema1, "1|Alice|".as_bytes()).unwrap();
    let record2 = extract(&schema2, "30|Engineer|".as_bytes()).unwrap();
    assert_eq!(record1.get_data().len(), 2);
    assert_eq!(record2.get_data().len(), 2);
    record1.merge_right(&record2);
    assert_eq!(record1.get_data().len(), 4);
}

#[test]
fn test_record_serialization() {
    let schema = schema_of(&["id", "text", "pi"], &["Integer", "String", "Float"]);
    let record = extract(&schema, "42|Hello World|3.14|".as_bytes()).unwrap();
    let bytes = record.to_bytes(&float_texts(&record));
    assert!(!bytes.is_empty());
    let new_record = extract(&schema, bytes.as_slice());
    assert!(new_record.is_some());
}

#[test]
fn test_record_edge_cases() {
    let record = Record::new();
    let size = record.get_size();
    assert_eq!(size, 0);
    let schema = schema_of(&["id", "empty_str", "num"], &["Integer", "String", "Integer"]);
    let record = extract(&schema, "1||3|".as_bytes());
    assert!(record.is_some());
    match record.unwrap().get_column(1) {
        Some(Value::String(val)) => assert_eq!(val.len(), 0),
        _ => panic!("Expected empty string"),
    }
}

#[test]
fn debug_extract_test() {
    let schema = Schema::new(
        &strings(&["id", "name", "title", "salary"]),
        &strings(&["Integer", "String", "String", "Integer"]),
        &[0, 0, 0, 0],
        0,
        "employees.tbl",
    );
    let result = extract(&schema, "1|Alice|Engineer|75000|".as_bytes());
    if let Some(record) = result {
        println!("Record data length: {}", record.get_data().len());
        for (i, data) in record.get_data().iter().enumerate() {
            match data {
                Value::Integer(val) => println!("Field {}: Integer({})", i, val),
                Value::Float(val) => println!("Field {}: Float({})", i, f64::from_bits(*val)),
                Value::String(val) => println!("Field {}: String('{}')", i, String::from_utf8_lossy(val)),
            }
        }
    }
}

#[test]
fn project_keeps_chosen_columns_in_order() {
    let schema = schema_of(&["a", "b", "c"], &["Integer", "String", "Integer"]);
    let mut record = extract(&schema, "7|x|9|".as_bytes()).unwrap();
    assert!(record.project(&[2, 0, 2]).is_some());
    assert_eq!(record.num_columns(), 3);
    assert!(matches!(record.get_column(0), Some(Value::Integer(9))));
    assert!(matches!(record.get_column(1), Some(Value::Integer(7))));
    assert!(matches!(record.get_column(2), Some(Value::Integer(9))));
}

#[test]
fn project_out_of_range_changes_nothing() {
    let schema = schema_of(&["a", "b"], &["Integer", "Integer"]);
    let mut record = extract(&schema, "1|2|".as_bytes()).unwrap();
    assert!(record.project(&[0, 5]).is_none());
    assert!(record.project(&[-1]).is_none());
    assert_eq!(record.num_columns(), 2);
}

#[test]
fn merge_right_and_left_order_columns() {
    let a = Record::from_values(vec![Value::Integer(1), Value::String(b"x".to_vec())]);
    let b = Record::from_values(vec![Value::Integer(2)]);
    let mut right = a.duplicate();
    right.merge_right(&b);
    assert!(matches!(right.get_column(0), Some(Value::Integer(1))));
    assert!(matches!(right.get_column(2), Some(Value::Integer(2))));
    let mut left = a.duplicate();
    left.merge_left(&b);
    assert!(matches!(left.get_column(0), Some(Value::Integer(2))));
    match left.get_column(2) {
        Some(Value::String(s)) => assert_eq!(s.as_slice(), b"x"),
        _ => panic!("Expected string"),
    }
}

#[test]
fn to_bytes_writes_pipe_delimited_line() {
    let r = Record::from_values(vec![Value::Integer(-42), Value::String(b"ab".to_vec()), Value::Integer(0)]);
    assert_eq!(r.to_bytes(&Vec::new()), b"-42|ab|0|\n".to_vec());
    let m = Record::from_values(vec![Value::Integer(i64::MIN)]);
    assert_eq!(m.to_bytes(&Vec::new()), b"-9223372036854775808|\n".to_vec());
}

#[test]
fn text_round_trip_keeps_columns() {
    let schema = schema_of(&["a", "b", "c"], &["Integer", "String", "Float"]);
    let r = Record::from_values(vec![
        Value::Integer(1234567890123),
        Value::String(b"hello world".to_vec()),
        Value::Float(2.5f64.to_bits()),
    ]);
    let bytes = r.to_bytes(&float_texts(&r));
    let back = extract(&schema, bytes.as_slice()).unwrap();
    assert!(back.same_as(&r));
}

#[test]
fn split_fields_consumes_through_newline() {
    let data = b"1|2|rest\n3|4|\n";
    let (fields, next) = split_fields(data, 0, 2).unwrap();
    assert_eq!(fields, vec![b"1".to_vec(), b"2".to_vec()]);
    assert_eq!(next, 9);
    let (fields, next) = split_fields(data, next, 2).unwrap();
    assert_eq!(fields, vec![b"3".to_vec(), b"4".to_vec()]);
    assert_eq!(next, data.len());
    assert!(split_fields(data, 0, 4).is_some());
    assert!(split_fields(data, 0, 5).is_none());
}

#[test]
fn parse_int_limits() {
    assert_eq!(minidb::parse_int(b"9223372036854775807"), Some(i64::MAX));
    assert_eq!(minidb::parse_int(b"-9223372036854775808"), Some(i64::MIN));
    assert_eq!(minidb::parse_int(b"9223372036854775808"), None);
    assert_eq!(minidb::parse_int(b"+17"), Some(17));
    assert_eq!(minidb::parse_int(b""), None);
    assert_eq!(minidb::parse_int(b"-"), None);
    assert_eq!(minidb::parse_int(b"1x"), None);
}

#[test]
fn from_fields_rejects_bad_integer_and_wrong_count() {
    let schema = schema_of(&["a", "b"], &["Integer", "Float"]);
    let fields = vec![b"12".to_vec(), b"1.5".to_vec()];
    assert!(Record::from_fields(&schema, &fields, &vec![None, Some(1.5f64.to_bits())]).is_some());
    assert!(Record::from_fields(&schema, &fields, &vec![None, None]).is_none());
    let bad = vec![b"1a".to_vec(), b"1.5".to_vec()];
    assert!(Record::from_fields(&schema, &bad, &vec![None, Some(0)]).is_none());
    assert!(Record::from_fields(&schema, &vec![b"1".to_vec()], &vec![None]).is_none());
}

#[test]
fn record_size_counts_columns_and_string_bytes() {
    let r = Record::from_values(vec![Value::Integer(1), Value::String(b"abcd".to_vec())]);
    assert_eq!(r.get_size(), 8 + 8 + 4);
    let mut c = r.duplicate();
    c.clear();
    assert_eq!(c.num_columns(), 0);
}
