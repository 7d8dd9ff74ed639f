use minidb::{page_fields, split_fields, Page, Record, Schema, Value, MAX_RECORDS_PER_PAGE, PAGE_SIZE};

fn strings(v: &[&str]) -> Vec<String> {
    v.iter().map(|s| s.to_string()).collect()
}

fn create_test_schema() -> Schema {
    Schema::new(&strings(&["id", "name", "age"]), &strings(&["Integer", "String", "Integer"]), &[0, 0, 0], 0, "test.tbl")
}

fn decode_floats(fields: &Vec<Vec<u8>>) -> Vec<Option<u64>> {
    fields
        .iter()
        .map(|f| std::str::from_utf8(f).ok().and_then(|s| s.parse::<f64>().ok()).map(|x| x.to_bits()))
        .collect()
}

fn extract(schema: &Schema, data: &str) -> Record {
    let (fields, _) = split_fields(data.as_bytes(), 0, schema.get_num_atts()).unwrap();
    Record::from_fields(schema, &fields, &decode_floats(&fields)).unwrap()
}

fn create_test_record() -> Record {
    extract(&create_test_schema(), "42|John Doe|25|")
}

fn from_binary(page: &mut Page, bits: &[u8], schema: &Schema) {
    page.empty_it_out();
    for fields in page_fields(bits, schema.get_num_atts()) {
        if let Some(r) = Record::from_fields(schema, &fields, &decode_floats(&fields)) {
            assert!(page.append(r));
        }
    }
}

#[test]
fn test_page_new() {
    let page = Page::new();
    assert!(page.is_empty());
    assert_eq!(page.get_num_records(), 0);
    assert_eq!(page.get_current_size(), 0);
}

#[test]
fn test_page_append_single_record() {
    let mut page = Page::new();
    assert!(page.append(create_test_record()));
    assert!(!page.is_empty());
    assert_eq!(page.get_num_records(), 1);
}

#[test]
fn test_page_append_multiple_records() {
    let mut page = Page::new();
    let schema = create_test_schema();
    for i in 0..10 {
        let record = extract(&schema, &format!("{}|Test User {}|{}|", i, i, 20 + i));
        assert!(page.append(record));
    }
    assert_eq!(page.get_num_records(), 10);
    assert!(!page.is_empty());
}

#[test]
fn test_page_get_first() {
    let mut page = Page::new();
    let original_record = create_test_record();
    page.append(original_record.duplicate());
    let mut retrieved_record = Record::new();
    assert!(page.get_first(&mut retrieved_record));
    assert!(retrieved_record.same_as(&original_record));
    assert!(page.is_empty());
    assert_eq!(page.get_num_records(), 0);
}

#[test]
fn test_page_get_first_empty_page() {
    let mut page = Page::new();
    let mut record = Record::new();
    assert!(!page.get_first(&mut record));
}

#[test]
fn test_page_empty_it_out() {
    let mut page = Page::new();
    let schema = create_test_schema();
    for i in 0..5 {
        page.append(extract(&schema, &format!("{}|User{}|{}|", i, i, 20 + i)));
    }
    assert!(!page.is_empty());
    page.empty_it_out();
    assert!(page.is_empty());
    assert_eq!(page.get_num_records(), 0);
    assert_eq!(page.get_current_size(), 0);
}

#[test]
fn test_page_to_binary() {
    let mut page = Page::new();
    page.append(create_test_record());
    let binary = page.to_binary(&Vec::new());
    assert_eq!(binary.len(), PAGE_SIZE);
    let data_str = String::from_utf8_lossy(&binary);
    assert!(data_str.contains("42|John Doe|25|"));
}

#[test]
fn test_page_from_binary() {
    let schema = create_test_schema();
    let mut binary = "1|Alice|30|\n2|Bob|25|\n".as_bytes().to_vec();
    binary.resize(PAGE_SIZE, 0);
    let mut page = Page::new();
    from_binary(&mut page, &binary, &schema);
    assert!(!page.is_empty());
    assert_eq!(page.get_num_records(), 2);
}

#[test]
fn test_page_serialization_roundtrip() {
    let schema = create_test_schema();
    let mut original_page = Page::new();
    original_page.append(extract(&schema, "1|Alice|30|"));
    original_page.append(extract(&schema, "2|Bob|25|"));
    assert_eq!(original_page.get_num_records(), 2);
    let binary = original_page.to_binary(&Vec::new());
    let mut restored_page = Page::new();
    from_binary(&mut restored_page, &binary, &schema);
    assert_eq!(restored_page.get_num_records(), 2);
    assert!(!restored_page.is_empty());
}

#[test]
fn test_page_append_full_page() {
    let mut page = Page::new();
    let schema = create_test_schema();
    let mut append_count = 0;
    for i in 0..MAX_RECORDS_PER_PAGE + 100 {
        let record = extract(&schema, &format!("{}|Very Long User Name That Takes More Space{}|{}|", i, i, 25));
        if page.append(record) {
            append_count += 1;
        } else {
            break;
        }
    }
    assert!(append_count < MAX_RECORDS_PER_PAGE + 100);
    assert!(append_count <= MAX_RECORDS_PER_PAGE);
}

#[test]
fn test_page_operations() {
    let mut page = Page::new();
    assert!(page.is_empty());
    assert_eq!(page.get_num_records(), 0);
    let success = page.append(Record::new());
    assert!(success);
    assert!(!page.is_empty());
    assert_eq!(page.get_num_records(), 1);
    let mut retrieved_record = Record::new();
    let success = page.get_first(&mut retrieved_record);
    assert!(success);
    assert!(page.is_empty());
    assert_eq!(page.get_num_records(), 0);
}

#[test]
fn test_page_serialization() {
    let mut page = Page::new();
    for _ in 0..3 {
        page.append(Record::new());
    }
    let binary_data = page.to_binary(&Vec::new());
    assert_eq!(binary_data.len(), 131072);
}

#[test]
fn page_round_trip_keeps_records_in_order() {
    let schema = Schema::new(&strings(&["id", "name", "score"]), &strings(&["Integer", "String", "Float"]), &[0, 0, 0], 0, "");
    let mut page = Page::new();
    let mut texts = Vec::new();
    for i in 0..20i64 {
        let r = Record::from_values(vec![
            Value::Integer(i * 1000 - 7),
            Value::String(format!("row {}", i).into_bytes()),
            Value::Float((i as f64 * 0.25).to_bits()),
        ]);
        texts.push(vec![Vec::new(), Vec::new(), (i as f64 * 0.25).to_string().into_bytes()]);
        assert!(page.append(r));
    }
    let binary = page.to_binary(&texts);
    let mut back = Page::new();
    from_binary(&mut back, &binary, &schema);
    assert_eq!(back.get_num_records(), 20);
    let mut a = Record::new();
    let mut b = Record::new();
    while page.get_first(&mut a) {
        assert!(back.get_first(&mut b));
        assert!(a.same_as(&b));
    }
}

#[test]
fn page_rejects_record_past_budget() {
    let mut page = Page::new();
    let big = Record::from_values(vec![Value::String(vec![b'x'; PAGE_SIZE])]);
    assert!(!page.append(big));
    assert!(page.is_empty());
    let fits = Record::from_values(vec![Value::String(vec![b'x'; PAGE_SIZE - 16])]);
    assert!(page.append(fits));
    assert_eq!(page.get_current_size(), PAGE_SIZE);
    assert!(!page.append(Record::new()));
}
