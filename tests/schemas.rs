use minidb::{Schema, Type};

fn strings(v: &[&str]) -> Vec<String> {
    v.iter().map(|s| s.to_string()).collect()
}

#[test]
fn test_schema_creation() {
    let schema = Schema::new(&strings(&["id", "name"]), &strings(&["Integer", "String"]), &[10, 50], 100, "test.tbl");
    assert_eq!(schema.get_num_atts(), 2);
    assert_eq!(schema.get_no_tuples(), 100);
    assert_eq!(schema.get_f_path(), "test.tbl");
}

#[test]
fn test_schema_from_attributes() {
    let schema = Schema::from_attributes(&strings(&["col1", "col2"]), &strings(&["Float", "Integer"]), &[5, 15]);
    assert_eq!(schema.get_num_atts(), 2);
    assert_eq!(schema.get_no_tuples(), 0);
    assert_eq!(schema.get_f_path(), "");
}

#[test]
fn test_schema_index_of() {
    let schema = Schema::new(
        &strings(&["id", "name", "age"]),
        &strings(&["Integer", "String", "Integer"]),
        &[0, 0, 0],
        0,
        "",
    );
    assert_eq!(schema.index_of("name"), Some(1));
    assert_eq!(schema.index_of("age"), Some(2));
    assert_eq!(schema.index_of("nonexistent"), None);
}

#[test]
fn test_schema_find_type() {
    let schema = Schema::new(
        &strings(&["id", "salary", "name"]),
        &strings(&["Integer", "Float", "String"]),
        &[0, 0, 0],
        0,
        "",
    );
    assert_eq!(schema.find_type("id"), Some(Type::Integer));
    assert_eq!(schema.find_type("salary"), Some(Type::Float));
    assert_eq!(schema.find_type("name"), Some(Type::String));
    assert_eq!(schema.find_type("missing"), None);
}

#[test]
fn test_schema_append() {
    let mut schema1 = Schema::new(&strings(&["col1"]), &strings(&["Integer"]), &[5], 10, "file1");
    let schema2 = Schema::new(&strings(&["col2"]), &strings(&["String"]), &[15], 20, "file2");
    let result = schema1.append(&schema2);
    assert!(result.is_some());
    assert_eq!(schema1.get_num_atts(), 2);
}

#[test]
fn test_schema_project() {
    let mut schema = Schema::new(
        &strings(&["a", "b", "c", "d"]),
        &strings(&["Integer", "Float", "String", "Integer"]),
        &[1, 2, 3, 4],
        0,
        "",
    );
    let result = schema.project(&[0, 2]);
    assert!(result.is_some());
    assert_eq!(schema.get_num_atts(), 2);
}

#[test]
fn append_fails_on_shared_name() {
    let mut a = Schema::new(&strings(&["k", "x"]), &strings(&["Integer", "Integer"]), &[0, 0], 0, "");
    let b = Schema::new(&strings(&["k"]), &strings(&["Integer"]), &[0], 0, "");
    assert!(a.append(&b).is_none());
    assert_eq!(a.get_num_atts(), 2);
}

#[test]
fn join_right_estimates_equi_join_size() {
    let mut r = Schema::new(&strings(&["k", "x"]), &strings(&["Integer", "Integer"]), &[10, 5], 100, "r");
    let s = Schema::new(&strings(&["k", "y"]), &strings(&["Integer", "Integer"]), &[20, 7], 50, "s");
    r.join_right(&s);
    assert_eq!(r.get_num_atts(), 3);
    assert_eq!(r.index_of("y"), Some(2));
    assert_eq!(r.get_no_tuples(), 100 * 50 / 20);
}

#[test]
fn join_right_with_unknown_distincts_keeps_product() {
    let mut r = Schema::new(&strings(&["k"]), &strings(&["Integer"]), &[0], 3, "r");
    let s = Schema::new(&strings(&["k"]), &strings(&["Integer"]), &[0], 4, "s");
    r.join_right(&s);
    assert_eq!(r.get_num_atts(), 1);
    assert_eq!(r.get_no_tuples(), 12);
}

#[test]
fn join_right_caps_large_products() {
    let mut r = Schema::new(&strings(&["a"]), &strings(&["Integer"]), &[0], i32::MAX, "r");
    let s = Schema::new(&strings(&["b"]), &strings(&["Integer"]), &[0], i32::MAX, "s");
    r.join_right(&s);
    assert_eq!(r.get_no_tuples(), i32::MAX);
}

#[test]
fn rename_and_distincts() {
    let mut s = Schema::new(&strings(&["a", "b"]), &strings(&["INTEGER", "STRING"]), &[1, 2], 0, "");
    assert!(!s.rename_att("a", "b"));
    assert!(!s.rename_att("zz", "c"));
    assert!(s.rename_att("a", "c"));
    assert_eq!(s.index_of("c"), Some(0));
    assert_eq!(s.index_of("a"), None);
    assert!(s.set_distincts("b", 9));
    assert_eq!(s.get_distincts("b"), Some(9));
    assert!(!s.set_distincts("q", 9));
    assert_eq!(s.get_distincts("q"), None);
}

#[test]
fn project_rejects_bad_index() {
    let mut s = Schema::new(&strings(&["a", "b"]), &strings(&["Integer", "Float"]), &[0, 0], 0, "");
    assert!(s.project(&[1, 2]).is_none());
    assert_eq!(s.get_num_atts(), 2);
    assert!(s.project(&[1, 1]).is_some());
    assert_eq!(s.find_type("b"), Some(Type::Float));
}

#[test]
fn new_takes_shortest_list_and_sets_path() {
    let mut s = Schema::new(&strings(&["a", "b", "c"]), &strings(&["Integer", "Float"]), &[0, 0, 0], 5, "p");
    assert_eq!(s.get_atts_len(), 2);
    s.set_no_tuples(7);
    s.set_f_path("q");
    assert_eq!(s.get_no_tuples(), 7);
    assert_eq!(s.get_f_path(), "q");
    let e = Schema::new_no_attributes(3, "x");
    assert_eq!(e.get_num_atts(), 0);
    assert_eq!(e.get_no_tuples(), 3);
}
