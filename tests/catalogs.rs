use minidb::{Catalog, Schema};

fn strings(v: &[&str]) -> Vec<String> {
    v.iter().map(|s| s.to_string()).collect()
}

#[test]
fn catalog_create_and_query() {
    let mut c = Catalog::new("test.db".to_string());
    assert!(c.create_table("t", &strings(&["id", "name"]), &strings(&["Integer", "String"])).is_ok());
    assert!(c.create_table("t", &strings(&["x"]), &strings(&["Integer"])).is_err());
    assert!(c.create_table("u", &strings(&["x"]), &strings(&["Bogus"])).is_err());
    assert!(c.create_table("u", &strings(&["x", "y"]), &strings(&["Integer"])).is_err());
    let mut n = -1;
    assert!(c.get_no_tuples("t", &mut n).is_some());
    assert_eq!(n, 0);
    assert!(c.get_no_tuples("missing", &mut n).is_none());
    c.set_no_tuples("t", &42);
    assert!(c.get_no_tuples("t", &mut n).is_some());
    assert_eq!(n, 42);
    c.set_data_file("t", "t.bin");
    let mut path = String::new();
    assert!(c.get_data_file("t", &mut path).is_some());
    assert_eq!(path, "t.bin");
    c.set_no_distinct("t", "name", &3);
    let mut d = 0;
    assert!(c.get_no_distinct("t", "name", &mut d).is_some());
    assert_eq!(d, 3);
    assert!(c.get_no_distinct("t", "nope", &mut d).is_none());
    let mut atts = Vec::new();
    assert!(c.get_attributes("t", &mut atts).is_some());
    assert_eq!(atts, strings(&["id", "name"]));
    let mut s = Schema::default();
    assert!(c.get_schema("t", &mut s).is_some());
    assert_eq!(s.get_no_tuples(), 42);
    assert_eq!(s.index_of("name"), Some(1));
}

#[test]
fn catalog_lists_and_drops_tables() {
    let mut c = Catalog::new("db".to_string());
    assert!(c.create_table("a", &strings(&["x"]), &strings(&["Integer"])).is_ok());
    assert!(c.create_table("b", &strings(&["y"]), &strings(&["Float"])).is_ok());
    let mut names = Vec::new();
    c.get_tables(&mut names);
    assert_eq!(names, strings(&["a", "b"]));
    assert!(c.drop_table("a").is_some());
    assert!(c.drop_table("a").is_none());
    c.get_tables(&mut names);
    assert_eq!(names, strings(&["b"]));
    assert_eq!(c.file_name(), "db");
}

#[test]
fn catalog_text_lists_tables_and_attributes() {
    let mut c = Catalog::new("db".to_string());
    assert!(c.create_table("t", &strings(&["id", "name"]), &strings(&["Integer", "String"])).is_ok());
    c.set_no_tuples("t", &42);
    c.set_data_file("t", "t.bin");
    c.set_no_distinct("t", "id", &-0);
    let text = String::from_utf8(c.to_text()).unwrap();
    assert_eq!(text, "t|42|t.bin|\n  id|0|INTEGER|0|\n  name|1|STRING|0|\n");
}
