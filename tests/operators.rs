use minidb::{
    compile_condition, dup_elim, group_by, nested_loop_join, order_by, project, select, CompOp, Cnf, CondExpr,
    CondOperand, OrderMaker, Record, Schema, Value,
};

fn strings(v: &[&str]) -> Vec<String> {
    v.iter().map(|s| s.to_string()).collect()
}

fn ints(v: &[i64]) -> Record {
    Record::from_values(v.iter().map(|x| Value::Integer(*x)).collect())
}

fn column_ints(rs: &Vec<Record>, i: usize) -> Vec<i64> {
    rs.iter()
        .map(|r| match r.get_column(i) {
            Some(Value::Integer(v)) => *v,
            _ => panic!("Expected integer"),
        })
        .collect()
}

fn name(n: &str) -> CondOperand {
    CondOperand::Name(n.to_string())
}

#[test]
fn point_filter_selects_one_name() {
    let schema = Schema::new(&strings(&["id", "name"]), &strings(&["Integer", "String"]), &[0, 0], 3, "t");
    let rows = vec![
        Record::from_values(vec![Value::Integer(1), Value::String(b"a".to_vec())]),
        Record::from_values(vec![Value::Integer(2), Value::String(b"b".to_vec())]),
        Record::from_values(vec![Value::Integer(3), Value::String(b"c".to_vec())]),
    ];
    let cond = CondExpr::Compare(name("id"), CompOp::Equal, CondOperand::Int("2".to_string()));
    let (cnf, consts) = compile_condition(&cond, &schema).unwrap();
    let kept = select(&cnf, &consts, &rows);
    let out = project(&[1], &kept);
    assert_eq!(out.len(), 1);
    assert_eq!(out[0].num_columns(), 1);
    match out[0].get_column(0) {
        Some(Value::String(s)) => assert_eq!(s.as_slice(), b"b"),
        _ => panic!("Expected string"),
    }
}

#[test]
fn equi_join_by_shared_name() {
    let r_schema = Schema::new(&strings(&["k", "x"]), &strings(&["Integer", "Integer"]), &[0, 0], 2, "r");
    let s_schema = Schema::new(&strings(&["k", "y"]), &strings(&["Integer", "Integer"]), &[0, 0], 2, "s");
    let r = vec![ints(&[1, 10]), ints(&[2, 20])];
    let s = vec![ints(&[2, 200]), ints(&[3, 300])];
    let pred = Cnf::extract_equijoin(&r_schema, &s_schema);
    let joined = nested_loop_join(&pred, &r, &s);
    let out = project(&[1, 3], &joined);
    assert_eq!(out.len(), 1);
    assert_eq!(column_ints(&out, 0), vec![20]);
    assert_eq!(column_ints(&out, 1), vec![200]);
}

#[test]
fn distinct_yields_each_value_once() {
    let u: Vec<Record> = [1, 1, 2, 2, 2, 3].iter().map(|v| ints(&[*v])).collect();
    let out = dup_elim(&u);
    let mut vals = column_ints(&out, 0);
    vals.sort();
    assert_eq!(vals, vec![1, 2, 3]);
}

#[test]
fn dup_elim_twice_equals_once() {
    let u: Vec<Record> = [5, 1, 5, 2, 1, 5, 9].iter().map(|v| ints(&[*v])).collect();
    let once = dup_elim(&u);
    let twice = dup_elim(&once);
    assert_eq!(column_ints(&once, 0), vec![5, 1, 2, 9]);
    assert_eq!(column_ints(&twice, 0), column_ints(&once, 0));
}

#[test]
fn order_by_descending() {
    let schema = Schema::new(&strings(&["v"]), &strings(&["Integer"]), &[0], 8, "v");
    let v: Vec<Record> = [3, 1, 4, 1, 5, 9, 2, 6].iter().map(|x| ints(&[*x])).collect();
    let out = order_by(&OrderMaker::new(&schema), false, &v);
    assert_eq!(column_ints(&out, 0), vec![9, 6, 5, 4, 3, 2, 1, 1]);
    let asc = order_by(&OrderMaker::new(&schema), true, &v);
    assert_eq!(column_ints(&asc, 0), vec![1, 1, 2, 3, 4, 5, 6, 9]);
}

#[test]
fn order_by_strings_then_ints() {
    let schema = Schema::new(&strings(&["s", "n"]), &strings(&["String", "Integer"]), &[0, 0], 0, "");
    let mk = |s: &str, n: i64| Record::from_values(vec![Value::String(s.as_bytes().to_vec()), Value::Integer(n)]);
    let v = vec![mk("b", 1), mk("a", 2), mk("b", 0), mk("ab", 5)];
    let out = order_by(&OrderMaker::new(&schema), true, &v);
    assert_eq!(column_ints(&out, 1), vec![2, 5, 0, 1]);
}

#[test]
fn contradiction_selects_nothing() {
    let schema = Schema::new(&strings(&["a", "b"]), &strings(&["Integer", "Integer"]), &[0, 0], 0, "");
    let lt = || CondExpr::Compare(name("a"), CompOp::Less, name("b"));
    let cond = CondExpr::And(Box::new(lt()), Box::new(CondExpr::Not(Box::new(lt()))));
    let (cnf, consts) = compile_condition(&cond, &schema).unwrap();
    assert!(cnf.is_false);
    let rows = vec![ints(&[1, 2]), ints(&[2, 1]), ints(&[3, 3])];
    assert!(select(&cnf, &consts, &rows).is_empty());
}

#[test]
fn compile_condition_errors() {
    let schema = Schema::new(&strings(&["a", "s"]), &strings(&["Integer", "String"]), &[0, 0], 0, "");
    let bad_name = CondExpr::Compare(name("zz"), CompOp::Equal, CondOperand::Int("1".to_string()));
    assert!(compile_condition(&bad_name, &schema).is_err());
    let bad_type = CondExpr::Compare(name("a"), CompOp::Equal, CondOperand::Str("x".to_string()));
    assert!(compile_condition(&bad_type, &schema).is_err());
    let ok = CondExpr::Or(
        Box::new(CondExpr::Compare(name("s"), CompOp::Equal, CondOperand::Str("x".to_string()))),
        Box::new(CondExpr::Compare(CondOperand::Int("3".to_string()), CompOp::Less, name("a"))),
    );
    let (cnf, consts) = compile_condition(&ok, &schema).unwrap();
    assert_eq!(consts.num_columns(), 2);
    let row = |a: i64, s: &str| Record::from_values(vec![Value::Integer(a), Value::String(s.as_bytes().to_vec())]);
    assert!(cnf.run(&row(1, "x"), &consts));
    assert!(cnf.run(&row(4, "y"), &consts));
    assert!(!cnf.run(&row(2, "y"), &consts));
    let t = compile_condition(&CondExpr::Bool(true), &schema).unwrap().0;
    assert!(t.run(&row(0, ""), &Record::new()));
    let f = compile_condition(&CondExpr::Bool(false), &schema).unwrap().0;
    assert!(f.is_false);
}

#[test]
fn group_by_keeps_first_of_each_run() {
    let schema = Schema::new(&strings(&["g", "v"]), &strings(&["Integer", "Integer"]), &[0, 0], 0, "");
    let grouping = OrderMaker::new_projected(&schema, &[0, 7]);
    assert_eq!(grouping.atts.len(), 1);
    let rows = vec![ints(&[1, 10]), ints(&[1, 11]), ints(&[2, 20]), ints(&[3, 30]), ints(&[3, 31])];
    let out = group_by(&grouping, &rows);
    assert_eq!(column_ints(&out, 1), vec![10, 20, 30]);
}

#[test]
fn nested_loop_join_orders_left_major() {
    let l = vec![ints(&[1]), ints(&[2])];
    let r = vec![ints(&[10]), ints(&[20])];
    let out = nested_loop_join(&Cnf::new(), &l, &r);
    assert_eq!(column_ints(&out, 0), vec![1, 1, 2, 2]);
    assert_eq!(column_ints(&out, 1), vec![10, 20, 10, 20]);
}

#[test]
fn project_stops_at_first_misfit() {
    let rows = vec![ints(&[1, 2]), ints(&[3]), ints(&[4, 5])];
    let out = project(&[1], &rows);
    assert_eq!(column_ints(&out, 0), vec![2]);
}

#[test]
fn merge_join_pairs_equal_key_runs() {
    let schema = Schema::new(&strings(&["k", "v"]), &strings(&["Integer", "Integer"]), &[0, 0], 0, "");
    let key = OrderMaker::new_projected(&schema, &[0]);
    let left = vec![ints(&[1, 10]), ints(&[2, 20]), ints(&[2, 21]), ints(&[4, 40])];
    let right = vec![ints(&[2, 200]), ints(&[2, 201]), ints(&[3, 300]), ints(&[4, 400])];
    let out = minidb::merge_join(&Cnf::new(), &key, &key, &left, &right);
    assert_eq!(column_ints(&out, 1), vec![20, 20, 21, 21, 40]);
    assert_eq!(column_ints(&out, 3), vec![200, 201, 200, 201, 400]);
    let other = Schema::new(&strings(&["k", "w"]), &strings(&["Integer", "Integer"]), &[0, 0], 0, "");
    let nl = nested_loop_join(&Cnf::extract_equijoin(&schema, &other), &left, &right);
    assert_eq!(column_ints(&nl, 3), column_ints(&out, 3));
}
