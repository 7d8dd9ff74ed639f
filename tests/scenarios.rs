use minidb::{
    hash_join, nested_loop_join, plan_query, Cnf, CompOp, Comparison, CondExpr, CondOperand, Disjunction, QueryExecutionTree,
    Record, RelOp, Schema, Value,
};

fn strings(v: &[&str]) -> Vec<String> {
    v.iter().map(|s| s.to_string()).collect()
}

fn ints(v: &[i64]) -> Record {
    Record::from_values(v.iter().map(|x| Value::Integer(*x)).collect())
}

fn column_ints(rs: &Vec<Record>, i: usize) -> Vec<i64> {
    rs.iter()
        .map(|r| match r.get_column(i) {
            Some(Value::Integer(v)) => *v,
            _ => panic!("Expected integer"),
        })
        .collect()
}

#[test]
fn scenario_point_filter() {
    let t = Schema::new(&strings(&["id", "name"]), &strings(&["Integer", "String"]), &[3, 3], 3, "t");
    let rows = vec![
        Record::from_values(vec![Value::Integer(1), Value::String(b"a".to_vec())]),
        Record::from_values(vec![Value::Integer(2), Value::String(b"b".to_vec())]),
        Record::from_values(vec![Value::Integer(3), Value::String(b"c".to_vec())]),
    ];
    let cond = CondExpr::Compare(CondOperand::Name("id".to_string()), CompOp::Equal, CondOperand::Int("2".to_string()));
    let plan = plan_query(&vec![t], &Some(strings(&["name"])), &Some(cond), false, &None).unwrap();
    let out = plan.execute(&vec![rows]);
    assert_eq!(out.len(), 1);
    assert_eq!(out[0].num_columns(), 1);
    match out[0].get_column(0) {
        Some(Value::String(s)) => assert_eq!(s.as_slice(), b"b"),
        _ => panic!("Expected string"),
    }
}

#[test]
fn scenario_equi_join_by_shared_name() {
    let r = Schema::new(&strings(&["k", "x"]), &strings(&["Integer", "Integer"]), &[2, 2], 2, "r");
    let s = Schema::new(&strings(&["k", "y"]), &strings(&["Integer", "Integer"]), &[2, 2], 2, "s");
    let tables = vec![vec![ints(&[1, 10]), ints(&[2, 20])], vec![ints(&[2, 200]), ints(&[3, 300])]];
    let plan = plan_query(&vec![r, s], &Some(strings(&["x", "y"])), &None, false, &None).unwrap();
    let out = plan.execute(&tables);
    assert_eq!(out.len(), 1);
    assert_eq!(column_ints(&out, 0), vec![20]);
    assert_eq!(column_ints(&out, 1), vec![200]);
}

#[test]
fn scenario_distinct() {
    let u = Schema::new(&strings(&["c"]), &strings(&["Integer"]), &[3], 6, "u");
    let rows: Vec<Record> = [1, 1, 2, 2, 2, 3].iter().map(|v| ints(&[*v])).collect();
    let plan = plan_query(&vec![u], &Some(strings(&["c"])), &None, true, &None).unwrap();
    assert!(matches!(plan.root, RelOp::DupElim(_)));
    let out = plan.execute(&vec![rows]);
    let mut vals = column_ints(&out, 0);
    vals.sort();
    assert_eq!(vals, vec![1, 2, 3]);
}

#[test]
fn scenario_order_by_descending() {
    let v = Schema::new(&strings(&["v"]), &strings(&["Integer"]), &[8], 8, "v");
    let rows: Vec<Record> = [3, 1, 4, 1, 5, 9, 2, 6].iter().map(|x| ints(&[*x])).collect();
    let plan = plan_query(&vec![v], &Some(strings(&["v"])), &None, false, &Some((strings(&["v"]), false))).unwrap();
    let out = plan.execute(&vec![rows]);
    assert_eq!(column_ints(&out, 0), vec![9, 6, 5, 4, 3, 2, 1, 1]);
}

#[test]
fn scenario_contradiction_yields_nothing() {
    let t = Schema::new(&strings(&["a", "b"]), &strings(&["Integer", "Integer"]), &[0, 0], 0, "t");
    let lt = || CondExpr::Compare(CondOperand::Name("a".to_string()), CompOp::Less, CondOperand::Name("b".to_string()));
    let cond = CondExpr::And(Box::new(lt()), Box::new(CondExpr::Not(Box::new(lt()))));
    let plan = plan_query(&vec![t], &None, &Some(cond), false, &None).unwrap();
    match &plan.root {
        RelOp::Select { predicate, .. } => assert!(predicate.is_false),
        _ => panic!("Expected a selection"),
    }
    assert!(plan.execute(&vec![vec![ints(&[1, 2]), ints(&[2, 1])]]).is_empty());
}

#[test]
fn plan_query_reports_unknown_names() {
    let t = Schema::new(&strings(&["a"]), &strings(&["Integer"]), &[0], 0, "t");
    assert!(plan_query(&vec![t.duplicate()], &Some(strings(&["zz"])), &None, false, &None).is_err());
    assert!(plan_query(&vec![t.duplicate()], &Some(strings(&["a"])), &None, false, &Some((strings(&["q"]), true))).is_err());
    let bad = CondExpr::Compare(CondOperand::Name("a".to_string()), CompOp::Equal, CondOperand::Str("x".to_string()));
    assert!(plan_query(&vec![t.duplicate()], &None, &Some(bad), false, &None).is_err());
    let plan = plan_query(&vec![t], &Some(strings(&["a"])), &None, false, &None).unwrap();
    assert!(matches!(plan.root, RelOp::Scan(0)));
}

#[test]
fn hash_join_matches_nested_loop_on_keys() {
    let l = vec![ints(&[1, 10]), ints(&[2, 20]), ints(&[2, 21])];
    let r = vec![ints(&[2, 200]), ints(&[3, 300]), ints(&[1, 100])];
    let by_right = hash_join(&Cnf::new(), false, &[0], &[0], &l, &r);
    assert_eq!(column_ints(&by_right, 1), vec![10, 20, 21]);
    assert_eq!(column_ints(&by_right, 3), vec![100, 200, 200]);
    let by_left = hash_join(&Cnf::new(), true, &[0], &[0], &l, &r);
    assert_eq!(column_ints(&by_left, 1), vec![20, 21, 10]);
    let s_k = Schema::new(&strings(&["k", "x"]), &strings(&["Integer", "Integer"]), &[0, 0], 0, "");
    let s_r = Schema::new(&strings(&["k", "y"]), &strings(&["Integer", "Integer"]), &[0, 0], 0, "");
    let nl = nested_loop_join(&Cnf::extract_equijoin(&s_k, &s_r), &l, &r);
    assert_eq!(nl.len(), by_right.len());
}

#[test]
fn join_order_prefers_cheapest_chain() {
    use_join_order();
}

fn use_join_order() {
    let a = Schema::new(&strings(&["a"]), &strings(&["Integer"]), &[100], 100, "a");
    let b = Schema::new(&strings(&["a", "b"]), &strings(&["Integer", "Integer"]), &[100, 0], 100, "b");
    let c = Schema::new(&strings(&["c"]), &strings(&["Integer"]), &[0], 2, "c");
    let schemas = vec![a, b, c];
    assert_eq!(minidb::join_order_cost(&schemas, &vec![0, 1, 2]), 300);
    assert_eq!(minidb::join_order_cost(&schemas, &vec![0, 2, 1]), 400);
    assert_eq!(minidb::join_order_cost(&schemas, &vec![2, 1, 0]), 400);
    let best = minidb::optimal_join_order(&schemas);
    assert_eq!(best, vec![0, 1, 2]);
    assert_eq!(minidb::optimal_join_order(&vec![schemas[2].duplicate()]), vec![0]);
}

fn scan_rows() -> Vec<Record> {
    vec![
        Record::from_values(vec![Value::Integer(1), Value::String(b"Alice".to_vec())]),
        Record::from_values(vec![Value::Integer(2), Value::String(b"Bob".to_vec())]),
    ]
}

#[test]
fn test_scan_creation() {
    let schema = Schema::new(&strings(&["id", "name"]), &strings(&["Integer", "String"]), &[0, 0], 0, "test.tbl");
    assert_eq!(schema.get_num_atts(), 2);
    let scan = RelOp::Scan(0);
    let out = scan.run_all(&vec![scan_rows()]);
    assert_eq!(out.len(), 2);
    assert!(RelOp::Scan(3).run_all(&vec![scan_rows()]).is_empty());
}

#[test]
fn test_select_operator() {
    let comparison = Comparison::new();
    let predicate = Cnf::from_clause(Disjunction { terms: vec![comparison] });
    let constants = Record::from_values(vec![Value::Integer(2)]);
    let select = RelOp::Select { predicate, constants, producer: Box::new(RelOp::Scan(0)) };
    let out = select.run_all(&vec![scan_rows()]);
    assert_eq!(out.len(), 1);
    assert!(matches!(out[0].get_column(0), Some(Value::Integer(2))));
}

#[test]
fn test_project_operator() {
    let project = RelOp::Project { atts_to_keep: vec![1], producer: Box::new(RelOp::Scan(0)) };
    let out = project.run_all(&vec![scan_rows()]);
    assert_eq!(out.len(), 2);
    assert_eq!(out[1].num_columns(), 1);
}

#[test]
fn test_query_execution_tree() {
    let tree = QueryExecutionTree { root: RelOp::Scan(0), ordering: None, join_order: vec![0] };
    let result = tree.execute(&vec![vec![ints(&[7])]]);
    assert_eq!(column_ints(&result, 0), vec![7]);
}

#[test]
fn test_complex_query_tree() {
    let predicate = Cnf::from_clause(Disjunction { terms: vec![Comparison::new()] });
    let select = RelOp::Select {
        predicate,
        constants: Record::from_values(vec![Value::Integer(1)]),
        producer: Box::new(RelOp::Scan(0)),
    };
    let project = RelOp::Project { atts_to_keep: vec![0, 1], producer: Box::new(select) };
    let tree = QueryExecutionTree { root: project, ordering: None, join_order: vec![0] };
    let rows = vec![ints(&[1, 10, 5]), ints(&[2, 20, 6]), ints(&[1, 30, 7])];
    let result = tree.execute(&vec![rows]);
    assert_eq!(column_ints(&result, 1), vec![10, 30]);
}

#[test]
fn plan_uses_empty_scan_for_table_without_path() {
    let t = Schema::new(&strings(&["a"]), &strings(&["Integer"]), &[0], 0, "");
    let plan = plan_query(&vec![t], &None, &None, false, &None).unwrap();
    assert!(matches!(plan.root, RelOp::EmptyTableScan));
    assert!(plan.execute(&vec![vec![ints(&[1])]]).is_empty());
}

#[test]
fn plan_joins_in_cheapest_order() {
    let big = Schema::new(&strings(&["k", "x"]), &strings(&["Integer", "Integer"]), &[1000, 0], 1000, "big");
    let small = Schema::new(&strings(&["z"]), &strings(&["Integer"]), &[0], 2, "small");
    let mid = Schema::new(&strings(&["k", "y"]), &strings(&["Integer", "Integer"]), &[1000, 0], 1000, "mid");
    let plan = plan_query(&vec![big, small, mid], &Some(strings(&["x", "y", "z"])), &None, false, &None).unwrap();
    assert_eq!(plan.join_order, vec![0, 2, 1]);
    let tables = vec![vec![ints(&[1, 10]), ints(&[2, 20])], vec![ints(&[7])], vec![ints(&[2, 200])]];
    let out = plan.execute(&tables);
    assert_eq!(column_ints(&out, 0), vec![20]);
    assert_eq!(column_ints(&out, 1), vec![200]);
    assert_eq!(column_ints(&out, 2), vec![7]);
}

#[test]
fn plan_drawing_shows_tree() {
    let join = RelOp::NestedLoopJoin {
        predicate: Cnf::new(),
        left_producer: Box::new(RelOp::Scan(0)),
        right_producer: Box::new(RelOp::DupElim(Box::new(RelOp::Scan(12)))),
    };
    let root = RelOp::Project { atts_to_keep: vec![0], producer: Box::new(join) };
    assert_eq!(
        root.as_string(),
        "Project\n\u{2514}\u{2500}NestedLoopJoin\n  \u{251C}\u{2500}Scan(0)\n  \u{2514}\u{2500}DupElim\n    \u{2514}\u{2500}Scan(12)"
    );
}
