use minidb::{CompOp, Comparison, Cnf, Disjunction, Record, Schema, Target, Type, Value};

fn strings(v: &[&str]) -> Vec<String> {
    v.iter().map(|s| s.to_string()).collect()
}

fn ints(v: &[i64]) -> Record {
    Record::from_values(v.iter().map(|x| Value::Integer(*x)).collect())
}

fn left_cmp(a: i32, op: CompOp, b: i32) -> Comparison {
    Comparison { operand1: Target::Left, which_att1: a, operand2: Target::Left, which_att2: b, attr_type: Type::Integer, op }
}

fn clause(terms: Vec<Comparison>) -> Disjunction {
    Disjunction { terms }
}

fn cnf(clauses: Vec<Disjunction>) -> Cnf {
    Cnf { clauses, is_false: false }
}

#[test]
fn test_comparison_creation() {
    let comparison = Comparison::new();
    assert_eq!(comparison.op, CompOp::Equal);
    assert_eq!(comparison.operand1, Target::Left);
    assert_eq!(comparison.operand2, Target::Right);
}

#[test]
fn test_comparison_run() {
    let schema = Schema::new(&strings(&["a", "b"]), &strings(&["Integer", "Integer"]), &[0, 0], 0, "");
    assert_eq!(schema.get_num_atts(), 2);
    let record1 = ints(&[5, 10]);
    let record2 = ints(&[3, 15]);
    let comparison = Comparison::new();
    let result = comparison.run(&record1, &record2);
    assert!(!result);
}

#[test]
fn comparison_operators_on_each_type() {
    let l = Record::from_values(vec![Value::Integer(1), Value::Float(1.5f64.to_bits()), Value::String(b"abc".to_vec())]);
    let r = Record::from_values(vec![Value::Integer(2), Value::Float((-0.5f64).to_bits()), Value::String(b"abd".to_vec())]);
    let mk = |i: i32, t: Type, op: CompOp| Comparison {
        operand1: Target::Left,
        which_att1: i,
        operand2: Target::Right,
        which_att2: i,
        attr_type: t,
        op,
    };
    assert!(mk(0, Type::Integer, CompOp::Less).run(&l, &r));
    assert!(mk(0, Type::Integer, CompOp::LessEqual).run(&l, &r));
    assert!(!mk(0, Type::Integer, CompOp::GreaterEqual).run(&l, &r));
    assert!(mk(1, Type::Float, CompOp::Greater).run(&l, &r));
    assert!(mk(2, Type::String, CompOp::Less).run(&l, &r));
    assert!(mk(2, Type::String, CompOp::NotEqual).run(&l, &r));
    assert!(!mk(0, Type::Float, CompOp::Equal).run(&l, &r));
}

#[test]
fn float_zero_and_nan_comparisons() {
    let l = Record::from_values(vec![Value::Float(0.0f64.to_bits()), Value::Float(f64::NAN.to_bits())]);
    let r = Record::from_values(vec![Value::Float((-0.0f64).to_bits()), Value::Float(f64::NAN.to_bits())]);
    let mk = |i: i32, op: CompOp| Comparison {
        operand1: Target::Left,
        which_att1: i,
        operand2: Target::Right,
        which_att2: i,
        attr_type: Type::Float,
        op,
    };
    assert!(mk(0, CompOp::Equal).run(&l, &r));
    assert!(!mk(1, CompOp::Equal).run(&l, &r));
    assert!(!mk(1, CompOp::Less).run(&l, &r));
    assert!(mk(1, CompOp::NotEqual).run(&l, &r));
}

#[test]
fn normalize_swaps_and_mirrors() {
    let c = left_cmp(3, CompOp::Less, 1);
    let n = c.normalize();
    assert_eq!(n.which_att1, 1);
    assert_eq!(n.which_att2, 3);
    assert_eq!(n.op, CompOp::Greater);
    let rec = ints(&[0, 5, 0, 7]);
    assert_eq!(c.run(&rec, &rec), n.run(&rec, &rec));
    assert!(left_cmp(1, CompOp::Greater, 3).is_equivalent_to(&c));
    assert!(left_cmp(1, CompOp::LessEqual, 3).is_negation_of(&c));
    assert!(!left_cmp(1, CompOp::Less, 3).is_negation_of(&c));
    assert_eq!(c.negate().op, CompOp::GreaterEqual);
}

#[test]
fn disjunction_or_drops_tautologies_and_equivalents() {
    let a = clause(vec![left_cmp(0, CompOp::Less, 1)]);
    let b = clause(vec![left_cmp(0, CompOp::GreaterEqual, 1)]);
    assert!(Disjunction::or(&a, &b).is_none());
    let c = clause(vec![left_cmp(1, CompOp::Greater, 0), left_cmp(0, CompOp::Equal, 2)]);
    let d = Disjunction::or(&a, &c).unwrap();
    assert_eq!(d.terms.len(), 2);
}

#[test]
fn cnf_and_detects_contradiction() {
    let a = cnf(vec![clause(vec![left_cmp(0, CompOp::Less, 1)])]);
    let b = cnf(vec![clause(vec![left_cmp(1, CompOp::LessEqual, 0)])]);
    let r = Cnf::and(&a, &b);
    assert!(r.is_false);
    assert!(r.clauses.is_empty());
    assert!(!r.run(&ints(&[1, 2]), &Record::new()));
}

#[test]
fn cnf_or_distributes() {
    let a = cnf(vec![clause(vec![left_cmp(0, CompOp::Less, 1)]), clause(vec![left_cmp(1, CompOp::Less, 2)])]);
    let b = cnf(vec![clause(vec![left_cmp(2, CompOp::Equal, 0)])]);
    let r = Cnf::or(&a, &b);
    assert_eq!(r.clauses.len(), 2);
    for rec in [ints(&[1, 2, 3]), ints(&[3, 2, 3]), ints(&[3, 2, 1]), ints(&[1, 3, 1])] {
        let k = Record::new();
        assert_eq!(r.run(&rec, &k), a.run(&rec, &k) || b.run(&rec, &k));
    }
}

#[test]
fn cnf_negate_of_constants() {
    let t = Cnf::new();
    assert!(t.negate().is_false);
    let f = Cnf::contradiction();
    let nf = f.negate();
    assert!(!nf.is_false);
    assert!(nf.clauses.is_empty());
}

#[test]
fn double_negation_is_equivalent() {
    let c = cnf(vec![
        clause(vec![left_cmp(0, CompOp::Less, 1), left_cmp(1, CompOp::Equal, 2)]),
        clause(vec![left_cmp(2, CompOp::Greater, 0)]),
    ]);
    let nn = c.negate().negate();
    for rec in [ints(&[1, 2, 2]), ints(&[2, 1, 3]), ints(&[5, 1, 1]), ints(&[0, 0, 0]), ints(&[0, 1, 0])] {
        let k = Record::new();
        assert_eq!(nn.run(&rec, &k), c.run(&rec, &k));
    }
}

#[test]
fn single_clause_double_negation_is_identical() {
    let c = cnf(vec![clause(vec![left_cmp(0, CompOp::Less, 1), left_cmp(1, CompOp::Equal, 2)])]);
    let nn = c.negate().negate();
    assert!(!nn.is_false);
    assert_eq!(nn.clauses.len(), 1);
    assert_eq!(nn.clauses[0].terms, c.clauses[0].terms);
}

#[test]
fn de_morgan_on_records() {
    let a = cnf(vec![clause(vec![left_cmp(0, CompOp::Less, 1)])]);
    let b = cnf(vec![clause(vec![left_cmp(1, CompOp::Less, 2), left_cmp(0, CompOp::Equal, 2)])]);
    let lhs = Cnf::and(&a, &b).negate();
    let rhs = Cnf::or(&a.negate(), &b.negate());
    for rec in [ints(&[1, 2, 3]), ints(&[3, 2, 1]), ints(&[1, 2, 1]), ints(&[2, 2, 2])] {
        let k = Record::new();
        assert_eq!(lhs.run(&rec, &k), rhs.run(&rec, &k));
    }
}

#[test]
fn extract_equijoin_matches_shared_names() {
    let r = Schema::new(&strings(&["k", "x"]), &strings(&["Integer", "Integer"]), &[0, 0], 0, "");
    let s = Schema::new(&strings(&["y", "k"]), &strings(&["Integer", "Integer"]), &[0, 0], 0, "");
    let j = Cnf::extract_equijoin(&r, &s);
    assert_eq!(j.clauses.len(), 1);
    let t = j.clauses[0].terms[0];
    assert_eq!((t.operand1, t.which_att1, t.operand2, t.which_att2), (Target::Left, 0, Target::Right, 1));
    assert!(j.run(&ints(&[2, 20]), &ints(&[200, 2])));
    assert!(!j.run(&ints(&[1, 10]), &ints(&[200, 2])));
    let none = Schema::new(&strings(&["z"]), &strings(&["Integer"]), &[0], 0, "");
    let t2 = Cnf::extract_equijoin(&r, &none);
    assert!(t2.clauses.is_empty() && !t2.is_false);
}

#[test]
fn literal_offsets_shift() {
    let mut c = cnf(vec![clause(vec![Comparison {
        operand1: Target::Left,
        which_att1: 0,
        operand2: Target::Literal,
        which_att2: 0,
        attr_type: Type::Integer,
        op: CompOp::Equal,
    }])]);
    c.increase_constants_offset(2);
    assert_eq!(c.clauses[0].terms[0].which_att2, 2);
    assert_eq!(c.clauses[0].terms[0].which_att1, 0);
    assert!(c.run(&ints(&[7]), &ints(&[0, 0, 7])));
}

#[test]
fn minimize_drops_duplicates_and_subsumed_clauses() {
    let c = cnf(vec![
        clause(vec![left_cmp(0, CompOp::Less, 1)]),
        clause(vec![left_cmp(1, CompOp::Greater, 0), left_cmp(2, CompOp::Equal, 0)]),
        clause(vec![left_cmp(0, CompOp::Less, 1)]),
        clause(vec![left_cmp(2, CompOp::Equal, 1)]),
    ]);
    let m = c.minimize();
    assert_eq!(m.clauses.len(), 2);
    for rec in [ints(&[1, 2, 3]), ints(&[2, 1, 1]), ints(&[0, 1, 1])] {
        let k = Record::new();
        assert_eq!(m.run(&rec, &k), c.run(&rec, &k));
    }
}
