use minidb::{ArithOp, FuncOperator, Function, Literal, NodeType, Operand, Record, Schema, Value};

fn strings(v: &[&str]) -> Vec<String> {
    v.iter().map(|s| s.to_string()).collect()
}

fn leaf(code: NodeType, v: &str) -> Box<FuncOperator> {
    Box::new(FuncOperator {
        code: ' ',
        left_operator: None,
        right: None,
        left_operand: Some(Operand {
            code,
            value: v.to_string(),
            float_bits: if code == NodeType::Float { v.parse::<f64>().ok().map(f64::to_bits) } else { None },
        }),
    })
}

fn bin(code: char, l: Box<FuncOperator>, r: Box<FuncOperator>) -> Box<FuncOperator> {
    Box::new(FuncOperator { code, left_operator: Some(l), right: Some(r), left_operand: None })
}

fn neg(x: Box<FuncOperator>) -> Box<FuncOperator> {
    Box::new(FuncOperator { code: '-', left_operator: Some(x), right: None, left_operand: None })
}

fn x_plus_2y() -> Box<FuncOperator> {
    bin('+', leaf(NodeType::Name, "x"), bin('*', leaf(NodeType::Integer, "2"), leaf(NodeType::Name, "y")))
}

fn opcodes(f: &Function) -> Vec<ArithOp> {
    f.operations().iter().map(|o| o.op_type).collect()
}

#[test]
fn mixed_expression_widens_to_float() {
    let schema = Schema::new(&strings(&["x", "y"]), &strings(&["Integer", "Float"]), &[0, 0], 0, "");
    let mut f = Function::new();
    assert!(f.grow_from_parse_tree(&x_plus_2y(), &schema).is_ok());
    assert!(!f.returns_int());
    assert_eq!(
        opcodes(&f),
        vec![ArithOp::PushInt, ArithOp::PushInt, ArithOp::PushFlt, ArithOp::ToFlt2Down, ArithOp::FltMul, ArithOp::ToFlt2Down, ArithOp::FltAdd]
    );
    assert_eq!(f.operations()[0].record_input, Some(0));
    assert!(matches!(f.operations()[1].literal_value, Some(Literal::Integer(2))));
    assert_eq!(f.operations()[2].record_input, Some(1));
    assert_eq!(f.max_stack_depth(), 3);
}

#[test]
fn integer_expression_evaluates() {
    let schema = Schema::new(&strings(&["x", "y"]), &strings(&["Integer", "Integer"]), &[0, 0], 0, "");
    let mut f = Function::new();
    assert!(f.grow_from_parse_tree(&x_plus_2y(), &schema).is_ok());
    assert!(f.returns_int());
    assert_eq!(opcodes(&f), vec![ArithOp::PushInt, ArithOp::PushInt, ArithOp::PushInt, ArithOp::IntMul, ArithOp::IntAdd]);
    let rec = Record::from_values(vec![Value::Integer(3), Value::Integer(4)]);
    assert_eq!(f.apply_int(&rec), Ok(11));
}

#[test]
fn right_integer_operand_widens_on_top() {
    let schema = Schema::new(&strings(&["x", "y"]), &strings(&["Integer", "Float"]), &[0, 0], 0, "");
    let mut f = Function::new();
    let tree = bin('-', leaf(NodeType::Name, "y"), leaf(NodeType::Name, "x"));
    assert!(f.grow_from_parse_tree(&tree, &schema).is_ok());
    assert_eq!(opcodes(&f), vec![ArithOp::PushFlt, ArithOp::PushInt, ArithOp::ToFlt, ArithOp::FltSub]);
    let mut g = Function::new();
    let t2 = bin('/', leaf(NodeType::Float, "1.5"), leaf(NodeType::Name, "y"));
    assert!(g.grow_from_parse_tree(&t2, &schema).is_ok());
    assert_eq!(opcodes(&g), vec![ArithOp::PushFlt, ArithOp::PushFlt, ArithOp::FltDiv]);
    assert!(matches!(g.operations()[0].literal_value, Some(Literal::Float(b)) if b == 1.5f64.to_bits()));
}

#[test]
fn negation_and_division() {
    let schema = Schema::new(&strings(&["x"]), &strings(&["Integer"]), &[0], 0, "");
    let mut f = Function::new();
    let tree = bin('/', neg(leaf(NodeType::Name, "x")), leaf(NodeType::Integer, "2"));
    assert!(f.grow_from_parse_tree(&tree, &schema).is_ok());
    assert_eq!(opcodes(&f), vec![ArithOp::PushInt, ArithOp::IntNeg, ArithOp::PushInt, ArithOp::IntDiv]);
    assert_eq!(f.apply_int(&Record::from_values(vec![Value::Integer(7)])), Ok(-3));
    let mut z = Function::new();
    let tree = bin('/', leaf(NodeType::Name, "x"), leaf(NodeType::Integer, "0"));
    assert!(z.grow_from_parse_tree(&tree, &schema).is_ok());
    assert!(z.apply_int(&Record::from_values(vec![Value::Integer(7)])).is_err());
}

#[test]
fn compile_errors_leave_function_unchanged() {
    let schema = Schema::new(&strings(&["x", "s"]), &strings(&["Integer", "String"]), &[0, 0], 0, "");
    let mut f = Function::new();
    assert!(f.grow_from_parse_tree(&leaf(NodeType::Name, "x"), &schema).is_ok());
    assert!(f.grow_from_parse_tree(&leaf(NodeType::Name, "nope"), &schema).is_err());
    assert!(f.grow_from_parse_tree(&leaf(NodeType::Name, "s"), &schema).is_err());
    assert!(f.grow_from_parse_tree(&bin('%', leaf(NodeType::Name, "x"), leaf(NodeType::Name, "x")), &schema).is_err());
    assert!(f.grow_from_parse_tree(&leaf(NodeType::Integer, "12a"), &schema).is_err());
    assert!(f.grow_from_parse_tree(&leaf(NodeType::Float, ""), &schema).is_err());
    assert!(f.grow_from_parse_tree(&leaf(NodeType::Float, "x.5"), &schema).is_err());
    assert_eq!(opcodes(&f), vec![ArithOp::PushInt]);
    assert!(f.returns_int());
    assert_eq!(f.apply_int(&Record::from_values(vec![Value::Integer(5), Value::String(b"q".to_vec())])), Ok(5));
}

#[test]
fn apply_int_rejects_wrong_column_kind() {
    let schema = Schema::new(&strings(&["x"]), &strings(&["Integer"]), &[0], 0, "");
    let mut f = Function::new();
    assert!(f.grow_from_parse_tree(&leaf(NodeType::Name, "x"), &schema).is_ok());
    assert!(f.apply_int(&Record::from_values(vec![Value::String(b"q".to_vec())])).is_err());
    assert!(f.apply_int(&Record::new()).is_err());
}

#[test]
fn apply_function_maps_each_record() {
    let schema = Schema::new(&strings(&["x", "y"]), &strings(&["Integer", "Integer"]), &[0, 0], 0, "");
    let mut f = Function::new();
    assert!(f.grow_from_parse_tree(&x_plus_2y(), &schema).is_ok());
    let rows = vec![
        Record::from_values(vec![Value::Integer(3), Value::Integer(4)]),
        Record::from_values(vec![Value::Integer(-1), Value::Integer(0)]),
    ];
    let out = minidb::apply_function(&f, &rows).unwrap();
    assert_eq!(out.len(), 2);
    assert!(matches!(out[0].get_column(0), Some(Value::Integer(11))));
    assert!(matches!(out[1].get_column(0), Some(Value::Integer(-1))));
    let bad = vec![Record::from_values(vec![Value::Integer(3)])];
    assert!(minidb::apply_function(&f, &bad).is_err());
}
