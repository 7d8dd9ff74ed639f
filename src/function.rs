use vstd::prelude::*;
use vstd::utf8::encode_utf8;

use crate::fields::parse_int_spec;
use crate::record::{Cell, Record, Value};
use crate::schema::{has_name, index_in, Attribute, Schema};
use crate::types::{ArithOp, Error, Type};

verus! {

/// The kind of a leaf of an arithmetic parse tree.
#[derive(Copy, Clone, Debug, PartialEq, Eq, Structural)]
pub enum NodeType {
    Name,
    Integer,
    Float,
}

/// A leaf: an attribute name or a literal, as written. A float literal
/// also carries the bit pattern its text decodes to, when it decodes as a
/// float (`None` when it does not); decoding floats is the caller's work.
#[derive(Clone, Debug)]
pub struct Operand {
    pub code: NodeType,
    pub value: String,
    pub float_bits: Option<u64>,
}

/// A node of an arithmetic parse tree: a leaf (`left_operand` alone), a
/// unary minus (`code` '-' over `left_operator` alone), or a binary
/// operator `code` over `left_operator` and `right`.
#[derive(Debug)]
pub struct FuncOperator {
    pub code: char,
    pub left_operator: Option<Box<FuncOperator>>,
    pub right: Option<Box<FuncOperator>>,
    pub left_operand: Option<Operand>,
}

/// A literal pushed by the code: an integer, or a float as its bit pattern.
#[derive(Clone, Debug)]
pub enum Literal {
    Integer(i64),
    Float(u64),
}

/// The content of a literal.
pub enum LiteralV {
    Integer(i64),
    Float(u64),
}

impl View for Literal {
    type V = LiteralV;

    open spec fn view(&self) -> LiteralV {
        match self {
            Literal::Integer(v) => LiteralV::Integer(*v),
            Literal::Float(b) => LiteralV::Float(*b),
        }
    }
}

/// One instruction: an opcode with the column or the literal it pushes.
#[derive(Clone, Debug)]
pub struct ArithmeticOp {
    pub op_type: ArithOp,
    pub record_input: Option<usize>,
    pub literal_value: Option<Literal>,
}

/// The content of an instruction.
pub struct OpV {
    pub op: ArithOp,
    pub input: Option<usize>,
    pub lit: Option<LiteralV>,
}

impl View for ArithmeticOp {
    type V = OpV;

    open spec fn view(&self) -> OpV {
        OpV {
            op: self.op_type,
            input: self.record_input,
            lit: match self.literal_value {
                Some(l) => Some(l@),
                None => None,
            },
        }
    }
}

pub open spec fn plain(op: ArithOp) -> OpV {
    OpV { op, input: None, lit: None }
}

pub open spec fn binary_op(code: char, both_int: bool) -> Option<ArithOp> {
    if code == '+' {
        Some(if both_int { ArithOp::IntAdd } else { ArithOp::FltAdd })
    } else if code == '-' {
        Some(if both_int { ArithOp::IntSub } else { ArithOp::FltSub })
    } else if code == '*' {
        Some(if both_int { ArithOp::IntMul } else { ArithOp::FltMul })
    } else if code == '/' {
        Some(if both_int { ArithOp::IntDiv } else { ArithOp::FltDiv })
    } else {
        None
    }
}

pub open spec fn is_neg_node(t: FuncOperator) -> bool {
    t.right is None && t.left_operand is None && t.code == '-'
}

pub open spec fn is_leaf_node(t: FuncOperator) -> bool {
    !is_neg_node(t) && t.left_operator is None && t.right is None
}

/// What a leaf compiles to, with its type.
pub open spec fn leaf_code(o: Operand, atts: Seq<Attribute>) -> Option<(Type, Seq<OpV>)> {
    match o.code {
        NodeType::Name => {
            let i = index_in(atts, o.value@);
            if i >= 0 && atts[i].type_ == Type::Integer {
                Some((Type::Integer, seq![OpV { op: ArithOp::PushInt, input: Some(i as usize), lit: None }]))
            } else if i >= 0 && atts[i].type_ == Type::Float {
                Some((Type::Float, seq![OpV { op: ArithOp::PushFlt, input: Some(i as usize), lit: None }]))
            } else {
                None
            }
        },
        NodeType::Integer => None,
        NodeType::Float => match o.float_bits {
            Some(b) => Some((Type::Float, seq![OpV { op: ArithOp::PushFlt, input: None, lit: Some(LiteralV::Float(b)) }])),
            None => None,
        },
    }
}

/// The type and the post-order code of a parse tree; none when it does not
/// compile (an unknown or non-numeric attribute, a malformed node, an
/// unknown operator, an integer literal that does not parse, a float literal
/// that did not decode).
pub open spec fn tree_code(t: FuncOperator, atts: Seq<Attribute>) -> Option<(Type, Seq<OpV>)>
    decreases t,
{
    if is_neg_node(t) {
        match t.left_operator {
            Some(x) => match tree_code(*x, atts) {
                Some((ty, code)) => Some(
                    (ty, code.push(plain(if ty == Type::Integer { ArithOp::IntNeg } else { ArithOp::FltNeg }))),
                ),
                None => None,
            },
            None => None,
        }
    } else if t.left_operator is None && t.right is None {
        match t.left_operand {
            Some(o) => if o.code == NodeType::Integer {
                match int_literal(o.value@) {
                    Some(v) => Some((Type::Integer, seq![OpV { op: ArithOp::PushInt, input: None, lit: Some(LiteralV::Integer(v)) }])),
                    None => None,
                }
            } else {
                leaf_code(o, atts)
            },
            None => None,
        }
    } else {
        match (t.left_operator, t.right) {
            (Some(l), Some(r)) => match (tree_code(*l, atts), tree_code(*r, atts)) {
                (Some((lt, lc)), Some((rt, rc))) => {
                    let both_int = lt == Type::Integer && rt == Type::Integer;
                    match binary_op(t.code, both_int) {
                        Some(op) => {
                            let widen: Seq<OpV> = if both_int {
                                Seq::empty()
                            } else if lt == Type::Integer {
                                seq![plain(ArithOp::ToFlt2Down)]
                            } else if rt == Type::Integer {
                                seq![plain(ArithOp::ToFlt)]
                            } else {
                                Seq::empty()
                            };
                            Some((if both_int { Type::Integer } else { Type::Float }, lc + rc + widen + seq![plain(op)]))
                        },
                        None => None,
                    }
                },
                _ => None,
            },
            _ => None,
        }
    }
}

/// How integer literals are read: decimal with an optional sign.
pub open spec fn int_literal(s: Seq<char>) -> Option<i64> {
    parse_int_spec(encode_utf8(s))
}

/// Every leaf is an integer literal or an integer attribute.
pub open spec fn all_int_leaves(t: FuncOperator, atts: Seq<Attribute>) -> bool
    decreases t,
{
    if is_neg_node(t) {
        match t.left_operator {
            Some(x) => all_int_leaves(*x, atts),
            None => false,
        }
    } else if t.left_operator is None && t.right is None {
        match t.left_operand {
            Some(o) => o.code == NodeType::Integer || (o.code == NodeType::Name && has_name(atts, o.value@)
                && atts[index_in(atts, o.value@)].type_ == Type::Integer),
            None => false,
        }
    } else {
        match (t.left_operator, t.right) {
            (Some(l), Some(r)) => all_int_leaves(*l, atts) && all_int_leaves(*r, atts),
            _ => false,
        }
    }
}

/// A compiled tree has integer type exactly when all its leaves are
/// integers; otherwise it has float type.
pub proof fn lemma_compile_type_stable(t: FuncOperator, atts: Seq<Attribute>)
    requires
        tree_code(t, atts) is Some,
    ensures
        (tree_code(t, atts)->Some_0.0 == Type::Integer) == all_int_leaves(t, atts),
        tree_code(t, atts)->Some_0.0 == Type::Integer
            || tree_code(t, atts)->Some_0.0 == Type::Float,
    decreases t,
{
    if is_neg_node(t) {
        lemma_compile_type_stable(*t.left_operator.unwrap(), atts);
    } else if t.left_operator is None && t.right is None {
    } else {
        lemma_compile_type_stable(*t.left_operator.unwrap(), atts);
        lemma_compile_type_stable(*t.right.unwrap(), atts);
    }
}

pub open spec fn ops_view(v: Seq<ArithmeticOp>) -> Seq<OpV> {
    v.map_values(|o: ArithmeticOp| o@)
}

/// Truncating division, as integer division of the machine does it.
pub open spec fn trunc_div(l: int, r: int) -> int {
    let q = (if l < 0 { -l } else { l }) / (if r < 0 { -r } else { r });
    if (l < 0) != (r < 0) { -q } else { q }
}

/// One step of the machine over integers; none on a type error, a
/// missing operand, a float instruction, or a division by zero.
pub open spec fn step_int(op: OpV, cells: Seq<Cell>, st: Seq<i64>) -> Option<Seq<i64>> {
    match op.op {
        ArithOp::PushInt => match op.input {
            Some(i) => if i < cells.len() {
                match cells[i as int] {
                    Cell::Int(v) => Some(st.push(v)),
                    _ => None,
                }
            } else {
                None
            },
            None => match op.lit {
                Some(LiteralV::Integer(v)) => Some(st.push(v)),
                _ => None,
            },
        },
        ArithOp::IntNeg => if st.len() >= 1 {
            Some(st.drop_last().push(0i64.wrapping_sub(st.last())))
        } else {
            None
        },
        ArithOp::IntAdd | ArithOp::IntSub | ArithOp::IntMul | ArithOp::IntDiv => if st.len() >= 2 {
            let l = st[st.len() - 2];
            let r = st.last();
            let rest = st.drop_last().drop_last();
            match op.op {
                ArithOp::IntAdd => Some(rest.push(l.wrapping_add(r))),
                ArithOp::IntSub => Some(rest.push(l.wrapping_sub(r))),
                ArithOp::IntMul => Some(rest.push(l.wrapping_mul(r))),
                _ => if r == 0 || (l == i64::MIN && r == -1) {
                    None
                } else {
                    Some(rest.push(trunc_div(l as int, r as int) as i64))
                },
            }
        } else {
            None
        },
        _ => None,
    }
}

/// The stack after the first `n` instructions, if none failed.
pub open spec fn run_int(code: Seq<OpV>, cells: Seq<Cell>, n: int) -> Option<Seq<i64>>
    decreases n,
{
    if n <= 0 {
        Some(Seq::empty())
    } else {
        match run_int(code, cells, n - 1) {
            Some(st) => step_int(code[n - 1], cells, st),
            None => None,
        }
    }
}

/// Compiled arithmetic: code for a stack machine and whether it yields an
/// integer (otherwise a float).
#[derive(Clone, Debug)]
pub struct Function {
    operations: Vec<ArithmeticOp>,
    returns_int: bool,
}

fn push_op(ops: &mut Vec<ArithmeticOp>, op: ArithmeticOp)
    ensures
        ops_view(final(ops)@) == ops_view(old(ops)@).push(op@),
{
    let ghost v = op@;
    ops.push(op);
    assert(ops_view(ops@) =~= ops_view(old(ops)@).push(v));
}

fn plain_op(op: ArithOp) -> (r: ArithmeticOp)
    ensures
        r@ == plain(op),
{
    ArithmeticOp { op_type: op, record_input: None, literal_value: None }
}

/// Compiles a parse tree after the code already in `ops`.
fn build(ops: &mut Vec<ArithmeticOp>, t: &FuncOperator, schema: &Schema) -> (r: Result<Type, Error>)
    ensures
        match tree_code(*t, schema.atts()) {
            Some((ty, code)) => r == Ok::<Type, Error>(ty) && ops_view(final(ops)@) == ops_view(old(ops)@) + code,
            None => r is Err,
        },
    decreases t,
{
    if t.right.is_none() && t.left_operand.is_none() && t.code == '-' {
        match &t.left_operator {
            Some(x) => {
                let ty = build(ops, x, schema)?;
                if ty == Type::Integer {
                    push_op(ops, plain_op(ArithOp::IntNeg));
                } else {
                    push_op(ops, plain_op(ArithOp::FltNeg));
                }
                assert(ops_view(ops@) =~= ops_view(old(ops)@) + tree_code(*t, schema.atts())->Some_0.1);
                Ok(ty)
            },
            None => Err(Error::General),
        }
    } else if t.left_operator.is_none() && t.right.is_none() {
        match &t.left_operand {
            Some(o) => {
                match o.code {
                    NodeType::Integer => {
                        match crate::fields::parse_int(o.value.as_str().as_bytes()) {
                            Some(v) => {
                                push_op(
                                    ops,
                                    ArithmeticOp {
                                        op_type: ArithOp::PushInt,
                                        record_input: None,
                                        literal_value: Some(Literal::Integer(v)),
                                    },
                                );
                                assert(ops_view(ops@) =~= ops_view(old(ops)@) + tree_code(*t, schema.atts())->Some_0.1);
                                Ok(Type::Integer)
                            },
                            None => Err(Error::General),
                        }
                    },
                    NodeType::Float => {
                        match o.float_bits {
                            Some(b) => {
                                push_op(
                                    ops,
                                    ArithmeticOp {
                                        op_type: ArithOp::PushFlt,
                                        record_input: None,
                                        literal_value: Some(Literal::Float(b)),
                                    },
                                );
                                assert(ops_view(ops@) =~= ops_view(old(ops)@) + tree_code(*t, schema.atts())->Some_0.1);
                                Ok(Type::Float)
                            },
                            None => Err(Error::General),
                        }
                    },
                    NodeType::Name => {
                        match schema.index_of(o.value.as_str()) {
                            Some(i) => {
                                let ty = schema.get_atts()[i].type_;
                                if ty == Type::Integer {
                                    push_op(
                                        ops,
                                        ArithmeticOp { op_type: ArithOp::PushInt, record_input: Some(i), literal_value: None },
                                    );
                                } else if ty == Type::Float {
                                    push_op(
                                        ops,
                                        ArithmeticOp { op_type: ArithOp::PushFlt, record_input: Some(i), literal_value: None },
                                    );
                                } else {
                                    return Err(Error::General);
                                }
                                assert(ops_view(ops@) =~= ops_view(old(ops)@) + tree_code(*t, schema.atts())->Some_0.1);
                                Ok(ty)
                            },
                            None => Err(Error::General),
                        }
                    },
                }
            },
            None => Err(Error::General),
        }
    } else {
        match (&t.left_operator, &t.right) {
            (Some(l), Some(r)) => {
                let lt = build(ops, l, schema)?;
                let rt = build(ops, r, schema)?;
                let both_int = lt == Type::Integer && rt == Type::Integer;
                let op = if t.code == '+' {
                    if both_int { ArithOp::IntAdd } else { ArithOp::FltAdd }
                } else if t.code == '-' {
                    if both_int { ArithOp::IntSub } else { ArithOp::FltSub }
                } else if t.code == '*' {
                    if both_int { ArithOp::IntMul } else { ArithOp::FltMul }
                } else if t.code == '/' {
                    if both_int { ArithOp::IntDiv } else { ArithOp::FltDiv }
                } else {
                    return Err(Error::General);
                };
                if !both_int {
                    if lt == Type::Integer {
                        push_op(ops, plain_op(ArithOp::ToFlt2Down));
                    } else if rt == Type::Integer {
                        push_op(ops, plain_op(ArithOp::ToFlt));
                    }
                }
                push_op(ops, plain_op(op));
                assert(ops_view(ops@) =~= ops_view(old(ops)@) + tree_code(*t, schema.atts())->Some_0.1);
                if both_int {
                    Ok(Type::Integer)
                } else {
                    Ok(Type::Float)
                }
            },
            _ => Err(Error::General),
        }
    }
}

impl Function {
    /// The code, one instruction after another.
    pub closed spec fn code(&self) -> Seq<OpV> {
        ops_view(self.operations@)
    }

    /// Whether the result is an integer.
    pub closed spec fn is_int(&self) -> bool {
        self.returns_int
    }

    /// An empty function.
    pub fn new() -> (r: Function)
        ensures
            r.code() == Seq::<OpV>::empty(),
            !r.is_int(),
    {
        let r = Function { operations: Vec::new(), returns_int: false };
        assert(r.code() =~= Seq::<OpV>::empty());
        r
    }

    /// Compiles a parse tree against a schema, in one post-order pass:
    /// integers stay integers, and an operation with a float operand widens
    /// the integer one (`ToFlt2Down` for the left, `ToFlt` for the right)
    /// just before it. On failure nothing changes.
    pub fn grow_from_parse_tree(&mut self, parse_tree: &FuncOperator, schema: &Schema) -> (r: Result<(), Error>)
        ensures
            match tree_code(*parse_tree, schema.atts()) {
                Some((ty, code)) => r is Ok && final(self).code() == code && final(self).is_int() == (ty
                    == Type::Integer),
                None => r is Err && final(self).code() == old(self).code() && final(self).is_int() == old(
                    self,
                ).is_int(),
            },
    {
        let mut ops: Vec<ArithmeticOp> = Vec::new();
        assert(ops_view(ops@) =~= Seq::<OpV>::empty());
        let ty = build(&mut ops, parse_tree, schema)?;
        assert(ops_view(ops@) =~= tree_code(*parse_tree, schema.atts())->Some_0.1);
        self.operations = ops;
        self.returns_int = ty == Type::Integer;
        Ok(())
    }

    /// Whether the result is an integer.
    pub fn returns_int(&self) -> (r: bool)
        ensures
            r == self.is_int(),
    {
        self.returns_int
    }

    /// The code.
    pub fn operations(&self) -> (r: &Vec<ArithmeticOp>)
        ensures
            ops_view(r@) == self.code(),
    {
        &self.operations
    }

    /// Runs integer code on a record: the single value left on the stack,
    /// or an error when a step fails or more or less than one value is
    /// left.
    pub fn apply_int(&self, record: &Record) -> (r: Result<i64, Error>)
        ensures
            match run_int(self.code(), record@, self.code().len() as int) {
                Some(st) => if st.len() == 1 {
                    r == Ok::<i64, Error>(st[0])
                } else {
                    r is Err
                },
                None => r is Err,
            },
    {
        let ghost code = self.code();
        let mut stack: Vec<i64> = Vec::new();
        let mut k: usize = 0;
        assert(stack@ =~= Seq::<i64>::empty());
        while k < self.operations.len()
            invariant
                0 <= k <= code.len(),
                code == self.code(),
                code.len() == self.operations@.len(),
                run_int(code, record@, k as int) == Some(stack@),
            decreases code.len() - k,
        {
            let op = &self.operations[k];
            assert(code[k as int] == op@);
            let ghost st = stack@;
            match op.op_type {
                ArithOp::PushInt => {
                    match op.record_input {
                        Some(i) => {
                            match record.get_column(i) {
                                Some(Value::Integer(v)) => stack.push(*v),
                                _ => {
                                    proof { lemma_run_int_none(code, record@, k as int + 1); }
                                    return Err(Error::General);
                                },
                            }
                        },
                        None => {
                            match &op.literal_value {
                                Some(Literal::Integer(v)) => stack.push(*v),
                                _ => {
                                    proof { lemma_run_int_none(code, record@, k as int + 1); }
                                    return Err(Error::General);
                                },
                            }
                        },
                    }
                },
                ArithOp::IntNeg => {
                    match stack.pop() {
                        Some(v) => stack.push(0i64.wrapping_sub(v)),
                        None => {
                            proof { lemma_run_int_none(code, record@, k as int + 1); }
                            return Err(Error::General);
                        },
                    }
                },
                ArithOp::IntAdd | ArithOp::IntSub | ArithOp::IntMul | ArithOp::IntDiv => {
                    if stack.len() < 2 {
                        proof { lemma_run_int_none(code, record@, k as int + 1); }
                        return Err(Error::General);
                    }
                    let r = stack.pop().unwrap();
                    let l = stack.pop().unwrap();
                    let v = match op.op_type {
                        ArithOp::IntAdd => l.wrapping_add(r),
                        ArithOp::IntSub => l.wrapping_sub(r),
                        ArithOp::IntMul => l.wrapping_mul(r),
                        _ => {
                            if r == 0 || (l == i64::MIN && r == -1) {
                                proof { lemma_run_int_none(code, record@, k as int + 1); }
                                return Err(Error::General);
                            }
                            div_trunc(l, r)
                        },
                    };
                    stack.push(v);
                },
                _ => {
                    proof { lemma_run_int_none(code, record@, k as int + 1); }
                    return Err(Error::General);
                },
            }
            assert(Some(stack@) == step_int(code[k as int], record@, st));
            k += 1;
        }
        if stack.len() == 1 {
            Ok(stack[0])
        } else {
            Err(Error::General)
        }
    }
}

/// How an instruction changes the height of the stack.
pub open spec fn stack_effect(op: ArithOp) -> int {
    match op {
        ArithOp::PushInt | ArithOp::PushFlt => 1,
        ArithOp::IntAdd | ArithOp::IntSub | ArithOp::IntMul | ArithOp::IntDiv | ArithOp::FltAdd | ArithOp::FltSub
        | ArithOp::FltMul | ArithOp::FltDiv => -1,
        _ => 0,
    }
}

/// The height of the stack after the first `k` instructions.
pub open spec fn depth_after(code: Seq<OpV>, k: int) -> int
    decreases k,
{
    if k <= 0 {
        0
    } else {
        depth_after(code, k - 1) + stack_effect(code[k - 1].op)
    }
}

/// The greatest height the stack reaches during the first `k`
/// instructions.
pub open spec fn max_depth(code: Seq<OpV>, k: int) -> int
    decreases k,
{
    if k <= 0 {
        0
    } else {
        let m = max_depth(code, k - 1);
        let d = depth_after(code, k);
        if d > m {
            d
        } else {
            m
        }
    }
}

impl Function {
    /// The greatest height the stack reaches while the code runs.
    pub fn max_stack_depth(&self) -> (r: usize)
        ensures
            r as int == max_depth(self.code(), self.code().len() as int),
    {
        let ghost code = self.code();
        let mut depth: i128 = 0;
        let mut best: usize = 0;
        let mut k: usize = 0;
        while k < self.operations.len()
            invariant
                0 <= k <= code.len(),
                code == self.code(),
                code.len() == self.operations@.len(),
                depth as int == depth_after(code, k as int),
                best as int == max_depth(code, k as int),
                -(k as int) <= depth <= k,
                0 <= best <= k,
            decreases code.len() - k,
        {
            assert(code[k as int].op == self.operations@[k as int].op_type);
            match self.operations[k].op_type {
                ArithOp::PushInt | ArithOp::PushFlt => depth = depth + 1,
                ArithOp::IntAdd | ArithOp::IntSub | ArithOp::IntMul | ArithOp::IntDiv | ArithOp::FltAdd | ArithOp::FltSub
                | ArithOp::FltMul | ArithOp::FltDiv => depth = depth - 1,
                _ => {},
            }
            if depth > best as i128 {
                best = depth as usize;
            }
            k += 1;
        }
        best
    }
}

/// Once a step fails, the run stays failed.
proof fn lemma_run_int_none(code: Seq<OpV>, cells: Seq<Cell>, k: int)
    requires
        0 < k <= code.len(),
        run_int(code, cells, k) is None,
    ensures
        run_int(code, cells, code.len() as int) is None,
    decreases code.len() - k,
{
    if k < code.len() {
        lemma_run_int_none(code, cells, k + 1);
    }
}

fn div_trunc(l: i64, r: i64) -> (q: i64)
    requires
        r != 0,
        !(l == i64::MIN && r == -1),
    ensures
        q as int == trunc_div(l as int, r as int),
{
    let la: u64 = if l < 0 { (0i128 - l as i128) as u64 } else { l as u64 };
    let ra: u64 = if r < 0 { (0i128 - r as i128) as u64 } else { r as u64 };
    let qa = la / ra;
    proof {
        assert(qa <= la) by (nonlinear_arith)
            requires qa == la / ra, ra >= 1;
        if ra == 1 {
            assert(qa == la) by (nonlinear_arith)
                requires qa == la / ra, ra == 1;
        } else {
            assert(qa <= la / 2) by (nonlinear_arith)
                requires qa == la / ra, ra >= 2;
        }
    }
    if (l < 0) != (r < 0) {
        (0i128 - qa as i128) as i64
    } else {
        qa as i64
    }
}

} // verus!
