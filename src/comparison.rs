use vstd::prelude::*;

use crate::record::{Cell, Record, Value};
use crate::schema::Schema;
use crate::types::{CompOp, Target, Type};

verus! {

/// The outcome of comparing two columns: `Unordered` when they cannot be
/// compared (a NaN, a missing column, or a kind other than the type asks).
#[derive(Copy, Clone, Debug, PartialEq, Eq, Structural)]
pub enum Order {
    Less,
    Equal,
    Greater,
    Unordered,
}

pub open spec fn reverse(o: Order) -> Order {
    match o {
        Order::Less => Order::Greater,
        Order::Greater => Order::Less,
        _ => o,
    }
}

pub open spec fn int_order(a: int, b: int) -> Order {
    if a < b {
        Order::Less
    } else if a > b {
        Order::Greater
    } else {
        Order::Equal
    }
}

pub open spec fn flt_is_nan(b: u64) -> bool {
    (b & 0x7FF0_0000_0000_0000u64) == 0x7FF0_0000_0000_0000u64 && (b & 0x000F_FFFF_FFFF_FFFFu64) != 0
}

pub open spec fn flt_is_zero(b: u64) -> bool {
    (b & 0x7FFF_FFFF_FFFF_FFFFu64) == 0
}

/// A key whose integer order is the numeric order of non-NaN floats
/// (apart from the two zeros, which are handled separately).
pub open spec fn flt_key(b: u64) -> u64 {
    if (b & 0x8000_0000_0000_0000u64) != 0 {
        !b
    } else {
        b | 0x8000_0000_0000_0000u64
    }
}

/// IEEE-754 order of two doubles given by their bit patterns.
pub open spec fn flt_order(a: u64, b: u64) -> Order {
    if flt_is_nan(a) || flt_is_nan(b) {
        Order::Unordered
    } else if flt_is_zero(a) && flt_is_zero(b) {
        Order::Equal
    } else {
        int_order(flt_key(a) as int, flt_key(b) as int)
    }
}

/// Lexicographic order of byte strings.
pub open spec fn bytes_order(a: Seq<u8>, b: Seq<u8>) -> Order
    decreases a.len(),
{
    if a.len() == 0 && b.len() == 0 {
        Order::Equal
    } else if a.len() == 0 {
        Order::Less
    } else if b.len() == 0 {
        Order::Greater
    } else if a[0] < b[0] {
        Order::Less
    } else if a[0] > b[0] {
        Order::Greater
    } else {
        bytes_order(a.skip(1), b.skip(1))
    }
}

/// How two columns compare under a type.
pub open spec fn cell_order(t: Type, a: Option<Cell>, b: Option<Cell>) -> Order {
    match (t, a, b) {
        (Type::Integer, Some(Cell::Int(x)), Some(Cell::Int(y))) => int_order(x as int, y as int),
        (Type::Float, Some(Cell::Flt(x)), Some(Cell::Flt(y))) => flt_order(x, y),
        (Type::String, Some(Cell::Str(x)), Some(Cell::Str(y))) => bytes_order(x, y),
        _ => Order::Unordered,
    }
}

/// Whether an operator accepts an outcome. `<`, `>` and `=` need that very
/// outcome; `>=`, `<=` and `!=` are their exact complements. So a pair that
/// cannot be ordered (a NaN, a missing column, a kind other than the type
/// asks) fails `<`, `>` and `=` and passes `>=`, `<=` and `!=`: evaluation
/// never fails, and negating a comparison always negates its outcome.
pub open spec fn op_holds(op: CompOp, o: Order) -> bool {
    match op {
        CompOp::Less => o == Order::Less,
        CompOp::Greater => o == Order::Greater,
        CompOp::Equal => o == Order::Equal,
        CompOp::GreaterEqual => o != Order::Less,
        CompOp::LessEqual => o != Order::Greater,
        CompOp::NotEqual => o != Order::Equal,
    }
}

/// The logical complement of an operator.
pub open spec fn negate_op(op: CompOp) -> CompOp {
    match op {
        CompOp::Less => CompOp::GreaterEqual,
        CompOp::GreaterEqual => CompOp::Less,
        CompOp::Greater => CompOp::LessEqual,
        CompOp::LessEqual => CompOp::Greater,
        CompOp::Equal => CompOp::NotEqual,
        CompOp::NotEqual => CompOp::Equal,
    }
}

/// The operator that holds after the operands are swapped.
pub open spec fn mirror_op(op: CompOp) -> CompOp {
    match op {
        CompOp::Less => CompOp::Greater,
        CompOp::Greater => CompOp::Less,
        CompOp::LessEqual => CompOp::GreaterEqual,
        CompOp::GreaterEqual => CompOp::LessEqual,
        _ => op,
    }
}

pub open spec fn target_rank(t: Target) -> int {
    match t {
        Target::Left => 0,
        Target::Right => 1,
        Target::Literal => 2,
    }
}

proof fn lemma_bytes_order_reverse(a: Seq<u8>, b: Seq<u8>)
    ensures
        bytes_order(b, a) == reverse(bytes_order(a, b)),
    decreases a.len(),
{
    if a.len() > 0 && b.len() > 0 && a[0] == b[0] {
        lemma_bytes_order_reverse(a.skip(1), b.skip(1));
    }
}

/// Swapping the operands reverses the outcome.
pub proof fn lemma_cell_order_reverse(t: Type, a: Option<Cell>, b: Option<Cell>)
    ensures
        cell_order(t, b, a) == reverse(cell_order(t, a, b)),
{
    match (t, a, b) {
        (Type::String, Some(Cell::Str(x)), Some(Cell::Str(y))) => lemma_bytes_order_reverse(x, y),
        _ => {},
    }
}

/// A comparison of two operands, each a column of the left record, of the
/// right record, or of the literals record (which is passed as the right
/// record).
#[derive(Copy, Clone, Debug, PartialEq, Eq, Structural)]
pub struct Comparison {
    pub operand1: Target,
    pub which_att1: i32,
    pub operand2: Target,
    pub which_att2: i32,
    pub attr_type: Type,
    pub op: CompOp,
}

/// The column an operand reads; literals come from the right record.
pub open spec fn operand_cell(t: Target, att: i32, left: Seq<Cell>, right: Seq<Cell>) -> Option<Cell> {
    let rec = match t {
        Target::Left => left,
        _ => right,
    };
    if 0 <= att < rec.len() {
        Some(rec[att as int])
    } else {
        None
    }
}

/// Whether the comparison holds of a pair of records.
pub open spec fn comp_eval(c: Comparison, left: Seq<Cell>, right: Seq<Cell>) -> bool {
    op_holds(
        c.op,
        cell_order(
            c.attr_type,
            operand_cell(c.operand1, c.which_att1, left, right),
            operand_cell(c.operand2, c.which_att2, left, right),
        ),
    )
}

/// The comparison with operands in canonical order.
pub open spec fn normalize_spec(c: Comparison) -> Comparison {
    if c.which_att1 > c.which_att2 || (c.which_att1 == c.which_att2 && target_rank(c.operand1) > target_rank(
        c.operand2,
    )) {
        Comparison {
            operand1: c.operand2,
            which_att1: c.which_att2,
            operand2: c.operand1,
            which_att2: c.which_att1,
            attr_type: c.attr_type,
            op: mirror_op(c.op),
        }
    } else {
        c
    }
}

/// Whether two comparisons read the same operands under the same type.
pub open spec fn same_terms(a: Comparison, b: Comparison) -> bool {
    a.operand1 == b.operand1 && a.which_att1 == b.which_att1 && a.operand2 == b.operand2 && a.which_att2
        == b.which_att2 && a.attr_type == b.attr_type
}

/// `a` is the logical complement of `b`, once both are normalized.
pub open spec fn negation_spec(a: Comparison, b: Comparison) -> bool {
    let x = normalize_spec(a);
    let y = normalize_spec(b);
    same_terms(x, y) && x.op == negate_op(y.op)
}

/// `a` and `b` are the same comparison, once both are normalized.
pub open spec fn equivalent_spec(a: Comparison, b: Comparison) -> bool {
    let x = normalize_spec(a);
    let y = normalize_spec(b);
    same_terms(x, y) && x.op == y.op
}

/// Normalizing keeps the meaning.
pub proof fn lemma_normalize_eval(c: Comparison, left: Seq<Cell>, right: Seq<Cell>)
    ensures
        comp_eval(normalize_spec(c), left, right) == comp_eval(c, left, right),
{
    lemma_cell_order_reverse(
        c.attr_type,
        operand_cell(c.operand1, c.which_att1, left, right),
        operand_cell(c.operand2, c.which_att2, left, right),
    );
}

/// Complementary comparisons never agree.
pub proof fn lemma_negation_eval(a: Comparison, b: Comparison, left: Seq<Cell>, right: Seq<Cell>)
    requires
        negation_spec(a, b),
    ensures
        comp_eval(a, left, right) == !comp_eval(b, left, right),
{
    lemma_normalize_eval(a, left, right);
    lemma_normalize_eval(b, left, right);
}

/// Equivalent comparisons always agree.
pub proof fn lemma_equivalent_eval(a: Comparison, b: Comparison, left: Seq<Cell>, right: Seq<Cell>)
    requires
        equivalent_spec(a, b),
    ensures
        comp_eval(a, left, right) == comp_eval(b, left, right),
{
    lemma_normalize_eval(a, left, right);
    lemma_normalize_eval(b, left, right);
}

fn negate_op_exec(op: CompOp) -> (r: CompOp)
    ensures
        r == negate_op(op),
{
    match op {
        CompOp::Less => CompOp::GreaterEqual,
        CompOp::GreaterEqual => CompOp::Less,
        CompOp::Greater => CompOp::LessEqual,
        CompOp::LessEqual => CompOp::Greater,
        CompOp::Equal => CompOp::NotEqual,
        CompOp::NotEqual => CompOp::Equal,
    }
}

fn mirror_op_exec(op: CompOp) -> (r: CompOp)
    ensures
        r == mirror_op(op),
{
    match op {
        CompOp::Less => CompOp::Greater,
        CompOp::Greater => CompOp::Less,
        CompOp::LessEqual => CompOp::GreaterEqual,
        CompOp::GreaterEqual => CompOp::LessEqual,
        CompOp::Equal => CompOp::Equal,
        CompOp::NotEqual => CompOp::NotEqual,
    }
}

fn target_rank_exec(t: Target) -> (r: u8)
    ensures
        r as int == target_rank(t),
{
    match t {
        Target::Left => 0,
        Target::Right => 1,
        Target::Literal => 2,
    }
}

fn int_order_exec(a: i64, b: i64) -> (r: Order)
    ensures
        r == int_order(a as int, b as int),
{
    if a < b {
        Order::Less
    } else if a > b {
        Order::Greater
    } else {
        Order::Equal
    }
}

fn flt_order_exec(a: u64, b: u64) -> (r: Order)
    ensures
        r == flt_order(a, b),
{
    let a_nan = (a & 0x7FF0_0000_0000_0000u64) == 0x7FF0_0000_0000_0000u64 && (a & 0x000F_FFFF_FFFF_FFFFu64) != 0;
    let b_nan = (b & 0x7FF0_0000_0000_0000u64) == 0x7FF0_0000_0000_0000u64 && (b & 0x000F_FFFF_FFFF_FFFFu64) != 0;
    if a_nan || b_nan {
        return Order::Unordered;
    }
    if (a & 0x7FFF_FFFF_FFFF_FFFFu64) == 0 && (b & 0x7FFF_FFFF_FFFF_FFFFu64) == 0 {
        return Order::Equal;
    }
    let ka = if (a & 0x8000_0000_0000_0000u64) != 0 { !a } else { a | 0x8000_0000_0000_0000u64 };
    let kb = if (b & 0x8000_0000_0000_0000u64) != 0 { !b } else { b | 0x8000_0000_0000_0000u64 };
    if ka < kb {
        Order::Less
    } else if ka > kb {
        Order::Greater
    } else {
        Order::Equal
    }
}

fn bytes_order_exec(a: &Vec<u8>, b: &Vec<u8>) -> (r: Order)
    ensures
        r == bytes_order(a@, b@),
{
    let mut i: usize = 0;
    assert(a@.skip(0) =~= a@);
    assert(b@.skip(0) =~= b@);
    while i < a.len() && i < b.len() && a[i] == b[i]
        invariant
            0 <= i <= a@.len(),
            i <= b@.len(),
            bytes_order(a@, b@) == bytes_order(a@.skip(i as int), b@.skip(i as int)),
        decreases a@.len() - i,
    {
        assert(a@.skip(i as int).skip(1) =~= a@.skip(i + 1));
        assert(b@.skip(i as int).skip(1) =~= b@.skip(i + 1));
        i += 1;
    }
    let ghost sa = a@.skip(i as int);
    let ghost sb = b@.skip(i as int);
    if i == a.len() && i == b.len() {
        assert(sa.len() == 0 && sb.len() == 0);
        Order::Equal
    } else if i == a.len() {
        Order::Less
    } else if i == b.len() {
        Order::Greater
    } else if a[i] < b[i] {
        assert(sa[0] == a@[i as int] && sb[0] == b@[i as int]);
        Order::Less
    } else {
        assert(sa[0] == a@[i as int] && sb[0] == b@[i as int]);
        Order::Greater
    }
}

/// How two columns compare under a type.
pub fn compare_values(t: Type, a: Option<&Value>, b: Option<&Value>) -> (r: Order)
    ensures
        r == cell_order(
            t,
            match a {
                Some(v) => Some(v@),
                None => None,
            },
            match b {
                Some(v) => Some(v@),
                None => None,
            },
        ),
{
    match (t, a, b) {
        (Type::Integer, Some(Value::Integer(x)), Some(Value::Integer(y))) => int_order_exec(*x, *y),
        (Type::Float, Some(Value::Float(x)), Some(Value::Float(y))) => flt_order_exec(*x, *y),
        (Type::String, Some(Value::String(x)), Some(Value::String(y))) => bytes_order_exec(x, y),
        _ => Order::Unordered,
    }
}

fn op_holds_exec(op: CompOp, o: Order) -> (r: bool)
    ensures
        r == op_holds(op, o),
{
    match op {
        CompOp::Less => o == Order::Less,
        CompOp::Greater => o == Order::Greater,
        CompOp::Equal => o == Order::Equal,
        CompOp::GreaterEqual => o != Order::Less,
        CompOp::LessEqual => o != Order::Greater,
        CompOp::NotEqual => o != Order::Equal,
    }
}

fn operand_value<'a>(t: Target, att: i32, left: &'a Record, right: &'a Record) -> (r: Option<&'a Value>)
    ensures
        match r {
            Some(v) => operand_cell(t, att, left@, right@) == Some(v@),
            None => operand_cell(t, att, left@, right@) is None,
        },
{
    let rec = match t {
        Target::Left => left,
        _ => right,
    };
    if att < 0 {
        None
    } else {
        rec.get_column(att as usize)
    }
}

impl Comparison {
    /// `Left[0] = Right[0]` over integers.
    pub fn new() -> (r: Comparison)
        ensures
            r == (Comparison {
                operand1: Target::Left,
                which_att1: 0,
                operand2: Target::Right,
                which_att2: 0,
                attr_type: Type::Integer,
                op: CompOp::Equal,
            }),
    {
        Comparison {
            operand1: Target::Left,
            which_att1: 0,
            operand2: Target::Right,
            which_att2: 0,
            attr_type: Type::Integer,
            op: CompOp::Equal,
        }
    }

    /// Whether the comparison holds of a pair of records (see `op_holds` for
    /// pairs that cannot be ordered, such as a NaN).
    pub fn run(&self, left: &Record, right: &Record) -> (r: bool)
        ensures
            r == comp_eval(*self, left@, right@),
    {
        let a = operand_value(self.operand1, self.which_att1, left, right);
        let b = operand_value(self.operand2, self.which_att2, left, right);
        let o = compare_values(self.attr_type, a, b);
        op_holds_exec(self.op, o)
    }

    /// The same comparison with its operands in canonical order: the lower
    /// position first, and on a tie the lower operand kind first.
    pub fn normalize(&self) -> (r: Comparison)
        ensures
            r == normalize_spec(*self),
            forall|left: Seq<Cell>, right: Seq<Cell>| comp_eval(r, left, right) == comp_eval(*self, left, right),
    {
        proof {
            assert forall|left: Seq<Cell>, right: Seq<Cell>| comp_eval(normalize_spec(*self), left, right) == comp_eval(*self, left, right) by {
                lemma_normalize_eval(*self, left, right);
            }
        }
        if self.which_att1 > self.which_att2 || (self.which_att1 == self.which_att2 && target_rank_exec(self.operand1)
            > target_rank_exec(self.operand2)) {
            Comparison {
                operand1: self.operand2,
                which_att1: self.which_att2,
                operand2: self.operand1,
                which_att2: self.which_att1,
                attr_type: self.attr_type,
                op: mirror_op_exec(self.op),
            }
        } else {
            *self
        }
    }

    /// The complement: the same operands under the negated operator.
    pub fn negate(&self) -> (r: Comparison)
        ensures
            r == (Comparison { op: negate_op(self.op), ..*self }),
            forall|left: Seq<Cell>, right: Seq<Cell>| comp_eval(r, left, right) == !comp_eval(*self, left, right),
    {
        Comparison { op: negate_op_exec(self.op), ..*self }
    }

    /// Whether `self` is the complement of `other`.
    pub fn is_negation_of(&self, other: &Comparison) -> (r: bool)
        ensures
            r == negation_spec(*self, *other),
            r ==> forall|left: Seq<Cell>, right: Seq<Cell>| comp_eval(*self, left, right) == !comp_eval(*other, left, right),
    {
        proof {
            if negation_spec(*self, *other) {
                assert forall|left: Seq<Cell>, right: Seq<Cell>| comp_eval(*self, left, right) == !comp_eval(*other, left, right) by {
                    lemma_negation_eval(*self, *other, left, right);
                }
            }
        }
        let x = self.normalize();
        let y = other.normalize();
        x.operand1 == y.operand1 && x.which_att1 == y.which_att1 && x.operand2 == y.operand2 && x.which_att2
            == y.which_att2 && x.attr_type == y.attr_type && x.op == negate_op_exec(y.op)
    }

    /// Whether `self` and `other` are the same comparison up to the order
    /// of their operands.
    pub fn is_equivalent_to(&self, other: &Comparison) -> (r: bool)
        ensures
            r == equivalent_spec(*self, *other),
            r ==> forall|left: Seq<Cell>, right: Seq<Cell>| comp_eval(*self, left, right) == comp_eval(*other, left, right),
    {
        proof {
            if equivalent_spec(*self, *other) {
                assert forall|left: Seq<Cell>, right: Seq<Cell>| comp_eval(*self, left, right) == comp_eval(*other, left, right) by {
                    lemma_equivalent_eval(*self, *other, left, right);
                }
            }
        }
        let x = self.normalize();
        let y = other.normalize();
        x.operand1 == y.operand1 && x.which_att1 == y.which_att1 && x.operand2 == y.operand2 && x.which_att2
            == y.which_att2 && x.attr_type == y.attr_type && x.op == y.op
    }
}

} // verus!
