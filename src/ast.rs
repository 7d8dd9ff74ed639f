use vstd::prelude::*;

verus! {

/// The kind of a leaf of a parsed arithmetic expression.
#[derive(Copy, Clone, Debug, PartialEq, Eq, Structural)]
pub enum OperandCode {
    Name,
    Integer,
    Float,
    String,
}

/// A leaf of a parsed arithmetic expression, as written.
#[derive(Clone, Debug)]
pub struct FuncOperand {
    pub code: OperandCode,
    pub value: String,
}

/// An arithmetic operator; `Neg` is the unary minus.
#[derive(Copy, Clone, Debug, PartialEq, Eq, Structural)]
pub enum BinOp {
    Add,
    Sub,
    Mul,
    Div,
    Neg,
}

/// A node of a parsed arithmetic expression.
#[derive(Debug)]
pub struct FuncOperator {
    pub left_operand: Option<FuncOperand>,
    pub left_operator: Option<Box<FuncOperator>>,
    pub op: Option<BinOp>,
    pub right: Option<Box<FuncOperator>>,
}

/// A table named in a FROM list.
#[derive(Clone, Debug)]
pub struct Table {
    pub name: String,
}

/// A linked list of names.
#[derive(Debug)]
pub struct NameList {
    pub name: String,
    pub next: Option<Box<NameList>>,
}

/// A linked list of table names.
#[derive(Debug)]
pub struct TableList {
    pub table_name: String,
    pub next: Option<Box<TableList>>,
}

/// A comparison operator as parsed.
#[derive(Copy, Clone, Debug, PartialEq, Eq, Structural)]
pub enum CompCode {
    LessThan,
    GreaterThan,
    Equals,
    LessEqual,
    GreaterEqual,
    NotEqual,
}

/// A side of a parsed comparison, as written.
#[derive(Clone, Debug)]
pub enum Operand {
    String(String),
    Float(String),
    Integer(String),
    Name(String),
}

/// A parsed comparison.
#[derive(Clone, Debug)]
pub struct ComparisonOp {
    pub code: CompCode,
    pub left: Operand,
    pub right: Operand,
}

/// One condition of a WHERE clause.
#[derive(Clone, Debug)]
pub struct Condition {
    pub cmp: ComparisonOp,
}

/// Conditions joined by AND.
#[derive(Debug)]
pub struct AndList {
    pub left: Condition,
    pub right_and: Option<Box<AndList>>,
}

/// A parsed query.
#[derive(Debug)]
pub struct Query {
    pub final_function: Option<Box<FuncOperator>>,
    pub tables: Vec<Table>,
    pub predicate: Option<AndList>,
    pub grouping_atts: Option<Vec<String>>,
    pub atts_to_select: Option<Vec<String>>,
    pub distinct_atts: bool,
}

impl Query {
    /// A query with nothing in it.
    pub fn empty() -> (r: Query)
        ensures
            r.final_function is None,
            r.tables@.len() == 0,
            r.predicate is None,
            r.grouping_atts is None,
            r.atts_to_select is None,
            !r.distinct_atts,
    {
        Query {
            final_function: None,
            tables: Vec::new(),
            predicate: None,
            grouping_atts: None,
            atts_to_select: None,
            distinct_atts: false,
        }
    }
}

/// The comparison operator that a parsed code names.
pub fn comp_op_of(code: CompCode) -> (r: crate::types::CompOp)
    ensures
        code == CompCode::LessThan ==> r == crate::types::CompOp::Less,
        code == CompCode::GreaterThan ==> r == crate::types::CompOp::Greater,
        code == CompCode::Equals ==> r == crate::types::CompOp::Equal,
        code == CompCode::LessEqual ==> r == crate::types::CompOp::LessEqual,
        code == CompCode::GreaterEqual ==> r == crate::types::CompOp::GreaterEqual,
        code == CompCode::NotEqual ==> r == crate::types::CompOp::NotEqual,
{
    match code {
        CompCode::LessThan => crate::types::CompOp::Less,
        CompCode::GreaterThan => crate::types::CompOp::Greater,
        CompCode::Equals => crate::types::CompOp::Equal,
        CompCode::LessEqual => crate::types::CompOp::LessEqual,
        CompCode::GreaterEqual => crate::types::CompOp::GreaterEqual,
        CompCode::NotEqual => crate::types::CompOp::NotEqual,
    }
}

} // verus!
