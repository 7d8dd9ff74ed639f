use vstd::prelude::*;

verus! {

/// Which record an operand of a comparison reads from.
#[derive(Copy, Clone, Debug, PartialEq, Eq, Structural)]
pub enum Target {
    Left,
    Right,
    Literal,
}

/// The type of a column.
#[derive(Copy, Clone, Debug, PartialEq, Eq, Structural)]
pub enum Type {
    Integer,
    Float,
    String,
    Name,
}

/// The upper-case name of a type.
pub open spec fn label_spec(t: Type) -> Seq<char> {
    match t {
        Type::Integer => "INTEGER"@,
        Type::Float => "FLOAT"@,
        Type::String => "STRING"@,
        Type::Name => "UNKOWN"@,
    }
}

impl Type {
    /// The upper-case name of the type, as shown to users.
    pub fn label(&self) -> (r: &'static str)
        ensures
            r@ == label_spec(*self),
            *self == Type::Integer ==> r@ == "INTEGER"@,
            *self == Type::Float ==> r@ == "FLOAT"@,
            *self == Type::String ==> r@ == "STRING"@,
            *self == Type::Name ==> r@ == "UNKOWN"@,
    {
        match self {
            Type::Integer => "INTEGER",
            Type::Float => "FLOAT",
            Type::String => "STRING",
            Type::Name => "UNKOWN",
        }
    }
}

/// A comparison operator.
#[derive(Copy, Clone, Debug, PartialEq, Eq, Structural)]
pub enum CompOp {
    Less,
    Greater,
    Equal,
    LessEqual,
    GreaterEqual,
    NotEqual,
}

/// An opcode of the arithmetic stack machine.
#[derive(Copy, Clone, Debug, PartialEq, Eq, Structural)]
pub enum ArithOp {
    PushInt,
    PushFlt,
    ToFlt,
    ToFlt2Down,
    IntNeg,
    IntSub,
    IntAdd,
    IntDiv,
    IntMul,
    FltNeg,
    FltSub,
    FltAdd,
    FltDiv,
    FltMul,
}

/// The organisation of a data file.
#[derive(Copy, Clone, Debug, PartialEq, Eq, Structural)]
pub enum FileType {
    Heap,
    Sorted,
    Index,
}

/// The error of a failed operation.
#[derive(Copy, Clone, Debug, PartialEq, Eq, Structural)]
pub enum Error {
    General,
}

impl Error {
    /// A human-readable description of the error.
    pub fn message(&self) -> (r: &'static str)
        ensures
            r@ == "General error"@,
    {
        match self {
            Error::General => "General error",
        }
    }
}

} // verus!
