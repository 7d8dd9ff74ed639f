//! A miniature relational query engine: schemas, records, a predicate
//! algebra in conjunctive normal form, an arithmetic compiler and a set of
//! physical operators, each with a machine-checked contract.
pub mod ast;
pub mod types;
pub mod schema;
pub mod record;
pub mod fields;
pub mod comparison;
pub mod cnf;
pub mod function;
pub mod order_maker;
pub mod catalog;
pub mod relop;
pub mod planner;
pub mod page;
pub mod plan;
pub mod query;
pub mod lexer;
pub mod join_order;

pub use types::{ArithOp, CompOp, Error, FileType, Target, Type};
pub use schema::{Attribute, Schema};
pub use record::{Cell, Record, Value};
pub use fields::{parse_int, push_int_text, split_fields};
pub use comparison::{Comparison, Order};
pub use cnf::{Cnf, Disjunction};
pub use function::{ArithmeticOp, FuncOperator, Function, Literal, NodeType, Operand};
pub use order_maker::OrderMaker;
pub use catalog::Catalog;
pub use relop::{apply_function, dup_elim, group_by, hash_join, merge_join, nested_loop_join, order_by, project, select};
pub use planner::{compile_condition, CondExpr, CondOperand};
pub use ast::{AndList, BinOp, CompCode, ComparisonOp, Condition, FuncOperand, NameList, OperandCode, Query, Table, TableList};
pub use page::{page_fields, Page, MAX_RECORDS_PER_PAGE, PAGE_SIZE};
pub use plan::{QueryExecutionTree, RelOp};
pub use query::{plan_query, plan_query_in_order};
pub use lexer::{lexer_from_str, Token};
pub use join_order::{join_order_cost, optimal_join_order};
