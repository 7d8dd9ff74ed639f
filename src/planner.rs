use vstd::prelude::*;
use vstd::utf8::encode_utf8;

use crate::cnf::{cell_at, cnf_and_spec, cnf_eval, cnf_negate_spec, cnf_or_spec, Cnf, Disjunction};
use crate::comparison::{cell_order, op_holds, Comparison};
use crate::function::int_literal;
use crate::record::{cells_of, Cell, Record, Value};
use crate::schema::{has_name, index_in, Attribute, Schema};
use crate::types::{CompOp, Error, Target, Type};

verus! {

/// One side of a comparison in a WHERE clause: an attribute, or a literal
/// (an integer as written, a float already decoded to its bit pattern, or
/// a string).
#[derive(Clone, Debug)]
pub enum CondOperand {
    Name(String),
    Int(String),
    Flt(u64),
    Str(String),
}

/// A WHERE clause.
#[derive(Debug)]
pub enum CondExpr {
    And(Box<CondExpr>, Box<CondExpr>),
    Or(Box<CondExpr>, Box<CondExpr>),
    Not(Box<CondExpr>),
    Bool(bool),
    Compare(CondOperand, CompOp, CondOperand),
}

/// The type of an operand and, for a literal, its value.
pub open spec fn operand_info(o: CondOperand, atts: Seq<Attribute>) -> Option<(Type, Option<Cell>)> {
    match o {
        CondOperand::Name(n) => {
            let i = index_in(atts, n@);
            if i >= 0 && atts[i].type_ != Type::Name {
                Some((atts[i].type_, None))
            } else {
                None
            }
        },
        CondOperand::Int(s) => match int_literal(s@) {
            Some(v) => Some((Type::Integer, Some(Cell::Int(v)))),
            None => None,
        },
        CondOperand::Flt(b) => Some((Type::Float, Some(Cell::Flt(b)))),
        CondOperand::Str(s) => Some((Type::String, Some(Cell::Str(encode_utf8(s@))))),
    }
}

/// Whether the clause compiles: every attribute is known and both sides of
/// each comparison have the same type.
pub open spec fn cond_ok(c: CondExpr, atts: Seq<Attribute>) -> bool
    decreases c,
{
    match c {
        CondExpr::And(a, b) => cond_ok(*a, atts) && cond_ok(*b, atts),
        CondExpr::Or(a, b) => cond_ok(*a, atts) && cond_ok(*b, atts),
        CondExpr::Not(x) => cond_ok(*x, atts),
        CondExpr::Bool(_) => true,
        CondExpr::Compare(l, _, r) => match (operand_info(l, atts), operand_info(r, atts)) {
            (Some((lt, _)), Some((rt, _))) => lt == rt,
            _ => false,
        },
    }
}

/// The number of literals in the clause.
pub open spec fn literal_count(c: CondExpr) -> nat
    decreases c,
{
    match c {
        CondExpr::And(a, b) => literal_count(*a) + literal_count(*b),
        CondExpr::Or(a, b) => literal_count(*a) + literal_count(*b),
        CondExpr::Not(x) => literal_count(*x),
        CondExpr::Bool(_) => 0,
        CondExpr::Compare(l, _, r) => (if l is Name { 0nat } else { 1nat }) + (if r is Name { 0nat } else { 1nat }),
    }
}

/// The column an operand denotes for a record.
pub open spec fn side_cell(o: CondOperand, atts: Seq<Attribute>, rec: Seq<Cell>) -> Option<Cell> {
    match o {
        CondOperand::Name(n) => cell_at(rec, index_in(atts, n@)),
        _ => operand_info(o, atts)->Some_0.1,
    }
}

/// Whether a record satisfies the clause.
pub open spec fn cond_holds(c: CondExpr, atts: Seq<Attribute>, rec: Seq<Cell>) -> bool
    decreases c,
{
    match c {
        CondExpr::And(a, b) => cond_holds(*a, atts, rec) && cond_holds(*b, atts, rec),
        CondExpr::Or(a, b) => cond_holds(*a, atts, rec) || cond_holds(*b, atts, rec),
        CondExpr::Not(x) => !cond_holds(*x, atts, rec),
        CondExpr::Bool(b) => b,
        CondExpr::Compare(l, op, r) => op_holds(
            op,
            cell_order(operand_info(l, atts)->Some_0.0, side_cell(l, atts, rec), side_cell(r, atts, rec)),
        ),
    }
}

/// How one side of a comparison is read once `n` literals precede it: its
/// target, its position, and the literal it adds, if any.
pub open spec fn operand_slot(o: CondOperand, atts: Seq<Attribute>, n: int) -> (Target, i32, Seq<Cell>) {
    match o {
        CondOperand::Name(nm) => (Target::Left, index_in(atts, nm@) as i32, Seq::empty()),
        _ => (Target::Literal, n as i32, seq![operand_info(o, atts)->Some_0.1->Some_0]),
    }
}

/// The CNF that a clause compiles to, and the literals it appends, when `n`
/// literals precede it in the literals record.
pub open spec fn compiled(c: CondExpr, atts: Seq<Attribute>, n: int) -> ((Seq<Seq<Comparison>>, bool), Seq<Cell>)
    decreases c,
{
    match c {
        CondExpr::And(a, b) => {
            let (ca, la) = compiled(*a, atts, n);
            let (cb, lb) = compiled(*b, atts, n + la.len());
            (cnf_and_spec(ca, cb), la + lb)
        },
        CondExpr::Or(a, b) => {
            let (ca, la) = compiled(*a, atts, n);
            let (cb, lb) = compiled(*b, atts, n + la.len());
            (cnf_or_spec(ca, cb), la + lb)
        },
        CondExpr::Not(x) => {
            let (cx, lx) = compiled(*x, atts, n);
            (cnf_negate_spec(cx), lx)
        },
        CondExpr::Bool(b) => ((Seq::empty(), !b), Seq::empty()),
        CondExpr::Compare(l, op, r) => {
            let sl = operand_slot(l, atts, n);
            let sr = operand_slot(r, atts, n + sl.2.len());
            let cmp = Comparison {
                operand1: sl.0,
                which_att1: sl.1,
                operand2: sr.0,
                which_att2: sr.1,
                attr_type: operand_info(l, atts)->Some_0.0,
                op,
            };
            ((seq![seq![cmp]], false), sl.2 + sr.2)
        },
    }
}

/// A comparison of two attributes, conjoined with its own negation,
/// compiles to the contradiction: no clauses and the flag set.
pub proof fn lemma_self_contradiction_compiles(p: String, op: CompOp, q: String, atts: Seq<Attribute>, n: int)
    ensures
        ({
            let x = CondExpr::Compare(CondOperand::Name(p), op, CondOperand::Name(q));
            compiled(CondExpr::And(Box::new(x), Box::new(CondExpr::Not(Box::new(x)))), atts, n).0 == (
                Seq::<Seq<Comparison>>::empty(),
                true,
            )
        }),
{
    let x = CondExpr::Compare(CondOperand::Name(p), op, CondOperand::Name(q));
    let (cx, lx) = compiled(x, atts, n);
    assert(lx =~= Seq::<Cell>::empty());
    let cmp = cx.0[0][0];
    assert(cx.0 == seq![seq![cmp]]);
    let nc = crate::cnf::negate_comp(cmp);
    assert(crate::cnf::neg_clauses(cx.0) == crate::cnf::neg_dis(seq![cmp]));
    assert(crate::cnf::neg_dis(seq![cmp]) =~= seq![seq![nc]]);
    let (cy, ly) = compiled(CondExpr::Not(Box::new(x)), atts, n + lx.len());
    assert(compiled(x, atts, n + lx.len()) == compiled(x, atts, n));
    assert(cy == (seq![seq![nc]], false));
    let cs = cx.0 + cy.0;
    assert(cs[0] == seq![cmp] && cs[1] == seq![nc]);
    assert(crate::comparison::negation_spec(cs[0][0], cs[1][0]));
    assert(crate::cnf::has_unit_contradiction(cs));
}

/// `k` starts with `c`.
pub open spec fn extends(k: Seq<Cell>, c: Seq<Cell>) -> bool {
    k.len() >= c.len() && forall|i: int| 0 <= i < c.len() ==> k[i] == c[i]
}

/// Turns one side of a comparison into an operand, appending a literal to
/// the literals record.
fn lower_operand(o: &CondOperand, schema: &Schema, consts: &mut Vec<Value>) -> (r: Option<(Target, i32, Type)>)
    requires
        old(consts)@.len() < i32::MAX,
        schema.atts().len() <= i32::MAX,
    ensures
        r is Some <==> operand_info(*o, schema.atts()) is Some,
        r is Some ==> r->Some_0.2 == operand_info(*o, schema.atts())->Some_0.0,
        r is Some ==> match *o {
            CondOperand::Name(n) => r->Some_0.0 == Target::Left && r->Some_0.1 as int == index_in(schema.atts(), n@)
                && final(consts)@ == old(consts)@,
            _ => r->Some_0.0 == Target::Literal && r->Some_0.1 as int == old(consts)@.len()
                && cells_of(final(consts)@) == cells_of(old(consts)@).push(operand_info(*o, schema.atts())->Some_0.1->Some_0),
        },
        r is None ==> final(consts)@ == old(consts)@,
        final(consts)@.len() == old(consts)@.len() + (if r is Some && !(*o is Name) { 1int } else { 0int }),
{
    let p = consts.len() as i32;
    let v = match o {
        CondOperand::Name(n) => {
            return match schema.index_of(n.as_str()) {
                Some(i) => {
                    let t = schema.get_atts()[i].type_;
                    if t == Type::Name {
                        None
                    } else {
                        Some((Target::Left, i as i32, t))
                    }
                },
                None => None,
            };
        },
        CondOperand::Int(s) => {
            let text = s.as_str();
            let bytes = text.as_bytes();
            assert(bytes@ == encode_utf8(s@));
            match crate::fields::parse_int(bytes) {
                Some(x) => (Value::Integer(x), Type::Integer),
                None => {
                    return None;
                },
            }
        },
        CondOperand::Flt(b) => (Value::Float(*b), Type::Float),
        CondOperand::Str(s) => {
            let bytes = s.as_str().as_bytes();
            let copy = crate::fields::slice_to_vec(bytes, 0, bytes.len());
            assert(copy@ =~= encode_utf8(s@));
            (Value::String(copy), Type::String)
        },
    };
    let ghost before = cells_of(consts@);
    let ghost cv = v.0@;
    consts.push(v.0);
    assert(cells_of(consts@) =~= before.push(cv));
    Some((Target::Literal, p, v.1))
}

/// Compiles one comparison into a single-clause CNF.
fn compile_compare(
    c: &CondExpr,
    l: &CondOperand,
    op: CompOp,
    rt: &CondOperand,
    schema: &Schema,
    consts: &mut Vec<Value>,
) -> (r: Result<Cnf, Error>)
    requires
        *c == CondExpr::Compare(*l, op, *rt),
        old(consts)@.len() + literal_count(*c) < i32::MAX,
        schema.atts().len() <= i32::MAX,
    ensures
        r is Ok <==> cond_ok(*c, schema.atts()),
        r is Ok ==> r->Ok_0.wf(),
        r is Ok ==> forall|rec: Seq<Cell>, k: Seq<Cell>|
            extends(k, cells_of(final(consts)@)) ==> #[trigger] cnf_eval(r->Ok_0@, rec, k) == cond_holds(
                *c,
                schema.atts(),
                rec,
            ),
        extends(cells_of(final(consts)@), cells_of(old(consts)@)),
        final(consts)@.len() <= old(consts)@.len() + literal_count(*c),
        r is Ok ==> r->Ok_0@ == compiled(*c, schema.atts(), old(consts)@.len() as int).0,
        r is Ok ==> cells_of(final(consts)@) == cells_of(old(consts)@) + compiled(*c, schema.atts(), old(consts)@.len() as int).1,
{
    let ghost atts = schema.atts();
        let ghost c0 = cells_of(consts@);
        let lo = match lower_operand(l, schema, consts) {
            Some(x) => x,
            None => {
                return Err(Error::General);
            },
        };
        let ghost c1 = cells_of(consts@);
        let ro = match lower_operand(rt, schema, consts) {
            Some(x) => x,
            None => {
                return Err(Error::General);
            },
        };
        if lo.2 != ro.2 {
            return Err(Error::General);
        }
        let cmp = Comparison {
            operand1: lo.0,
            which_att1: lo.1,
            operand2: ro.0,
            which_att2: ro.1,
            attr_type: lo.2,
            op: op,
        };
        let mut terms: Vec<Comparison> = Vec::new();
        terms.push(cmp);
        let d = Disjunction { terms };
        assert(d@ =~= seq![cmp]);
        let r = Cnf::from_clause(d);
        assert forall|rec: Seq<Cell>, k: Seq<Cell>| extends(k, cells_of(consts@)) implies #[trigger] cnf_eval(r@, rec, k)
            == cond_holds(*c, atts, rec) by {
            assert(seq![cmp][0] == cmp);
            assert(crate::cnf::dis_eval(seq![cmp], rec, k) == crate::comparison::comp_eval(cmp, rec, k));
            assert(seq![seq![cmp]][0] == seq![cmp]);
            assert(crate::cnf::clauses_eval(seq![seq![cmp]], rec, k) == crate::cnf::dis_eval(seq![cmp], rec, k));
            match *l {
                CondOperand::Name(_) => {},
                _ => {
                    assert(k[lo.1 as int] == c1[lo.1 as int]);
                },
            }
            match *rt {
                CondOperand::Name(_) => {},
                _ => {
                    assert(k[ro.1 as int] == cells_of(consts@)[ro.1 as int]);
                },
            }
        }
        Ok(r)
}

/// Compiles a clause, appending its literals to `consts`.
#[verifier::rlimit(60)]
fn compile_into(c: &CondExpr, schema: &Schema, consts: &mut Vec<Value>) -> (r: Result<Cnf, Error>)
    requires
        old(consts)@.len() + literal_count(*c) < i32::MAX,
        schema.atts().len() <= i32::MAX,
    ensures
        r is Ok <==> cond_ok(*c, schema.atts()),
        r is Ok ==> r->Ok_0.wf(),
        r is Ok ==> forall|rec: Seq<Cell>, k: Seq<Cell>|
            extends(k, cells_of(final(consts)@)) ==> #[trigger] cnf_eval(r->Ok_0@, rec, k) == cond_holds(
                *c,
                schema.atts(),
                rec,
            ),
        extends(cells_of(final(consts)@), cells_of(old(consts)@)),
        final(consts)@.len() <= old(consts)@.len() + literal_count(*c),
        r is Ok ==> r->Ok_0@ == compiled(*c, schema.atts(), old(consts)@.len() as int).0,
        r is Ok ==> cells_of(final(consts)@) == cells_of(old(consts)@) + compiled(*c, schema.atts(), old(consts)@.len() as int).1,
    decreases c,
{
    let ghost atts = schema.atts();
    match c {
        CondExpr::And(a, b) => {
            let ca = compile_into(a, schema, consts)?;
            let ghost mid = cells_of(consts@);
            let cb = compile_into(b, schema, consts)?;
            let r = Cnf::and(&ca, &cb);
            assert forall|rec: Seq<Cell>, k: Seq<Cell>| extends(k, cells_of(consts@)) implies #[trigger] cnf_eval(r@, rec, k)
                == cond_holds(*c, atts, rec) by {
                assert(extends(k, mid));
                assert(cnf_eval(ca@, rec, k) == cond_holds(**a, atts, rec));
                assert(cnf_eval(cb@, rec, k) == cond_holds(**b, atts, rec));
            }
            Ok(r)
        },
        CondExpr::Or(a, b) => {
            let ca = compile_into(a, schema, consts)?;
            let ghost mid = cells_of(consts@);
            let cb = compile_into(b, schema, consts)?;
            let r = Cnf::or(&ca, &cb);
            assert forall|rec: Seq<Cell>, k: Seq<Cell>| extends(k, cells_of(consts@)) implies #[trigger] cnf_eval(r@, rec, k)
                == cond_holds(*c, atts, rec) by {
                assert(extends(k, mid));
                assert(cnf_eval(ca@, rec, k) == cond_holds(**a, atts, rec));
                assert(cnf_eval(cb@, rec, k) == cond_holds(**b, atts, rec));
            }
            Ok(r)
        },
        CondExpr::Not(x) => {
            let cx = compile_into(x, schema, consts)?;
            let r = cx.negate();
            assert forall|rec: Seq<Cell>, k: Seq<Cell>| extends(k, cells_of(consts@)) implies #[trigger] cnf_eval(r@, rec, k)
                == cond_holds(*c, atts, rec) by {
                assert(cnf_eval(cx@, rec, k) == cond_holds(**x, atts, rec));
            }
            Ok(r)
        },
        CondExpr::Bool(b) => {
            if *b {
                Ok(Cnf::new())
            } else {
                Ok(Cnf::contradiction())
            }
        },
        CondExpr::Compare(l, op, rt) => compile_compare(c, l, *op, rt, schema, consts),
    }
}


/// Compiles a WHERE clause against a schema into a CNF and the record of
/// its literals, in one pass: each comparison becomes a one-clause CNF,
/// each literal is appended to the literals record, and AND, OR and NOT
/// combine with `Cnf::and`, `Cnf::or` and `Cnf::negate` (so, for one,
/// `x AND NOT x` of a single comparison yields the contradiction). A record
/// satisfies the clause exactly when the CNF holds of it with the literals
/// record on the right. Fails when an attribute is unknown or the two sides
/// of a comparison differ in type.
pub fn compile_condition(c: &CondExpr, schema: &Schema) -> (r: Result<(Cnf, Record), Error>)
    requires
        literal_count(*c) < i32::MAX,
        schema.atts().len() <= i32::MAX,
    ensures
        r is Ok <==> cond_ok(*c, schema.atts()),
        r is Ok ==> r->Ok_0.0.wf(),
        r is Ok ==> r->Ok_0.0@ == compiled(*c, schema.atts(), 0).0,
        r is Ok ==> r->Ok_0.1@ == compiled(*c, schema.atts(), 0).1,
        r is Ok ==> forall|rec: Seq<Cell>|
            #[trigger] cnf_eval(r->Ok_0.0@, rec, r->Ok_0.1@) == cond_holds(*c, schema.atts(), rec),
{
    let mut consts: Vec<Value> = Vec::new();
    assert(cells_of(consts@) =~= Seq::<Cell>::empty());
    let cnf = compile_into(c, schema, &mut consts)?;
    let constants = Record::from_values(consts);
    assert(constants@ =~= compiled(*c, schema.atts(), 0).1);
    assert forall|rec: Seq<Cell>| #[trigger] cnf_eval(cnf@, rec, constants@) == cond_holds(*c, schema.atts(), rec) by {
        assert(extends(constants@, constants@));
    }
    Ok((cnf, constants))
}

} // verus!
