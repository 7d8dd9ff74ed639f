use vstd::prelude::*;

use crate::cnf::Cnf;
use crate::order_maker::OrderMaker;
use crate::record::{Cell, Record};
use crate::relop::{
    before_transitive, dedup_spec, dup_elim, group_by, group_spec, hash_join, hash_join_spec, join_spec,
    nested_loop_join, order_by, project, project_spec, recs_view, select, select_spec, sorted_by,
};

verus! {

/// A physical operator with the operators it pulls from.
#[derive(Debug)]
pub enum RelOp {
    /// The records of the `i`-th input table, in order.
    Scan(usize),
    EmptyTableScan,
    Select { predicate: Cnf, constants: Record, producer: Box<RelOp> },
    Project { atts_to_keep: Vec<i32>, producer: Box<RelOp> },
    NestedLoopJoin { predicate: Cnf, left_producer: Box<RelOp>, right_producer: Box<RelOp> },
    HashJoin {
        predicate: Cnf,
        build_left: bool,
        left_projection: Vec<i32>,
        right_projection: Vec<i32>,
        left_producer: Box<RelOp>,
        right_producer: Box<RelOp>,
    },
    DupElim(Box<RelOp>),
    GroupBy { grouping: OrderMaker, producer: Box<RelOp> },
}

/// The contents of the input tables.
pub open spec fn tables_view(tables: Seq<Vec<Record>>) -> Seq<Seq<Seq<Cell>>> {
    tables.map_values(|t: Vec<Record>| recs_view(t@))
}

/// What an operator yields, in order, over the given tables.
pub open spec fn op_output(op: RelOp, tables: Seq<Seq<Seq<Cell>>>) -> Seq<Seq<Cell>>
    decreases op,
{
    match op {
        RelOp::Scan(i) => if i < tables.len() {
            tables[i as int]
        } else {
            Seq::empty()
        },
        RelOp::EmptyTableScan => Seq::empty(),
        RelOp::Select { predicate, constants, producer } => select_spec(
            op_output(*producer, tables),
            predicate@,
            constants@,
        ),
        RelOp::Project { atts_to_keep, producer } => project_spec(op_output(*producer, tables), atts_to_keep@),
        RelOp::NestedLoopJoin { predicate, left_producer, right_producer } => join_spec(
            op_output(*left_producer, tables),
            op_output(*right_producer, tables),
            predicate@,
        ),
        RelOp::HashJoin { predicate, build_left, left_projection, right_projection, left_producer, right_producer } => {
            let l = op_output(*left_producer, tables);
            let r = op_output(*right_producer, tables);
            if build_left {
                hash_join_spec(r, l, true, left_projection@, right_projection@, predicate@)
            } else {
                hash_join_spec(l, r, false, left_projection@, right_projection@, predicate@)
            }
        },
        RelOp::DupElim(producer) => dedup_spec(Seq::empty(), op_output(*producer, tables)),
        RelOp::GroupBy { grouping, producer } => group_spec(None, op_output(*producer, tables), grouping.atts@),
    }
}

impl RelOp {
    /// Drains the operator over the given tables.
    pub fn run_all(&self, tables: &Vec<Vec<Record>>) -> (r: Vec<Record>)
        ensures
            recs_view(r@) == op_output(*self, tables_view(tables@)),
        decreases self,
    {
        let ghost tv = tables_view(tables@);
        match self {
            RelOp::Scan(i) => {
                if *i < tables.len() {
                    let t = &tables[*i];
                    assert(tv[*i as int] == recs_view(t@));
                    let mut out: Vec<Record> = Vec::new();
                    let mut k: usize = 0;
                    while k < t.len()
                        invariant
                            0 <= k <= t@.len(),
                            out@.len() == k,
                            forall|j: int| 0 <= j < k ==> (#[trigger] out@[j])@ == t@[j]@,
                        decreases t@.len() - k,
                    {
                        out.push(t[k].duplicate());
                        k += 1;
                    }
                    assert(recs_view(out@) =~= recs_view(t@));
                    out
                } else {
                    let out: Vec<Record> = Vec::new();
                    assert(recs_view(out@) =~= Seq::<Seq<Cell>>::empty());
                    out
                }
            },
            RelOp::EmptyTableScan => {
                let out: Vec<Record> = Vec::new();
                assert(recs_view(out@) =~= Seq::<Seq<Cell>>::empty());
                out
            },
            RelOp::Select { predicate, constants, producer } => {
                let input = producer.run_all(tables);
                select(predicate, constants, &input)
            },
            RelOp::Project { atts_to_keep, producer } => {
                let input = producer.run_all(tables);
                project(atts_to_keep.as_slice(), &input)
            },
            RelOp::NestedLoopJoin { predicate, left_producer, right_producer } => {
                let l = left_producer.run_all(tables);
                let r = right_producer.run_all(tables);
                nested_loop_join(predicate, &l, &r)
            },
            RelOp::HashJoin { predicate, build_left, left_projection, right_projection, left_producer, right_producer } => {
                let l = left_producer.run_all(tables);
                let r = right_producer.run_all(tables);
                hash_join(predicate, *build_left, left_projection.as_slice(), right_projection.as_slice(), &l, &r)
            },
            RelOp::DupElim(producer) => {
                let input = producer.run_all(tables);
                dup_elim(&input)
            },
            RelOp::GroupBy { grouping, producer } => {
                let input = producer.run_all(tables);
                group_by(grouping, &input)
            },
        }
    }
}

/// "└─", "├─", "│ " and two blanks, in UTF-8.
pub open spec fn last_first() -> Seq<u8> {
    seq![0xE2u8, 0x94u8, 0x94u8, 0xE2u8, 0x94u8, 0x80u8]
}

pub open spec fn mid_first() -> Seq<u8> {
    seq![0xE2u8, 0x94u8, 0x9Cu8, 0xE2u8, 0x94u8, 0x80u8]
}

pub open spec fn mid_rest() -> Seq<u8> {
    seq![0xE2u8, 0x94u8, 0x82u8, 0x20u8]
}

pub open spec fn last_rest() -> Seq<u8> {
    seq![0x20u8, 0x20u8]
}

/// The lines of a child's drawing, the first behind `first`, the others
/// behind `rest`.
pub open spec fn prefix_lines(ls: Seq<Seq<u8>>, first: Seq<u8>, rest: Seq<u8>) -> Seq<Seq<u8>> {
    Seq::new(ls.len(), |i: int| (if i == 0 { first } else { rest }) + ls[i])
}

/// The name of an operator as drawn.
pub open spec fn op_name(op: RelOp) -> Seq<u8> {
    match op {
        RelOp::Scan(i) => seq![83u8, 99u8, 97u8, 110u8, 40u8] + crate::fields::nat_text(i as nat) + seq![41u8],
        RelOp::EmptyTableScan => seq![69u8, 109u8, 112u8, 116u8, 121u8, 84u8, 97u8, 98u8, 108u8, 101u8, 83u8, 99u8, 97u8, 110u8],
        RelOp::Select { .. } => seq![83u8, 101u8, 108u8, 101u8, 99u8, 116u8],
        RelOp::Project { .. } => seq![80u8, 114u8, 111u8, 106u8, 101u8, 99u8, 116u8],
        RelOp::NestedLoopJoin { .. } => seq![78u8, 101u8, 115u8, 116u8, 101u8, 100u8, 76u8, 111u8, 111u8, 112u8, 74u8, 111u8, 105u8, 110u8],
        RelOp::HashJoin { .. } => seq![72u8, 97u8, 115u8, 104u8, 74u8, 111u8, 105u8, 110u8],
        RelOp::DupElim(_) => seq![68u8, 117u8, 112u8, 69u8, 108u8, 105u8, 109u8],
        RelOp::GroupBy { .. } => seq![71u8, 114u8, 111u8, 117u8, 112u8, 66u8, 121u8],
    }
}

/// The drawing of an operator tree, one operator per line, each child
/// below its parent behind tree branches.
pub open spec fn draw_spec(op: RelOp) -> Seq<Seq<u8>>
    decreases op,
{
    let head = seq![op_name(op)];
    match op {
        RelOp::Select { producer, .. } | RelOp::Project { producer, .. } | RelOp::DupElim(producer) | RelOp::GroupBy {
            producer,
            ..
        } => head + prefix_lines(draw_spec(*producer), last_first(), last_rest()),
        RelOp::NestedLoopJoin { left_producer, right_producer, .. } | RelOp::HashJoin {
            left_producer,
            right_producer,
            ..
        } => head + prefix_lines(draw_spec(*left_producer), mid_first(), mid_rest()) + prefix_lines(
            draw_spec(*right_producer),
            last_first(),
            last_rest(),
        ),
        _ => head,
    }
}

/// The lines joined by newlines.
pub open spec fn join_lines(ls: Seq<Seq<u8>>) -> Seq<u8>
    decreases ls.len(),
{
    if ls.len() == 0 {
        Seq::empty()
    } else if ls.len() == 1 {
        ls[0]
    } else {
        join_lines(ls.drop_last()) + seq![10u8] + ls.last()
    }
}

fn push_lit(out: &mut Vec<u8>, lit: &[u8])
    ensures
        final(out)@ == old(out)@ + lit@,
{
    let ghost before = out@;
    let mut i: usize = 0;
    while i < lit.len()
        invariant
            0 <= i <= lit@.len(),
            out@ == before + lit@.take(i as int),
        decreases lit@.len() - i,
    {
        out.push(lit[i]);
        assert(out@ =~= before + lit@.take(i + 1));
        i += 1;
    }
    assert(lit@.take(i as int) =~= lit@);
}

fn name_bytes(op: &RelOp) -> (r: Vec<u8>)
    ensures
        r@ == op_name(*op),
{
    let mut out: Vec<u8> = Vec::new();
    match op {
        RelOp::Scan(i) => {
            let a = [83u8, 99u8, 97u8, 110u8, 40u8];
            push_lit(&mut out, &a);
            crate::fields::push_nat_text(*i as u64, &mut out);
            out.push(41u8);
        },
        RelOp::EmptyTableScan => { let a = [69u8, 109u8, 112u8, 116u8, 121u8, 84u8, 97u8, 98u8, 108u8, 101u8, 83u8, 99u8, 97u8, 110u8]; push_lit(&mut out, &a); },
        RelOp::Select { .. } => { let a = [83u8, 101u8, 108u8, 101u8, 99u8, 116u8]; push_lit(&mut out, &a); },
        RelOp::Project { .. } => { let a = [80u8, 114u8, 111u8, 106u8, 101u8, 99u8, 116u8]; push_lit(&mut out, &a); },
        RelOp::NestedLoopJoin { .. } => { let a = [78u8, 101u8, 115u8, 116u8, 101u8, 100u8, 76u8, 111u8, 111u8, 112u8, 74u8, 111u8, 105u8, 110u8]; push_lit(&mut out, &a); },
        RelOp::HashJoin { .. } => { let a = [72u8, 97u8, 115u8, 104u8, 74u8, 111u8, 105u8, 110u8]; push_lit(&mut out, &a); },
        RelOp::DupElim(_) => { let a = [68u8, 117u8, 112u8, 69u8, 108u8, 105u8, 109u8]; push_lit(&mut out, &a); },
        RelOp::GroupBy { .. } => { let a = [71u8, 114u8, 111u8, 117u8, 112u8, 66u8, 121u8]; push_lit(&mut out, &a); },
    }
    assert(out@ =~= op_name(*op));
    out
}

/// Appends the lines behind their branch prefixes.
fn push_prefixed(ls: &Vec<Vec<u8>>, first: &[u8], rest: &[u8], out: &mut Vec<Vec<u8>>)
    ensures
        crate::fields::views(final(out)@) == crate::fields::views(old(out)@) + prefix_lines(crate::fields::views(ls@), first@, rest@),
{
    let ghost before = crate::fields::views(out@);
    let ghost target = prefix_lines(crate::fields::views(ls@), first@, rest@);
    let mut i: usize = 0;
    while i < ls.len()
        invariant
            0 <= i <= ls@.len(),
            target == prefix_lines(crate::fields::views(ls@), first@, rest@),
            crate::fields::views(out@) == before + target.take(i as int),
        decreases ls@.len() - i,
    {
        let mut line: Vec<u8> = Vec::new();
        if i == 0 {
            push_lit(&mut line, first);
        } else {
            push_lit(&mut line, rest);
        }
        let l = &ls[i];
        push_lit(&mut line, l.as_slice());
        let ghost lv = line@;
        assert(lv == target[i as int]);
        let ghost old_out = crate::fields::views(out@);
        out.push(line);
        assert(crate::fields::views(out@) =~= old_out.push(lv));
        assert(before + target.take(i + 1) =~= (before + target.take(i as int)).push(lv));
        i += 1;
    }
    assert(target.take(i as int) =~= target);
}

fn draw(op: &RelOp) -> (r: Vec<Vec<u8>>)
    ensures
        crate::fields::views(r@) == draw_spec(*op),
    decreases op,
{
    let mut out: Vec<Vec<u8>> = Vec::new();
    let n = name_bytes(op);
    let ghost nv = n@;
    out.push(n);
    assert(crate::fields::views(out@) =~= seq![nv]);
    let lf = [226u8, 148u8, 148u8, 226u8, 148u8, 128u8];
    let lr = [32u8, 32u8];
    let mf = [226u8, 148u8, 156u8, 226u8, 148u8, 128u8];
    let mr = [226u8, 148u8, 130u8, 32u8];
    assert(lf@ =~= last_first());
    assert(lr@ =~= last_rest());
    assert(mf@ =~= mid_first());
    assert(mr@ =~= mid_rest());
    match op {
        RelOp::Select { producer, .. } | RelOp::Project { producer, .. } | RelOp::DupElim(producer) | RelOp::GroupBy {
            producer,
            ..
        } => {
            let c = draw(producer);
            push_prefixed(&c, &lf, &lr, &mut out);
        },
        RelOp::NestedLoopJoin { left_producer, right_producer, .. } | RelOp::HashJoin {
            left_producer,
            right_producer,
            ..
        } => {
            let l = draw(left_producer);
            push_prefixed(&l, &mf, &mr, &mut out);
            let r = draw(right_producer);
            push_prefixed(&r, &lf, &lr, &mut out);
        },
        _ => {},
    }
    out
}

impl RelOp {
    /// The bytes of the operator tree's drawing: one operator per line,
    /// each child below its parent behind tree branches.
    pub fn as_bytes_drawing(&self) -> (r: Vec<u8>)
        ensures
            r@ == join_lines(draw_spec(*self)),
    {
        let lines = draw(self);
        let ghost lv = crate::fields::views(lines@);
        let mut out: Vec<u8> = Vec::new();
        let mut k: usize = 0;
        assert(lv.take(0) =~= Seq::<Seq<u8>>::empty());
        while k < lines.len()
            invariant
                0 <= k <= lines@.len(),
                lv == crate::fields::views(lines@),
                out@ == join_lines(lv.take(k as int)),
            decreases lines@.len() - k,
        {
            assert(lv.take(k + 1).drop_last() =~= lv.take(k as int));
            assert(lv[k as int] == lines@[k as int]@);
            if k > 0 {
                out.push(10u8);
            }
            push_lit(&mut out, lines[k].as_slice());
            proof {
                if k == 0 {
                    assert(lv.take(1) =~= seq![lv[0]]);
                }
            }
            k += 1;
        }
        assert(lv.take(k as int) =~= lv);
        out
    }

    /// The drawing of the operator tree as text.
    pub fn as_string(&self) -> (r: String)
        ensures
            r@ == crate::lexer::token_text(join_lines(draw_spec(*self))),
    {
        let b = self.as_bytes_drawing();
        crate::lexer::text_of(b.as_slice())
    }
}

/// A plan: an operator tree, optionally followed by a sort, with the order
/// in which it joins the input tables.
#[derive(Debug)]
pub struct QueryExecutionTree {
    pub root: RelOp,
    pub ordering: Option<(OrderMaker, bool)>,
    pub join_order: Vec<usize>,
}

impl QueryExecutionTree {
    /// The records the plan yields over the given tables: what the root
    /// yields, reordered by the sort when there is one (a permutation,
    /// sorted whenever the ordering is transitive on those records).
    pub fn execute(&self, tables: &Vec<Vec<Record>>) -> (r: Vec<Record>)
        ensures
            match self.ordering {
                None => recs_view(r@) == op_output(self.root, tables_view(tables@)),
                Some((om, asc)) => {
                    let s = op_output(self.root, tables_view(tables@));
                    &&& recs_view(r@).to_multiset() == s.to_multiset()
                    &&& before_transitive(om.atts@, asc, s) ==> sorted_by(om.atts@, asc, recs_view(r@))
                },
            },
    {
        let out = self.root.run_all(tables);
        match &self.ordering {
            None => out,
            Some((om, asc)) => order_by(om, *asc, &out),
        }
    }
}

} // verus!
