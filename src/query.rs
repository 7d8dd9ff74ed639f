use vstd::prelude::*;

use crate::cnf::{cnf_eval, equijoin_holds, Cnf};
use crate::order_maker::OrderMaker;
use crate::plan::{op_output, QueryExecutionTree, RelOp};
use crate::planner::{compile_condition, cond_holds, cond_ok, literal_count, CondExpr};
use crate::record::Cell;
use crate::relop::{dedup_spec, join_row, join_spec, project_spec, select_spec};
use crate::schema::{has_name, index_in, Attribute, Schema};
use crate::join_order::{copy_order, is_perm, optimal_join_order, order_cost};
use crate::types::{Error, Type};

verus! {

/// The record layout of the first `k` tables joined: their attributes in
/// order, shared names included.
pub open spec fn layout_of(schemas: Seq<Schema>, k: int) -> Seq<Attribute>
    decreases k,
{
    if k <= 0 {
        Seq::empty()
    } else {
        layout_of(schemas, k - 1) + schemas[k - 1].atts()
    }
}

/// The records of `s` on which `f` holds, in order.
pub open spec fn filter_sem(s: Seq<Seq<Cell>>, f: spec_fn(Seq<Cell>) -> bool) -> Seq<Seq<Cell>>
    decreases s.len(),
{
    if s.len() == 0 {
        Seq::empty()
    } else {
        let p = filter_sem(s.drop_last(), f);
        if f(s.last()) {
            p.push(s.last())
        } else {
            p
        }
    }
}

pub open spec fn join_row_sem(l: Seq<Cell>, rs: Seq<Seq<Cell>>, f: spec_fn(Seq<Cell>, Seq<Cell>) -> bool) -> Seq<Seq<Cell>>
    decreases rs.len(),
{
    if rs.len() == 0 {
        Seq::empty()
    } else {
        let p = join_row_sem(l, rs.drop_last(), f);
        if f(l, rs.last()) {
            p.push(l + rs.last())
        } else {
            p
        }
    }
}

/// Left-major pairs of records on which `f` holds, concatenated.
pub open spec fn join_sem(ls: Seq<Seq<Cell>>, rs: Seq<Seq<Cell>>, f: spec_fn(Seq<Cell>, Seq<Cell>) -> bool) -> Seq<Seq<Cell>>
    decreases ls.len(),
{
    if ls.len() == 0 {
        Seq::empty()
    } else {
        join_sem(ls.drop_last(), rs, f) + join_row_sem(ls.last(), rs, f)
    }
}

pub open spec fn scan_out(tables: Seq<Seq<Seq<Cell>>>, i: int) -> Seq<Seq<Cell>> {
    if 0 <= i < tables.len() {
        tables[i]
    } else {
        Seq::empty()
    }
}

/// The first `k` tables joined left-deep, each step on the names the
/// joined layout shares with the next table.
pub open spec fn chain_spec(tables: Seq<Seq<Seq<Cell>>>, schemas: Seq<Schema>, k: int) -> Seq<Seq<Cell>>
    decreases k,
{
    if k <= 1 {
        scan_out(tables, 0)
    } else {
        join_sem(
            chain_spec(tables, schemas, k - 1),
            scan_out(tables, k - 1),
            |l: Seq<Cell>, r: Seq<Cell>| equijoin_holds(layout_of(schemas, k - 1), schemas[k - 1].atts(), l, r),
        )
    }
}

/// The positions of the named attributes in a layout.
pub open spec fn keep_of(layout: Seq<Attribute>, names: Seq<String>) -> Seq<i32> {
    names.map_values(|n: String| index_in(layout, n@) as i32)
}

pub open spec fn is_identity(keep: Seq<i32>, n: int) -> bool {
    keep.len() == n && forall|i: int| 0 <= i < n ==> keep[i] == i
}

/// The attributes of the result.
pub open spec fn out_atts(layout: Seq<Attribute>, sel: Option<Seq<String>>) -> Seq<Attribute> {
    match sel {
        None => layout,
        Some(names) => names.map_values(|n: String| layout[index_in(layout, n@)]),
    }
}

/// The sort keys for the named attributes of the result.
pub open spec fn order_keys(out: Seq<Attribute>, names: Seq<String>) -> Seq<(i32, Type)> {
    names.map_values(|n: String| (index_in(out, n@) as i32, out[index_in(out, n@)].type_))
}

/// What the query yields over the tables, before any sort.
pub open spec fn query_output(
    tables: Seq<Seq<Seq<Cell>>>,
    schemas: Seq<Schema>,
    sel: Option<Seq<String>>,
    pred: Option<CondExpr>,
    distinct: bool,
) -> Seq<Seq<Cell>> {
    let layout = layout_of(schemas, schemas.len() as int);
    let joined = chain_spec(tables, schemas, schemas.len() as int);
    let filtered = match pred {
        None => joined,
        Some(c) => filter_sem(joined, |r: Seq<Cell>| cond_holds(c, layout, r)),
    };
    let projected = match sel {
        None => filtered,
        Some(names) => if is_identity(keep_of(layout, names), layout.len() as int) {
            filtered
        } else {
            project_spec(filtered, keep_of(layout, names))
        },
    };
    if distinct {
        dedup_spec(Seq::empty(), projected)
    } else {
        projected
    }
}

/// The schemas taken in the order `ids`.
pub open spec fn permuted(schemas: Seq<Schema>, ids: Seq<usize>) -> Seq<Schema> {
    ids.map_values(|i: usize| schemas[i as int])
}

/// What the scan of table `i` yields: nothing when its schema has no data
/// path (an empty table scan), else the table's records.
pub open spec fn scan_of(tables: Seq<Seq<Seq<Cell>>>, schemas: Seq<Schema>, i: int) -> Seq<Seq<Cell>> {
    if schemas[i].path().len() == 0 {
        Seq::empty()
    } else {
        scan_out(tables, i)
    }
}

/// The scans' outputs taken in the order `ids`.
pub open spec fn permuted_scans(tables: Seq<Seq<Seq<Cell>>>, schemas: Seq<Schema>, ids: Seq<usize>) -> Seq<Seq<Seq<Cell>>> {
    ids.map_values(|i: usize| scan_of(tables, schemas, i as int))
}

/// Whether a query plans: the WHERE clause compiles against the joined
/// layout and every selected and ordering name is known.
pub open spec fn plan_ok(
    layout: Seq<Attribute>,
    sel: Option<Seq<String>>,
    pred: Option<CondExpr>,
    order: Option<Seq<String>>,
) -> bool {
    &&& match pred {
        Some(c) => cond_ok(c, layout),
        None => true,
    }
    &&& match sel {
        Some(v) => names_known(layout, v),
        None => true,
    }
    &&& match order {
        Some(v) => names_known(out_atts(layout, sel), v),
        None => true,
    }
}

/// Every name is that of some attribute.
pub open spec fn names_known(atts: Seq<Attribute>, names: Seq<String>) -> bool {
    forall|k: int| 0 <= k < names.len() ==> has_name(atts, (#[trigger] names[k])@)
}

/// The scan of table `i`, or an empty table scan when it has no data path.
fn scan_node(schemas: &Vec<Schema>, i: usize) -> (r: RelOp)
    requires
        i < schemas@.len(),
    ensures
        forall|tables: Seq<Seq<Seq<Cell>>>| #[trigger] op_output(r, tables) == scan_of(tables, schemas@, i as int),
{
    if schemas[i].get_f_path().is_empty() {
        RelOp::EmptyTableScan
    } else {
        RelOp::Scan(i)
    }
}

proof fn lemma_layout_bound(schemas: Seq<Schema>, ids: Seq<usize>, k: int, b: int)
    requires
        0 <= k <= ids.len(),
        b >= 0,
        forall|j: int| 0 <= j < ids.len() ==> ids[j] < schemas.len(),
        forall|i: int| 0 <= i < schemas.len() ==> (#[trigger] schemas[i]).atts().len() <= b,
    ensures
        layout_of(permuted(schemas, ids), k).len() <= k * b,
    decreases k,
{
    if k > 0 {
        lemma_layout_bound(schemas, ids, k - 1, b);
        assert(permuted(schemas, ids)[k - 1] == schemas[ids[k - 1] as int]);
        assert((k - 1) * b + b == k * b) by (nonlinear_arith);
    }
}

proof fn lemma_select_sem(s: Seq<Seq<Cell>>, pred: (Seq<Seq<crate::comparison::Comparison>>, bool), consts: Seq<Cell>, f: spec_fn(Seq<Cell>) -> bool)
    requires
        forall|r: Seq<Cell>| #[trigger] cnf_eval(pred, r, consts) == f(r),
    ensures
        select_spec(s, pred, consts) == filter_sem(s, f),
    decreases s.len(),
{
    if s.len() > 0 {
        lemma_select_sem(s.drop_last(), pred, consts, f);
        assert(cnf_eval(pred, s.last(), consts) == f(s.last()));
    }
}

proof fn lemma_join_row_sem(l: Seq<Cell>, rs: Seq<Seq<Cell>>, pred: (Seq<Seq<crate::comparison::Comparison>>, bool), f: spec_fn(Seq<Cell>, Seq<Cell>) -> bool)
    requires
        forall|a: Seq<Cell>, b: Seq<Cell>| #[trigger] cnf_eval(pred, a, b) == f(a, b),
    ensures
        join_row(l, rs, pred) == join_row_sem(l, rs, f),
    decreases rs.len(),
{
    if rs.len() > 0 {
        lemma_join_row_sem(l, rs.drop_last(), pred, f);
        assert(cnf_eval(pred, l, rs.last()) == f(l, rs.last()));
    }
}

proof fn lemma_join_sem(ls: Seq<Seq<Cell>>, rs: Seq<Seq<Cell>>, pred: (Seq<Seq<crate::comparison::Comparison>>, bool), f: spec_fn(Seq<Cell>, Seq<Cell>) -> bool)
    requires
        forall|a: Seq<Cell>, b: Seq<Cell>| #[trigger] cnf_eval(pred, a, b) == f(a, b),
    ensures
        join_spec(ls, rs, pred) == join_sem(ls, rs, f),
    decreases ls.len(),
{
    if ls.len() > 0 {
        lemma_join_sem(ls.drop_last(), rs, pred, f);
        lemma_join_row_sem(ls.last(), rs, pred, f);
    }
}

proof fn lemma_layout_grows(schemas: Seq<Schema>, k: int, n: int)
    requires
        0 <= k <= n <= schemas.len(),
    ensures
        layout_of(schemas, k).len() <= layout_of(schemas, n).len(),
        k < n ==> schemas[k].atts().len() <= layout_of(schemas, n).len(),
    decreases n - k,
{
    if k < n {
        lemma_layout_grows(schemas, k + 1, n);
    }
}

/// Builds the plan of a query over tables with the given schemas, joined
/// in the order `join_order` (table `join_order[0]` first): a scan of each
/// table (an empty table scan when it has no data path), joined in a
/// left-deep chain of nested-loop joins whose predicates join on the names
/// shared with the next table, then the WHERE clause as a
/// selection, the projection on the selected names (left out when it keeps
/// every column in place), duplicate elimination for DISTINCT, and the
/// sort for ORDER BY. Fails when the WHERE clause does not compile or a
/// selected or ordering name is unknown.
pub fn plan_query_in_order(
    schemas: &Vec<Schema>,
    join_order: &Vec<usize>,
    atts_to_select: &Option<Vec<String>>,
    predicate: &Option<CondExpr>,
    distinct_atts: bool,
    order: &Option<(Vec<String>, bool)>,
) -> (r: Result<QueryExecutionTree, Error>)
    requires
        join_order@.len() >= 1,
        forall|k: int| 0 <= k < join_order@.len() ==> join_order@[k] < schemas@.len(),
        layout_of(permuted(schemas@, join_order@), join_order@.len() as int).len() <= i32::MAX,
        forall|i: int| 0 <= i < schemas@.len() ==> (#[trigger] schemas@[i]).wf(),
        match predicate {
            Some(c) => literal_count(*c) < i32::MAX,
            None => true,
        },
        match atts_to_select {
            Some(v) => v@.len() <= i32::MAX,
            None => true,
        },
        match order {
            Some((v, _)) => v@.len() <= i32::MAX,
            None => true,
        },
    ensures
        r is Ok <==> plan_ok(
            layout_of(permuted(schemas@, join_order@), join_order@.len() as int),
            match atts_to_select {
                Some(v) => Some(v@),
                None => None,
            },
            *predicate,
            match order {
                Some((v, _)) => Some(v@),
                None => None,
            },
        ),
        r is Ok ==> forall|tables: Seq<Seq<Seq<Cell>>>|
            #[trigger] op_output(r->Ok_0.root, tables) == query_output(
                permuted_scans(tables, schemas@, join_order@),
                permuted(schemas@, join_order@),
                match atts_to_select {
                    Some(v) => Some(v@),
                    None => None,
                },
                *predicate,
                distinct_atts,
            ),
        r is Ok ==> r->Ok_0.join_order@ == join_order@,
        r is Ok ==> match order {
            None => r->Ok_0.ordering is None,
            Some((v, asc)) => r->Ok_0.ordering is Some && r->Ok_0.ordering->Some_0.1 == asc
                && r->Ok_0.ordering->Some_0.0.atts@ == order_keys(
                out_atts(
                    layout_of(permuted(schemas@, join_order@), join_order@.len() as int),
                    match atts_to_select {
                        Some(v) => Some(v@),
                        None => None,
                    },
                ),
                v@,
            ),
        },
{
    let ghost n = join_order@.len() as int;
    let ghost sv = permuted(schemas@, join_order@);
    let ghost ids = join_order@;
    let mut layout = schemas[join_order[0]].duplicate();
    let mut root = scan_node(schemas, join_order[0]);
    assert(sv[0] == schemas@[ids[0] as int]);
    assert forall|tables: Seq<Seq<Seq<Cell>>>| #[trigger] op_output(root, tables) == chain_spec(
        permuted_scans(tables, schemas@, ids),
        sv,
        1,
    ) by {
        assert(permuted_scans(tables, schemas@, ids)[0] == scan_of(tables, schemas@, ids[0] as int));
    }
    proof {
        assert(layout_of(sv, 1) =~= layout_of(sv, 0) + sv[0].atts());
        assert(layout_of(sv, 0) =~= Seq::<Attribute>::empty());
        assert(layout.atts() =~= layout_of(sv, 1));
    }
    let mut i: usize = 1;
    while i < join_order.len()
        invariant
            1 <= i <= n,
            n == join_order@.len(),
            ids == join_order@,
            sv == permuted(schemas@, ids),
            forall|k: int| 0 <= k < n ==> ids[k] < schemas@.len(),
            layout_of(sv, n).len() <= i32::MAX,
            forall|j: int| 0 <= j < schemas@.len() ==> (#[trigger] schemas@[j]).wf(),
            layout.atts() == layout_of(sv, i as int),
            layout.wf(),
            forall|tables: Seq<Seq<Seq<Cell>>>| #[trigger] op_output(root, tables) == chain_spec(
                permuted_scans(tables, schemas@, ids),
                sv,
                i as int,
            ),
        decreases n - i,
    {
        proof {
            lemma_layout_grows(sv, i as int, n);
        }
        assert(sv[i as int] == schemas@[ids[i as int] as int]);
        let next = &schemas[join_order[i]];
        let pred = Cnf::extract_equijoin(&layout, next);
        let ghost lay = layout.atts();
        let ghost si = sv[i as int].atts();
        let ghost f = |l: Seq<Cell>, r: Seq<Cell>| equijoin_holds(layout_of(sv, i as int), sv[i as int].atts(), l, r);
        let ghost old_root = root;
        let scan = scan_node(schemas, join_order[i]);
        let ghost sc = scan;
        root = RelOp::NestedLoopJoin { predicate: pred, left_producer: Box::new(root), right_producer: Box::new(scan) };
        assert forall|tables: Seq<Seq<Seq<Cell>>>| #[trigger] op_output(root, tables) == chain_spec(
            permuted_scans(tables, schemas@, ids),
            sv,
            i + 1,
        ) by {
            let pt = permuted_scans(tables, schemas@, ids);
            assert forall|a: Seq<Cell>, b: Seq<Cell>| #[trigger] cnf_eval(pred@, a, b) == f(a, b) by {}
            lemma_join_sem(op_output(old_root, tables), op_output(sc, tables), pred@, f);
            assert(pt[i as int] == scan_of(tables, schemas@, ids[i as int] as int));
            assert(scan_out(pt, i as int) == pt[i as int]);
        }
        layout.concat(next);
        i += 1;
    }
    let ghost lay = layout_of(sv, n);
    if let Some(c) = predicate {
        let (cnf, consts) = compile_condition(c, &layout)?;
        let ghost old_root = root;
        let ghost f = |r: Seq<Cell>| cond_holds(*c, lay, r);
        root = RelOp::Select { predicate: cnf, constants: consts, producer: Box::new(root) };
        assert forall|tables: Seq<Seq<Seq<Cell>>>| #[trigger] op_output(root, tables) == filter_sem(chain_spec(permuted_scans(tables, schemas@, ids), sv, n), f) by {
            lemma_select_sem(op_output(old_root, tables), cnf@, consts@, f);
        }
    }
    let ghost sel_v: Option<Seq<String>> = match atts_to_select {
        Some(v) => Some(v@),
        None => None,
    };
    assert(match predicate {
        Some(c) => cond_ok(*c, lay),
        None => true,
    });
    let ghost filtered = |tables: Seq<Seq<Seq<Cell>>>| match *predicate {
        None => chain_spec(permuted_scans(tables, schemas@, ids), sv, n),
        Some(c) => filter_sem(chain_spec(permuted_scans(tables, schemas@, ids), sv, n), |r: Seq<Cell>| cond_holds(c, lay, r)),
    };
    assert forall|tables: Seq<Seq<Seq<Cell>>>| #[trigger] op_output(root, tables) == filtered(tables) by {}
    let ghost projected = |tables: Seq<Seq<Seq<Cell>>>| match sel_v {
        None => filtered(tables),
        Some(names) => if is_identity(keep_of(lay, names), lay.len() as int) {
            filtered(tables)
        } else {
            project_spec(filtered(tables), keep_of(lay, names))
        },
    };
    let mut out_schema = layout.duplicate();
    if atts_to_select.is_none() {
        assert forall|tables: Seq<Seq<Seq<Cell>>>| #[trigger] op_output(root, tables) == projected(tables) by {}
    }
    if let Some(names) = atts_to_select {
        let mut keep: Vec<i32> = Vec::new();
        let mut identity = names.len() == layout.get_num_atts();
        let mut k: usize = 0;
        while k < names.len()
            invariant
                0 <= k <= names@.len(),
                names@.len() <= i32::MAX,
                layout.atts() == lay,
                lay.len() <= i32::MAX,
                keep@ == keep_of(lay, names@).take(k as int),
                forall|j: int| 0 <= j < k ==> has_name(lay, (#[trigger] names@[j])@),
                lay == layout_of(permuted(schemas@, join_order@), join_order@.len() as int),
                *atts_to_select is Some,
                (*atts_to_select)->Some_0@ == names@,
                identity == (names@.len() == lay.len() && forall|j: int| 0 <= j < k ==> keep_of(lay, names@)[j] == j),
            decreases names@.len() - k,
        {
            match layout.index_of(names[k].as_str()) {
                Some(p) => {
                    proof {
                        crate::schema::lemma_index_in(lay, names@[k as int]@);
                    }
                    keep.push(p as i32);
                    assert(keep@ =~= keep_of(lay, names@).take(k + 1));
                    assert(keep_of(lay, names@)[k as int] == p as i32);
                    if p != k {
                        identity = false;
                    }
                },
                None => {
                    assert(!has_name(lay, names@[k as int]@));
                    assert(!(forall|j: int| 0 <= j < names@.len() ==> has_name(lay, (#[trigger] names@[j])@)));
                    assert(!names_known(lay, names@));
                    return Err(Error::General);
                },
            }
            k += 1;
        }
        assert(keep@ =~= keep_of(lay, names@));
        assert(identity == is_identity(keep_of(lay, names@), lay.len() as int));
        let mut s2 = layout.duplicate();
        proof {
            assert forall|j: int| 0 <= j < keep@.len() implies 0 <= #[trigger] keep@[j] < s2.atts().len() by {
                crate::schema::lemma_index_in(lay, names@[j]@);
            }
        }
        let _ = s2.project(keep.as_slice());
        assert forall|j: int| 0 <= j < names@.len() implies #[trigger] s2.atts()[j] == out_atts(lay, Some(names@))[j] by {
            crate::schema::lemma_index_in(lay, names@[j]@);
            assert(keep@[j] == index_in(lay, names@[j]@) as i32);
        }
        assert(s2.atts() =~= out_atts(lay, Some(names@)));
        let ghost before_root = root;
        if !identity {
            root = RelOp::Project { atts_to_keep: keep, producer: Box::new(root) };
        }
        assert forall|tables: Seq<Seq<Seq<Cell>>>| #[trigger] op_output(root, tables) == projected(tables) by {
            assert(op_output(before_root, tables) == filtered(tables));
        }
        out_schema = s2;
    }
    assert(match atts_to_select {
        Some(v) => forall|k: int| 0 <= k < v@.len() ==> has_name(lay, (#[trigger] v@[k])@),
        None => true,
    });
    assert(out_schema.atts() == out_atts(lay, sel_v));
    let ghost before_d = root;
    if distinct_atts {
        root = RelOp::DupElim(Box::new(root));
    }
    assert forall|tables: Seq<Seq<Seq<Cell>>>| #[trigger] op_output(root, tables) == query_output(
        permuted_scans(tables, schemas@, ids),
        sv,
        sel_v,
        *predicate,
        distinct_atts,
    ) by {
        assert(op_output(before_d, tables) == projected(tables));
        assert(filtered(tables) == match *predicate {
            None => chain_spec(permuted_scans(tables, schemas@, ids), sv, n),
            Some(c) => filter_sem(chain_spec(permuted_scans(tables, schemas@, ids), sv, n), |r: Seq<Cell>| cond_holds(c, lay, r)),
        });
    }
    let ordering = match order {
        None => None,
        Some((names, asc)) => {
            let ghost outs = out_schema.atts();
            let mut keys: Vec<(i32, Type)> = Vec::new();
            let mut k: usize = 0;
            while k < names.len()
                invariant
                    0 <= k <= names@.len(),
                    out_schema.atts() == outs,
                    outs.len() <= i32::MAX,
                    keys@ == order_keys(outs, names@).take(k as int),
                    outs == out_atts(
                        layout_of(permuted(schemas@, join_order@), join_order@.len() as int),
                        match atts_to_select {
                            Some(v) => Some(v@),
                            None => None,
                        },
                    ),
                    *order is Some,
                    (*order)->Some_0.0@ == names@,
                    forall|j: int| 0 <= j < k ==> has_name(outs, (#[trigger] names@[j])@),
                decreases names@.len() - k,
            {
                match out_schema.index_of(names[k].as_str()) {
                    Some(p) => {
                        proof {
                            crate::schema::lemma_index_in(outs, names@[k as int]@);
                        }
                        keys.push((p as i32, out_schema.get_atts()[p].type_));
                        assert(keys@ =~= order_keys(outs, names@).take(k + 1));
                    },
                    None => {
                        assert(!has_name(outs, names@[k as int]@));
                        assert(!(forall|j: int| 0 <= j < names@.len() ==> has_name(outs, (#[trigger] names@[j])@)));
                        assert(!names_known(outs, names@));
                        return Err(Error::General);
                    },
                }
                k += 1;
            }
            assert(keys@ =~= order_keys(outs, names@));
            Some((OrderMaker { atts: keys }, *asc))
        },
    };
    Ok(QueryExecutionTree { root, ordering, join_order: copy_order(join_order) })
}

/// Builds the plan of a query, joining the tables in an order of least
/// estimated cost (`optimal_join_order`); see `plan_query_in_order`.
pub fn plan_query(
    schemas: &Vec<Schema>,
    atts_to_select: &Option<Vec<String>>,
    predicate: &Option<CondExpr>,
    distinct_atts: bool,
    order: &Option<(Vec<String>, bool)>,
) -> (r: Result<QueryExecutionTree, Error>)
    requires
        1 <= schemas@.len() <= 0xFFFF_FFFF,
        forall|i: int| 0 <= i < schemas@.len() ==> (#[trigger] schemas@[i]).wf(),
        forall|i: int| 0 <= i < schemas@.len() ==> schemas@.len() * (#[trigger] schemas@[i]).atts().len() <= i32::MAX,
        match predicate {
            Some(c) => literal_count(*c) < i32::MAX,
            None => true,
        },
        match atts_to_select {
            Some(v) => v@.len() <= i32::MAX,
            None => true,
        },
        match order {
            Some((v, _)) => v@.len() <= i32::MAX,
            None => true,
        },
    ensures
        exists|ids: Seq<usize>|
            #![trigger is_perm(ids, schemas@.len())]
            {
                let sel = match atts_to_select {
                    Some(v) => Some(v@),
                    None => None,
                };
                let ord = match order {
                    Some((v, _)) => Some(v@),
                    None => None,
                };
                let ps = permuted(schemas@, ids);
                let layout = layout_of(ps, ids.len() as int);
                &&& is_perm(ids, schemas@.len())
                &&& forall|p: Seq<usize>| is_perm(p, schemas@.len()) ==> order_cost(schemas@, ids) <= #[trigger] order_cost(schemas@, p)
                &&& (r is Ok <==> plan_ok(layout, sel, *predicate, ord))
                &&& (r is Ok ==> r->Ok_0.join_order@ == ids)
                &&& (r is Ok ==> forall|tables: Seq<Seq<Seq<Cell>>>|
                    #[trigger] op_output(r->Ok_0.root, tables) == query_output(
                        permuted_scans(tables, schemas@, ids),
                        ps,
                        sel,
                        *predicate,
                        distinct_atts,
                    ))
                &&& (r is Ok ==> match order {
                    None => r->Ok_0.ordering is None,
                    Some((v, asc)) => r->Ok_0.ordering is Some && r->Ok_0.ordering->Some_0.1 == asc
                        && r->Ok_0.ordering->Some_0.0.atts@ == order_keys(out_atts(layout, sel), v@),
                })
            },
{
    let ids = optimal_join_order(schemas);
    let ghost n = schemas@.len() as int;
    proof {
        let b = (i32::MAX as int) / n;
        assert forall|i: int| 0 <= i < schemas@.len() implies (#[trigger] schemas@[i]).atts().len() <= b by {
            let a = schemas@[i].atts().len() as int;
            assert(n * a <= i32::MAX);
            assert(a <= (i32::MAX as int) / n) by (nonlinear_arith)
                requires n * a <= i32::MAX, n >= 1, a >= 0;
        }
        lemma_layout_bound(schemas@, ids@, n, b);
        assert(n * b <= i32::MAX) by (nonlinear_arith)
            requires b == (i32::MAX as int) / n, n >= 1;
    }
    let r = plan_query_in_order(schemas, &ids, atts_to_select, predicate, distinct_atts, order);
    proof {
        let sel = match atts_to_select {
            Some(v) => Some(v@),
            None => None,
        };
        let ord = match order {
            Some((v, _)) => Some(v@),
            None => None,
        };
        let layout = layout_of(permuted(schemas@, ids@), ids@.len() as int);
        assert(r is Ok <==> plan_ok(layout, sel, *predicate, ord));
    }
    r
}

} // verus!
