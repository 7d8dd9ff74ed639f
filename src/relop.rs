use vstd::multiset::Multiset;
use vstd::prelude::*;

use crate::cnf::{cnf_eval, Cnf};
use crate::comparison::Order;
use crate::order_maker::{keys_order, OrderMaker};
use crate::record::{project_cells, Cell, Record};

verus! {

/// The contents of a sequence of records.
pub open spec fn recs_view(v: Seq<Record>) -> Seq<Seq<Cell>> {
    v.map_values(|r: Record| r@)
}

/// The records on which the predicate holds, with `constants` as the
/// right record, in order.
pub open spec fn select_spec(s: Seq<Seq<Cell>>, pred: (Seq<Seq<crate::comparison::Comparison>>, bool), constants: Seq<Cell>) -> Seq<Seq<Cell>>
    decreases s.len(),
{
    if s.len() == 0 {
        Seq::empty()
    } else {
        let p = select_spec(s.drop_last(), pred, constants);
        if cnf_eval(pred, s.last(), constants) {
            p.push(s.last())
        } else {
            p
        }
    }
}

/// Whether every position of `keep` lies within the record.
pub open spec fn keep_fits(r: Seq<Cell>, keep: Seq<i32>) -> bool {
    forall|k: int| 0 <= k < keep.len() ==> 0 <= #[trigger] keep[k] < r.len()
}

/// The projections of the records, in order, up to the first record that
/// a position does not fit.
pub open spec fn project_spec(s: Seq<Seq<Cell>>, keep: Seq<i32>) -> Seq<Seq<Cell>>
    decreases s.len(),
{
    if s.len() == 0 || !keep_fits(s[0], keep) {
        Seq::empty()
    } else {
        seq![project_cells(s[0], keep)] + project_spec(s.skip(1), keep)
    }
}

/// For each left record in order, its concatenation with each right record
/// in order on which the predicate holds.
pub open spec fn join_row(l: Seq<Cell>, rs: Seq<Seq<Cell>>, pred: (Seq<Seq<crate::comparison::Comparison>>, bool)) -> Seq<Seq<Cell>>
    decreases rs.len(),
{
    if rs.len() == 0 {
        Seq::empty()
    } else {
        let p = join_row(l, rs.drop_last(), pred);
        if cnf_eval(pred, l, rs.last()) {
            p.push(l + rs.last())
        } else {
            p
        }
    }
}

pub open spec fn join_spec(ls: Seq<Seq<Cell>>, rs: Seq<Seq<Cell>>, pred: (Seq<Seq<crate::comparison::Comparison>>, bool)) -> Seq<Seq<Cell>>
    decreases ls.len(),
{
    if ls.len() == 0 {
        Seq::empty()
    } else {
        join_spec(ls.drop_last(), rs, pred) + join_row(ls.last(), rs, pred)
    }
}

/// The records that `seen` lacks, each once, in order of first occurrence.
pub open spec fn dedup_spec(seen: Seq<Seq<Cell>>, s: Seq<Seq<Cell>>) -> Seq<Seq<Cell>>
    decreases s.len(),
{
    if s.len() == 0 {
        Seq::empty()
    } else if seen.contains(s[0]) {
        dedup_spec(seen, s.skip(1))
    } else {
        seq![s[0]] + dedup_spec(seen.push(s[0]), s.skip(1))
    }
}

/// The first record of each run of records that the ordering deems equal
/// to the run's first.
pub open spec fn group_spec(rep: Option<Seq<Cell>>, s: Seq<Seq<Cell>>, keys: Seq<(i32, crate::types::Type)>) -> Seq<Seq<Cell>>
    decreases s.len(),
{
    if s.len() == 0 {
        Seq::empty()
    } else {
        match rep {
            Some(r) => if keys_order(keys, keys, r, s[0]) == Order::Equal {
                group_spec(rep, s.skip(1), keys)
            } else {
                seq![s[0]] + group_spec(Some(s[0]), s.skip(1), keys)
            },
            None => seq![s[0]] + group_spec(Some(s[0]), s.skip(1), keys),
        }
    }
}

/// Whether `a` comes strictly before `b` in the requested direction.
pub open spec fn before(keys: Seq<(i32, crate::types::Type)>, ascending: bool, a: Seq<Cell>, b: Seq<Cell>) -> bool {
    keys_order(keys, keys, a, b) == if ascending { Order::Less } else { Order::Greater }
}

/// `before` is transitive on the records of `s`.
pub open spec fn before_transitive(keys: Seq<(i32, crate::types::Type)>, ascending: bool, s: Seq<Seq<Cell>>) -> bool {
    forall|a: Seq<Cell>, b: Seq<Cell>, c: Seq<Cell>|
        s.contains(a) && s.contains(b) && s.contains(c) && #[trigger] before(keys, ascending, a, b) && #[trigger] before(
            keys,
            ascending,
            b,
            c,
        ) ==> before(keys, ascending, a, c)
}

/// No record comes strictly before an earlier one.
pub open spec fn sorted_by(keys: Seq<(i32, crate::types::Type)>, ascending: bool, s: Seq<Seq<Cell>>) -> bool {
    forall|i: int, j: int| 0 <= i < j < s.len() ==> !#[trigger] before(keys, ascending, s[j], s[i])
}

/// The records of `input` on which `predicate` holds, with `constants`
/// as the right record.
pub fn select(predicate: &Cnf, constants: &Record, input: &Vec<Record>) -> (r: Vec<Record>)
    ensures
        recs_view(r@) == select_spec(recs_view(input@), predicate@, constants@),
{
    let ghost s = recs_view(input@);
    let mut out: Vec<Record> = Vec::new();
    let mut i: usize = 0;
    assert(recs_view(out@) =~= Seq::<Seq<Cell>>::empty());
    while i < input.len()
        invariant
            0 <= i <= input@.len(),
            s == recs_view(input@),
            recs_view(out@) == select_spec(s.take(i as int), predicate@, constants@),
        decreases input@.len() - i,
    {
        assert(s.take(i + 1).drop_last() =~= s.take(i as int));
        assert(s[i as int] == input@[i as int]@);
        if predicate.run(&input[i], constants) {
            let ghost before_v = recs_view(out@);
            let rec = input[i].duplicate();
            out.push(rec);
            assert(recs_view(out@) =~= before_v.push(s[i as int]));
        }
        i += 1;
    }
    assert(s.take(i as int) =~= s);
    out
}

/// Each record projected on `atts_to_keep`, in order, stopping at the first
/// record that a position does not fit.
pub fn project(atts_to_keep: &[i32], input: &Vec<Record>) -> (r: Vec<Record>)
    ensures
        recs_view(r@) == project_spec(recs_view(input@), atts_to_keep@),
{
    let ghost s = recs_view(input@);
    let mut out: Vec<Record> = Vec::new();
    let mut i: usize = 0;
    assert(s.skip(0) =~= s);
    assert(recs_view(out@) =~= Seq::<Seq<Cell>>::empty());
    while i < input.len()
        invariant
            0 <= i <= input@.len(),
            s == recs_view(input@),
            recs_view(out@) + project_spec(s.skip(i as int), atts_to_keep@) == project_spec(s, atts_to_keep@),
        decreases input@.len() - i,
    {
        let mut rec = input[i].duplicate();
        assert(s.skip(i as int)[0] == input@[i as int]@);
        assert(s.skip(i as int).skip(1) =~= s.skip(i + 1));
        match rec.project(atts_to_keep) {
            Some(()) => {
                let ghost before_v = recs_view(out@);
                let ghost pr = rec@;
                out.push(rec);
                assert(recs_view(out@) =~= before_v.push(pr));
                assert(before_v.push(pr) + project_spec(s.skip(i + 1), atts_to_keep@) =~= before_v + (seq![pr]
                    + project_spec(s.skip(i + 1), atts_to_keep@)));
            },
            None => {
                assert(recs_view(out@) =~= recs_view(out@) + project_spec(s.skip(i as int), atts_to_keep@));
                return out;
            },
        }
        i += 1;
    }
    assert(recs_view(out@) =~= recs_view(out@) + project_spec(s.skip(i as int), atts_to_keep@));
    out
}

/// Every left record joined with every right record on which the
/// predicate holds, left-major.
pub fn nested_loop_join(predicate: &Cnf, left: &Vec<Record>, right: &Vec<Record>) -> (r: Vec<Record>)
    ensures
        recs_view(r@) == join_spec(recs_view(left@), recs_view(right@), predicate@),
{
    let ghost ls = recs_view(left@);
    let ghost rs = recs_view(right@);
    let mut out: Vec<Record> = Vec::new();
    let mut i: usize = 0;
    assert(recs_view(out@) =~= Seq::<Seq<Cell>>::empty());
    while i < left.len()
        invariant
            0 <= i <= left@.len(),
            ls == recs_view(left@),
            rs == recs_view(right@),
            recs_view(out@) == join_spec(ls.take(i as int), rs, predicate@),
        decreases left@.len() - i,
    {
        let ghost prefix = recs_view(out@);
        assert(ls[i as int] == left@[i as int]@);
        let mut j: usize = 0;
        assert(rs.take(0) =~= Seq::<Seq<Cell>>::empty());
        assert(prefix =~= prefix + join_row(ls[i as int], rs.take(0), predicate@));
        while j < right.len()
            invariant
                0 <= i < left@.len(),
                0 <= j <= right@.len(),
                ls == recs_view(left@),
                rs == recs_view(right@),
                recs_view(out@) == prefix + join_row(ls[i as int], rs.take(j as int), predicate@),
            decreases right@.len() - j,
        {
            assert(rs.take(j + 1).drop_last() =~= rs.take(j as int));
            assert(rs[j as int] == right@[j as int]@);
            assert(ls[i as int] == left@[i as int]@);
            if predicate.run(&left[i], &right[j]) {
                let mut joined = left[i].duplicate();
                joined.merge_right(&right[j]);
                let ghost before_v = recs_view(out@);
                let ghost jv = joined@;
                out.push(joined);
                assert(recs_view(out@) =~= before_v.push(jv));
                assert(prefix + join_row(ls[i as int], rs.take(j + 1), predicate@) =~= (prefix + join_row(
                    ls[i as int],
                    rs.take(j as int),
                    predicate@,
                )).push(jv));
            }
            j += 1;
        }
        assert(rs.take(j as int) =~= rs);
        assert(ls.take(i + 1).drop_last() =~= ls.take(i as int));
        i += 1;
    }
    assert(ls.take(i as int) =~= ls);
    out
}

fn contains_record(seen: &Vec<Record>, r: &Record) -> (b: bool)
    ensures
        b == recs_view(seen@).contains(r@),
{
    let mut k: usize = 0;
    while k < seen.len()
        invariant
            0 <= k <= seen@.len(),
            forall|j: int| 0 <= j < k ==> recs_view(seen@)[j] != r@,
        decreases seen@.len() - k,
    {
        if seen[k].same_as(r) {
            assert(recs_view(seen@)[k as int] == r@);
            return true;
        }
        k += 1;
    }
    false
}

/// The records of `input`, each once, in order of first occurrence.
pub fn dup_elim(input: &Vec<Record>) -> (r: Vec<Record>)
    ensures
        recs_view(r@) == dedup_spec(Seq::empty(), recs_view(input@)),
{
    let ghost s = recs_view(input@);
    let mut seen: Vec<Record> = Vec::new();
    let mut i: usize = 0;
    assert(s.skip(0) =~= s);
    assert(recs_view(seen@) =~= Seq::<Seq<Cell>>::empty());
    while i < input.len()
        invariant
            0 <= i <= input@.len(),
            s == recs_view(input@),
            recs_view(seen@) + dedup_spec(recs_view(seen@), s.skip(i as int)) == dedup_spec(Seq::empty(), s),
        decreases input@.len() - i,
    {
        assert(s.skip(i as int)[0] == input@[i as int]@);
        assert(s.skip(i as int).skip(1) =~= s.skip(i + 1));
        if !contains_record(&seen, &input[i]) {
            let ghost before_v = recs_view(seen@);
            let rec = input[i].duplicate();
            seen.push(rec);
            assert(recs_view(seen@) =~= before_v.push(s[i as int]));
            assert(before_v.push(s[i as int]) + dedup_spec(before_v.push(s[i as int]), s.skip(i + 1)) =~= before_v
                + (seq![s[i as int]] + dedup_spec(before_v.push(s[i as int]), s.skip(i + 1))));
        }
        i += 1;
    }
    assert(recs_view(seen@) =~= recs_view(seen@) + dedup_spec(recs_view(seen@), s.skip(i as int)));
    seen
}

/// The first record of each run of records equal, under `grouping`, to the
/// run's first one.
pub fn group_by(grouping: &OrderMaker, input: &Vec<Record>) -> (r: Vec<Record>)
    ensures
        recs_view(r@) == group_spec(None, recs_view(input@), grouping.atts@),
{
    let ghost s = recs_view(input@);
    let ghost keys = grouping.atts@;
    let mut out: Vec<Record> = Vec::new();
    let mut i: usize = 0;
    assert(s.skip(0) =~= s);
    assert(recs_view(out@) =~= Seq::<Seq<Cell>>::empty());
    while i < input.len()
        invariant
            0 <= i <= input@.len(),
            s == recs_view(input@),
            keys == grouping.atts@,
            out@.len() == 0 ==> i == 0,
            recs_view(out@) + group_spec(
                if out@.len() == 0 { None } else { Some(recs_view(out@).last()) },
                s.skip(i as int),
                keys,
            ) == group_spec(None, s, keys),
        decreases input@.len() - i,
    {
        assert(s.skip(i as int)[0] == input@[i as int]@);
        assert(s.skip(i as int).skip(1) =~= s.skip(i + 1));
        let ghost before_v = recs_view(out@);
        let fresh = if out.len() == 0 {
            true
        } else {
            let last = out.len() - 1;
            assert(recs_view(out@).last() == out@[last as int]@);
            grouping.run(&out[last], &input[i]) != Order::Equal
        };
        if fresh {
            let rec = input[i].duplicate();
            out.push(rec);
            assert(recs_view(out@) =~= before_v.push(s[i as int]));
            assert(before_v.push(s[i as int]) + group_spec(Some(s[i as int]), s.skip(i + 1), keys) =~= before_v + (
            seq![s[i as int]] + group_spec(Some(s[i as int]), s.skip(i + 1), keys)));
        }
        i += 1;
    }
    assert(recs_view(out@) =~= recs_view(out@) + group_spec(
        if out@.len() == 0 { None } else { Some(recs_view(out@).last()) },
        s.skip(i as int),
        keys,
    ));
    out
}

proof fn lemma_dedup_twice(seen: Seq<Seq<Cell>>, s: Seq<Seq<Cell>>)
    ensures
        dedup_spec(seen, dedup_spec(seen, s)) == dedup_spec(seen, s),
    decreases s.len(),
{
    if s.len() > 0 {
        if seen.contains(s[0]) {
            lemma_dedup_twice(seen, s.skip(1));
        } else {
            let rest = dedup_spec(seen.push(s[0]), s.skip(1));
            lemma_dedup_twice(seen.push(s[0]), s.skip(1));
            let d = seq![s[0]] + rest;
            assert(d[0] == s[0]);
            assert(d.skip(1) =~= rest);
        }
    }
}

/// Eliminating duplicates twice gives what eliminating them once does.
pub proof fn lemma_dup_elim_idempotent(s: Seq<Seq<Cell>>)
    ensures
        dedup_spec(Seq::empty(), dedup_spec(Seq::empty(), s)) == dedup_spec(Seq::empty(), s),
{
    lemma_dedup_twice(Seq::empty(), s);
}

proof fn lemma_bytes_order_refl(a: Seq<u8>)
    ensures
        crate::comparison::bytes_order(a, a) == Order::Equal,
    decreases a.len(),
{
    if a.len() > 0 {
        lemma_bytes_order_refl(a.skip(1));
    }
}

/// A record never comes strictly before itself.
proof fn lemma_keys_order_refl(keys: Seq<(i32, crate::types::Type)>, a: Seq<Cell>)
    ensures
        keys_order(keys, keys, a, a) == Order::Equal,
    decreases keys.len(),
{
    if keys.len() > 0 {
        let c = crate::cnf::cell_at(a, keys[0].0 as int);
        match c {
            Some(Cell::Str(x)) => lemma_bytes_order_refl(x),
            _ => {},
        }
        lemma_keys_order_refl(keys.skip(1), a);
    }
}

/// Position in `rem` of a record before which no other comes, found by a
/// scan (exact when `before` is transitive on `rem`).
fn pick_first(ordering: &OrderMaker, ascending: bool, rem: &Vec<Record>) -> (m: usize)
    requires
        rem@.len() > 0,
    ensures
        m < rem@.len(),
        before_transitive(ordering.atts@, ascending, recs_view(rem@)) ==> forall|y: int|
            0 <= y < rem@.len() ==> !#[trigger] before(ordering.atts@, ascending, recs_view(rem@)[y], recs_view(rem@)[m as int]),
{
    let ghost s = recs_view(rem@);
    let ghost keys = ordering.atts@;
    let want = if ascending { Order::Less } else { Order::Greater };
    let mut m: usize = 0;
    let mut y: usize = 1;
    proof {
        lemma_keys_order_refl(keys, s[0]);
    }
    while y < rem.len()
        invariant
            0 < y <= rem@.len(),
            m < y,
            s == recs_view(rem@),
            keys == ordering.atts@,
            want == if ascending { Order::Less } else { Order::Greater },
            before_transitive(keys, ascending, s) ==> forall|z: int| 0 <= z < y ==> !#[trigger] before(keys, ascending, s[z], s[m as int]),
        decreases rem@.len() - y,
    {
        assert(s[y as int] == rem@[y as int]@);
        assert(s[m as int] == rem@[m as int]@);
        if ordering.run(&rem[y], &rem[m]) == want {
            assert(before(keys, ascending, s[y as int], s[m as int]));
            proof {
                if before_transitive(keys, ascending, s) {
                    assert forall|z: int| 0 <= z < y + 1 implies !#[trigger] before(keys, ascending, s[z], s[y as int]) by {
                        if z < y && before(keys, ascending, s[z], s[y as int]) {
                            assert(s.contains(s[z]) && s.contains(s[y as int]) && s.contains(s[m as int]));
                            assert(before(keys, ascending, s[z], s[m as int]));
                        }
                        if z == y {
                            lemma_keys_order_refl(keys, s[z]);
                        }
                    }
                }
            }
            m = y;
        }
        y += 1;
    }
    m
}

/// The records of `input` reordered by `ordering`, ascending or
/// descending. The result is always a permutation of the input, and it is
/// sorted whenever the ordering is transitive on the input's records.
pub fn order_by(ordering: &OrderMaker, ascending: bool, input: &Vec<Record>) -> (r: Vec<Record>)
    ensures
        recs_view(r@).to_multiset() == recs_view(input@).to_multiset(),
        before_transitive(ordering.atts@, ascending, recs_view(input@)) ==> sorted_by(
            ordering.atts@,
            ascending,
            recs_view(r@),
        ),
{
    broadcast use vstd::seq_lib::group_to_multiset_ensures;

    let ghost keys = ordering.atts@;
    let ghost s0 = recs_view(input@);
    let mut rem: Vec<Record> = Vec::new();
    let mut i: usize = 0;
    while i < input.len()
        invariant
            0 <= i <= input@.len(),
            s0 == recs_view(input@),
            recs_view(rem@) == s0.take(i as int),
        decreases input@.len() - i,
    {
        let ghost bv = recs_view(rem@);
        rem.push(input[i].duplicate());
        assert(recs_view(rem@) =~= bv.push(s0[i as int]));
        assert(s0.take(i + 1) =~= s0.take(i as int).push(s0[i as int]));
        i += 1;
    }
    assert(s0.take(i as int) =~= s0);
    let mut out: Vec<Record> = Vec::new();
    assert(recs_view(out@) =~= Seq::<Seq<Cell>>::empty());
    while rem.len() > 0
        invariant
            keys == ordering.atts@,
            s0 == recs_view(input@),
            recs_view(out@).to_multiset().add(recs_view(rem@).to_multiset()) == s0.to_multiset(),
            forall|x: Seq<Cell>| recs_view(rem@).contains(x) ==> s0.contains(x),
            before_transitive(keys, ascending, s0) ==> sorted_by(keys, ascending, recs_view(out@)),
            before_transitive(keys, ascending, s0) ==> forall|a: int, b: int|
                0 <= a < recs_view(out@).len() && 0 <= b < recs_view(rem@).len() ==> !#[trigger] before(
                    keys,
                    ascending,
                    recs_view(rem@)[b],
                    recs_view(out@)[a],
                ),
        decreases rem@.len(),
    {
        let ghost rv = recs_view(rem@);
        let ghost ov = recs_view(out@);
        proof {
            if before_transitive(keys, ascending, s0) {
                assert forall|a: Seq<Cell>, b: Seq<Cell>, c: Seq<Cell>|
                    rv.contains(a) && rv.contains(b) && rv.contains(c) && #[trigger] before(keys, ascending, a, b)
                        && #[trigger] before(keys, ascending, b, c) implies before(keys, ascending, a, c) by {
                    assert(s0.contains(a) && s0.contains(b) && s0.contains(c));
                }
            }
        }
        let m = pick_first(ordering, ascending, &rem);
        let rec = rem.remove(m);
        let ghost x = rv[m as int];
        assert(recs_view(rem@) =~= rv.remove(m as int));
        out.push(rec);
        assert(recs_view(out@) =~= ov.push(x));
        proof {
            rv.to_multiset_ensures();
            ov.to_multiset_ensures();
            assert(rv.to_multiset().count(x) > 0) by {
                assert(rv.contains(x));
            }
            assert(ov.push(x).to_multiset().add(rv.remove(m as int).to_multiset()) =~= ov.to_multiset().add(rv.to_multiset()));
            assert forall|z: Seq<Cell>| recs_view(rem@).contains(z) implies s0.contains(z) by {
                let k = choose|k: int| 0 <= k < recs_view(rem@).len() && recs_view(rem@)[k] == z;
                if k < m {
                    assert(rv[k] == z);
                } else {
                    assert(rv[k + 1] == z);
                }
                assert(rv.contains(z));
            }
            if before_transitive(keys, ascending, s0) {
                let nv = recs_view(out@);
                let nr = recs_view(rem@);
                assert forall|a: int, b: int| 0 <= a < b < nv.len() implies !#[trigger] before(keys, ascending, nv[b], nv[a]) by {
                    if b == nv.len() - 1 {
                        assert(nv[b] == x);
                        assert(nv[a] == ov[a]);
                        assert(rv[m as int] == x);
                    } else {
                        assert(nv[a] == ov[a] && nv[b] == ov[b]);
                    }
                }
                assert forall|a: int, b: int| 0 <= a < nv.len() && 0 <= b < nr.len() implies !#[trigger] before(
                    keys,
                    ascending,
                    nr[b],
                    nv[a],
                ) by {
                    let b2 = if b < m { b } else { b + 1 };
                    assert(nr[b] == rv[b2]);
                    if a == nv.len() - 1 {
                        assert(nv[a] == x);
                    } else {
                        assert(nv[a] == ov[a]);
                    }
                }
            }
        }
    }
    proof {
        recs_view(rem@).to_multiset_ensures();
        assert(recs_view(rem@).to_multiset() =~= Multiset::<Seq<Cell>>::empty());
        assert(recs_view(out@).to_multiset().add(Multiset::<Seq<Cell>>::empty()) =~= recs_view(out@).to_multiset());
    }
    out
}

/// The join key of a record: its columns at `proj`, when they exist.
pub open spec fn key_of(r: Seq<Cell>, proj: Seq<i32>) -> Option<Seq<Cell>> {
    if keep_fits(r, proj) {
        Some(project_cells(r, proj))
    } else {
        None
    }
}

/// Whether a probe record and a build record meet: equal keys and the
/// predicate (always read with the left input's record on the left).
pub open spec fn hash_match(
    l: Seq<Cell>,
    r: Seq<Cell>,
    lp: Seq<i32>,
    rp: Seq<i32>,
    pred: (Seq<Seq<crate::comparison::Comparison>>, bool),
) -> bool {
    key_of(l, lp) is Some && key_of(l, lp) == key_of(r, rp) && cnf_eval(pred, l, r)
}

/// For a record `p` of the probe side, its concatenations with the build
/// records `bs` that it meets, in build order; `build_left` says which
/// side `bs` comes from.
pub open spec fn probe_row(
    p: Seq<Cell>,
    bs: Seq<Seq<Cell>>,
    build_left: bool,
    lp: Seq<i32>,
    rp: Seq<i32>,
    pred: (Seq<Seq<crate::comparison::Comparison>>, bool),
) -> Seq<Seq<Cell>>
    decreases bs.len(),
{
    if bs.len() == 0 {
        Seq::empty()
    } else {
        let prev = probe_row(p, bs.drop_last(), build_left, lp, rp, pred);
        let b = bs.last();
        let (l, r) = if build_left { (b, p) } else { (p, b) };
        if hash_match(l, r, lp, rp, pred) {
            prev.push(l + r)
        } else {
            prev
        }
    }
}

pub open spec fn hash_join_spec(
    ps: Seq<Seq<Cell>>,
    bs: Seq<Seq<Cell>>,
    build_left: bool,
    lp: Seq<i32>,
    rp: Seq<i32>,
    pred: (Seq<Seq<crate::comparison::Comparison>>, bool),
) -> Seq<Seq<Cell>>
    decreases ps.len(),
{
    if ps.len() == 0 {
        Seq::empty()
    } else {
        hash_join_spec(ps.drop_last(), bs, build_left, lp, rp, pred) + probe_row(ps.last(), bs, build_left, lp, rp, pred)
    }
}

/// The key of a record, if its positions fit.
fn record_key(r: &Record, proj: &[i32]) -> (k: Option<Record>)
    ensures
        match key_of(r@, proj@) {
            Some(c) => k is Some && k->Some_0@ == c,
            None => k is None,
        },
{
    let mut c = r.duplicate();
    match c.project(proj) {
        Some(()) => Some(c),
        None => None,
    }
}

/// Builds a table of the build side's records by their keys, then streams
/// the other side through it: each probe record, in order, meets the build
/// records of equal key, in build order, on which the predicate holds.
/// `build_left` chooses the left input as the build side.
pub fn hash_join(
    predicate: &Cnf,
    build_left: bool,
    left_projection: &[i32],
    right_projection: &[i32],
    left: &Vec<Record>,
    right: &Vec<Record>,
) -> (r: Vec<Record>)
    ensures
        recs_view(r@) == if build_left {
            hash_join_spec(recs_view(right@), recs_view(left@), true, left_projection@, right_projection@, predicate@)
        } else {
            hash_join_spec(recs_view(left@), recs_view(right@), false, left_projection@, right_projection@, predicate@)
        },
{
    let (build, probe, bproj, pproj) = if build_left {
        (left, right, left_projection, right_projection)
    } else {
        (right, left, right_projection, left_projection)
    };
    let ghost bs = recs_view(build@);
    let ghost ps = recs_view(probe@);
    let ghost lp = left_projection@;
    let ghost rp = right_projection@;
    let mut table: Vec<(Option<Record>, Record)> = Vec::new();
    let mut i: usize = 0;
    while i < build.len()
        invariant
            0 <= i <= build@.len(),
            bs == recs_view(build@),
            table@.len() == i,
            forall|j: int| 0 <= j < i ==> (#[trigger] table@[j]).1@ == bs[j],
            forall|j: int| 0 <= j < i ==> match key_of(bs[j], bproj@) {
                Some(c) => (#[trigger] table@[j]).0 is Some && table@[j].0->Some_0@ == c,
                None => table@[j].0 is None,
            },
        decreases build@.len() - i,
    {
        let k = record_key(&build[i], bproj);
        table.push((k, build[i].duplicate()));
        i += 1;
    }
    let mut out: Vec<Record> = Vec::new();
    let mut p: usize = 0;
    assert(recs_view(out@) =~= Seq::<Seq<Cell>>::empty());
    assert(ps.take(0) =~= Seq::<Seq<Cell>>::empty());
    while p < probe.len()
        invariant
            0 <= p <= probe@.len(),
            ps == recs_view(probe@),
            bs == recs_view(build@),
            table@.len() == bs.len(),
            lp == left_projection@,
            rp == right_projection@,
            bproj@ == if build_left { lp } else { rp },
            pproj@ == if build_left { rp } else { lp },
            forall|j: int| 0 <= j < bs.len() ==> (#[trigger] table@[j]).1@ == bs[j],
            forall|j: int| 0 <= j < bs.len() ==> match key_of(bs[j], bproj@) {
                Some(c) => (#[trigger] table@[j]).0 is Some && table@[j].0->Some_0@ == c,
                None => table@[j].0 is None,
            },
            recs_view(out@) == hash_join_spec(ps.take(p as int), bs, build_left, lp, rp, predicate@),
        decreases probe@.len() - p,
    {
        let ghost prefix = recs_view(out@);
        let ghost pr = ps[p as int];
        assert(pr == probe@[p as int]@);
        let pk = record_key(&probe[p], pproj);
        let mut j: usize = 0;
        assert(bs.take(0) =~= Seq::<Seq<Cell>>::empty());
        assert(prefix =~= prefix + probe_row(pr, bs.take(0), build_left, lp, rp, predicate@));
        while j < table.len()
            invariant
                0 <= j <= table@.len(),
                0 <= p < probe@.len(),
                pr == ps[p as int],
                pr == probe@[p as int]@,
                ps == recs_view(probe@),
                bs == recs_view(build@),
                table@.len() == bs.len(),
                lp == left_projection@,
                rp == right_projection@,
                bproj@ == if build_left { lp } else { rp },
                pproj@ == if build_left { rp } else { lp },
                match key_of(pr, pproj@) {
                    Some(c) => pk is Some && pk->Some_0@ == c,
                    None => pk is None,
                },
                forall|x: int| 0 <= x < bs.len() ==> (#[trigger] table@[x]).1@ == bs[x],
                forall|x: int| 0 <= x < bs.len() ==> match key_of(bs[x], bproj@) {
                    Some(c) => (#[trigger] table@[x]).0 is Some && table@[x].0->Some_0@ == c,
                    None => table@[x].0 is None,
                },
                recs_view(out@) == prefix + probe_row(pr, bs.take(j as int), build_left, lp, rp, predicate@),
            decreases table@.len() - j,
        {
            assert(bs.take(j + 1).drop_last() =~= bs.take(j as int));
            let ghost bj = bs[j as int];
            let entry = &table[j];
            let keys_equal = match (&pk, &entry.0) {
                (Some(a), Some(b)) => a.same_as(b),
                _ => false,
            };
            if keys_equal {
                let (l, r) = if build_left { (&entry.1, &probe[p]) } else { (&probe[p], &entry.1) };
                if predicate.run(l, r) {
                    let mut joined = l.duplicate();
                    joined.merge_right(r);
                    let ghost before_v = recs_view(out@);
                    let ghost jv = joined@;
                    out.push(joined);
                    assert(recs_view(out@) =~= before_v.push(jv));
                    assert(prefix + probe_row(pr, bs.take(j + 1), build_left, lp, rp, predicate@) =~= (prefix + probe_row(
                        pr,
                        bs.take(j as int),
                        build_left,
                        lp,
                        rp,
                        predicate@,
                    )).push(jv));
                }
            }
            j += 1;
        }
        assert(bs.take(j as int) =~= bs);
        assert(ps.take(p + 1).drop_last() =~= ps.take(p as int));
        p += 1;
    }
    assert(ps.take(p as int) =~= ps);
    out
}

/// What applying integer code to each record yields: one single-column
/// record per input record, or none when some evaluation fails.
pub open spec fn apply_spec(code: Seq<crate::function::OpV>, s: Seq<Seq<Cell>>) -> Option<Seq<Seq<Cell>>>
    decreases s.len(),
{
    if s.len() == 0 {
        Some(Seq::empty())
    } else {
        match (apply_spec(code, s.drop_last()), crate::function::run_int(code, s.last(), code.len() as int)) {
            (Some(p), Some(st)) => if st.len() == 1 {
                Some(p.push(seq![Cell::Int(st[0])]))
            } else {
                None
            },
            _ => None,
        }
    }
}

proof fn lemma_apply_none_grows(code: Seq<crate::function::OpV>, s: Seq<Seq<Cell>>, k: int)
    requires
        0 <= k <= s.len(),
        apply_spec(code, s.take(k)) is None,
    ensures
        apply_spec(code, s) is None,
    decreases s.len() - k,
{
    if k < s.len() {
        assert(s.take(k + 1).drop_last() =~= s.take(k));
        lemma_apply_none_grows(code, s, k + 1);
    } else {
        assert(s.take(k) =~= s);
    }
}

/// Applies integer code to each record, giving a record of its one
/// result; fails when the code fails on some record.
pub fn apply_function(function: &crate::function::Function, input: &Vec<Record>) -> (r: Result<Vec<Record>, crate::types::Error>)
    ensures
        match apply_spec(function.code(), recs_view(input@)) {
            Some(out) => r is Ok && recs_view(r->Ok_0@) == out,
            None => r is Err,
        },
{
    let ghost s = recs_view(input@);
    let ghost code = function.code();
    let mut out: Vec<Record> = Vec::new();
    let mut i: usize = 0;
    assert(recs_view(out@) =~= Seq::<Seq<Cell>>::empty());
    assert(s.take(0) =~= Seq::<Seq<Cell>>::empty());
    while i < input.len()
        invariant
            0 <= i <= input@.len(),
            s == recs_view(input@),
            code == function.code(),
            apply_spec(code, s.take(i as int)) == Some(recs_view(out@)),
        decreases input@.len() - i,
    {
        assert(s.take(i + 1).drop_last() =~= s.take(i as int));
        assert(s[i as int] == input@[i as int]@);
        match function.apply_int(&input[i]) {
            Ok(v) => {
                let mut vals: Vec<crate::record::Value> = Vec::new();
                vals.push(crate::record::Value::Integer(v));
                let rec = Record::from_values(vals);
                assert(rec@ =~= seq![Cell::Int(v)]);
                let ghost before = recs_view(out@);
                out.push(rec);
                assert(recs_view(out@) =~= before.push(seq![Cell::Int(v)]));
            },
            Err(e) => {
                proof {
                    lemma_apply_none_grows(code, s, i + 1);
                }
                return Err(e);
            },
        }
        i += 1;
    }
    assert(s.take(i as int) =~= s);
    Ok(out)
}

/// For a left record, its concatenations with the right records of equal
/// key (under `lk` against `rk`) on which the predicate holds, in order.
pub open spec fn eq_row(
    l: Seq<Cell>,
    rs: Seq<Seq<Cell>>,
    lk: Seq<(i32, crate::types::Type)>,
    rk: Seq<(i32, crate::types::Type)>,
    pred: (Seq<Seq<crate::comparison::Comparison>>, bool),
) -> Seq<Seq<Cell>>
    decreases rs.len(),
{
    if rs.len() == 0 {
        Seq::empty()
    } else {
        let p = eq_row(l, rs.drop_last(), lk, rk, pred);
        if keys_order(lk, rk, l, rs.last()) == Order::Equal && cnf_eval(pred, l, rs.last()) {
            p.push(l + rs.last())
        } else {
            p
        }
    }
}

/// The equal-key join, left-major.
pub open spec fn eq_join(
    ls: Seq<Seq<Cell>>,
    rs: Seq<Seq<Cell>>,
    lk: Seq<(i32, crate::types::Type)>,
    rk: Seq<(i32, crate::types::Type)>,
    pred: (Seq<Seq<crate::comparison::Comparison>>, bool),
) -> Seq<Seq<Cell>>
    decreases ls.len(),
{
    if ls.len() == 0 {
        Seq::empty()
    } else {
        eq_join(ls.drop_last(), rs, lk, rk, pred) + eq_row(ls.last(), rs, lk, rk, pred)
    }
}

/// Ranks `kl` and `kr`, nondecreasing along each input, with which the key
/// comparison of any left record against any right record agrees: both
/// inputs are sorted on their keys in one common order.
pub open spec fn co_sorted(
    ls: Seq<Seq<Cell>>,
    rs: Seq<Seq<Cell>>,
    lk: Seq<(i32, crate::types::Type)>,
    rk: Seq<(i32, crate::types::Type)>,
    kl: Seq<int>,
    kr: Seq<int>,
) -> bool {
    &&& kl.len() == ls.len()
    &&& kr.len() == rs.len()
    &&& forall|a: int, b: int| 0 <= a <= b < kl.len() ==> kl[a] <= kl[b]
    &&& forall|a: int, b: int| 0 <= a <= b < kr.len() ==> kr[a] <= kr[b]
    &&& forall|a: int, b: int|
        0 <= a < ls.len() && 0 <= b < rs.len() ==> #[trigger] keys_order(lk, rk, ls[a], rs[b])
            == crate::comparison::int_order(kl[a], kr[b])
}

proof fn lemma_eq_row_concat(
    l: Seq<Cell>,
    x: Seq<Seq<Cell>>,
    y: Seq<Seq<Cell>>,
    lk: Seq<(i32, crate::types::Type)>,
    rk: Seq<(i32, crate::types::Type)>,
    pred: (Seq<Seq<crate::comparison::Comparison>>, bool),
)
    ensures
        eq_row(l, x + y, lk, rk, pred) == eq_row(l, x, lk, rk, pred) + eq_row(l, y, lk, rk, pred),
    decreases y.len(),
{
    if y.len() == 0 {
        assert(x + y =~= x);
        assert(eq_row(l, x, lk, rk, pred) + Seq::<Seq<Cell>>::empty() =~= eq_row(l, x, lk, rk, pred));
    } else {
        lemma_eq_row_concat(l, x, y.drop_last(), lk, rk, pred);
        assert((x + y).drop_last() =~= x + y.drop_last());
        assert((x + y).last() == y.last());
        let a = eq_row(l, x, lk, rk, pred);
        let b = eq_row(l, y.drop_last(), lk, rk, pred);
        assert((a + b).push(l + y.last()) =~= a + b.push(l + y.last()));
    }
}

proof fn lemma_eq_row_none(
    l: Seq<Cell>,
    x: Seq<Seq<Cell>>,
    lk: Seq<(i32, crate::types::Type)>,
    rk: Seq<(i32, crate::types::Type)>,
    pred: (Seq<Seq<crate::comparison::Comparison>>, bool),
)
    requires
        forall|b: int| 0 <= b < x.len() ==> keys_order(lk, rk, l, #[trigger] x[b]) != Order::Equal,
    ensures
        eq_row(l, x, lk, rk, pred) == Seq::<Seq<Cell>>::empty(),
    decreases x.len(),
{
    if x.len() > 0 {
        lemma_eq_row_none(l, x.drop_last(), lk, rk, pred);
        assert(keys_order(lk, rk, l, x[x.len() - 1]) != Order::Equal);
    }
}

/// Within the runs, a row meets exactly the right records of its run.
proof fn lemma_eq_row_run(
    l: Seq<Cell>,
    rs: Seq<Seq<Cell>>,
    j: int,
    j2: int,
    lk: Seq<(i32, crate::types::Type)>,
    rk: Seq<(i32, crate::types::Type)>,
    pred: (Seq<Seq<crate::comparison::Comparison>>, bool),
)
    requires
        0 <= j <= j2 <= rs.len(),
        forall|b: int| 0 <= b < j ==> keys_order(lk, rk, l, #[trigger] rs[b]) != Order::Equal,
        forall|b: int| j2 <= b < rs.len() ==> keys_order(lk, rk, l, #[trigger] rs[b]) != Order::Equal,
    ensures
        eq_row(l, rs, lk, rk, pred) == eq_row(l, rs.subrange(j, j2), lk, rk, pred),
{
    let x = rs.subrange(0, j);
    let m = rs.subrange(j, j2);
    let y = rs.subrange(j2, rs.len() as int);
    assert(rs =~= x + m + y);
    lemma_eq_row_concat(l, x + m, y, lk, rk, pred);
    lemma_eq_row_concat(l, x, m, lk, rk, pred);
    assert forall|b: int| 0 <= b < x.len() implies keys_order(lk, rk, l, #[trigger] x[b]) != Order::Equal by {
        assert(x[b] == rs[b]);
    }
    assert forall|b: int| 0 <= b < y.len() implies keys_order(lk, rk, l, #[trigger] y[b]) != Order::Equal by {
        assert(y[b] == rs[j2 + b]);
    }
    lemma_eq_row_none(l, x, lk, rk, pred);
    lemma_eq_row_none(l, y, lk, rk, pred);
    assert(Seq::<Seq<Cell>>::empty() + eq_row(l, m, lk, rk, pred) =~= eq_row(l, m, lk, rk, pred));
    assert(eq_row(l, m, lk, rk, pred) + Seq::<Seq<Cell>>::empty() =~= eq_row(l, m, lk, rk, pred));
}

proof fn lemma_eq_join_rest(
    ls: Seq<Seq<Cell>>,
    rs: Seq<Seq<Cell>>,
    i: int,
    lk: Seq<(i32, crate::types::Type)>,
    rk: Seq<(i32, crate::types::Type)>,
    pred: (Seq<Seq<crate::comparison::Comparison>>, bool),
)
    requires
        0 <= i <= ls.len(),
        forall|a: int| i <= a < ls.len() ==> eq_row(#[trigger] ls[a], rs, lk, rk, pred) == Seq::<Seq<Cell>>::empty(),
    ensures
        eq_join(ls, rs, lk, rk, pred) == eq_join(ls.take(i), rs, lk, rk, pred),
    decreases ls.len() - i,
{
    if i < ls.len() {
        lemma_eq_join_rest(ls, rs, i + 1, lk, rk, pred);
        assert(ls.take(i + 1).drop_last() =~= ls.take(i));
        assert(ls.take(i + 1).last() == ls[i]);
        assert(eq_join(ls.take(i), rs, lk, rk, pred) + Seq::<Seq<Cell>>::empty() =~= eq_join(ls.take(i), rs, lk, rk, pred));
    } else {
        assert(ls.take(i) =~= ls);
    }
}

/// Joins inputs sorted on their keys: advances the side with the lesser
/// key and, on equal keys, joins the run of equal-key records of each side
/// pairwise (on the predicate). When the inputs are sorted on their keys in
/// one common order, the result is the equal-key join, left-major.
pub fn merge_join(
    predicate: &Cnf,
    left_ordering: &OrderMaker,
    right_ordering: &OrderMaker,
    left: &Vec<Record>,
    right: &Vec<Record>,
) -> (r: Vec<Record>)
    ensures
        (exists|kl: Seq<int>, kr: Seq<int>|
            co_sorted(recs_view(left@), recs_view(right@), left_ordering.atts@, right_ordering.atts@, kl, kr))
            ==> recs_view(r@) == eq_join(
            recs_view(left@),
            recs_view(right@),
            left_ordering.atts@,
            right_ordering.atts@,
            predicate@,
        ),
{
    let ghost ls = recs_view(left@);
    let ghost rs = recs_view(right@);
    let ghost lk = left_ordering.atts@;
    let ghost rk = right_ordering.atts@;
    let ghost pred = predicate@;
    let ghost coh = exists|kl: Seq<int>, kr: Seq<int>| co_sorted(ls, rs, lk, rk, kl, kr);
    let ghost ks: (Seq<int>, Seq<int>) = if coh {
        choose|kl: Seq<int>, kr: Seq<int>| co_sorted(ls, rs, lk, rk, kl, kr)
    } else {
        (Seq::empty(), Seq::empty())
    };
    let ghost kl = ks.0;
    let ghost kr = ks.1;
    let mut out: Vec<Record> = Vec::new();
    let mut i: usize = 0;
    let mut j: usize = 0;
    assert(recs_view(out@) =~= Seq::<Seq<Cell>>::empty());
    assert(ls.take(0) =~= Seq::<Seq<Cell>>::empty());
    while i < left.len() && j < right.len()
        invariant
            0 <= i <= left@.len(),
            0 <= j <= right@.len(),
            ls == recs_view(left@),
            rs == recs_view(right@),
            lk == left_ordering.atts@,
            rk == right_ordering.atts@,
            pred == predicate@,
            coh ==> co_sorted(ls, rs, lk, rk, kl, kr),
            coh ==> recs_view(out@) == eq_join(ls.take(i as int), rs, lk, rk, pred),
            coh && i < ls.len() ==> forall|b: int| 0 <= b < j ==> kr[b] < kl[i as int],
        decreases left@.len() - i + right@.len() - j,
    {
        assert(ls[i as int] == left@[i as int]@);
        assert(rs[j as int] == right@[j as int]@);
        let c = left_ordering.run_with_different_order(&left[i], &right[j], right_ordering);
        if c == Order::Less {
            proof {
                if coh {
                    assert forall|b: int| 0 <= b < rs.len() implies keys_order(lk, rk, ls[i as int], #[trigger] rs[b]) != Order::Equal by {
                        assert(keys_order(lk, rk, ls[i as int], rs[j as int]) == crate::comparison::int_order(kl[i as int], kr[j as int]));
                        assert(keys_order(lk, rk, ls[i as int], rs[b]) == crate::comparison::int_order(kl[i as int], kr[b]));
                        if b >= j {
                            assert(kr[j as int] <= kr[b]);
                        }
                    }
                    lemma_eq_row_none(ls[i as int], rs, lk, rk, pred);
                    assert(ls.take(i + 1).drop_last() =~= ls.take(i as int));
                    assert(ls.take(i + 1).last() == ls[i as int]);
                    assert(recs_view(out@) + Seq::<Seq<Cell>>::empty() =~= recs_view(out@));
                    if i + 1 < ls.len() {
                        assert(kl[i as int] <= kl[i + 1]);
                    }
                }
            }
            i += 1;
        } else if c == Order::Greater {
            proof {
                if coh {
                    assert(keys_order(lk, rk, ls[i as int], rs[j as int]) == crate::comparison::int_order(kl[i as int], kr[j as int]));
                }
            }
            j += 1;
        } else if c == Order::Equal {
            let ghost key = if coh { kl[i as int] } else { 0 };
            proof {
                if coh {
                    assert(keys_order(lk, rk, ls[i as int], rs[j as int]) == crate::comparison::int_order(kl[i as int], kr[j as int]));
                }
            }
            let mut i2 = i;
            while i2 < left.len() && left_ordering.run_with_different_order(&left[i2], &right[j], right_ordering) == Order::Equal
                invariant
                    i <= i2 <= left@.len(),
                    j < right@.len(),
                    ls == recs_view(left@),
                    rs == recs_view(right@),
                    lk == left_ordering.atts@,
                    rk == right_ordering.atts@,
                    coh ==> co_sorted(ls, rs, lk, rk, kl, kr),
                    coh ==> kr[j as int] == key,
                    coh ==> forall|a: int| i <= a < i2 ==> kl[a] == key,
                    keys_order(lk, rk, ls[i as int], rs[j as int]) == Order::Equal,
                    i < left@.len(),
                decreases left@.len() - i2,
            {
                proof {
                    if coh {
                        assert(ls[i2 as int] == left@[i2 as int]@);
                        assert(rs[j as int] == right@[j as int]@);
                        assert(keys_order(lk, rk, ls[i2 as int], rs[j as int]) == crate::comparison::int_order(kl[i2 as int], kr[j as int]));
                    }
                }
                i2 += 1;
            }
            assert(i2 > i) by {
                if i2 == i {
                    assert(ls[i as int] == left@[i as int]@);
                    assert(rs[j as int] == right@[j as int]@);
                }
            }
            proof {
                if coh && i2 < ls.len() {
                    assert(ls[i2 as int] == left@[i2 as int]@);
                    assert(keys_order(lk, rk, ls[i2 as int], rs[j as int]) == crate::comparison::int_order(kl[i2 as int], kr[j as int]));
                    assert(kl[i as int] <= kl[i2 as int]);
                }
            }
            let mut j2 = j;
            while j2 < right.len() && left_ordering.run_with_different_order(&left[i], &right[j2], right_ordering) == Order::Equal
                invariant
                    j <= j2 <= right@.len(),
                    i < left@.len(),
                    ls == recs_view(left@),
                    rs == recs_view(right@),
                    lk == left_ordering.atts@,
                    rk == right_ordering.atts@,
                    coh ==> co_sorted(ls, rs, lk, rk, kl, kr),
                    coh ==> kl[i as int] == key,
                    coh ==> forall|b: int| j <= b < j2 ==> kr[b] == key,
                    keys_order(lk, rk, ls[i as int], rs[j as int]) == Order::Equal,
                    j < right@.len(),
                decreases right@.len() - j2,
            {
                proof {
                    if coh {
                        assert(ls[i as int] == left@[i as int]@);
                        assert(rs[j2 as int] == right@[j2 as int]@);
                        assert(keys_order(lk, rk, ls[i as int], rs[j2 as int]) == crate::comparison::int_order(kl[i as int], kr[j2 as int]));
                    }
                }
                j2 += 1;
            }
            assert(j2 > j) by {
                if j2 == j {
                    assert(ls[i as int] == left@[i as int]@);
                    assert(rs[j as int] == right@[j as int]@);
                }
            }
            proof {
                if coh && j2 < rs.len() {
                    assert(rs[j2 as int] == right@[j2 as int]@);
                    assert(ls[i as int] == left@[i as int]@);
                    assert(keys_order(lk, rk, ls[i as int], rs[j2 as int]) == crate::comparison::int_order(kl[i as int], kr[j2 as int]));
                    assert(kr[j as int] <= kr[j2 as int]);
                }
            }
            let mut a = i;
            while a < i2
                invariant
                    i <= a <= i2,
                    i2 <= left@.len(),
                    j < j2 <= right@.len(),
                    ls == recs_view(left@),
                    rs == recs_view(right@),
                    lk == left_ordering.atts@,
                    rk == right_ordering.atts@,
                    pred == predicate@,
                    coh ==> co_sorted(ls, rs, lk, rk, kl, kr),
                    coh ==> recs_view(out@) == eq_join(ls.take(a as int), rs, lk, rk, pred),
                    coh ==> forall|x: int| i <= x < i2 ==> kl[x] == key,
                    coh ==> forall|b: int| j <= b < j2 ==> kr[b] == key,
                    coh ==> forall|b: int| 0 <= b < j ==> kr[b] < key,
                    coh && j2 < rs.len() ==> key < kr[j2 as int],
                decreases i2 - a,
            {
                let ghost prefix = recs_view(out@);
                let ghost la = ls[a as int];
                assert(la == left@[a as int]@);
                let mut b = j;
                assert(rs.subrange(j as int, j as int) =~= Seq::<Seq<Cell>>::empty());
                assert(prefix =~= prefix + eq_row(la, rs.subrange(j as int, j as int), lk, rk, pred));
                while b < j2
                    invariant
                        j <= b <= j2,
                        j2 <= right@.len(),
                        a < left@.len(),
                        la == ls[a as int],
                        la == left@[a as int]@,
                        ls == recs_view(left@),
                        rs == recs_view(right@),
                        lk == left_ordering.atts@,
                        rk == right_ordering.atts@,
                        pred == predicate@,
                        recs_view(out@) == prefix + eq_row(la, rs.subrange(j as int, b as int), lk, rk, pred),
                    decreases j2 - b,
                {
                    assert(rs.subrange(j as int, b + 1).drop_last() =~= rs.subrange(j as int, b as int));
                    assert(rs.subrange(j as int, b + 1).last() == rs[b as int]);
                    assert(rs[b as int] == right@[b as int]@);
                    if left_ordering.run_with_different_order(&left[a], &right[b], right_ordering) == Order::Equal
                        && predicate.run(&left[a], &right[b]) {
                        let mut joined = left[a].duplicate();
                        joined.merge_right(&right[b]);
                        let ghost before = recs_view(out@);
                        let ghost jv = joined@;
                        out.push(joined);
                        assert(recs_view(out@) =~= before.push(jv));
                        assert(prefix + eq_row(la, rs.subrange(j as int, b + 1), lk, rk, pred) =~= (prefix + eq_row(
                            la,
                            rs.subrange(j as int, b as int),
                            lk,
                            rk,
                            pred,
                        )).push(jv));
                    }
                    b += 1;
                }
                proof {
                    if coh {
                        assert forall|x: int| 0 <= x < j implies keys_order(lk, rk, la, #[trigger] rs[x]) != Order::Equal by {
                            assert(keys_order(lk, rk, ls[a as int], rs[x]) == crate::comparison::int_order(kl[a as int], kr[x]));
                        }
                        assert forall|x: int| j2 <= x < rs.len() implies keys_order(lk, rk, la, #[trigger] rs[x]) != Order::Equal by {
                            assert(keys_order(lk, rk, ls[a as int], rs[x]) == crate::comparison::int_order(kl[a as int], kr[x]));
                            assert(kr[j2 as int] <= kr[x]);
                        }
                        lemma_eq_row_run(la, rs, j as int, j2 as int, lk, rk, pred);
                        assert(ls.take(a + 1).drop_last() =~= ls.take(a as int));
                        assert(ls.take(a + 1).last() == ls[a as int]);
                    }
                }
                a += 1;
            }
            i = i2;
            j = j2;
            proof {
                if coh && i < ls.len() {
                    assert forall|b: int| 0 <= b < j implies kr[b] < kl[i as int] by {
                        assert(kl[i as int] != key);
                    }
                }
            }
        } else {
            proof {
                if coh {
                    assert(keys_order(lk, rk, ls[i as int], rs[j as int]) == crate::comparison::int_order(kl[i as int], kr[j as int]));
                }
            }
            i += 1;
        }
    }
    proof {
        if coh {
            if i < ls.len() {
                assert forall|x: int| i <= x < ls.len() implies eq_row(#[trigger] ls[x], rs, lk, rk, pred) == Seq::<Seq<Cell>>::empty() by {
                    assert forall|b: int| 0 <= b < rs.len() implies keys_order(lk, rk, ls[x], #[trigger] rs[b]) != Order::Equal by {
                        assert(keys_order(lk, rk, ls[x], rs[b]) == crate::comparison::int_order(kl[x], kr[b]));
                        assert(kl[i as int] <= kl[x]);
                    }
                    lemma_eq_row_none(ls[x], rs, lk, rk, pred);
                }
                lemma_eq_join_rest(ls, rs, i as int, lk, rk, pred);
            } else {
                assert(ls.take(i as int) =~= ls);
            }
        }
    }
    out
}

} // verus!
