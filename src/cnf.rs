use vstd::prelude::*;

use crate::comparison::{
    comp_eval, equivalent_spec, lemma_equivalent_eval, lemma_negation_eval, negate_op, negation_spec,
    Comparison,
};
use crate::comparison::{cell_order, operand_cell, Order};
use crate::record::{Cell, Record};
use crate::schema::{has_name, index_in, Attribute, Schema};
use crate::types::{CompOp, Target};

verus! {

/// Whether some term of the clause holds.
pub open spec fn dis_eval(d: Seq<Comparison>, left: Seq<Cell>, right: Seq<Cell>) -> bool {
    exists|k: int| 0 <= k < d.len() && #[trigger] comp_eval(d[k], left, right)
}

/// Whether every clause holds.
pub open spec fn clauses_eval(cs: Seq<Seq<Comparison>>, left: Seq<Cell>, right: Seq<Cell>) -> bool {
    forall|k: int| 0 <= k < cs.len() ==> #[trigger] dis_eval(cs[k], left, right)
}

/// Whether a CNF, given as its clauses and its contradiction flag, holds.
pub open spec fn cnf_eval(c: (Seq<Seq<Comparison>>, bool), left: Seq<Cell>, right: Seq<Cell>) -> bool {
    !c.1 && clauses_eval(c.0, left, right)
}

/// Whether some term of `a` is the complement of some term of `b`.
pub open spec fn crosses_negation(a: Seq<Comparison>, b: Seq<Comparison>) -> bool {
    exists|i: int, j: int| 0 <= i < a.len() && 0 <= j < b.len() && #[trigger] negation_spec(a[i], b[j])
}

/// Whether some term of `m` is equivalent to `t`.
pub open spec fn has_equivalent(m: Seq<Comparison>, t: Comparison) -> bool {
    exists|k: int| 0 <= k < m.len() && #[trigger] equivalent_spec(m[k], t)
}

/// `acc` followed by the terms of `b` that are not equivalent to a term
/// already present.
pub open spec fn merge_terms(acc: Seq<Comparison>, b: Seq<Comparison>) -> Seq<Comparison>
    decreases b.len(),
{
    if b.len() == 0 {
        acc
    } else {
        let m = merge_terms(acc, b.drop_last());
        if has_equivalent(m, b.last()) {
            m
        } else {
            m.push(b.last())
        }
    }
}

/// The disjunction of two clauses; none when it is a tautology.
pub open spec fn dis_or(a: Seq<Comparison>, b: Seq<Comparison>) -> Option<Seq<Comparison>> {
    if crosses_negation(a, b) {
        None
    } else {
        Some(merge_terms(a, b))
    }
}

/// The clauses `ca OR cb` for each clause `cb` of `bs`, tautologies dropped.
pub open spec fn pair_clauses(ca: Seq<Comparison>, bs: Seq<Seq<Comparison>>) -> Seq<Seq<Comparison>>
    decreases bs.len(),
{
    if bs.len() == 0 {
        Seq::empty()
    } else {
        let p = pair_clauses(ca, bs.drop_last());
        match dis_or(ca, bs.last()) {
            Some(d) => p.push(d),
            None => p,
        }
    }
}

/// The clauses of `as_ OR bs`, distributed.
pub open spec fn or_clauses(as_: Seq<Seq<Comparison>>, bs: Seq<Seq<Comparison>>) -> Seq<Seq<Comparison>>
    decreases as_.len(),
{
    if as_.len() == 0 {
        Seq::empty()
    } else {
        or_clauses(as_.drop_last(), bs) + pair_clauses(as_.last(), bs)
    }
}

pub open spec fn negate_comp(c: Comparison) -> Comparison {
    Comparison { op: negate_op(c.op), ..c }
}

/// De Morgan: one unit clause holding the complement of each term.
pub open spec fn neg_dis(d: Seq<Comparison>) -> Seq<Seq<Comparison>> {
    Seq::new(d.len(), |i: int| seq![negate_comp(d[i])])
}

/// The clauses of the complement of a non-empty conjunction.
pub open spec fn neg_clauses(cs: Seq<Seq<Comparison>>) -> Seq<Seq<Comparison>>
    decreases cs.len(),
{
    if cs.len() == 0 {
        Seq::empty()
    } else if cs.len() == 1 {
        neg_dis(cs[0])
    } else {
        or_clauses(neg_clauses(cs.drop_last()), neg_dis(cs.last()))
    }
}

/// Whether two unit clauses complement each other.
pub open spec fn has_unit_contradiction(cs: Seq<Seq<Comparison>>) -> bool {
    exists|i: int, j: int|
        0 <= i < cs.len() && 0 <= j < cs.len() && cs[i].len() == 1 && cs[j].len() == 1
            && #[trigger] negation_spec(cs[i][0], cs[j][0])
}

pub open spec fn cnf_and_spec(a: (Seq<Seq<Comparison>>, bool), b: (Seq<Seq<Comparison>>, bool)) -> (Seq<Seq<Comparison>>, bool) {
    if a.1 || b.1 || has_unit_contradiction(a.0 + b.0) {
        (Seq::empty(), true)
    } else {
        (a.0 + b.0, false)
    }
}

pub open spec fn cnf_or_spec(a: (Seq<Seq<Comparison>>, bool), b: (Seq<Seq<Comparison>>, bool)) -> (Seq<Seq<Comparison>>, bool) {
    if a.1 {
        b
    } else if b.1 {
        a
    } else {
        (or_clauses(a.0, b.0), false)
    }
}

pub open spec fn cnf_negate_spec(c: (Seq<Seq<Comparison>>, bool)) -> (Seq<Seq<Comparison>>, bool) {
    if c.1 {
        (Seq::empty(), false)
    } else if c.0.len() == 0 {
        (Seq::empty(), true)
    } else {
        (neg_clauses(c.0), false)
    }
}

proof fn lemma_dis_eval_push(d: Seq<Comparison>, t: Comparison, left: Seq<Cell>, right: Seq<Cell>)
    ensures
        dis_eval(d.push(t), left, right) == (dis_eval(d, left, right) || comp_eval(t, left, right)),
{
    let e = d.push(t);
    if dis_eval(d, left, right) {
        let k = choose|k: int| 0 <= k < d.len() && #[trigger] comp_eval(d[k], left, right);
        assert(e[k] == d[k]);
    }
    if comp_eval(t, left, right) {
        assert(e[d.len() as int] == t);
    }
    if dis_eval(e, left, right) {
        let k = choose|k: int| 0 <= k < e.len() && #[trigger] comp_eval(e[k], left, right);
        if k < d.len() {
            assert(e[k] == d[k]);
        }
    }
}

proof fn lemma_clauses_eval_concat(x: Seq<Seq<Comparison>>, y: Seq<Seq<Comparison>>, left: Seq<Cell>, right: Seq<Cell>)
    ensures
        clauses_eval(x + y, left, right) == (clauses_eval(x, left, right) && clauses_eval(y, left, right)),
{
    let z = x + y;
    if clauses_eval(z, left, right) {
        assert forall|k: int| 0 <= k < x.len() implies #[trigger] dis_eval(x[k], left, right) by {
            assert(z[k] == x[k]);
        }
        assert forall|k: int| 0 <= k < y.len() implies #[trigger] dis_eval(y[k], left, right) by {
            assert(z[x.len() + k] == y[k]);
        }
    }
    if clauses_eval(x, left, right) && clauses_eval(y, left, right) {
        assert forall|k: int| 0 <= k < z.len() implies #[trigger] dis_eval(z[k], left, right) by {
            if k < x.len() {
                assert(z[k] == x[k]);
            } else {
                assert(z[k] == y[k - x.len()]);
            }
        }
    }
}

proof fn lemma_clauses_eval_push(x: Seq<Seq<Comparison>>, d: Seq<Comparison>, left: Seq<Cell>, right: Seq<Cell>)
    ensures
        clauses_eval(x.push(d), left, right) == (clauses_eval(x, left, right) && dis_eval(d, left, right)),
{
    lemma_clauses_eval_concat(x, seq![d], left, right);
    assert(x.push(d) =~= x + seq![d]);
    assert(seq![d][0] == d);
}

proof fn lemma_merge_eval(acc: Seq<Comparison>, b: Seq<Comparison>, left: Seq<Cell>, right: Seq<Cell>)
    ensures
        dis_eval(merge_terms(acc, b), left, right) == (dis_eval(acc, left, right) || dis_eval(b, left, right)),
    decreases b.len(),
{
    if b.len() > 0 {
        let bp = b.drop_last();
        let t = b.last();
        lemma_merge_eval(acc, bp, left, right);
        lemma_dis_eval_push(bp, t, left, right);
        assert(bp.push(t) =~= b);
        let m = merge_terms(acc, bp);
        if has_equivalent(m, t) {
            let k = choose|k: int| 0 <= k < m.len() && #[trigger] equivalent_spec(m[k], t);
            lemma_equivalent_eval(m[k], t, left, right);
        } else {
            lemma_dis_eval_push(m, t, left, right);
        }
    }
}

/// What `dis_or` means.
pub proof fn lemma_dis_or_eval(a: Seq<Comparison>, b: Seq<Comparison>, left: Seq<Cell>, right: Seq<Cell>)
    ensures
        match dis_or(a, b) {
            None => dis_eval(a, left, right) || dis_eval(b, left, right),
            Some(d) => dis_eval(d, left, right) == (dis_eval(a, left, right) || dis_eval(b, left, right)),
        },
{
    if crosses_negation(a, b) {
        let (i, j) = choose|i: int, j: int| 0 <= i < a.len() && 0 <= j < b.len() && #[trigger] negation_spec(a[i], b[j]);
        lemma_negation_eval(a[i], b[j], left, right);
    } else {
        lemma_merge_eval(a, b, left, right);
    }
}

proof fn lemma_pair_eval(ca: Seq<Comparison>, bs: Seq<Seq<Comparison>>, left: Seq<Cell>, right: Seq<Cell>)
    ensures
        clauses_eval(pair_clauses(ca, bs), left, right) == (dis_eval(ca, left, right) || clauses_eval(bs, left, right)),
    decreases bs.len(),
{
    if bs.len() > 0 {
        let bp = bs.drop_last();
        lemma_pair_eval(ca, bp, left, right);
        lemma_clauses_eval_push(bp, bs.last(), left, right);
        assert(bp.push(bs.last()) =~= bs);
        lemma_dis_or_eval(ca, bs.last(), left, right);
        match dis_or(ca, bs.last()) {
            Some(d) => lemma_clauses_eval_push(pair_clauses(ca, bp), d, left, right),
            None => {},
        }
    }
}

/// Distribution: the clauses of `as_ OR bs` hold exactly when `as_` or
/// `bs` does.
pub proof fn lemma_or_clauses_eval(as_: Seq<Seq<Comparison>>, bs: Seq<Seq<Comparison>>, left: Seq<Cell>, right: Seq<Cell>)
    ensures
        clauses_eval(or_clauses(as_, bs), left, right) == (clauses_eval(as_, left, right) || clauses_eval(bs, left, right)),
    decreases as_.len(),
{
    if as_.len() > 0 {
        let ap = as_.drop_last();
        lemma_or_clauses_eval(ap, bs, left, right);
        lemma_pair_eval(as_.last(), bs, left, right);
        lemma_clauses_eval_concat(or_clauses(ap, bs), pair_clauses(as_.last(), bs), left, right);
        lemma_clauses_eval_push(ap, as_.last(), left, right);
        assert(ap.push(as_.last()) =~= as_);
    }
}

proof fn lemma_neg_dis_eval(d: Seq<Comparison>, left: Seq<Cell>, right: Seq<Cell>)
    ensures
        clauses_eval(neg_dis(d), left, right) == !dis_eval(d, left, right),
{
    let n = neg_dis(d);
    if clauses_eval(n, left, right) {
        assert forall|k: int| 0 <= k < d.len() implies !#[trigger] comp_eval(d[k], left, right) by {
            assert(dis_eval(n[k], left, right));
            let j = choose|j: int| 0 <= j < n[k].len() && #[trigger] comp_eval(n[k][j], left, right);
            assert(n[k][j] == negate_comp(d[k]));
        }
    }
    if !dis_eval(d, left, right) {
        assert forall|k: int| 0 <= k < n.len() implies #[trigger] dis_eval(n[k], left, right) by {
            assert(n[k][0] == negate_comp(d[k]));
            assert(!comp_eval(d[k], left, right));
            assert(comp_eval(n[k][0], left, right));
        }
    }
}

proof fn lemma_neg_clauses_eval(cs: Seq<Seq<Comparison>>, left: Seq<Cell>, right: Seq<Cell>)
    requires
        cs.len() > 0,
    ensures
        clauses_eval(neg_clauses(cs), left, right) == !clauses_eval(cs, left, right),
    decreases cs.len(),
{
    if cs.len() == 1 {
        lemma_neg_dis_eval(cs[0], left, right);
        lemma_clauses_eval_push(Seq::empty(), cs[0], left, right);
        assert(Seq::<Seq<Comparison>>::empty().push(cs[0]) =~= cs);
    } else {
        let cp = cs.drop_last();
        lemma_neg_clauses_eval(cp, left, right);
        lemma_neg_dis_eval(cs.last(), left, right);
        lemma_or_clauses_eval(neg_clauses(cp), neg_dis(cs.last()), left, right);
        lemma_clauses_eval_push(cp, cs.last(), left, right);
        assert(cp.push(cs.last()) =~= cs);
    }
}

/// Conjunction means conjunction.
pub proof fn lemma_and_eval(a: (Seq<Seq<Comparison>>, bool), b: (Seq<Seq<Comparison>>, bool), left: Seq<Cell>, right: Seq<Cell>)
    ensures
        cnf_eval(cnf_and_spec(a, b), left, right) == (cnf_eval(a, left, right) && cnf_eval(b, left, right)),
{
    lemma_clauses_eval_concat(a.0, b.0, left, right);
    let cs = a.0 + b.0;
    if !a.1 && !b.1 && has_unit_contradiction(cs) {
        let (i, j) = choose|i: int, j: int|
            0 <= i < cs.len() && 0 <= j < cs.len() && cs[i].len() == 1 && cs[j].len() == 1
                && #[trigger] negation_spec(cs[i][0], cs[j][0]);
        lemma_negation_eval(cs[i][0], cs[j][0], left, right);
        if clauses_eval(cs, left, right) {
            assert(dis_eval(cs[i], left, right));
            assert(dis_eval(cs[j], left, right));
        }
    }
}

/// Disjunction means disjunction.
pub proof fn lemma_or_eval(a: (Seq<Seq<Comparison>>, bool), b: (Seq<Seq<Comparison>>, bool), left: Seq<Cell>, right: Seq<Cell>)
    ensures
        cnf_eval(cnf_or_spec(a, b), left, right) == (cnf_eval(a, left, right) || cnf_eval(b, left, right)),
{
    lemma_or_clauses_eval(a.0, b.0, left, right);
}

/// Negation means negation.
pub proof fn lemma_negate_eval(c: (Seq<Seq<Comparison>>, bool), left: Seq<Cell>, right: Seq<Cell>)
    ensures
        cnf_eval(cnf_negate_spec(c), left, right) == !cnf_eval(c, left, right),
{
    if !c.1 && c.0.len() > 0 {
        lemma_neg_clauses_eval(c.0, left, right);
    }
}

/// Negating a CNF twice gives a CNF that holds of exactly the same pairs
/// of records.
pub proof fn lemma_double_negation(c: (Seq<Seq<Comparison>>, bool), left: Seq<Cell>, right: Seq<Cell>)
    ensures
        cnf_eval(cnf_negate_spec(cnf_negate_spec(c)), left, right) == cnf_eval(c, left, right),
{
    lemma_negate_eval(c, left, right);
    lemma_negate_eval(cnf_negate_spec(c), left, right);
}

/// De Morgan: the negation of `a AND b` holds of exactly the pairs of
/// records on which `(NOT a) OR (NOT b)` holds.
pub proof fn lemma_de_morgan(a: (Seq<Seq<Comparison>>, bool), b: (Seq<Seq<Comparison>>, bool), left: Seq<Cell>, right: Seq<Cell>)
    ensures
        cnf_eval(cnf_negate_spec(cnf_and_spec(a, b)), left, right) == cnf_eval(
            cnf_or_spec(cnf_negate_spec(a), cnf_negate_spec(b)),
            left,
            right,
        ),
{
    lemma_negate_eval(cnf_and_spec(a, b), left, right);
    lemma_and_eval(a, b, left, right);
    lemma_or_eval(cnf_negate_spec(a), cnf_negate_spec(b), left, right);
    lemma_negate_eval(a, left, right);
    lemma_negate_eval(b, left, right);
}

/// A clause: comparisons joined by OR.
#[derive(Clone, Debug)]
pub struct Disjunction {
    pub terms: Vec<Comparison>,
}

impl View for Disjunction {
    type V = Seq<Comparison>;

    open spec fn view(&self) -> Seq<Comparison> {
        self.terms@
    }
}

/// The clauses of a list of disjunctions.
pub open spec fn clauses_view(cs: Seq<Disjunction>) -> Seq<Seq<Comparison>> {
    cs.map_values(|d: Disjunction| d@)
}

fn copy_terms(v: &Vec<Comparison>) -> (r: Vec<Comparison>)
    ensures
        r@ == v@,
{
    let mut r: Vec<Comparison> = Vec::new();
    let mut i: usize = 0;
    while i < v.len()
        invariant
            0 <= i <= v@.len(),
            r@ == v@.take(i as int),
        decreases v@.len() - i,
    {
        r.push(v[i]);
        assert(r@ =~= v@.take(i + 1));
        i += 1;
    }
    assert(v@.take(i as int) =~= v@);
    r
}

fn copy_clauses(v: &Vec<Disjunction>) -> (r: Vec<Disjunction>)
    ensures
        clauses_view(r@) == clauses_view(v@),
        r@.len() == v@.len(),
{
    let mut r: Vec<Disjunction> = Vec::new();
    let mut i: usize = 0;
    while i < v.len()
        invariant
            0 <= i <= v@.len(),
            r@.len() == i,
            forall|j: int| 0 <= j < i ==> (#[trigger] r@[j])@ == v@[j]@,
        decreases v@.len() - i,
    {
        r.push(v[i].duplicate());
        i += 1;
    }
    assert(clauses_view(r@) =~= clauses_view(v@));
    r
}

fn contains_equivalent(m: &Vec<Comparison>, t: &Comparison) -> (r: bool)
    ensures
        r == has_equivalent(m@, *t),
{
    let mut k: usize = 0;
    while k < m.len()
        invariant
            0 <= k <= m@.len(),
            forall|j: int| 0 <= j < k ==> !#[trigger] equivalent_spec(m@[j], *t),
        decreases m@.len() - k,
    {
        if m[k].is_equivalent_to(t) {
            return true;
        }
        k += 1;
    }
    false
}


fn crosses(a: &Disjunction, b: &Disjunction) -> (r: bool)
    ensures
        r == crosses_negation(a@, b@),
{
    let mut i: usize = 0;
    while i < a.terms.len()
        invariant
            0 <= i <= a@.len(),
            forall|x: int, y: int| 0 <= x < i && 0 <= y < b@.len() ==> !#[trigger] negation_spec(a@[x], b@[y]),
        decreases a@.len() - i,
    {
        let mut j: usize = 0;
        while j < b.terms.len()
            invariant
                0 <= i < a@.len(),
                0 <= j <= b@.len(),
                forall|x: int, y: int| 0 <= x < i && 0 <= y < b@.len() ==> !#[trigger] negation_spec(a@[x], b@[y]),
                forall|y: int| 0 <= y < j ==> !#[trigger] negation_spec(a@[i as int], b@[y]),
            decreases b@.len() - j,
        {
            if a.terms[i].is_negation_of(&b.terms[j]) {
                assert(negation_spec(a@[i as int], b@[j as int]));
                return true;
            }
            j += 1;
        }
        i += 1;
    }
    false
}

fn unit_contradiction(clauses: &Vec<Disjunction>) -> (r: bool)
    ensures
        r == has_unit_contradiction(clauses_view(clauses@)),
{
    let ghost cs = clauses_view(clauses@);
    let mut i: usize = 0;
    while i < clauses.len()
        invariant
            0 <= i <= clauses@.len(),
            cs == clauses_view(clauses@),
            forall|x: int, y: int|
                0 <= x < i && 0 <= y < cs.len() && cs[x].len() == 1 && cs[y].len() == 1
                    ==> !#[trigger] negation_spec(cs[x][0], cs[y][0]),
        decreases clauses@.len() - i,
    {
        if clauses[i].terms.len() == 1 {
            let mut j: usize = 0;
            while j < clauses.len()
                invariant
                    0 <= i < clauses@.len(),
                    0 <= j <= clauses@.len(),
                    cs == clauses_view(clauses@),
                    cs[i as int].len() == 1,
                    forall|x: int, y: int|
                        0 <= x < i && 0 <= y < cs.len() && cs[x].len() == 1 && cs[y].len() == 1
                            ==> !#[trigger] negation_spec(cs[x][0], cs[y][0]),
                    forall|y: int|
                        0 <= y < j && cs[y].len() == 1 ==> !#[trigger] negation_spec(cs[i as int][0], cs[y][0]),
                decreases clauses@.len() - j,
            {
                if clauses[j].terms.len() == 1 && clauses[i].terms[0].is_negation_of(&clauses[j].terms[0]) {
                    assert(cs[i as int] == clauses@[i as int]@);
                    assert(cs[j as int] == clauses@[j as int]@);
                    assert(negation_spec(cs[i as int][0], cs[j as int][0]));
                    return true;
                }
                j += 1;
            }
        }
        i += 1;
    }
    false
}

impl Disjunction {
    /// A copy with the same terms.
    pub fn duplicate(&self) -> (r: Disjunction)
        ensures
            r@ == self@,
    {
        Disjunction { terms: copy_terms(&self.terms) }
    }

    /// Whether some term holds of the pair of records.
    pub fn run(&self, left: &Record, right: &Record) -> (r: bool)
        ensures
            r == dis_eval(self@, left@, right@),
    {
        let mut k: usize = 0;
        while k < self.terms.len()
            invariant
                0 <= k <= self@.len(),
                forall|j: int| 0 <= j < k ==> !#[trigger] comp_eval(self@[j], left@, right@),
            decreases self@.len() - k,
        {
            if self.terms[k].run(left, right) {
                return true;
            }
            k += 1;
        }
        false
    }

    /// `a OR b`: none when some term of one is the complement of a term of
    /// the other (the clause always holds); otherwise the terms of `a`
    /// followed by those of `b` that are not equivalent to one present.
    pub fn or(a: &Disjunction, b: &Disjunction) -> (r: Option<Disjunction>)
        ensures
            match dis_or(a@, b@) {
                None => r is None,
                Some(d) => r is Some && r->Some_0@ == d,
            },
            r is None ==> forall|left: Seq<Cell>, right: Seq<Cell>|
                #[trigger] dis_eval(a@, left, right) || dis_eval(b@, left, right),
            r is Some ==> forall|left: Seq<Cell>, right: Seq<Cell>|
                #[trigger] dis_eval(r->Some_0@, left, right) == (dis_eval(a@, left, right) || dis_eval(b@, left, right)),
    {
        proof {
            assert forall|left: Seq<Cell>, right: Seq<Cell>|
                dis_or(a@, b@) is None implies (#[trigger] dis_eval(a@, left, right) || dis_eval(b@, left, right)) by {
                lemma_dis_or_eval(a@, b@, left, right);
            }
            assert forall|left: Seq<Cell>, right: Seq<Cell>|
                dis_or(a@, b@) is Some implies #[trigger] dis_eval(dis_or(a@, b@)->Some_0, left, right) == (dis_eval(
                    a@,
                    left,
                    right,
                ) || dis_eval(b@, left, right)) by {
                lemma_dis_or_eval(a@, b@, left, right);
            }
        }
        if crosses(a, b) {
            return None;
        }
        let mut m = copy_terms(&a.terms);
        let mut j: usize = 0;
        assert(b@.take(0) =~= Seq::<Comparison>::empty());
        while j < b.terms.len()
            invariant
                0 <= j <= b@.len(),
                m@ == merge_terms(a@, b@.take(j as int)),
            decreases b@.len() - j,
        {
            assert(b@.take(j + 1).drop_last() =~= b@.take(j as int));
            let t = b.terms[j];
            if !contains_equivalent(&m, &t) {
                m.push(t);
            }
            j += 1;
        }
        assert(b@.take(j as int) =~= b@);
        Some(Disjunction { terms: m })
    }

    /// De Morgan: the CNF of one unit clause holding the complement of each
    /// term.
    pub fn negate(&self) -> (r: Cnf)
        ensures
            r@ == (neg_dis(self@), false),
            forall|left: Seq<Cell>, right: Seq<Cell>| #[trigger] cnf_eval(r@, left, right) == !dis_eval(self@, left, right),
    {
        proof {
            assert forall|left: Seq<Cell>, right: Seq<Cell>| clauses_eval(neg_dis(self@), left, right) == !dis_eval(self@, left, right) by {
                lemma_neg_dis_eval(self@, left, right);
            }
        }
        let mut clauses: Vec<Disjunction> = Vec::new();
        let mut k: usize = 0;
        while k < self.terms.len()
            invariant
                0 <= k <= self@.len(),
                clauses@.len() == k,
                forall|j: int| 0 <= j < k ==> (#[trigger] clauses@[j])@ == seq![negate_comp(self@[j])],
            decreases self@.len() - k,
        {
            let n = self.terms[k].negate();
            let mut terms: Vec<Comparison> = Vec::new();
            terms.push(n);
            assert(terms@ =~= seq![negate_comp(self@[k as int])]);
            clauses.push(Disjunction { terms });
            k += 1;
        }
        let r = Cnf { clauses, is_false: false };
        assert(clauses_view(r.clauses@) =~= neg_dis(self@));
        r
    }
}

/// A conjunction of clauses, or the contradiction when `is_false` is set
/// (then there are no clauses). No clauses and no flag is the tautology.
#[derive(Clone, Debug)]
pub struct Cnf {
    pub clauses: Vec<Disjunction>,
    pub is_false: bool,
}

impl View for Cnf {
    type V = (Seq<Seq<Comparison>>, bool);

    open spec fn view(&self) -> (Seq<Seq<Comparison>>, bool) {
        (clauses_view(self.clauses@), self.is_false)
    }
}

impl Cnf {
    /// A contradiction carries no clauses.
    pub open spec fn wf(&self) -> bool {
        self.is_false ==> self.clauses@.len() == 0
    }

    /// The tautology: no clauses.
    pub fn new() -> (r: Cnf)
        ensures
            r@ == (Seq::<Seq<Comparison>>::empty(), false),
            r.wf(),
            forall|left: Seq<Cell>, right: Seq<Cell>| #[trigger] cnf_eval(r@, left, right),
    {
        let r = Cnf { clauses: Vec::new(), is_false: false };
        assert(clauses_view(r.clauses@) =~= Seq::<Seq<Comparison>>::empty());
        r
    }

    /// The contradiction.
    pub fn contradiction() -> (r: Cnf)
        ensures
            r@ == (Seq::<Seq<Comparison>>::empty(), true),
            r.wf(),
            forall|left: Seq<Cell>, right: Seq<Cell>| !#[trigger] cnf_eval(r@, left, right),
    {
        let r = Cnf { clauses: Vec::new(), is_false: true };
        assert(clauses_view(r.clauses@) =~= Seq::<Seq<Comparison>>::empty());
        r
    }

    /// A CNF of one clause.
    pub fn from_clause(d: Disjunction) -> (r: Cnf)
        ensures
            r@ == (seq![d@], false),
            r.wf(),
    {
        let mut clauses: Vec<Disjunction> = Vec::new();
        let ghost dv = d@;
        clauses.push(d);
        let r = Cnf { clauses, is_false: false };
        assert(clauses_view(r.clauses@) =~= seq![dv]);
        r
    }

    /// A copy with the same clauses and flag.
    pub fn duplicate(&self) -> (r: Cnf)
        ensures
            r@ == self@,
            self.wf() ==> r.wf(),
    {
        Cnf { clauses: copy_clauses(&self.clauses), is_false: self.is_false }
    }

    /// Whether the CNF holds of a pair of records; literal operands read
    /// from `right`.
    pub fn run(&self, left: &Record, right: &Record) -> (r: bool)
        ensures
            r == cnf_eval(self@, left@, right@),
    {
        if self.is_false {
            return false;
        }
        let mut k: usize = 0;
        while k < self.clauses.len()
            invariant
                0 <= k <= self.clauses@.len(),
                !self.is_false,
                forall|j: int| 0 <= j < k ==> #[trigger] dis_eval(self@.0[j], left@, right@),
            decreases self.clauses@.len() - k,
        {
            if !self.clauses[k].run(left, right) {
                assert(!dis_eval(self@.0[k as int], left@, right@));
                return false;
            }
            k += 1;
        }
        true
    }

    /// `a AND b`: the clauses of both, or the contradiction when either is
    /// one or when two unit clauses complement each other.
    pub fn and(a: &Cnf, b: &Cnf) -> (r: Cnf)
        ensures
            r@ == cnf_and_spec(a@, b@),
            r.wf(),
            forall|left: Seq<Cell>, right: Seq<Cell>|
                #[trigger] cnf_eval(r@, left, right) == (cnf_eval(a@, left, right) && cnf_eval(b@, left, right)),
    {
        proof {
            assert forall|left: Seq<Cell>, right: Seq<Cell>|
                cnf_eval(cnf_and_spec(a@, b@), left, right) == (cnf_eval(a@, left, right) && cnf_eval(b@, left, right)) by {
                lemma_and_eval(a@, b@, left, right);
            }
        }
        if a.is_false || b.is_false {
            return Cnf::contradiction();
        }
        let mut clauses = copy_clauses(&a.clauses);
        let mut k: usize = 0;
        let ghost av = clauses_view(a.clauses@);
        while k < b.clauses.len()
            invariant
                0 <= k <= b.clauses@.len(),
                clauses_view(clauses@) == av + clauses_view(b.clauses@).take(k as int),
            decreases b.clauses@.len() - k,
        {
            let ghost before = clauses_view(clauses@);
            let d = b.clauses[k].duplicate();
            clauses.push(d);
            assert(clauses_view(clauses@) =~= before.push(d@));
            assert(av + clauses_view(b.clauses@).take(k + 1) =~= (av + clauses_view(b.clauses@).take(k as int)).push(d@));
            k += 1;
        }
        assert(clauses_view(b.clauses@).take(k as int) =~= clauses_view(b.clauses@));
        if unit_contradiction(&clauses) {
            return Cnf::contradiction();
        }
        Cnf { clauses, is_false: false }
    }

    /// `a OR b`, distributed: one clause `ca OR cb` per pair of clauses,
    /// tautologies dropped; a contradiction on either side yields the
    /// other.
    pub fn or(a: &Cnf, b: &Cnf) -> (r: Cnf)
        requires
            a.wf(),
            b.wf(),
        ensures
            r@ == cnf_or_spec(a@, b@),
            r.wf(),
            forall|left: Seq<Cell>, right: Seq<Cell>|
                #[trigger] cnf_eval(r@, left, right) == (cnf_eval(a@, left, right) || cnf_eval(b@, left, right)),
    {
        proof {
            assert forall|left: Seq<Cell>, right: Seq<Cell>|
                cnf_eval(cnf_or_spec(a@, b@), left, right) == (cnf_eval(a@, left, right) || cnf_eval(b@, left, right)) by {
                lemma_or_eval(a@, b@, left, right);
            }
        }
        if a.is_false {
            return b.duplicate();
        }
        if b.is_false {
            return a.duplicate();
        }
        let ghost av = clauses_view(a.clauses@);
        let ghost bv = clauses_view(b.clauses@);
        let mut clauses: Vec<Disjunction> = Vec::new();
        let mut i: usize = 0;
        assert(av.take(0) =~= Seq::<Seq<Comparison>>::empty());
        assert(clauses_view(clauses@) =~= Seq::<Seq<Comparison>>::empty());
        while i < a.clauses.len()
            invariant
                0 <= i <= av.len(),
                av == clauses_view(a.clauses@),
                bv == clauses_view(b.clauses@),
                clauses_view(clauses@) == or_clauses(av.take(i as int), bv),
            decreases av.len() - i,
        {
            let ghost prefix = clauses_view(clauses@);
            let mut j: usize = 0;
            assert(bv.take(0) =~= Seq::<Seq<Comparison>>::empty());
            assert(prefix =~= prefix + pair_clauses(av[i as int], bv.take(0)));
            while j < b.clauses.len()
                invariant
                    0 <= i < av.len(),
                    0 <= j <= bv.len(),
                    av == clauses_view(a.clauses@),
                    bv == clauses_view(b.clauses@),
                    clauses_view(clauses@) == prefix + pair_clauses(av[i as int], bv.take(j as int)),
                decreases bv.len() - j,
            {
                assert(bv.take(j + 1).drop_last() =~= bv.take(j as int));
                assert(bv.take(j + 1).last() == bv[j as int]);
                assert(a.clauses@[i as int]@ == av[i as int]);
                assert(b.clauses@[j as int]@ == bv[j as int]);
                match Disjunction::or(&a.clauses[i], &b.clauses[j]) {
                    Some(d) => {
                        let ghost before = clauses_view(clauses@);
                        let ghost dv = d@;
                        clauses.push(d);
                        assert(clauses_view(clauses@) =~= before.push(dv));
                        assert(prefix + pair_clauses(av[i as int], bv.take(j + 1)) =~= (prefix + pair_clauses(
                            av[i as int],
                            bv.take(j as int),
                        )).push(dv));
                    },
                    None => {},
                }
                j += 1;
            }
            assert(bv.take(j as int) =~= bv);
            assert(av.take(i + 1).drop_last() =~= av.take(i as int));
            assert(av.take(i + 1).last() == av[i as int]);
            i += 1;
        }
        assert(av.take(i as int) =~= av);
        Cnf { clauses, is_false: false }
    }

    /// The complement: the contradiction for the tautology, the tautology
    /// for the contradiction, and otherwise the OR over the clauses of each
    /// clause's De Morgan negation.
    pub fn negate(&self) -> (r: Cnf)
        requires
            self.wf(),
        ensures
            r@ == cnf_negate_spec(self@),
            r.wf(),
            forall|left: Seq<Cell>, right: Seq<Cell>| #[trigger] cnf_eval(r@, left, right) == !cnf_eval(self@, left, right),
    {
        proof {
            assert forall|left: Seq<Cell>, right: Seq<Cell>| cnf_eval(cnf_negate_spec(self@), left, right) == !cnf_eval(self@, left, right) by {
                lemma_negate_eval(self@, left, right);
            }
        }
        if self.is_false {
            return Cnf::new();
        }
        if self.clauses.len() == 0 {
            return Cnf::contradiction();
        }
        let ghost cs = clauses_view(self.clauses@);
        let mut acc = self.clauses[0].negate();
        assert(cs.take(1).len() == 1 && cs.take(1)[0] == cs[0]);
        let mut i: usize = 1;
        while i < self.clauses.len()
            invariant
                1 <= i <= cs.len(),
                cs == clauses_view(self.clauses@),
                acc@ == (neg_clauses(cs.take(i as int)), false),
                acc.wf(),
            decreases cs.len() - i,
        {
            let n = self.clauses[i].negate();
            assert(cs.take(i + 1).drop_last() =~= cs.take(i as int));
            assert(cs.take(i + 1).last() == cs[i as int]);
            acc = Cnf::or(&acc, &n);
            i += 1;
        }
        assert(cs.take(i as int) =~= cs);
        acc
    }
}

/// The column at `i`, if there is one.
pub open spec fn cell_at(cells: Seq<Cell>, i: int) -> Option<Cell> {
    if 0 <= i < cells.len() {
        Some(cells[i])
    } else {
        None
    }
}

/// When position `i` is the first of its name in `s1` and the name occurs in
/// `s2`, the two records agree on it.
pub open spec fn pair_equal(s1: Seq<Attribute>, s2: Seq<Attribute>, left: Seq<Cell>, right: Seq<Cell>, i: int) -> bool {
    (index_in(s1, s1[i].name@) == i && has_name(s2, s1[i].name@)) ==> cell_order(
        s1[i].type_,
        cell_at(left, i),
        cell_at(right, index_in(s2, s1[i].name@)),
    ) == Order::Equal
}

/// The records agree on every name shared by the schemas (read at the
/// first position of the name in each).
pub open spec fn equijoin_holds(s1: Seq<Attribute>, s2: Seq<Attribute>, left: Seq<Cell>, right: Seq<Cell>) -> bool {
    forall|i: int| 0 <= i < s1.len() ==> #[trigger] pair_equal(s1, s2, left, right, i)
}

pub open spec fn equijoin_upto(s1: Seq<Attribute>, s2: Seq<Attribute>, left: Seq<Cell>, right: Seq<Cell>, n: int) -> bool {
    forall|i: int| 0 <= i < n ==> #[trigger] pair_equal(s1, s2, left, right, i)
}

/// Shifts the position of every literal operand by `k`.
pub open spec fn shift_comp(c: Comparison, k: int) -> Comparison {
    Comparison {
        which_att1: if c.operand1 == Target::Literal { (c.which_att1 + k) as i32 } else { c.which_att1 },
        which_att2: if c.operand2 == Target::Literal { (c.which_att2 + k) as i32 } else { c.which_att2 },
        ..c
    }
}

/// Whether every literal position of the clauses, shifted by `k`, still
/// fits in an `i32`.
pub open spec fn shift_fits(cs: Seq<Seq<Comparison>>, k: int) -> bool {
    forall|x: int, y: int|
        0 <= x < cs.len() && 0 <= y < cs[x].len() ==> {
            &&& (cs[x][y].operand1 == Target::Literal ==> i32::MIN <= #[trigger] cs[x][y].which_att1 + k <= i32::MAX)
            &&& (cs[x][y].operand2 == Target::Literal ==> i32::MIN <= cs[x][y].which_att2 + k <= i32::MAX)
        }
}

/// No two terms of the clause are complementary or equivalent.
pub open spec fn independent_terms(d: Seq<Comparison>) -> bool {
    forall|i: int, j: int|
        #![trigger d[i], d[j]]
        0 <= i < j < d.len() ==> !negation_spec(d[i], d[j]) && !equivalent_spec(d[i], d[j])
}

proof fn lemma_neg_neg_clauses(e: Seq<Comparison>)
    requires
        e.len() >= 1,
        independent_terms(e),
    ensures
        neg_clauses(neg_dis(e)) == seq![e],
    decreases e.len(),
{
    let cs = neg_dis(e);
    if e.len() == 1 {
        assert(cs[0] == seq![negate_comp(e[0])]);
        assert(neg_dis(cs[0]) =~= seq![seq![e[0]]]);
        assert(seq![e[0]] =~= e);
    } else {
        let p = e.drop_last();
        let x = e.last();
        assert(cs.drop_last() =~= neg_dis(p));
        assert forall|i: int, j: int|
            #![trigger p[i], p[j]]
            0 <= i < j < p.len() implies !negation_spec(p[i], p[j]) && !equivalent_spec(p[i], p[j]) by {
            assert(p[i] == e[i] && p[j] == e[j]);
            assert(!negation_spec(e[i], e[j]) && !equivalent_spec(e[i], e[j]));
        }
        lemma_neg_neg_clauses(p);
        assert(cs.last() == seq![negate_comp(x)]);
        assert(neg_dis(cs.last()) =~= seq![seq![x]]);
        let q = seq![seq![x]];
        assert(!crosses_negation(p, seq![x])) by {
            if crosses_negation(p, seq![x]) {
                let (i, j) = choose|i: int, j: int| 0 <= i < p.len() && 0 <= j < 1 && #[trigger] negation_spec(p[i], seq![x][j]);
                assert(p[i] == e[i]);
                assert(seq![x][j] == e[e.len() - 1]);
            }
        }
        assert(!has_equivalent(p, x)) by {
            if has_equivalent(p, x) {
                let k = choose|k: int| 0 <= k < p.len() && #[trigger] equivalent_spec(p[k], x);
                assert(p[k] == e[k]);
                assert(equivalent_spec(e[k], e[e.len() - 1]));
            }
        }
        assert(seq![x].drop_last() =~= Seq::<Comparison>::empty());
        assert(merge_terms(p, Seq::<Comparison>::empty()) == p);
        assert(merge_terms(p, seq![x]) == p.push(x));
        assert(p.push(x) =~= e);
        assert(q.drop_last() =~= Seq::<Seq<Comparison>>::empty());
        assert(pair_clauses(p, Seq::<Seq<Comparison>>::empty()) == Seq::<Seq<Comparison>>::empty());
        assert(q.last() == seq![x]);
        assert(dis_or(p, seq![x]) == Some(p.push(x)));
        assert(Seq::<Seq<Comparison>>::empty().push(e) =~= seq![e]);
        assert(pair_clauses(p, q) == seq![e]);
        let a = seq![p];
        assert(a.drop_last() =~= Seq::<Seq<Comparison>>::empty());
        assert(or_clauses(Seq::<Seq<Comparison>>::empty(), q) == Seq::<Seq<Comparison>>::empty());
        assert(a.last() == p);
        assert(or_clauses(a, q) == Seq::<Seq<Comparison>>::empty() + pair_clauses(p, q));
        assert(Seq::<Seq<Comparison>>::empty() + seq![e] =~= seq![e]);
    }
}

/// Negating twice a CNF of one clause whose terms are pairwise neither
/// complementary nor equivalent gives back that very CNF.
pub proof fn lemma_double_negation_one_clause(d: Seq<Comparison>)
    requires
        d.len() >= 1,
        independent_terms(d),
    ensures
        cnf_negate_spec(cnf_negate_spec((seq![d], false))) == (seq![d], false),
{
    let c = (seq![d], false);
    assert(seq![d].len() == 1);
    assert(neg_clauses(seq![d]) == neg_dis(d));
    assert(cnf_negate_spec(c) == (neg_dis(d), false));
    lemma_neg_neg_clauses(d);
}

/// Every term of `a` has an equivalent in `b`, so `a` implies `b`.
pub open spec fn subsumes(a: Seq<Comparison>, b: Seq<Comparison>) -> bool {
    forall|x: int| 0 <= x < a.len() ==> has_equivalent(b, #[trigger] a[x])
}

proof fn lemma_subsumes_eval(a: Seq<Comparison>, b: Seq<Comparison>, left: Seq<Cell>, right: Seq<Cell>)
    requires
        subsumes(a, b),
        dis_eval(a, left, right),
    ensures
        dis_eval(b, left, right),
{
    let x = choose|x: int| 0 <= x < a.len() && #[trigger] comp_eval(a[x], left, right);
    assert(has_equivalent(b, a[x]));
    let k = choose|k: int| 0 <= k < b.len() && #[trigger] equivalent_spec(b[k], a[x]);
    lemma_equivalent_eval(b[k], a[x], left, right);
}

fn subsumes_exec(a: &Disjunction, b: &Disjunction) -> (r: bool)
    ensures
        r == subsumes(a@, b@),
{
    let mut x: usize = 0;
    while x < a.terms.len()
        invariant
            0 <= x <= a@.len(),
            forall|y: int| 0 <= y < x ==> has_equivalent(b@, #[trigger] a@[y]),
        decreases a@.len() - x,
    {
        if !contains_equivalent(&b.terms, &a.terms[x]) {
            return false;
        }
        x += 1;
    }
    true
}

/// One pass: keeps each clause, in order, unless a clause kept before it
/// subsumes it.
fn drop_subsumed(cs: &Vec<Disjunction>) -> (r: Vec<Disjunction>)
    ensures
        forall|left: Seq<Cell>, right: Seq<Cell>|
            #[trigger] clauses_eval(clauses_view(r@), left, right) == clauses_eval(clauses_view(cs@), left, right),
        forall|i: int, j: int| 0 <= j < i < r@.len() ==> !#[trigger] subsumes(r@[j]@, r@[i]@),
        r@.len() <= cs@.len(),
{
    let ghost cv = clauses_view(cs@);
    let mut out: Vec<Disjunction> = Vec::new();
    let mut i: usize = 0;
    while i < cs.len()
        invariant
            0 <= i <= cs@.len(),
            cv == clauses_view(cs@),
            out@.len() <= i,
            forall|left: Seq<Cell>, right: Seq<Cell>|
                #[trigger] clauses_eval(clauses_view(out@), left, right) == clauses_eval(cv.take(i as int), left, right),
            forall|a: int, b: int| 0 <= b < a < out@.len() ==> !#[trigger] subsumes(out@[b]@, out@[a]@),
        decreases cs@.len() - i,
    {
        let d = &cs[i];
        assert(cv[i as int] == d@);
        let mut covered = false;
        let mut k: usize = 0;
        while k < out.len()
            invariant
                0 <= k <= out@.len(),
                covered ==> exists|j: int| 0 <= j < out@.len() && subsumes(out@[j]@, d@),
                !covered ==> forall|j: int| 0 <= j < k ==> !#[trigger] subsumes(out@[j]@, d@),
            decreases out@.len() - k,
        {
            if !covered && subsumes_exec(&out[k], d) {
                covered = true;
            }
            k += 1;
        }
        let ghost ov = clauses_view(out@);
        assert(cv.take(i + 1) =~= cv.take(i as int).push(d@));
        if covered {
            assert forall|left: Seq<Cell>, right: Seq<Cell>|
                #[trigger] clauses_eval(clauses_view(out@), left, right) == clauses_eval(cv.take(i + 1), left, right) by {
                lemma_clauses_eval_push(cv.take(i as int), d@, left, right);
                if clauses_eval(ov, left, right) {
                    let j = choose|j: int| 0 <= j < out@.len() && subsumes(out@[j]@, d@);
                    assert(ov[j] == out@[j]@);
                    assert(dis_eval(ov[j], left, right));
                    lemma_subsumes_eval(out@[j]@, d@, left, right);
                }
            }
        } else {
            let c = d.duplicate();
            out.push(c);
            assert(clauses_view(out@) =~= ov.push(d@));
            assert forall|left: Seq<Cell>, right: Seq<Cell>|
                #[trigger] clauses_eval(clauses_view(out@), left, right) == clauses_eval(cv.take(i + 1), left, right) by {
                lemma_clauses_eval_push(cv.take(i as int), d@, left, right);
                lemma_clauses_eval_push(ov, d@, left, right);
            }
        }
        i += 1;
    }
    assert(cv.take(i as int) =~= cv);
    out
}

impl Cnf {
    /// The same CNF without duplicate clauses and without clauses that an
    /// earlier clause subsumes (each of its terms has an equivalent in the
    /// later one); it holds of exactly the same pairs of records.
    pub fn minimize(&self) -> (r: Cnf)
        requires
            self.wf(),
        ensures
            r.wf(),
            r.is_false == self.is_false,
            r.clauses@.len() <= self.clauses@.len(),
            forall|left: Seq<Cell>, right: Seq<Cell>| #[trigger] cnf_eval(r@, left, right) == cnf_eval(self@, left, right),
            forall|i: int, j: int| 0 <= j < i < r.clauses@.len() ==> !#[trigger] subsumes(r.clauses@[j]@, r.clauses@[i]@),
    {
        let clauses = drop_subsumed(&self.clauses);
        Cnf { clauses, is_false: self.is_false }
    }
}

/// Every operand reads the left record or a literal at a position that is
/// not negative.
pub open spec fn left_and_literals(cs: Seq<Seq<Comparison>>) -> bool {
    forall|x: int, y: int|
        0 <= x < cs.len() && 0 <= y < cs[x].len() ==> {
            &&& (#[trigger] cs[x][y]).operand1 != Target::Right
            &&& cs[x][y].operand2 != Target::Right
            &&& (cs[x][y].operand1 == Target::Literal ==> cs[x][y].which_att1 >= 0)
            &&& (cs[x][y].operand2 == Target::Literal ==> cs[x][y].which_att2 >= 0)
        }
}

proof fn lemma_shift_comp_eval(t: Comparison, left: Seq<Cell>, ka: Seq<Cell>, kb: Seq<Cell>)
    requires
        t.operand1 != Target::Right,
        t.operand2 != Target::Right,
        t.operand1 == Target::Literal ==> 0 <= t.which_att1 && t.which_att1 + ka.len() <= i32::MAX,
        t.operand2 == Target::Literal ==> 0 <= t.which_att2 && t.which_att2 + ka.len() <= i32::MAX,
    ensures
        comp_eval(shift_comp(t, ka.len() as int), left, ka + kb) == comp_eval(t, left, kb),
{
    let k = ka + kb;
    if t.operand1 == Target::Literal && t.which_att1 < kb.len() {
        assert(k[t.which_att1 + ka.len()] == kb[t.which_att1 as int]);
    }
    if t.operand2 == Target::Literal && t.which_att2 < kb.len() {
        assert(k[t.which_att2 + ka.len()] == kb[t.which_att2 as int]);
    }
}

/// Literal positions moved past `ka`: once the literals of a condition are
/// stored after `ka` in a shared literals record, shifting its literal
/// positions by the length of `ka` keeps its meaning.
pub proof fn lemma_shift_constants(
    cs: Seq<Seq<Comparison>>,
    shifted: Seq<Seq<Comparison>>,
    left: Seq<Cell>,
    ka: Seq<Cell>,
    kb: Seq<Cell>,
)
    requires
        left_and_literals(cs),
        shift_fits(cs, ka.len() as int),
        shifted.len() == cs.len(),
        forall|x: int| 0 <= x < cs.len() ==> (#[trigger] shifted[x]).len() == cs[x].len(),
        forall|x: int, y: int|
            0 <= x < cs.len() && 0 <= y < cs[x].len() ==> #[trigger] shifted[x][y] == shift_comp(cs[x][y], ka.len() as int),
    ensures
        clauses_eval(shifted, left, ka + kb) == clauses_eval(cs, left, kb),
{
    assert forall|x: int| 0 <= x < cs.len() implies #[trigger] dis_eval(shifted[x], left, ka + kb) == dis_eval(cs[x], left, kb) by {
        assert forall|y: int| 0 <= y < cs[x].len() implies #[trigger] comp_eval(shifted[x][y], left, ka + kb) == comp_eval(cs[x][y], left, kb) by {
            let t = cs[x][y];
            assert(t.operand1 != Target::Right);
            lemma_shift_comp_eval(t, left, ka, kb);
        }
        if dis_eval(cs[x], left, kb) {
            let y = choose|y: int| 0 <= y < cs[x].len() && #[trigger] comp_eval(cs[x][y], left, kb);
            assert(comp_eval(shifted[x][y], left, ka + kb));
        }
        if dis_eval(shifted[x], left, ka + kb) {
            let y = choose|y: int| 0 <= y < shifted[x].len() && #[trigger] comp_eval(shifted[x][y], left, ka + kb);
            assert(comp_eval(cs[x][y], left, kb));
        }
    }
    if clauses_eval(cs, left, kb) {
        assert forall|x: int| 0 <= x < shifted.len() implies #[trigger] dis_eval(shifted[x], left, ka + kb) by {
            assert(dis_eval(cs[x], left, kb));
        }
    }
    if clauses_eval(shifted, left, ka + kb) {
        assert forall|x: int| 0 <= x < cs.len() implies #[trigger] dis_eval(cs[x], left, kb) by {
            assert(dis_eval(shifted[x], left, ka + kb));
        }
    }
}

impl Cnf {
    /// One clause `Left[i] = Right[j]` for each name of `left_schema` (at its
    /// first position `i`) that `right_schema` holds (first at `j`).
    pub fn extract_equijoin(left_schema: &Schema, right_schema: &Schema) -> (r: Cnf)
        requires
            left_schema.atts().len() <= i32::MAX,
            right_schema.atts().len() <= i32::MAX,
        ensures
            r.wf(),
            !r.is_false,
            forall|left: Seq<Cell>, right: Seq<Cell>|
                #[trigger] cnf_eval(r@, left, right) == equijoin_holds(left_schema.atts(), right_schema.atts(), left, right),
    {
        let atts = left_schema.get_atts();
        let ghost s1 = left_schema.atts();
        let ghost s2 = right_schema.atts();
        let mut clauses: Vec<Disjunction> = Vec::new();
        let mut i: usize = 0;
        while i < atts.len()
            invariant
                0 <= i <= s1.len(),
                atts@ == s1,
                s1 == left_schema.atts(),
                s2 == right_schema.atts(),
                s1.len() <= i32::MAX,
                s2.len() <= i32::MAX,
                forall|left: Seq<Cell>, right: Seq<Cell>|
                    #[trigger] clauses_eval(clauses_view(clauses@), left, right) == equijoin_upto(s1, s2, left, right, i as int),
            decreases s1.len() - i,
        {
            let ghost before = clauses_view(clauses@);
            let name = atts[i].name.as_str();
            let first = left_schema.index_of(name);
            let other = right_schema.index_of(name);
            if first == Some(i) && other.is_some() {
                let j = other.unwrap();
                let c = Comparison {
                    operand1: Target::Left,
                    which_att1: i as i32,
                    operand2: Target::Right,
                    which_att2: j as i32,
                    attr_type: atts[i].type_,
                    op: CompOp::Equal,
                };
                let mut terms: Vec<Comparison> = Vec::new();
                terms.push(c);
                let d = Disjunction { terms };
                assert(d@ =~= seq![c]);
                clauses.push(d);
                assert(clauses_view(clauses@) =~= before.push(seq![c]));
                assert forall|left: Seq<Cell>, right: Seq<Cell>|
                    #[trigger] clauses_eval(clauses_view(clauses@), left, right) == equijoin_upto(s1, s2, left, right, i + 1) by {
                    lemma_clauses_eval_push(before, seq![c], left, right);
                    assert(seq![c][0] == c);
                    assert(dis_eval(seq![c], left, right) == comp_eval(c, left, right));
                    assert(operand_cell(Target::Left, i as i32, left, right) == cell_at(left, i as int));
                    assert(pair_equal(s1, s2, left, right, i as int) == comp_eval(c, left, right));
                    assert(equijoin_upto(s1, s2, left, right, i + 1) == (equijoin_upto(s1, s2, left, right, i as int) && pair_equal(s1, s2, left, right, i as int)));
                }
            } else {
                assert forall|left: Seq<Cell>, right: Seq<Cell>|
                    #[trigger] clauses_eval(clauses_view(clauses@), left, right) == equijoin_upto(s1, s2, left, right, i + 1) by {
                    assert(pair_equal(s1, s2, left, right, i as int));
                    assert(equijoin_upto(s1, s2, left, right, i + 1) == (equijoin_upto(s1, s2, left, right, i as int) && pair_equal(s1, s2, left, right, i as int)));
                }
            }
            i += 1;
        }
        Cnf { clauses, is_false: false }
    }

    /// Adds `k` to the position of every literal operand, so that the
    /// literals can live after `k` others in a shared literals record.
    pub fn increase_constants_offset(&mut self, k: i32)
        requires
            shift_fits(old(self)@.0, k as int),
        ensures
            final(self)@.1 == old(self)@.1,
            final(self)@.0.len() == old(self)@.0.len(),
            forall|x: int| 0 <= x < old(self)@.0.len() ==> (#[trigger] final(self)@.0[x]).len() == old(self)@.0[x].len(),
            forall|x: int, y: int|
                0 <= x < old(self)@.0.len() && 0 <= y < old(self)@.0[x].len() ==> #[trigger] final(self)@.0[x][y]
                    == shift_comp(old(self)@.0[x][y], k as int),
            old(self).wf() ==> final(self).wf(),
    {
        let ghost cs = self@.0;
        let mut clauses: Vec<Disjunction> = Vec::new();
        let mut x: usize = 0;
        while x < self.clauses.len()
            invariant
                0 <= x <= cs.len(),
                cs == self@.0,
                shift_fits(cs, k as int),
                clauses@.len() == x,
                forall|a: int| 0 <= a < x ==> (#[trigger] clauses@[a])@.len() == cs[a].len(),
                forall|a: int, b: int|
                    0 <= a < x && 0 <= b < cs[a].len() ==> #[trigger] clauses@[a]@[b] == shift_comp(cs[a][b], k as int),
            decreases cs.len() - x,
        {
            let d = &self.clauses[x];
            assert(d@ == cs[x as int]);
            let mut terms: Vec<Comparison> = Vec::new();
            let mut y: usize = 0;
            while y < d.terms.len()
                invariant
                    0 <= x < cs.len(),
                    0 <= y <= d@.len(),
                    d@ == cs[x as int],
                    shift_fits(cs, k as int),
                    terms@.len() == y,
                    forall|b: int| 0 <= b < y ==> #[trigger] terms@[b] == shift_comp(cs[x as int][b], k as int),
                decreases d@.len() - y,
            {
                let c = d.terms[y];
                assert(c == cs[x as int][y as int]);
                let a1 = if c.operand1 == Target::Literal { c.which_att1 + k } else { c.which_att1 };
                let a2 = if c.operand2 == Target::Literal { c.which_att2 + k } else { c.which_att2 };
                terms.push(Comparison { which_att1: a1, which_att2: a2, ..c });
                y += 1;
            }
            clauses.push(Disjunction { terms });
            x += 1;
        }
        self.clauses = clauses;
        assert forall|a: int| 0 <= a < cs.len() implies (#[trigger] self@.0[a]).len() == cs[a].len() by {
            assert(self@.0[a] == clauses@[a]@);
        }
        assert forall|a: int, b: int|
            0 <= a < cs.len() && 0 <= b < cs[a].len() implies #[trigger] self@.0[a][b] == shift_comp(cs[a][b], k as int) by {
            assert(self@.0[a] == clauses@[a]@);
        }
    }
}

} // verus!
