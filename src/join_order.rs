use vstd::prelude::*;

use crate::schema::{clamp_i32, fresh_atts, join_estimate, Attribute, Schema};

verus! {

/// The attributes and estimated size of the first `k` tables of `order`
/// joined left-deep (each step as `Schema::join_right` estimates it).
pub open spec fn chain_state(schemas: Seq<Schema>, order: Seq<usize>, k: int) -> (Seq<Attribute>, int)
    decreases k,
{
    if k <= 1 {
        (schemas[order[0] as int].atts(), schemas[order[0] as int].tuples())
    } else {
        let prev = chain_state(schemas, order, k - 1);
        let next = schemas[order[k - 1] as int];
        (
            prev.0 + fresh_atts(prev.0, next.atts()),
            clamp_i32(join_estimate(prev.0, next.atts(), next.atts().len() as int, prev.1 * next.tuples())),
        )
    }
}

/// The estimated sizes of the intermediate results of the first `k`
/// tables of `order`, summed.
pub open spec fn prefix_cost(schemas: Seq<Schema>, order: Seq<usize>, k: int) -> int
    decreases k,
{
    if k <= 1 {
        0
    } else {
        prefix_cost(schemas, order, k - 1) + chain_state(schemas, order, k).1
    }
}

/// The cost of joining the tables in this order.
pub open spec fn order_cost(schemas: Seq<Schema>, order: Seq<usize>) -> int {
    prefix_cost(schemas, order, order.len() as int)
}

/// `p` lists each of `0..n` once.
pub open spec fn is_perm(p: Seq<usize>, n: nat) -> bool {
    &&& p.len() == n
    &&& forall|i: int| 0 <= i < p.len() ==> p[i] < n
    &&& forall|i: int, j: int| 0 <= i < j < p.len() ==> p[i] != p[j]
}

/// `p` starts with `prefix`.
pub open spec fn extends(p: Seq<usize>, prefix: Seq<usize>) -> bool {
    prefix.len() <= p.len() && p.take(prefix.len() as int) == prefix
}

pub(crate) fn copy_order(v: &Vec<usize>) -> (r: Vec<usize>)
    ensures
        r@ == v@,
{
    let mut r: Vec<usize> = Vec::new();
    let mut i: usize = 0;
    while i < v.len()
        invariant
            0 <= i <= v@.len(),
            r@ == v@.take(i as int),
        decreases v@.len() - i,
    {
        r.push(v[i]);
        assert(r@ =~= v@.take(i + 1));
        i += 1;
    }
    assert(v@.take(i as int) =~= v@);
    r
}

/// The cost of joining the tables in the given order.
pub fn join_order_cost(schemas: &Vec<Schema>, order: &Vec<usize>) -> (r: u64)
    requires
        1 <= order@.len() <= 0xFFFF_FFFF,
        forall|i: int| 0 <= i < order@.len() ==> order@[i] < schemas@.len(),
        forall|i: int| 0 <= i < schemas@.len() ==> (#[trigger] schemas@[i]).wf(),
    ensures
        r == order_cost(schemas@, order@),
{
    let mut acc = schemas[order[0]].duplicate();
    let mut cost: u64 = 0;
    let mut k: usize = 1;
    while k < order.len()
        invariant
            1 <= k <= order@.len(),
            order@.len() <= 0xFFFF_FFFF,
            forall|i: int| 0 <= i < order@.len() ==> order@[i] < schemas@.len(),
            forall|i: int| 0 <= i < schemas@.len() ==> (#[trigger] schemas@[i]).wf(),
            acc.wf(),
            acc.atts() == chain_state(schemas@, order@, k as int).0,
            acc.tuples() == chain_state(schemas@, order@, k as int).1,
            cost == prefix_cost(schemas@, order@, k as int),
            cost <= k * 0x7fff_ffff,
        decreases order@.len() - k,
    {
        let next = &schemas[order[k]];
        assert(next.wf());
        acc.join_right(next);
        let t = acc.get_no_tuples();
        cost = cost + t as u64;
        k += 1;
    }
    cost
}

/// The cheapest order among the permutations of `0..n` that start with
/// `prefix`, with its cost; none when no permutation starts with it.
fn search(schemas: &Vec<Schema>, prefix: &mut Vec<usize>) -> (r: Option<(Vec<usize>, u64)>)
    requires
        1 <= schemas@.len() <= 0xFFFF_FFFF,
        forall|i: int| 0 <= i < schemas@.len() ==> (#[trigger] schemas@[i]).wf(),
        old(prefix)@.len() <= schemas@.len(),
    ensures
        final(prefix)@ == old(prefix)@,
        match r {
            Some((best, c)) => {
                &&& is_perm(best@, schemas@.len())
                &&& extends(best@, old(prefix)@)
                &&& c == order_cost(schemas@, best@)
                &&& forall|p: Seq<usize>|
                    is_perm(p, schemas@.len()) && extends(p, old(prefix)@) ==> c <= #[trigger] order_cost(schemas@, p)
            },
            None => forall|p: Seq<usize>| !(#[trigger] is_perm(p, schemas@.len()) && extends(p, old(prefix)@)),
        },
    decreases schemas@.len() - old(prefix)@.len(),
{
    let n = schemas.len();
    let ghost pre = prefix@;
    if prefix.len() == n {
        let mut ok = true;
        let mut i: usize = 0;
        while i < n
            invariant
                0 <= i <= n,
                n == prefix@.len(),
                prefix@ == pre,
                ok == (forall|a: int| 0 <= a < i ==> prefix@[a] < n && forall|b: int| 0 <= b < a ==> prefix@[b] != prefix@[a]),
            decreases n - i,
        {
            if prefix[i] >= n {
                ok = false;
            }
            let mut j: usize = 0;
            let mut fresh = true;
            while j < i
                invariant
                    0 <= j <= i,
                    i < n,
                    n == prefix@.len(),
                    fresh == (forall|b: int| 0 <= b < j ==> prefix@[b] != prefix@[i as int]),
                decreases i - j,
            {
                if prefix[j] == prefix[i] {
                    fresh = false;
                }
                j += 1;
            }
            if !fresh {
                ok = false;
            }
            i += 1;
        }
        assert forall|p: Seq<usize>| is_perm(p, n as nat) && extends(p, pre) implies p == pre by {
            assert(p =~= p.take(n as int));
        }
        if !ok {
            assert forall|p: Seq<usize>| !(#[trigger] is_perm(p, schemas@.len()) && extends(p, pre)) by {
                if is_perm(p, n as nat) && extends(p, pre) {
                    assert(p == pre);
                }
            }
            return None;
        }
        let best = copy_order(prefix);
        let c = join_order_cost(schemas, &best);
        assert(best@ =~= best@.take(n as int));
        return Some((best, c));
    }
    let mut best: Option<(Vec<usize>, u64)> = None;
    let mut x: usize = 0;
    while x < n
        invariant
            0 <= x <= n,
            n == schemas@.len(),
            pre.len() < n,
            prefix@ == pre,
            pre == old(prefix)@,
            1 <= n <= 0xFFFF_FFFF,
            forall|i: int| 0 <= i < schemas@.len() ==> (#[trigger] schemas@[i]).wf(),
            match best {
                Some((b, c)) => {
                    &&& is_perm(b@, n as nat)
                    &&& extends(b@, pre)
                    &&& c == order_cost(schemas@, b@)
                    &&& forall|p: Seq<usize>|
                        is_perm(p, n as nat) && extends(p, pre) && p[pre.len() as int] < x ==> c <= #[trigger] order_cost(schemas@, p)
                },
                None => forall|p: Seq<usize>|
                    !(#[trigger] is_perm(p, n as nat) && extends(p, pre) && p[pre.len() as int] < x),
            },
        decreases n - x,
    {
        prefix.push(x);
        let ghost ext = prefix@;
        let r = search(schemas, prefix);
        prefix.pop();
        assert(prefix@ =~= pre);
        proof {
            assert forall|p: Seq<usize>| is_perm(p, n as nat) && extends(p, pre) && p[pre.len() as int] == x implies extends(p, ext) by {
                assert(p.take(ext.len() as int) =~= ext);
            }
        }
        match r {
            Some((b, c)) => {
                let better = match &best {
                    Some((_, bc)) => c < *bc,
                    None => true,
                };
                if better {
                    proof {
                        assert(b@.take(pre.len() as int) =~= pre) by {
                            assert(b@.take(ext.len() as int) == ext);
                        }
                    }
                    best = Some((b, c));
                }
            },
            None => {},
        }
        x += 1;
    }
    best
}

/// The order in which to join the tables, left-deep: of all orders, one
/// whose summed estimated intermediate sizes is least (every order is
/// tried).
pub fn optimal_join_order(schemas: &Vec<Schema>) -> (r: Vec<usize>)
    requires
        1 <= schemas@.len() <= 0xFFFF_FFFF,
        forall|i: int| 0 <= i < schemas@.len() ==> (#[trigger] schemas@[i]).wf(),
    ensures
        is_perm(r@, schemas@.len()),
        forall|p: Seq<usize>| is_perm(p, schemas@.len()) ==> order_cost(schemas@, r@) <= #[trigger] order_cost(schemas@, p),
{
    let mut prefix: Vec<usize> = Vec::new();
    let ghost id = Seq::new(schemas@.len(), |i: int| i as usize);
    assert(is_perm(id, schemas@.len()));
    assert(extends(id, prefix@)) by {
        assert(id.take(0) =~= prefix@);
    }
    match search(schemas, &mut prefix) {
        Some((best, _)) => {
            assert forall|p: Seq<usize>| is_perm(p, schemas@.len()) implies order_cost(schemas@, best@) <= #[trigger] order_cost(schemas@, p) by {
                assert(p.take(0) =~= Seq::<usize>::empty());
                assert(extends(p, Seq::<usize>::empty()));
            }
            best
        },
        None => {
            assert(false);
            Vec::new()
        },
    }
}

} // verus!
