use vstd::prelude::*;

use crate::cnf::cell_at;
use crate::comparison::{cell_order, compare_values, Order};
use crate::record::{Cell, Record};
use crate::schema::Schema;
use crate::types::Type;

verus! {

/// Incomparable columns count as equal when ordering records.
pub open spec fn settle(o: Order) -> Order {
    if o == Order::Unordered {
        Order::Equal
    } else {
        o
    }
}

/// Lexicographic order of `left` read at the positions of `lk` against
/// `right` read at the positions of `rk`, pair by pair, as far as the
/// shorter list goes; the type of each pair is the left one's.
pub open spec fn keys_order(lk: Seq<(i32, Type)>, rk: Seq<(i32, Type)>, left: Seq<Cell>, right: Seq<Cell>) -> Order
    decreases lk.len(),
{
    if lk.len() == 0 || rk.len() == 0 {
        Order::Equal
    } else {
        let o = settle(cell_order(lk[0].1, cell_at(left, lk[0].0 as int), cell_at(right, rk[0].0 as int)));
        if o != Order::Equal {
            o
        } else {
            keys_order(lk.skip(1), rk.skip(1), left, right)
        }
    }
}

/// A lexicographic ordering over records: positions with their types.
#[derive(Clone, Debug)]
pub struct OrderMaker {
    pub atts: Vec<(i32, Type)>,
}

impl OrderMaker {
    /// Orders by every attribute of the schema, in order.
    pub fn new(schema: &Schema) -> (r: OrderMaker)
        requires
            schema.atts().len() <= i32::MAX,
        ensures
            r.atts@.len() == schema.atts().len(),
            forall|i: int| 0 <= i < r.atts@.len() ==> #[trigger] r.atts@[i] == (i as i32, schema.atts()[i].type_),
    {
        let atts = schema.get_atts();
        let mut keys: Vec<(i32, Type)> = Vec::new();
        let mut i: usize = 0;
        while i < atts.len()
            invariant
                0 <= i <= atts@.len(),
                atts@ == schema.atts(),
                atts@.len() <= i32::MAX,
                keys@.len() == i,
                forall|j: int| 0 <= j < i ==> #[trigger] keys@[j] == (j as i32, schema.atts()[j].type_),
            decreases atts@.len() - i,
        {
            keys.push((i as i32, atts[i].type_));
            i += 1;
        }
        OrderMaker { atts: keys }
    }

    /// Orders by the attributes at the positions `to_keep` that exist, as
    /// they stand after projecting on them: the `k`-th kept one is at
    /// position `k`.
    pub fn new_projected(schema: &Schema, to_keep: &[usize]) -> (r: OrderMaker)
        requires
            to_keep@.len() <= i32::MAX,
        ensures
            r.atts@.len() == kept_types(schema.atts().map_values(|a: crate::schema::Attribute| a.type_), to_keep@).len(),
            forall|i: int| 0 <= i < r.atts@.len() ==> #[trigger] r.atts@[i] == (i as i32, kept_types(
                schema.atts().map_values(|a: crate::schema::Attribute| a.type_),
                to_keep@,
            )[i]),
    {
        let atts = schema.get_atts();
        let ghost types = schema.atts().map_values(|a: crate::schema::Attribute| a.type_);
        let mut keys: Vec<(i32, Type)> = Vec::new();
        let mut k: usize = 0;
        while k < to_keep.len()
            invariant
                0 <= k <= to_keep@.len(),
                to_keep@.len() <= i32::MAX,
                atts@ == schema.atts(),
                types == schema.atts().map_values(|a: crate::schema::Attribute| a.type_),
                keys@.len() == kept_types(types, to_keep@.take(k as int)).len(),
                keys@.len() <= k,
                forall|i: int| 0 <= i < keys@.len() ==> #[trigger] keys@[i] == (i as i32, kept_types(types, to_keep@.take(k as int))[i]),
            decreases to_keep@.len() - k,
        {
            assert(to_keep@.take(k + 1).drop_last() =~= to_keep@.take(k as int));
            let p = to_keep[k];
            if p < atts.len() {
                keys.push((keys.len() as i32, atts[p].type_));
            }
            k += 1;
        }
        assert(to_keep@.take(k as int) =~= to_keep@);
        OrderMaker { atts: keys }
    }

    /// How `left` compares with `right` under this ordering.
    pub fn run(&self, left: &Record, right: &Record) -> (r: Order)
        ensures
            r == keys_order(self.atts@, self.atts@, left@, right@),
    {
        self.run_with_different_order(left, right, self)
    }

    /// How `left`, read under this ordering, compares with `right`, read
    /// under `other`.
    pub fn run_with_different_order(&self, left: &Record, right: &Record, other: &OrderMaker) -> (r: Order)
        ensures
            r == keys_order(self.atts@, other.atts@, left@, right@),
    {
        let mut i: usize = 0;
        assert(self.atts@.skip(0) =~= self.atts@);
        assert(other.atts@.skip(0) =~= other.atts@);
        while i < self.atts.len() && i < other.atts.len()
            invariant
                0 <= i <= self.atts@.len(),
                i <= other.atts@.len(),
                keys_order(self.atts@, other.atts@, left@, right@) == keys_order(
                    self.atts@.skip(i as int),
                    other.atts@.skip(i as int),
                    left@,
                    right@,
                ),
            decreases self.atts@.len() - i,
        {
            let (la, lt) = self.atts[i];
            let (ra, _) = other.atts[i];
            let a = if la < 0 { None } else { left.get_column(la as usize) };
            let b = if ra < 0 { None } else { right.get_column(ra as usize) };
            let o = compare_values(lt, a, b);
            assert(self.atts@.skip(i as int)[0] == self.atts@[i as int]);
            assert(other.atts@.skip(i as int)[0] == other.atts@[i as int]);
            if o == Order::Less || o == Order::Greater {
                return o;
            }
            assert(self.atts@.skip(i as int).skip(1) =~= self.atts@.skip(i + 1));
            assert(other.atts@.skip(i as int).skip(1) =~= other.atts@.skip(i + 1));
            i += 1;
        }
        Order::Equal
    }
}

/// The types at the positions of `keep` that exist, in order.
pub open spec fn kept_types(types: Seq<Type>, keep: Seq<usize>) -> Seq<Type>
    decreases keep.len(),
{
    if keep.len() == 0 {
        Seq::empty()
    } else {
        let p = kept_types(types, keep.drop_last());
        if keep.last() < types.len() {
            p.push(types[keep.last() as int])
        } else {
            p
        }
    }
}

} // verus!
