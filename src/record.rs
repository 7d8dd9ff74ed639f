use vstd::prelude::*;

use crate::schema::Schema;
use crate::types::Type;

verus! {

/// One column of a record. A float is held as its IEEE-754 bit pattern.
#[derive(Clone, Debug)]
pub enum Value {
    Integer(i64),
    Float(u64),
    String(Vec<u8>),
}

/// The mathematical content of a column.
pub enum Cell {
    Int(i64),
    Flt(u64),
    Str(Seq<u8>),
}

impl View for Value {
    type V = Cell;

    open spec fn view(&self) -> Cell {
        match self {
            Value::Integer(v) => Cell::Int(*v),
            Value::Float(b) => Cell::Flt(*b),
            Value::String(s) => Cell::Str(s@),
        }
    }
}

/// A copy of a byte string.
pub fn copy_bytes(s: &Vec<u8>) -> (r: Vec<u8>)
    ensures
        r@ == s@,
{
    let mut r: Vec<u8> = Vec::new();
    let mut i: usize = 0;
    while i < s.len()
        invariant
            0 <= i <= s@.len(),
            r@ == s@.take(i as int),
        decreases s@.len() - i,
    {
        r.push(s[i]);
        assert(s@.take(i + 1) =~= s@.take(i as int).push(s@[i as int]));
        i += 1;
    }
    assert(s@.take(i as int) =~= s@);
    r
}

/// Whether two byte strings are equal.
pub fn bytes_equal(a: &Vec<u8>, b: &Vec<u8>) -> (r: bool)
    ensures
        r == (a@ == b@),
{
    if a.len() != b.len() {
        return false;
    }
    let mut i: usize = 0;
    while i < a.len()
        invariant
            0 <= i <= a@.len(),
            a@.len() == b@.len(),
            forall|j: int| 0 <= j < i ==> a@[j] == b@[j],
        decreases a@.len() - i,
    {
        if a[i] != b[i] {
            return false;
        }
        i += 1;
    }
    assert(a@ =~= b@);
    true
}

impl Value {
    /// A copy with the same content.
    pub fn duplicate(&self) -> (r: Value)
        ensures
            r@ == self@,
    {
        match self {
            Value::Integer(v) => Value::Integer(*v),
            Value::Float(b) => Value::Float(*b),
            Value::String(s) => Value::String(copy_bytes(s)),
        }
    }

    /// Whether two columns have the same kind and content.
    pub fn same_as(&self, other: &Value) -> (r: bool)
        ensures
            r == (self@ == other@),
    {
        match (self, other) {
            (Value::Integer(a), Value::Integer(b)) => *a == *b,
            (Value::Float(a), Value::Float(b)) => *a == *b,
            (Value::String(a), Value::String(b)) => bytes_equal(a, b),
            _ => false,
        }
    }
}

/// The content of a sequence of columns.
pub open spec fn cells_of(vs: Seq<Value>) -> Seq<Cell> {
    vs.map_values(|v: Value| v@)
}

/// A copy of a sequence of columns.
pub fn copy_values(vs: &Vec<Value>) -> (r: Vec<Value>)
    ensures
        cells_of(r@) == cells_of(vs@),
{
    let mut r: Vec<Value> = Vec::new();
    let mut i: usize = 0;
    while i < vs.len()
        invariant
            0 <= i <= vs@.len(),
            r@.len() == i,
            forall|j: int| 0 <= j < i ==> (#[trigger] r@[j])@ == vs@[j]@,
        decreases vs@.len() - i,
    {
        let v = vs[i].duplicate();
        r.push(v);
        i += 1;
    }
    assert(cells_of(r@) =~= cells_of(vs@));
    r
}

/// A tuple of typed columns.
#[derive(Clone, Debug)]
pub struct Record {
    values: Vec<Value>,
}

impl View for Record {
    type V = Seq<Cell>;

    closed spec fn view(&self) -> Seq<Cell> {
        cells_of(self.values@)
    }
}

impl Record {
    /// A record without columns.
    pub fn new() -> (r: Record)
        ensures
            r@ == Seq::<Cell>::empty(),
    {
        let r = Record { values: Vec::new() };
        assert(r@ =~= Seq::<Cell>::empty());
        r
    }

    /// A record holding the given columns.
    pub fn from_values(values: Vec<Value>) -> (r: Record)
        ensures
            r@ == cells_of(values@),
    {
        Record { values }
    }

    /// A copy with the same columns.
    pub fn duplicate(&self) -> (r: Record)
        ensures
            r@ == self@,
    {
        Record { values: copy_values(&self.values) }
    }

    /// Whether two records hold the same columns.
    pub fn same_as(&self, other: &Record) -> (r: bool)
        ensures
            r == (self@ == other@),
    {
        if self.values.len() != other.values.len() {
            proof {
                assert(self@.len() != other@.len());
            }
            return false;
        }
        let mut i: usize = 0;
        while i < self.values.len()
            invariant
                0 <= i <= self@.len(),
                self@.len() == other@.len(),
                self.values@.len() == self@.len(),
                other.values@.len() == other@.len(),
                forall|j: int| 0 <= j < i ==> self@[j] == other@[j],
            decreases self@.len() - i,
        {
            if !self.values[i].same_as(&other.values[i]) {
                assert(self@[i as int] != other@[i as int]);
                return false;
            }
            i += 1;
        }
        assert(self@ =~= other@);
        true
    }

    /// The number of columns.
    pub fn num_columns(&self) -> (r: usize)
        ensures
            r == self@.len(),
    {
        self.values.len()
    }

    /// The `index`-th column, if there is one.
    pub fn get_column(&self, index: usize) -> (r: Option<&Value>)
        ensures
            r is Some <==> index < self@.len(),
            r is Some ==> r->Some_0@ == self@[index as int],
    {
        if index < self.values.len() {
            Some(&self.values[index])
        } else {
            None
        }
    }

    /// All columns, in order.
    pub fn get_data(&self) -> (r: &Vec<Value>)
        ensures
            cells_of(r@) == self@,
    {
        &self.values
    }

    /// An estimate of the bytes the record takes, for page budgeting:
    /// eight per column and one per string byte (saturating).
    pub fn get_size(&self) -> (r: usize)
        ensures
            r == cap_usize(size_of_cells(self@)),
    {
        let mut total: usize = 0;
        let mut i: usize = 0;
        while i < self.values.len()
            invariant
                0 <= i <= self.values@.len(),
                self.values@.len() == self@.len(),
                total == cap_usize(size_of_cells(self@.take(i as int))),
            decreases self.values@.len() - i,
        {
            assert(self@.take(i + 1).drop_last() =~= self@.take(i as int));
            proof {
                lemma_size_le_bound(self@.take(i as int));
            }
            let add: usize = match &self.values[i] {
                Value::String(s) => if s.len() > usize::MAX - 8 { usize::MAX } else { 8 + s.len() },
                _ => 8,
            };
            total = if total > usize::MAX - add { usize::MAX } else { total + add };
            i += 1;
        }
        assert(self@.take(i as int) =~= self@);
        total
    }

    /// Drops every column.
    pub fn clear(&mut self)
        ensures
            final(self)@ == Seq::<Cell>::empty(),
    {
        self.values.clear();
        assert(self@ =~= Seq::<Cell>::empty());
    }

    /// Keeps the columns at the given positions, in that order; fails, with
    /// nothing changed, when a position is out of range.
    pub fn project(&mut self, atts_to_keep: &[i32]) -> (r: Option<()>)
        ensures
            r is Some <==> forall|k: int|
                0 <= k < atts_to_keep@.len() ==> 0 <= #[trigger] atts_to_keep@[k] < old(self)@.len(),
            r is Some ==> final(self)@ == project_cells(old(self)@, atts_to_keep@),
            r is None ==> final(self)@ == old(self)@,
    {
        let mut kept: Vec<Value> = Vec::new();
        let mut k: usize = 0;
        while k < atts_to_keep.len()
            invariant
                0 <= k <= atts_to_keep@.len(),
                self.values@.len() == self@.len(),
                forall|j: int| 0 <= j < k ==> 0 <= #[trigger] atts_to_keep@[j] < self@.len(),
                kept@.len() == k,
                forall|j: int| 0 <= j < k ==> (#[trigger] kept@[j])@ == self@[atts_to_keep@[j] as int],
            decreases atts_to_keep@.len() - k,
        {
            let idx = atts_to_keep[k];
            if idx < 0 || idx as usize >= self.values.len() {
                return None;
            }
            let v = self.values[idx as usize].duplicate();
            kept.push(v);
            k += 1;
        }
        assert(cells_of(kept@) =~= project_cells(self@, atts_to_keep@));
        self.values = kept;
        Some(())
    }

    /// Appends the columns of `other` after those of `self`.
    pub fn merge_right(&mut self, other: &Record)
        ensures
            final(self)@ == old(self)@ + other@,
    {
        let mut i: usize = 0;
        let ghost before = self@;
        assert(self.values@.len() == before.len());
        while i < other.values.len()
            invariant
                0 <= i <= other.values@.len(),
                other.values@.len() == other@.len(),
                self.values@.len() == before.len() + i,
                forall|j: int| 0 <= j < before.len() ==> (#[trigger] self.values@[j])@ == before[j],
                forall|j: int| 0 <= j < i ==> (#[trigger] self.values@[before.len() + j])@ == other@[j],
            decreases other.values@.len() - i,
        {
            let v = other.values[i].duplicate();
            self.values.push(v);
            i += 1;
        }
        assert forall|k: int| before.len() <= k < before.len() + other@.len() implies self@[k] == (before + other@)[k] by {
            assert(self.values@[before.len() + (k - before.len())]@ == other@[k - before.len()]);
        }
        assert(self@ =~= before + other@);
    }

    /// Puts the columns of `other` before those of `self`.
    pub fn merge_left(&mut self, other: &Record)
        ensures
            final(self)@ == other@ + old(self)@,
    {
        let mut joined = other.duplicate();
        joined.merge_right(self);
        *self = joined;
    }
}

/// The columns of `cells` at the positions `keep`, in that order.
pub open spec fn project_cells(cells: Seq<Cell>, keep: Seq<i32>) -> Seq<Cell> {
    keep.map_values(|k: i32| cells[k as int])
}

/// Eight bytes per column plus the bytes of its string, if any.
pub open spec fn size_of_cells(cells: Seq<Cell>) -> int
    decreases cells.len(),
{
    if cells.len() == 0 {
        0
    } else {
        size_of_cells(cells.drop_last()) + match cells.last() {
            Cell::Str(s) => 8 + s.len(),
            _ => 8,
        }
    }
}

pub open spec fn cap_usize(v: int) -> int {
    if v > usize::MAX { usize::MAX as int } else { v }
}

proof fn lemma_size_le_bound(cells: Seq<Cell>)
    ensures
        size_of_cells(cells) >= 0,
    decreases cells.len(),
{
    if cells.len() > 0 {
        lemma_size_le_bound(cells.drop_last());
    }
}

} // verus!
