use vstd::prelude::*;

use crate::types::Type;

verus! {

/// A named, typed column with an estimate of its number of distinct values
/// (zero meaning "unknown").
#[derive(Clone, Debug)]
pub struct Attribute {
    pub name: String,
    pub type_: Type,
    pub no_distinct: i32,
}

impl Attribute {
    /// An unnamed attribute of type `Name`.
    pub fn default() -> (r: Attribute)
        ensures
            r.name@ == Seq::<char>::empty(),
            r.type_ == Type::Name,
            r.no_distinct == 0,
    {
        Attribute { name: String::new(), type_: Type::Name, no_distinct: 0 }
    }

    /// A copy equal to `self` in every field.
    pub fn duplicate(&self) -> (r: Attribute)
        ensures
            r == *self,
    {
        Attribute { name: self.name.clone(), type_: self.type_, no_distinct: self.no_distinct }
    }
}

/// The type that a catalog spelling names.
pub open spec fn type_from_name(s: Seq<char>) -> Option<Type> {
    if s == "Integer"@ || s == "INTEGER"@ {
        Some(Type::Integer)
    } else if s == "Float"@ || s == "FLOAT"@ {
        Some(Type::Float)
    } else if s == "String"@ || s == "STRING"@ {
        Some(Type::String)
    } else {
        None
    }
}

/// Position of the first attribute called `name`, or -1 when there is none.
pub open spec fn index_in(atts: Seq<Attribute>, name: Seq<char>) -> int
    decreases atts.len(),
{
    if atts.len() == 0 {
        -1
    } else {
        let r = index_in(atts.drop_last(), name);
        if r >= 0 {
            r
        } else if atts.last().name@ == name {
            atts.len() - 1
        } else {
            -1
        }
    }
}

/// Whether some attribute is called `name`.
pub open spec fn has_name(atts: Seq<Attribute>, name: Seq<char>) -> bool {
    index_in(atts, name) >= 0
}

/// The attributes of `other`, in order, whose names `base` does not hold.
pub open spec fn fresh_atts(base: Seq<Attribute>, other: Seq<Attribute>) -> Seq<Attribute>
    decreases other.len(),
{
    if other.len() == 0 {
        Seq::empty()
    } else {
        let p = fresh_atts(base, other.drop_last());
        if has_name(base, other.last().name@) {
            p
        } else {
            p.push(other.last())
        }
    }
}

/// Tuple estimate after the first `n` attributes of `other` have been
/// considered: each one shared with `base` divides by the larger of the two
/// distinct counts, when that is not zero.
pub open spec fn join_estimate(base: Seq<Attribute>, other: Seq<Attribute>, n: int, start: int) -> int
    decreases n,
{
    if n <= 0 || n > other.len() {
        start
    } else {
        let prev = join_estimate(base, other, n - 1, start);
        let a = other[n - 1];
        if has_name(base, a.name@) {
            let ds = base[index_in(base, a.name@)].no_distinct as int;
            let d_o = other[index_in(other, a.name@)].no_distinct as int;
            let d = if ds >= d_o { ds } else { d_o };
            if d != 0 {
                prev / d
            } else {
                prev
            }
        } else {
            prev
        }
    }
}

pub open spec fn clamp_i32(v: int) -> int {
    if v > i32::MAX {
        i32::MAX as int
    } else {
        v
    }
}

/// `index_in` is the first position holding the name.
pub proof fn lemma_index_in(atts: Seq<Attribute>, name: Seq<char>)
    ensures
        -1 <= index_in(atts, name) < atts.len(),
        index_in(atts, name) == -1 <==> forall|j: int| 0 <= j < atts.len() ==> atts[j].name@ != name,
        index_in(atts, name) >= 0 ==> atts[index_in(atts, name)].name@ == name,
        forall|j: int| 0 <= j < index_in(atts, name) ==> atts[j].name@ != name,
    decreases atts.len(),
{
    if atts.len() > 0 {
        lemma_index_in(atts.drop_last(), name);
        assert forall|j: int| 0 <= j < atts.len() - 1 implies atts[j] == atts.drop_last()[j] by {}
    }
}

/// A position that holds the name, with none before it, is `index_in`.
pub proof fn lemma_index_in_is(atts: Seq<Attribute>, name: Seq<char>, i: int)
    requires
        0 <= i < atts.len(),
        atts[i].name@ == name,
        forall|j: int| 0 <= j < i ==> atts[j].name@ != name,
    ensures
        index_in(atts, name) == i,
{
    lemma_index_in(atts, name);
}

/// Whether two strings hold the same characters.
fn same_text(a: &String, b: &String) -> (r: bool)
    ensures
        r == (a@ == b@),
{
    a.eq(b)
}

/// The type that a catalog spelling names, if any.
pub(crate) fn parse_type(s: &String) -> (r: Option<Type>)
    ensures
        r == type_from_name(s@),
{
    if same_text(s, &"Integer".to_owned()) || same_text(s, &"INTEGER".to_owned()) {
        Some(Type::Integer)
    } else if same_text(s, &"Float".to_owned()) || same_text(s, &"FLOAT".to_owned()) {
        Some(Type::Float)
    } else if same_text(s, &"String".to_owned()) || same_text(s, &"STRING".to_owned()) {
        Some(Type::String)
    } else {
        None
    }
}

/// First position in `atts` of an attribute called `name`.
fn position_of(atts: &Vec<Attribute>, name: &String) -> (r: Option<usize>)
    ensures
        match r {
            Some(i) => i < atts@.len() && i as int == index_in(atts@, name@),
            None => index_in(atts@, name@) == -1,
        },
{
    proof {
        lemma_index_in(atts@, name@);
    }
    let mut i: usize = 0;
    while i < atts.len()
        invariant
            0 <= i <= atts.len(),
            forall|j: int| 0 <= j < i ==> atts@[j].name@ != name@,
        decreases atts.len() - i,
    {
        if same_text(&atts[i].name, name) {
            proof {
                lemma_index_in_is(atts@, name@, i as int);
            }
            return Some(i);
        }
        i += 1;
    }
    None
}

/// An ordered sequence of attributes with the number of tuples of the
/// relation and the path of its data file.
#[derive(Clone, Debug)]
pub struct Schema {
    no_tuples: i32,
    f_path: String,
    attributes: Vec<Attribute>,
}

impl Schema {
    /// The attributes, in order.
    pub closed spec fn atts(&self) -> Seq<Attribute> {
        self.attributes@
    }

    /// The estimated number of tuples.
    pub closed spec fn tuples(&self) -> int {
        self.no_tuples as int
    }

    /// The path of the data file.
    pub closed spec fn path(&self) -> Seq<char> {
        self.f_path@
    }

    /// Counts are never negative.
    pub closed spec fn wf(&self) -> bool {
        &&& self.no_tuples >= 0
        &&& forall|i: int| 0 <= i < self.attributes@.len() ==> self.attributes@[i].no_distinct >= 0
    }

    /// A schema with no attributes.
    pub fn default() -> (r: Schema)
        ensures
            r.wf(),
            r.atts().len() == 0,
            r.tuples() == 0,
            r.path() == Seq::<char>::empty(),
    {
        Schema { no_tuples: 0, f_path: String::new(), attributes: Vec::new() }
    }

    /// Builds a schema from parallel lists of names, type spellings
    /// ("Integer", "Float", "String", in either case style) and distinct
    /// counts; the shortest list decides how many attributes there are.
    pub fn new(
        attributes: &[String],
        attribute_types: &[String],
        distincts: &[i32],
        no_tuples: i32,
        f_path: &str,
    ) -> (r: Schema)
        requires
            no_tuples >= 0,
            forall|i: int|
                0 <= i < attributes@.len() && i < attribute_types@.len() && i < distincts@.len()
                    ==> type_from_name(#[trigger] attribute_types@[i]@) is Some && distincts@[i] >= 0,
        ensures
            r.wf(),
            r.atts().len() == min3(attributes@.len(), attribute_types@.len(), distincts@.len()),
            forall|i: int|
                0 <= i < r.atts().len() ==> {
                    &&& (#[trigger] r.atts()[i]).name@ == attributes@[i]@
                    &&& Some(r.atts()[i].type_) == type_from_name(attribute_types@[i]@)
                    &&& r.atts()[i].no_distinct == distincts@[i]
                },
            r.tuples() == no_tuples,
            r.path() == f_path@,
    {
        let mut n = attributes.len();
        if attribute_types.len() < n {
            n = attribute_types.len();
        }
        if distincts.len() < n {
            n = distincts.len();
        }
        let mut atts: Vec<Attribute> = Vec::new();
        let mut i: usize = 0;
        while i < n
            invariant
                0 <= i <= n,
                n == min3(attributes@.len(), attribute_types@.len(), distincts@.len()),
                atts@.len() == i,
                forall|i: int|
                    0 <= i < attributes@.len() && i < attribute_types@.len() && i < distincts@.len()
                        ==> type_from_name(#[trigger] attribute_types@[i]@) is Some && distincts@[i] >= 0,
                forall|k: int|
                    0 <= k < i ==> {
                        &&& (#[trigger] atts@[k]).name@ == attributes@[k]@
                        &&& Some(atts@[k].type_) == type_from_name(attribute_types@[k]@)
                        &&& atts@[k].no_distinct == distincts@[k]
                        &&& atts@[k].no_distinct >= 0
                    },
            decreases n - i,
        {
            let t = parse_type(&attribute_types[i]);
            assert(type_from_name(attribute_types@[i as int]@) is Some);
            let type_ = t.unwrap();
            atts.push(Attribute { name: attributes[i].clone(), type_, no_distinct: distincts[i] });
            i += 1;
        }
        Schema { no_tuples, f_path: f_path.to_owned(), attributes: atts }
    }


    /// A copy with the same attributes, count and path.
    pub fn duplicate(&self) -> (r: Schema)
        ensures
            r.atts() == self.atts(),
            r.tuples() == self.tuples(),
            r.path() == self.path(),
            self.wf() ==> r.wf(),
    {
        let mut atts: Vec<Attribute> = Vec::new();
        let mut i: usize = 0;
        while i < self.attributes.len()
            invariant
                0 <= i <= self.attributes@.len(),
                atts@ == self.attributes@.take(i as int),
            decreases self.attributes@.len() - i,
        {
            atts.push(self.attributes[i].duplicate());
            assert(atts@ =~= self.attributes@.take(i + 1));
            i += 1;
        }
        assert(self.attributes@.take(i as int) =~= self.attributes@);
        Schema { no_tuples: self.no_tuples, f_path: self.f_path.clone(), attributes: atts }
    }


    /// A schema without attributes.
    pub fn new_no_attributes(no_tuples: i32, f_path: &str) -> (r: Schema)
        requires
            no_tuples >= 0,
        ensures
            r.wf(),
            r.atts().len() == 0,
            r.tuples() == no_tuples,
            r.path() == f_path@,
    {
        Schema { no_tuples, f_path: f_path.to_owned(), attributes: Vec::new() }
    }

    /// A schema with no tuples and an empty path.
    pub fn from_attributes(attributes: &[String], attribute_types: &[String], distincts: &[i32]) -> (r: Schema)
        requires
            forall|i: int|
                0 <= i < attributes@.len() && i < attribute_types@.len() && i < distincts@.len()
                    ==> type_from_name(#[trigger] attribute_types@[i]@) is Some && distincts@[i] >= 0,
        ensures
            r.wf(),
            r.atts().len() == min3(attributes@.len(), attribute_types@.len(), distincts@.len()),
            forall|i: int|
                0 <= i < r.atts().len() ==> {
                    &&& (#[trigger] r.atts()[i]).name@ == attributes@[i]@
                    &&& Some(r.atts()[i].type_) == type_from_name(attribute_types@[i]@)
                    &&& r.atts()[i].no_distinct == distincts@[i]
                },
            r.tuples() == 0,
            r.path() == Seq::<char>::empty(),
    {
        proof {
            reveal_strlit("");
        }
        Self::new(attributes, attribute_types, distincts, 0, "")
    }

    pub fn get_num_atts(&self) -> (r: usize)
        ensures
            r == self.atts().len(),
    {
        self.attributes.len()
    }

    pub fn get_atts_len(&self) -> (r: usize)
        ensures
            r == self.atts().len(),
    {
        self.attributes.len()
    }

    pub fn get_atts(&self) -> (r: &Vec<Attribute>)
        ensures
            r@ == self.atts(),
    {
        &self.attributes
    }

    pub fn get_no_tuples(&self) -> (r: i32)
        ensures
            r == self.tuples(),
    {
        self.no_tuples
    }

    pub fn get_f_path(&self) -> (r: &str)
        ensures
            r@ == self.path(),
    {
        self.f_path.as_str()
    }

    pub fn set_no_tuples(&mut self, no_tuples: i32)
        requires
            no_tuples >= 0,
        ensures
            final(self).tuples() == no_tuples,
            final(self).atts() == old(self).atts(),
            final(self).path() == old(self).path(),
            old(self).wf() ==> final(self).wf(),
    {
        self.no_tuples = no_tuples;
    }

    pub fn set_f_path(&mut self, f_path: &str)
        ensures
            final(self).path() == f_path@,
            final(self).atts() == old(self).atts(),
            final(self).tuples() == old(self).tuples(),
            old(self).wf() ==> final(self).wf(),
    {
        self.f_path = f_path.to_owned();
    }

    /// Position of the first attribute called `attribute`.
    pub fn index_of(&self, attribute: &str) -> (r: Option<usize>)
        ensures
            match r {
                Some(i) => i < self.atts().len() && i as int == index_in(self.atts(), attribute@),
                None => index_in(self.atts(), attribute@) == -1,
            },
    {
        position_of(&self.attributes, &attribute.to_owned())
    }

    /// Type of the first attribute called `attribute`.
    pub fn find_type(&self, attribute: &str) -> (r: Option<Type>)
        ensures
            match r {
                Some(t) => has_name(self.atts(), attribute@)
                    && t == self.atts()[index_in(self.atts(), attribute@)].type_,
                None => !has_name(self.atts(), attribute@),
            },
    {
        match self.index_of(attribute) {
            Some(i) => Some(self.attributes[i].type_),
            None => None,
        }
    }

    /// Distinct count of the first attribute called `attribute`.
    pub fn get_distincts(&self, attribute: &str) -> (r: Option<i32>)
        ensures
            match r {
                Some(d) => has_name(self.atts(), attribute@)
                    && d == self.atts()[index_in(self.atts(), attribute@)].no_distinct,
                None => !has_name(self.atts(), attribute@),
            },
    {
        match self.index_of(attribute) {
            Some(i) => Some(self.attributes[i].no_distinct),
            None => None,
        }
    }

    /// Sets the distinct count of the first attribute called `attribute`;
    /// false, with nothing changed, when there is none.
    pub fn set_distincts(&mut self, attribute: &str, no_distinct: i32) -> (r: bool)
        requires
            no_distinct >= 0,
        ensures
            r == has_name(old(self).atts(), attribute@),
            r ==> final(self).atts() == old(self).atts().update(
                index_in(old(self).atts(), attribute@),
                Attribute { no_distinct, ..old(self).atts()[index_in(old(self).atts(), attribute@)] },
            ),
            !r ==> final(self).atts() == old(self).atts(),
            final(self).tuples() == old(self).tuples(),
            final(self).path() == old(self).path(),
            old(self).wf() ==> final(self).wf(),
    {
        match self.index_of(attribute) {
            Some(i) => {
                let a = Attribute {
                    name: self.attributes[i].name.clone(),
                    type_: self.attributes[i].type_,
                    no_distinct,
                };
                self.attributes.set(i, a);
                true
            },
            None => false,
        }
    }

    /// Renames the first attribute called `old_name`; false, with nothing
    /// changed, when `new_name` is taken or `old_name` is absent.
    pub fn rename_att(&mut self, old_name: &str, new_name: &str) -> (r: bool)
        ensures
            r == (!has_name(old(self).atts(), new_name@) && has_name(old(self).atts(), old_name@)),
            r ==> final(self).atts().len() == old(self).atts().len(),
            r ==> forall|k: int|
                0 <= k < old(self).atts().len() && k != index_in(old(self).atts(), old_name@)
                    ==> final(self).atts()[k] == old(self).atts()[k],
            r ==> ({
                let i = index_in(old(self).atts(), old_name@);
                &&& final(self).atts()[i].name@ == new_name@
                &&& final(self).atts()[i].type_ == old(self).atts()[i].type_
                &&& final(self).atts()[i].no_distinct == old(self).atts()[i].no_distinct
            }),
            !r ==> final(self).atts() == old(self).atts(),
            final(self).tuples() == old(self).tuples(),
            final(self).path() == old(self).path(),
            old(self).wf() ==> final(self).wf(),
    {
        if self.index_of(new_name).is_some() {
            return false;
        }
        match self.index_of(old_name) {
            Some(i) => {
                let a = Attribute {
                    name: new_name.to_owned(),
                    type_: self.attributes[i].type_,
                    no_distinct: self.attributes[i].no_distinct,
                };
                self.attributes.set(i, a);
                true
            },
            None => false,
        }
    }
    /// Appends every attribute of `other`, shared names included: the
    /// layout of a record joined from one of each.
    pub fn concat(&mut self, other: &Schema)
        ensures
            final(self).atts() == old(self).atts() + other.atts(),
            final(self).tuples() == old(self).tuples(),
            final(self).path() == old(self).path(),
            old(self).wf() && other.wf() ==> final(self).wf(),
    {
        let mut k: usize = 0;
        while k < other.attributes.len()
            invariant
                0 <= k <= other.attributes@.len(),
                self.attributes@ == old(self).attributes@ + other.attributes@.take(k as int),
                self.no_tuples == old(self).no_tuples,
                self.f_path == old(self).f_path,
            decreases other.attributes@.len() - k,
        {
            let a = other.attributes[k].duplicate();
            self.attributes.push(a);
            assert(other.attributes@.take(k + 1) =~= other.attributes@.take(k as int).push(a));
            k += 1;
        }
        assert(other.attributes@.take(k as int) =~= other.attributes@);
    }

    /// Appends the attributes of `other`; fails, with nothing changed, when
    /// a name of `other` is already taken.
    pub fn append(&mut self, other: &Schema) -> (r: Option<()>)
        ensures
            r is Some <==> forall|j: int|
                0 <= j < other.atts().len() ==> !has_name(old(self).atts(), (#[trigger] other.atts()[j]).name@),
            r is Some ==> final(self).atts() == old(self).atts() + other.atts(),
            r is None ==> final(self).atts() == old(self).atts(),
            final(self).tuples() == old(self).tuples(),
            final(self).path() == old(self).path(),
            old(self).wf() && other.wf() ==> final(self).wf(),
    {
        let mut i: usize = 0;
        while i < other.attributes.len()
            invariant
                0 <= i <= other.attributes@.len(),
                forall|j: int| 0 <= j < i ==> !has_name(self.atts(), (#[trigger] other.atts()[j]).name@),
            decreases other.attributes@.len() - i,
        {
            if position_of(&self.attributes, &other.attributes[i].name).is_some() {
                return None;
            }
            i += 1;
        }
        let mut k: usize = 0;
        while k < other.attributes.len()
            invariant
                0 <= k <= other.attributes@.len(),
                self.attributes@ == old(self).attributes@ + other.attributes@.take(k as int),
                self.no_tuples == old(self).no_tuples,
                self.f_path == old(self).f_path,
            decreases other.attributes@.len() - k,
        {
            let a = other.attributes[k].duplicate();
            self.attributes.push(a);
            assert(other.attributes@.take(k + 1) =~= other.attributes@.take(k as int).push(a));
            k += 1;
        }
        assert(other.attributes@.take(k as int) =~= other.attributes@);
        Some(())
    }

    /// Appends the attributes of `other` whose names `self` lacks, and
    /// estimates the size of the equi-join on the shared names: the product
    /// of the two tuple counts, divided, for each shared attribute, by the
    /// larger of its two distinct counts when that is not zero (capped at
    /// the largest `i32`).
    pub fn join_right(&mut self, other: &Schema)
        requires
            old(self).wf(),
            other.wf(),
        ensures
            final(self).wf(),
            0 <= final(self).tuples() <= i32::MAX,
            final(self).atts() == old(self).atts() + fresh_atts(old(self).atts(), other.atts()),
            final(self).tuples() == clamp_i32(
                join_estimate(old(self).atts(), other.atts(), other.atts().len() as int, old(self).tuples() * other.tuples()),
            ),
            final(self).path() == old(self).path(),
    {
        let ghost base = self.attributes@;
        let ghost oth = other.attributes@;
        let ghost start = self.no_tuples as int * other.no_tuples as int;
        proof {
            assert(0 <= start <= 0x7fff_ffff * 0x7fff_ffff) by (nonlinear_arith)
                requires start == self.no_tuples as int * other.no_tuples as int,
                    0 <= self.no_tuples <= 0x7fff_ffff, 0 <= other.no_tuples <= 0x7fff_ffff;
        }
        let mut est: u64 = (self.no_tuples as u64) * (other.no_tuples as u64);
        let mut added: Vec<Attribute> = Vec::new();
        let mut i: usize = 0;
        while i < other.attributes.len()
            invariant
                self.wf(),
                other.wf(),
                self.attributes@ == base,
                other.attributes@ == oth,
                0 <= i <= oth.len(),
                added@ == fresh_atts(base, oth.take(i as int)),
                forall|k: int| 0 <= k < added@.len() ==> (#[trigger] added@[k]).no_distinct >= 0,
                est as int == join_estimate(base, oth, i as int, start),
                0 <= est <= 0x7fff_ffff * 0x7fff_ffff,
            decreases oth.len() - i,
        {
            assert(oth.take(i + 1).drop_last() =~= oth.take(i as int));
            let name = &other.attributes[i].name;
            match position_of(&self.attributes, name) {
                Some(p) => {
                    proof {
                        lemma_index_in(oth, oth[i as int].name@);
                    }
                    let q = position_of(&other.attributes, name).unwrap();
                    let ds = self.attributes[p].no_distinct;
                    let d_o = other.attributes[q].no_distinct;
                    let d = if ds >= d_o { ds } else { d_o };
                    if d != 0 {
                        est = est / (d as u64);
                    }
                },
                None => {
                    added.push(other.attributes[i].duplicate());
                },
            }
            i += 1;
        }
        assert(oth.take(i as int) =~= oth);
        self.attributes.append(&mut added);
        self.no_tuples = if est > 0x7fff_ffff { 0x7fff_ffff } else { est as i32 };
    }

    /// Keeps the attributes at the given positions, in that order; fails,
    /// with nothing changed, when a position is out of range.
    pub fn project(&mut self, atts_to_keep: &[i32]) -> (r: Option<()>)
        ensures
            r is Some <==> forall|k: int|
                0 <= k < atts_to_keep@.len() ==> 0 <= #[trigger] atts_to_keep@[k] < old(self).atts().len(),
            r is Some ==> final(self).atts().len() == atts_to_keep@.len(),
            r is Some ==> forall|k: int|
                0 <= k < atts_to_keep@.len() ==> #[trigger] final(self).atts()[k] == old(self).atts()[atts_to_keep@[k] as int],
            r is None ==> final(self).atts() == old(self).atts(),
            final(self).tuples() == old(self).tuples(),
            final(self).path() == old(self).path(),
            old(self).wf() ==> final(self).wf(),
    {
        let mut kept: Vec<Attribute> = Vec::new();
        let mut k: usize = 0;
        while k < atts_to_keep.len()
            invariant
                0 <= k <= atts_to_keep@.len(),
                kept@.len() == k,
                forall|j: int| 0 <= j < k ==> 0 <= #[trigger] atts_to_keep@[j] < self.atts().len(),
                forall|j: int| 0 <= j < k ==> #[trigger] kept@[j] == self.atts()[atts_to_keep@[j] as int],
            decreases atts_to_keep@.len() - k,
        {
            let idx = atts_to_keep[k];
            if idx < 0 || idx as usize >= self.attributes.len() {
                return None;
            }
            kept.push(self.attributes[idx as usize].duplicate());
            k += 1;
        }
        self.attributes = kept;
        Some(())
    }
}

pub open spec fn min3(a: nat, b: nat, c: nat) -> nat {
    let m = if a <= b { a } else { b };
    if m <= c { m } else { c }
}

} // verus!
