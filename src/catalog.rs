use vstd::prelude::*;

use crate::schema::{type_from_name, Attribute, Schema};
use crate::fields::{int_text, push_int_text, NEWLINE, PIPE};
use crate::types::{label_spec, Error};
use vstd::utf8::encode_utf8;

verus! {

/// Position of the first name equal to `name`, or -1.
pub open spec fn first_of(names: Seq<Seq<char>>, name: Seq<char>) -> int
    decreases names.len(),
{
    if names.len() == 0 {
        -1
    } else {
        let r = first_of(names.drop_last(), name);
        if r >= 0 {
            r
        } else if names.last() == name {
            names.len() - 1
        } else {
            -1
        }
    }
}

proof fn lemma_first_of(names: Seq<Seq<char>>, name: Seq<char>)
    ensures
        -1 <= first_of(names, name) < names.len(),
        first_of(names, name) == -1 <==> forall|j: int| 0 <= j < names.len() ==> names[j] != name,
        first_of(names, name) >= 0 ==> names[first_of(names, name)] == name,
        forall|j: int| 0 <= j < first_of(names, name) ==> names[j] != name,
    decreases names.len(),
{
    if names.len() > 0 {
        lemma_first_of(names.drop_last(), name);
        assert forall|j: int| 0 <= j < names.len() - 1 implies names[j] == names.drop_last()[j] by {}
    }
}

pub open spec fn string_views(v: Seq<String>) -> Seq<Seq<char>> {
    v.map_values(|s: String| s@)
}

fn find_name(names: &Vec<String>, name: &String) -> (r: Option<usize>)
    ensures
        match r {
            Some(i) => i < names@.len() && i as int == first_of(string_views(names@), name@),
            None => first_of(string_views(names@), name@) == -1,
        },
{
    let ghost sv = string_views(names@);
    proof {
        lemma_first_of(sv, name@);
    }
    let mut i: usize = 0;
    while i < names.len()
        invariant
            0 <= i <= names@.len(),
            sv == string_views(names@),
            forall|j: int| 0 <= j < i ==> sv[j] != name@,
        decreases names@.len() - i,
    {
        if names[i].eq(name) {
            assert(sv[i as int] == name@);
            proof {
                lemma_first_of(sv, name@);
                if first_of(sv, name@) != i {
                    assert(first_of(sv, name@) < i);
                }
            }
            return Some(i);
        }
        i += 1;
    }
    None
}

/// The lines of the attributes `0..k`: two blanks, then name, position,
/// type and distinct count, each followed by '|'.
pub open spec fn atts_text(atts: Seq<Attribute>, k: int) -> Seq<u8>
    decreases k,
{
    if k <= 0 {
        Seq::empty()
    } else {
        let a = atts[k - 1];
        atts_text(atts, k - 1) + seq![32u8, 32u8] + encode_utf8(a.name@) + seq![PIPE] + int_text(k - 1) + seq![PIPE]
            + encode_utf8(label_spec(a.type_)) + seq![PIPE] + int_text(a.no_distinct as int) + seq![PIPE, NEWLINE]
    }
}

/// The text of the tables `0..k`: for each, a line with its name, tuple
/// count and data path, then its attributes' lines.
pub open spec fn catalog_text(names: Seq<Seq<char>>, schemas: Seq<Schema>, k: int) -> Seq<u8>
    decreases k,
{
    if k <= 0 {
        Seq::empty()
    } else {
        let s = schemas[k - 1];
        catalog_text(names, schemas, k - 1) + encode_utf8(names[k - 1]) + seq![PIPE] + int_text(s.tuples()) + seq![PIPE]
            + encode_utf8(s.path()) + seq![PIPE, NEWLINE] + atts_text(s.atts(), s.atts().len() as int)
    }
}

/// Appends the UTF-8 bytes of a string.
fn push_str_bytes(s: &str, out: &mut Vec<u8>)
    ensures
        final(out)@ == old(out)@ + encode_utf8(s@),
{
    let b = s.as_bytes();
    let ghost before = out@;
    let mut i: usize = 0;
    while i < b.len()
        invariant
            0 <= i <= b@.len(),
            b@ == encode_utf8(s@),
            out@ == before + b@.take(i as int),
        decreases b@.len() - i,
    {
        out.push(b[i]);
        assert(out@ =~= before + b@.take(i + 1));
        i += 1;
    }
    assert(b@.take(i as int) =~= b@);
}

fn push_schema_text(s: &Schema, out: &mut Vec<u8>)
    requires
        s.atts().len() <= i64::MAX,
    ensures
        final(out)@ == old(out)@ + atts_text(s.atts(), s.atts().len() as int),
{
    let atts = s.get_atts();
    let ghost before = out@;
    let mut k: usize = 0;
    while k < atts.len()
        invariant
            0 <= k <= atts@.len(),
            atts@ == s.atts(),
            atts@.len() <= i64::MAX,
            out@ == before + atts_text(s.atts(), k as int),
        decreases atts@.len() - k,
    {
        let a = &atts[k];
        out.push(32);
        out.push(32);
        push_str_bytes(a.name.as_str(), out);
        out.push(PIPE);
        push_int_text(k as i64, out);
        out.push(PIPE);
        push_str_bytes(a.type_.label(), out);
        out.push(PIPE);
        push_int_text(a.no_distinct as i64, out);
        out.push(PIPE);
        out.push(NEWLINE);
        assert(out@ =~= before + atts_text(s.atts(), k + 1));
        k += 1;
    }
}

/// The tables of a database: for each name, its schema (attributes with
/// their types and distinct counts, tuple count and data path).
#[derive(Debug)]
pub struct Catalog {
    file_name: String,
    names: Vec<String>,
    schemas: Vec<Schema>,
}

impl Catalog {
    /// Table names are unique, with one well-formed schema each.
    pub closed spec fn wf(&self) -> bool {
        &&& self.names@.len() == self.schemas@.len()
        &&& forall|i: int, j: int| 0 <= i < j < self.names@.len() ==> self.names@[i]@ != self.names@[j]@
        &&& forall|i: int| 0 <= i < self.schemas@.len() ==> (#[trigger] self.schemas@[i]).wf()
    }

    /// The table names, in order of creation.
    pub closed spec fn tables(&self) -> Seq<Seq<char>> {
        string_views(self.names@)
    }

    pub open spec fn has_table(&self, name: Seq<char>) -> bool {
        self.tables().contains(name)
    }

    /// The schema of a table.
    pub closed spec fn schema_of(&self, name: Seq<char>) -> Schema {
        self.schemas@[first_of(self.tables(), name)]
    }

    /// Where the catalog is kept.
    pub closed spec fn path(&self) -> Seq<char> {
        self.file_name@
    }

    /// An empty catalog kept at `filename`.
    pub fn new(filename: String) -> (r: Catalog)
        ensures
            r.wf(),
            r.tables() == Seq::<Seq<char>>::empty(),
            r.path() == filename@,
    {
        let r = Catalog { file_name: filename, names: Vec::new(), schemas: Vec::new() };
        assert(r.tables() =~= Seq::<Seq<char>>::empty());
        r
    }

    /// The schemas, in the order of `tables`.
    pub closed spec fn schemas(&self) -> Seq<Schema> {
        self.schemas@
    }

    /// The text that saving the catalog writes.
    pub fn to_text(&self) -> (r: Vec<u8>)
        requires
            self.wf(),
            forall|i: int| 0 <= i < self.schemas().len() ==> (#[trigger] self.schemas()[i]).atts().len() <= i64::MAX,
        ensures
            self.tables().len() == self.schemas().len(),
            r@ == catalog_text(self.tables(), self.schemas(), self.tables().len() as int),
    {
        let mut out: Vec<u8> = Vec::new();
        let mut k: usize = 0;
        while k < self.names.len()
            invariant
                0 <= k <= self.names@.len(),
                self.wf(),
                forall|i: int| 0 <= i < self.schemas().len() ==> (#[trigger] self.schemas()[i]).atts().len() <= i64::MAX,
                out@ == catalog_text(self.tables(), self.schemas(), k as int),
            decreases self.names@.len() - k,
        {
            let s = &self.schemas[k];
            assert(self.tables()[k as int] == self.names@[k as int]@);
            assert(self.schemas()[k as int] == *s);
            push_str_bytes(self.names[k].as_str(), &mut out);
            out.push(PIPE);
            push_int_text(s.get_no_tuples() as i64, &mut out);
            out.push(PIPE);
            push_str_bytes(s.get_f_path(), &mut out);
            out.push(PIPE);
            out.push(NEWLINE);
            push_schema_text(s, &mut out);
            assert(out@ =~= catalog_text(self.tables(), self.schemas(), k + 1));
            k += 1;
        }
        out
    }

    /// Where the catalog is kept.
    pub fn file_name(&self) -> (r: &String)
        ensures
            r@ == self.path(),
    {
        &self.file_name
    }

    fn lookup(&self, table: &str) -> (r: Option<usize>)
        requires
            self.wf(),
        ensures
            r is Some <==> self.has_table(table@),
            r is Some ==> r->Some_0 < self.schemas@.len() && self.schemas@[r->Some_0 as int] == self.schema_of(table@),
            r is Some ==> self.tables()[r->Some_0 as int] == table@,
            r is Some ==> r->Some_0 as int == first_of(self.tables(), table@),
    {
        let r = find_name(&self.names, &table.to_owned());
        proof {
            lemma_first_of(self.tables(), table@);
            if r is None {
                assert forall|j: int| 0 <= j < self.tables().len() implies self.tables()[j] != table@ by {}
            } else {
                assert(self.tables().contains(table@)) by {
                    assert(self.tables()[r->Some_0 as int] == table@);
                }
            }
        }
        r
    }

    /// The tuple count of a table.
    pub fn get_no_tuples(&self, table: &str, no_tuples: &mut i32) -> (r: Option<()>)
        requires
            self.wf(),
        ensures
            r is Some <==> self.has_table(table@),
            r is Some ==> *final(no_tuples) == self.schema_of(table@).tuples(),
            r is None ==> *final(no_tuples) == *old(no_tuples),
    {
        match self.lookup(table) {
            Some(i) => {
                *no_tuples = self.schemas[i].get_no_tuples();
                Some(())
            },
            None => None,
        }
    }

    /// The data file of a table.
    pub fn get_data_file(&self, table: &str, data_file: &mut String) -> (r: Option<()>)
        requires
            self.wf(),
        ensures
            r is Some <==> self.has_table(table@),
            r is Some ==> final(data_file)@ == self.schema_of(table@).path(),
            r is None ==> final(data_file)@ == old(data_file)@,
    {
        match self.lookup(table) {
            Some(i) => {
                *data_file = self.schemas[i].get_f_path().to_owned();
                Some(())
            },
            None => None,
        }
    }

    /// The distinct count of an attribute of a table.
    pub fn get_no_distinct(&self, table: &str, attribute: &str, no_distinct: &mut i32) -> (r: Option<()>)
        requires
            self.wf(),
        ensures
            r is Some <==> self.has_table(table@) && crate::schema::has_name(self.schema_of(table@).atts(), attribute@),
            r is Some ==> *final(no_distinct) == self.schema_of(table@).atts()[crate::schema::index_in(
                self.schema_of(table@).atts(),
                attribute@,
            )].no_distinct,
            r is None ==> *final(no_distinct) == *old(no_distinct),
    {
        match self.lookup(table) {
            Some(i) => match self.schemas[i].get_distincts(attribute) {
                Some(d) => {
                    *no_distinct = d;
                    Some(())
                },
                None => None,
            },
            None => None,
        }
    }

    /// The names of all tables.
    pub fn get_tables(&self, tables: &mut Vec<String>)
        ensures
            string_views(final(tables)@) == self.tables(),
    {
        let mut out: Vec<String> = Vec::new();
        let mut i: usize = 0;
        while i < self.names.len()
            invariant
                0 <= i <= self.names@.len(),
                out@.len() == i,
                forall|j: int| 0 <= j < i ==> #[trigger] out@[j]@ == self.names@[j]@,
            decreases self.names@.len() - i,
        {
            out.push(self.names[i].clone());
            i += 1;
        }
        assert(string_views(out@) =~= string_views(self.names@));
        *tables = out;
    }

    /// The attribute names of a table, in order.
    pub fn get_attributes(&self, table: &str, attributes: &mut Vec<String>) -> (r: Option<()>)
        requires
            self.wf(),
        ensures
            r is Some <==> self.has_table(table@),
            r is Some ==> final(attributes)@.len() == self.schema_of(table@).atts().len() && forall|k: int|
                0 <= k < final(attributes)@.len() ==> #[trigger] final(attributes)@[k]@ == self.schema_of(table@).atts()[k].name@,
            r is None ==> final(attributes)@ == old(attributes)@,
    {
        match self.lookup(table) {
            Some(i) => {
                let atts = self.schemas[i].get_atts();
                let mut out: Vec<String> = Vec::new();
                let mut k: usize = 0;
                while k < atts.len()
                    invariant
                        0 <= k <= atts@.len(),
                        out@.len() == k,
                        forall|j: int| 0 <= j < k ==> #[trigger] out@[j]@ == atts@[j].name@,
                    decreases atts@.len() - k,
                {
                    out.push(atts[k].name.clone());
                    k += 1;
                }
                *attributes = out;
                Some(())
            },
            None => None,
        }
    }

    /// A copy of the schema of a table.
    pub fn get_schema(&self, table: &str, schema: &mut Schema) -> (r: Option<()>)
        requires
            self.wf(),
        ensures
            r is Some <==> self.has_table(table@),
            r is Some ==> final(schema).atts() == self.schema_of(table@).atts() && final(schema).tuples()
                == self.schema_of(table@).tuples() && final(schema).path() == self.schema_of(table@).path()
                && final(schema).wf(),
            r is None ==> *final(schema) == *old(schema),
    {
        match self.lookup(table) {
            Some(i) => {
                *schema = self.schemas[i].duplicate();
                Some(())
            },
            None => None,
        }
    }

    /// Adds a table with the given attribute names and type spellings, no
    /// tuples, unknown distinct counts and no data file. Fails, with
    /// nothing changed, when the table exists, the lists differ in length,
    /// or a type spelling is unknown.
    pub fn create_table(&mut self, table: &str, attributes: &[String], attribute_types: &[String]) -> (r: Result<(), Error>)
        requires
            old(self).wf(),
        ensures
            final(self).wf(),
            r is Ok <==> !old(self).has_table(table@) && attributes@.len() == attribute_types@.len()
                && forall|i: int| 0 <= i < attribute_types@.len() ==> type_from_name(#[trigger] attribute_types@[i]@) is Some,
            r is Ok ==> final(self).tables() == old(self).tables().push(table@),
            r is Ok ==> ({
                let s = final(self).schema_of(table@);
                &&& s.atts().len() == attributes@.len()
                &&& s.tuples() == 0
                &&& s.path() == Seq::<char>::empty()
                &&& forall|i: int| 0 <= i < attributes@.len() ==> {
                    &&& (#[trigger] s.atts()[i]).name@ == attributes@[i]@
                    &&& Some(s.atts()[i].type_) == type_from_name(attribute_types@[i]@)
                    &&& s.atts()[i].no_distinct == 0
                }
            }),
            r is Ok ==> forall|n: Seq<char>| n != table@ && old(self).has_table(n) ==> final(self).schema_of(n) == old(self).schema_of(n),
            r is Err ==> *final(self) == *old(self),
    {
        if self.lookup(table).is_some() || attributes.len() != attribute_types.len() {
            return Err(Error::General);
        }
        let mut distincts: Vec<i32> = Vec::new();
        let mut i: usize = 0;
        while i < attribute_types.len()
            invariant
                0 <= i <= attribute_types@.len(),
                distincts@.len() == i,
                forall|j: int| 0 <= j < i ==> distincts@[j] == 0,
                forall|j: int| 0 <= j < i ==> type_from_name(#[trigger] attribute_types@[j]@) is Some,
                *self == *old(self),
                self.wf(),
            decreases attribute_types@.len() - i,
        {
            if crate::schema::parse_type(&attribute_types[i]).is_none() {
                return Err(Error::General);
            }
            distincts.push(0);
            i += 1;
        }
        proof {
            reveal_strlit("");
        }
        let schema = Schema::new(attributes, attribute_types, distincts.as_slice(), 0, "");
        let ghost old_names = self.tables();
        proof {
            lemma_first_of(old_names, table@);
            assert(!old_names.contains(table@));
        }
        let ghost old_names_v = self.names@;
        let ghost old_schemas = self.schemas@;
        self.names.push(table.to_owned());
        self.schemas.push(schema);
        assert(self.tables() =~= old_names.push(table@));
        assert forall|a: int, b: int| 0 <= a < b < self.names@.len() implies self.names@[a]@ != self.names@[b]@ by {
            if b == self.names@.len() - 1 {
                assert(self.names@[a]@ == old_names[a]);
                assert(old_names.contains(old_names[a]));
            } else {
                assert(self.names@[a] == old_names_v[a]);
                assert(self.names@[b] == old_names_v[b]);
            }
        }
        assert forall|a: int| 0 <= a < self.schemas@.len() implies (#[trigger] self.schemas@[a]).wf() by {
            if a < old_schemas.len() {
                assert(self.schemas@[a] == old_schemas[a]);
            }
        }
        proof {
            lemma_first_of(self.tables(), table@);
            lemma_first_of(old_names, table@);
            assert forall|j: int| 0 <= j < old_names.len() implies self.tables()[j] != table@ by {}
            assert forall|n: Seq<char>| n != table@ && old(self).has_table(n) implies self.schema_of(n) == old(self).schema_of(n) by {
                lemma_first_of(old_names, n);
                lemma_first_of(self.tables(), n);
                assert(first_of(self.tables(), n) == first_of(old_names, n)) by {
                    assert(self.tables().drop_last() =~= old_names);
                }
            }
        }
        Ok(())
    }

    /// Sets the tuple count of a table; nothing changes when it is absent.
    pub fn set_no_tuples(&mut self, table: &str, no_tuples: &i32)
        requires
            old(self).wf(),
            *no_tuples >= 0,
        ensures
            final(self).wf(),
            final(self).tables() == old(self).tables(),
            old(self).has_table(table@) ==> final(self).schema_of(table@).tuples() == *no_tuples
                && final(self).schema_of(table@).atts() == old(self).schema_of(table@).atts()
                && final(self).schema_of(table@).path() == old(self).schema_of(table@).path(),
            forall|n: Seq<char>| n != table@ && old(self).has_table(n) ==> final(self).schema_of(n) == old(self).schema_of(n),
            !old(self).has_table(table@) ==> *final(self) == *old(self),
    {
        if let Some(i) = self.lookup(table) {
            let mut sc = self.schemas[i].duplicate();
            sc.set_no_tuples(*no_tuples);
            self.replace_schema(i, sc);
            proof {
                assert forall|n: Seq<char>| n != table@ && old(self).has_table(n) implies self.schema_of(n) == old(self).schema_of(n) by {
                    old(self).lemma_other_table(table@, n);
                }
            }
        }
    }

    /// Sets the data file of a table; nothing changes when it is absent.
    pub fn set_data_file(&mut self, table: &str, data_file: &str)
        requires
            old(self).wf(),
        ensures
            final(self).wf(),
            final(self).tables() == old(self).tables(),
            old(self).has_table(table@) ==> final(self).schema_of(table@).path() == data_file@
                && final(self).schema_of(table@).atts() == old(self).schema_of(table@).atts()
                && final(self).schema_of(table@).tuples() == old(self).schema_of(table@).tuples(),
            forall|n: Seq<char>| n != table@ && old(self).has_table(n) ==> final(self).schema_of(n) == old(self).schema_of(n),
            !old(self).has_table(table@) ==> *final(self) == *old(self),
    {
        if let Some(i) = self.lookup(table) {
            let mut sc = self.schemas[i].duplicate();
            sc.set_f_path(data_file);
            self.replace_schema(i, sc);
            proof {
                assert forall|n: Seq<char>| n != table@ && old(self).has_table(n) implies self.schema_of(n) == old(self).schema_of(n) by {
                    old(self).lemma_other_table(table@, n);
                }
            }
        }
    }

    /// Sets the distinct count of an attribute of a table; nothing changes
    /// when either is absent.
    pub fn set_no_distinct(&mut self, table: &str, attribute: &str, no_distinct: &i32)
        requires
            old(self).wf(),
            *no_distinct >= 0,
        ensures
            final(self).wf(),
            final(self).tables() == old(self).tables(),
            old(self).has_table(table@) && crate::schema::has_name(old(self).schema_of(table@).atts(), attribute@)
                ==> ({
                let a = old(self).schema_of(table@).atts();
                let k = crate::schema::index_in(a, attribute@);
                final(self).schema_of(table@).atts() == a.update(k, Attribute { no_distinct: *no_distinct, ..a[k] })
            }),
            forall|n: Seq<char>| n != table@ && old(self).has_table(n) ==> final(self).schema_of(n) == old(self).schema_of(n),
            !old(self).has_table(table@) ==> *final(self) == *old(self),
    {
        if let Some(i) = self.lookup(table) {
            let mut sc = self.schemas[i].duplicate();
            sc.set_distincts(attribute, *no_distinct);
            self.replace_schema(i, sc);
            proof {
                assert forall|n: Seq<char>| n != table@ && old(self).has_table(n) implies self.schema_of(n) == old(self).schema_of(n) by {
                    old(self).lemma_other_table(table@, n);
                }
            }
        }
    }

    fn replace_schema(&mut self, i: usize, sc: Schema)
        requires
            old(self).wf(),
            i < old(self).schemas@.len(),
            sc.wf(),
        ensures
            final(self).wf(),
            final(self).tables() == old(self).tables(),
            final(self).names == old(self).names,
            final(self).file_name == old(self).file_name,
            final(self).schemas@ == old(self).schemas@.update(i as int, sc),
            forall|n: Seq<char>|
                0 <= first_of(old(self).tables(), n) && first_of(old(self).tables(), n) != i ==> final(self).schema_of(n)
                    == old(self).schema_of(n),
    {
        self.schemas.set(i, sc);
        assert forall|a: int| 0 <= a < self.schemas@.len() implies (#[trigger] self.schemas@[a]).wf() by {
            if a != i {
                assert(self.schemas@[a] == old(self).schemas@[a]);
            }
        }
        assert forall|n: Seq<char>|
            0 <= first_of(old(self).tables(), n) && first_of(old(self).tables(), n) != i implies self.schema_of(n)
                == old(self).schema_of(n) by {
            lemma_first_of(old(self).tables(), n);
        }
    }

    proof fn lemma_other_table(&self, table: Seq<char>, n: Seq<char>)
        requires
            self.wf(),
            self.has_table(n),
            n != table,
        ensures
            0 <= first_of(self.tables(), n),
            first_of(self.tables(), n) != first_of(self.tables(), table),
    {
        lemma_first_of(self.tables(), n);
        lemma_first_of(self.tables(), table);
        if first_of(self.tables(), n) == -1 {
            let k = choose|k: int| 0 <= k < self.tables().len() && self.tables()[k] == n;
            assert(self.tables()[k] == n);
        }
    }

    /// Removes a table.
    pub fn drop_table(&mut self, table: &str) -> (r: Option<()>)
        requires
            old(self).wf(),
        ensures
            final(self).wf(),
            r is Some <==> old(self).has_table(table@),
            r is Some ==> final(self).tables() == old(self).tables().remove(first_of(old(self).tables(), table@)),
            r is Some ==> !final(self).has_table(table@),
            r is Some ==> forall|n: Seq<char>|
                n != table@ && old(self).has_table(n) ==> final(self).has_table(n) && final(self).schema_of(n) == old(self).schema_of(n),
            r is None ==> *final(self) == *old(self),
    {
        match self.lookup(table) {
            Some(i) => {
                let ghost old_names = self.tables();
                let ghost old_schemas = self.schemas@;
                let ghost old_cat = *self;
                proof {
                    lemma_first_of(old_names, table@);
                }
                self.names.remove(i);
                self.schemas.remove(i);
                assert(self.tables() =~= old_names.remove(i as int));
                assert forall|a: int, b: int| 0 <= a < b < self.names@.len() implies self.names@[a]@ != self.names@[b]@ by {
                    let a2 = if a < i { a } else { a + 1 };
                    let b2 = if b < i { b } else { b + 1 };
                    assert(self.names@[a]@ == old_names[a2]);
                    assert(self.names@[b]@ == old_names[b2]);
                }
                assert forall|a: int| 0 <= a < self.schemas@.len() implies (#[trigger] self.schemas@[a]).wf() by {
                    let a2 = if a < i { a } else { a + 1 };
                    assert(self.schemas@[a] == old_schemas[a2]);
                }
                assert(!self.tables().contains(table@)) by {
                    if self.tables().contains(table@) {
                        let k = choose|k: int| 0 <= k < self.tables().len() && self.tables()[k] == table@;
                        let k2 = if k < i { k } else { k + 1 };
                        assert(old_names[k2] == table@);
                    }
                }
                assert forall|n: Seq<char>| n != table@ && old_cat.has_table(n) implies self.has_table(n)
                    && self.schema_of(n) == old_cat.schema_of(n) by {
                    lemma_first_of(old_names, n);
                    let f = first_of(old_names, n);
                    let f2 = if f < i { f } else { f - 1 };
                    assert(f != i);
                    assert(self.tables()[f2] == n);
                    lemma_first_of(self.tables(), n);
                    let g = first_of(self.tables(), n);
                    let g2 = if g < i { g } else { g + 1 };
                    assert(old_names[g2] == n);
                    assert(g2 == f);
                    assert(self.schemas@[g] == old_schemas[f]);
                }
                Some(())
            },
            None => None,
        }
    }
}

} // verus!
