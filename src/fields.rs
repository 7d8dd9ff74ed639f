use vstd::prelude::*;

use crate::record::{cells_of, Cell, Record, Value};
use crate::schema::Schema;
use crate::types::Type;

verus! {

pub const PIPE: u8 = 124;

pub const NEWLINE: u8 = 10;

pub const MINUS: u8 = 45;

pub const PLUS: u8 = 43;

pub open spec fn is_digit(b: u8) -> bool {
    48 <= b <= 57
}

/// The number that a string of decimal digits denotes.
pub open spec fn digits_value(s: Seq<u8>) -> int
    decreases s.len(),
{
    if s.len() == 0 {
        0
    } else {
        digits_value(s.drop_last()) * 10 + (s.last() - 48)
    }
}

pub open spec fn all_digits(s: Seq<u8>) -> bool {
    s.len() > 0 && forall|i: int| 0 <= i < s.len() ==> is_digit(#[trigger] s[i])
}

/// A decimal integer with an optional sign, if it fits in an `i64`.
pub open spec fn parse_int_spec(s: Seq<u8>) -> Option<i64> {
    let signed = s.len() > 0 && (s[0] == MINUS || s[0] == PLUS);
    let body = if signed { s.skip(1) } else { s };
    let v = if s.len() > 0 && s[0] == MINUS { -digits_value(body) } else { digits_value(body) };
    if all_digits(body) && i64::MIN <= v <= i64::MAX {
        Some(v as i64)
    } else {
        None
    }
}

/// The decimal digits of a natural number.
pub open spec fn nat_text(n: nat) -> Seq<u8>
    decreases n,
{
    if n < 10 {
        seq![(48 + n) as u8]
    } else {
        nat_text(n / 10).push((48 + n % 10) as u8)
    }
}

/// The decimal form of an integer, with a leading '-' when negative.
pub open spec fn int_text(v: int) -> Seq<u8> {
    if v < 0 {
        seq![MINUS] + nat_text((-v) as nat)
    } else {
        nat_text(v as nat)
    }
}

proof fn lemma_digits_value_nonneg(s: Seq<u8>)
    requires
        forall|i: int| 0 <= i < s.len() ==> is_digit(#[trigger] s[i]),
    ensures
        digits_value(s) >= 0,
    decreases s.len(),
{
    if s.len() > 0 {
        lemma_digits_value_nonneg(s.drop_last());
    }
}

/// Parses a decimal integer with an optional sign.
pub fn parse_int(s: &[u8]) -> (r: Option<i64>)
    ensures
        r == parse_int_spec(s@),
{
    let n = s.len();
    if n == 0 {
        return None;
    }
    let neg = s[0] == MINUS;
    let start: usize = if s[0] == MINUS || s[0] == PLUS { 1 } else { 0 };
    let ghost body = s@.subrange(start as int, n as int);
    assert(body == if start == 1 { s@.skip(1) } else { s@ });
    if start == n {
        return None;
    }
    let limit: u64 = 0x8000_0000_0000_0000;
    let mut acc: u64 = 0;
    let mut big = false;
    let mut i: usize = start;
    while i < n
        invariant
            start <= i <= n,
            n == s@.len(),
            !big ==> acc as int == digits_value(s@.subrange(start as int, i as int)) && acc <= limit,
            big ==> digits_value(s@.subrange(start as int, i as int)) > limit,
            forall|j: int| start <= j < i ==> is_digit(#[trigger] s@[j]),
            body == s@.subrange(start as int, n as int),
            body == if start == 1 { s@.skip(1) } else { s@ },
            start == (if s@[0] == MINUS || s@[0] == PLUS { 1usize } else { 0usize }),
            neg == (s@[0] == MINUS),
            n > 0,
            limit == 0x8000_0000_0000_0000u64,
        decreases n - i,
    {
        let b = s[i];
        if b < 48 || b > 57 {
            assert(body[i - start] == s@[i as int]);
            assert(!is_digit(body[i - start]));
            assert(!all_digits(body));
            assert(parse_int_spec(s@) is None);
            return None;
        }
        assert(s@.subrange(start as int, i + 1).drop_last() =~= s@.subrange(start as int, i as int));
        proof {
            let sub = s@.subrange(start as int, i as int);
            assert forall|j: int| 0 <= j < sub.len() implies is_digit(#[trigger] sub[j]) by {
                assert(sub[j] == s@[start + j]);
            }
            lemma_digits_value_nonneg(sub);
        }
        if !big {
            let d = (b - 48) as u64;
            assert(d <= 9);
            if acc > (limit - d) / 10 {
                big = true;
            } else {
                acc = acc * 10 + d;
            }
        }
        i += 1;
    }
    assert forall|j: int| 0 <= j < body.len() implies is_digit(#[trigger] body[j]) by {
        assert(body[j] == s@[start + j]);
    }
    assert(s@.subrange(start as int, i as int) == body);
    if big {
        return None;
    }
    if neg {
        if acc == limit {
            Some(i64::MIN)
        } else {
            Some(-(acc as i64))
        }
    } else {
        if acc == limit {
            None
        } else {
            Some(acc as i64)
        }
    }
}

/// Appends the decimal digits of `n`.
pub fn push_nat_text(n: u64, out: &mut Vec<u8>)
    ensures
        final(out)@ == old(out)@ + nat_text(n as nat),
    decreases n,
{
    if n >= 10 {
        push_nat_text(n / 10, out);
    }
    out.push((48 + n % 10) as u8);
    assert(n < 10 ==> nat_text(n as nat) =~= seq![(48 + n) as u8]);
}

/// Appends the decimal form of `v`.
pub fn push_int_text(v: i64, out: &mut Vec<u8>)
    ensures
        final(out)@ == old(out)@ + int_text(v as int),
{
    if v < 0 {
        out.push(MINUS);
        let mag: u64 = if v == i64::MIN { 0x8000_0000_0000_0000 } else { (-v) as u64 };
        push_nat_text(mag, out);
        assert(out@ =~= old(out)@ + (seq![MINUS] + nat_text((-v) as nat)));
    } else {
        push_nat_text(v as u64, out);
    }
}

/// Position of the first '|' at or after `from`, or the length when none.
pub open spec fn field_end(data: Seq<u8>, from: int) -> int
    decreases data.len() - from,
{
    if from < 0 || from >= data.len() {
        data.len() as int
    } else if data[from] == PIPE {
        from
    } else {
        field_end(data, from + 1)
    }
}

/// Position just after the first newline at or after `from`, or the length
/// when none.
pub open spec fn line_end(data: Seq<u8>, from: int) -> int
    decreases data.len() - from,
{
    if from < 0 || from >= data.len() {
        data.len() as int
    } else if data[from] == NEWLINE {
        from + 1
    } else {
        line_end(data, from + 1)
    }
}

/// The first `n` '|'-terminated fields from `pos`, with the position after
/// the last '|'; none when the data ends first.
pub open spec fn split_spec(data: Seq<u8>, pos: int, n: nat) -> Option<(Seq<Seq<u8>>, int)>
    decreases n,
{
    if n == 0 {
        Some((Seq::empty(), pos))
    } else {
        match split_spec(data, pos, (n - 1) as nat) {
            None => None,
            Some((fs, p)) => {
                let e = field_end(data, p);
                if e >= data.len() {
                    None
                } else {
                    Some((fs.push(data.subrange(p, e)), e + 1))
                }
            },
        }
    }
}

pub open spec fn views(vs: Seq<Vec<u8>>) -> Seq<Seq<u8>> {
    vs.map_values(|v: Vec<u8>| v@)
}

/// The bytes of `data` from `a` to `b`.
pub fn slice_to_vec(data: &[u8], a: usize, b: usize) -> (r: Vec<u8>)
    requires
        a <= b <= data@.len(),
    ensures
        r@ == data@.subrange(a as int, b as int),
{
    let mut r: Vec<u8> = Vec::new();
    let mut i: usize = a;
    while i < b
        invariant
            a <= i <= b,
            b <= data@.len(),
            r@ == data@.subrange(a as int, i as int),
        decreases b - i,
    {
        r.push(data[i]);
        assert(r@ =~= data@.subrange(a as int, i + 1));
        i += 1;
    }
    r
}

fn find_field_end(data: &[u8], from: usize) -> (r: usize)
    requires
        from <= data@.len(),
    ensures
        r == field_end(data@, from as int),
        from <= r <= data@.len(),
{
    let mut j = from;
    while j < data.len() && data[j] != PIPE
        invariant
            from <= j <= data@.len(),
            field_end(data@, from as int) == field_end(data@, j as int),
        decreases data@.len() - j,
    {
        j += 1;
    }
    j
}

fn find_line_end(data: &[u8], from: usize) -> (r: usize)
    requires
        from <= data@.len(),
    ensures
        r == line_end(data@, from as int),
        from <= r <= data@.len(),
{
    let mut j = from;
    while j < data.len() && data[j] != NEWLINE
        invariant
            from <= j <= data@.len(),
            line_end(data@, from as int) == line_end(data@, j as int),
        decreases data@.len() - j,
    {
        j += 1;
    }
    if j < data.len() {
        j + 1
    } else {
        j
    }
}

/// Reads `n` '|'-terminated fields from `pos` and then skips through the
/// next newline; returns the fields and the position after that newline.
pub fn split_fields(data: &[u8], pos: usize, n: usize) -> (r: Option<(Vec<Vec<u8>>, usize)>)
    requires
        pos <= data@.len(),
    ensures
        match split_spec(data@, pos as int, n as nat) {
            None => r is None,
            Some((fs, end)) => r is Some && views(r->Some_0.0@) == fs
                && r->Some_0.1 == line_end(data@, end),
        },
        r is Some ==> r->Some_0.1 <= data@.len(),
{
    let mut fields: Vec<Vec<u8>> = Vec::new();
    let mut p = pos;
    let mut k: usize = 0;
    while k < n
        invariant
            0 <= k <= n,
            pos <= p <= data@.len(),
            split_spec(data@, pos as int, k as nat) == Some((views(fields@), p as int)),
        decreases n - k,
    {
        let e = find_field_end(data, p);
        if e >= data.len() {
            assert(split_spec(data@, pos as int, (k + 1) as nat) is None);
            proof {
                lemma_split_none_grows(data@, pos as int, (k + 1) as nat, n as nat);
            }
            return None;
        }
        let f = slice_to_vec(data, p, e);
        let ghost old_fields = fields@;
        fields.push(f);
        assert(views(fields@) =~= views(old_fields).push(f@));
        p = e + 1;
        k += 1;
    }
    let end = find_line_end(data, p);
    Some((fields, end))
}

proof fn lemma_split_none_grows(data: Seq<u8>, pos: int, k: nat, n: nat)
    requires
        split_spec(data, pos, k) is None,
        k <= n,
    ensures
        split_spec(data, pos, n) is None,
    decreases n - k,
{
    if k < n {
        lemma_split_none_grows(data, pos, k, (n - 1) as nat);
    }
}

/// The column that a field's text gives under a type; a float comes from
/// the bit pattern decoded for it, if one could be.
pub open spec fn field_cell(t: Type, text: Seq<u8>, flt: Option<u64>) -> Option<Cell> {
    match t {
        Type::Integer => match parse_int_spec(text) {
            Some(v) => Some(Cell::Int(v)),
            None => None,
        },
        Type::Float => match flt {
            Some(b) => Some(Cell::Flt(b)),
            None => None,
        },
        Type::String => Some(Cell::Str(text)),
        Type::Name => None,
    }
}

/// Whether the fields make a record of the schema.
pub open spec fn fields_fit(schema: Schema, fields: Seq<Seq<u8>>, floats: Seq<Option<u64>>) -> bool {
    &&& fields.len() == schema.atts().len()
    &&& floats.len() == fields.len()
    &&& forall|i: int| 0 <= i < fields.len() ==> (#[trigger] field_cell(schema.atts()[i].type_, fields[i], floats[i])) is Some
}

impl Record {
    /// Builds a record of `schema` from one text field per attribute:
    /// integers are parsed in decimal, strings copied, and each float
    /// column takes `floats[i]`, the bit pattern decoded from its text.
    pub fn from_fields(schema: &Schema, fields: &Vec<Vec<u8>>, floats: &Vec<Option<u64>>) -> (r: Option<Record>)
        ensures
            r is Some <==> fields_fit(*schema, views(fields@), floats@),
            r is Some ==> r->Some_0@.len() == fields@.len() && forall|i: int|
                0 <= i < fields@.len() ==> Some(#[trigger] r->Some_0@[i]) == field_cell(
                    schema.atts()[i].type_,
                    fields@[i]@,
                    floats@[i],
                ),
    {
        let atts = schema.get_atts();
        if fields.len() != atts.len() || floats.len() != fields.len() {
            return None;
        }
        let mut values: Vec<Value> = Vec::new();
        let mut i: usize = 0;
        while i < fields.len()
            invariant
                0 <= i <= fields@.len(),
                atts@ == schema.atts(),
                fields@.len() == atts@.len(),
                floats@.len() == fields@.len(),
                values@.len() == i,
                forall|j: int|
                    0 <= j < i ==> Some((#[trigger] values@[j])@) == field_cell(
                        schema.atts()[j].type_,
                        fields@[j]@,
                        floats@[j],
                    ),
            decreases fields@.len() - i,
        {
            let v = match atts[i].type_ {
                Type::Integer => match parse_int(fields[i].as_slice()) {
                    Some(x) => Value::Integer(x),
                    None => {
                        assert(field_cell(schema.atts()[i as int].type_, views(fields@)[i as int], floats@[i as int]) is None);
                        return None;
                    },
                },
                Type::Float => match floats[i] {
                    Some(b) => Value::Float(b),
                    None => {
                        assert(field_cell(schema.atts()[i as int].type_, views(fields@)[i as int], floats@[i as int]) is None);
                        return None;
                    },
                },
                Type::String => Value::String(crate::record::copy_bytes(&fields[i])),
                Type::Name => {
                    assert(field_cell(schema.atts()[i as int].type_, views(fields@)[i as int], floats@[i as int]) is None);
                    return None;
                },
            };
            values.push(v);
            i += 1;
        }
        let r = Record::from_values(values);
        assert forall|j: int| 0 <= j < fields@.len() implies Some(#[trigger] r@[j]) == field_cell(
            schema.atts()[j].type_,
            fields@[j]@,
            floats@[j],
        ) by {
            assert(r@[j] == values@[j]@);
        }
        assert forall|j: int| 0 <= j < fields@.len() implies (#[trigger] field_cell(
            schema.atts()[j].type_,
            views(fields@)[j],
            floats@[j],
        )) is Some by {
            assert(views(fields@)[j] == fields@[j]@);
            assert(Some(values@[j]@) == field_cell(schema.atts()[j].type_, fields@[j]@, floats@[j]));
        }
        Some(r)
    }

    /// The on-disk text of the record: each column followed by '|', then a
    /// newline. Integers are written in decimal, strings as they are, and
    /// the float in column `i` as `float_texts[i]` (empty when absent).
    pub fn to_bytes(&self, float_texts: &Vec<Vec<u8>>) -> (r: Vec<u8>)
        ensures
            r@ == record_text(self@, views(float_texts@)) + seq![NEWLINE],
    {
        let data = self.get_data();
        let mut out: Vec<u8> = Vec::new();
        let mut i: usize = 0;
        while i < data.len()
            invariant
                0 <= i <= data@.len(),
                cells_of(data@) == self@,
                out@ == record_text(self@.take(i as int), views(float_texts@)),
            decreases data@.len() - i,
        {
            assert(self@.take(i + 1).drop_last() =~= self@.take(i as int));
            assert(self@[i as int] == data@[i as int]@);
            let ghost before = out@;
            match &data[i] {
                Value::Integer(v) => {
                    push_int_text(*v, &mut out);
                },
                Value::Float(_) => {
                    if i < float_texts.len() {
                        let t = &float_texts[i];
                        let mut k: usize = 0;
                        while k < t.len()
                            invariant
                                0 <= k <= t@.len(),
                                out@ == before + t@.take(k as int),
                            decreases t@.len() - k,
                        {
                            out.push(t[k]);
                            assert(out@ =~= before + t@.take(k + 1));
                            k += 1;
                        }
                        assert(t@.take(k as int) =~= t@);
                    } else {
                        assert(out@ =~= before + Seq::<u8>::empty());
                    }
                },
                Value::String(s) => {
                    let mut k: usize = 0;
                    while k < s.len()
                        invariant
                            0 <= k <= s@.len(),
                            out@ == before + s@.take(k as int),
                        decreases s@.len() - k,
                    {
                        out.push(s[k]);
                        assert(out@ =~= before + s@.take(k + 1));
                        k += 1;
                    }
                    assert(s@.take(k as int) =~= s@);
                },
            }
            out.push(PIPE);
            i += 1;
        }
        assert(self@.take(i as int) =~= self@);
        out.push(NEWLINE);
        out
    }
}

/// The text of one column.
pub open spec fn cell_text(c: Cell, i: int, float_texts: Seq<Seq<u8>>) -> Seq<u8> {
    match c {
        Cell::Int(v) => int_text(v as int),
        Cell::Flt(_) => if 0 <= i < float_texts.len() { float_texts[i] } else { Seq::empty() },
        Cell::Str(s) => s,
    }
}

/// Each column's text followed by '|'.
pub open spec fn record_text(cells: Seq<Cell>, float_texts: Seq<Seq<u8>>) -> Seq<u8>
    decreases cells.len(),
{
    if cells.len() == 0 {
        Seq::empty()
    } else {
        record_text(cells.drop_last(), float_texts) + cell_text(cells.last(), cells.len() - 1, float_texts) + seq![PIPE]
    }
}

/// The text of each column, in order.
pub open spec fn cell_texts(cells: Seq<Cell>, float_texts: Seq<Seq<u8>>) -> Seq<Seq<u8>> {
    Seq::new(cells.len(), |i: int| cell_text(cells[i], i, float_texts))
}

/// No column text holds a '|'.
pub open spec fn pipe_free(cells: Seq<Cell>, float_texts: Seq<Seq<u8>>) -> bool {
    forall|i: int, j: int|
        0 <= i < cells.len() && 0 <= j < cell_text(cells[i], i, float_texts).len() ==> #[trigger] cell_text(
            cells[i],
            i,
            float_texts,
        )[j] != PIPE
}

proof fn lemma_digits_push(s: Seq<u8>, d: u8)
    ensures
        digits_value(s.push(d)) == digits_value(s) * 10 + (d - 48),
{
    assert(s.push(d).drop_last() =~= s);
}

proof fn lemma_nat_text(n: nat)
    ensures
        all_digits(nat_text(n)),
        digits_value(nat_text(n)) == n,
        nat_text(n)[0] != MINUS && nat_text(n)[0] != PLUS,
    decreases n,
{
    if n < 10 {
        let t = nat_text(n);
        assert(t.drop_last() =~= Seq::<u8>::empty());
        assert(((48 + n) as u8) as int == 48 + n);
        assert(t.last() == (48 + n) as u8);
        assert(digits_value(Seq::<u8>::empty()) == 0);
        assert(digits_value(t) == digits_value(t.drop_last()) * 10 + (t.last() - 48));
    } else {
        lemma_nat_text(n / 10);
        let p = nat_text(n / 10);
        let d = (48 + n % 10) as u8;
        lemma_digits_push(p, d);
        assert(nat_text(n) == p.push(d));
        assert(d as int == 48 + n % 10);
        assert(n == (n / 10) * 10 + n % 10) by (nonlinear_arith);
        assert(digits_value(p.push(d)) == n);
        assert(forall|i: int| 0 <= i < p.len() ==> p.push(d)[i] == p[i]);
    }
}

/// The decimal text of an integer parses back to it.
pub proof fn lemma_int_text_round_trip(v: i64)
    ensures
        parse_int_spec(int_text(v as int)) == Some(v),
{
    if v < 0 {
        let m = (-(v as int)) as nat;
        lemma_nat_text(m);
        let t = int_text(v as int);
        assert(t.skip(1) =~= nat_text(m));
    } else {
        lemma_nat_text(v as nat);
    }
}

proof fn lemma_field_end_at(data: Seq<u8>, a: int, b: int)
    requires
        0 <= a <= b < data.len(),
        data[b] == PIPE,
        forall|j: int| a <= j < b ==> data[j] != PIPE,
    ensures
        field_end(data, a) == b,
    decreases b - a,
{
    if a < b {
        lemma_field_end_at(data, a + 1, b);
    }
}

proof fn lemma_record_text_len(cells: Seq<Cell>, fts: Seq<Seq<u8>>, k: int)
    requires
        0 <= k < cells.len(),
    ensures
        record_text(cells.take(k + 1), fts) == record_text(cells.take(k), fts) + cell_text(cells[k], k, fts) + seq![PIPE],
{
    assert(cells.take(k + 1).drop_last() =~= cells.take(k));
}

proof fn lemma_record_text_prefix(cells: Seq<Cell>, fts: Seq<Seq<u8>>, k: int)
    requires
        0 <= k <= cells.len(),
    ensures
        record_text(cells.take(k), fts).len() <= record_text(cells, fts).len(),
        record_text(cells, fts).take(record_text(cells.take(k), fts).len() as int) == record_text(cells.take(k), fts),
    decreases cells.len() - k,
{
    if k < cells.len() {
        lemma_record_text_prefix(cells, fts, k + 1);
        lemma_record_text_len(cells, fts, k);
        let a = record_text(cells.take(k), fts);
        let b = record_text(cells.take(k + 1), fts);
        let whole = record_text(cells, fts);
        assert(whole.take(a.len() as int) =~= b.take(a.len() as int));
        assert(b.take(a.len() as int) =~= a);
    } else {
        assert(cells.take(k) =~= cells);
    }
}


proof fn lemma_split_prefix(cells: Seq<Cell>, fts: Seq<Seq<u8>>, rest: Seq<u8>, k: int)
    requires
        pipe_free(cells, fts),
        0 <= k <= cells.len(),
    ensures
        split_spec(record_text(cells, fts) + seq![NEWLINE] + rest, 0, k as nat) == Some(
            (cell_texts(cells, fts).take(k), record_text(cells.take(k), fts).len() as int),
        ),
    decreases k,
{
    let text = record_text(cells, fts);
    let data = text + seq![NEWLINE] + rest;
    if k == 0 {
        assert(cells.take(0) =~= Seq::<Cell>::empty());
        assert(cell_texts(cells, fts).take(0) =~= Seq::<Seq<u8>>::empty());
    } else {
        let k0 = k - 1;
        lemma_split_prefix(cells, fts, rest, k0);
        lemma_record_text_len(cells, fts, k0);
        lemma_record_text_prefix(cells, fts, k);
        let a = record_text(cells.take(k0), fts).len() as int;
        let t = cell_text(cells[k0], k0, fts);
        let b = record_text(cells.take(k), fts);
        assert(b.len() == a + t.len() + 1);
        assert forall|j: int| a <= j < a + t.len() implies data[j] != PIPE by {
            assert(data[j] == text[j]);
            assert(text[j] == b[j]);
            assert(b[j] == t[j - a]);
        }
        assert(data[a + t.len()] == PIPE) by {
            assert(data[a + t.len()] == text[a + t.len()]);
            assert(text[a + t.len()] == b[a + t.len()]);
        }
        lemma_field_end_at(data, a, a + t.len());
        assert(data.subrange(a, a + t.len()) =~= t) by {
            assert forall|j: int| 0 <= j < t.len() implies data.subrange(a, a + t.len())[j] == t[j] by {
                assert(data[a + j] == text[a + j]);
                assert(text[a + j] == b[a + j]);
            }
        }
        assert(cell_texts(cells, fts).take(k) =~= cell_texts(cells, fts).take(k0).push(t));
    }
}

/// Reading back the line that `to_bytes` writes: the fields split off are
/// the texts of the columns, the line ends right after them, and when no
/// text holds a '|', integer and string columns rebuild to what they were.
pub proof fn lemma_record_text_round_trip(cells: Seq<Cell>, fts: Seq<Seq<u8>>, rest: Seq<u8>)
    requires
        pipe_free(cells, fts),
    ensures
        ({
            let text = record_text(cells, fts);
            let data = text + seq![NEWLINE] + rest;
            &&& split_spec(data, 0, cells.len()) == Some((cell_texts(cells, fts), text.len() as int))
            &&& line_end(data, text.len() as int) == text.len() + 1
        }),
        forall|i: int|
            0 <= i < cells.len() ==> match cells[i] {
                Cell::Int(v) => field_cell(Type::Integer, #[trigger] cell_texts(cells, fts)[i], None) == Some(cells[i]),
                Cell::Str(_) => field_cell(Type::String, cell_texts(cells, fts)[i], None) == Some(cells[i]),
                Cell::Flt(b) => field_cell(Type::Float, cell_texts(cells, fts)[i], Some(b)) == Some(cells[i]),
            },
{
    let text = record_text(cells, fts);
    let data = text + seq![NEWLINE] + rest;
    let n = cells.len() as int;
    lemma_split_prefix(cells, fts, rest, n);
    assert(cells.take(n) =~= cells);
    assert(cell_texts(cells, fts).take(n) =~= cell_texts(cells, fts));
    assert(data[text.len() as int] == NEWLINE);
    assert forall|i: int| 0 <= i < cells.len() implies match cells[i] {
        Cell::Int(v) => field_cell(Type::Integer, #[trigger] cell_texts(cells, fts)[i], None) == Some(cells[i]),
        Cell::Str(_) => field_cell(Type::String, cell_texts(cells, fts)[i], None) == Some(cells[i]),
        Cell::Flt(b) => field_cell(Type::Float, cell_texts(cells, fts)[i], Some(b)) == Some(cells[i]),
    } by {
        match cells[i] {
            Cell::Int(v) => lemma_int_text_round_trip(v),
            _ => {},
        }
    }
}

} // verus!
