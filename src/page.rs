use vstd::prelude::*;

use crate::fields::{
    cell_texts, field_end, lemma_record_text_round_trip, line_end, pipe_free, record_text, split_fields, split_spec, views,
    NEWLINE,
};
use crate::record::{Cell, Record};
use crate::relop::recs_view;

verus! {

/// The bytes of a page on disk.
pub const PAGE_SIZE: usize = 131072;

/// The most records a page holds.
pub const MAX_RECORDS_PER_PAGE: usize = 1000;

/// Bytes counted for each record beyond its own size.
pub const RECORD_OVERHEAD: usize = 8;

/// The float texts of the `i`-th record, if given.
pub open spec fn texts_at(fts: Seq<Seq<Seq<u8>>>, i: int) -> Seq<Seq<u8>> {
    if 0 <= i < fts.len() {
        fts[i]
    } else {
        Seq::empty()
    }
}

/// The text of the records, one line each.
pub open spec fn page_text(recs: Seq<Seq<Cell>>, fts: Seq<Seq<Seq<u8>>>) -> Seq<u8>
    decreases recs.len(),
{
    if recs.len() == 0 {
        Seq::empty()
    } else {
        page_text(recs.drop_last(), fts) + record_text(recs.last(), texts_at(fts, recs.len() - 1)) + seq![NEWLINE]
    }
}

/// `s` cut or zero-padded to `n` bytes.
pub open spec fn fit_to(s: Seq<u8>, n: nat) -> Seq<u8> {
    if s.len() >= n {
        s.take(n as int)
    } else {
        s + Seq::new((n - s.len()) as nat, |i: int| 0u8)
    }
}

/// The field lists of the lines from `pos` on, up to the first that is
/// not a full record of `n` fields, or that starts with a zero byte.
pub open spec fn page_fields_spec(bits: Seq<u8>, pos: int, n: nat) -> Seq<Seq<Seq<u8>>>
    decreases bits.len() - pos,
{
    if pos < 0 || pos >= bits.len() || bits[pos] == 0 {
        Seq::empty()
    } else {
        match split_spec(bits, pos, n) {
            None => Seq::empty(),
            Some((fs, end)) => {
                let e = line_end(bits, end);
                if e <= pos || e > bits.len() {
                    Seq::empty()
                } else {
                    seq![fs] + page_fields_spec(bits, e, n)
                }
            },
        }
    }
}

/// A page of records, filled up to a byte budget and a record count.
#[derive(Clone, Debug)]
pub struct Page {
    records: Vec<Record>,
    current_size_bytes: usize,
}

impl Page {
    /// The records, first to last.
    pub closed spec fn recs(&self) -> Seq<Seq<Cell>> {
        recs_view(self.records@)
    }

    /// The bytes counted against the budget.
    pub closed spec fn used(&self) -> int {
        self.current_size_bytes as int
    }

    pub closed spec fn wf(&self) -> bool {
        self.current_size_bytes <= PAGE_SIZE && self.records@.len() <= MAX_RECORDS_PER_PAGE
    }

    /// An empty page.
    pub fn new() -> (r: Page)
        ensures
            r.wf(),
            r.recs() == Seq::<Seq<Cell>>::empty(),
            r.used() == 0,
    {
        let r = Page { records: Vec::new(), current_size_bytes: 0 };
        assert(r.recs() =~= Seq::<Seq<Cell>>::empty());
        r
    }

    /// Adds a record at the end, unless it would take the page past its
    /// byte budget or record count; says whether it did.
    pub fn append(&mut self, record: Record) -> (r: bool)
        requires
            old(self).wf(),
        ensures
            final(self).wf(),
            r == (old(self).used() + crate::record::cap_usize(crate::record::size_of_cells(record@)) + RECORD_OVERHEAD
                <= PAGE_SIZE && old(self).recs().len() < MAX_RECORDS_PER_PAGE),
            r ==> final(self).recs() == old(self).recs().push(record@),
            r ==> final(self).used() == old(self).used() + crate::record::cap_usize(crate::record::size_of_cells(record@))
                + RECORD_OVERHEAD,
            !r ==> final(self).recs() == old(self).recs() && final(self).used() == old(self).used(),
    {
        let size = record.get_size();
        if size > PAGE_SIZE || self.current_size_bytes + size + RECORD_OVERHEAD > PAGE_SIZE
            || self.records.len() >= MAX_RECORDS_PER_PAGE {
            return false;
        }
        let ghost before = self.recs();
        let ghost rv = record@;
        self.records.push(record);
        assert(self.recs() =~= before.push(rv));
        self.current_size_bytes = self.current_size_bytes + size + RECORD_OVERHEAD;
        true
    }

    /// Moves the first record into `record`; false, with nothing changed,
    /// when the page is empty.
    pub fn get_first(&mut self, record: &mut Record) -> (r: bool)
        requires
            old(self).wf(),
        ensures
            final(self).wf(),
            r == (old(self).recs().len() > 0),
            r ==> final(record)@ == old(self).recs()[0] && final(self).recs() == old(self).recs().skip(1),
            !r ==> final(record)@ == old(record)@ && final(self).recs() == old(self).recs(),
            final(self).used() == old(self).used(),
    {
        if self.records.len() == 0 {
            return false;
        }
        let ghost before = self.recs();
        *record = self.records.remove(0);
        assert(self.recs() =~= before.skip(1));
        true
    }

    /// Drops every record.
    pub fn empty_it_out(&mut self)
        ensures
            final(self).wf(),
            final(self).recs() == Seq::<Seq<Cell>>::empty(),
            final(self).used() == 0,
    {
        self.records.clear();
        self.current_size_bytes = 0;
        assert(self.recs() =~= Seq::<Seq<Cell>>::empty());
    }

    pub fn is_empty(&self) -> (r: bool)
        ensures
            r == (self.recs().len() == 0),
    {
        self.records.len() == 0
    }

    pub fn get_num_records(&self) -> (r: usize)
        ensures
            r == self.recs().len(),
    {
        self.records.len()
    }

    pub fn get_current_size(&self) -> (r: usize)
        ensures
            r == self.used(),
    {
        self.current_size_bytes
    }

    /// The on-disk form: each record's line (its float columns written as
    /// `float_texts[i]` gives them for the `i`-th record), cut or
    /// zero-padded to `PAGE_SIZE` bytes.
    pub fn to_binary(&self, float_texts: &Vec<Vec<Vec<u8>>>) -> (r: Vec<u8>)
        ensures
            r@ == fit_to(page_text(self.recs(), float_texts@.map_values(|t: Vec<Vec<u8>>| views(t@))), PAGE_SIZE as nat),
    {
        let ghost fts = float_texts@.map_values(|t: Vec<Vec<u8>>| views(t@));
        let ghost rs = self.recs();
        let mut out: Vec<u8> = Vec::new();
        let empty: Vec<Vec<u8>> = Vec::new();
        let mut i: usize = 0;
        while i < self.records.len()
            invariant
                0 <= i <= self.records@.len(),
                rs == self.recs(),
                fts == float_texts@.map_values(|t: Vec<Vec<u8>>| views(t@)),
                views(empty@) == Seq::<Seq<u8>>::empty(),
                out@ == page_text(rs.take(i as int), fts),
            decreases self.records@.len() - i,
        {
            assert(rs.take(i + 1).drop_last() =~= rs.take(i as int));
            assert(rs[i as int] == self.records@[i as int]@);
            let texts = if i < float_texts.len() { &float_texts[i] } else { &empty };
            assert(views(texts@) == texts_at(fts, i as int));
            let line = self.records[i].to_bytes(texts);
            let mut k: usize = 0;
            let ghost before = out@;
            while k < line.len()
                invariant
                    0 <= k <= line@.len(),
                    out@ == before + line@.take(k as int),
                decreases line@.len() - k,
            {
                out.push(line[k]);
                assert(out@ =~= before + line@.take(k + 1));
                k += 1;
            }
            assert(line@.take(k as int) =~= line@);
            assert(out@ =~= page_text(rs.take(i + 1), fts));
            i += 1;
        }
        assert(rs.take(i as int) =~= rs);
        if out.len() >= PAGE_SIZE {
            out.truncate(PAGE_SIZE);
            assert(out@ =~= fit_to(page_text(rs, fts), PAGE_SIZE as nat));
        } else {
            let ghost text = out@;
            while out.len() < PAGE_SIZE
                invariant
                    text.len() <= out@.len() <= PAGE_SIZE,
                    out@.take(text.len() as int) == text,
                    forall|j: int| text.len() <= j < out@.len() ==> out@[j] == 0u8,
                decreases PAGE_SIZE - out@.len(),
            {
                out.push(0u8);
            }
            assert(out@ =~= fit_to(page_text(rs, fts), PAGE_SIZE as nat));
        }
        out
    }
}

/// Splits the text of a page into the field lists of its records, `n`
/// fields each, stopping at the first line that is not a full record or
/// that starts with a zero byte (the padding).
pub fn page_fields(bits: &[u8], n: usize) -> (r: Vec<Vec<Vec<u8>>>)
    ensures
        r@.map_values(|f: Vec<Vec<u8>>| views(f@)) == page_fields_spec(bits@, 0, n as nat),
{
    let mut out: Vec<Vec<Vec<u8>>> = Vec::new();
    let mut pos: usize = 0;
    let mut done = false;
    assert(out@.map_values(|f: Vec<Vec<u8>>| views(f@)) =~= Seq::<Seq<Seq<u8>>>::empty());
    while !done && pos < bits.len() && bits[pos] != 0
        invariant
            0 <= pos <= bits@.len(),
            done ==> page_fields_spec(bits@, pos as int, n as nat) == Seq::<Seq<Seq<u8>>>::empty(),
            out@.map_values(|f: Vec<Vec<u8>>| views(f@)) + page_fields_spec(bits@, pos as int, n as nat)
                == page_fields_spec(bits@, 0, n as nat),
        decreases bits@.len() - pos, if done { 0int } else { 1int },
    {
        match split_fields(bits, pos, n) {
            Some((fs, e)) => {
                if e <= pos {
                    done = true;
                    continue;
                }
                let ghost before = out@.map_values(|f: Vec<Vec<u8>>| views(f@));
                let ghost fv = views(fs@);
                out.push(fs);
                assert(out@.map_values(|f: Vec<Vec<u8>>| views(f@)) =~= before.push(fv));
                assert(before.push(fv) + page_fields_spec(bits@, e as int, n as nat) =~= before + (seq![fv]
                    + page_fields_spec(bits@, e as int, n as nat)));
                pos = e;
            },
            None => {
                done = true;
            },
        }
    }
    assert(out@.map_values(|f: Vec<Vec<u8>>| views(f@)) =~= out@.map_values(|f: Vec<Vec<u8>>| views(f@))
        + page_fields_spec(bits@, pos as int, n as nat));
    out
}

proof fn lemma_field_end_shift(pre: Seq<u8>, d: Seq<u8>, i: int)
    requires
        0 <= i <= d.len(),
    ensures
        field_end(pre + d, pre.len() + i) == pre.len() + field_end(d, i),
    decreases d.len() - i,
{
    if i < d.len() {
        assert((pre + d)[pre.len() + i] == d[i]);
        if d[i] != crate::fields::PIPE {
            lemma_field_end_shift(pre, d, i + 1);
        }
    }
}

proof fn lemma_line_end_shift(pre: Seq<u8>, d: Seq<u8>, i: int)
    requires
        0 <= i <= d.len(),
    ensures
        line_end(pre + d, pre.len() + i) == pre.len() + line_end(d, i),
    decreases d.len() - i,
{
    if i < d.len() {
        assert((pre + d)[pre.len() + i] == d[i]);
        if d[i] != NEWLINE {
            lemma_line_end_shift(pre, d, i + 1);
        }
    }
}

proof fn lemma_field_end_bound(d: Seq<u8>, i: int)
    requires
        0 <= i <= d.len(),
    ensures
        i <= field_end(d, i) <= d.len(),
    decreases d.len() - i,
{
    if i < d.len() && d[i] != crate::fields::PIPE {
        lemma_field_end_bound(d, i + 1);
    }
}

proof fn lemma_split_shift(pre: Seq<u8>, d: Seq<u8>, n: nat)
    ensures
        split_spec(pre + d, pre.len() as int, n) == match split_spec(d, 0, n) {
            None => None,
            Some((fs, e)) => Some((fs, e + pre.len())),
        },
        split_spec(d, 0, n) is Some ==> 0 <= split_spec(d, 0, n)->Some_0.1 <= d.len(),
    decreases n,
{
    if n > 0 {
        lemma_split_shift(pre, d, (n - 1) as nat);
        match split_spec(d, 0, (n - 1) as nat) {
            None => {},
            Some((fs, p)) => {
                lemma_field_end_shift(pre, d, p);
                lemma_field_end_bound(d, p);
                let e = field_end(d, p);
                if e < d.len() {
                    assert((pre + d).subrange(pre.len() + p, pre.len() + e) =~= d.subrange(p, e));
                }
            },
        }
    }
}

/// The text of a record's line.
pub open spec fn line_of(cells: Seq<Cell>, float_texts: Seq<Seq<u8>>) -> Seq<u8> {
    record_text(cells, float_texts) + seq![NEWLINE]
}

proof fn lemma_page_text_prefix(recs: Seq<Seq<Cell>>, fts: Seq<Seq<Seq<u8>>>, j: int)
    requires
        0 <= j <= recs.len(),
    ensures
        page_text(recs.take(j), fts).len() <= page_text(recs, fts).len(),
        page_text(recs, fts).take(page_text(recs.take(j), fts).len() as int) == page_text(recs.take(j), fts),
    decreases recs.len() - j,
{
    if j < recs.len() {
        lemma_page_text_prefix(recs, fts, j + 1);
        assert(recs.take(j + 1).drop_last() =~= recs.take(j));
        assert(recs.take(j + 1).last() == recs[j]);
        let a = page_text(recs.take(j), fts);
        let b = page_text(recs.take(j + 1), fts);
        let whole = page_text(recs, fts);
        assert(whole.take(a.len() as int) =~= b.take(a.len() as int));
        assert(b.take(a.len() as int) =~= a);
    } else {
        assert(recs.take(j) =~= recs);
    }
}

/// The field texts of each record of a page, in order.
pub open spec fn page_texts(recs: Seq<Seq<Cell>>, fts: Seq<Seq<Seq<u8>>>) -> Seq<Seq<Seq<u8>>> {
    Seq::new(recs.len(), |j: int| cell_texts(recs[j], texts_at(fts, j)))
}

proof fn lemma_page_suffix(recs: Seq<Seq<Cell>>, fts: Seq<Seq<Seq<u8>>>, n: nat, j: int)
    requires
        0 <= j <= recs.len(),
        forall|k: int| 0 <= k < recs.len() ==> (#[trigger] recs[k]).len() == n,
        forall|k: int| 0 <= k < recs.len() ==> pipe_free(#[trigger] recs[k], texts_at(fts, k)),
        forall|k: int| 0 <= k < recs.len() ==> (#[trigger] line_of(recs[k], texts_at(fts, k)))[0] != 0,
        page_text(recs, fts).len() <= PAGE_SIZE,
    ensures
        page_fields_spec(fit_to(page_text(recs, fts), PAGE_SIZE as nat), page_text(recs.take(j), fts).len() as int, n)
            == page_texts(recs, fts).skip(j),
    decreases recs.len() - j,
{
    let t = page_text(recs, fts);
    let dd = fit_to(t, PAGE_SIZE as nat);
    let pre = page_text(recs.take(j), fts);
    lemma_page_text_prefix(recs, fts, j);
    assert(dd.take(t.len() as int) =~= t);
    if j == recs.len() {
        assert(recs.take(j) =~= recs);
        if t.len() < PAGE_SIZE {
            assert(dd[t.len() as int] == 0u8);
        }
        assert(page_texts(recs, fts).skip(j) =~= Seq::<Seq<Seq<u8>>>::empty());
    } else {
        lemma_page_suffix(recs, fts, n, j + 1);
        lemma_page_text_prefix(recs, fts, j + 1);
        let ft = texts_at(fts, j);
        let line = line_of(recs[j], ft);
        assert(recs.take(j + 1).drop_last() =~= recs.take(j));
        assert(recs.take(j + 1).last() == recs[j]);
        let nxt = page_text(recs.take(j + 1), fts);
        assert(nxt == pre + line);
        let rest = dd.subrange(nxt.len() as int, dd.len() as int);
        assert(dd =~= pre + (record_text(recs[j], ft) + seq![NEWLINE] + rest)) by {
            assert forall|x: int| 0 <= x < dd.len() implies dd[x] == (pre + (record_text(recs[j], ft) + seq![NEWLINE] + rest))[x] by {
                if x < nxt.len() {
                    assert(dd[x] == t[x]);
                    assert(t[x] == nxt[x]);
                }
            }
        }
        let d = record_text(recs[j], ft) + seq![NEWLINE] + rest;
        lemma_record_text_round_trip(recs[j], ft, rest);
        lemma_split_shift(pre, d, n);
        lemma_line_end_shift(pre, d, record_text(recs[j], ft).len() as int);
        assert(dd[pre.len() as int] == line[0]) by {
            assert(dd[pre.len() as int] == d[0]);
        }
        assert(page_texts(recs, fts).skip(j) =~= seq![cell_texts(recs[j], ft)] + page_texts(recs, fts).skip(j + 1));
    }
}

/// Reading back a page that `to_binary` wrote, when every record has `n`
/// columns, no column text holds a '|', no line starts with a zero byte,
/// and the text fits in the page: the field texts of the records come back,
/// in order (and each record then rebuilds as
/// `fields::lemma_record_text_round_trip` states).
pub proof fn lemma_page_round_trip(recs: Seq<Seq<Cell>>, fts: Seq<Seq<Seq<u8>>>, n: nat)
    requires
        forall|k: int| 0 <= k < recs.len() ==> (#[trigger] recs[k]).len() == n,
        forall|k: int| 0 <= k < recs.len() ==> pipe_free(#[trigger] recs[k], texts_at(fts, k)),
        forall|k: int| 0 <= k < recs.len() ==> (#[trigger] line_of(recs[k], texts_at(fts, k)))[0] != 0,
        page_text(recs, fts).len() <= PAGE_SIZE,
    ensures
        page_fields_spec(fit_to(page_text(recs, fts), PAGE_SIZE as nat), 0, n) == page_texts(recs, fts),
{
    lemma_page_suffix(recs, fts, n, 0);
    assert(recs.take(0) =~= Seq::<Seq<Cell>>::empty());
    assert(page_texts(recs, fts).skip(0) =~= page_texts(recs, fts));
}

} // verus!
