use vstd::prelude::*;

use crate::codec::{decode, decode_row, encodable, encode, encode_row};
use crate::error::{InternalStorageError, RowSerializerError};
use crate::page::{remove_range, Page, PAGE_SIZE};
use crate::query::Condition;
use crate::row::{lookup, row_wf, RowView, StoredRow};
use crate::table::{
    is_full, key_type, placed, placed_start, PageData, RecordView, RowMetaData, TableMetaData,
};
use crate::value::{
    lemma_value_irreflexive, lemma_value_total, lemma_value_transitive, text_equal, value_lt, value_wf, Value, ValueView,
};

verus! {

/// One table's storage: the page being filled, the allocator, and the index
/// from primary key to where each row lies, kept in key order.
#[derive(Debug)]
pub struct Storage {
    pub table_metadata: TableMetaData,
    pub pages: Page,
    pub page_metadata: PageData,
    pub rows: Vec<RowMetaData>,
    pub file_name: String,
}

pub ghost struct StorageView {
    pub table_name: Seq<char>,
    pub key_column: Seq<char>,
    pub key_kind: key_type,
    pub file_name: Seq<char>,
    pub page_number: int,
    pub data: Seq<u8>,
    pub alloc: PageData,
    pub index: Seq<RecordView>,
}

pub open spec fn index_view(rows: Seq<RowMetaData>) -> Seq<RecordView> {
    rows.map_values(|r: RowMetaData| r@)
}

impl View for Storage {
    type V = StorageView;

    open spec fn view(&self) -> StorageView {
        StorageView {
            table_name: self.table_metadata.table_name@,
            key_column: self.table_metadata.primary_key@,
            key_kind: self.table_metadata.prim_key_type,
            file_name: self.file_name@,
            page_number: self.pages.page_number as int,
            data: self.pages.data@,
            alloc: self.page_metadata,
            index: index_view(self.rows@),
        }
    }
}

/// Keys strictly increase along the index.
pub open spec fn sorted(s: Seq<RecordView>) -> bool {
    forall|i: int, j: int| 0 <= i < j < s.len() ==> value_lt(s[i].key, s[j].key)
}

/// Position of key `k` in the index, searching from the end; -1 if absent.
pub open spec fn find_key(s: Seq<RecordView>, k: ValueView) -> int
    decreases s.len(),
{
    if s.len() == 0 {
        -1
    } else if s.last().key == k {
        s.len() - 1
    } else {
        find_key(s.drop_last(), k)
    }
}

/// The index as a map from key to record.
pub open spec fn index_map(s: Seq<RecordView>) -> Map<ValueView, RecordView> {
    Map::new(|k: ValueView| find_key(s, k) >= 0, |k: ValueView| s[find_key(s, k)])
}

/// Every record in the index is well formed and lies on a page that exists.
pub open spec fn records_wf(s: StorageView) -> bool {
    forall|i: int|
        0 <= i < s.index.len() ==> {
            let r = #[trigger] s.index[i];
            &&& value_wf(r.key)
            &&& r.size >= 1
            &&& r.start >= 0
            &&& r.end == r.start + r.size - 1
            &&& 1 <= r.page <= s.alloc.page_number
            &&& r.page == s.page_number ==> r.end < s.data.len()
        }
}

/// Rows on the page being filled do not overlap.
pub open spec fn active_disjoint(s: StorageView) -> bool {
    forall|i: int, j: int|
        0 <= i < s.index.len() && 0 <= j < s.index.len() && i != j && s.index[i].page
            == s.page_number && s.index[j].page == s.page_number ==> s.index[i].end
            < s.index[j].start || s.index[j].end < s.index[i].start
}

pub open spec fn storage_wf(s: StorageView) -> bool {
    &&& sorted(s.index)
    &&& records_wf(s)
    &&& active_disjoint(s)
    &&& s.page_number == s.alloc.page_number
    &&& s.alloc.page_number >= 1
    &&& s.data.len() == s.alloc.current_size
}

pub proof fn lemma_find_key(s: Seq<RecordView>, k: ValueView)
    ensures
        -1 <= find_key(s, k) < s.len(),
        find_key(s, k) >= 0 ==> s[find_key(s, k)].key == k,
        find_key(s, k) < 0 ==> forall|j: int| 0 <= j < s.len() ==> s[j].key != k,
    decreases s.len(),
{
    if s.len() > 0 && s.last().key != k {
        lemma_find_key(s.drop_last(), k);
        if find_key(s, k) < 0 {
            assert forall|j: int| 0 <= j < s.len() implies s[j].key != k by {
                if j < s.len() - 1 {
                    assert(s[j] == s.drop_last()[j]);
                }
            }
        }
    }
}

/// In a sorted index, a key's position is the one entry holding it.
pub proof fn lemma_find_key_sorted(s: Seq<RecordView>, i: int)
    requires
        sorted(s),
        0 <= i < s.len(),
    ensures
        find_key(s, s[i].key) == i,
{
    lemma_find_key(s, s[i].key);
    let f = find_key(s, s[i].key);
    if f != i {
        if f < i {
            lemma_value_irreflexive(s[i].key);
        } else {
            lemma_value_irreflexive(s[i].key);
        }
    }
}

/// Each entry of a sorted index is what the map gives for its key, and each
/// key of the map has an entry.
pub proof fn lemma_index_map_entries(s: Seq<RecordView>)
    requires
        sorted(s),
    ensures
        forall|j: int|
            0 <= j < s.len() ==> #[trigger] index_map(s).contains_key(s[j].key) && index_map(
                s,
            )[s[j].key] == s[j],
        forall|k: ValueView|
            #[trigger] index_map(s).contains_key(k) ==> 0 <= find_key(s, k) < s.len() && s[find_key(
                s,
                k,
            )].key == k,
{
    assert forall|j: int| 0 <= j < s.len() implies #[trigger] index_map(s).contains_key(s[j].key)
        && index_map(s)[s[j].key] == s[j] by {
        lemma_find_key_sorted(s, j);
    }
    assert forall|k: ValueView| #[trigger] index_map(s).contains_key(k) implies 0 <= find_key(s, k)
        < s.len() && s[find_key(s, k)].key == k by {
        lemma_find_key(s, k);
    }
}

/// A sorted index is fixed by its map from key to record.
pub proof fn lemma_sorted_same_map(a: Seq<RecordView>, b: Seq<RecordView>)
    requires
        sorted(a),
        sorted(b),
        index_map(a) == index_map(b),
    ensures
        a == b,
    decreases a.len(),
{
    lemma_index_map_entries(a);
    lemma_index_map_entries(b);
    if a.len() == 0 {
        if b.len() > 0 {
            assert(index_map(b).contains_key(b[0].key));
            lemma_find_key(a, b[0].key);
        }
        assert(a =~= b);
    } else if b.len() == 0 {
        assert(index_map(a).contains_key(a[0].key));
        lemma_find_key(b, a[0].key);
    } else {
        let la = a.len() - 1;
        let lb = b.len() - 1;
        let ka = a[la].key;
        let kb = b[lb].key;
        assert(index_map(a).contains_key(ka));
        assert(index_map(b).contains_key(kb));
        if ka != kb {
            let ja = find_key(a, kb);
            let jb = find_key(b, ka);
            assert(ja != la);
            assert(jb != lb);
            assert(value_lt(kb, ka));
            assert(value_lt(ka, kb));
            lemma_value_transitive(ka, kb, ka);
            lemma_value_irreflexive(ka);
        }
        assert(a[la] == b[lb]);
        lemma_index_remove(a, la);
        lemma_index_remove(b, lb);
        assert(a.remove(la) =~= a.drop_last());
        assert(b.remove(lb) =~= b.drop_last());
        lemma_sorted_same_map(a.drop_last(), b.drop_last());
        assert(a =~= b.drop_last().push(b[lb]));
        assert(b =~= b.drop_last().push(b[lb]));
    }
}

proof fn lemma_not_in_map(s: Seq<RecordView>, k: ValueView)
    requires
        forall|j: int| 0 <= j < s.len() ==> s[j].key != k,
    ensures
        !index_map(s).contains_key(k),
{
    lemma_find_key(s, k);
}

proof fn lemma_index_insert(s: Seq<RecordView>, p: int, rec: RecordView)
    requires
        sorted(s),
        0 <= p <= s.len(),
        forall|j: int| 0 <= j < p ==> value_lt(#[trigger] s[j].key, rec.key),
        forall|j: int| p <= j < s.len() ==> value_lt(rec.key, #[trigger] s[j].key),
    ensures
        sorted(s.insert(p, rec)),
        index_map(s.insert(p, rec)) == index_map(s).insert(rec.key, rec),
{
    let t = s.insert(p, rec);
    assert forall|i: int, j: int| 0 <= i < j < t.len() implies value_lt(t[i].key, t[j].key) by {
        if j < p {
        } else if j == p {
        } else if i < p {
            lemma_value_transitive(t[i].key, rec.key, t[j].key);
        } else if i == p {
        } else {
        }
    }
    lemma_index_map_entries(s);
    lemma_index_map_entries(t);
    assert(t[p] == rec);
    assert(index_map(t).contains_key(t[p].key));
    assert forall|k: ValueView| #[trigger] index_map(t).contains_key(k) == index_map(s).insert(
        rec.key,
        rec,
    ).contains_key(k) by {
        if index_map(s).contains_key(k) {
            let j = find_key(s, k);
            if j < p {
                assert(t[j] == s[j]);
            } else {
                assert(t[j + 1] == s[j]);
            }
        }
        if index_map(t).contains_key(k) {
            let j = find_key(t, k);
            if j < p {
                assert(t[j] == s[j]);
            } else if j > p {
                assert(t[j] == s[j - 1]);
            }
        }
    }
    assert forall|k: ValueView| #[trigger] index_map(t).contains_key(k) implies index_map(t)[k]
        == index_map(s).insert(rec.key, rec)[k] by {
        let j = find_key(t, k);
        if j < p {
            assert(t[j] == s[j]);
        } else if j > p {
            assert(t[j] == s[j - 1]);
            if k == rec.key {
                lemma_value_irreflexive(rec.key);
            }
        }
        if j < p && k == rec.key {
            lemma_value_irreflexive(rec.key);
        }
    }
    assert(index_map(t) =~= index_map(s).insert(rec.key, rec));
}

proof fn lemma_index_update(s: Seq<RecordView>, i: int, rec: RecordView)
    requires
        sorted(s),
        0 <= i < s.len(),
        s[i].key == rec.key,
    ensures
        sorted(s.update(i, rec)),
        index_map(s.update(i, rec)) == index_map(s).insert(rec.key, rec),
{
    let t = s.update(i, rec);
    lemma_index_map_entries(s);
    lemma_index_map_entries(t);
    assert forall|k: ValueView| #[trigger] index_map(t).contains_key(k) == index_map(s).insert(
        rec.key,
        rec,
    ).contains_key(k) by {
        if index_map(s).contains_key(k) {
            let j = find_key(s, k);
            if j != i {
                assert(t[j] == s[j]);
            }
        }
        if index_map(t).contains_key(k) {
            let j = find_key(t, k);
            if j != i {
                assert(t[j] == s[j]);
            }
        }
    }
    assert forall|k: ValueView| #[trigger] index_map(t).contains_key(k) implies index_map(t)[k]
        == index_map(s).insert(rec.key, rec)[k] by {
        let j = find_key(t, k);
        lemma_find_key_sorted(t, i);
        if j != i {
            assert(t[j] == s[j]);
            lemma_find_key_sorted(s, j);
        }
    }
    assert(index_map(t) =~= index_map(s).insert(rec.key, rec));
}

proof fn lemma_index_remove(s: Seq<RecordView>, i: int)
    requires
        sorted(s),
        0 <= i < s.len(),
    ensures
        sorted(s.remove(i)),
        index_map(s.remove(i)) == index_map(s).remove(s[i].key),
{
    let t = s.remove(i);
    let k0 = s[i].key;
    assert forall|a: int, b: int| 0 <= a < b < t.len() implies value_lt(t[a].key, t[b].key) by {
        if a < i && b >= i {
            assert(t[b] == s[b + 1]);
        }
    }
    lemma_index_map_entries(s);
    lemma_index_map_entries(t);
    assert forall|k: ValueView| #[trigger] index_map(t).contains_key(k) == index_map(s).remove(
        k0,
    ).contains_key(k) by {
        if index_map(s).contains_key(k) && k != k0 {
            let j = find_key(s, k);
            if j < i {
                assert(t[j] == s[j]);
            } else {
                assert(t[j - 1] == s[j]);
            }
        }
        if index_map(t).contains_key(k) {
            let j = find_key(t, k);
            if j < i {
                assert(t[j] == s[j]);
                lemma_value_irreflexive(k0);
            } else {
                assert(t[j] == s[j + 1]);
                lemma_value_irreflexive(k0);
            }
        }
    }
    assert forall|k: ValueView| #[trigger] index_map(t).contains_key(k) implies index_map(t)[k]
        == index_map(s).remove(k0)[k] by {
        let j = find_key(t, k);
        if j < i {
            assert(t[j] == s[j]);
        } else {
            assert(t[j] == s[j + 1]);
        }
    }
    assert(index_map(t) =~= index_map(s).remove(k0));
}

/// A write whose page has not reached the disk yet: the page to persist, and
/// what undoes the write where persisting fails (the page, the allocator and
/// the key's record as they were before the write).
pub struct PendingWrite {
    pub key: Value,
    pub page: Page,
    pub start: usize,
    pub end: usize,
    pub row_size: usize,
    pub prior_page: Page,
    pub prior_alloc: PageData,
    pub prior_record: Option<RowMetaData>,
    pub prior: Ghost<StorageView>,
}

pub ghost struct PendingView {
    pub key: ValueView,
    pub page_number: int,
    pub data: Seq<u8>,
    pub start: int,
    pub end: int,
    pub size: int,
    pub prior: StorageView,
}

impl View for PendingWrite {
    type V = PendingView;

    open spec fn view(&self) -> PendingView {
        PendingView {
            key: self.key@,
            page_number: self.page.page_number as int,
            data: self.page.data@,
            start: self.start as int,
            end: self.end as int,
            size: self.row_size as int,
            prior: self.prior@,
        }
    }
}

impl PendingWrite {
    /// The write can be undone from state `s`: what it carries is the
    /// well-formed state before the write, and `s` differs from that state
    /// at most in the record of the written key.
    pub open spec fn undoes_to(&self, s: StorageView) -> bool {
        let prior = self.prior@;
        &&& storage_wf(prior)
        &&& same_table(prior, s)
        &&& self.key.wf()
        &&& self.prior_page.page_number == prior.page_number
        &&& self.prior_page.data@ == prior.data
        &&& self.prior_alloc == prior.alloc
        &&& match self.prior_record {
            Some(r) => r.wf() && index_map(prior.index).contains_key(self.key@) && r@ == index_map(
                prior.index,
            )[self.key@],
            None => !index_map(prior.index).contains_key(self.key@),
        }
        &&& index_map(s.index).remove(self.key@) == index_map(prior.index).remove(self.key@)
    }
}

/// The table, the key column and the snapshot file are the same in both.
pub open spec fn same_table(s: StorageView, t: StorageView) -> bool {
    &&& t.table_name == s.table_name
    &&& t.key_column == s.key_column
    &&& t.key_kind == s.key_kind
    &&& t.file_name == s.file_name
}

/// Where a write of `row` places its bytes in state `s`.
pub open spec fn write_record(s: StorageView, row: RowView) -> RecordView {
    let n = encode_row(row).len() as int;
    let start = placed_start(s.alloc, n);
    RecordView {
        key: lookup(row, s.key_column).unwrap(),
        size: n,
        start,
        end: start + n - 1,
        page: placed(s.alloc, n).page_number as int,
    }
}

/// `t` is `s` after a write of `row` that is waiting for its page to reach
/// the disk, and `p` is that page with what undoes the write: the row's bytes
/// are placed by the allocator and appended to the page being filled (a new
/// empty page where the allocator moved on), and the index maps the row's
/// key to the new place, whatever it mapped the key to before.
pub open spec fn written(s: StorageView, row: RowView, t: StorageView, p: PendingView) -> bool {
    let b = encode_row(row);
    let n = b.len() as int;
    let rec = write_record(s, row);
    &&& row_wf(row)
    &&& lookup(row, s.key_column) is Some
    &&& encodable(row)
    &&& s.alloc.page_number < usize::MAX
    &&& same_table(s, t)
    &&& t.alloc == placed(s.alloc, n)
    &&& t.page_number == t.alloc.page_number
    &&& t.data == (if is_full(s.alloc, n) {
        Seq::<u8>::empty()
    } else {
        s.data
    }) + b
    &&& index_map(t.index) == index_map(s.index).insert(rec.key, rec)
    &&& p.key == rec.key
    &&& p.page_number == t.page_number
    &&& p.data == t.data
    &&& p.start == rec.start
    &&& p.end == rec.end
    &&& p.size == n
    &&& p.prior == s
}

/// `t` is the state from before the pending write `p`: the write is undone
/// as if it had never been made.
pub open spec fn rolled_back(p: PendingView, t: StorageView) -> bool {
    t == p.prior
}

/// Why a read gave no row.
pub ghost enum ReadFailure {
    NotFound,
    DiskRead,
    Decode,
}

/// The row that a record's bytes hold on page `n` with bytes `b`: the page
/// must be the record's and must hold the record's range.
pub open spec fn record_row(rec: RecordView, n: int, b: Seq<u8>) -> Result<RowView, ReadFailure> {
    if n == rec.page && 0 <= rec.start <= rec.end < b.len() {
        match decode_row(b.subrange(rec.start, rec.end + 1)) {
            Some(row) => Ok(row),
            None => Err(ReadFailure::Decode),
        }
    } else {
        Err(ReadFailure::DiskRead)
    }
}

/// Reading the row of key `k` from page `n` with bytes `b`.
pub open spec fn read_spec(s: StorageView, k: ValueView, n: int, b: Seq<u8>) -> Result<
    RowView,
    ReadFailure,
> {
    if index_map(s.index).contains_key(k) {
        record_row(index_map(s.index)[k], n, b)
    } else {
        Err(ReadFailure::NotFound)
    }
}

pub open spec fn pages_view(ps: Seq<Page>) -> Seq<(int, Seq<u8>)> {
    ps.map_values(|p: Page| (p.page_number as int, p.data@))
}

/// The bytes of page `n` among `ps`, the last one given where it repeats.
pub open spec fn page_bytes(ps: Seq<(int, Seq<u8>)>, n: int) -> Option<Seq<u8>>
    decreases ps.len(),
{
    if ps.len() == 0 {
        None
    } else if ps.last().0 == n {
        Some(ps.last().1)
    } else {
        page_bytes(ps.drop_last(), n)
    }
}

/// The row a record holds among the given pages, where it can be read.
pub open spec fn read_entry(rec: RecordView, ps: Seq<(int, Seq<u8>)>) -> Option<RowView> {
    match page_bytes(ps, rec.page) {
        Some(b) => match record_row(rec, rec.page, b) {
            Ok(row) => Some(row),
            Err(_) => None,
        },
        None => None,
    }
}

/// The rows of the index in key order, skipping those that cannot be read.
pub open spec fn read_all_spec(index: Seq<RecordView>, ps: Seq<(int, Seq<u8>)>) -> Seq<RowView>
    decreases index.len(),
{
    if index.len() == 0 {
        Seq::empty()
    } else {
        let prev = read_all_spec(index.drop_last(), ps);
        match read_entry(index.last(), ps) {
            Some(row) => prev.push(row),
            None => prev,
        }
    }
}

pub open spec fn rows_view(rows: Seq<StoredRow>) -> Seq<RowView> {
    rows.map_values(|r: StoredRow| r@)
}

/// Whether a row satisfies `column token literal`: the row has the column,
/// and its value equals the literal for `=`, differs from it for `!=`. Other
/// operators select nothing.
pub open spec fn row_matches(row: RowView, column: Seq<char>, token: Seq<char>, literal: ValueView) -> bool {
    match lookup(row, column) {
        Some(v) => (token == seq!['='] && v == literal) || (token == seq!['!', '='] && v != literal),
        None => false,
    }
}

/// The rows that satisfy the condition, in order.
pub open spec fn filter_spec(
    rows: Seq<RowView>,
    column: Seq<char>,
    token: Seq<char>,
    literal: ValueView,
) -> Seq<RowView>
    decreases rows.len(),
{
    if rows.len() == 0 {
        Seq::empty()
    } else {
        let prev = filter_spec(rows.drop_last(), column, token, literal);
        if row_matches(rows.last(), column, token, literal) {
            prev.push(rows.last())
        } else {
            prev
        }
    }
}

/// Which operator a token is: 1 for `=`, 2 for `!=`, 0 for any other.
fn token_kind(token: &String) -> (r: u8)
    ensures
        r == 1 <==> token@ == seq!['='],
        r == 2 <==> token@ == seq!['!', '='],
        r <= 2,
{
    let eq = "=".to_owned();
    let ne = "!=".to_owned();
    proof {
        reveal_strlit("=");
        reveal_strlit("!=");
        assert(eq@ =~= seq!['=']);
        assert(ne@ =~= seq!['!', '=']);
    }
    if text_equal(token, &eq) {
        1
    } else if text_equal(token, &ne) {
        2
    } else {
        0
    }
}

/// The rows that satisfy `column token literal`, in order.
pub fn filter_rows(rows: &Vec<StoredRow>, column: &String, token: &String, literal: &Value) -> (r: Vec<
    StoredRow,
>)
    ensures
        rows_view(r@) == filter_spec(rows_view(rows@), column@, token@, literal@),
{
    let kind = token_kind(token);
    let mut out: Vec<StoredRow> = Vec::new();
    let n = rows.len();
    let mut i: usize = 0;
    assert(rows_view(rows@).subrange(0, 0) =~= Seq::<RowView>::empty());
    assert(rows_view(out@) =~= Seq::<RowView>::empty());
    while i < n
        invariant
            n == rows@.len(),
            0 <= i <= n,
            kind == 1 <==> token@ == seq!['='],
            kind == 2 <==> token@ == seq!['!', '='],
            rows_view(out@) == filter_spec(
                rows_view(rows@).subrange(0, i as int),
                column@,
                token@,
                literal@,
            ),
        decreases n - i,
    {
        let row = &rows[i];
        let keep = match row.get(column) {
            Some(v) => (kind == 1 && v.same(literal)) || (kind == 2 && !v.same(literal)),
            None => false,
        };
        proof {
            let pre = rows_view(rows@).subrange(0, i + 1);
            assert(pre.drop_last() =~= rows_view(rows@).subrange(0, i as int));
            assert(pre.last() == rows@[i as int]@);
        }
        if keep {
            let ghost before = out@;
            out.push(row.duplicate());
            assert(rows_view(out@) =~= rows_view(before).push(rows@[i as int]@));
        }
        i = i + 1;
    }
    assert(rows_view(rows@).subrange(0, n as int) =~= rows_view(rows@));
    out
}

/// Position of the last page numbered `n`.
fn find_page(pages: &Vec<Page>, n: usize) -> (r: Option<usize>)
    ensures
        match r {
            Some(j) => j < pages@.len() && page_bytes(pages_view(pages@), n as int) == Some(
                pages@[j as int].data@,
            ) && pages@[j as int].page_number == n,
            None => page_bytes(pages_view(pages@), n as int) is None,
        },
{
    let ghost ps = pages_view(pages@);
    let mut i: usize = pages.len();
    assert(ps.subrange(0, i as int) =~= ps);
    while i > 0
        invariant
            0 <= i <= pages@.len(),
            ps == pages_view(pages@),
            page_bytes(ps, n as int) == page_bytes(ps.subrange(0, i as int), n as int),
        decreases i,
    {
        proof {
            assert(ps.subrange(0, i as int).drop_last() =~= ps.subrange(0, i - 1));
        }
        if pages[i - 1].page_number == n {
            return Some(i - 1);
        }
        i = i - 1;
    }
    None
}

/// Reads a record's row from a page.
fn read_record(rec: &RowMetaData, page: &Page) -> (r: Result<StoredRow, InternalStorageError>)
    requires
        rec.wf(),
        rec@.start >= 0,
    ensures
        match r {
            Ok(row) => record_row(rec@, page.page_number as int, page.data@) == Ok::<
                RowView,
                ReadFailure,
            >(row@) && row_wf(row@),
            Err(InternalStorageError::ErrReadFromDisk(_)) => record_row(
                rec@,
                page.page_number as int,
                page.data@,
            ) == Err::<RowView, ReadFailure>(ReadFailure::DiskRead),
            Err(InternalStorageError::SerializerError(RowSerializerError::ErrRowDeserialize(_))) => record_row(
                rec@,
                page.page_number as int,
                page.data@,
            ) == Err::<RowView, ReadFailure>(ReadFailure::Decode),
            Err(_) => false,
        },
{
    if page.page_number != rec.page_number {
        return Err(InternalStorageError::ErrReadFromDisk("unable to read from disk".to_owned()));
    }
    match page.read_chunks(rec.range[0], rec.range[1]) {
        Some(bytes) => match decode(bytes.as_slice()) {
            Ok(row) => Ok(row),
            Err(e) => Err(InternalStorageError::SerializerError(e)),
        },
        None => Err(InternalStorageError::ErrReadFromDisk("unable to read from disk".to_owned())),
    }
}

/// What a delete asks of the disk.
#[derive(Debug)]
pub enum DeleteOutcome {
    /// The matching rows left the index. Where a page is given, it is the
    /// compacted page being filled, to persist.
    Compacted(Option<Page>),
    /// Every row left; the files of these pages are to be removed.
    Cleared(Vec<usize>),
}

/// A record after the bytes of `gone` left its page: records after `gone`
/// on that page move back by its size.
pub open spec fn shift_record(r: RecordView, gone: RecordView) -> RecordView {
    if r.page == gone.page && r.start > gone.start {
        RecordView { start: r.start - gone.size, end: r.end - gone.size, ..r }
    } else {
        r
    }
}

/// The storage after the row of key `k` is deleted. Where the row lies on
/// the page being filled, its bytes leave the page, the rows after it on
/// that page move back, and the allocator counts the page's new length.
/// Bytes on other pages stay where they are.
pub open spec fn delete_one(s: StorageView, k: ValueView) -> StorageView {
    if index_map(s.index).contains_key(k) {
        let pos = find_key(s.index, k);
        let gone = s.index[pos];
        let rest = s.index.remove(pos);
        if gone.page == s.page_number {
            let data = remove_range(s.data, gone.start, gone.end);
            StorageView {
                data,
                alloc: PageData { current_size: data.len() as usize, ..s.alloc },
                index: rest.map_values(|r: RecordView| shift_record(r, gone)),
                ..s
            }
        } else {
            StorageView { index: rest, ..s }
        }
    } else {
        s
    }
}

/// The storage after deleting each key in turn.
pub open spec fn delete_keys(s: StorageView, ks: Seq<ValueView>) -> StorageView
    decreases ks.len(),
{
    if ks.len() == 0 {
        s
    } else {
        delete_one(delete_keys(s, ks.drop_last()), ks.last())
    }
}

/// The well-formed primary-key values of the given rows, in order.
pub open spec fn matched_keys(rows: Seq<RowView>, key_column: Seq<char>) -> Seq<ValueView>
    decreases rows.len(),
{
    if rows.len() == 0 {
        Seq::empty()
    } else {
        let prev = matched_keys(rows.drop_last(), key_column);
        match lookup(rows.last(), key_column) {
            Some(v) => if value_wf(v) {
                prev.push(v)
            } else {
                prev
            },
            None => prev,
        }
    }
}

/// The storage after a delete with a condition: the rows that can be read
/// and satisfy it are deleted, by their primary key.
pub open spec fn delete_where(
    s: StorageView,
    ps: Seq<(int, Seq<u8>)>,
    column: Seq<char>,
    token: Seq<char>,
    literal: ValueView,
) -> StorageView {
    delete_keys(
        s,
        matched_keys(filter_spec(read_all_spec(s.index, ps), column, token, literal), s.key_column),
    )
}

/// The storage after every row is deleted: page 1 empty, a fresh allocator,
/// an empty index.
pub open spec fn cleared(s: StorageView) -> StorageView {
    StorageView {
        page_number: 1,
        data: Seq::empty(),
        alloc: PageData::default_spec(),
        index: Seq::empty(),
        ..s
    }
}

/// The numbers `1..=n`.
pub open spec fn page_numbers(n: int) -> Seq<usize> {
    Seq::new(n as nat, |i: int| (i + 1) as usize)
}

proof fn lemma_remove_range_len(s: Seq<u8>, start: int, end: int)
    requires
        0 <= start <= end < s.len(),
    ensures
        remove_range(s, start, end).len() == s.len() - (end - start + 1),
{
}

/// Deleting a key keeps the storage well formed.
pub proof fn lemma_delete_one_wf(s: StorageView, k: ValueView)
    requires
        storage_wf(s),
    ensures
        storage_wf(delete_one(s, k)),
        same_table(s, delete_one(s, k)),
        !index_map(delete_one(s, k).index).contains_key(k),
        index_map(delete_one(s, k).index).dom() == index_map(s.index).dom().remove(k),
{
    lemma_index_map_entries(s.index);
    if index_map(s.index).contains_key(k) {
        let pos = find_key(s.index, k);
        let gone = s.index[pos];
        let rest = s.index.remove(pos);
        lemma_index_remove(s.index, pos);
        let t = delete_one(s, k);
        if gone.page == s.page_number {
            lemma_remove_range_len(s.data, gone.start, gone.end);
            let idx = rest.map_values(|r: RecordView| shift_record(r, gone));
            assert(t.index == idx);
            assert forall|i: int| 0 <= i < idx.len() implies #[trigger] idx[i].key == rest[i].key
                && idx[i].page == rest[i].page && idx[i].size == rest[i].size by {}
            assert(sorted(idx)) by {
                assert forall|i: int, j: int| 0 <= i < j < idx.len() implies value_lt(
                    idx[i].key,
                    idx[j].key,
                ) by {
                    assert(idx[i].key == rest[i].key);
                    assert(idx[j].key == rest[j].key);
                }
            }
            // Each remaining record comes from the old index at a position other than `pos`.
            assert forall|i: int| 0 <= i < rest.len() implies #[trigger] rest[i] == s.index[if i
                < pos {
                i
            } else {
                i + 1
            }] by {}
            assert forall|i: int| 0 <= i < idx.len() implies {
                let r = #[trigger] idx[i];
                &&& value_wf(r.key)
                &&& r.size >= 1
                &&& r.start >= 0
                &&& r.end == r.start + r.size - 1
                &&& 1 <= r.page <= t.alloc.page_number
                &&& r.page == t.page_number ==> r.end < t.data.len()
            } by {
                let j = if i < pos {
                    i
                } else {
                    i + 1
                };
                assert(rest[i] == s.index[j]);
                if s.index[j].page == s.page_number {
                    assert(s.index[j].end < gone.start || gone.end < s.index[j].start);
                }
            }
            assert(records_wf(t));
            assert forall|a: int, b: int|
                0 <= a < idx.len() && 0 <= b < idx.len() && a != b && idx[a].page == t.page_number
                    && idx[b].page == t.page_number implies idx[a].end < idx[b].start || idx[b].end
                < idx[a].start by {
                let ja = if a < pos {
                    a
                } else {
                    a + 1
                };
                let jb = if b < pos {
                    b
                } else {
                    b + 1
                };
                assert(rest[a] == s.index[ja]);
                assert(rest[b] == s.index[jb]);
                assert(s.index[ja].end < s.index[jb].start || s.index[jb].end < s.index[ja].start);
                assert(s.index[ja].end < gone.start || gone.end < s.index[ja].start);
                assert(s.index[jb].end < gone.start || gone.end < s.index[jb].start);
            }
            assert(active_disjoint(t));
            lemma_index_map_entries(idx);
            lemma_index_map_entries(rest);
            assert forall|kk: ValueView| #[trigger] index_map(idx).contains_key(kk)
                == index_map(rest).contains_key(kk) by {
                if index_map(idx).contains_key(kk) {
                    let j = find_key(idx, kk);
                    assert(idx[j].key == rest[j].key);
                }
                if index_map(rest).contains_key(kk) {
                    let j = find_key(rest, kk);
                    assert(idx[j].key == rest[j].key);
                }
            }
            assert(index_map(idx).dom() =~= index_map(rest).dom());
        } else {
            assert forall|i: int| 0 <= i < rest.len() implies #[trigger] rest[i] == s.index[if i
                < pos {
                i
            } else {
                i + 1
            }] by {}
            assert forall|a: int, b: int|
                0 <= a < rest.len() && 0 <= b < rest.len() && a != b && rest[a].page
                    == t.page_number && rest[b].page == t.page_number implies rest[a].end
                < rest[b].start || rest[b].end < rest[a].start by {
                let ja = if a < pos {
                    a
                } else {
                    a + 1
                };
                let jb = if b < pos {
                    b
                } else {
                    b + 1
                };
                assert(rest[a] == s.index[ja]);
                assert(rest[b] == s.index[jb]);
            }
            assert forall|i: int| 0 <= i < rest.len() implies #[trigger] records_wf_at(t, i) by {
                let j = if i < pos {
                    i
                } else {
                    i + 1
                };
                assert(rest[i] == s.index[j]);
            }
        }
        assert(index_map(t.index).dom() =~= index_map(s.index).dom().remove(k));
    } else {
        assert(index_map(s.index).dom().remove(k) =~= index_map(s.index).dom());
    }
}

/// Two distinct rows on the page being filled do not overlap.
pub proof fn lemma_disjoint_at(s: StorageView, a: int, b: int)
    requires
        active_disjoint(s),
        0 <= a < s.index.len(),
        0 <= b < s.index.len(),
        a != b,
        s.index[a].page == s.page_number,
        s.index[b].page == s.page_number,
    ensures
        s.index[a].end < s.index[b].start || s.index[b].end < s.index[a].start,
{
}

pub open spec fn records_wf_at(s: StorageView, i: int) -> bool {
    let r = s.index[i];
    &&& value_wf(r.key)
    &&& r.size >= 1
    &&& r.start >= 0
    &&& r.end == r.start + r.size - 1
    &&& 1 <= r.page <= s.alloc.page_number
    &&& r.page == s.page_number ==> r.end < s.data.len()
}

/// A copy of a record, moved back by `gone`'s size where it lies after
/// `gone` on the same page.
fn shifted_copy(r: &RowMetaData, gone: &RowMetaData) -> (out: RowMetaData)
    requires
        r.wf(),
        gone.wf(),
        r@.page == gone@.page && r@.start > gone@.start ==> r@.start >= gone@.size,
    ensures
        out@ == shift_record(r@, gone@),
        out.wf(),
{
    let table = r.table.duplicate();
    let key = r.primary_key.duplicate();
    if r.page_number == gone.page_number && r.range[0] > gone.range[0] {
        let new_start = r.range[0] - gone.row_size;
        let new_end = r.range[1] - gone.row_size;
        let range = vec![new_start, new_end];
        RowMetaData { table, primary_key: key, row_size: r.row_size, range, page_number: r.page_number }
    } else {
        let range = vec![r.range[0], r.range[1]];
        RowMetaData { table, primary_key: key, row_size: r.row_size, range, page_number: r.page_number }
    }
}

impl Storage {
    pub open spec fn wf(&self) -> bool {
        &&& storage_wf(self@)
        &&& forall|i: int| 0 <= i < self.rows@.len() ==> (#[trigger] self.rows@[i]).wf()
    }

    /// The index is in key order and its records are well formed.
    pub open spec fn index_ok(&self) -> bool {
        &&& sorted(self@.index)
        &&& forall|i: int| 0 <= i < self.rows@.len() ==> (#[trigger] self.rows@[i]).wf()
    }

    /// A fresh storage for a table: page 1 empty, nothing allocated, no rows.
    pub fn from_table_meta(table_metadata: TableMetaData, file_name: String) -> (r: Self)
        ensures
            r.wf(),
            r@.table_name == table_metadata.table_name@,
            r@.key_column == table_metadata.primary_key@,
            r@.key_kind == table_metadata.prim_key_type,
            r@.file_name == file_name@,
            r@.page_number == 1,
            r@.data == Seq::<u8>::empty(),
            r@.alloc == PageData::default_spec(),
            r@.index == Seq::<RecordView>::empty(),
    {
        let pages = Page::new(1, Vec::new());
        let page_metadata = PageData::default(1);
        let rows: Vec<RowMetaData> = Vec::new();
        let r = Self { table_metadata, pages, page_metadata, rows, file_name };
        assert(r@.index =~= Seq::<RecordView>::empty());
        r
    }

    /// The storage of a table `User` keyed by the number column `id`.
    pub fn default() -> (r: Self)
        ensures
            r.wf(),
            r@.index == Seq::<RecordView>::empty(),
    {
        let t_meta = TableMetaData::new("User".to_owned(), "id".to_owned(), key_type::Number);
        Self::from_table_meta(t_meta, "User_storage.json".to_owned())
    }

    /// Whether the page being filled is at `PAGE_SIZE` bytes or would pass it
    /// with `chunk_size` more. Writes do not ask this: the allocator alone
    /// decides when a new page starts.
    #[allow(non_snake_case)]
    pub fn isPageFull(&self, chunk_size: usize) -> (r: bool)
        ensures
            r == (self.pages.data@.len() == PAGE_SIZE || self.pages.data@.len() + chunk_size
                > PAGE_SIZE),
    {
        let len = self.pages.data.len();
        if len == PAGE_SIZE {
            return true;
        }
        chunk_size > PAGE_SIZE || len > PAGE_SIZE - chunk_size
    }

    /// Replaces the page being filled by an empty page.
    #[allow(non_snake_case)]
    pub fn create_new_page(&mut self, page_number: usize)
        ensures
            final(self).pages.page_number == page_number,
            final(self).pages.data@ == Seq::<u8>::empty(),
            final(self).table_metadata == old(self).table_metadata,
            final(self).page_metadata == old(self).page_metadata,
            final(self).rows == old(self).rows,
            final(self).file_name == old(self).file_name,
    {
        self.pages = Page::default(page_number);
    }

    /// Where `key` stands in the index: `Ok` with its position, or `Err`
    /// with the position where it would go.
    pub fn index_position(&self, key: &Value) -> (r: Result<usize, usize>)
        requires
            self.index_ok(),
            key.wf(),
        ensures
            match r {
                Ok(i) => i < self@.index.len() && self@.index[i as int].key == key@,
                Err(p) => p <= self@.index.len() && (forall|j: int|
                    0 <= j < p ==> value_lt(#[trigger] self@.index[j].key, key@)) && (forall|j: int|
                    p <= j < self@.index.len() ==> value_lt(key@, #[trigger] self@.index[j].key)),
            },
    {
        let ghost s = self@.index;
        let n = self.rows.len();
        let mut i: usize = 0;
        while i < n && self.rows[i].primary_key.less_than(key)
            invariant
                n == self.rows@.len(),
                s == self@.index,
                self.index_ok(),
                key.wf(),
                0 <= i <= n,
                forall|j: int| 0 <= j < i ==> value_lt(#[trigger] s[j].key, key@),
            decreases n - i,
        {
            assert(s[i as int] == self.rows@[i as int]@);
            i = i + 1;
        }
        if i < n {
            assert(s[i as int] == self.rows@[i as int]@);
            assert(self.rows@[i as int].wf());
            if self.rows[i].primary_key.same(key) {
                return Ok(i);
            }
            proof {
                assert(value_wf(s[i as int].key));
                lemma_value_total(key@, s[i as int].key);
                assert forall|j: int| i <= j < s.len() implies value_lt(
                    key@,
                    #[trigger] s[j].key,
                ) by {
                    if j > i {
                        lemma_value_transitive(key@, s[i as int].key, s[j].key);
                    }
                }
            }
        }
        Err(i)
    }

    /// Puts a record in the index under its key, replacing the record the
    /// key had.
    fn put_record(&mut self, rec: RowMetaData) -> (replaced: Option<RowMetaData>)
        requires
            old(self).index_ok(),
            rec.wf(),
        ensures
            match replaced {
                Some(r) => r.wf() && index_map(old(self)@.index).contains_key(rec@.key) && r@
                    == index_map(old(self)@.index)[rec@.key],
                None => !index_map(old(self)@.index).contains_key(rec@.key),
            },
            sorted(final(self)@.index),
            index_map(final(self)@.index) == index_map(old(self)@.index).insert(rec@.key, rec@),
            forall|i: int| 0 <= i < final(self).rows@.len() ==> (#[trigger] final(self).rows@[i]).wf(),
            final(self).table_metadata == old(self).table_metadata,
            final(self).pages == old(self).pages,
            final(self).page_metadata == old(self).page_metadata,
            final(self).file_name == old(self).file_name,
    {
        let ghost s = old(self)@.index;
        proof {
            lemma_index_map_entries(s);
        }
        match self.index_position(&rec.primary_key) {
            Ok(i) => {
                let prev = self.rows.remove(i);
                self.rows.insert(i, rec);
                proof {
                    assert(old(self).rows@[i as int].wf());
                    lemma_find_key_sorted(s, i as int);
                    lemma_index_update(s, i as int, rec@);
                    assert(final(self)@.index =~= s.update(i as int, rec@));
                }
                Some(prev)
            },
            Err(p) => {
                self.rows.insert(p, rec);
                proof {
                    lemma_not_in_map(s, rec@.key);
                    lemma_index_insert(s, p as int, rec@);
                    assert(final(self)@.index =~= s.insert(p as int, rec@));
                }
                None
            },
        }
    }

    /// Takes the record of `key` out of the index, where there is one.
    fn remove_record(&mut self, key: &Value) -> (r: Option<RowMetaData>)
        requires
            old(self).index_ok(),
            key.wf(),
        ensures
            sorted(final(self)@.index),
            index_map(final(self)@.index) == index_map(old(self)@.index).remove(key@),
            match r {
                Some(rec) => index_map(old(self)@.index).contains_key(key@) && rec@ == index_map(
                    old(self)@.index,
                )[key@] && rec.wf() && exists|i: int|
                    0 <= i < old(self)@.index.len() && final(self)@.index == old(
                        self,
                    )@.index.remove(i) && old(self)@.index[i] == rec@,
                None => !index_map(old(self)@.index).contains_key(key@) && final(self)@.index
                    == old(self)@.index,
            },
            forall|i: int| 0 <= i < final(self).rows@.len() ==> (#[trigger] final(self).rows@[i]).wf(),
            final(self).table_metadata == old(self).table_metadata,
            final(self).pages == old(self).pages,
            final(self).page_metadata == old(self).page_metadata,
            final(self).file_name == old(self).file_name,
    {
        let ghost s = old(self)@.index;
        match self.index_position(key) {
            Ok(i) => {
                let rec = self.rows.remove(i);
                proof {
                    lemma_index_remove(s, i as int);
                    lemma_index_map_entries(s);
                    assert(final(self)@.index =~= s.remove(i as int));
                    assert(old(self).rows@[i as int].wf());
                    assert(s[i as int] == rec@);
                    lemma_find_key_sorted(s, i as int);
                    assert(index_map(s).contains_key(key@));
                }
                Some(rec)
            },
            Err(p) => {
                proof {
                    lemma_not_in_map(s, key@);
                    assert(index_map(s).remove(key@) =~= index_map(s));
                }
                None
            },
        }
    }

    /// Writes a row into the page being filled and indexes it under its
    /// primary key. The page still has to reach the disk: the returned
    /// pending write holds it, and `finish_write` must follow.
    ///
    /// The row's byte layout gives every length four bytes, so a row with
    /// more than `u32::MAX` fields, or a name, text or number with more than
    /// `u32::MAX` bytes or digits, is not encodable and fails with
    /// `ErrRowSerialize`.
    pub fn write(&mut self, data: StoredRow) -> (r: Result<PendingWrite, InternalStorageError>)
        requires
            old(self).wf(),
            row_wf(data@),
            old(self)@.alloc.page_number < usize::MAX,
            encodable(data@) ==> old(self)@.alloc.current_size + encode_row(data@).len()
                <= usize::MAX,
        ensures
            final(self).wf(),
            r is Ok <==> lookup(data@, old(self)@.key_column) is Some && encodable(data@),
            match r {
                Ok(p) => written(old(self)@, data@, final(self)@, p@) && p.undoes_to(final(self)@),
                Err(e) => final(self)@ == old(self)@ && (lookup(data@, old(self)@.key_column) is None
                    ==> e is ErrPrimaryKeyNotFound) && (lookup(data@, old(self)@.key_column) is Some
                    ==> (e matches InternalStorageError::SerializerError(
                    RowSerializerError::ErrRowSerialize(_),
                ))),
            },
    {
        let ghost s0 = old(self)@;
        let key = match data.get(&self.table_metadata.primary_key) {
            Some(k) => k.duplicate(),
            None => {
                return Err(InternalStorageError::ErrPrimaryKeyNotFound("primary key not found".to_owned()))
            },
        };
        assert(key.wf()) by {
            crate::row::lemma_field_index(data@, s0.key_column);
        }
        let bytes = match encode(&data) {
            Ok(b) => b,
            Err(e) => return Err(InternalStorageError::SerializerError(e)),
        };
        let n = bytes.len();
        proof {
            vstd::bytes::lemma_auto_spec_u32_to_from_le_bytes();
            assert(encode_row(data@).len() >= 4);
        }
        let ghost rec_v = write_record(s0, data@);
        let prior_page = self.pages.duplicate();
        let prior_alloc = self.page_metadata;
        let (page_number, chunk_range) = self.page_metadata.getChunkData(n);
        if page_number != self.pages.page_number {
            self.create_new_page(page_number);
        }
        let start = chunk_range[0];
        let end = chunk_range[1];
        let rec = RowMetaData::new(
            self.table_metadata.duplicate(),
            key.duplicate(),
            n,
            chunk_range,
            page_number,
        );
        assert(rec@ == rec_v);
        let prior_record = self.put_record(rec);
        self.pages.append_chunks(bytes, vec![start, end]);
        let ghost s1 = self@;
        proof {
            let t = s1.index;
            lemma_index_map_entries(s0.index);
            lemma_index_map_entries(t);
            assert(s1.data.len() == s1.alloc.current_size);
            assert forall|i: int| 0 <= i < t.len() implies {
                let r = #[trigger] t[i];
                &&& value_wf(r.key)
                &&& r.size >= 1
                &&& r.start >= 0
                &&& r.end == r.start + r.size - 1
                &&& 1 <= r.page <= s1.alloc.page_number
                &&& r.page == s1.page_number ==> r.end < s1.data.len()
                &&& r.key != rec_v.key ==> (r.page == s1.page_number ==> r.end < rec_v.start)
                &&& r.key != rec_v.key ==> r == s0.index[find_key(s0.index, r.key)]
                &&& r.key == rec_v.key ==> r == rec_v
            } by {
                let k = t[i].key;
                assert(index_map(t).contains_key(k));
                if k != rec_v.key {
                    let j = find_key(s0.index, k);
                    assert(s0.index[j] == t[i]);
                }
            }
            assert(records_wf(s1));
            assert forall|a: int, b: int|
                0 <= a < t.len() && 0 <= b < t.len() && a != b && t[a].page == s1.page_number
                    && t[b].page == s1.page_number implies t[a].end < t[b].start || t[b].end
                < t[a].start by {
                if t[a].key != rec_v.key && t[b].key != rec_v.key {
                    assert(index_map(t).contains_key(t[a].key));
                    assert(index_map(t).contains_key(t[b].key));
                    assert(index_map(s0.index).contains_key(t[a].key));
                    assert(index_map(s0.index).contains_key(t[b].key));
                    let ja = find_key(s0.index, t[a].key);
                    let jb = find_key(s0.index, t[b].key);
                    if ja == jb {
                        lemma_find_key_sorted(t, a);
                        lemma_find_key_sorted(t, b);
                    } else {
                        assert(s0.index[ja] == t[a]);
                        assert(s0.index[jb] == t[b]);
                        assert(s0.index[ja].page <= s0.alloc.page_number);
                        assert(s0.page_number == s1.page_number);
                        assert(s0.index[ja].end < s0.index[jb].start || s0.index[jb].end
                            < s0.index[ja].start);
                    }
                } else if t[a].key == rec_v.key && t[b].key == rec_v.key {
                    lemma_find_key_sorted(t, a);
                    lemma_find_key_sorted(t, b);
                } else if t[a].key == rec_v.key {
                    assert(t[a] == rec_v);
                    assert(t[b].end < rec_v.start);
                } else {
                    assert(t[b] == rec_v);
                    assert(t[a].end < rec_v.start);
                }
            }
        }
        let pending = PendingWrite {
            key,
            page: self.pages.duplicate(),
            start,
            end,
            row_size: n,
            prior_page,
            prior_alloc,
            prior_record,
            prior: Ghost(s0),
        };
        assert(index_map(s1.index).remove(rec_v.key) =~= index_map(s0.index).remove(rec_v.key));
        Ok(pending)
    }

    /// Ends a write once its page was persisted or not: where it was, the
    /// write stands; where it was not, the state from before the write comes
    /// back (page, allocator and index) and the write fails.
    pub fn finish_write(&mut self, pending: PendingWrite, persisted: bool) -> (r: Result<
        (),
        InternalStorageError,
    >)
        requires
            old(self).wf(),
            pending.undoes_to(old(self)@),
        ensures
            final(self).wf(),
            persisted ==> r is Ok && final(self)@ == old(self)@,
            !persisted ==> (r matches Err(InternalStorageError::ErrWriteToDisk(_))) && rolled_back(
                pending@,
                final(self)@,
            ),
    {
        if persisted {
            return Ok(());
        }
        let ghost prior = pending.prior@;
        let ghost key_v = pending.key@;
        let PendingWrite { key, prior_page, prior_alloc, prior_record, .. } = pending;
        proof {
            lemma_index_map_entries(prior.index);
        }
        let _ = self.remove_record(&key);
        assert(index_map(self@.index) == index_map(prior.index).remove(key_v));
        match prior_record {
            Some(rec) => {
                assert(rec@.key == key_v);
                let _ = self.put_record(rec);
                assert(index_map(prior.index).remove(key_v).insert(key_v, rec@) =~= index_map(
                    prior.index,
                ));
            },
            None => {
                assert(index_map(prior.index).remove(key_v) =~= index_map(prior.index));
            },
        }
        self.pages = prior_page;
        self.page_metadata = prior_alloc;
        proof {
            assert(index_map(self@.index) =~= index_map(prior.index));
            lemma_sorted_same_map(self@.index, prior.index);
            assert(self@ == prior);
        }
        Err(InternalStorageError::ErrWriteToDisk("error writing to disk".to_owned()))
    }

    /// Reads the row stored under `prim_key_value` from `page`, which should
    /// be the page the index names for it, as loaded from disk.
    pub fn read(&self, prim_key_value: &Value, page: &Page) -> (r: Result<StoredRow, InternalStorageError>)
        requires
            self.wf(),
            prim_key_value.wf(),
        ensures
            match r {
                Ok(row) => read_spec(self@, prim_key_value@, page.page_number as int, page.data@)
                    == Ok::<RowView, ReadFailure>(row@) && row_wf(row@),
                Err(InternalStorageError::ErrInternal(_)) => read_spec(
                    self@,
                    prim_key_value@,
                    page.page_number as int,
                    page.data@,
                ) == Err::<RowView, ReadFailure>(ReadFailure::NotFound),
                Err(InternalStorageError::ErrReadFromDisk(_)) => read_spec(
                    self@,
                    prim_key_value@,
                    page.page_number as int,
                    page.data@,
                ) == Err::<RowView, ReadFailure>(ReadFailure::DiskRead),
                Err(InternalStorageError::SerializerError(RowSerializerError::ErrRowDeserialize(_))) => read_spec(
                    self@,
                    prim_key_value@,
                    page.page_number as int,
                    page.data@,
                ) == Err::<RowView, ReadFailure>(ReadFailure::Decode),
                Err(_) => false,
            },
    {
        proof {
            lemma_index_map_entries(self@.index);
        }
        match self.index_position(prim_key_value) {
            Ok(i) => {
                proof {
                    lemma_find_key_sorted(self@.index, i as int);
                    assert(self@.index[i as int] == self.rows@[i as int]@);
                    assert(self.rows@[i as int].wf());
                }
                read_record(&self.rows[i], page)
            },
            Err(_) => {
                proof {
                    lemma_not_in_map(self@.index, prim_key_value@);
                }
                Err(InternalStorageError::ErrInternal("row metadata not found".to_owned()))
            },
        }
    }

    /// Every row of the index that can be read from `pages`, in key order;
    /// rows that cannot be read are skipped.
    pub fn read_all(&self, pages: &Vec<Page>) -> (r: Vec<StoredRow>)
        requires
            self.wf(),
        ensures
            rows_view(r@) == read_all_spec(self@.index, pages_view(pages@)),
    {
        let ghost ps = pages_view(pages@);
        let mut out: Vec<StoredRow> = Vec::new();
        let n = self.rows.len();
        let mut i: usize = 0;
        assert(self@.index.subrange(0, 0) =~= Seq::<RecordView>::empty());
        assert(rows_view(out@) =~= Seq::<RowView>::empty());
        while i < n
            invariant
                n == self.rows@.len(),
                0 <= i <= n,
                self.wf(),
                ps == pages_view(pages@),
                rows_view(out@) == read_all_spec(self@.index.subrange(0, i as int), ps),
            decreases n - i,
        {
            let rec = &self.rows[i];
            proof {
                let pre = self@.index.subrange(0, i + 1);
                assert(pre.drop_last() =~= self@.index.subrange(0, i as int));
                assert(pre.last() == rec@);
                assert(rec.wf());
            }
            match find_page(pages, rec.page_number) {
                Some(j) => {
                    match read_record(rec, &pages[j]) {
                        Ok(row) => {
                            let ghost before = out@;
                            out.push(row);
                            assert(rows_view(out@) =~= rows_view(before).push(row@));
                        },
                        Err(_) => {},
                    }
                },
                None => {},
            }
            i = i + 1;
        }
        assert(self@.index.subrange(0, n as int) =~= self@.index);
        out
    }

    /// The rows that satisfy the condition, or every row where there is
    /// none; the literal is read as a value first.
    pub fn read_when(&self, conditions: Option<Condition>, pages: &Vec<Page>) -> (r: Vec<StoredRow>)
        requires
            self.wf(),
        ensures
            match conditions {
                Some(c) => rows_view(r@) == filter_spec(
                    read_all_spec(self@.index, pages_view(pages@)),
                    c.first@,
                    c.token@,
                    crate::value::value_of(c.second@),
                ),
                None => rows_view(r@) == read_all_spec(self@.index, pages_view(pages@)),
            },
    {
        let rows = self.read_all(pages);
        match conditions {
            Some(condition) => {
                let literal = Value::value(condition.second);
                filter_rows(&rows, &condition.first, &condition.token, &literal)
            },
            None => rows,
        }
    }


    /// Deletes the row of `key`; returns whether the page being filled
    /// changed.
    fn delete_key(&mut self, key: &Value) -> (touched: bool)
        requires
            old(self).wf(),
            key.wf(),
        ensures
            final(self).wf(),
            final(self)@ == delete_one(old(self)@, key@),
            !touched ==> final(self)@.data == old(self)@.data,
    {
        let ghost s0 = old(self)@;
        proof {
            lemma_delete_one_wf(s0, key@);
            lemma_index_map_entries(s0.index);
        }
        match self.remove_record(key) {
            None => {
                assert(self@ =~= delete_one(s0, key@));
                false
            },
            Some(gone) => {
                let ghost pos = choose|i: int|
                    0 <= i < s0.index.len() && self@.index == s0.index.remove(i) && s0.index[i]
                        == gone@;
                proof {
                    lemma_find_key_sorted(s0.index, pos);
                }
                if gone.page_number == self.pages.page_number {
                    let _ = self.pages.delete_chunks(gone.range[0], gone.range[1]);
                    let ghost rest = self@.index;
                    let mut new_rows: Vec<RowMetaData> = Vec::new();
                    let n = self.rows.len();
                    let mut i: usize = 0;
                    while i < n
                        invariant
                            n == self.rows@.len(),
                            0 <= i <= n,
                            rest == index_view(self.rows@),
                            rest == s0.index.remove(pos),
                            0 <= pos < s0.index.len(),
                            s0.index[pos] == gone@,
                            gone@.page == s0.page_number,
                            storage_wf(s0),
                            gone.wf(),
                            forall|j: int| 0 <= j < n ==> (#[trigger] self.rows@[j]).wf(),
                            index_view(new_rows@) =~= rest.subrange(0, i as int).map_values(
                                |r: RecordView| shift_record(r, gone@),
                            ),
                            forall|j: int| 0 <= j < new_rows@.len() ==> (#[trigger] new_rows@[j]).wf(),
                        decreases n - i,
                    {
                        proof {
                            assert(rest.len() == n);
                            assert(s0.index.len() == n + 1);
                            let j = if i < pos {
                                i as int
                            } else {
                                i + 1
                            };
                            assert(rest[i as int] == s0.index[j]);
                            assert(self.rows@[i as int]@ == rest[i as int]);
                            if rest[i as int].page == gone@.page && rest[i as int].start > gone@.start {
                                assert(j != pos);
                                assert(s0.index[j].page == s0.page_number);
                                lemma_disjoint_at(s0, j, pos);
                                assert(s0.index[j].end < s0.index[pos].start || s0.index[pos].end
                                    < s0.index[j].start);
                            }
                        }
                        let c = shifted_copy(&self.rows[i], &gone);
                        let ghost before = new_rows@;
                        new_rows.push(c);
                        proof {
                            assert(index_view(new_rows@) =~= index_view(before).push(c@));
                            assert(rest.subrange(0, i + 1) =~= rest.subrange(0, i as int).push(
                                rest[i as int],
                            ));
                            assert(rest.subrange(0, i + 1).map_values(
                                |r: RecordView| shift_record(r, gone@),
                            ) =~= rest.subrange(0, i as int).map_values(
                                |r: RecordView| shift_record(r, gone@),
                            ).push(shift_record(rest[i as int], gone@)));
                        }
                        i = i + 1;
                    }
                    self.rows = new_rows;
                    self.page_metadata.current_size = self.pages.data.len();
                    assert(self@.index =~= rest.map_values(|r: RecordView| shift_record(r, gone@)));
                    assert(self@ =~= delete_one(s0, key@));
                    true
                } else {
                    assert(self@ =~= delete_one(s0, key@));
                    false
                }
            },
        }
    }

    /// Deletes rows. With a condition, the rows read from `pages` that
    /// satisfy it are deleted by their primary key, and the page being
    /// filled is compacted. Without one, every row is deleted and every page
    /// this storage wrote is named for removal.
    pub fn delete(&mut self, conditions: Option<Condition>, pages: &Vec<Page>) -> (r: DeleteOutcome)
        requires
            old(self).wf(),
        ensures
            final(self).wf(),
            match conditions {
                Some(c) => final(self)@ == delete_where(
                    old(self)@,
                    pages_view(pages@),
                    c.first@,
                    c.token@,
                    crate::value::value_of(c.second@),
                ) && match r {
                    DeleteOutcome::Compacted(Some(p)) => p.page_number == final(self)@.page_number
                        && p.data@ == final(self)@.data,
                    DeleteOutcome::Compacted(None) => final(self)@.data == old(self)@.data,
                    DeleteOutcome::Cleared(_) => false,
                },
                None => final(self)@ == cleared(old(self)@) && match r {
                    DeleteOutcome::Cleared(ns) => ns@ == page_numbers(
                        old(self)@.alloc.page_number as int,
                    ),
                    DeleteOutcome::Compacted(_) => false,
                },
            },
    {
        let ghost s0 = old(self)@;
        match conditions {
            Some(condition) => {
                let matched = self.read_when(Some(condition), pages);
                let ghost rows = rows_view(matched@);
                let mut touched = false;
                let n = matched.len();
                let mut i: usize = 0;
                assert(rows.subrange(0, 0) =~= Seq::<RowView>::empty());
                while i < n
                    invariant
                        n == matched@.len(),
                        0 <= i <= n,
                        rows == rows_view(matched@),
                        self.wf(),
                        same_table(s0, self@),
                        self@ == delete_keys(
                            s0,
                            matched_keys(rows.subrange(0, i as int), s0.key_column),
                        ),
                        !touched ==> self@.data == s0.data,
                    decreases n - i,
                {
                    let ghost before = self@;
                    let ghost ks_prev = matched_keys(rows.subrange(0, i as int), s0.key_column);
                    let ghost pre = rows.subrange(0, i + 1);
                    proof {
                        assert(pre.drop_last() =~= rows.subrange(0, i as int));
                        assert(pre.last() == matched@[i as int]@);
                    }
                    match matched[i].get(&self.table_metadata.primary_key) {
                        Some(k) => {
                            if k.is_wf() {
                                let t = self.delete_key(k);
                                touched = touched || t;
                                proof {
                                    lemma_delete_one_wf(before, k@);
                                    assert(matched_keys(pre, s0.key_column) == ks_prev.push(k@));
                                    assert(ks_prev.push(k@).drop_last() =~= ks_prev);
                                }
                            } else {
                                assert(matched_keys(pre, s0.key_column) == ks_prev);
                            }
                        },
                        None => {
                            assert(matched_keys(pre, s0.key_column) == ks_prev);
                        },
                    }
                    i = i + 1;
                }
                assert(rows.subrange(0, n as int) =~= rows);
                if touched {
                    DeleteOutcome::Compacted(Some(self.pages.duplicate()))
                } else {
                    DeleteOutcome::Compacted(None)
                }
            },
            None => {
                let mut ns: Vec<usize> = Vec::new();
                let last = self.page_metadata.page_number;
                let mut p: usize = 0;
                assert(ns@ =~= page_numbers(0));
                while p < last
                    invariant
                        0 <= p <= last,
                        last == s0.alloc.page_number,
                        ns@ =~= page_numbers(p as int),
                    decreases last - p,
                {
                    ns.push(p + 1);
                    p = p + 1;
                    assert(ns@ =~= page_numbers(p as int));
                }
                self.pages = Page::new(1, Vec::new());
                self.page_metadata = PageData::default(1);
                self.rows = Vec::new();
                assert(self@.index =~= Seq::<RecordView>::empty());
                assert(self@.data =~= Seq::<u8>::empty());
                assert(self@ =~= cleared(s0));
                DeleteOutcome::Cleared(ns)
            },
        }
    }


    /// The page that holds the row of `key`, where the index has one.
    pub fn page_of(&self, key: &Value) -> (r: Option<usize>)
        requires
            self.wf(),
            key.wf(),
        ensures
            match r {
                Some(n) => index_map(self@.index).contains_key(key@) && index_map(
                    self@.index,
                )[key@].page == n,
                None => !index_map(self@.index).contains_key(key@),
            },
    {
        proof {
            lemma_index_map_entries(self@.index);
        }
        match self.index_position(key) {
            Ok(i) => {
                proof {
                    lemma_find_key_sorted(self@.index, i as int);
                    assert(self@.index[i as int] == self.rows@[i as int]@);
                }
                Some(self.rows[i].page_number)
            },
            Err(_) => {
                proof {
                    lemma_not_in_map(self@.index, key@);
                }
                None
            },
        }
    }


    /// Checks the storage's invariant, for a storage built from outside (a
    /// snapshot): a `true` answer means it holds.
    pub fn check_wf(&self) -> (r: bool)
        ensures
            r ==> self.wf(),
    {
        let active = self.pages.page_number;
        let len = self.pages.data.len();
        if active != self.page_metadata.page_number || active < 1 || len
            != self.page_metadata.current_size {
            return false;
        }
        let ghost s = self@;
        let n = self.rows.len();
        let mut i: usize = 0;
        while i < n
            invariant
                n == self.rows@.len(),
                0 <= i <= n,
                s == self@,
                active == s.page_number,
                len == s.data.len(),
                forall|j: int| 0 <= j < i ==> (#[trigger] self.rows@[j]).wf(),
                forall|j: int| 0 <= j < i ==> crate::storage::records_wf_at(s, j),
                forall|a: int, b: int| 0 <= a < b < i ==> value_lt(s.index[a].key, s.index[b].key),
            decreases n - i,
        {
            let r = &self.rows[i];
            assert(s.index[i as int] == r@);
            if r.range.len() != 2 || !r.primary_key.is_wf() || r.row_size < 1 {
                return false;
            }
            if r.range[0] as u128 + r.row_size as u128 - 1 != r.range[1] as u128 {
                return false;
            }
            if r.page_number < 1 || r.page_number > self.page_metadata.page_number {
                return false;
            }
            if r.page_number == active && r.range[1] >= len {
                return false;
            }
            if i > 0 {
                let p = &self.rows[i - 1];
                assert(s.index[i - 1] == p@);
                assert(p.wf());
                if !p.primary_key.less_than(&r.primary_key) {
                    return false;
                }
                proof {
                    assert forall|a: int, b: int| 0 <= a < b < i + 1 implies value_lt(
                        s.index[a].key,
                        s.index[b].key,
                    ) by {
                        if b == i && a < i - 1 {
                            lemma_value_transitive(s.index[a].key, s.index[i - 1].key, s.index[b].key);
                        }
                    }
                }
            }
            i = i + 1;
        }
        assert(records_wf(s)) by {
            assert forall|j: int| 0 <= j < s.index.len() implies {
                let r = #[trigger] s.index[j];
                &&& value_wf(r.key)
                &&& r.size >= 1
                &&& r.start >= 0
                &&& r.end == r.start + r.size - 1
                &&& 1 <= r.page <= s.alloc.page_number
                &&& r.page == s.page_number ==> r.end < s.data.len()
            } by {
                assert(records_wf_at(s, j));
            }
        }
        let mut a: usize = 0;
        while a < n
            invariant
                n == self.rows@.len(),
                0 <= a <= n,
                s == self@,
                active == s.page_number,
                forall|j: int| 0 <= j < n ==> (#[trigger] self.rows@[j]).wf(),
                forall|x: int, y: int|
                    0 <= x < a && 0 <= y < n && x != y && s.index[x].page == s.page_number
                        && s.index[y].page == s.page_number ==> s.index[x].end < s.index[y].start
                        || s.index[y].end < s.index[x].start,
            decreases n - a,
        {
            let mut b: usize = 0;
            while b < n
                invariant
                    n == self.rows@.len(),
                    0 <= a < n,
                    0 <= b <= n,
                    s == self@,
                    active == s.page_number,
                    forall|j: int| 0 <= j < n ==> (#[trigger] self.rows@[j]).wf(),
                    forall|x: int, y: int|
                        0 <= x < a && 0 <= y < n && x != y && s.index[x].page == s.page_number
                            && s.index[y].page == s.page_number ==> s.index[x].end
                            < s.index[y].start || s.index[y].end < s.index[x].start,
                    forall|y: int|
                        0 <= y < b && a != y && s.index[a as int].page == s.page_number
                            && s.index[y].page == s.page_number ==> s.index[a as int].end
                            < s.index[y].start || s.index[y].end < s.index[a as int].start,
                decreases n - b,
            {
                let ra = &self.rows[a];
                let rb = &self.rows[b];
                assert(s.index[a as int] == ra@);
                assert(s.index[b as int] == rb@);
                assert(ra.wf() && rb.wf());
                if a != b && ra.page_number == active && rb.page_number == active {
                    if !(ra.range[1] < rb.range[0] || rb.range[1] < ra.range[0]) {
                        return false;
                    }
                }
                b = b + 1;
            }
            a = a + 1;
        }
        assert(active_disjoint(s));
        true
    }

}

impl PageData {
    pub open spec fn default_spec() -> PageData {
        PageData { page_number: 1, current_size: 0, max_size: crate::page::PAGE_SIZE }
    }
}

} // verus!
