//! What holds across calls of the storage operations.
use vstd::prelude::*;

use crate::codec::{encodable, encode_row, law_round_trip};
use crate::row::{lookup, row_wf, RowView};
use crate::page::remove_range;
use crate::storage::{
    cleared, delete_keys, delete_one, page_bytes, record_row, shift_record, delete_where, filter_spec, find_key, index_map,
    lemma_delete_one_wf, lemma_find_key, lemma_index_map_entries, matched_keys, page_numbers,
    read_all_spec, read_entry, read_spec, rolled_back, row_matches, storage_wf, written,
    PendingView, ReadFailure, StorageView,
};
use crate::table::{is_full, placed_start, RecordView};
use crate::value::{value_wf, ValueView};

verus! {

/// After a write whose page reached the disk, reading the row's key back from
/// that page (as stored, or as a longer buffer that starts with it) gives the
/// row that was written.
pub proof fn law_write_then_read(
    s: StorageView,
    row: RowView,
    t: StorageView,
    p: PendingView,
    bytes: Seq<u8>,
)
    requires
        storage_wf(s),
        written(s, row, t, p),
        p.data.len() <= bytes.len(),
        bytes.subrange(0, p.data.len() as int) == p.data,
    ensures
        read_spec(t, lookup(row, s.key_column).unwrap(), p.page_number, bytes) == Ok::<
            RowView,
            ReadFailure,
        >(row),
{
    let b = encode_row(row);
    let n = b.len() as int;
    let start = placed_start(s.alloc, n);
    let k = lookup(row, s.key_column).unwrap();
    assert(index_map(t.index).contains_key(k));
    let rec = index_map(t.index)[k];
    assert(rec.start == start && rec.end == start + n - 1);
    let prefix = if is_full(s.alloc, n) {
        Seq::<u8>::empty()
    } else {
        s.data
    };
    assert(prefix.len() == start);
    assert(t.data == prefix + b);
    assert(bytes.subrange(start, start + n) =~= b) by {
        assert forall|i: int| 0 <= i < n implies bytes.subrange(start, start + n)[i] == b[i] by {
            assert(bytes[start + i] == bytes.subrange(0, p.data.len() as int)[start + i]);
            assert(t.data[start + i] == b[i]);
        }
    }
    law_round_trip(row);
}

/// Two writes under one key leave one index entry for it, holding the
/// second row's size; the second write adds no key (last write wins, no
/// duplicate-key error), and reading the key gives the second row.
pub proof fn law_overwrite(
    s0: StorageView,
    r1: RowView,
    s1: StorageView,
    p1: PendingView,
    r2: RowView,
    s2: StorageView,
    p2: PendingView,
    bytes: Seq<u8>,
)
    requires
        storage_wf(s0),
        storage_wf(s1),
        storage_wf(s2),
        lookup(r2, s0.key_column) == lookup(r1, s0.key_column),
        written(s0, r1, s1, p1),
        written(s1, r2, s2, p2),
        p2.data.len() <= bytes.len(),
        bytes.subrange(0, p2.data.len() as int) == p2.data,
    ensures
        ({
            let k = lookup(r1, s0.key_column).unwrap();
            &&& exists|i: int| 0 <= i < s2.index.len() && s2.index[i].key == k
            &&& forall|i: int, j: int|
                0 <= i < s2.index.len() && 0 <= j < s2.index.len() && s2.index[i].key == k
                    && s2.index[j].key == k ==> i == j
            &&& read_spec(s2, k, p2.page_number, bytes) == Ok::<RowView, ReadFailure>(r2)
            &&& index_map(s2.index).dom() == index_map(s1.index).dom()
            &&& index_map(s2.index)[k].size == encode_row(r2).len()
        }),
{
    let k = lookup(r1, s0.key_column).unwrap();
    assert(index_map(s1.index).contains_key(k));
    assert(index_map(s2.index).dom() =~= index_map(s1.index).dom());
    law_write_then_read(s1, r2, s2, p2, bytes);
    assert(index_map(s2.index).contains_key(k));
    lemma_find_key(s2.index, k);
    assert(s2.index[find_key(s2.index, k)].key == k);
    assert forall|i: int, j: int|
        0 <= i < s2.index.len() && 0 <= j < s2.index.len() && s2.index[i].key == k
            && s2.index[j].key == k implies i == j by {
        if i < j {
            crate::value::lemma_value_irreflexive(k);
        } else if j < i {
            crate::value::lemma_value_irreflexive(k);
        }
    }
}

/// Deleting keys one by one keeps the storage well formed and takes exactly
/// those keys out of the index.
pub proof fn lemma_delete_keys(s: StorageView, ks: Seq<ValueView>)
    requires
        storage_wf(s),
    ensures
        storage_wf(delete_keys(s, ks)),
        index_map(delete_keys(s, ks).index).dom() == index_map(s.index).dom().difference(
            ks.to_set(),
        ),
    decreases ks.len(),
{
    if ks.len() == 0 {
        assert(index_map(s.index).dom().difference(ks.to_set()) =~= index_map(s.index).dom());
    } else {
        let prev = delete_keys(s, ks.drop_last());
        lemma_delete_keys(s, ks.drop_last());
        lemma_delete_one_wf(prev, ks.last());
        assert(ks.to_set() =~= ks.drop_last().to_set().insert(ks.last())) by {
            assert forall|x: ValueView| ks.to_set().contains(x) <==> ks.drop_last().to_set().insert(
                ks.last(),
            ).contains(x) by {
                if ks.to_set().contains(x) {
                    let i = choose|i: int| 0 <= i < ks.len() && ks[i] == x;
                    if i < ks.len() - 1 {
                        assert(ks.drop_last()[i] == x);
                    }
                }
                if ks.drop_last().to_set().contains(x) {
                    let i = choose|i: int| 0 <= i < ks.drop_last().len() && ks.drop_last()[i] == x;
                    assert(ks[i] == x);
                }
            }
        }
        assert(index_map(delete_keys(s, ks).index).dom() =~= index_map(s.index).dom().difference(
            ks.to_set(),
        ));
    }
}

proof fn lemma_read_all_contains(index: Seq<crate::table::RecordView>, ps: Seq<(int, Seq<u8>)>, j: int)
    requires
        0 <= j < index.len(),
        read_entry(index[j], ps) is Some,
    ensures
        read_all_spec(index, ps).contains(read_entry(index[j], ps).unwrap()),
    decreases index.len(),
{
    let out = read_all_spec(index, ps);
    let prev = read_all_spec(index.drop_last(), ps);
    if j == index.len() - 1 {
        assert(out.last() == read_entry(index[j], ps).unwrap());
        assert(out[out.len() - 1] == read_entry(index[j], ps).unwrap());
    } else {
        assert(index.drop_last()[j] == index[j]);
        lemma_read_all_contains(index.drop_last(), ps, j);
        let i = choose|i: int| 0 <= i < prev.len() && prev[i] == read_entry(index[j], ps).unwrap();
        assert(out[i] == prev[i]);
    }
}

proof fn lemma_filter_contains(
    rows: Seq<RowView>,
    column: Seq<char>,
    token: Seq<char>,
    literal: ValueView,
    r: RowView,
)
    requires
        rows.contains(r),
        row_matches(r, column, token, literal),
    ensures
        filter_spec(rows, column, token, literal).contains(r),
    decreases rows.len(),
{
    let out = filter_spec(rows, column, token, literal);
    if rows.last() == r {
        assert(out[out.len() - 1] == r);
    } else {
        let i = choose|i: int| 0 <= i < rows.len() && rows[i] == r;
        assert(rows.drop_last()[i] == r);
        lemma_filter_contains(rows.drop_last(), column, token, literal, r);
        let prev = filter_spec(rows.drop_last(), column, token, literal);
        let k = choose|k: int| 0 <= k < prev.len() && prev[k] == r;
        assert(out[k] == r);
    }
}

proof fn lemma_matched_keys_contains(rows: Seq<RowView>, key_column: Seq<char>, r: RowView, v: ValueView)
    requires
        rows.contains(r),
        lookup(r, key_column) == Some(v),
        value_wf(v),
    ensures
        matched_keys(rows, key_column).contains(v),
    decreases rows.len(),
{
    let out = matched_keys(rows, key_column);
    if rows.last() == r {
        assert(out[out.len() - 1] == v);
    } else {
        let i = choose|i: int| 0 <= i < rows.len() && rows[i] == r;
        assert(rows.drop_last()[i] == r);
        lemma_matched_keys_contains(rows.drop_last(), key_column, r, v);
        let prev = matched_keys(rows.drop_last(), key_column);
        let k = choose|k: int| 0 <= k < prev.len() && prev[k] == v;
        assert(out[k] == v);
    }
}

/// Deleting with the condition `key = v`, where the row stored under `v`
/// can be read from the given pages and holds `v` as its key, leaves `v`
/// out of the index: reading it finds nothing, on any page.
pub proof fn law_delete_removes(
    s: StorageView,
    ps: Seq<(int, Seq<u8>)>,
    v: ValueView,
    n: int,
    b: Seq<u8>,
)
    requires
        storage_wf(s),
        index_map(s.index).contains_key(v),
        read_entry(index_map(s.index)[v], ps) is Some,
        lookup(read_entry(index_map(s.index)[v], ps).unwrap(), s.key_column) == Some(v),
    ensures
        !index_map(delete_where(s, ps, s.key_column, seq!['='], v).index).contains_key(v),
        read_spec(delete_where(s, ps, s.key_column, seq!['='], v), v, n, b) == Err::<
            RowView,
            ReadFailure,
        >(ReadFailure::NotFound),
{
    let j = find_key(s.index, v);
    lemma_index_map_entries(s.index);
    let row = read_entry(index_map(s.index)[v], ps).unwrap();
    assert(s.index[j] == index_map(s.index)[v]);
    lemma_read_all_contains(s.index, ps, j);
    let all = read_all_spec(s.index, ps);
    assert(row_matches(row, s.key_column, seq!['='], v));
    lemma_filter_contains(all, s.key_column, seq!['='], v, row);
    assert(value_wf(v)) by {
        assert(value_wf(s.index[j].key));
    }
    lemma_matched_keys_contains(filter_spec(all, s.key_column, seq!['='], v), s.key_column, row, v);
    let ks = matched_keys(filter_spec(all, s.key_column, seq!['='], v), s.key_column);
    lemma_delete_keys(s, ks);
    assert(ks.to_set().contains(v));
}

/// After deleting everything no row can be read, whatever the pages hold,
/// and the pages named for removal include the page being filled and every
/// page that held a row.
pub proof fn law_delete_all(s: StorageView, ps: Seq<(int, Seq<u8>)>)
    requires
        storage_wf(s),
    ensures
        read_all_spec(cleared(s).index, ps) == Seq::<RowView>::empty(),
        page_numbers(s.alloc.page_number as int).contains(s.page_number as usize),
        forall|i: int|
            0 <= i < s.index.len() ==> page_numbers(s.alloc.page_number as int).contains(
                #[trigger] s.index[i].page as usize,
            ),
{
    let ns = page_numbers(s.alloc.page_number as int);
    assert(ns[s.page_number - 1] == s.page_number as usize);
    assert forall|i: int| 0 <= i < s.index.len() implies ns.contains(
        #[trigger] s.index[i].page as usize,
    ) by {
        assert(ns[s.index[i].page - 1] == s.index[i].page as usize);
    }
}

/// A write that does not fit in what is left of the page being filled goes
/// to the next page, at its start.
pub proof fn law_page_rollover(s: StorageView, row: RowView, t: StorageView, p: PendingView)
    requires
        storage_wf(s),
        written(s, row, t, p),
        is_full(s.alloc, encode_row(row).len() as int),
    ensures
        t.page_number == s.page_number + 1,
        p.page_number == s.page_number + 1,
        p.start == 0,
        t.data == encode_row(row),
{
    assert(Seq::<u8>::empty() + encode_row(row) =~= encode_row(row));
}

/// A write whose page could not be persisted, once undone, leaves the
/// storage exactly as it was before the write: its key is back to what the
/// index held for it (absent where it was new), and the page being filled,
/// its bytes and the allocator are those from before, also where the write
/// had moved to a new page. So a later write behaves as if the failed one
/// had never been made.
pub proof fn law_rollback(
    s0: StorageView,
    row: RowView,
    s1: StorageView,
    p: PendingView,
    s2: StorageView,
)
    requires
        storage_wf(s0),
        written(s0, row, s1, p),
        rolled_back(p, s2),
    ensures
        s2 == s0,
        !index_map(s0.index).contains_key(p.key) ==> !index_map(s2.index).contains_key(p.key),
        forall|row2: RowView, t: StorageView, p2: PendingView|
            written(s2, row2, t, p2) <==> written(s0, row2, t, p2),
{
}

/// Deleting a key leaves every other row where it can be read as before:
/// a row on another page keeps its record, and a row on the page being
/// filled finds, at its moved range in the compacted page, the bytes it had.
pub proof fn law_delete_keeps_other_rows(s: StorageView, k: ValueView, other: ValueView)
    requires
        storage_wf(s),
        index_map(s.index).contains_key(other),
        other != k,
    ensures
        ({
            let t = delete_one(s, k);
            let r = index_map(s.index)[other];
            &&& index_map(t.index).contains_key(other)
            &&& t.page_number == s.page_number
            &&& r.page != s.page_number ==> index_map(t.index)[other] == r
            &&& r.page == s.page_number ==> record_row(
                index_map(t.index)[other],
                s.page_number,
                t.data,
            ) == record_row(r, s.page_number, s.data)
        }),
{
    let t = delete_one(s, k);
    let r = index_map(s.index)[other];
    lemma_delete_one_wf(s, k);
    lemma_index_map_entries(s.index);
    if index_map(s.index).contains_key(k) {
        let pos = find_key(s.index, k);
        let gone = s.index[pos];
        let rest = s.index.remove(pos);
        let jr = find_key(s.index, other);
        assert(s.index[jr] == r);
        assert(jr != pos);
        let jt = if jr < pos {
            jr
        } else {
            jr - 1
        };
        assert(rest[jt] == r);
        lemma_index_map_entries(t.index);
        if gone.page == s.page_number {
            let idx = rest.map_values(|x: RecordView| shift_record(x, gone));
            assert(t.index == idx);
            assert(idx[jt] == shift_record(r, gone));
            crate::storage::lemma_find_key_sorted(t.index, jt);
            assert(index_map(t.index)[other] == shift_record(r, gone));
            if r.page == s.page_number {
                let r2 = shift_record(r, gone);
                crate::storage::lemma_disjoint_at(s, jr, pos);
                let d = s.data;
                let nd = remove_range(d, gone.start, gone.end);
                assert(nd == t.data);
                assert(nd =~= d.subrange(0, gone.start) + d.subrange(gone.end + 1, d.len() as int));
                assert(nd.subrange(r2.start, r2.end + 1) =~= d.subrange(r.start, r.end + 1));
            }
        } else {
            assert(t.index == rest);
            crate::storage::lemma_find_key_sorted(t.index, jt);
        }
    }
}

/// The row that key `k` reads as in state `u`, with the page being filled
/// taken from memory and the other pages from `ps`.
pub open spec fn read_in(u: StorageView, ps: Seq<(int, Seq<u8>)>, k: ValueView) -> Option<RowView> {
    read_entry(index_map(u.index)[k], ps.push((u.page_number, u.data)))
}

/// The pages give, for every record that can be read, a row whose primary
/// key is the record's key.
pub open spec fn pages_match_keys(s: StorageView, ps: Seq<(int, Seq<u8>)>) -> bool {
    forall|k: ValueView|
        #[trigger] index_map(s.index).contains_key(k) && read_entry(index_map(s.index)[k], ps) is Some
            ==> lookup(read_entry(index_map(s.index)[k], ps).unwrap(), s.key_column) == Some(k)
}

proof fn lemma_read_in_delete_one(u: StorageView, ps: Seq<(int, Seq<u8>)>, k: ValueView, k2: ValueView)
    requires
        storage_wf(u),
        index_map(delete_one(u, k).index).contains_key(k2),
    ensures
        index_map(u.index).contains_key(k2),
        read_in(delete_one(u, k), ps, k2) == read_in(u, ps, k2),
{
    lemma_delete_one_wf(u, k);
    assert(index_map(u.index).dom().remove(k).contains(k2));
    law_delete_keeps_other_rows(u, k, k2);
    let t = delete_one(u, k);
    let r = index_map(u.index)[k2];
    let r2 = index_map(t.index)[k2];
    let pu = ps.push((u.page_number, u.data));
    let pt = ps.push((t.page_number, t.data));
    assert(pu.drop_last() =~= ps);
    assert(pt.drop_last() =~= ps);
    if r.page != u.page_number {
        assert(r2 == r);
        assert(page_bytes(pu, r.page) == page_bytes(ps, r.page));
        assert(page_bytes(pt, r.page) == page_bytes(ps, r.page));
    } else {
        assert(r2.page == r.page) by {
            crate::storage::lemma_index_map_entries(u.index);
        }
        assert(page_bytes(pu, r.page) == Some(u.data));
        assert(page_bytes(pt, r2.page) == Some(t.data));
    }
}

proof fn lemma_read_in_delete_keys(s: StorageView, ps: Seq<(int, Seq<u8>)>, ks: Seq<ValueView>, k2: ValueView)
    requires
        storage_wf(s),
        index_map(delete_keys(s, ks).index).contains_key(k2),
    ensures
        index_map(s.index).contains_key(k2),
        read_in(delete_keys(s, ks), ps, k2) == read_in(s, ps, k2),
    decreases ks.len(),
{
    if ks.len() > 0 {
        let prev = delete_keys(s, ks.drop_last());
        lemma_delete_keys(s, ks.drop_last());
        lemma_read_in_delete_one(prev, ps, ks.last(), k2);
        lemma_read_in_delete_keys(s, ps, ks.drop_last(), k2);
    }
}

proof fn lemma_read_all_member(index: Seq<RecordView>, ps: Seq<(int, Seq<u8>)>, row: RowView)
    requires
        read_all_spec(index, ps).contains(row),
    ensures
        exists|j: int| 0 <= j < index.len() && read_entry(#[trigger] index[j], ps) == Some(row),
    decreases index.len(),
{
    let prev = read_all_spec(index.drop_last(), ps);
    let out = read_all_spec(index, ps);
    let i = choose|i: int| 0 <= i < out.len() && out[i] == row;
    if i < prev.len() {
        assert(prev[i] == row);
        lemma_read_all_member(index.drop_last(), ps, row);
        let j = choose|j: int| 0 <= j < index.drop_last().len() && read_entry(
            #[trigger] index.drop_last()[j],
            ps,
        ) == Some(row);
        assert(index[j] == index.drop_last()[j]);
    } else {
        assert(read_entry(index[index.len() - 1], ps) == Some(row));
    }
}

/// After deleting with the condition `key = v`, reading every row from the
/// same pages, with the page being filled replaced by the compacted one that
/// the delete hands back, gives no row whose primary key is `v`. This holds
/// where the pages hold, for each record, a row keyed by that record's key,
/// and the page being filled is on disk as in memory.
pub proof fn law_delete_hides_key_from_read_all(
    s: StorageView,
    ps: Seq<(int, Seq<u8>)>,
    v: ValueView,
    row: RowView,
)
    requires
        storage_wf(s),
        page_bytes(ps, s.page_number) == Some(s.data),
        pages_match_keys(s, ps),
        ({
            let t = delete_where(s, ps, s.key_column, seq!['='], v);
            read_all_spec(t.index, ps.push((t.page_number, t.data))).contains(row)
        }),
    ensures
        lookup(row, s.key_column) != Some(v),
{
    let all = read_all_spec(s.index, ps);
    let ks = matched_keys(filter_spec(all, s.key_column, seq!['='], v), s.key_column);
    let t = delete_keys(s, ks);
    lemma_delete_keys(s, ks);
    let pt = ps.push((t.page_number, t.data));
    lemma_read_all_member(t.index, pt, row);
    let j = choose|j: int| 0 <= j < t.index.len() && read_entry(#[trigger] t.index[j], pt) == Some(row);
    let k2 = t.index[j].key;
    lemma_index_map_entries(t.index);
    assert(index_map(t.index).contains_key(k2));
    assert(index_map(t.index)[k2] == t.index[j]);
    assert(read_in(t, ps, k2) == Some(row));
    lemma_read_in_delete_keys(s, ps, ks, k2);
    let r = index_map(s.index)[k2];
    let pu = ps.push((s.page_number, s.data));
    assert(pu.drop_last() =~= ps);
    assert(page_bytes(pu, r.page) == page_bytes(ps, r.page));
    assert(read_entry(r, ps) == Some(row));
    assert(lookup(row, s.key_column) == Some(k2));
    if k2 == v {
        lemma_index_map_entries(s.index);
        let js = find_key(s.index, v);
        assert(s.index[js] == r);
        lemma_read_all_contains(s.index, ps, js);
        assert(row_matches(row, s.key_column, seq!['='], v));
        lemma_filter_contains(all, s.key_column, seq!['='], v, row);
        assert(value_wf(v)) by {
            assert(value_wf(s.index[js].key));
        }
        lemma_matched_keys_contains(filter_spec(all, s.key_column, seq!['='], v), s.key_column, row, v);
        assert(ks.to_set().contains(v));
        assert(!index_map(t.index).contains_key(v));
    }
}

} // verus!
