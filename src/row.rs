use vstd::prelude::*;

use vstd::utf8::*;

use crate::value::{
    lemma_value_irreflexive, lemma_value_total, lemma_value_transitive, lex_less, lex_lt,
    text_equal, value_wf, Value, ValueView,
};

verus! {

/// A row as the contracts see it: its fields in order, each a column name and
/// a value.
pub type RowView = Seq<(Seq<char>, ValueView)>;

/// A row: a mapping from column name to value, held as its fields in the
/// order of their names.
#[derive(Debug)]
pub struct StoredRow {
    pub row: Vec<(String, Value)>,
}

pub open spec fn field_view(f: (String, Value)) -> (Seq<char>, ValueView) {
    (f.0@, f.1@)
}

impl View for StoredRow {
    type V = RowView;

    open spec fn view(&self) -> RowView {
        self.row@.map_values(|f: (String, Value)| field_view(f))
    }
}

/// Column names in the order of their UTF-8 bytes.
pub open spec fn name_lt(a: Seq<char>, b: Seq<char>) -> bool {
    lex_lt(encode_utf8(a), encode_utf8(b))
}

/// The fields' names strictly increase, so no name repeats.
pub open spec fn names_sorted(r: RowView) -> bool {
    forall|i: int, j: int| 0 <= i < j < r.len() ==> name_lt(r[i].0, r[j].0)
}

/// A valid row: its fields in the order of their names (which makes each
/// mapping from names to values have one row), and well-formed values.
pub open spec fn row_wf(r: RowView) -> bool {
    &&& names_sorted(r)
    &&& forall|i: int| 0 <= i < r.len() ==> value_wf(#[trigger] r[i].1)
}

/// Position of the field named `name`, searching from the end; -1 if none.
pub open spec fn field_index(r: RowView, name: Seq<char>) -> int
    decreases r.len(),
{
    if r.len() == 0 {
        -1
    } else if r.last().0 == name {
        r.len() - 1
    } else {
        field_index(r.drop_last(), name)
    }
}

/// The value of column `name` in a row.
pub open spec fn lookup(r: RowView, name: Seq<char>) -> Option<ValueView> {
    let i = field_index(r, name);
    if i >= 0 {
        Some(r[i].1)
    } else {
        None
    }
}

/// The row as a mapping from column name to value.
pub open spec fn row_map(r: RowView) -> Map<Seq<char>, ValueView> {
    Map::new(|k: Seq<char>| field_index(r, k) >= 0, |k: Seq<char>| r[field_index(r, k)].1)
}

/// The mapping that setting each field in turn builds; a later field wins.
pub open spec fn fields_map(fs: RowView) -> Map<Seq<char>, ValueView>
    decreases fs.len(),
{
    if fs.len() == 0 {
        Map::empty()
    } else {
        fields_map(fs.drop_last()).insert(fs.last().0, fs.last().1)
    }
}

proof fn lemma_name_irreflexive(a: Seq<char>)
    ensures
        !name_lt(a, a),
{
    lemma_value_irreflexive(ValueView::Text(a));
}

proof fn lemma_name_transitive(a: Seq<char>, b: Seq<char>, c: Seq<char>)
    requires
        name_lt(a, b),
        name_lt(b, c),
    ensures
        name_lt(a, c),
{
    lemma_value_transitive(ValueView::Text(a), ValueView::Text(b), ValueView::Text(c));
}

proof fn lemma_name_total(a: Seq<char>, b: Seq<char>)
    requires
        a != b,
    ensures
        name_lt(a, b) || name_lt(b, a),
{
    lemma_value_total(ValueView::Text(a), ValueView::Text(b));
}

pub proof fn lemma_field_index(r: RowView, name: Seq<char>)
    ensures
        -1 <= field_index(r, name) < r.len(),
        field_index(r, name) >= 0 ==> r[field_index(r, name)].0 == name,
        field_index(r, name) < 0 ==> forall|j: int| 0 <= j < r.len() ==> r[j].0 != name,
    decreases r.len(),
{
    if r.len() > 0 && r.last().0 != name {
        lemma_field_index(r.drop_last(), name);
        if field_index(r, name) < 0 {
            assert forall|j: int| 0 <= j < r.len() implies r[j].0 != name by {
                if j < r.len() - 1 {
                    assert(r[j] == r.drop_last()[j]);
                }
            }
        }
    }
}

proof fn lemma_field_index_sorted(r: RowView, i: int)
    requires
        names_sorted(r),
        0 <= i < r.len(),
    ensures
        field_index(r, r[i].0) == i,
{
    lemma_field_index(r, r[i].0);
    lemma_name_irreflexive(r[i].0);
}

/// Each field of a sorted row is what the mapping gives for its name, and
/// each name of the mapping has a field.
pub proof fn lemma_row_map_entries(r: RowView)
    requires
        names_sorted(r),
    ensures
        forall|j: int|
            0 <= j < r.len() ==> #[trigger] row_map(r).contains_key(r[j].0) && row_map(r)[r[j].0]
                == r[j].1,
        forall|k: Seq<char>|
            #[trigger] row_map(r).contains_key(k) ==> 0 <= field_index(r, k) < r.len() && r[field_index(
                r,
                k,
            )].0 == k,
{
    assert forall|j: int| 0 <= j < r.len() implies #[trigger] row_map(r).contains_key(r[j].0)
        && row_map(r)[r[j].0] == r[j].1 by {
        lemma_field_index_sorted(r, j);
    }
    assert forall|k: Seq<char>| #[trigger] row_map(r).contains_key(k) implies 0 <= field_index(r, k)
        < r.len() && r[field_index(r, k)].0 == k by {
        lemma_field_index(r, k);
    }
}

proof fn lemma_row_insert_at(r: RowView, p: int, name: Seq<char>, v: ValueView)
    requires
        names_sorted(r),
        0 <= p <= r.len(),
        forall|j: int| 0 <= j < p ==> name_lt(#[trigger] r[j].0, name),
        forall|j: int| p <= j < r.len() ==> name_lt(name, #[trigger] r[j].0),
    ensures
        names_sorted(r.insert(p, (name, v))),
        row_map(r.insert(p, (name, v))) == row_map(r).insert(name, v),
{
    let t = r.insert(p, (name, v));
    assert forall|i: int, j: int| 0 <= i < j < t.len() implies name_lt(t[i].0, t[j].0) by {
        if i < p && j > p {
            lemma_name_transitive(t[i].0, name, t[j].0);
        }
    }
    lemma_row_map_entries(r);
    lemma_row_map_entries(t);
    assert(t[p] == (name, v));
    assert(row_map(t).contains_key(t[p].0));
    assert forall|k: Seq<char>| row_map(r).insert(name, v).contains_key(k) implies #[trigger] row_map(
        t,
    ).contains_key(k) by {
        if k == name {
            assert(row_map(t).contains_key(t[p].0));
        } else {
            assert(row_map(r).contains_key(k));
            let j = field_index(r, k);
            if j < p {
                assert(t[j] == r[j]);
                assert(row_map(t).contains_key(t[j].0));
            } else {
                assert(t[j + 1] == r[j]);
                assert(row_map(t).contains_key(t[j + 1].0));
            }
        }
    }
    assert forall|k: Seq<char>| #[trigger] row_map(t).contains_key(k) implies row_map(r).insert(
        name,
        v,
    ).contains_key(k) by {
        let j = field_index(t, k);
        if j < p {
            assert(t[j] == r[j]);
            assert(row_map(r).contains_key(r[j].0));
        } else if j > p {
            assert(t[j] == r[j - 1]);
            assert(row_map(r).contains_key(r[j - 1].0));
        }
    }
    assert forall|k: Seq<char>| #[trigger] row_map(t).contains_key(k) implies row_map(t)[k]
        == row_map(r).insert(name, v)[k] by {
        let j = field_index(t, k);
        if j < p {
            assert(t[j] == r[j]);
            if k == name {
                lemma_name_irreflexive(name);
            }
        } else if j > p {
            assert(t[j] == r[j - 1]);
            if k == name {
                lemma_name_irreflexive(name);
            }
        }
    }
    assert(row_map(t) =~= row_map(r).insert(name, v));
}

proof fn lemma_row_update_at(r: RowView, i: int, v: ValueView)
    requires
        names_sorted(r),
        0 <= i < r.len(),
    ensures
        names_sorted(r.update(i, (r[i].0, v))),
        row_map(r.update(i, (r[i].0, v))) == row_map(r).insert(r[i].0, v),
{
    let name = r[i].0;
    let t = r.update(i, (name, v));
    lemma_row_map_entries(r);
    lemma_row_map_entries(t);
    assert forall|k: Seq<char>| #[trigger] row_map(t).contains_key(k) == row_map(r).insert(
        name,
        v,
    ).contains_key(k) by {
        assert(t[i].0 == name);
        assert(row_map(t).contains_key(t[i].0));
        if row_map(r).contains_key(k) {
            let j = field_index(r, k);
            assert(t[j].0 == r[j].0);
            assert(row_map(t).contains_key(t[j].0));
        }
        if row_map(t).contains_key(k) {
            let j = field_index(t, k);
            assert(t[j].0 == r[j].0);
            assert(row_map(r).contains_key(r[j].0));
        }
    }
    assert forall|k: Seq<char>| #[trigger] row_map(t).contains_key(k) implies row_map(t)[k]
        == row_map(r).insert(name, v)[k] by {
        let j = field_index(t, k);
        lemma_field_index_sorted(t, i);
        if j != i {
            assert(t[j] == r[j]);
            lemma_field_index_sorted(r, j);
        }
    }
    assert(row_map(t) =~= row_map(r).insert(name, v));
}

/// A valid row is fixed by its mapping: two valid rows with the same
/// mapping from names to values are the same row.
pub proof fn lemma_rows_same_map(a: RowView, b: RowView)
    requires
        row_wf(a),
        row_wf(b),
        row_map(a) == row_map(b),
    ensures
        a == b,
    decreases a.len(),
{
    lemma_row_map_entries(a);
    lemma_row_map_entries(b);
    if a.len() == 0 {
        if b.len() > 0 {
            assert(row_map(b).contains_key(b[0].0));
            lemma_field_index(a, b[0].0);
        }
        assert(a =~= b);
    } else if b.len() == 0 {
        assert(row_map(a).contains_key(a[0].0));
        lemma_field_index(b, a[0].0);
    } else {
        let la = a.len() - 1;
        let lb = b.len() - 1;
        let ka = a[la].0;
        let kb = b[lb].0;
        assert(row_map(a).contains_key(ka));
        assert(row_map(b).contains_key(kb));
        if ka != kb {
            let ja = field_index(a, kb);
            let jb = field_index(b, ka);
            assert(ja != la);
            assert(jb != lb);
            assert(name_lt(kb, ka));
            assert(name_lt(ka, kb));
            lemma_name_transitive(ka, kb, ka);
            lemma_name_irreflexive(ka);
        }
        assert(a[la] == b[lb]);
        let ia = a.drop_last();
        let ib = b.drop_last();
        assert(row_wf(ia)) by {
            assert forall|i: int| 0 <= i < ia.len() implies value_wf(#[trigger] ia[i].1) by {
                assert(ia[i] == a[i]);
            }
        }
        assert(row_wf(ib)) by {
            assert forall|i: int| 0 <= i < ib.len() implies value_wf(#[trigger] ib[i].1) by {
                assert(ib[i] == b[i]);
            }
        }
        lemma_row_map_entries(ia);
        lemma_row_map_entries(ib);
        assert forall|k: Seq<char>| #[trigger] row_map(ia).contains_key(k) == row_map(
            ib,
        ).contains_key(k) by {
            if row_map(ia).contains_key(k) {
                let j = field_index(ia, k);
                assert(ia[j] == a[j]);
                lemma_field_index_sorted(a, j);
                assert(name_lt(k, ka));
                assert(k != ka) by {
                    lemma_name_irreflexive(k);
                }
                assert(row_map(b).contains_key(k));
                let jb = field_index(b, k);
                assert(jb != lb);
                assert(ib[jb] == b[jb]);
            }
            if row_map(ib).contains_key(k) {
                let j = field_index(ib, k);
                assert(ib[j] == b[j]);
                lemma_field_index_sorted(b, j);
                assert(name_lt(k, kb));
                assert(k != kb) by {
                    lemma_name_irreflexive(k);
                }
                assert(row_map(a).contains_key(k));
                let ja = field_index(a, k);
                assert(ja != la);
                assert(ia[ja] == a[ja]);
            }
        }
        assert forall|k: Seq<char>| #[trigger] row_map(ia).contains_key(k) implies row_map(ia)[k]
            == row_map(ib)[k] by {
            assert(row_map(ib).contains_key(k));
            let j = field_index(ia, k);
            assert(ia[j] == a[j]);
            lemma_field_index_sorted(a, j);
            let j2 = field_index(ib, k);
            assert(ib[j2] == b[j2]);
            lemma_field_index_sorted(b, j2);
            assert(row_map(a)[k] == a[j].1);
            assert(row_map(b)[k] == b[j2].1);
        }
        assert(row_map(ia) =~= row_map(ib));
        lemma_rows_same_map(ia, ib);
        assert(a =~= ia.push(a[la]));
        assert(b =~= ib.push(b[lb]));
    }
}

/// Compares two column names in the order of their UTF-8 bytes.
pub fn name_less(a: &String, b: &String) -> (r: bool)
    ensures
        r == name_lt(a@, b@),
{
    lex_less(a.as_str().as_bytes(), b.as_str().as_bytes())
}

/// Whether the fields' names strictly increase.
pub fn names_in_order(fields: &Vec<(String, Value)>) -> (r: bool)
    ensures
        r == names_sorted(fields@.map_values(|f: (String, Value)| field_view(f))),
{
    let ghost fv = fields@.map_values(|f: (String, Value)| field_view(f));
    let n = fields.len();
    let mut i: usize = 1;
    if n == 0 {
        return true;
    }
    while i < n
        invariant
            n == fields@.len(),
            1 <= i <= n,
            fv == fields@.map_values(|f: (String, Value)| field_view(f)),
            forall|a: int, b: int| 0 <= a < b < i ==> name_lt(fv[a].0, fv[b].0),
        decreases n - i,
    {
        if !name_less(&fields[i - 1].0, &fields[i].0) {
            assert(!name_lt(fv[i - 1].0, fv[i as int].0));
            return false;
        }
        proof {
            assert forall|a: int, b: int| 0 <= a < b < i + 1 implies name_lt(fv[a].0, fv[b].0) by {
                if b == i && a < i - 1 {
                    lemma_name_transitive(fv[a].0, fv[i - 1].0, fv[b].0);
                }
            }
        }
        i = i + 1;
    }
    true
}

impl StoredRow {
    /// The row holding the given fields; where a name repeats, the later
    /// value wins.
    pub fn new(fields: Vec<(String, Value)>) -> (r: StoredRow)
        requires
            forall|i: int| 0 <= i < fields@.len() ==> (#[trigger] fields@[i]).1.wf(),
        ensures
            row_wf(r@),
            row_map(r@) == fields_map(fields@.map_values(|f: (String, Value)| field_view(f))),
    {
        let ghost fv = fields@.map_values(|f: (String, Value)| field_view(f));
        let mut r = StoredRow { row: Vec::new() };
        assert(r@ =~= Seq::<(Seq<char>, ValueView)>::empty());
        assert(row_map(r@) =~= Map::<Seq<char>, ValueView>::empty());
        assert(fv.subrange(0, 0) =~= Seq::<(Seq<char>, ValueView)>::empty());
        let mut i: usize = 0;
        while i < fields.len()
            invariant
                0 <= i <= fields@.len(),
                fv == fields@.map_values(|f: (String, Value)| field_view(f)),
                forall|k: int| 0 <= k < fields@.len() ==> (#[trigger] fields@[k]).1.wf(),
                row_map(r@) == fields_map(fv.subrange(0, i as int)),
                row_wf(r@),
            decreases fields@.len() - i,
        {
            let name = fields[i].0.clone();
            let value = fields[i].1.duplicate();
            proof {
                assert(fv.subrange(0, i + 1).drop_last() =~= fv.subrange(0, i as int));
                assert(fv[i as int] == field_view(fields@[i as int]));
            }
            r.insert(name, value);
            i = i + 1;
        }
        assert(fv.subrange(0, i as int) =~= fv);
        r
    }

    /// An exact copy.
    pub fn duplicate(&self) -> (r: StoredRow)
        ensures
            r@ == self@,
    {
        let mut out: Vec<(String, Value)> = Vec::new();
        let n = self.row.len();
        let mut i: usize = 0;
        while i < n
            invariant
                n == self.row@.len(),
                0 <= i <= n,
                out@.map_values(|f: (String, Value)| field_view(f)) =~= self@.subrange(0, i as int),
            decreases n - i,
        {
            let name = self.row[i].0.clone();
            let v = self.row[i].1.duplicate();
            assert(field_view((name, v)) == self@[i as int]);
            let ghost before = out@;
            out.push((name, v));
            assert(out@.map_values(|f: (String, Value)| field_view(f)) =~= before.map_values(
                |f: (String, Value)| field_view(f),
            ).push(self@[i as int]));
            assert(self@.subrange(0, i + 1) =~= self@.subrange(0, i as int).push(self@[i as int]));
            assert(out@.map_values(|f: (String, Value)| field_view(f)) =~= self@.subrange(0, i + 1));
            i = i + 1;
        }
        assert(self@.subrange(0, n as int) =~= self@);
        StoredRow { row: out }
    }

    /// Position of the field named `name`, or `None`.
    pub fn position(&self, name: &String) -> (r: Option<usize>)
        ensures
            match r {
                Some(i) => field_index(self@, name@) == i,
                None => field_index(self@, name@) == -1,
            },
    {
        let mut i: usize = self.row.len();
        assert(self@.subrange(0, i as int) =~= self@);
        while i > 0
            invariant
                0 <= i <= self.row@.len(),
                field_index(self@, name@) == field_index(self@.subrange(0, i as int), name@),
            decreases i,
        {
            proof {
                assert(self@.subrange(0, i as int).drop_last() =~= self@.subrange(0, i - 1));
            }
            if text_equal(&self.row[i - 1].0, name) {
                return Some(i - 1);
            }
            i = i - 1;
        }
        None
    }

    /// The value of column `name`.
    pub fn get(&self, name: &String) -> (r: Option<&Value>)
        ensures
            match r {
                Some(v) => lookup(self@, name@) == Some(v@),
                None => lookup(self@, name@) is None,
            },
    {
        proof {
            lemma_field_index(self@, name@);
        }
        match self.position(name) {
            Some(i) => Some(&self.row[i].1),
            None => None,
        }
    }

    /// Sets column `name` to `value`, keeping the fields in name order.
    pub fn insert(&mut self, name: String, value: Value)
        requires
            row_wf(old(self)@),
            value.wf(),
        ensures
            row_wf(final(self)@),
            row_map(final(self)@) == row_map(old(self)@).insert(name@, value@),
    {
        let ghost r = old(self)@;
        let n = self.row.len();
        let mut i: usize = 0;
        while i < n && name_less(&self.row[i].0, &name)
            invariant
                n == self.row@.len(),
                r == self@,
                0 <= i <= n,
                forall|j: int| 0 <= j < i ==> name_lt(#[trigger] r[j].0, name@),
            decreases n - i,
        {
            assert(r[i as int] == field_view(self.row@[i as int]));
            i = i + 1;
        }
        if i < n && text_equal(&self.row[i].0, &name) {
            assert(r[i as int] == field_view(self.row@[i as int]));
            let _ = self.row.remove(i);
            self.row.insert(i, (name, value));
            proof {
                lemma_row_update_at(r, i as int, value@);
                assert(final(self)@ =~= r.update(i as int, (r[i as int].0, value@)));
            }
        } else {
            proof {
                if i < n {
                    assert(r[i as int] == field_view(self.row@[i as int]));
                    lemma_name_total(name@, r[i as int].0);
                }
                assert forall|j: int| i <= j < n implies name_lt(name@, #[trigger] r[j].0) by {
                    if j > i {
                        lemma_name_transitive(name@, r[i as int].0, r[j].0);
                    }
                }
                lemma_row_insert_at(r, i as int, name@, value@);
            }
            self.row.insert(i, (name, value));
            assert(final(self)@ =~= r.insert(i as int, (name@, value@)));
        }
        assert forall|j: int| 0 <= j < final(self)@.len() implies value_wf(
            #[trigger] final(self)@[j].1,
        ) by {
            if j < i {
                assert(final(self)@[j] == r[j]);
            } else if j > i {
                assert(final(self)@[j] == r[j - 1] || final(self)@[j] == r[j]);
            }
        }
    }
}

} // verus!
