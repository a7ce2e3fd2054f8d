use vstd::prelude::*;

use crate::error::CsvError;
use crate::order::{
    chars_of, comparable, key_before, key_of, lemma_precedes_asym, lemma_precedes_weak, level, number_of, parse_number, precedes,
    CSVSortMethod, CSVSortOrder, Number, SortKey,
};

verus! {

/// Every row has exactly as many cells as the header has columns.
pub open spec fn rows_fit(header: Seq<Seq<char>>, rows: Seq<Seq<Seq<char>>>) -> bool {
    forall|i: int| 0 <= i < rows.len() ==> #[trigger] rows[i].len() == header.len()
}

/// `i` is the first column of `header` named `key`.
pub open spec fn first_match(header: Seq<Seq<char>>, key: Seq<char>, i: int) -> bool {
    &&& 0 <= i < header.len()
    &&& header[i] == key
    &&& forall|j: int| 0 <= j < i ==> header[j] != key
}

/// The index of the first column named `key`, if any.
pub open spec fn column_of(header: Seq<Seq<char>>, key: Seq<char>) -> Option<int> {
    if exists|i: int| first_match(header, key, i) {
        Some(choose|i: int| first_match(header, key, i))
    } else {
        None
    }
}

/// Every cell of column `col` is a number.
pub open spec fn column_numeric(rows: Seq<Seq<Seq<char>>>, col: int) -> bool {
    forall|r: int| 0 <= r < rows.len() ==> (#[trigger] number_of(rows[r][col])) is Some
}

/// `row` is the first row whose cell in column `col` is no number.
pub open spec fn first_non_numeric(rows: Seq<Seq<Seq<char>>>, col: int, row: int) -> bool {
    &&& 0 <= row < rows.len()
    &&& number_of(rows[row][col]) is None
    &&& forall|r: int| 0 <= r < row ==> (#[trigger] number_of(rows[r][col])) is Some
}

/// `after` is `before` stably sorted on column `col`, row `i` of `after`
/// being row `perm[i]` of `before`: `perm` is a permutation, no row comes
/// before the row above it, and rows that stand level keep their order.
pub open spec fn stable_sort_by(
    before: Seq<Seq<Seq<char>>>,
    after: Seq<Seq<Seq<char>>>,
    perm: Seq<int>,
    col: int,
    order: CSVSortOrder,
    method: CSVSortMethod,
) -> bool {
    &&& after.len() == before.len()
    &&& perm.len() == before.len()
    &&& forall|i: int| 0 <= i < perm.len() ==> 0 <= #[trigger] perm[i] < before.len()
    &&& forall|i: int| 0 <= i < perm.len() ==> #[trigger] after[i] == before[perm[i]]
    &&& forall|i: int, j: int| 0 <= i < j < perm.len() ==> perm[i] != perm[j]
    &&& forall|i: int| 0 <= i < after.len() - 1 ==> !precedes(#[trigger] after[i + 1][col], after[i][col], order, method)
    &&& forall|i: int, j: int| 0 <= i < j < after.len() && level(after[i][col], after[j][col], order, method)
        ==> perm[i] < perm[j]
}

/// The texts of a sequence of sort keys.
pub open spec fn key_texts(keys: Seq<SortKey>) -> Seq<Seq<char>> {
    keys.map_values(|k: SortKey| k.text@)
}

/// `perm` lists the indices of `texts` once each, in an order where no text
/// comes before the one above it and texts that stand level keep their order.
pub open spec fn stable_order_of(texts: Seq<Seq<char>>, perm: Seq<usize>, order: CSVSortOrder, method: CSVSortMethod) -> bool {
    &&& perm.len() == texts.len()
    &&& forall|i: int| 0 <= i < perm.len() ==> (#[trigger] perm[i]) < texts.len()
    &&& forall|i: int, j: int| 0 <= i < j < perm.len() ==> perm[i] != perm[j]
    &&& forall|i: int| 0 <= i < perm.len() - 1 ==> !precedes(texts[#[trigger] perm[i + 1] as int], texts[perm[i] as int], order, method)
    &&& forall|i: int, j: int| 0 <= i < j < perm.len() && level(texts[perm[i] as int], texts[perm[j] as int], order, method)
        ==> perm[i] < perm[j]
}

/// `run` lists the indices `lo..hi` once each, ordered so that no text comes
/// before one above it, and texts that stand level keep the order of their indices.
pub open spec fn sorted_run(
    t: Seq<Seq<char>>,
    run: Seq<usize>,
    lo: int,
    hi: int,
    order: CSVSortOrder,
    method: CSVSortMethod,
) -> bool {
    &&& run.len() == hi - lo
    &&& forall|i: int| 0 <= i < run.len() ==> lo <= #[trigger] run[i] < hi
    &&& forall|i: int, j: int| 0 <= i < j < run.len() ==> run[i] != run[j]
    &&& forall|i: int, j: int| 0 <= i < j < run.len() ==> !precedes(t[run[j] as int], t[run[i] as int], order, method)
    &&& forall|i: int, j: int| 0 <= i < j < run.len() && level(t[run[i] as int], t[run[j] as int], order, method) ==> run[i] < run[j]
}

/// Every key stands for its own text, and every text takes part in the order.
pub open spec fn keys_ready(keys: Seq<SortKey>, method: CSVSortMethod) -> bool {
    forall|r: int| 0 <= r < keys.len() ==> key_of(#[trigger] keys[r], keys[r].text@, method)
}

proof fn lemma_comparable(keys: Seq<SortKey>, method: CSVSortMethod, r: int)
    requires
        keys_ready(keys, method),
        0 <= r < keys.len(),
    ensures
        comparable(key_texts(keys)[r], method),
        key_texts(keys)[r] == keys[r].text@,
{
    assert(key_of(keys[r], keys[r].text@, method));
}

/// Merges two sorted runs of neighbouring index ranges into one; on keys that
/// stand level the left run, whose indices are smaller, goes first.
fn merge_runs(
    keys: &Vec<SortKey>,
    left: &Vec<usize>,
    right: &Vec<usize>,
    lo: usize,
    mid: usize,
    hi: usize,
    sort_order: CSVSortOrder,
    sort_method: CSVSortMethod,
) -> (out: Vec<usize>)
    requires
        lo <= mid <= hi <= keys.len(),
        keys_ready(keys@, sort_method),
        sorted_run(key_texts(keys@), left@, lo as int, mid as int, sort_order, sort_method),
        sorted_run(key_texts(keys@), right@, mid as int, hi as int, sort_order, sort_method),
    ensures
        sorted_run(key_texts(keys@), out@, lo as int, hi as int, sort_order, sort_method),
{
    let ghost t = key_texts(keys@);
    let mut out: Vec<usize> = Vec::new();
    let mut i: usize = 0;
    let mut j: usize = 0;
    let ghost mut pos: Seq<int> = Seq::empty();
    while i < left.len() || j < right.len()
        invariant
            lo <= mid <= hi <= keys.len(),
            t == key_texts(keys@),
            keys_ready(keys@, sort_method),
            sorted_run(t, left@, lo as int, mid as int, sort_order, sort_method),
            sorted_run(t, right@, mid as int, hi as int, sort_order, sort_method),
            0 <= i <= left.len(),
            0 <= j <= right.len(),
            out.len() == i + j,
            pos.len() == out.len(),
            forall|k: int| 0 <= k < out.len() && out@[k] < mid ==> 0 <= #[trigger] pos[k] < i && out@[k] == left@[pos[k]],
            forall|k: int| 0 <= k < out.len() && out@[k] >= mid ==> 0 <= #[trigger] pos[k] < j && out@[k] == right@[pos[k]],
            forall|k: int| 0 <= k < out.len() ==> lo <= #[trigger] out@[k] < hi,
            forall|a: int, b: int| 0 <= a < b < out.len() ==> out@[a] != out@[b],
            forall|a: int, b: int| 0 <= a < b < out.len() ==> !precedes(t[out@[b] as int], t[out@[a] as int], sort_order, sort_method),
            forall|a: int, b: int| 0 <= a < b < out.len() && level(t[out@[a] as int], t[out@[b] as int], sort_order, sort_method)
                ==> out@[a] < out@[b],
            i < left.len() ==> forall|k: int| 0 <= k < out.len() && out@[k] >= mid ==> precedes(t[#[trigger] out@[k] as int], t[left@[i as int] as int], sort_order, sort_method),
            j < right.len() ==> forall|k: int| 0 <= k < out.len() && out@[k] < mid ==> !precedes(t[right@[j as int] as int], t[#[trigger] out@[k] as int], sort_order, sort_method),
        decreases left.len() + right.len() - i - j,
    {
        let take_left = j >= right.len() || (i < left.len() && !key_before(&keys[right[j]], &keys[left[i]], sort_order, sort_method));
        let ghost before = out@;
        if take_left {
            let x = left[i];
            proof {
                lemma_comparable(keys@, sort_method, x as int);
                assert forall|k: int| 0 <= k < before.len() implies !precedes(t[x as int], t[before[k] as int], sort_order, sort_method)
                    && (level(t[before[k] as int], t[x as int], sort_order, sort_method) ==> before[k] < x) && before[k] != x by {
                    if before[k] < mid {
                        assert(pos[k] < i);
                    } else {
                        lemma_precedes_asym(t[before[k] as int], t[x as int], sort_order, sort_method);
                    }
                }
                if i + 1 < left.len() {
                    let y = left@[i + 1];
                    lemma_comparable(keys@, sort_method, y as int);
                    assert forall|k: int| 0 <= k < before.len() && before[k] >= mid implies precedes(t[before[k] as int], t[y as int], sort_order, sort_method) by {
                        lemma_comparable(keys@, sort_method, before[k] as int);
                        lemma_precedes_weak(t[before[k] as int], t[y as int], t[x as int], sort_order, sort_method);
                    }
                }
            }
            out.push(x);
            proof {
                pos = pos.push(i as int);
            }
            i = i + 1;
        } else {
            let x = right[j];
            proof {
                lemma_comparable(keys@, sort_method, x as int);
                assert forall|k: int| 0 <= k < before.len() implies !precedes(t[x as int], t[before[k] as int], sort_order, sort_method)
                    && (level(t[before[k] as int], t[x as int], sort_order, sort_method) ==> before[k] < x) && before[k] != x by {
                    if before[k] >= mid {
                        assert(pos[k] < j);
                    }
                }
                if j + 1 < right.len() {
                    let y = right@[j + 1];
                    lemma_comparable(keys@, sort_method, y as int);
                    assert forall|k: int| 0 <= k < before.len() && before[k] < mid implies !precedes(t[y as int], t[before[k] as int], sort_order, sort_method) by {
                        lemma_comparable(keys@, sort_method, before[k] as int);
                        if precedes(t[y as int], t[before[k] as int], sort_order, sort_method) {
                            lemma_precedes_weak(t[y as int], t[x as int], t[before[k] as int], sort_order, sort_method);
                        }
                    }
                }
            }
            out.push(x);
            proof {
                pos = pos.push(j as int);
            }
            j = j + 1;
        }
    }
    out
}

/// Merge sort of the indices `lo..hi` of `keys`, stable on keys that stand level.
fn sort_range(keys: &Vec<SortKey>, lo: usize, hi: usize, sort_order: CSVSortOrder, sort_method: CSVSortMethod) -> (run: Vec<usize>)
    requires
        lo <= hi <= keys.len(),
        keys_ready(keys@, sort_method),
    ensures
        sorted_run(key_texts(keys@), run@, lo as int, hi as int, sort_order, sort_method),
    decreases hi - lo,
{
    if hi - lo <= 1 {
        let mut run: Vec<usize> = Vec::new();
        if hi > lo {
            run.push(lo);
        }
        return run;
    }
    let mid = lo + (hi - lo) / 2;
    let left = sort_range(keys, lo, mid, sort_order, sort_method);
    let right = sort_range(keys, mid, hi, sort_order, sort_method);
    merge_runs(keys, &left, &right, lo, mid, hi, sort_order, sort_method)
}

/// The indices of `keys` in stably sorted order.
fn stable_order(keys: &Vec<SortKey>, sort_order: CSVSortOrder, sort_method: CSVSortMethod) -> (perm: Vec<usize>)
    requires
        keys_ready(keys@, sort_method),
    ensures
        stable_order_of(key_texts(keys@), perm@, sort_order, sort_method),
{
    let perm = sort_range(keys, 0, keys.len(), sort_order, sort_method);
    assert forall|i: int| 0 <= i < perm.len() - 1 implies !precedes(
        key_texts(keys@)[#[trigger] perm@[i + 1] as int],
        key_texts(keys@)[perm@[i] as int],
        sort_order,
        sort_method,
    ) by {
        assert(0 <= i < i + 1 < perm.len());
    }
    perm
}

/// A copy of a row.
fn clone_row(row: &Vec<String>) -> (r: Vec<String>)
    ensures
        r.deep_view() == row.deep_view(),
{
    let mut r: Vec<String> = Vec::new();
    let mut k: usize = 0;
    while k < row.len()
        invariant
            0 <= k <= row.len(),
            r.len() == k,
            forall|q: int| 0 <= q < k ==> #[trigger] r@[q]@ == row@[q]@,
        decreases row.len() - k,
    {
        let c = row[k].clone();
        r.push(c);
        k = k + 1;
    }
    assert(r.deep_view() =~= row.deep_view());
    r
}

/// `after` is `before` stably sorted on column `col`.
pub open spec fn is_stable_sort(
    before: Seq<Seq<Seq<char>>>,
    after: Seq<Seq<Seq<char>>>,
    col: int,
    order: CSVSortOrder,
    method: CSVSortMethod,
) -> bool {
    exists|perm: Seq<int>| stable_sort_by(before, after, perm, col, order, method)
}

/// Sorting `rows` under `header` by the column named `key` succeeds: the
/// column exists and, under `Numerical`, each of its cells is a number.
pub open spec fn sort_succeeds(header: Seq<Seq<char>>, rows: Seq<Seq<Seq<char>>>, key: Seq<char>, method: CSVSortMethod) -> bool {
    match column_of(header, key) {
        None => false,
        Some(c) => method == CSVSortMethod::Alphabetical || column_numeric(rows, c),
    }
}

/// What merging `other` into `before` gives: `after` and the result `r`.
/// Equal headers: `other`'s rows are appended. Otherwise `SchemaMismatch`
/// naming both headers, and the rows stay as they were.
pub open spec fn merge_outcome(before: CSVFile, other: CSVFile, after: CSVFile, r: Result<(), CsvError>) -> bool {
    &&& r is Ok <==> before.header_view() == other.header_view()
    &&& after.header_view() == before.header_view()
    &&& r is Ok ==> after.rows_view() == before.rows_view() + other.rows_view()
    &&& r is Err ==> after.rows_view() == before.rows_view()
    &&& r matches Err(e) ==> (e matches CsvError::SchemaMismatch { expected, found } && expected.deep_view()
        == before.header_view() && found.deep_view() == other.header_view())
    &&& after.wf()
}

/// What sorting `before` by the column named `key` gives: `after` and the
/// result `r`. The header stays. Success exactly when `sort_succeeds`, and then
/// the rows are stably sorted on the first column named `key`. On failure the
/// rows stay as they were, and the error is `ColumnNotFound` for a missing
/// column, else `ValueParse` for the first row whose cell is no number.
pub open spec fn sort_outcome(
    before: CSVFile,
    after: CSVFile,
    key: Seq<char>,
    order: CSVSortOrder,
    method: CSVSortMethod,
    r: Result<(), CsvError>,
) -> bool {
    &&& after.wf()
    &&& after.header_view() == before.header_view()
    &&& r is Ok <==> sort_succeeds(before.header_view(), before.rows_view(), key, method)
    &&& r is Err ==> after.rows_view() == before.rows_view()
    &&& column_of(before.header_view(), key) is None ==> (r matches Err(e) && e matches CsvError::ColumnNotFound {
        key: k,
    } && k@ == key)
    &&& column_of(before.header_view(), key) matches Some(c) ==> (r is Ok ==> is_stable_sort(
        before.rows_view(),
        after.rows_view(),
        c,
        order,
        method,
    ))
    &&& column_of(before.header_view(), key) matches Some(c) ==> (r matches Err(e) ==> (e matches CsvError::ValueParse {
        row_index,
        raw_value,
    } && first_non_numeric(before.rows_view(), c, row_index as int) && raw_value@ == before.rows_view()[row_index as int][c]))
}

/// A table: a header row of column names and the data rows below it.
#[derive(Debug)]
pub struct CSVFile {
    header: Vec<String>,
    data: Vec<Vec<String>>,
}

impl CSVFile {
    /// The column names, in order.
    pub closed spec fn header_view(&self) -> Seq<Seq<char>> {
        self.header.deep_view()
    }

    /// The data rows, in order, each a sequence of cells.
    pub closed spec fn rows_view(&self) -> Seq<Seq<Seq<char>>> {
        self.data.deep_view()
    }

    /// The table's invariant: every row is as wide as the header.
    pub open spec fn wf(&self) -> bool {
        rows_fit(self.header_view(), self.rows_view())
    }

    /// An empty table: no columns and no rows.
    pub fn new() -> (r: Self)
        ensures
            r.header_view() == Seq::<Seq<char>>::empty(),
            r.rows_view() == Seq::<Seq<Seq<char>>>::empty(),
            r.wf(),
    {
        let r = CSVFile { header: Vec::new(), data: Vec::new() };
        assert(r.header_view() =~= Seq::<Seq<char>>::empty());
        assert(r.rows_view() =~= Seq::<Seq<Seq<char>>>::empty());
        r
    }

    /// Builds a table from a header and rows; fails with `Parse` when a row's
    /// width differs from the header's.
    pub fn from_records(header: Vec<String>, rows: Vec<Vec<String>>) -> (r: Result<Self, CsvError>)
        ensures
            r is Ok <==> rows_fit(header.deep_view(), rows.deep_view()),
            r matches Ok(t) ==> t.header_view() == header.deep_view() && t.rows_view()
                == rows.deep_view() && t.wf(),
            r matches Err(e) ==> e is Parse,
    {
        let mut i: usize = 0;
        while i < rows.len()
            invariant
                0 <= i <= rows.len(),
                forall|k: int| 0 <= k < i ==> #[trigger] rows.deep_view()[k].len() == header.deep_view().len(),
            decreases rows.len() - i,
        {
            if rows[i].len() != header.len() {
                assert(rows.deep_view()[i as int].len() != header.deep_view().len());
                return Err(CsvError::Parse {
                    message: String::from_str("a record's field count differs from the header's"),
                });
            }
            assert(rows.deep_view()[i as int].len() == header.deep_view().len());
            i = i + 1;
        }
        Ok(CSVFile { header, data: rows })
    }

    /// The column names.
    pub fn header(&self) -> (r: &Vec<String>)
        ensures
            r.deep_view() == self.header_view(),
    {
        &self.header
    }

    /// The data rows.
    pub fn rows(&self) -> (r: &Vec<Vec<String>>)
        ensures
            r.deep_view() == self.rows_view(),
    {
        &self.data
    }

    /// The index of the first column named `key`, if any.
    pub fn column_index(&self, key: &str) -> (r: Option<usize>)
        ensures
            r matches Some(i) ==> column_of(self.header_view(), key@) == Some(i as int),
            r is None ==> column_of(self.header_view(), key@) is None,
    {
        let wanted = key.to_owned();
        let mut i: usize = 0;
        while i < self.header.len()
            invariant
                0 <= i <= self.header.len(),
                wanted@ == key@,
                forall|j: int| 0 <= j < i ==> self.header_view()[j] != key@,
            decreases self.header.len() - i,
        {
            if self.header[i] == wanted {
                assert(first_match(self.header_view(), key@, i as int));
                assert forall|q: int| first_match(self.header_view(), key@, q) implies q == i by {}
                return Some(i);
            }
            assert(self.header_view()[i as int] != key@);
            i = i + 1;
        }
        None
    }

    /// The sort keys of column `col`, one per row; under `Numerical` fails on
    /// the first cell that is no number.
    fn column_keys(&self, col: usize, sort_method: CSVSortMethod) -> (r: Result<Vec<SortKey>, CsvError>)
        requires
            self.wf(),
            col < self.header_view().len(),
        ensures
            r is Ok <==> (sort_method == CSVSortMethod::Alphabetical || column_numeric(self.rows_view(), col as int)),
            r matches Ok(keys) ==> keys.len() == self.rows_view().len() && forall|q: int| 0 <= q < keys.len()
                ==> key_of(#[trigger] keys@[q], self.rows_view()[q][col as int], sort_method),
            r matches Err(e) ==> (e matches CsvError::ValueParse { row_index, raw_value } && first_non_numeric(
                self.rows_view(),
                col as int,
                row_index as int,
            ) && raw_value@ == self.rows_view()[row_index as int][col as int]),
    {
        let ghost rows = self.rows_view();
        let mut keys: Vec<SortKey> = Vec::new();
        let mut i: usize = 0;
        while i < self.data.len()
            invariant
                self.wf(),
                rows == self.rows_view(),
                col < self.header_view().len(),
                0 <= i <= self.data.len(),
                keys.len() == i,
                forall|q: int| 0 <= q < i ==> key_of(#[trigger] keys@[q], rows[q][col as int], sort_method),
                sort_method == CSVSortMethod::Numerical ==> forall|q: int| 0 <= q < i ==> (#[trigger] number_of(rows[q][col as int])) is Some,
            decreases self.data.len() - i,
        {
            assert(rows[i as int].len() == self.header_view().len());
            let cell = &self.data[i][col];
            assert(cell@ == rows[i as int][col as int]);
            let text = chars_of(cell.as_str());
            let num = match sort_method {
                CSVSortMethod::Numerical => match parse_number(&text) {
                    Some(x) => x,
                    None => {
                        return Err(CsvError::ValueParse { row_index: i, raw_value: cell.clone() });
                    },
                },
                CSVSortMethod::Alphabetical => Number { negative: false, digits: Vec::new(), point: 0 },
            };
            keys.push(SortKey { text, num });
            i = i + 1;
        }
        Ok(keys)
    }

    /// Sorts the rows in place by the first column named `key`, stably: rows
    /// whose cells stand level keep their order. Fails, leaving the table as it
    /// was, with `ColumnNotFound` when no column has that name, or with
    /// `ValueParse` on the first row whose cell is no number under `Numerical`
    /// (numbers as `compare_columns` reads them: decimals with an optional
    /// exponent, within the range that `number_of` states).
    pub fn sort_by_column(&mut self, key: &str, sort_order: CSVSortOrder, sort_method: CSVSortMethod) -> (r: Result<(), CsvError>)
        requires
            old(self).wf(),
        ensures
            sort_outcome(*old(self), *final(self), key@, sort_order, sort_method, r),
    {
        let col = match self.column_index(key) {
            Some(c) => c,
            None => {
                return Err(CsvError::ColumnNotFound { key: key.to_owned() });
            },
        };
        let keys = match self.column_keys(col, sort_method) {
            Ok(k) => k,
            Err(e) => {
                return Err(e);
            },
        };
        let ghost before = self.rows_view();
        let ghost texts = key_texts(keys@);
        assert forall|q: int| 0 <= q < keys.len() implies texts[q] == before[q][col as int] by {
            assert(key_of(keys@[q], before[q][col as int], sort_method));
        }
        assert forall|q: int| 0 <= q < keys.len() implies key_of(#[trigger] keys@[q], keys@[q].text@, sort_method) by {
            assert(key_of(keys@[q], before[q][col as int], sort_method));
        }
        let perm = stable_order(&keys, sort_order, sort_method);
        let n = self.data.len();
        let mut rows: Vec<Vec<String>> = Vec::new();
        let mut i: usize = 0;
        while i < n
            invariant
                n == self.data.len(),
                before == self.rows_view(),
                stable_order_of(texts, perm@, sort_order, sort_method),
                texts.len() == n,
                0 <= i <= n,
                rows.len() == i,
                forall|q: int| 0 <= q < i ==> (#[trigger] rows@[q]).deep_view() == before[perm@[q] as int],
            decreases n - i,
        {
            let row = clone_row(&self.data[perm[i]]);
            rows.push(row);
            i = i + 1;
        }
        let ghost p = perm@.map_values(|x: usize| x as int);
        assert forall|q: int| 0 <= q < n implies #[trigger] rows.deep_view()[q] == before[p[q]] by {
            assert(rows@[q].deep_view() == before[perm@[q] as int]);
        }
        self.data = rows;
        proof {
            let after = self.rows_view();
            assert(column_of(self.header_view(), key@) == Some(col as int));
            assert forall|q: int| 0 <= q < n implies #[trigger] after[q][col as int] == texts[perm@[q] as int] by {}
            assert(stable_sort_by(before, after, p, col as int, sort_order, sort_method));
            assert(before == old(self).rows_view());
            assert(is_stable_sort(old(self).rows_view(), self.rows_view(), col as int, sort_order, sort_method));
        }
        Ok(())
    }

    /// Appends `other`'s rows after this table's rows, provided both headers
    /// are equal, element by element; otherwise fails with `SchemaMismatch`
    /// and leaves this table as it was.
    pub fn merge(&mut self, other: CSVFile) -> (r: Result<(), CsvError>)
        requires
            old(self).wf(),
            other.wf(),
        ensures
            merge_outcome(*old(self), other, *final(self), r),
    {
        if !same_header(&self.header, &other.header) {
            return Err(CsvError::SchemaMismatch { expected: self.header.clone(), found: other.header });
        }
        let ghost start = self.data.deep_view();
        let mut rest = other.data;
        let ghost added = rest.deep_view();
        self.data.append(&mut rest);
        assert(self.data.deep_view() =~= start + added);
        Ok(())
    }
}

/// Tells whether two headers hold the same names in the same order.
fn same_header(a: &Vec<String>, b: &Vec<String>) -> (r: bool)
    ensures
        r == (a.deep_view() == b.deep_view()),
{
    if a.len() != b.len() {
        assert(a.deep_view().len() != b.deep_view().len());
        return false;
    }
    let mut i: usize = 0;
    while i < a.len()
        invariant
            a.len() == b.len(),
            0 <= i <= a.len(),
            forall|k: int| 0 <= k < i ==> #[trigger] a.deep_view()[k] == b.deep_view()[k],
        decreases a.len() - i,
    {
        if a[i] != b[i] {
            assert(a.deep_view()[i as int] != b.deep_view()[i as int]);
            return false;
        }
        i = i + 1;
    }
    assert(a.deep_view() =~= b.deep_view());
    true
}

} // verus!
