use vstd::prelude::*;

use crate::error::CsvError;
use crate::order::{level, num_lt, number_of, precedes, CSVSortMethod, CSVSortOrder};
use crate::table::{column_numeric, column_of, is_stable_sort, merge_outcome, sort_outcome, stable_sort_by, CSVFile};

verus! {

/// Merging a table with an empty table of the same header succeeds and leaves
/// its rows unchanged.
pub proof fn merge_with_empty_keeps_rows(a: CSVFile, empty: CSVFile, after: CSVFile, r: Result<(), CsvError>)
    requires
        empty.header_view() == a.header_view(),
        empty.rows_view().len() == 0,
        merge_outcome(a, empty, after, r),
    ensures
        r is Ok,
        after.rows_view() == a.rows_view(),
{
    assert(a.rows_view() + empty.rows_view() =~= a.rows_view());
}

/// Merging is concatenation, so it is associative: merging `b` then `c` into
/// `a` gives the rows of merging into `a` the merge of `c` into `b`, when all
/// three share a header.
pub proof fn merge_associative(
    a: CSVFile,
    b: CSVFile,
    c: CSVFile,
    ab: CSVFile,
    r_ab: Result<(), CsvError>,
    ab_c: CSVFile,
    r_ab_c: Result<(), CsvError>,
    bc: CSVFile,
    r_bc: Result<(), CsvError>,
    a_bc: CSVFile,
    r_a_bc: Result<(), CsvError>,
)
    requires
        b.header_view() == a.header_view(),
        c.header_view() == a.header_view(),
        merge_outcome(a, b, ab, r_ab),
        merge_outcome(ab, c, ab_c, r_ab_c),
        merge_outcome(b, c, bc, r_bc),
        merge_outcome(a, bc, a_bc, r_a_bc),
    ensures
        r_ab is Ok && r_ab_c is Ok && r_bc is Ok && r_a_bc is Ok,
        ab_c.rows_view() == a_bc.rows_view(),
        ab_c.rows_view() == a.rows_view() + b.rows_view() + c.rows_view(),
{
    assert(a.rows_view() + b.rows_view() + c.rows_view() =~= a.rows_view() + (b.rows_view() + c.rows_view()));
}

/// Merging tables whose headers differ fails with `SchemaMismatch` and leaves
/// the first table's rows, and so their count, unchanged.
pub proof fn merge_rejects_other_header(a: CSVFile, b: CSVFile, after: CSVFile, r: Result<(), CsvError>)
    requires
        a.header_view() != b.header_view(),
        merge_outcome(a, b, after, r),
    ensures
        r matches Err(e) && e is SchemaMismatch,
        after.rows_view() == a.rows_view(),
        after.rows_view().len() == a.rows_view().len(),
{
}

/// A descending numerical sort on a column whose cells are all numbers
/// succeeds, and then each row's key is at least the next row's.
pub proof fn descending_numerical_sort_is_ordered(
    before: CSVFile,
    after: CSVFile,
    key: Seq<char>,
    r: Result<(), CsvError>,
    i: int,
)
    requires
        column_of(before.header_view(), key) matches Some(c) && column_numeric(before.rows_view(), c),
        sort_outcome(before, after, key, CSVSortOrder::Descending, CSVSortMethod::Numerical, r),
        0 <= i < after.rows_view().len() - 1,
    ensures
        r is Ok,
        column_of(after.header_view(), key) matches Some(c) && number_of(after.rows_view()[i][c]) matches Some(x)
            && number_of(after.rows_view()[i + 1][c]) matches Some(y) && !num_lt(x, y),
{
    let c = column_of(before.header_view(), key)->Some_0;
    let rows = before.rows_view();
    let perm = choose|perm: Seq<int>| stable_sort_by(rows, after.rows_view(), perm, c, CSVSortOrder::Descending, CSVSortMethod::Numerical);
    assert(after.rows_view()[i] == rows[perm[i]]);
    assert(after.rows_view()[i + 1] == rows[perm[i + 1]]);
    assert(number_of(rows[perm[i]][c]) is Some);
    assert(number_of(rows[perm[i + 1]][c]) is Some);
    assert(!precedes(after.rows_view()[i + 1][c], after.rows_view()[i][c], CSVSortOrder::Descending, CSVSortMethod::Numerical));
}

/// Row `i` of `after` is row `perm[i]` of `before`, and rows of `after` whose
/// cells in column `c` stand level come from rows of `before` in that order.
pub open spec fn ties_keep_order(
    before: Seq<Seq<Seq<char>>>,
    after: Seq<Seq<Seq<char>>>,
    perm: Seq<int>,
    c: int,
    order: CSVSortOrder,
    method: CSVSortMethod,
) -> bool {
    &&& perm.len() == after.len()
    &&& forall|i: int| 0 <= i < perm.len() ==> #[trigger] after[i] == before[perm[i]]
    &&& forall|i: int, j: int| 0 <= i < j < perm.len() && level(after[i][c], after[j][c], order, method) ==> perm[i] < perm[j]
}

/// A successful sort reorders the rows, and rows whose keys stand level keep
/// the relative order they had before.
pub proof fn sort_keeps_order_of_ties(
    before: CSVFile,
    after: CSVFile,
    key: Seq<char>,
    order: CSVSortOrder,
    method: CSVSortMethod,
    r: Result<(), CsvError>,
)
    requires
        sort_outcome(before, after, key, order, method, r),
        r is Ok,
    ensures
        column_of(before.header_view(), key) matches Some(c) && exists|perm: Seq<int>| #[trigger] ties_keep_order(
            before.rows_view(),
            after.rows_view(),
            perm,
            c,
            order,
            method,
        ),
{
    let c = column_of(before.header_view(), key)->Some_0;
    let perm = choose|perm: Seq<int>| stable_sort_by(before.rows_view(), after.rows_view(), perm, c, order, method);
    assert(ties_keep_order(before.rows_view(), after.rows_view(), perm, c, order, method));
}

/// Sorting by a name that no column has fails with `ColumnNotFound` and
/// leaves the table unchanged.
pub proof fn missing_column_sort_fails(
    before: CSVFile,
    after: CSVFile,
    key: Seq<char>,
    order: CSVSortOrder,
    method: CSVSortMethod,
    r: Result<(), CsvError>,
)
    requires
        forall|i: int| 0 <= i < before.header_view().len() ==> before.header_view()[i] != key,
        sort_outcome(before, after, key, order, method, r),
    ensures
        r matches Err(e) && e is ColumnNotFound,
        after.header_view() == before.header_view(),
        after.rows_view() == before.rows_view(),
{
    assert(column_of(before.header_view(), key) is None);
}

} // verus!
