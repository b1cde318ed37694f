//! Sums over sequences of counters and over columns of a count table.
use vstd::prelude::*;

verus! {

/// Sum of the entries of `s`.
pub open spec fn sum(s: Seq<u64>) -> int
    decreases s.len(),
{
    if s.len() == 0 {
        0
    } else {
        sum(s.drop_last()) + s.last()
    }
}

/// Sum of column `c` over the rows of a table.
pub open spec fn column_sum(rows: Seq<Seq<u64>>, c: int) -> int
    decreases rows.len(),
{
    if rows.len() == 0 {
        0
    } else {
        column_sum(rows.drop_last(), c) + rows.last()[c]
    }
}

/// Largest entry of `s` (0 for an empty sequence).
pub open spec fn max_of(s: Seq<u64>) -> int
    decreases s.len(),
{
    if s.len() == 0 {
        0
    } else if max_of(s.drop_last()) >= s.last() {
        max_of(s.drop_last())
    } else {
        s.last() as int
    }
}

pub proof fn lemma_sum_update(s: Seq<u64>, i: int, v: u64)
    requires
        0 <= i < s.len(),
    ensures
        sum(s.update(i, v)) == sum(s) - s[i] + v,
    decreases s.len(),
{
    let t = s.update(i, v);
    if i == s.len() - 1 {
        assert(t.drop_last() =~= s.drop_last());
    } else {
        assert(t.drop_last() =~= s.drop_last().update(i, v));
        lemma_sum_update(s.drop_last(), i, v);
    }
}

pub proof fn lemma_sum_nonneg_bound(s: Seq<u64>, i: int)
    requires
        0 <= i < s.len(),
    ensures
        0 <= s[i] <= sum(s),
    decreases s.len(),
{
    lemma_sum_nonneg(s.drop_last());
    if i < s.len() - 1 {
        lemma_sum_nonneg_bound(s.drop_last(), i);
    }
}

pub proof fn lemma_sum_nonneg(s: Seq<u64>)
    ensures
        sum(s) >= 0,
    decreases s.len(),
{
    if s.len() > 0 {
        lemma_sum_nonneg(s.drop_last());
    }
}

pub proof fn lemma_max_of(s: Seq<u64>)
    ensures
        forall|i: int| 0 <= i < s.len() ==> s[i] <= max_of(s),
        s.len() > 0 ==> exists|i: int| 0 <= i < s.len() && s[i] == max_of(s),
        s.len() == 0 ==> max_of(s) == 0,
        0 <= max_of(s) <= sum(s),
    decreases s.len(),
{
    if s.len() > 0 {
        let p = s.drop_last();
        lemma_max_of(p);
        assert forall|i: int| 0 <= i < s.len() implies s[i] <= max_of(s) by {
            if i < p.len() {
                assert(s[i] == p[i]);
            }
        }
        if p.len() == 0 {
            assert(s[0] == s.last());
        } else if max_of(p) >= s.last() {
            let j = choose|j: int| 0 <= j < p.len() && p[j] == max_of(p);
            assert(s[j] == p[j]);
        } else {
            assert(s[s.len() - 1] == s.last());
        }
    }
}

/// Changing one row of a table changes every column sum by that row's change.
pub proof fn lemma_column_sum_update(rows: Seq<Seq<u64>>, r: int, row: Seq<u64>, c: int)
    requires
        0 <= r < rows.len(),
    ensures
        column_sum(rows.update(r, row), c) == column_sum(rows, c) - rows[r][c] + row[c],
    decreases rows.len(),
{
    let t = rows.update(r, row);
    if r == rows.len() - 1 {
        assert(t.drop_last() =~= rows.drop_last());
    } else {
        assert(t.drop_last() =~= rows.drop_last().update(r, row));
        lemma_column_sum_update(rows.drop_last(), r, row, c);
    }
}

/// An entry of a table is at most its column's sum.
pub proof fn lemma_column_sum_bound(rows: Seq<Seq<u64>>, r: int, c: int)
    requires
        0 <= r < rows.len(),
    ensures
        rows[r][c] <= column_sum(rows, c),
    decreases rows.len(),
{
    lemma_column_sum_nonneg(rows.drop_last(), c);
    if r < rows.len() - 1 {
        lemma_column_sum_bound(rows.drop_last(), r, c);
    }
}

pub proof fn lemma_column_sum_nonneg(rows: Seq<Seq<u64>>, c: int)
    ensures
        column_sum(rows, c) >= 0,
    decreases rows.len(),
{
    if rows.len() > 0 {
        lemma_column_sum_nonneg(rows.drop_last(), c);
    }
}

/// A column sum is the first row's entry plus the column sum of the rest.
pub proof fn lemma_column_sum_first(rows: Seq<Seq<u64>>, c: int)
    requires
        rows.len() > 0,
    ensures
        column_sum(rows, c) == rows[0][c] + column_sum(rows.subrange(1, rows.len() as int), c),
{
    let head = seq![rows[0]];
    let rest = rows.subrange(1, rows.len() as int);
    assert(head + rest =~= rows);
    lemma_column_sum_concat(head, rest, c);
    assert(head.drop_last() =~= Seq::<Seq<u64>>::empty());
    assert(head.last() == rows[0]);
    assert(column_sum(head.drop_last(), c) == 0);
    assert(column_sum(head, c) == rows[0][c]);
}

/// Column sums of a table split over a split of its rows.
pub proof fn lemma_column_sum_concat(a: Seq<Seq<u64>>, b: Seq<Seq<u64>>, c: int)
    ensures
        column_sum(a + b, c) == column_sum(a, c) + column_sum(b, c),
    decreases b.len(),
{
    if b.len() > 0 {
        assert((a + b).drop_last() =~= a + b.drop_last());
        lemma_column_sum_concat(a, b.drop_last(), c);
    } else {
        assert(a + b =~= a);
    }
}

/// Appending a zero to every row keeps the earlier column sums and adds a zero column.
pub proof fn lemma_column_sum_widen(rows: Seq<Seq<u64>>, wide: Seq<Seq<u64>>, c: int)
    requires
        rows.len() == wide.len(),
        forall|r: int| 0 <= r < rows.len() ==> #[trigger] wide[r] == rows[r].push(0),
        forall|r: int| 0 <= r < rows.len() ==> #[trigger] rows[r].len() == c,
    ensures
        column_sum(wide, c) == 0,
        forall|k: int| 0 <= k < c ==> column_sum(wide, k) == column_sum(rows, k),
    decreases rows.len(),
{
    if rows.len() > 0 {
        let n = rows.len() - 1;
        assert(wide[n] == rows[n].push(0));
        assert(rows[n].len() == c);
        let (rp, wp) = (rows.drop_last(), wide.drop_last());
        assert forall|r: int| 0 <= r < rp.len() implies #[trigger] wp[r] == rp[r].push(0) && rp[r].len() == c by {
            assert(wide[r] == rows[r].push(0));
            assert(rows[r].len() == c);
        }
        lemma_column_sum_widen(rp, wp, c);
        assert(wide.last() == wide[n]);
        assert(rows.last() == rows[n]);
        assert forall|k: int| 0 <= k < c implies column_sum(wide, k) == column_sum(rows, k) by {
            assert(rows[n].push(0)[k] == rows[n][k]);
            assert(wide[n][k] == rows[n][k]);
            assert(column_sum(wp, k) == column_sum(rp, k));
            assert(column_sum(wide, k) == column_sum(wp, k) + wide.last()[k]);
            assert(column_sum(rows, k) == column_sum(rp, k) + rows.last()[k]);
        }
    }
}

} // verus!
