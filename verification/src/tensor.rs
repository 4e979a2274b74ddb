//! Rows laid end to end, and cut apart again.

use vstd::prelude::*;

verus! {

/// The rows of a matrix, one after the other.
pub open spec fn joined<T>(rows: Seq<Seq<T>>) -> Seq<T>
    decreases rows.len(),
{
    if rows.len() == 0 {
        Seq::empty()
    } else {
        joined(rows.drop_last()) + rows.last()
    }
}

/// `offset(i)` is where row `i` starts when the rows are laid end to end.
pub open spec fn starts_at<T>(rows: Seq<Seq<T>>, offset: spec_fn(int) -> int) -> bool {
    &&& offset(0) == 0
    &&& forall|i: int| 0 <= i < rows.len() ==> #[trigger] offset(i + 1) == offset(i) + rows[i].len()
}

/// Row `i` is the part of `values` from `offset(i)` up to `offset(i + 1)`.
pub open spec fn cut_at<T>(rows: Seq<Seq<T>>, values: Seq<T>, offset: spec_fn(int) -> int) -> bool {
    &&& offset(0) == 0
    &&& forall|i: int| 0 <= i < rows.len() ==> offset(i) <= #[trigger] offset(i + 1) <= values.len()
    &&& forall|i: int|
        0 <= i < rows.len() ==> #[trigger] rows[i] == values.subrange(offset(i), offset(i + 1))
}

pub proof fn lemma_joined_push<T>(rows: Seq<Seq<T>>, row: Seq<T>)
    ensures
        joined(rows.push(row)) == joined(rows) + row,
{
    assert(rows.push(row).drop_last() =~= rows);
}

/// Laid end to end, the first `n` rows end where row `n` starts.
pub proof fn lemma_joined_take_len<T>(rows: Seq<Seq<T>>, offset: spec_fn(int) -> int, n: int)
    requires
        starts_at(rows, offset),
        0 <= n <= rows.len(),
    ensures
        joined(rows.take(n)).len() == offset(n),
        joined(rows.take(n)) == joined(rows).subrange(0, offset(n)),
        offset(n) <= joined(rows).len(),
    decreases rows.len() - n,
{
    if n == rows.len() {
        assert(rows.take(n) =~= rows);
        lemma_joined_len(rows, offset, n);
        assert(joined(rows).subrange(0, offset(n)) =~= joined(rows));
    } else {
        lemma_joined_take_len(rows, offset, n + 1);
        lemma_joined_len(rows, offset, n);
        assert(rows.take(n + 1).drop_last() =~= rows.take(n));
        assert(joined(rows.take(n + 1)) == joined(rows.take(n)) + rows[n]);
        assert(offset(n + 1) == offset(n) + rows[n].len());
        assert(joined(rows.take(n)) =~= joined(rows).subrange(0, offset(n)));
    }
}

/// The length of the first `n` rows laid end to end.
pub proof fn lemma_joined_len<T>(rows: Seq<Seq<T>>, offset: spec_fn(int) -> int, n: int)
    requires
        starts_at(rows, offset),
        0 <= n <= rows.len(),
    ensures
        joined(rows.take(n)).len() == offset(n),
    decreases n,
{
    if n == 0 {
        assert(rows.take(0) =~= Seq::<Seq<T>>::empty());
    } else {
        lemma_joined_len(rows, offset, n - 1);
        assert(rows.take(n).drop_last() =~= rows.take(n - 1));
        assert(rows.take(n).last() == rows[n - 1]);
        assert(offset(n - 1 + 1) == offset(n - 1) + rows[n - 1].len());
    }
}

/// Each row can be cut back out of the rows laid end to end.
pub proof fn lemma_joined_cut<T>(rows: Seq<Seq<T>>, offset: spec_fn(int) -> int)
    requires
        starts_at(rows, offset),
    ensures
        joined(rows).len() == offset(rows.len() as int),
        cut_at(rows, joined(rows), offset),
{
    let all = joined(rows);
    lemma_joined_len(rows, offset, rows.len() as int);
    assert(rows.take(rows.len() as int) =~= rows);
    assert forall|i: int| 0 <= i < rows.len() implies offset(i) <= #[trigger] offset(i + 1)
        <= all.len() && #[trigger] rows[i] == all.subrange(offset(i), offset(i + 1)) by {
        lemma_joined_take_len(rows, offset, i);
        lemma_joined_take_len(rows, offset, i + 1);
        assert(rows.take(i + 1).drop_last() =~= rows.take(i));
        assert(rows.take(i + 1).last() == rows[i]);
        assert(joined(rows.take(i + 1)) == joined(rows.take(i)) + rows[i]);
        assert(offset(i + 1) == offset(i) + rows[i].len());
        let upto = joined(rows.take(i + 1));
        let part = all.subrange(offset(i), offset(i + 1));
        assert(upto == all.subrange(0, offset(i + 1)));
        assert(joined(rows.take(i)).len() == offset(i));
        assert forall|k: int| 0 <= k < rows[i].len() implies rows[i][k] == part[k] by {
            assert(upto[offset(i) + k] == rows[i][k]);
            assert(upto[offset(i) + k] == all[offset(i) + k]);
        }
        assert(rows[i] =~= part);
    }
}

/// Rows cut out of `values`, one after the other and up to its end, give
/// `values` back when laid end to end.
pub proof fn lemma_cut_joined<T>(rows: Seq<Seq<T>>, values: Seq<T>, offset: spec_fn(int) -> int)
    requires
        cut_at(rows, values, offset),
        offset(rows.len() as int) == values.len(),
    ensures
        joined(rows) == values,
{
    lemma_cut_joined_take(rows, values, offset, rows.len() as int);
    assert(rows.take(rows.len() as int) =~= rows);
    assert(values.subrange(0, values.len() as int) =~= values);
}

pub proof fn lemma_cut_joined_take<T>(
    rows: Seq<Seq<T>>,
    values: Seq<T>,
    offset: spec_fn(int) -> int,
    n: int,
)
    requires
        cut_at(rows, values, offset),
        0 <= n <= rows.len(),
    ensures
        0 <= offset(n) <= values.len(),
        joined(rows.take(n)) == values.subrange(0, offset(n)),
    decreases n,
{
    if n == 0 {
        assert(rows.take(0) =~= Seq::<Seq<T>>::empty());
        assert(values.subrange(0, 0) =~= Seq::<T>::empty());
    } else {
        lemma_cut_joined_take(rows, values, offset, n - 1);
        assert(rows.take(n).drop_last() =~= rows.take(n - 1));
        assert(rows.take(n).last() == rows[n - 1]);
        assert(offset(n - 1) <= offset(n - 1 + 1) <= values.len());
        assert(rows[n - 1] == values.subrange(offset(n - 1), offset(n - 1 + 1)));
        assert(joined(rows.take(n)) =~= values.subrange(0, offset(n)));
    }
}

/// A copy of the values from `from` up to `to`.
pub fn copy_range<T: Copy>(values: &Vec<T>, from: usize, to: usize) -> (r: Vec<T>)
    requires
        from <= to <= values@.len(),
    ensures
        r@ == values@.subrange(from as int, to as int),
{
    let mut out: Vec<T> = Vec::new();
    let mut k: usize = from;
    while k < to
        invariant
            from <= k <= to <= values@.len(),
            out@ == values@.subrange(from as int, k as int),
        decreases to - k,
    {
        out.push(values[k]);
        assert(out@ =~= values@.subrange(from as int, k + 1));
        k += 1;
    }
    out
}

/// Appends a copy of `row` to `out`.
pub fn extend<T: Copy>(out: &mut Vec<T>, row: &Vec<T>)
    ensures
        final(out)@ == old(out)@ + row@,
{
    let mut k: usize = 0;
    while k < row.len()
        invariant
            k <= row.len(),
            out@ == old(out)@ + row@.take(k as int),
        decreases row.len() - k,
    {
        out.push(row[k]);
        assert(row@.take(k + 1) =~= row@.take(k as int).push(row@[k as int]));
        k += 1;
    }
    assert(row@.take(row.len() as int) =~= row@);
}

} // verus!
