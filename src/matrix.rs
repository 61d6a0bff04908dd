use vstd::prelude::*;

use crate::linkage::MAX_ITEMS;

verus! {

/// The score computed for each pair of rows.
#[derive(Debug, Clone, Copy, PartialEq, Eq, Structural)]
pub enum Metric {
    /// Pearson correlation `r`, or `1 - r` as a distance.
    Pearson,
    /// Centered correlation distance.
    Distance,
}

/// Why rows cannot be scored.
#[derive(Debug, Clone, Copy, PartialEq, Eq, Structural)]
pub enum MatrixError {
    /// The rows do not all have the same length.
    DimensionMismatch,
}

/// All rows have the same length.
pub open spec fn equal_lengths<T>(rows: Seq<Vec<T>>) -> bool {
    forall|i: int, j: int| 0 <= i < rows.len() && 0 <= j < rows.len() ==> #[trigger] rows[i]@.len() == #[trigger] rows[j]@.len()
}

/// Checks that every row has the same length.
pub fn check_rows<T>(rows: &[Vec<T>]) -> (r: Result<(), MatrixError>)
    ensures
        r is Ok <==> equal_lengths(rows@),
        r is Err ==> r == Err::<(), MatrixError>(MatrixError::DimensionMismatch),
{
    if rows.len() == 0 {
        return Ok(());
    }
    let width = rows[0].len();
    let mut i: usize = 1;
    while i < rows.len()
        invariant
            1 <= i <= rows@.len(),
            width == rows@[0]@.len(),
            forall|k: int| 0 <= k < i ==> #[trigger] rows@[k]@.len() == width,
        decreases rows@.len() - i,
    {
        if rows[i].len() != width {
            assert(!equal_lengths(rows@)) by {
                assert(rows@[i as int]@.len() != rows@[0]@.len());
            }
            return Err(MatrixError::DimensionMismatch);
        }
        i = i + 1;
    }
    Ok(())
}

/// The unordered pairs of rows, diagonal included, that a score matrix over
/// `n` rows needs: `(i, j)` with `i <= j < n`.
pub open spec fn is_upper_pair(n: int, p: (usize, usize)) -> bool {
    p.0 <= p.1 && (p.1 as int) < n
}

/// `(i1, j1)` comes strictly before `(i2, j2)`: row first, then column.
pub open spec fn pair_lt(a: (usize, usize), b: (usize, usize)) -> bool {
    a.0 < b.0 || (a.0 == b.0 && a.1 < b.1)
}

/// Every pair `(i, j)` with `i <= j < n`, each once, row by row.
pub fn upper_pairs(n: usize) -> (r: Vec<(usize, usize)>)
    requires
        n <= MAX_ITEMS,
    ensures
        forall|k: int| 0 <= k < r@.len() ==> is_upper_pair(n as int, #[trigger] r@[k]),
        forall|p: (usize, usize)| is_upper_pair(n as int, p) ==> r@.contains(p),
        forall|a: int, b: int| 0 <= a < b < r@.len() ==> pair_lt(#[trigger] r@[a], #[trigger] r@[b]),
{
    let mut pairs: Vec<(usize, usize)> = Vec::new();
    let mut i: usize = 0;
    while i < n
        invariant
            i <= n,
            n <= MAX_ITEMS,
            forall|k: int| 0 <= k < pairs@.len() ==> is_upper_pair(n as int, #[trigger] pairs@[k]) && pairs@[k].0 < i,
            forall|p: (usize, usize)| is_upper_pair(n as int, p) && p.0 < i ==> pairs@.contains(p),
            forall|a: int, b: int| 0 <= a < b < pairs@.len() ==> pair_lt(#[trigger] pairs@[a], #[trigger] pairs@[b]),
        decreases n - i,
    {
        let mut j: usize = i;
        while j < n
            invariant
                i <= j <= n,
                i < n,
                forall|k: int| 0 <= k < pairs@.len() ==> is_upper_pair(n as int, #[trigger] pairs@[k])
                    && (pairs@[k].0 < i || (pairs@[k].0 == i && pairs@[k].1 < j)),
                forall|p: (usize, usize)| is_upper_pair(n as int, p) && (p.0 < i || (p.0 == i && p.1 < j)) ==> pairs@.contains(p),
                forall|a: int, b: int| 0 <= a < b < pairs@.len() ==> pair_lt(#[trigger] pairs@[a], #[trigger] pairs@[b]),
            decreases n - j,
        {
            let ghost before = pairs@;
            pairs.push((i, j));
            assert forall|p: (usize, usize)| is_upper_pair(n as int, p) && (p.0 < i || (p.0 == i && p.1 < j + 1)) implies pairs@.contains(p) by {
                if p == (i, j) {
                    assert(pairs@[before.len() as int] == p);
                } else {
                    assert(before.contains(p));
                    let k = choose|k: int| 0 <= k < before.len() && before[k] == p;
                    assert(pairs@[k] == p);
                }
            }
            j = j + 1;
        }
        i = i + 1;
    }
    pairs
}

/// The score that the entries of `scores` leave in cell `(a, b)`: that of the
/// last entry for the pair `{a, b}`, or `fill` when there is none.
pub open spec fn cell_value<T>(scores: Seq<(usize, usize, T)>, fill: T, a: usize, b: usize) -> T
    decreases scores.len(),
{
    if scores.len() == 0 {
        fill
    } else {
        let s = scores.last();
        if (s.0 == a && s.1 == b) || (s.0 == b && s.1 == a) {
            s.2
        } else {
            cell_value(scores.drop_last(), fill, a, b)
        }
    }
}

proof fn lemma_cell_symmetric<T>(scores: Seq<(usize, usize, T)>, fill: T, a: usize, b: usize)
    ensures
        cell_value(scores, fill, a, b) == cell_value(scores, fill, b, a),
    decreases scores.len(),
{
    if scores.len() > 0 {
        lemma_cell_symmetric(scores.drop_last(), fill, a, b);
    }
}

/// The `n` x `n` matrix that holds each score of `scores` at both `[i][j]`
/// and `[j][i]`, and `fill` where no score falls. It is symmetric whatever
/// the scores.
pub fn fill_symmetric<T: Copy>(n: usize, scores: &Vec<(usize, usize, T)>, fill: T) -> (r: Vec<Vec<T>>)
    requires
        forall|k: int| 0 <= k < scores@.len() ==> (#[trigger] scores@[k]).0 < n && scores@[k].1 < n,
    ensures
        r@.len() == n,
        forall|i: int| 0 <= i < n ==> (#[trigger] r@[i])@.len() == n,
        forall|i: int, j: int| 0 <= i < n && 0 <= j < n ==> #[trigger] r@[i]@[j] == cell_value(scores@, fill, i as usize, j as usize),
        forall|i: int, j: int| 0 <= i < n && 0 <= j < n ==> #[trigger] r@[i]@[j] == r@[j]@[i],
{
    let mut rows: Vec<Vec<T>> = Vec::with_capacity(n);
    let mut i: usize = 0;
    while i < n
        invariant
            i <= n,
            rows@.len() == i,
            forall|a: int| 0 <= a < i ==> (#[trigger] rows@[a])@.len() == n,
            forall|a: int, b: int| 0 <= a < i && 0 <= b < n ==> #[trigger] rows@[a]@[b] == fill,
        decreases n - i,
    {
        let mut row: Vec<T> = Vec::with_capacity(n);
        let mut j: usize = 0;
        while j < n
            invariant
                j <= n,
                row@.len() == j,
                forall|b: int| 0 <= b < j ==> #[trigger] row@[b] == fill,
            decreases n - j,
        {
            row.push(fill);
            j = j + 1;
        }
        rows.push(row);
        i = i + 1;
    }
    let mut k: usize = 0;
    while k < scores.len()
        invariant
            k <= scores@.len(),
            forall|q: int| 0 <= q < scores@.len() ==> (#[trigger] scores@[q]).0 < n && scores@[q].1 < n,
            rows@.len() == n,
            forall|a: int| 0 <= a < n ==> (#[trigger] rows@[a])@.len() == n,
            forall|a: int, b: int| 0 <= a < n && 0 <= b < n ==> #[trigger] rows@[a]@[b] == cell_value(scores@.take(k as int), fill, a as usize, b as usize),
        decreases scores@.len() - k,
    {
        let (a, b, score) = scores[k];
        let ghost before = rows@;
        rows[a][b] = score;
        rows[b][a] = score;
        proof {
            let pre = scores@.take(k as int);
            let post = scores@.take(k as int + 1);
            assert(post.drop_last() =~= pre);
            assert(post.last() == scores@[k as int]);
        }
        k = k + 1;
    }
    assert(scores@.take(scores@.len() as int) =~= scores@);
    assert forall|i: int, j: int| 0 <= i < n && 0 <= j < n implies #[trigger] rows@[i]@[j] == rows@[j]@[i] by {
        lemma_cell_symmetric(scores@, fill, i as usize, j as usize);
    }
    rows
}

} // verus!
