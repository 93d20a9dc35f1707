//! Rotation of a matrix of `i32` by a quarter turn, in place.
//!
//! A matrix is a vector of rows. [`rotate_matrix_90_degrees`] pads the matrix
//! with zeros to a square, reverses the order of its rows, transposes it and
//! cuts it back to the turned shape.

use crate::swap::swap_elements;
use vstd::prelude::*;

verus! {

/// `m` has `rows` rows of `cols` entries each.
pub open spec fn has_shape(m: Seq<Vec<i32>>, rows: int, cols: int) -> bool {
    m.len() == rows && forall|r: int| 0 <= r < rows ==> (#[trigger] m[r])@.len() == cols
}

/// The entry of `m` in row `r` and column `c`, and 0 where `m` has none.
pub open spec fn entry(m: Seq<Vec<i32>>, r: int, c: int) -> i32 {
    if 0 <= r < m.len() && 0 <= c < m[r]@.len() {
        m[r]@[c]
    } else {
        0
    }
}

/// The side of the square that a matrix of `rows` by `cols` is padded to.
pub open spec fn side(rows: int, cols: int) -> int {
    if rows > cols {
        rows
    } else {
        cols
    }
}

/// Whether [`transpose`], having reached row `i` and column `j`, has already
/// swapped the entries at `(a, b)` and `(b, a)`, for `a < b`.
spec fn swapped(a: int, b: int, i: int, j: int) -> bool {
    a < i || (a == i && b < j)
}

/// What [`transpose`] holds at `(a, b)` when it has reached row `i` and
/// column `j`.
spec fn in_progress(before: Seq<Vec<i32>>, a: int, b: int, i: int, j: int) -> i32 {
    if (a < b && swapped(a, b, i, j)) || (b < a && swapped(b, a, i, j)) {
        before[b]@[a]
    } else {
        before[a]@[b]
    }
}

/// Transposes a square matrix in place: the entry at `(i, j)` becomes the one
/// that was at `(j, i)`.
pub fn transpose(matrix: &mut Vec<Vec<i32>>)
    requires
        old(matrix)@.len() >= 1,
        has_shape(old(matrix)@, old(matrix)@.len() as int, old(matrix)@.len() as int),
    ensures
        has_shape(final(matrix)@, old(matrix)@.len() as int, old(matrix)@.len() as int),
        forall|i: int, j: int|
            0 <= i < old(matrix)@.len() && 0 <= j < old(matrix)@.len() ==> #[trigger] final(matrix)@[i]@[j] == old(matrix)@[j]@[i],
{
    let rows = matrix.len();
    let cols = matrix[0].len();
    let ghost before = matrix@;
    let mut i: usize = 0;
    while i < rows
        invariant
            rows == cols,
            rows == before.len(),
            i <= rows,
            has_shape(before, rows as int, rows as int),
            has_shape(matrix@, rows as int, rows as int),
            forall|a: int, b: int|
                0 <= a < rows && 0 <= b < rows ==> #[trigger] matrix@[a]@[b] == in_progress(
                    before,
                    a,
                    b,
                    i as int,
                    0,
                ),
        decreases rows - i,
    {
        let mut j: usize = i + 1;
        while j < cols
            invariant
                rows == cols,
                rows == before.len(),
                i < rows,
                i < j <= cols,
                has_shape(before, rows as int, rows as int),
                has_shape(matrix@, rows as int, rows as int),
                forall|a: int, b: int|
                    0 <= a < rows && 0 <= b < rows ==> #[trigger] matrix@[a]@[b] == in_progress(
                        before,
                        a,
                        b,
                        i as int,
                        j as int,
                    ),
            decreases cols - j,
        {
            let ghost current = matrix@;
            let upper = matrix[i][j];
            let lower = matrix[j][i];
            matrix[i][j] = lower;
            matrix[j][i] = upper;
            proof {
                assert forall|a: int, b: int| 0 <= a < rows && 0 <= b < rows implies #[trigger] matrix@[a]@[b]
                    == in_progress(before, a, b, i as int, j + 1) by {
                    assert(current[a]@[b] == in_progress(before, a, b, i as int, j as int));
                    assert(current[i as int]@[j as int] == in_progress(
                        before,
                        i as int,
                        j as int,
                        i as int,
                        j as int,
                    ));
                    assert(current[j as int]@[i as int] == in_progress(
                        before,
                        j as int,
                        i as int,
                        i as int,
                        j as int,
                    ));
                }
            }
            j += 1;
        }
        i += 1;
    }
}

/// Sets the length of `row` to `n`: what is beyond is cut off, what is missing
/// is filled with zeros.
fn fit_row(row: &mut Vec<i32>, n: usize)
    ensures
        final(row)@.len() == n,
        forall|c: int|
            0 <= c < n ==> #[trigger] final(row)@[c] == (if c < old(row)@.len() {
                old(row)@[c]
            } else {
                0
            }),
{
    row.truncate(n);
    while row.len() < n
        invariant
            row@.len() <= n,
            row@.len() < n ==> row@.len() >= old(row)@.len(),
            forall|c: int|
                0 <= c < row@.len() ==> #[trigger] row@[c] == (if c < old(row)@.len() {
                    old(row)@[c]
                } else {
                    0
                }),
        decreases n - row@.len(),
    {
        row.push(0);
    }
}

/// Reverses the order of the rows.
fn reverse_rows(matrix: &mut Vec<Vec<i32>>)
    ensures
        final(matrix)@.len() == old(matrix)@.len(),
        forall|r: int|
            0 <= r < old(matrix)@.len() ==> #[trigger] final(matrix)@[r] == old(matrix)@[old(matrix)@.len() - 1 - r],
{
    let n = matrix.len();
    let mut low: usize = 0;
    while low < n / 2
        invariant
            n == old(matrix)@.len(),
            matrix@.len() == n,
            low <= n / 2,
            forall|r: int|
                0 <= r < n ==> #[trigger] matrix@[r] == (if r < low || r >= n - low {
                    old(matrix)@[n - 1 - r]
                } else {
                    old(matrix)@[r]
                }),
        decreases n / 2 - low,
    {
        let high = n - 1 - low;
        swap_elements(matrix, low, high);
        low += 1;
    }
}

/// Turns the matrix by 90 degrees clockwise, in place.
///
/// With `rows` rows, `cols` the length of the first row and `n` the larger of
/// the two, the result has `cols` rows of `rows` entries, and its entry at
/// `(i, j)` is what the zero-padded input holds at `(n - 1 - j, i)`. Where
/// the input has at least as many rows as columns this is the plain rotation:
/// the first row becomes the last column. Where it has fewer, the padding
/// rows are turned with it, so the first `cols - rows` columns of the result
/// are zero.
pub fn rotate_matrix_90_degrees(matrix: &mut Vec<Vec<i32>>)
    requires
        old(matrix)@.len() >= 1,
        old(matrix)@.len() <= old(matrix)@[0]@.len() ==> has_shape(
            old(matrix)@,
            old(matrix)@.len() as int,
            old(matrix)@[0]@.len() as int,
        ),
    ensures
        has_shape(final(matrix)@, old(matrix)@[0]@.len() as int, old(matrix)@.len() as int),
        forall|i: int, j: int|
            0 <= i < old(matrix)@[0]@.len() && 0 <= j < old(matrix)@.len() ==> #[trigger] final(matrix)@[i]@[j] == entry(
                old(matrix)@,
                side(old(matrix)@.len() as int, old(matrix)@[0]@.len() as int) - 1 - j,
                i,
            ),
{
    let rows = matrix.len();
    let cols = matrix[0].len();
    let ghost before = matrix@;
    let ghost n = side(rows as int, cols as int);

    if rows > cols {
        let mut r: usize = 0;
        while r < rows
            invariant
                rows > cols,
                r <= rows,
                matrix@.len() == rows,
                before.len() == rows,
                forall|k: int| r <= k < rows ==> #[trigger] matrix@[k] == before[k],
                forall|k: int| 0 <= k < r ==> (#[trigger] matrix@[k])@.len() == rows,
                forall|k: int, c: int|
                    0 <= k < r && 0 <= c < rows ==> #[trigger] matrix@[k]@[c] == entry(
                        before,
                        k,
                        c,
                    ),
            decreases rows - r,
        {
            fit_row(&mut matrix[r], rows);
            r += 1;
        }
    } else if cols > rows {
        while matrix.len() < cols
            invariant
                cols > rows,
                before.len() == rows,
                has_shape(before, rows as int, cols as int),
                rows <= matrix@.len() <= cols,
                has_shape(matrix@, matrix@.len() as int, cols as int),
                forall|k: int, c: int|
                    0 <= k < matrix@.len() && 0 <= c < cols ==> #[trigger] matrix@[k]@[c] == entry(
                        before,
                        k,
                        c,
                    ),
            decreases cols - matrix@.len(),
        {
            let mut row: Vec<i32> = Vec::new();
            fit_row(&mut row, cols);
            matrix.push(row);
        }
    }
    let ghost padded = matrix@;
    assert(has_shape(padded, n, n));
    assert(forall|k: int, c: int|
        0 <= k < n && 0 <= c < n ==> #[trigger] padded[k]@[c] == entry(before, k, c));

    reverse_rows(matrix);
    let ghost reversed = matrix@;
    assert(has_shape(reversed, n, n)) by {
        assert forall|k: int| 0 <= k < n implies (#[trigger] reversed[k])@.len() == n by {
            assert(reversed[k] == padded[n - 1 - k]);
        }
    }
    transpose(matrix);
    let ghost turned = matrix@;
    assert forall|i: int, j: int| 0 <= i < n && 0 <= j < n implies #[trigger] turned[i]@[j]
        == entry(before, n - 1 - j, i) by {
        assert(turned[i]@[j] == reversed[j]@[i]);
        assert(reversed[j] == padded[n - 1 - j]);
        assert(padded[n - 1 - j]@[i] == entry(before, n - 1 - j, i));
    }

    if rows > cols {
        matrix.truncate(cols);
    } else if cols > rows {
        let mut r: usize = 0;
        while r < cols
            invariant
                cols > rows,
                n == cols,
                r <= cols,
                matrix@.len() == cols,
                has_shape(turned, n, n),
                forall|k: int| r <= k < cols ==> #[trigger] matrix@[k] == turned[k],
                forall|k: int| 0 <= k < r ==> (#[trigger] matrix@[k])@.len() == rows,
                forall|k: int, c: int|
                    0 <= k < r && 0 <= c < rows ==> #[trigger] matrix@[k]@[c] == turned[k]@[c],
            decreases cols - r,
        {
            fit_row(&mut matrix[r], rows);
            r += 1;
        }
    }
}

} // verus!
