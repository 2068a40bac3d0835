//! Shaping a profit matrix for the optimal-assignment solver.
use vstd::prelude::*;

verus! {

/// The width of a rectangular matrix: the length of its first row, 0 without rows.
pub open spec fn first_row_len<T>(m: Seq<Vec<T>>) -> nat {
    if m.len() > 0 {
        m[0]@.len()
    } else {
        0
    }
}

/// The side of the square that holds the matrix: the larger of its height and width.
pub open spec fn square_side<T>(m: Seq<Vec<T>>) -> nat {
    if m.len() < first_row_len(m) {
        first_row_len(m)
    } else {
        m.len()
    }
}

/// Entry `(i, j)` of the padded square: the matrix's entry where row `i` has one
/// within the width of the first row, else `zero`.
pub open spec fn padded_entry<T>(m: Seq<Vec<T>>, zero: T, i: int, j: int) -> T {
    if i < m.len() && j < first_row_len(m) && j < m[i]@.len() {
        m[i]@[j]
    } else {
        zero
    }
}

/// Pads a rectangular profit matrix to a square with `zero`.
pub fn pad_square<T: Copy>(profit: &[Vec<T>], zero: T) -> (out: Vec<Vec<T>>)
    ensures
        out@.len() == square_side(profit@),
        forall|i: int| 0 <= i < out@.len() ==> #[trigger] out@[i]@.len() == square_side(profit@),
        forall|i: int, j: int|
            0 <= i < out@.len() && 0 <= j < out@.len() ==> #[trigger] out@[i]@[j] == padded_entry(
                profit@,
                zero,
                i,
                j,
            ),
{
    let rows = profit.len();
    let cols = if rows > 0 {
        profit[0].len()
    } else {
        0
    };
    let n = if rows < cols {
        cols
    } else {
        rows
    };
    let mut out: Vec<Vec<T>> = Vec::new();
    for i in 0..n
        invariant
            rows == profit@.len(),
            cols == first_row_len(profit@),
            n == square_side(profit@),
            out@.len() == i,
            forall|a: int| 0 <= a < i ==> #[trigger] out@[a]@.len() == n,
            forall|a: int, j: int|
                0 <= a < i && 0 <= j < n ==> #[trigger] out@[a]@[j] == padded_entry(
                    profit@,
                    zero,
                    a,
                    j,
                ),
    {
        let mut row: Vec<T> = Vec::new();
        for j in 0..n
            invariant
                rows == profit@.len(),
                cols == first_row_len(profit@),
                i < n,
                row@.len() == j,
                forall|b: int| 0 <= b < j ==> #[trigger] row@[b] == padded_entry(profit@, zero, i as int, b),
        {
            if i < rows && j < cols && j < profit[i].len() {
                row.push(profit[i][j]);
            } else {
                row.push(zero);
            }
        }
        out.push(row);
    }
    out
}

} // verus!
