//! The zigzag layout of a text: its characters run down the rows and up
//! again, one row for each character, and each row is written as a line
//! that shows its own characters in their columns.

use vstd::arithmetic::div_mod::{lemma_fundamental_div_mod, lemma_fundamental_div_mod_converse};
use vstd::prelude::*;

verus! {

/// The number of characters in one run down and up across `k` rows.
pub open spec fn period(k: int) -> int {
    2 * (k - 1)
}

/// The row on which the character at `i` stands when the text zigzags
/// across `k` rows.
pub open spec fn row_of(i: int, k: int) -> int {
    let m = i % period(k);
    if m < k - 1 {
        m
    } else {
        period(k) - m
    }
}

/// What the line of `row` shows in the column `i`: the character of the
/// text where it stands on that row, and a blank elsewhere.
pub open spec fn shown(sentence: Seq<char>, k: int, row: int, i: int) -> char {
    if row_of(i, k) == row {
        sentence[i]
    } else {
        ' '
    }
}

/// The remainder of `i + d` from that of `i`, for a `d` of at most one
/// period.
proof fn lemma_mod_shift(i: int, p: int, d: int)
    requires
        0 < p,
        0 <= d <= p,
    ensures
        0 <= i % p < p,
        (i + d) % p == (if i % p + d < p {
            i % p + d
        } else {
            i % p + d - p
        }),
{
    lemma_fundamental_div_mod(i, p);
    let q = i / p;
    let m = i % p;
    assert(p * q == q * p) by (nonlinear_arith);
    assert((q + 1) * p == q * p + p) by (nonlinear_arith);
    if m + d < p {
        lemma_fundamental_div_mod_converse(i + d, p, q, m + d);
    } else {
        lemma_fundamental_div_mod_converse(i + d, p, q + 1, m + d - p);
    }
}

/// Each character stands on one of the `k` rows.
pub proof fn lemma_row_in_range(i: int, k: int)
    requires
        2 <= k,
    ensures
        0 <= row_of(i, k) < k,
{
    lemma_mod_shift(i, period(k), 0);
}

/// The first column of a row is the row's own number.
proof fn lemma_first_on_row(k: int, row: int)
    requires
        2 <= k,
        0 <= row < k,
    ensures
        row_of(row, k) == row,
        forall|j: int| 0 <= j < row ==> row_of(j, k) != row,
{
    lemma_mod_shift(0, period(k), row);
    assert forall|j: int| 0 <= j < row implies row_of(j, k) != row by {
        lemma_mod_shift(0, period(k), j);
    }
}

/// From a column of a row, the next column of that row lies as far ahead
/// as the zigzag needs to reach the bottom or the top and come back.
proof fn lemma_next_on_row(i: int, k: int, row: int, stride: int)
    requires
        2 <= k,
        0 <= row < k,
        0 <= i,
        row_of(i, k) == row,
        stride == (if i % period(k) < k - 1 {
            period(k) - 2 * row
        } else {
            2 * row
        }),
    ensures
        0 < stride <= period(k),
        row_of(i + stride, k) == row,
        forall|j: int| i < j < i + stride ==> row_of(j, k) != row,
{
    let p = period(k);
    lemma_mod_shift(i, p, 0);
    lemma_mod_shift(i, p, stride);
    assert forall|j: int| i < j < i + stride implies row_of(j, k) != row by {
        lemma_mod_shift(i, p, j - i);
    }
}

/// Whether the zigzag runs downwards at `curr_idx`.
fn is_descending(curr_idx: usize, k: usize) -> (down: bool)
    requires
        2 <= k,
        2 * (k - 1) <= usize::MAX,
    ensures
        down == ((curr_idx as int) % period(k as int) < k - 1),
{
    curr_idx % (2 * (k - 1)) < k - 1
}

/// The number of columns that a row leaves blank after one of its
/// characters, on the way down or on the way up.
fn get_spaces(row: usize, desc: bool, k: usize) -> (spaces: usize)
    requires
        2 <= k,
        2 * (k - 1) <= usize::MAX,
        if desc {
            row < k - 1
        } else {
            1 <= row <= k - 1
        },
    ensures
        spaces + 1 == (if desc {
            period(k as int) - 2 * row
        } else {
            2 * row
        }),
{
    let mut spaces = (k - 1) * 2 - 1;
    if desc {
        spaces -= row * 2;
    } else {
        spaces -= (k - 1 - row) * 2;
    }
    spaces
}

/// The line of `row` in the zigzag of `sentence` across `k` rows: as long
/// as the text, with each character of that row in its own column and
/// blanks in the others. A text needs two rows to zigzag, and the columns
/// are counted one period past the end of the text.
pub fn zigzag_line(sentence: &[char], k: usize, row: usize) -> (line: Vec<char>)
    requires
        row < k,
        sentence@.len() > 0 ==> 2 <= k,
        sentence@.len() + 2 * (k - 1) <= usize::MAX,
    ensures
        line@.len() == sentence@.len(),
        forall|i: int|
            0 <= i < line@.len() ==> line@[i] == #[trigger] shown(
                sentence@,
                k as int,
                row as int,
                i,
            ),
{
    let n = sentence.len();
    let mut line = vec![' '; n];
    let mut i: usize = row;
    proof {
        if n > 0 {
            lemma_first_on_row(k as int, row as int);
        }
    }
    while i < n
        invariant
            n == sentence@.len(),
            line@.len() == n,
            row < k,
            n > 0 ==> 2 <= k,
            n + 2 * (k - 1) <= usize::MAX,
            n > 0 ==> row_of(i as int, k as int) == row,
            forall|j: int|
                0 <= j < i && j < n ==> line@[j] == #[trigger] shown(
                    sentence@,
                    k as int,
                    row as int,
                    j,
                ),
            forall|j: int| i <= j < n ==> line@[j] == ' ',
        decreases (if i < n { n - i } else { 0 }),
    {
        line[i] = sentence[i];
        let is_going_down = is_descending(i, k);
        proof {
            lemma_mod_shift(i as int, period(k as int), 0);
        }
        let spaces = get_spaces(row, is_going_down, k);
        proof {
            lemma_next_on_row(i as int, k as int, row as int, spaces + 1);
        }
        i += spaces + 1;
    }
    line
}

} // verus!
