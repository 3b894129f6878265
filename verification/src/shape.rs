//! Shapes of row-major matrices: the checks that a buffer or a set of rows
//! forms a matrix, that two matrices line up, and the transposition of a
//! row-major buffer, and the cyclic shift of a vector. The element type is
//! generic: these rules only move elements and compare sizes.

use vstd::prelude::*;
use vstd::arithmetic::div_mod::{
    lemma_add_mod_noop_right, lemma_fundamental_div_mod, lemma_fundamental_div_mod_converse,
};
use crate::error::AetherError;
use crate::text::{append_chars, chars_of, decimal, decimal_chars, string_of};

verus! {

/// A `ShapeMismatch` error carrying `m`.
pub open spec fn shape_mismatch(e: AetherError, m: Seq<char>) -> bool {
    e matches AetherError::ShapeMismatch(s) && s@ == m
}

/// An `EmptyInput` error carrying `m`.
pub open spec fn empty_input(e: AetherError, m: Seq<char>) -> bool {
    e matches AetherError::EmptyInput(s) && s@ == m
}

/// `rows` followed by `x` and `cols`, e.g. `2x3`.
pub open spec fn dims(rows: usize, cols: usize) -> Seq<char> {
    decimal(rows as nat) + seq!['x'] + decimal(cols as nat)
}

/// Appends `rows`, `x`, `cols` to `msg`.
fn append_dims(msg: &mut Vec<char>, rows: usize, cols: usize)
    ensures
        final(msg)@ == old(msg)@ + dims(rows, cols),
{
    append_chars(msg, &decimal_chars(rows));
    msg.push('x');
    append_chars(msg, &decimal_chars(cols));
    assert(msg@ =~= old(msg)@ + dims(rows, cols));
}

/// Check that a buffer of `len` values fills a `rows x cols` matrix.
pub fn check_from_vec(rows: usize, cols: usize, len: usize) -> (r: Result<(), AetherError>)
    requires
        rows * cols <= usize::MAX,
    ensures
        match r {
            Ok(()) => len == rows * cols,
            Err(e) => len != rows * cols && shape_mismatch(
                e,
                "from_vec needs "@ + decimal((rows * cols) as nat) + " values for "@ + dims(
                    rows,
                    cols,
                ) + ", got "@ + decimal(len as nat),
            ),
        },
{
    let total = rows * cols;
    if len != total {
        let mut msg = chars_of("from_vec needs ");
        append_chars(&mut msg, &decimal_chars(total));
        append_chars(&mut msg, &chars_of(" values for "));
        append_dims(&mut msg, rows, cols);
        append_chars(&mut msg, &chars_of(", got "));
        append_chars(&mut msg, &decimal_chars(len));
        return Err(AetherError::ShapeMismatch(string_of(&msg)));
    }
    Ok(())
}

/// The lengths of the rows.
pub open spec fn row_views<T>(rows: Seq<Vec<T>>) -> Seq<Seq<T>> {
    rows.map_values(|r: Vec<T>| r@)
}

/// Check that `rows` form a matrix: at least one row, at least one column,
/// every row as long as the first. Gives the number of columns.
pub fn check_rows<T>(rows: &Vec<Vec<T>>) -> (r: Result<usize, AetherError>)
    ensures
        match r {
            Ok(cols) => rows@.len() > 0 && cols == rows@[0].len() && cols > 0 && forall|i: int|
                0 <= i < rows@.len() ==> #[trigger] rows@[i].len() == cols,
            Err(e) => if rows@.len() == 0 {
                empty_input(e, "from_rows got no rows"@)
            } else if rows@[0].len() == 0 {
                empty_input(e, "from_rows got empty rows"@)
            } else {
                exists|i: int|
                    #![trigger rows@[i]]
                    {
                        &&& 0 < i < rows@.len()
                        &&& rows@[i].len() != rows@[0].len()
                        &&& forall|j: int| 0 <= j < i ==> #[trigger] rows@[j].len() == rows@[0].len()
                        &&& shape_mismatch(
                            e,
                            "row 0 has "@ + decimal(rows@[0].len() as nat) + " cols but row "@ + decimal(
                                i as nat,
                            ) + " has "@ + decimal(rows@[i].len() as nat),
                        )
                    }
            },
        },
{
    if rows.len() == 0 {
        return Err(AetherError::EmptyInput(String::from_str("from_rows got no rows")));
    }
    let cols = rows[0].len();
    if cols == 0 {
        return Err(AetherError::EmptyInput(String::from_str("from_rows got empty rows")));
    }
    let mut i: usize = 0;
    while i < rows.len()
        invariant
            i <= rows.len(),
            rows@.len() > 0,
            cols == rows@[0].len(),
            cols > 0,
            forall|j: int| 0 <= j < i ==> #[trigger] rows@[j].len() == cols,
        decreases rows.len() - i,
    {
        if rows[i].len() != cols {
            let mut msg = chars_of("row 0 has ");
            append_chars(&mut msg, &decimal_chars(cols));
            append_chars(&mut msg, &chars_of(" cols but row "));
            append_chars(&mut msg, &decimal_chars(i));
            append_chars(&mut msg, &chars_of(" has "));
            append_chars(&mut msg, &decimal_chars(rows[i].len()));
            assert(rows@[i as int].len() != rows@[0].len());
            assert(0 < i);
            return Err(AetherError::ShapeMismatch(string_of(&msg)));
        }
        i = i + 1;
    }
    Ok(cols)
}

/// The rows, concatenated in order.
pub fn flatten_rows<T: Copy>(rows: &Vec<Vec<T>>) -> (r: Vec<T>)
    ensures
        r@ == row_views(rows@).flatten_alt(),
{
    let ghost rv = row_views(rows@);
    let mut out: Vec<T> = Vec::new();
    let mut i: usize = 0;
    while i < rows.len()
        invariant
            i <= rows.len(),
            rv == row_views(rows@),
            out@ == rv.take(i as int).flatten_alt(),
        decreases rows.len() - i,
    {
        let row = &rows[i];
        let ghost before = out@;
        let mut j: usize = 0;
        while j < row.len()
            invariant
                j <= row.len(),
                out@ == before + row@.take(j as int),
            decreases row.len() - j,
        {
            out.push(row[j]);
            j = j + 1;
            assert(out@ =~= before + row@.take(j as int));
        }
        assert(row@.take(j as int) =~= row@);
        assert(rv.take(i + 1).drop_last() =~= rv.take(i as int));
        assert(rv.take(i + 1).last() == row@);
        i = i + 1;
    }
    assert(rv.take(i as int) =~= rv);
    out
}

/// Check that two matrices have the same shape, for operation `op`.
pub fn check_same_shape(op: &str, rows: usize, cols: usize, other_rows: usize, other_cols: usize) -> (r:
    Result<(), AetherError>)
    ensures
        match r {
            Ok(()) => rows == other_rows && cols == other_cols,
            Err(e) => (rows != other_rows || cols != other_cols) && shape_mismatch(
                e,
                op@ + ": "@ + dims(rows, cols) + " vs "@ + dims(other_rows, other_cols),
            ),
        },
{
    if rows != other_rows || cols != other_cols {
        let mut msg = chars_of(op);
        append_chars(&mut msg, &chars_of(": "));
        append_dims(&mut msg, rows, cols);
        append_chars(&mut msg, &chars_of(" vs "));
        append_dims(&mut msg, other_rows, other_cols);
        return Err(AetherError::ShapeMismatch(string_of(&msg)));
    }
    Ok(())
}

/// Check that a `rows x cols` matrix can multiply a `other_rows x other_cols` one.
pub fn check_matmul(rows: usize, cols: usize, other_rows: usize, other_cols: usize) -> (r: Result<
    (),
    AetherError,
>)
    ensures
        match r {
            Ok(()) => cols == other_rows,
            Err(e) => cols != other_rows && shape_mismatch(
                e,
                "matmul: "@ + dims(rows, cols) + " @ "@ + dims(other_rows, other_cols),
            ),
        },
{
    if cols != other_rows {
        let mut msg = chars_of("matmul: ");
        append_dims(&mut msg, rows, cols);
        append_chars(&mut msg, &chars_of(" @ "));
        append_dims(&mut msg, other_rows, other_cols);
        return Err(AetherError::ShapeMismatch(string_of(&msg)));
    }
    Ok(())
}

/// Check that `len` values fill a row of `cols` columns.
pub fn check_row_len(cols: usize, len: usize) -> (r: Result<(), AetherError>)
    ensures
        match r {
            Ok(()) => len == cols,
            Err(e) => len != cols && shape_mismatch(
                e,
                "set_row needs "@ + decimal(cols as nat) + " values, got "@ + decimal(len as nat),
            ),
        },
{
    if len != cols {
        let mut msg = chars_of("set_row needs ");
        append_chars(&mut msg, &decimal_chars(cols));
        append_chars(&mut msg, &chars_of(" values, got "));
        append_chars(&mut msg, &decimal_chars(len));
        return Err(AetherError::ShapeMismatch(string_of(&msg)));
    }
    Ok(())
}

/// The row-major buffer of the transpose of the `rows x cols` matrix `d`:
/// entry `(j, i)` of the result is entry `(i, j)` of `d`.
pub open spec fn transpose_of<T>(d: Seq<T>, rows: int, cols: int) -> Seq<T> {
    Seq::new((rows * cols) as nat, |k: int| d[(k % rows) * cols + k / rows])
}

proof fn lemma_index_in_range(i: int, j: int, rows: int, cols: int)
    by (nonlinear_arith)
    requires
        0 <= i < rows,
        0 <= j < cols,
    ensures
        0 <= i * cols + j < rows * cols,
        0 <= j * rows + i < rows * cols,
{
}

/// Transpose the `rows x cols` row-major buffer `data`.
pub fn transposed<T: Copy>(data: &Vec<T>, rows: usize, cols: usize) -> (r: Vec<T>)
    requires
        data@.len() == rows * cols,
    ensures
        r@ == transpose_of(data@, rows as int, cols as int),
{
    let ghost d = data@;
    let n = data.len();
    assert(rows * cols == n);
    let mut out: Vec<T> = Vec::new();
    let mut j: usize = 0;
    while j < cols
        invariant
            j <= cols,
            d == data@,
            d.len() == rows * cols,
            rows * cols <= usize::MAX,
            out@.len() == j * rows,
            forall|k: int|
                0 <= k < out@.len() ==> #[trigger] out@[k] == d[(k % rows as int) * cols + k
                    / rows as int],
        decreases cols - j,
    {
        let mut i: usize = 0;
        while i < rows
            invariant
                i <= rows,
                j < cols,
                d == data@,
                d.len() == rows * cols,
                rows * cols <= usize::MAX,
                out@.len() == j * rows + i,
                forall|k: int|
                    0 <= k < out@.len() ==> #[trigger] out@[k] == d[(k % rows as int) * cols + k
                        / rows as int],
            decreases rows - i,
        {
            proof {
                lemma_index_in_range(i as int, j as int, rows as int, cols as int);
            }
            let idx = i * cols + j;
            let ghost k = j * rows + i;
            out.push(data[idx]);
            proof {
                lemma_fundamental_div_mod_converse(k, rows as int, j as int, i as int);
                assert(out@[k] == d[(k % rows as int) * cols + k / rows as int]);
            }
            i = i + 1;
        }
        assert(j * rows + rows == (j + 1) * rows) by (nonlinear_arith);
        j = j + 1;
    }
    assert(cols * rows == rows * cols) by (nonlinear_arith);
    assert(out@ =~= transpose_of(d, rows as int, cols as int));
    out
}

proof fn lemma_div_bound(m: int, rows: int, cols: int)
    by (nonlinear_arith)
    requires
        0 <= m < rows * cols,
        cols > 0,
    ensures
        0 <= m / cols < rows,
{
}

/// Transposing twice gives the buffer back.
pub proof fn law_transpose_involution<T>(d: Seq<T>, rows: int, cols: int)
    requires
        rows >= 0,
        cols >= 0,
        d.len() == rows * cols,
    ensures
        transpose_of(transpose_of(d, rows, cols), cols, rows) == d,
{
    let t = transpose_of(d, rows, cols);
    let u = transpose_of(t, cols, rows);
    assert(cols * rows == rows * cols) by (nonlinear_arith);
    assert forall|m: int| 0 <= m < u.len() implies u[m] == d[m] by {
        assert(cols > 0 && rows > 0) by (nonlinear_arith)
            requires
                0 <= m < rows * cols,
                rows >= 0,
                cols >= 0,
        ;
        let a = m / cols;
        let b = m % cols;
        lemma_fundamental_div_mod(m, cols);
        lemma_div_bound(m, rows, cols);
        assert(0 <= b < cols);
        lemma_index_in_range(a, b, rows, cols);
        let k = b * rows + a;
        assert(u[m] == t[k]);
        lemma_fundamental_div_mod_converse(k, rows, b, a);
        assert(t[k] == d[a * cols + b]);
        assert(a * cols + b == m) by (nonlinear_arith)
            requires
                m == cols * a + b,
        ;
    }
    assert(u =~= d);
}


/// Check that two vectors have the same dimension, for operation `op`.
pub fn check_same_dim(op: &str, dim: usize, other_dim: usize) -> (r: Result<(), AetherError>)
    ensures
        match r {
            Ok(()) => dim == other_dim,
            Err(e) => dim != other_dim && shape_mismatch(
                e,
                op@ + ": dim "@ + decimal(dim as nat) + " vs "@ + decimal(other_dim as nat),
            ),
        },
{
    if dim != other_dim {
        let mut msg = chars_of(op);
        append_chars(&mut msg, &chars_of(": dim "));
        append_chars(&mut msg, &decimal_chars(dim));
        append_chars(&mut msg, &chars_of(" vs "));
        append_chars(&mut msg, &decimal_chars(other_dim));
        return Err(AetherError::ShapeMismatch(string_of(&msg)));
    }
    Ok(())
}

/// Check that `got` values were supplied where `what` needs `expected`
/// values of `unit`; the message reads `{what} {expected} {unit}, got {got}`.
pub fn check_count(what: &str, expected: usize, unit: &str, got: usize) -> (r: Result<
    (),
    AetherError,
>)
    ensures
        match r {
            Ok(()) => got == expected,
            Err(e) => got != expected && shape_mismatch(
                e,
                what@ + seq![' '] + decimal(expected as nat) + seq![' '] + unit@ + ", got "@
                    + decimal(got as nat),
            ),
        },
{
    if got != expected {
        let mut msg = chars_of(what);
        msg.push(' ');
        append_chars(&mut msg, &decimal_chars(expected));
        msg.push(' ');
        append_chars(&mut msg, &chars_of(unit));
        append_chars(&mut msg, &chars_of(", got "));
        append_chars(&mut msg, &decimal_chars(got));
        proof {
            assert(msg@ =~= what@ + seq![' '] + decimal(expected as nat) + seq![' '] + unit@
                + ", got "@ + decimal(got as nat));
        }
        return Err(AetherError::ShapeMismatch(string_of(&msg)));
    }
    Ok(())
}

/// Check that a mask with rows of lengths `mask_lens` covers a
/// `rows x cols` matrix: as many rows, each `cols` long. The first row of
/// the wrong length is reported.
pub fn check_mask_shape(rows: usize, cols: usize, mask_lens: &[usize]) -> (r: Result<
    (),
    AetherError,
>)
    ensures
        match r {
            Ok(()) => mask_lens@.len() == rows && forall|i: int|
                0 <= i < rows ==> #[trigger] mask_lens@[i] == cols,
            Err(e) => if mask_lens@.len() != rows {
                shape_mismatch(
                    e,
                    "mask has "@ + decimal(mask_lens@.len()) + " rows, matrix has "@ + decimal(
                        rows as nat,
                    ),
                )
            } else {
                exists|i: int|
                    #![trigger mask_lens@[i]]
                    {
                        &&& 0 <= i < rows
                        &&& mask_lens@[i] != cols
                        &&& forall|j: int| 0 <= j < i ==> mask_lens@[j] == cols
                        &&& shape_mismatch(
                            e,
                            "mask row "@ + decimal(i as nat) + " has "@ + decimal(
                                mask_lens@[i] as nat,
                            ) + " cols, matrix has "@ + decimal(cols as nat),
                        )
                    }
            },
        },
{
    if mask_lens.len() != rows {
        let mut msg = chars_of("mask has ");
        append_chars(&mut msg, &decimal_chars(mask_lens.len()));
        append_chars(&mut msg, &chars_of(" rows, matrix has "));
        append_chars(&mut msg, &decimal_chars(rows));
        return Err(AetherError::ShapeMismatch(string_of(&msg)));
    }
    let mut i: usize = 0;
    while i < rows
        invariant
            i <= rows,
            mask_lens@.len() == rows,
            forall|j: int| 0 <= j < i ==> mask_lens@[j] == cols,
        decreases rows - i,
    {
        if mask_lens[i] != cols {
            let mut msg = chars_of("mask row ");
            append_chars(&mut msg, &decimal_chars(i));
            append_chars(&mut msg, &chars_of(" has "));
            append_chars(&mut msg, &decimal_chars(mask_lens[i]));
            append_chars(&mut msg, &chars_of(" cols, matrix has "));
            append_chars(&mut msg, &decimal_chars(cols));
            assert(mask_lens@[i as int] != cols);
            return Err(AetherError::ShapeMismatch(string_of(&msg)));
        }
        i = i + 1;
    }
    Ok(())
}

/// Cyclic shift: the entry at position `i` moves to `(i + shift) % len`.
pub fn cyclic_shift<T: Copy>(v: &Vec<T>, shift: usize) -> (r: Vec<T>)
    requires
        v@.len() == 0 || (v@.len() - 1) + shift <= usize::MAX,
    ensures
        r@.len() == v@.len(),
        forall|i: int| 0 <= i < v@.len() ==> r@[(i + shift) % (v@.len() as int)] == #[trigger] v@[i],
{
    let n = v.len();
    let mut out: Vec<T> = Vec::new();
    if n == 0 {
        return out;
    }
    let sh = shift % n;
    let mut k: usize = 0;
    while k < n
        invariant
            k <= n,
            n == v@.len(),
            n > 0,
            sh == shift % n,
            out@.len() == k,
            forall|t: int|
                0 <= t < k ==> #[trigger] out@[t] == v@[if t >= sh {
                    t - sh
                } else {
                    t + n - sh
                }],
        decreases n - k,
    {
        let idx = if k >= sh {
            k - sh
        } else {
            k + (n - sh)
        };
        out.push(v[idx]);
        k = k + 1;
    }
    assert forall|i: int| 0 <= i < v@.len() implies out@[(i + shift) % (v@.len() as int)]
        == #[trigger] v@[i] by {
        let m = n as int;
        lemma_add_mod_noop_right(i, shift as int, m);
        let s2 = sh as int;
        if i + s2 < m {
            lemma_fundamental_div_mod_converse(i + s2, m, 0, i + s2);
            assert((i + shift) % m == i + s2);
        } else {
            lemma_fundamental_div_mod_converse(i + s2, m, 1, i + s2 - m);
            assert((i + shift) % m == i + s2 - m);
        }
    }
    out
}

} // verus!
