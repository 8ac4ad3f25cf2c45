//! Linear dependencies among the columns of a sparse matrix over GF(2).
//!
//! The columns are reduced against one another by elimination. Each column
//! is kept as a bit vector over the rows, together with a record, a bit
//! vector over the columns, of which columns were added into it. A column
//! that reduces to zero yields a dependency: the columns in its record add
//! up to zero.

use crate::bits::{
    bit, bit_terms, lemma_bit_of_xor_sum, lemma_bit_ops, lemma_one_shifted,
    lemma_parity_sum_congruent, lemma_parity_sum_single, lemma_parity_sum_xor, parity_sum, vbit,
    xor_sum,
};
use crate::linalg::{BlockMatrix, CscMatrix};
use vstd::prelude::*;
use vstd::std_specs::bits::axiom_u64_trailing_zeros;

verus! {

/// The first `k` columns of the product of `mat` with `m` are zero.
pub open spec fn columns_in_kernel(mat: CscMatrix, m: Seq<u64>, k: int) -> bool {
    forall|r: int, j: int|
        0 <= r < mat.rows() && 0 <= j < k ==> !#[trigger] bit(
            xor_sum(mat.row_terms(m, r), mat.cols()),
            j,
        )
}

/// Where the first `k` columns of `dep` lie in the kernel of `mat`, the
/// product of `mat` with `dep` has no bit set in its first `k` columns: the
/// parity vectors of the columns that a dependency selects add up to zero.
pub proof fn lemma_product_with_dependencies_vanishes(
    mat: CscMatrix,
    dep: Seq<u64>,
    k: int,
    res: Seq<u64>,
)
    requires
        columns_in_kernel(mat, dep, k),
        mat.is_product(dep, res),
    ensures
        forall|r: int, j: int| 0 <= r < mat.rows() && 0 <= j < k ==> !#[trigger] bit(res[r], j),
{
    assert forall|r: int, j: int| 0 <= r < mat.rows() && 0 <= j < k implies !#[trigger] bit(
        res[r],
        j,
    ) by {
        assert(!bit(xor_sum(mat.row_terms(dep, r), mat.cols()), j));
    }
}

/// A vector of `n` zero words.
pub fn zero_words(n: usize) -> (v: Vec<u64>)
    ensures
        v@.len() == n,
        forall|i: int| !#[trigger] vbit(v@, i),
{
    let v = vec![0u64; n];
    assert forall|i: int| !#[trigger] vbit(v@, i) by {
        lemma_bit_ops(0, 0, i % 64);
    }
    v
}

/// Adds `src` into `dst` bit by bit.
pub fn xor_into(dst: &mut Vec<u64>, src: &Vec<u64>)
    requires
        old(dst)@.len() == src@.len(),
    ensures
        final(dst)@.len() == old(dst)@.len(),
        forall|i: int|
            #[trigger] vbit(final(dst)@, i) == (vbit(old(dst)@, i) != vbit(src@, i)),
{
    let n = dst.len();
    let ghost before = dst@;
    let mut k: usize = 0;
    while k < n
        invariant
            k <= n,
            dst@.len() == n,
            src@.len() == n,
            before.len() == n,
            forall|w: int| 0 <= w < k ==> #[trigger] dst@[w] == before[w] ^ src@[w],
            forall|w: int| k <= w < n ==> #[trigger] dst@[w] == before[w],
        decreases n - k,
    {
        let y = dst[k] ^ src[k];
        dst.set(k, y);
        k += 1;
    }
    proof {
        assert forall|i: int| #[trigger] vbit(dst@, i) == (vbit(before, i) != vbit(src@, i)) by {
            if 0 <= i < 64 * n {
                assert(dst@[i / 64] == before[i / 64] ^ src@[i / 64]);
                lemma_bit_ops(before[i / 64], src@[i / 64], i % 64);
            }
        }
    }
}

/// The place of the lowest bit that is set in `v`, if there is one.
pub fn lowest_set_bit(v: &Vec<u64>) -> (r: Option<usize>)
    requires
        v@.len() <= usize::MAX / 64,
    ensures
        match r {
            Some(i) => vbit(v@, i as int) && forall|j: int| j < i ==> !#[trigger] vbit(v@, j),
            None => forall|j: int| !#[trigger] vbit(v@, j),
        },
{
    let mut w: usize = 0;
    while w < v.len()
        invariant
            w <= v@.len(),
            v@.len() <= usize::MAX / 64,
            forall|k: int| 0 <= k < w ==> #[trigger] v@[k] == 0,
        decreases v@.len() - w,
    {
        let x = v[w];
        if x != 0 {
            proof {
                axiom_u64_trailing_zeros(x);
            }
            let t = x.trailing_zeros() as usize;
            proof {
                assert(bit(x, t as int));
                assert forall|j: int| j < 64 * w + t implies !#[trigger] vbit(v@, j) by {
                    if 0 <= j {
                        if j / 64 < w {
                            assert(v@[j / 64] == 0);
                            lemma_bit_ops(0, 0, j % 64);
                        } else {
                            assert(j / 64 == w);
                            let jj = (j % 64) as u32;
                            assert((x >> jj) & 1u64 == 0u64);
                        }
                    }
                }
                assert((64 * w + t) / 64 == w && (64 * w + t) % 64 == t);
            }
            return Some(64 * w + t);
        }
        w += 1;
    }
    proof {
        assert forall|j: int| !#[trigger] vbit(v@, j) by {
            if 0 <= j < 64 * v@.len() {
                assert(v@[j / 64] == 0);
                lemma_bit_ops(0, 0, j % 64);
            }
        }
    }
    None
}

/// Sets bit `i` of the bit vector `v`.
pub fn set_bit(v: &mut Vec<u64>, i: usize)
    requires
        i < 64 * old(v)@.len(),
    ensures
        final(v)@.len() == old(v)@.len(),
        forall|j: int| #[trigger] vbit(final(v)@, j) == (vbit(old(v)@, j) || j == i),
{
    let ghost before = v@;
    let w = i / 64;
    let one = 1u64 << ((i % 64) as u64);
    let y = v[w] | one;
    v.set(w, y);
    proof {
        assert forall|j: int| #[trigger] vbit(v@, j) == (vbit(before, j) || j == i) by {
            if 0 <= j < 64 * before.len() {
                if j / 64 == w {
                    lemma_bit_ops(before[w as int], one, j % 64);
                    lemma_one_shifted((i % 64) as int, j % 64);
                } else {
                    assert(v@[j / 64] == before[j / 64]);
                }
            }
        }
    }
}

/// Whether bit `i` of the bit vector `v` is set.
pub fn test_bit(v: &Vec<u64>, i: usize) -> (r: bool)
    requires
        i < 64 * v@.len(),
    ensures
        r == vbit(v@, i as int),
{
    (v[i / 64] >> ((i % 64) as u64)) & 1 == 1
}

/// The terms of the sum of the columns that `record` selects, in row `r`.
pub open spec fn selected_terms(mat: CscMatrix, record: Seq<u64>, r: int) -> spec_fn(int) -> bool {
    |c: int| vbit(record, c) && mat.entry(r, c)
}

/// Row `r` of the sum over GF(2) of the columns of `mat` that `record` selects.
pub open spec fn combination(mat: CscMatrix, record: Seq<u64>, r: int) -> bool {
    parity_sum(selected_terms(mat, record, r), mat.cols())
}

/// The bit vector `v` is the sum of the columns that `record` selects.
pub open spec fn represents(mat: CscMatrix, v: Seq<u64>, record: Seq<u64>) -> bool {
    forall|r: int| #[trigger] vbit(v, r) == (0 <= r < mat.rows() && combination(mat, record, r))
}

/// Column `j` of the dense matrix `m` has a one in row `c` where no column
/// before it has one.
pub open spec fn leads(m: Seq<u64>, c: int, j: int) -> bool {
    bit(m[c], j) && forall|i: int| 0 <= i < j ==> !#[trigger] bit(m[c], i)
}

/// Some row of column `j` of the dense matrix `m` has a one where no column
/// before `j` has one.
pub open spec fn has_leader(m: Seq<u64>, rows: int, j: int) -> bool {
    exists|c: int| 0 <= c < rows && #[trigger] leads(m, c, j)
}

/// The sum of what two records select is what their sum selects.
proof fn lemma_represents_sum(
    mat: CscMatrix,
    v1: Seq<u64>,
    r1: Seq<u64>,
    v2: Seq<u64>,
    r2: Seq<u64>,
    v: Seq<u64>,
    rec: Seq<u64>,
)
    requires
        represents(mat, v1, r1),
        represents(mat, v2, r2),
        forall|i: int| #[trigger] vbit(v, i) == (vbit(v1, i) != vbit(v2, i)),
        forall|i: int| #[trigger] vbit(rec, i) == (vbit(r1, i) != vbit(r2, i)),
    ensures
        represents(mat, v, rec),
{
    assert forall|r: int| #[trigger] vbit(v, r) == (0 <= r < mat.rows() && combination(
        mat,
        rec,
        r,
    )) by {
        let f = selected_terms(mat, r1, r);
        let g = selected_terms(mat, r2, r);
        let h = selected_terms(mat, rec, r);
        assert forall|i: int| 0 <= i < mat.cols() implies #[trigger] h(i) == (f(i) != g(i)) by {
            assert(vbit(rec, i) == (vbit(r1, i) != vbit(r2, i)));
        }
        lemma_parity_sum_xor(f, g, h, mat.cols());
        assert(vbit(v1, r) == (0 <= r < mat.rows() && combination(mat, r1, r)));
        assert(vbit(v2, r) == (0 <= r < mat.rows() && combination(mat, r2, r)));
    }
}

/// A column by itself is what the record of that column alone selects.
proof fn lemma_represents_column(mat: CscMatrix, v: Seq<u64>, rec: Seq<u64>, c: int)
    requires
        mat.well_formed(),
        0 <= c < mat.cols(),
        forall|r: int| #[trigger] vbit(v, r) == mat.entry(r, c),
        forall|i: int| #[trigger] vbit(rec, i) == (i == c),
    ensures
        represents(mat, v, rec),
{
    assert forall|r: int| #[trigger] vbit(v, r) == (0 <= r < mat.rows() && combination(
        mat,
        rec,
        r,
    )) by {
        let f = selected_terms(mat, rec, r);
        assert forall|i: int| 0 <= i < mat.cols() && i != c implies !#[trigger] f(i) by {
            assert(vbit(rec, i) == (i == c));
        }
        lemma_parity_sum_single(f, mat.cols(), c);
        assert(vbit(rec, c));
        mat.lemma_entry_in_range(r, c);
    }
}

/// Different numbers in `[0, n)` are at most `n`.
proof fn lemma_injective_bound(s: Seq<int>, n: int)
    requires
        n >= 0,
        forall|i: int| 0 <= i < s.len() ==> 0 <= #[trigger] s[i] < n,
        forall|i: int, j: int| 0 <= i < j < s.len() ==> s[i] != s[j],
    ensures
        s.len() <= n,
    decreases s.len(),
{
    if s.len() > 0 {
        if n <= 0 {
            assert(0 <= s[0] < n);
        } else {
            // Put n - 1 in place of the last term where n - 1 occurs before
            // it, and drop the last term.
            let last = s[s.len() - 1];
            let t = Seq::new(
                (s.len() - 1) as nat,
                |i: int|
                    if s[i] == n - 1 {
                        last
                    } else {
                        s[i]
                    },
            );
            assert forall|i: int| 0 <= i < t.len() implies 0 <= #[trigger] t[i] < n - 1 by {
                assert(0 <= s[i] < n);
                if s[i] == n - 1 {
                    assert(s[i] != s[s.len() - 1]);
                }
            }
            assert forall|i: int, j: int| 0 <= i < j < t.len() implies t[i] != t[j] by {
                assert(s[i] != s[j]);
                assert(s[i] != s[s.len() - 1]);
                assert(s[j] != s[s.len() - 1]);
            }
            assert(t.len() == s.len() - 1);
            lemma_injective_bound(t, n - 1);
            assert(t.len() <= n - 1);
        }
    }
}

/// What the elimination keeps of pivot `i`: a bit vector over the rows that
/// is the sum of the columns that its record selects, whose lowest one is
/// in the row `rows[i]`, which leads back to `i`; and the record selects no
/// column from `limit` on.
pub open spec fn pivot_at(
    mat: CscMatrix,
    vectors: Seq<Vec<u64>>,
    records: Seq<Vec<u64>>,
    rows: Seq<int>,
    pivot_of_row: Seq<usize>,
    row_words: int,
    col_words: int,
    limit: int,
    i: int,
) -> bool {
    &&& vectors[i]@.len() == row_words
    &&& records[i]@.len() == col_words
    &&& represents(mat, vectors[i]@, records[i]@)
    &&& 0 <= rows[i] < mat.rows()
    &&& vbit(vectors[i]@, rows[i])
    &&& forall|j: int| j < rows[i] ==> !#[trigger] vbit(vectors[i]@, j)
    &&& forall|x: int| x >= limit ==> !#[trigger] vbit(records[i]@, x)
    &&& pivot_of_row[rows[i]] == i
}

/// The pivots are as [`pivot_at`] says, and a row that leads to a pivot is
/// the row of that pivot.
pub open spec fn pivots_ok(
    mat: CscMatrix,
    vectors: Seq<Vec<u64>>,
    records: Seq<Vec<u64>>,
    rows: Seq<int>,
    pivot_of_row: Seq<usize>,
    row_words: int,
    col_words: int,
    limit: int,
) -> bool {
    &&& vectors.len() == records.len()
    &&& vectors.len() == rows.len()
    &&& pivot_of_row.len() == mat.rows()
    &&& forall|i: int|
        0 <= i < vectors.len() ==> #[trigger] pivot_at(
            mat,
            vectors,
            records,
            rows,
            pivot_of_row,
            row_words,
            col_words,
            limit,
            i,
        )
    &&& forall|r: int|
        0 <= r < mat.rows() && (#[trigger] pivot_of_row[r]) < vectors.len()
            ==> rows[pivot_of_row[r] as int] == r
    &&& forall|r: int|
        0 <= r < mat.rows() ==> (#[trigger] pivot_of_row[r]) < vectors.len() || pivot_of_row[r]
            == usize::MAX
}

/// Reduces the bit vector `v` against the pivots, adding to `record` what
/// was added to `v`. Returns `None` where `v` reduces to zero, and else the
/// row of the lowest one that is left, which leads to no pivot.
fn reduce(
    v: &mut Vec<u64>,
    record: &mut Vec<u64>,
    pivot_of_row: &Vec<usize>,
    pivot_vectors: &Vec<Vec<u64>>,
    pivot_records: &Vec<Vec<u64>>,
    Ghost(mat): Ghost<CscMatrix>,
    Ghost(pivot_rows): Ghost<Seq<int>>,
    Ghost(limit): Ghost<int>,
) -> (r: Option<usize>)
    requires
        mat.rows() <= usize::MAX - 64,
        old(v)@.len() == mat.rows() / 64 + 1,
        represents(mat, old(v)@, old(record)@),
        pivots_ok(
            mat,
            pivot_vectors@,
            pivot_records@,
            pivot_rows,
            pivot_of_row@,
            old(v)@.len() as int,
            old(record)@.len() as int,
            limit,
        ),
    ensures
        final(v)@.len() == old(v)@.len(),
        final(record)@.len() == old(record)@.len(),
        represents(mat, final(v)@, final(record)@),
        forall|x: int| x >= limit ==> #[trigger] vbit(final(record)@, x) == vbit(old(record)@, x),
        match r {
            Some(row) => {
                &&& row < mat.rows()
                &&& vbit(final(v)@, row as int)
                &&& forall|j: int| j < row ==> !#[trigger] vbit(final(v)@, j)
                &&& pivot_of_row@[row as int] >= pivot_vectors@.len()
            },
            None => forall|j: int| !#[trigger] vbit(final(v)@, j),
        },
{
    let ghost low: int = 0;
    let ghost record0 = record@;
    let ghost rw = v@.len() as int;
    let ghost cw = record@.len() as int;
    loop
        invariant
            mat.rows() <= usize::MAX - 64,
            v@.len() == rw,
            record@.len() == cw,
            rw == old(v)@.len(),
            cw == old(record)@.len(),
            record0 == old(record)@,
            rw == mat.rows() / 64 + 1,
            represents(mat, v@, record@),
            pivots_ok(mat, pivot_vectors@, pivot_records@, pivot_rows, pivot_of_row@, rw, cw, limit),
            forall|x: int| x >= limit ==> #[trigger] vbit(record@, x) == vbit(record0, x),
            0 <= low <= mat.rows(),
            forall|j: int| j < low ==> !#[trigger] vbit(v@, j),
        decreases mat.rows() - low,
    {
        match lowest_set_bit(v) {
            None => {
                return None;
            },
            Some(row) => {
                proof {
                    assert(vbit(v@, row as int));
                    assert(row >= low);
                }
                let idx = pivot_of_row[row];
                if idx < pivot_vectors.len() {
                    let ghost v_before = v@;
                    let ghost record_before = record@;
                    proof {
                        assert(pivot_at(
                            mat,
                            pivot_vectors@,
                            pivot_records@,
                            pivot_rows,
                            pivot_of_row@,
                            rw,
                            cw,
                            limit,
                            idx as int,
                        ));
                        assert(pivot_rows[idx as int] == row);
                    }
                    xor_into(v, &pivot_vectors[idx]);
                    xor_into(record, &pivot_records[idx]);
                    proof {
                        lemma_represents_sum(
                            mat,
                            v_before,
                            record_before,
                            pivot_vectors@[idx as int]@,
                            pivot_records@[idx as int]@,
                            v@,
                            record@,
                        );
                        assert forall|j: int| j < row + 1 implies !#[trigger] vbit(v@, j) by {
                            assert(vbit(v@, j) == (vbit(v_before, j) != vbit(
                                pivot_vectors@[idx as int]@,
                                j,
                            )));
                        }
                        assert forall|x: int| x >= limit implies #[trigger] vbit(record@, x)
                            == vbit(record0, x) by {
                            assert(vbit(record@, x) == (vbit(record_before, x) != vbit(
                                pivot_records@[idx as int]@,
                                x,
                            )));
                        }
                        low = row + 1;
                    }
                } else {
                    return Some(row);
                }
            },
        }
    }
}

/// What is kept of dependency `j`: a record of columns up to `columns[j]`,
/// that one among them, which add up to zero; and the columns of the
/// dependencies increase.
pub open spec fn dependency_at(
    mat: CscMatrix,
    records: Seq<Seq<u64>>,
    columns: Seq<int>,
    limit: int,
    j: int,
) -> bool {
    &&& 0 <= columns[j] < limit
    &&& vbit(records[j], columns[j])
    &&& forall|x: int| x > columns[j] ==> !#[trigger] vbit(records[j], x)
    &&& forall|r: int| 0 <= r < mat.rows() ==> !#[trigger] combination(mat, records[j], r)
    &&& forall|i: int| 0 <= i < j ==> #[trigger] columns[i] < columns[j]
}

/// Column `j` of `result` is record `j`, for the dependencies found so far,
/// and the other columns of `result` are zero.
pub open spec fn holds_records(result: Seq<u64>, records: Seq<Seq<u64>>, cols: int) -> bool {
    forall|c: int, j: int|
        0 <= c < cols && 0 <= j < 64 ==> #[trigger] bit(result[c], j) == (j < records.len()
            && vbit(records[j], c))
}

/// The product of the matrix with the records of dependencies vanishes.
proof fn lemma_records_in_kernel(
    mat: CscMatrix,
    result: Seq<u64>,
    records: Seq<Seq<u64>>,
    columns: Seq<int>,
    limit: int,
)
    requires
        result.len() == mat.cols(),
        records.len() == columns.len(),
        records.len() <= 64,
        holds_records(result, records, mat.cols() as int),
        forall|j: int|
            0 <= j < records.len() ==> #[trigger] dependency_at(mat, records, columns, limit, j),
        limit <= mat.cols(),
    ensures
        columns_in_kernel(mat, result, records.len() as int),
        forall|j: int| 0 <= j < records.len() ==> 0 <= #[trigger] columns[j] < mat.cols(),
        forall|j: int| 0 <= j < records.len() ==> #[trigger] leads(result, columns[j], j),
{
    assert forall|r: int, j: int| 0 <= r < mat.rows() && 0 <= j < records.len() implies !#[trigger] bit(
        xor_sum(mat.row_terms(result, r), mat.cols()),
        j,
    ) by {
        let f = mat.row_terms(result, r);
        lemma_bit_of_xor_sum(f, mat.cols(), j);
        let g = selected_terms(mat, records[j], r);
        assert forall|c: int| 0 <= c < mat.cols() implies #[trigger] bit_terms(f, j)(c) == g(
            c,
        ) by {
            lemma_bit_ops(0, 0, j);
            assert(bit(result[c], j) == (j < records.len() && vbit(records[j], c)));
        }
        lemma_parity_sum_congruent(bit_terms(f, j), g, mat.cols());
        assert(dependency_at(mat, records, columns, limit, j));
        assert(!combination(mat, records[j], r));
    }
    assert forall|j: int| 0 <= j < records.len() implies 0 <= #[trigger] columns[j]
        < mat.cols() by {
        assert(dependency_at(mat, records, columns, limit, j));
    }
    assert forall|j: int| 0 <= j < records.len() implies #[trigger] leads(
        result,
        columns[j],
        j,
    ) by {
        assert(dependency_at(mat, records, columns, limit, j));
        let c = columns[j];
        assert(bit(result[c], j) == (j < records.len() && vbit(records[j], c)));
        assert forall|i: int| 0 <= i < j implies !#[trigger] bit(result[c], i) by {
            assert(dependency_at(mat, records, columns, limit, i));
            assert(columns[i] < columns[j]);
            assert(bit(result[c], i) == (i < records.len() && vbit(records[i], c)));
        }
        assert(leads(result, c, j));
    }
}

/// Linear dependencies among the columns of `mat`: a dense matrix with one
/// row per column of `mat`, and the number `k <= 64` of its columns that are
/// in use. Each of the first `k` columns of the result selects columns of
/// `mat` that add up to zero, and has a one in a row where no column before
/// it has one, so that none of them is a sum of others. There are 64 of
/// them, or at least as many as `mat` has more columns than rows.
pub fn find_dependencies(mat: &CscMatrix) -> (r: (BlockMatrix, usize))
    requires
        mat.well_formed(),
        mat.rows() <= usize::MAX - 64,
        mat.cols() <= usize::MAX - 64,
    ensures
        r.0@.len() == mat.cols(),
        r.1 <= 64,
        columns_in_kernel(*mat, r.0@, r.1 as int),
        r.1 == 64 || r.1 + mat.rows() >= mat.cols(),
        forall|c: int, j: int|
            0 <= c < mat.cols() && r.1 <= j < 64 ==> !#[trigger] bit(r.0@[c], j),
        forall|j: int| 0 <= j < r.1 ==> #[trigger] has_leader(r.0@, mat.cols() as int, j),
{
    let cols = mat.num_cols();
    let rows = mat.num_rows();
    let row_words = rows / 64 + 1;
    let col_words = cols / 64 + 1;
    let mut pivot_of_row: Vec<usize> = vec![usize::MAX; rows];
    let mut pivot_vectors: Vec<Vec<u64>> = Vec::new();
    let mut pivot_records: Vec<Vec<u64>> = Vec::new();
    let mut result: Vec<u64> = vec![0u64; cols];
    let mut found: usize = 0;
    let mut c: usize = 0;
    let ghost pivot_rows: Seq<int> = Seq::empty();
    let ghost records: Seq<Seq<u64>> = Seq::empty();
    let ghost columns: Seq<int> = Seq::empty();
    proof {
        assert forall|col: int, j: int| 0 <= col < cols && 0 <= j < 64 implies #[trigger] bit(
            result@[col],
            j,
        ) == (j < records.len() && vbit(records[j], col)) by {
            lemma_bit_ops(0, 0, j);
        }
    }
    while c < cols && found < 64
        invariant
            c <= cols,
            found <= 64,
            cols == mat.cols(),
            rows == mat.rows(),
            cols <= usize::MAX - 64,
            rows <= usize::MAX - 64,
            row_words == rows / 64 + 1,
            col_words == cols / 64 + 1,
            mat.well_formed(),
            result@.len() == cols,
            pivots_ok(
                *mat,
                pivot_vectors@,
                pivot_records@,
                pivot_rows,
                pivot_of_row@,
                row_words as int,
                col_words as int,
                c as int,
            ),
            records.len() == found,
            columns.len() == found,
            forall|j: int|
                0 <= j < found ==> #[trigger] dependency_at(*mat, records, columns, c as int, j),
            holds_records(result@, records, cols as int),
            pivot_vectors@.len() + found == c,
        decreases cols - c,
    {
        let mut v = zero_words(row_words);
        let mut record = zero_words(col_words);
        mat.scatter_column(c, &mut v);
        set_bit(&mut record, c);
        proof {
            lemma_represents_column(*mat, v@, record@, c as int);
        }
        let ghost record_start = record@;
        let outcome = reduce(
            &mut v,
            &mut record,
            &pivot_of_row,
            &pivot_vectors,
            &pivot_records,
            Ghost(*mat),
            Ghost(pivot_rows),
            Ghost(c as int),
        );
        proof {
            assert(vbit(record@, c as int) == vbit(record_start, c as int));
            assert forall|x: int| x > c implies !#[trigger] vbit(record@, x) by {
                assert(vbit(record@, x) == vbit(record_start, x));
            }
        }
        match outcome {
            None => {
                let ghost result_before = result@;
                let mut j: usize = 0;
                while j < cols
                    invariant
                        j <= cols,
                        found < 64,
                        cols <= usize::MAX - 64,
                        col_words == cols / 64 + 1,
                        result@.len() == cols,
                        result_before.len() == cols,
                        record@.len() == col_words,
                        forall|col: int, t: int|
                            0 <= col < j && 0 <= t < 64 ==> #[trigger] bit(result@[col], t) == (
                            bit(result_before[col], t) || (t == found && vbit(record@, col))),
                        forall|col: int| j <= col < cols ==> #[trigger] result@[col]
                            == result_before[col],
                    decreases cols - j,
                {
                    let set = test_bit(&record, j);
                    let old_word = result[j];
                    let new_word = if set {
                        old_word | (1u64 << (found as u64))
                    } else {
                        old_word
                    };
                    proof {
                        assert forall|t: int| 0 <= t < 64 implies #[trigger] bit(new_word, t) == (
                        bit(old_word, t) || (t == found && vbit(record@, j as int))) by {
                            lemma_bit_ops(old_word, 1u64 << (found as u64), t);
                            lemma_one_shifted(found as int, t);
                        }
                    }
                    result.set(j, new_word);
                    j += 1;
                }
                proof {
                    let next_records = records.push(record@);
                    let next_columns = columns.push(c as int);
                    assert forall|col: int, t: int|
                        0 <= col < cols && 0 <= t < 64 implies #[trigger] bit(result@[col], t) == (t
                        < next_records.len() && vbit(next_records[t], col)) by {
                        assert(bit(result_before[col], t) == (t < records.len() && vbit(
                            records[t],
                            col,
                        )));
                        if t < found {
                            assert(next_records[t] == records[t]);
                        }
                    }
                    assert forall|t: int| 0 <= t < found + 1 implies #[trigger] dependency_at(
                        *mat,
                        next_records,
                        next_columns,
                        c + 1,
                        t,
                    ) by {
                        if t < found {
                            assert(dependency_at(*mat, records, columns, c as int, t));
                            assert(next_records[t] == records[t]);
                            assert(next_columns[t] == columns[t]);
                            assert forall|i: int| 0 <= i < t implies #[trigger] next_columns[i]
                                < next_columns[t] by {
                                assert(columns[i] < columns[t]);
                            }
                        } else {
                            assert forall|r: int| 0 <= r < mat.rows() implies !#[trigger] combination(
                                *mat,
                                next_records[t],
                                r,
                            ) by {
                                assert(!vbit(v@, r));
                            }
                            assert forall|i: int| 0 <= i < t implies #[trigger] next_columns[i]
                                < next_columns[t] by {
                                assert(dependency_at(*mat, records, columns, c as int, i));
                            }
                        }
                    }
                    assert forall|i: int| 0 <= i < pivot_vectors@.len() implies #[trigger] pivot_at(
                        *mat,
                        pivot_vectors@,
                        pivot_records@,
                        pivot_rows,
                        pivot_of_row@,
                        row_words as int,
                        col_words as int,
                        c + 1,
                        i,
                    ) by {
                        assert(pivot_at(
                            *mat,
                            pivot_vectors@,
                            pivot_records@,
                            pivot_rows,
                            pivot_of_row@,
                            row_words as int,
                            col_words as int,
                            c as int,
                            i,
                        ));
                    }
                    records = next_records;
                    columns = next_columns;
                }
                found += 1;
            },
            Some(row) => {
                let ghost old_vectors = pivot_vectors@;
                let ghost old_records = pivot_records@;
                let ghost old_rows = pivot_rows;
                let ghost old_map = pivot_of_row@;
                let index = pivot_vectors.len();
                pivot_of_row.set(row, index);
                pivot_vectors.push(v);
                pivot_records.push(record);
                proof {
                    pivot_rows = old_rows.push(row as int);
                    let n = old_vectors.len() as int;
                    assert(pivot_vectors@[n]@ == v@);
                    assert(pivot_records@[n]@ == record@);
                    assert forall|i: int| 0 <= i < pivot_vectors@.len() implies #[trigger] pivot_at(
                        *mat,
                        pivot_vectors@,
                        pivot_records@,
                        pivot_rows,
                        pivot_of_row@,
                        row_words as int,
                        col_words as int,
                        c + 1,
                        i,
                    ) by {
                        if i < n {
                            assert(pivot_at(
                                *mat,
                                old_vectors,
                                old_records,
                                old_rows,
                                old_map,
                                row_words as int,
                                col_words as int,
                                c as int,
                                i,
                            ));
                            assert(pivot_vectors@[i] == old_vectors[i]);
                            assert(pivot_records@[i] == old_records[i]);
                            assert(pivot_rows[i] == old_rows[i]);
                            assert(old_rows[i] != row);
                        }
                    }
                    assert forall|r: int|
                        0 <= r < mat.rows() && (#[trigger] pivot_of_row@[r])
                            < pivot_vectors@.len() implies pivot_rows[pivot_of_row@[r] as int]
                        == r by {
                        if r != row {
                            assert(pivot_of_row@[r] == old_map[r]);
                            assert(old_map[r] < n || old_map[r] == usize::MAX);
                            assert(old_rows[old_map[r] as int] == r);
                        }
                    }
                    assert forall|r: int| 0 <= r < mat.rows() implies (
                    #[trigger] pivot_of_row@[r]) < pivot_vectors@.len() || pivot_of_row@[r]
                        == usize::MAX by {
                        if r != row {
                            assert(pivot_of_row@[r] == old_map[r]);
                            assert(old_map[r] < n || old_map[r] == usize::MAX);
                        }
                    }
                    assert forall|t: int| 0 <= t < found implies #[trigger] dependency_at(
                        *mat,
                        records,
                        columns,
                        c + 1,
                        t,
                    ) by {
                        assert(dependency_at(*mat, records, columns, c as int, t));
                    }
                }
            },
        }
        c += 1;
    }
    proof {
        lemma_records_in_kernel(*mat, result@, records, columns, c as int);
        assert forall|i: int| 0 <= i < pivot_rows.len() implies 0 <= #[trigger] pivot_rows[i]
            < rows by {
            assert(pivot_at(
                *mat,
                pivot_vectors@,
                pivot_records@,
                pivot_rows,
                pivot_of_row@,
                row_words as int,
                col_words as int,
                c as int,
                i,
            ));
        }
        assert forall|i: int, j: int| 0 <= i < j < pivot_rows.len() implies pivot_rows[i]
            != pivot_rows[j] by {
            assert(pivot_at(
                *mat,
                pivot_vectors@,
                pivot_records@,
                pivot_rows,
                pivot_of_row@,
                row_words as int,
                col_words as int,
                c as int,
                i,
            ));
            assert(pivot_at(
                *mat,
                pivot_vectors@,
                pivot_records@,
                pivot_rows,
                pivot_of_row@,
                row_words as int,
                col_words as int,
                c as int,
                j,
            ));
        }
        lemma_injective_bound(pivot_rows, rows as int);
        assert forall|col: int, j: int| 0 <= col < cols && found <= j < 64 implies !#[trigger] bit(
            result@[col],
            j,
        ) by {
            assert(bit(result@[col], j) == (j < records.len() && vbit(records[j], col)));
        }
        assert forall|j: int| 0 <= j < found implies #[trigger] has_leader(
            result@,
            mat.cols() as int,
            j,
        ) by {
            assert(0 <= columns[j] < mat.cols() && leads(result@, columns[j], j));
        }
    }
    (BlockMatrix::from_vec(result), found)
}

/// Whether the product of `mat` with `m` vanishes in its first `k` columns.
pub fn check_dependencies(mat: &CscMatrix, m: &BlockMatrix, k: usize) -> (ok: bool)
    requires
        mat.well_formed(),
        m@.len() == mat.cols(),
        k <= 64,
    ensures
        ok == columns_in_kernel(*mat, m@, k as int),
{
    let product = mat.times(m);
    let n = product.len();
    let mut r: usize = 0;
    while r < n
        invariant
            r <= n,
            n == mat.rows(),
            k <= 64,
            mat.is_product(m@, product@),
            forall|i: int, j: int|
                0 <= i < r && 0 <= j < k ==> !#[trigger] bit(
                    xor_sum(mat.row_terms(m@, i), mat.cols()),
                    j,
                ),
        decreases n - r,
    {
        let x = product.row(r);
        assert(product@[r as int] == xor_sum(mat.row_terms(m@, r as int), mat.cols()));
        let mut j: usize = 0;
        while j < k
            invariant
                j <= k <= 64,
                r < n,
                n == mat.rows(),
                x == xor_sum(mat.row_terms(m@, r as int), mat.cols()),
                forall|t: int| 0 <= t < j ==> !#[trigger] bit(x, t),
            decreases k - j,
        {
            if (x >> j) & 1 == 1 {
                assert(bit(x, j as int));
                assert(bit(xor_sum(mat.row_terms(m@, r as int), mat.cols()), j as int));
                return false;
            }
            j += 1;
        }
        r += 1;
    }
    true
}

} // verus!
