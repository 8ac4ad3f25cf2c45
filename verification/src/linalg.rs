//! Matrices over GF(2): a dense matrix of 64 columns that keeps each row in
//! one word, a column-sparse matrix, and the products between them.

use crate::bits::{
    bit, bit_terms, bits_of, count_ones, lemma_bit_of_one, lemma_bit_of_xor_sum,
    lemma_bits_determine_word, lemma_one_shifted, vbit, lemma_bit_ops, lemma_no_high_bits, lemma_parity_sum_congruent,
    lemma_parity_word, lemma_placed_bit, lemma_popcount_parity, lemma_shift_walk, lemma_xor_laws,
    lemma_xor_sum_congruent, lemma_xor_sum_update, lemma_xor_sum_zero_tail, parity_sum, popcount,
    xor_sum,
};
use crate::random::Generator;
use vstd::prelude::*;

verus! {

/// The number of columns of a dense matrix: the bits of one word.
pub const N: usize = 64;

/// A dense binary matrix of 64 columns: row `i` is word `i`, and column `j`
/// of that row is bit `j` of the word.
pub struct BlockMatrix(Vec<u64>);

/// A view on the transpose of a dense matrix, for use as an operand of a product.
pub struct BlockMatrixTranspose<'a> {
    borrowed: &'a BlockMatrix,
}

impl View for BlockMatrix {
    type V = Seq<u64>;

    closed spec fn view(&self) -> Seq<u64> {
        self.0@
    }
}

impl<'a> BlockMatrixTranspose<'a> {
    /// The rows of the matrix whose transpose this is.
    pub closed spec fn rows(&self) -> Seq<u64> {
        self.borrowed@
    }

    /// The product `a^T * b`, where `a` is the matrix behind this view and `b`
    /// has as many rows as `a`.
    pub fn times(&self, b: &BlockMatrix) -> (res: BlockMatrix)
        requires
            self.rows().len() == b@.len(),
        ensures
            is_transpose_product(self.rows(), b@, res@),
    {
        let n = self.borrowed.0.len();
        let ghost a = self.rows();
        let mut res: Vec<u64> = vec![0; N];
        let mut i: usize = 0;
        while i < n
            invariant
                i <= n,
                n == a.len(),
                a == self.rows(),
                n == b@.len(),
                res@.len() == 64,
                forall|k: int|
                    0 <= k < 64 ==> #[trigger] res@[k] == xor_sum(column_terms(a, b@, k), i as nat),
            decreases n - i,
        {
            let w = self.borrowed.0[i];
            let mut x = w;
            let mut k: usize = 0;
            proof {
                lemma_shift_walk(w, 0);
            }
            while x != 0
                invariant
                    i < n,
                    k <= 64,
                    n == a.len(),
                    n == b@.len(),
                    w == a[i as int],
                    res@.len() == 64,
                    x == w >> (k as u64),
                    forall|c: int|
                        0 <= c < k ==> #[trigger] res@[c] == xor_sum(
                            column_terms(a, b@, c),
                            (i + 1) as nat,
                        ),
                    forall|c: int|
                        k <= c < 64 ==> #[trigger] res@[c] == xor_sum(
                            column_terms(a, b@, c),
                            i as nat,
                        ),
                decreases x,
            {
                proof {
                    if k < 64 {
                        lemma_shift_walk(w, k as int);
                    } else {
                        lemma_shift_walk(w, 0);
                    }
                    lemma_xor_laws(res@[k as int], 0, 0);
                }
                if x & 1 != 0 {
                    let y = res[k] ^ b.0[i];
                    res.set(k, y);
                }
                x >>= 1;
                k += 1;
            }
            proof {
                lemma_no_high_bits(w, k as int);
                assert forall|c: int| 0 <= c < 64 implies #[trigger] res@[c] == xor_sum(
                    column_terms(a, b@, c),
                    (i + 1) as nat,
                ) by {
                    if c >= k {
                        lemma_xor_laws(res@[c], 0, 0);
                    }
                }
            }
            i += 1;
        }
        BlockMatrix(res)
    }
}

/// The number of words that hold `n` bits.
pub open spec fn words_for(n: int) -> int {
    (n + 63) / 64
}

/// Row `j` of the explicit transpose: bit `t` of word `w` is entry `(64 w + t, j)`.
pub open spec fn is_transposed_row(rows: Seq<u64>, j: int, row: Seq<u64>) -> bool {
    &&& row.len() == words_for(rows.len() as int)
    &&& forall|w: int, t: int|
        0 <= w < row.len() && 0 <= t < 64 ==> #[trigger] bit(row[w], t) == (64 * w + t
            < rows.len() && bit(rows[64 * w + t], j))
}

/// The terms of row `x` times a matrix of 64 rows: row `k` where bit `k` of `x` is set.
pub open spec fn row_terms(x: u64, b: Seq<u64>) -> spec_fn(int) -> u64 {
    |k: int|
        if bit(x, k) {
            b[k]
        } else {
            0
        }
}

/// The terms of row `k` of `a^T b`: row `i` of `b` where entry `(i, k)` of `a` is set.
pub open spec fn column_terms(a: Seq<u64>, b: Seq<u64>, k: int) -> spec_fn(int) -> u64 {
    |i: int|
        if bit(a[i], k) {
            b[i]
        } else {
            0
        }
}

/// The products of corresponding entries of two rows.
pub open spec fn dot_terms(x: u64, y: u64) -> spec_fn(int) -> bool {
    |k: int| bit(x, k) && bit(y, k)
}

/// The inner product of two rows over GF(2).
pub open spec fn dot(x: u64, y: u64) -> bool {
    parity_sum(dot_terms(x, y), 64)
}

/// The inner product is the parity of the number of common set bits.
pub proof fn lemma_dot_is_parity(x: u64, y: u64)
    ensures
        dot(x, y) == (popcount(x & y) % 2 == 1),
{
    lemma_popcount_parity(x & y);
    assert forall|k: int| 0 <= k < 64 implies #[trigger] dot_terms(x, y)(k) == bits_of(x & y)(
        k,
    ) by {
        lemma_bit_ops(x, y, k);
    }
    lemma_parity_sum_congruent(dot_terms(x, y), bits_of(x & y), 64);
}

/// `a b` for a dense `a` and a `b` of 64 rows.
pub open spec fn is_product(a: Seq<u64>, b: Seq<u64>, res: Seq<u64>) -> bool {
    &&& res.len() == a.len()
    &&& forall|i: int| 0 <= i < a.len() ==> #[trigger] res[i] == xor_sum(row_terms(a[i], b), 64)
}

/// `a^T b` for dense `a` and `b` of as many rows.
pub open spec fn is_transpose_product(a: Seq<u64>, b: Seq<u64>, res: Seq<u64>) -> bool {
    &&& res.len() == 64
    &&& forall|k: int|
        0 <= k < 64 ==> #[trigger] res[k] == xor_sum(column_terms(a, b, k), a.len())
}

/// `a b^T` for a dense `a` and a `b` of 64 rows: entry `(i, j)` is the inner
/// product of row `i` of `a` and row `j` of `b`.
pub open spec fn is_product_with_transpose(a: Seq<u64>, b: Seq<u64>, res: Seq<u64>) -> bool {
    &&& res.len() == a.len()
    &&& forall|i: int, j: int|
        0 <= i < a.len() && 0 <= j < 64 ==> #[trigger] bit(res[i], j) == dot(a[i], b[j])
}

/// Entry `(i, j)` equals entry `(j, i)` throughout a matrix of 64 rows.
pub open spec fn symmetric(rows: Seq<u64>) -> bool {
    forall|i: int, j: int|
        0 <= i < 64 && 0 <= j < 64 ==> bit(#[trigger] rows[i], j) == bit(#[trigger] rows[j], i)
}

proof fn lemma_word_index(i: usize)
    by (bit_vector)
    ensures
        i & 63 == i % 64,
{
}

impl BlockMatrix {
    /// The matrix whose rows are the words of `x`.
    pub fn from_vec(x: Vec<u64>) -> (m: BlockMatrix)
        ensures
            m@ == x@,
    {
        BlockMatrix(x)
    }

    /// The matrix of `n` rows that are all `x`.
    pub fn filled(x: u64, n: usize) -> (m: BlockMatrix)
        ensures
            m@ == Seq::new(n as nat, |i: int| x),
    {
        let v = vec![x; n];
        assert(v@ =~= Seq::new(n as nat, |i: int| x));
        BlockMatrix(v)
    }

    /// A matrix of `n` rows drawn at random from a generator seeded afresh.
    pub fn new_random(n: usize) -> (m: BlockMatrix)
        ensures
            m@.len() == n,
    {
        let mut rng = Generator::new();
        BlockMatrix::new_random_with(n, &mut rng)
    }

    /// A matrix of `n` rows drawn at random from `rng`.
    pub fn new_random_with(n: usize, rng: &mut Generator) -> (m: BlockMatrix)
        ensures
            m@.len() == n,
    {
        BlockMatrix(rng.words(n))
    }

    /// The rows as a vector of words.
    pub fn as_vec(&self) -> (v: &Vec<u64>)
        ensures
            v@ == self@,
    {
        &self.0
    }

    /// The number of rows.
    pub fn len(&self) -> (n: usize)
        ensures
            n == self@.len(),
    {
        self.0.len()
    }

    /// Row `i`.
    pub fn row(&self, i: usize) -> (x: u64)
        requires
            i < self@.len(),
        ensures
            x == self@[i as int],
    {
        self.0[i]
    }

    /// Replaces row `i` by `x`.
    pub fn set_row(&mut self, i: usize, x: u64)
        requires
            i < old(self)@.len(),
        ensures
            final(self)@ == old(self)@.update(i as int, x),
    {
        self.0.set(i, x);
    }

    /// A view on the transpose, to be multiplied from either side.
    pub fn transpose(&self) -> (t: BlockMatrixTranspose<'_>)
        ensures
            t.rows() == self@,
    {
        BlockMatrixTranspose { borrowed: self }
    }

    /// The transpose written out: 64 rows, each packed into words of 64 bits.
    pub fn explicit_transpose(&self) -> (res: Vec<Vec<u64>>)
        ensures
            res@.len() == 64,
            forall|j: int| 0 <= j < 64 ==> is_transposed_row(self@, j, (#[trigger] res@[j])@),
    {
        let n = self.0.len();
        let n_words = n / N + (if n % N != 0 {
            1usize
        } else {
            0usize
        });
        let mut res: Vec<Vec<u64>> = Vec::new();
        let mut j: usize = 0;
        while j < N
            invariant
                j <= 64,
                n == self@.len(),
                n_words == words_for(n as int),
                res@.len() == j,
                forall|c: int| 0 <= c < j ==> is_transposed_row(self@, c, (#[trigger] res@[c])@),
            decreases 64 - j,
        {
            let mut row: Vec<u64> = vec![0; n_words];
            let mut i: usize = 0;
            proof {
                assert forall|w: int, t: int| 0 <= w < row@.len() && 0 <= t < 64 implies !bit(
                    row@[w],
                    t,
                ) by {
                    lemma_bit_ops(0, 0, t);
                }
            }
            while i < n
                invariant
                    j < 64,
                    i <= n,
                    n == self@.len(),
                    n_words == words_for(n as int),
                    row@.len() == n_words,
                    forall|w: int, t: int|
                        0 <= w < row@.len() && 0 <= t < 64 ==> #[trigger] bit(row@[w], t) == (64
                            * w + t < i && bit(self@[64 * w + t], j as int)),
                decreases n - i,
            {
                proof {
                    lemma_word_index(i);
                }
                let w0 = i / N;
                let t0 = i & (N - 1);
                let v = self.0[i] >> j;
                let old_word = row[w0];
                let new_word = old_word | ((v & 1) << t0);
                proof {
                    assert forall|w: int, t: int|
                        0 <= w < row@.len() && 0 <= t < 64 implies #[trigger] bit(
                        row@.update(w0 as int, new_word)[w],
                        t,
                    ) == (64 * w + t < i + 1 && bit(self@[64 * w + t], j as int)) by {
                        if w == w0 {
                            lemma_bit_ops(old_word, (v & 1) << (t0 as u64), t);
                            lemma_placed_bit(v, t0 as int, t);
                        } else {
                            assert(bit(row@[w], t) == (64 * w + t < i && bit(
                                self@[64 * w + t],
                                j as int,
                            )));
                        }
                    }
                }
                row.set(w0, new_word);
                i += 1;
            }
            res.push(row);
            j += 1;
        }
        res
    }

    /// The product `self * b` with a matrix `b` of 64 rows.
    pub fn times(&self, b: &BlockMatrix) -> (res: BlockMatrix)
        requires
            b@.len() == 64,
        ensures
            is_product(self@, b@, res@),
    {
        let n = self.0.len();
        let mut res: Vec<u64> = vec![0; n];
        let mut i: usize = 0;
        while i < n
            invariant
                i <= n,
                n == self@.len(),
                b@.len() == 64,
                res@.len() == n,
                forall|r: int| 0 <= r < i ==> #[trigger] res@[r] == xor_sum(row_terms(self@[r], b@), 64),
                forall|r: int| i <= r < n ==> #[trigger] res@[r] == 0,
            decreases n - i,
        {
            let w = self.0[i];
            let mut x = w;
            let mut k: usize = 0;
            let ghost before = res@;
            proof {
                lemma_shift_walk(w, 0);
            }
            while x != 0
                invariant
                    i < n,
                    k <= 64,
                    b@.len() == 64,
                    res@.len() == n,
                    x == w >> (k as u64),
                    res@[i as int] == xor_sum(row_terms(w, b@), k as nat),
                    before.len() == n,
                    forall|r: int| 0 <= r < n && r != i ==> #[trigger] res@[r] == before[r],
                decreases x,
            {
                proof {
                    if k < 64 {
                        lemma_shift_walk(w, k as int);
                    } else {
                        lemma_shift_walk(w, 0);
                    }
                    lemma_xor_laws(res@[i as int], 0, 0);
                }
                if x & 1 != 0 {
                    let y = res[i] ^ b.0[k];
                    res.set(i, y);
                }
                x >>= 1;
                k += 1;
            }
            proof {
                lemma_no_high_bits(w, k as int);
                lemma_xor_sum_zero_tail(row_terms(w, b@), k as nat, 64);
            }
            i += 1;
        }
        BlockMatrix(res)
    }

    /// The product `self * b^T` with the transpose of a matrix `b` of 64 rows.
    pub fn times_transpose(&self, b: &BlockMatrixTranspose) -> (res: BlockMatrix)
        requires
            b.rows().len() == 64,
        ensures
            is_product_with_transpose(self@, b.rows(), res@),
    {
        let n = self.0.len();
        let mut res: Vec<u64> = vec![0; n];
        let mut i: usize = 0;
        while i < n
            invariant
                i <= n,
                n == self@.len(),
                b.rows().len() == 64,
                res@.len() == n,
                forall|r: int, c: int|
                    0 <= r < i && 0 <= c < 64 ==> #[trigger] bit(res@[r], c) == dot(
                        self@[r],
                        b.rows()[c],
                    ),
                forall|r: int| i <= r < n ==> #[trigger] res@[r] == 0,
            decreases n - i,
        {
            let mut j: usize = 0;
            let ghost before = res@;
            proof {
                assert forall|t: int| 0 <= t < 64 implies !bit(res@[i as int], t) by {
                    lemma_bit_ops(0, 0, t);
                }
            }
            while j < N
                invariant
                    i < n,
                    j <= 64,
                    n == self@.len(),
                    b.rows().len() == 64,
                    res@.len() == n,
                    forall|t: int|
                        0 <= t < 64 ==> #[trigger] bit(res@[i as int], t) == (t < j && dot(
                            self@[i as int],
                            b.rows()[t],
                        )),
                    before.len() == n,
                    forall|r: int| 0 <= r < n && r != i ==> #[trigger] res@[r] == before[r],
                decreases 64 - j,
            {
                let count = count_ones(self.0[i] & b.borrowed.0[j]);
                let parity = (count & 1) as u64;
                let old_word = res[i];
                let new_word = old_word | (parity << j);
                proof {
                    lemma_parity_word(count);
                    lemma_dot_is_parity(self@[i as int], b.rows()[j as int]);
                    assert forall|t: int| 0 <= t < 64 implies #[trigger] bit(new_word, t) == (t < j
                        + 1 && dot(self@[i as int], b.rows()[t])) by {
                        lemma_bit_ops(old_word, parity << (j as u64), t);
                        lemma_placed_bit(parity, j as int, t);
                    }
                }
                res.set(i, new_word);
                j += 1;
            }
            i += 1;
        }
        BlockMatrix(res)
    }

    /// Whether a matrix of 64 rows equals its transpose.
    pub fn is_symmetric(&self) -> (r: bool)
        requires
            self@.len() == 64,
        ensures
            r == symmetric(self@),
    {
        let mut i: usize = 0;
        while i < N
            invariant
                i <= 64,
                self@.len() == 64,
                forall|r: int, c: int|
                    0 <= r < i && 0 <= c < 64 ==> bit(#[trigger] self@[r], c) == bit(
                        #[trigger] self@[c],
                        r,
                    ),
            decreases 64 - i,
        {
            let mut j: usize = 0;
            while j < N
                invariant
                    i < 64,
                    j <= 64,
                    self@.len() == 64,
                    forall|r: int, c: int|
                        0 <= r < i && 0 <= c < 64 ==> bit(#[trigger] self@[r], c) == bit(
                            #[trigger] self@[c],
                            r,
                        ),
                    forall|c: int|
                        0 <= c < j ==> bit(self@[i as int], c) == bit(#[trigger] self@[c], i as int),
                decreases 64 - j,
            {
                proof {
                    lemma_shift_walk(self@[i as int], j as int);
                    lemma_shift_walk(self@[j as int], i as int);
                }
                if (self.0[i] >> j) & 1 != (self.0[j] >> i) & 1 {
                    assert(bit(self@[i as int], j as int) != bit(self@[j as int], i as int));
                    return false;
                }
                j += 1;
            }
            i += 1;
        }
        true
    }
}


/// Whether `r` occurs an odd number of times among `entries[lo..hi]`.
pub open spec fn occurs_odd(entries: Seq<usize>, lo: int, hi: int, r: int) -> bool
    decreases hi - lo,
{
    if hi <= lo {
        false
    } else {
        occurs_odd(entries, lo, hi - 1, r) != (entries[hi - 1] == r)
    }
}

/// Where column `k` starts, given where the columns end.
pub open spec fn raw_start(ends: Seq<usize>, k: int) -> int {
    if k <= 0 {
        0
    } else {
        ends[k - 1] as int
    }
}

/// Column `k` of the parts of a matrix under construction holds between 1
/// and `max_ones` row indices, all different and all below `rows`.
pub open spec fn raw_column_ok(
    ends: Seq<usize>,
    entries: Seq<usize>,
    rows: usize,
    max_ones: usize,
    k: int,
) -> bool {
    &&& raw_start(ends, k) + 1 <= ends[k] <= raw_start(ends, k) + max_ones
    &&& ends[k] <= entries.len()
    &&& forall|t: int| raw_start(ends, k) <= t < ends[k] ==> #[trigger] entries[t] < rows
    &&& forall|s: int, t: int|
        raw_start(ends, k) <= s < t < ends[k] ==> #[trigger] entries[s] != #[trigger] entries[t]
}

/// A sparse binary matrix stored by columns: the row indices of the ones of
/// column `c` are `entries[ends[c - 1]..ends[c]]`, with 0 in place of `ends[-1]`.
pub struct CscMatrix {
    num_rows: usize,
    end: Vec<usize>,
    ones: Vec<usize>,
}

/// A view on the transpose of a sparse matrix, for use as the left operand
/// of a product.
pub struct CscMatrixTranspose<'a> {
    borrowed: &'a CscMatrix,
}

impl CscMatrix {
    /// The number of rows.
    pub closed spec fn rows(&self) -> nat {
        self.num_rows as nat
    }

    /// Where each column ends in `entries`.
    pub closed spec fn ends(&self) -> Seq<usize> {
        self.end@
    }

    /// The row indices of the ones, column after column.
    pub closed spec fn entries(&self) -> Seq<usize> {
        self.ones@
    }

    /// The number of columns.
    pub open spec fn cols(&self) -> nat {
        self.ends().len()
    }

    /// Where column `c` starts in `entries`.
    pub open spec fn col_start(&self, c: int) -> int {
        if c <= 0 {
            0
        } else {
            self.ends()[c - 1] as int
        }
    }

    /// Column `c` is a range of `entries` that starts where column `c - 1`
    /// ends, and each of its row indices is a row of the matrix.
    pub open spec fn column_ok(&self, c: int) -> bool {
        &&& self.col_start(c) <= self.ends()[c] <= self.entries().len()
        &&& forall|j: int|
            self.col_start(c) <= j < self.ends()[c] ==> #[trigger] self.entries()[j] < self.rows()
    }

    /// Every column is as [`CscMatrix::column_ok`] says.
    pub open spec fn well_formed(&self) -> bool {
        forall|c: int| 0 <= c < self.cols() ==> #[trigger] self.column_ok(c)
    }

    /// Entry `(r, c)` over GF(2): whether `r` is listed an odd number of times
    /// in column `c`. Where the indices of a column are distinct, this is
    /// whether `r` is listed.
    pub open spec fn entry(&self, r: int, c: int) -> bool {
        0 <= c < self.cols() && occurs_odd(self.entries(), self.col_start(c), self.ends()[c] as int, r)
    }

    /// The terms of row `r` of `self * b`: row `c` of `b` where entry `(r, c)` is set.
    pub open spec fn row_terms(&self, b: Seq<u64>, r: int) -> spec_fn(int) -> u64 {
        |c: int|
            if self.entry(r, c) {
                b[c]
            } else {
                0
            }
    }

    /// The terms of row `c` of `self^T * b`: row `r` of `b` where entry `(r, c)` is set.
    pub open spec fn column_terms(&self, b: Seq<u64>, c: int) -> spec_fn(int) -> u64 {
        |r: int|
            if self.entry(r, c) {
                b[r]
            } else {
                0
            }
    }

    /// `res` is the product `self * b` over GF(2).
    pub open spec fn is_product(&self, b: Seq<u64>, res: Seq<u64>) -> bool {
        &&& res.len() == self.rows()
        &&& forall|r: int|
            0 <= r < self.rows() ==> #[trigger] res[r] == xor_sum(self.row_terms(b, r), self.cols())
    }

    /// `res` is the product `self^T * b` over GF(2).
    pub open spec fn is_transpose_product(&self, b: Seq<u64>, res: Seq<u64>) -> bool {
        &&& res.len() == self.cols()
        &&& forall|c: int|
            0 <= c < self.cols() ==> #[trigger] res[c] == xor_sum(
                self.column_terms(b, c),
                self.rows(),
            )
    }

    /// A matrix from its three parts, taken as they are.
    pub fn new(num_rows: usize, end: Vec<usize>, ones: Vec<usize>) -> (m: CscMatrix)
        ensures
            m.rows() == num_rows,
            m.ends() == end@,
            m.entries() == ones@,
    {
        CscMatrix { num_rows, end, ones }
    }

    /// The row indices of column `c`.
    pub open spec fn column(&self, c: int) -> Seq<usize> {
        self.entries().subrange(self.col_start(c), self.ends()[c] as int)
    }

    /// No row index occurs twice in a column.
    pub open spec fn distinct_columns(&self) -> bool {
        forall|c: int, i: int, j: int|
            0 <= c < self.cols() && 0 <= i < j < self.column(c).len() ==> #[trigger] self.column(
                c,
            )[i] != #[trigger] self.column(c)[j]
    }

    /// A matrix of `num_cols` columns and `num_rows` rows with ones at random
    /// places, drawn from a generator seeded afresh; see
    /// [`CscMatrix::new_random_with`].
    pub fn new_random(num_cols: usize, num_rows: usize, max_ones: usize) -> (m: CscMatrix)
        requires
            1 <= max_ones <= num_rows,
            max_ones < usize::MAX,
        ensures
            m.rows() == num_rows,
            m.cols() == num_cols,
            m.well_formed(),
            m.distinct_columns(),
            forall|c: int| 0 <= c < num_cols ==> 1 <= (#[trigger] m.column(c)).len() <= max_ones,
    {
        let mut rng = Generator::new();
        CscMatrix::new_random_with(num_cols, num_rows, max_ones, &mut rng)
    }

    /// A matrix of `num_cols` columns and `num_rows` rows with ones at random
    /// places: each column gets a random number of them, from 1 to
    /// `max_ones`, in rows drawn at random without repetition.
    pub fn new_random_with(
        num_cols: usize,
        num_rows: usize,
        max_ones: usize,
        rng: &mut Generator,
    ) -> (m: CscMatrix)
        requires
            1 <= max_ones <= num_rows,
            max_ones < usize::MAX,
        ensures
            m.rows() == num_rows,
            m.cols() == num_cols,
            m.well_formed(),
            m.distinct_columns(),
            forall|c: int| 0 <= c < num_cols ==> 1 <= (#[trigger] m.column(c)).len() <= max_ones,
    {
        let mut end: Vec<usize> = Vec::new();
        let mut ones: Vec<usize> = Vec::new();
        let mut used: Vec<bool> = vec![false; num_rows];
        let mut c: usize = 0;
        while c < num_cols
            invariant
                c <= num_cols,
                1 <= max_ones <= num_rows,
                max_ones < usize::MAX,
                end@.len() == c,
                used@.len() == num_rows,
                forall|r: int| 0 <= r < num_rows ==> !#[trigger] used@[r],
                raw_start(end@, c as int) == ones@.len(),
                forall|k: int| 0 <= k < c ==> #[trigger] raw_column_ok(end@, ones@, num_rows, max_ones, k),
            decreases num_cols - c,
        {
            let weight = rng.in_range(1, (max_ones as u64) + 1) as usize;
            let start = ones.len();
            let ghost old_ones = ones@;
            let ghost old_end = end@;
            let mut placed: usize = 0;
            let mut full = false;
            while placed < weight && !full
                invariant
                    placed <= weight <= max_ones <= num_rows,
                    used@.len() == num_rows,
                    ones@.len() == start + placed,
                    ones@.subrange(0, start as int) == old_ones,
                    forall|i: int| start <= i < ones@.len() ==> #[trigger] ones@[i] < num_rows,
                    forall|i: int| start <= i < ones@.len() ==> used@[#[trigger] ones@[i] as int],
                    forall|r: int|
                        0 <= r < num_rows && #[trigger] used@[r] ==> exists|i: int|
                            start <= i < ones@.len() && ones@[i] == r,
                    forall|i: int, j: int|
                        start <= i < j < ones@.len() ==> #[trigger] ones@[i] != #[trigger] ones@[j],
                    full ==> placed >= 1,
                decreases weight - placed, !full as int,
            {
                let mut x = rng.in_range(0, num_rows as u64) as usize;
                let mut draws: usize = 0;
                while used[x] && draws < 64
                    invariant
                        x < num_rows,
                        used@.len() == num_rows,
                    decreases 64 - draws,
                {
                    x = rng.in_range(0, num_rows as u64) as usize;
                    draws += 1;
                }
                if used[x] {
                    x = 0;
                    while x < num_rows && used[x]
                        invariant
                            x <= num_rows,
                            used@.len() == num_rows,
                            forall|r: int| 0 <= r < x ==> #[trigger] used@[r],
                        decreases num_rows - x,
                    {
                        x += 1;
                    }
                }
                if x < num_rows {
                    let ghost before_ones = ones@;
                    let ghost before_used = used@;
                    ones.push(x);
                    used.set(x, true);
                    placed += 1;
                    proof {
                        assert(ones@.subrange(0, start as int) =~= old_ones);
                        assert forall|r: int| 0 <= r < num_rows && #[trigger] used@[r] implies exists|
                            i: int,
                        | start <= i < ones@.len() && ones@[i] == r by {
                            if r == x {
                                assert(ones@[before_ones.len() as int] == x);
                            } else {
                                assert(before_used[r]);
                                let i = choose|i: int|
                                    start <= i < before_ones.len() && before_ones[i] == r;
                                assert(ones@[i] == r);
                            }
                        }
                        assert forall|i: int, j: int| start <= i < j < ones@.len() implies (
                        #[trigger] ones@[i]) != (#[trigger] ones@[j]) by {
                            if j == before_ones.len() {
                                assert(before_used[before_ones[i] as int]);
                            } else {
                                assert(before_ones[i] != before_ones[j]);
                            }
                        }
                    }
                } else {
                    proof {
                        if placed == 0 {
                            assert(used@[0]);
                            let i = choose|i: int| start <= i < ones@.len() && ones@[i] == 0;
                            assert(false);
                        }
                    }
                    full = true;
                }
            }
            assert(1 <= placed <= max_ones);
            end.push(ones.len());
            let ghost column_ones = ones@;
            let mut i: usize = 0;
            while i < placed
                invariant
                    i <= placed,
                    ones@ == column_ones,
                    forall|a: int, b: int|
                        start <= a < b < ones@.len() ==> #[trigger] ones@[a] != #[trigger] ones@[b],
                    ones@.len() == start + placed,
                    used@.len() == num_rows,
                    forall|k: int| start <= k < ones@.len() ==> #[trigger] ones@[k] < num_rows,
                    forall|r: int|
                        0 <= r < num_rows && #[trigger] used@[r] ==> exists|k: int|
                            start <= k < ones@.len() - i && ones@[k] == r,
                decreases placed - i,
            {
                let row = ones[ones.len() - i - 1];
                let ghost before_used = used@;
                used.set(row, false);
                proof {
                    assert forall|r: int| 0 <= r < num_rows && #[trigger] used@[r] implies exists|
                        k: int,
                    | start <= k < ones@.len() - (i + 1) && ones@[k] == r by {
                        assert(before_used[r]);
                        let k = choose|k: int| start <= k < ones@.len() - i && ones@[k] == r;
                        assert(k != ones@.len() - i - 1);
                    }
                }
                i += 1;
            }
            proof {
                assert forall|r: int| 0 <= r < num_rows implies !#[trigger] used@[r] by {
                    if used@[r] {
                        let k = choose|k: int| start <= k < ones@.len() - placed && ones@[k] == r;
                    }
                }
                assert forall|k: int| 0 <= k < c + 1 implies #[trigger] raw_column_ok(
                    end@,
                    ones@,
                    num_rows,
                    max_ones,
                    k,
                ) by {
                    assert(end@ =~= old_end.push(ones@.len() as usize));
                    if k < c {
                        assert(raw_column_ok(old_end, old_ones, num_rows, max_ones, k));
                        assert(end@[k] == old_end[k]);
                        assert(raw_start(end@, k) == raw_start(old_end, k));
                        assert(old_end[k] <= old_ones.len());
                        assert forall|t: int| raw_start(end@, k) <= t < end@[k] implies #[trigger] ones@[t]
                            < num_rows by {
                            assert(ones@.subrange(0, start as int)[t] == ones@[t]);
                            assert(old_ones[t] < num_rows);
                        }
                        assert forall|a: int, b: int|
                            raw_start(end@, k) <= a < b < end@[k] implies #[trigger] ones@[a]
                            != #[trigger] ones@[b] by {
                            assert(ones@.subrange(0, start as int)[a] == ones@[a]);
                            assert(ones@.subrange(0, start as int)[b] == ones@[b]);
                            assert(old_ones[a] != old_ones[b]);
                        }
                    } else {
                        assert(raw_start(end@, k) == raw_start(old_end, c as int));
                        assert(raw_start(end@, k) == start);
                        assert(end@[k] == start + placed);
                    }
                }
            }
            c += 1;
        }
        let m = CscMatrix { num_rows, end, ones };
        proof {
            assert forall|k: int| 0 <= k < m.cols() implies #[trigger] m.column_ok(k) by {
                assert(raw_column_ok(m.ends(), m.entries(), num_rows, max_ones, k));
                assert(m.col_start(k) == raw_start(m.ends(), k));
            }
            assert forall|k: int| 0 <= k < num_cols implies 1 <= (#[trigger] m.column(k)).len()
                <= max_ones by {
                assert(raw_column_ok(m.ends(), m.entries(), num_rows, max_ones, k));
                assert(m.col_start(k) == raw_start(m.ends(), k));
            }
            assert forall|k: int, i: int, j: int|
                0 <= k < m.cols() && 0 <= i < j < m.column(k).len() implies #[trigger] m.column(
                k,
            )[i] != #[trigger] m.column(k)[j] by {
                assert(raw_column_ok(m.ends(), m.entries(), num_rows, max_ones, k));
                assert(m.col_start(k) == raw_start(m.ends(), k));
                let a = m.col_start(k);
                assert(m.column(k)[i] == m.entries()[a + i]);
                assert(m.column(k)[j] == m.entries()[a + j]);
            }
        }
        m
    }

    /// The number of columns.
    pub fn num_cols(&self) -> (n: usize)
        ensures
            n == self.cols(),
    {
        self.end.len()
    }

    /// The number of rows.
    pub fn num_rows(&self) -> (n: usize)
        ensures
            n == self.rows(),
    {
        self.num_rows
    }

    /// Whether the parts fit together; see [`CscMatrix::well_formed`].
    pub fn is_well_formed(&self) -> (ok: bool)
        ensures
            ok == self.well_formed(),
    {
        let n = self.end.len();
        let mut start: usize = 0;
        let mut c: usize = 0;
        while c < n
            invariant
                c <= n,
                n == self.cols(),
                start == self.col_start(c as int),
                forall|k: int| 0 <= k < c ==> #[trigger] self.column_ok(k),
            decreases n - c,
        {
            let stop = self.end[c];
            if stop < start || stop > self.ones.len() {
                assert(!self.column_ok(c as int));
                return false;
            }
            let mut j: usize = start;
            while j < stop
                invariant
                    c < n,
                    n == self.cols(),
                    start == self.col_start(c as int),
                    stop == self.ends()[c as int],
                    start <= j <= stop <= self.entries().len(),
                    forall|t: int| start <= t < j ==> #[trigger] self.entries()[t] < self.rows(),
                decreases stop - j,
            {
                if self.ones[j] >= self.num_rows {
                    assert(!self.column_ok(c as int));
                    return false;
                }
                j += 1;
            }
            assert(self.column_ok(c as int));
            start = stop;
            c += 1;
        }
        true
    }

    /// The product `self * b` with a dense matrix of as many rows as `self`
    /// has columns.
    pub fn times(&self, b: &BlockMatrix) -> (res: BlockMatrix)
        requires
            self.well_formed(),
            b@.len() == self.cols(),
        ensures
            self.is_product(b@, res@),
    {
        let n = self.end.len();
        let m = self.num_rows;
        let mut res: Vec<u64> = vec![0; m];
        let mut j: usize = 0;
        let mut i: usize = 0;
        while i < n
            invariant
                i <= n,
                n == self.cols(),
                m == self.rows(),
                self.well_formed(),
                b@.len() == n,
                res@.len() == m,
                j == self.col_start(i as int),
                forall|r: int|
                    0 <= r < m ==> #[trigger] res@[r] == xor_sum(self.row_terms(b@, r), i as nat),
            decreases n - i,
        {
            let ghost lo = j as int;
            assert(self.column_ok(i as int));
            let stop = self.end[i];
            let v = b.0[i];
            proof {
                assert forall|r: int| 0 <= r < m implies #[trigger] res@[r] == xor_sum(
                    self.row_terms(b@, r),
                    i as nat,
                ) ^ (if occurs_odd(self.entries(), lo, j as int, r) {
                    v
                } else {
                    0
                }) by {
                    lemma_xor_laws(res@[r], 0, 0);
                }
            }
            while j < stop
                invariant
                    i < n,
                    n == self.cols(),
                    m == self.rows(),
                    self.column_ok(i as int),
                    res@.len() == m,
                    lo == self.col_start(i as int),
                    stop == self.ends()[i as int],
                    lo <= j <= stop,
                    b@.len() == n,
                    v == b@[i as int],
                    forall|r: int|
                        0 <= r < m ==> #[trigger] res@[r] == xor_sum(
                            self.row_terms(b@, r),
                            i as nat,
                        ) ^ (if occurs_odd(self.entries(), lo, j as int, r) {
                            v
                        } else {
                            0
                        }),
                decreases stop - j,
            {
                let q = self.ones[j];
                let ghost before = res@;
                let y = res[q] ^ v;
                res.set(q, y);
                proof {
                    assert forall|r: int| 0 <= r < m implies #[trigger] res@[r] == xor_sum(
                        self.row_terms(b@, r),
                        i as nat,
                    ) ^ (if occurs_odd(self.entries(), lo, j + 1, r) {
                        v
                    } else {
                        0
                    }) by {
                        let s = xor_sum(self.row_terms(b@, r), i as nat);
                        assert(before[r] == s ^ (if occurs_odd(self.entries(), lo, j as int, r) {
                            v
                        } else {
                            0
                        }));
                        if r == q {
                            lemma_xor_laws(s, v, v);
                            lemma_xor_laws(v, v, v);
                        }
                    }
                }
                j += 1;
            }
            proof {
                assert forall|r: int| 0 <= r < m implies #[trigger] res@[r] == xor_sum(
                    self.row_terms(b@, r),
                    (i + 1) as nat,
                ) by {
                    assert(self.row_terms(b@, r)(i as int) == (if self.entry(r, i as int) {
                        v
                    } else {
                        0
                    }));
                }
            }
            i += 1;
        }
        BlockMatrix(res)
    }

    /// Where the row indices of a column are all different, an entry is set
    /// exactly if its row is listed in the column.
    pub proof fn lemma_entry_of_distinct_column(&self, r: int, c: int)
        requires
            self.well_formed(),
            self.distinct_columns(),
            0 <= c < self.cols(),
        ensures
            self.entry(r, c) <==> self.column(c).contains(r as usize) && 0 <= r < self.rows(),
    {
        assert(self.column_ok(c));
        let lo = self.col_start(c);
        let hi = self.ends()[c] as int;
        self.lemma_occurs_of_distinct(lo, hi, r, c);
        self.lemma_entry_in_range(r, c);
        let col = self.column(c);
        if col.contains(r as usize) && 0 <= r < self.rows() {
            let i = choose|i: int| 0 <= i < col.len() && col[i] == r as usize;
            assert(self.entries()[lo + i] == r);
        }
        if self.entry(r, c) {
            let j = choose|j: int| lo <= j < hi && self.entries()[j] == r;
            assert(col[j - lo] == r as usize);
        }
    }

    proof fn lemma_occurs_of_distinct(&self, lo: int, hi: int, r: int, c: int)
        requires
            0 <= c < self.cols(),
            self.column_ok(c),
            self.distinct_columns(),
            lo == self.col_start(c),
            lo <= hi <= self.ends()[c],
        ensures
            occurs_odd(self.entries(), lo, hi, r) <==> exists|j: int|
                lo <= j < hi && self.entries()[j] == r,
        decreases hi - lo,
    {
        if hi > lo {
            self.lemma_occurs_of_distinct(lo, hi - 1, r, c);
            if self.entries()[hi - 1] == r {
                if exists|j: int| lo <= j < hi - 1 && self.entries()[j] == r {
                    let j = choose|j: int| lo <= j < hi - 1 && self.entries()[j] == r;
                    let col = self.column(c);
                    assert(col[j - lo] == self.entries()[j]);
                    assert(col[hi - 1 - lo] == self.entries()[hi - 1]);
                    assert(col[j - lo] != col[hi - 1 - lo]);
                }
            } else {
                if exists|j: int| lo <= j < hi && self.entries()[j] == r {
                    let j = choose|j: int| lo <= j < hi && self.entries()[j] == r;
                    assert(j < hi - 1);
                }
            }
        }
    }

    /// An entry that is set lies in a row of the matrix.
    pub proof fn lemma_entry_in_range(&self, r: int, c: int)
        requires
            self.well_formed(),
        ensures
            self.entry(r, c) ==> 0 <= r < self.rows(),
    {
        if 0 <= c < self.cols() {
            assert(self.column_ok(c));
            self.lemma_occurs_in_range(self.col_start(c), self.ends()[c] as int, r, c);
        }
    }

    proof fn lemma_occurs_in_range(&self, lo: int, hi: int, r: int, c: int)
        requires
            0 <= c < self.cols(),
            self.column_ok(c),
            self.col_start(c) <= lo,
            hi <= self.ends()[c],
        ensures
            occurs_odd(self.entries(), lo, hi, r) ==> 0 <= r < self.rows(),
        decreases hi - lo,
    {
        if hi > lo {
            self.lemma_occurs_in_range(lo, hi - 1, r, c);
            assert(self.entries()[hi - 1] < self.rows());
        }
    }

    /// Adds column `c` into the bit vector `v`, which has a bit for every row.
    pub fn scatter_column(&self, c: usize, v: &mut Vec<u64>)
        requires
            self.well_formed(),
            c < self.cols(),
            self.rows() <= 64 * old(v)@.len(),
        ensures
            final(v)@.len() == old(v)@.len(),
            forall|r: int|
                #[trigger] vbit(final(v)@, r) == (vbit(old(v)@, r) != self.entry(r, c as int)),
    {
        assert(self.column_ok(c as int));
        let start = if c == 0 {
            0
        } else {
            self.end[c - 1]
        };
        let stop = self.end[c];
        let ghost before = v@;
        let mut j = start;
        while j < stop
            invariant
                start <= j <= stop,
                c < self.cols(),
                self.column_ok(c as int),
                start == self.col_start(c as int),
                stop == self.ends()[c as int],
                v@.len() == before.len(),
                self.rows() <= 64 * v@.len(),
                forall|r: int|
                    #[trigger] vbit(v@, r) == (vbit(before, r) != occurs_odd(
                        self.entries(),
                        start as int,
                        j as int,
                        r,
                    )),
            decreases stop - j,
        {
            let row = self.ones[j];
            assert(self.entries()[j as int] < self.rows());
            let w = row / 64;
            let one = 1u64 << ((row % 64) as u64);
            let ghost prev = v@;
            let y = v[w] ^ one;
            v.set(w, y);
            proof {
                assert forall|r: int| #[trigger] vbit(v@, r) == (vbit(before, r) != occurs_odd(
                    self.entries(),
                    start as int,
                    j + 1,
                    r,
                )) by {
                    assert(vbit(prev, r) == (vbit(before, r) != occurs_odd(
                        self.entries(),
                        start as int,
                        j as int,
                        r,
                    )));
                    if 0 <= r < 64 * prev.len() {
                        if r / 64 == w {
                            lemma_bit_ops(prev[w as int], one, r % 64);
                            lemma_one_shifted((row % 64) as int, r % 64);
                        } else {
                            assert(v@[r / 64] == prev[r / 64]);
                        }
                    }
                }
            }
            j += 1;
        }
    }

    /// A view on the transpose, to be multiplied with a dense matrix.
    pub fn transpose(&self) -> (t: CscMatrixTranspose<'_>)
        ensures
            *t.matrix() == *self,
    {
        CscMatrixTranspose { borrowed: self }
    }
}

/// The terms of the sum over the rows that `entries[lo..hi]` stands for.
pub open spec fn listed_terms(entries: Seq<usize>, lo: int, hi: int, b: Seq<u64>) -> spec_fn(
    int,
) -> u64 {
    |r: int|
        if occurs_odd(entries, lo, hi, r) {
            b[r]
        } else {
            0
        }
}

impl<'a> CscMatrixTranspose<'a> {
    /// The matrix whose transpose this is.
    pub closed spec fn matrix(&self) -> &CscMatrix {
        self.borrowed
    }

    /// The product `m^T * b`, where `m` is the matrix behind this view and `b`
    /// has as many rows as `m`.
    pub fn times(&self, b: &BlockMatrix) -> (res: BlockMatrix)
        requires
            self.matrix().well_formed(),
            b@.len() == self.matrix().rows(),
        ensures
            self.matrix().is_transpose_product(b@, res@),
    {
        let mat = self.borrowed;
        let n = mat.end.len();
        let m = mat.num_rows;
        let mut res: Vec<u64> = vec![0; n];
        let mut j: usize = 0;
        let mut i: usize = 0;
        while i < n
            invariant
                i <= n,
                n == mat.cols(),
                m == mat.rows(),
                mat.well_formed(),
                b@.len() == m,
                res@.len() == n,
                j == mat.col_start(i as int),
                forall|c: int|
                    0 <= c < i ==> #[trigger] res@[c] == xor_sum(mat.column_terms(b@, c), m as nat),
                forall|c: int| i <= c < n ==> #[trigger] res@[c] == 0,
            decreases n - i,
        {
            let ghost lo = j as int;
            assert(mat.column_ok(i as int));
            let stop = mat.end[i];
            proof {
                lemma_xor_sum_zero_tail(listed_terms(mat.entries(), lo, lo, b@), 0, m as nat);
            }
            while j < stop
                invariant
                    i < n,
                    n == mat.cols(),
                    m == mat.rows(),
                    mat.column_ok(i as int),
                    b@.len() == m,
                    res@.len() == n,
                    lo == mat.col_start(i as int),
                    stop == mat.ends()[i as int],
                    lo <= j <= stop,
                    res@[i as int] == xor_sum(
                        listed_terms(mat.entries(), lo, j as int, b@),
                        m as nat,
                    ),
                    forall|c: int|
                        0 <= c < i ==> #[trigger] res@[c] == xor_sum(
                            mat.column_terms(b@, c),
                            m as nat,
                        ),
                    forall|c: int| i < c < n ==> #[trigger] res@[c] == 0,
                decreases stop - j,
            {
                let q = mat.ones[j];
                let v = b.0[q];
                let y = res[i] ^ v;
                proof {
                    let f = listed_terms(mat.entries(), lo, j as int, b@);
                    let g = listed_terms(mat.entries(), lo, j + 1, b@);
                    lemma_xor_laws(v, 0, v);
                    assert(g(q as int) == f(q as int) ^ v);
                    assert forall|r: int| 0 <= r < m && r != q implies #[trigger] g(r) == f(r) by {}
                    lemma_xor_sum_update(f, g, m as nat, q as int, v);
                }
                res.set(i, y);
                j += 1;
            }
            proof {
                let f = listed_terms(mat.entries(), lo, j as int, b@);
                let g = mat.column_terms(b@, i as int);
                assert forall|r: int| 0 <= r < m implies #[trigger] f(r) == g(r) by {}
                lemma_xor_sum_congruent(f, g, m as nat);
            }
            i += 1;
        }
        BlockMatrix(res)
    }
}

/// Collects the columns of a sparse matrix one at a time.
pub struct CscMatrixBuilder {
    num_rows: usize,
    end: Vec<usize>,
    ones: Vec<usize>,
}

impl CscMatrixBuilder {
    /// The number of rows that the matrix will have.
    pub closed spec fn rows(&self) -> nat {
        self.num_rows as nat
    }

    /// Where each column added so far ends in `entries`.
    pub closed spec fn ends(&self) -> Seq<usize> {
        self.end@
    }

    /// The row indices added so far, column after column.
    pub closed spec fn entries(&self) -> Seq<usize> {
        self.ones@
    }

    /// The number of columns added so far.
    pub open spec fn cols(&self) -> nat {
        self.ends().len()
    }

    /// Where column `c` starts in `entries`.
    pub open spec fn col_start(&self, c: int) -> int {
        if c <= 0 {
            0
        } else {
            self.ends()[c - 1] as int
        }
    }

    /// The row indices of column `c`.
    pub open spec fn column(&self, c: int) -> Seq<usize> {
        self.entries().subrange(self.col_start(c), self.ends()[c] as int)
    }

    /// The columns follow one another in `entries` and fill it.
    pub open spec fn well_formed(&self) -> bool {
        &&& forall|c: int|
            0 <= c < self.cols() ==> self.col_start(c) <= #[trigger] self.ends()[c]
                <= self.entries().len()
        &&& self.col_start(self.cols() as int) == self.entries().len()
    }

    /// A builder without columns and with zero rows.
    pub fn new() -> (b: CscMatrixBuilder)
        ensures
            b.rows() == 0,
            b.cols() == 0,
            b.entries() == Seq::<usize>::empty(),
            b.well_formed(),
    {
        CscMatrixBuilder { num_rows: 0, end: Vec::new(), ones: Vec::new() }
    }

    /// Adds a column with ones in the rows `ones_pos`.
    pub fn add_col(&mut self, ones_pos: Vec<usize>)
        requires
            old(self).well_formed(),
        ensures
            final(self).well_formed(),
            final(self).rows() == old(self).rows(),
            final(self).cols() == old(self).cols() + 1,
            final(self).entries() == old(self).entries() + ones_pos@,
            final(self).ends() == old(self).ends().push(final(self).entries().len() as usize),
            final(self).column(old(self).cols() as int) == ones_pos@,
            forall|c: int|
                0 <= c < old(self).cols() ==> #[trigger] final(self).column(c) == old(self).column(
                    c,
                ),
    {
        let ghost before = *self;
        let mut ones_pos = ones_pos;
        let ghost added = ones_pos@;
        self.ones.append(&mut ones_pos);
        self.end.push(self.ones.len());
        proof {
            let n = before.cols() as int;
            assert(self.entries() =~= before.entries() + added);
            assert(self.column(n) =~= added);
            assert forall|c: int| 0 <= c < n implies #[trigger] self.column(c) == before.column(
                c,
            ) by {
                assert(self.ends()[c] == before.ends()[c]);
                assert(self.col_start(c) == before.col_start(c));
                assert(before.col_start(c) <= before.ends()[c] <= before.entries().len());
                assert(self.column(c) =~= before.column(c));
            }
            assert forall|c: int| 0 <= c < self.cols() implies self.col_start(c)
                <= #[trigger] self.ends()[c] <= self.entries().len() by {
                if c < n {
                    assert(self.ends()[c] == before.ends()[c]);
                    assert(before.col_start(c) <= before.ends()[c] <= before.entries().len());
                }
            }
        }
    }

    /// Sets the number of rows.
    pub fn set_num_rows(&mut self, num_rows: usize)
        ensures
            final(self).rows() == num_rows,
            final(self).ends() == old(self).ends(),
            final(self).entries() == old(self).entries(),
    {
        self.num_rows = num_rows;
    }

    /// The matrix of the columns added. There must be rows exactly if there
    /// are columns.
    pub fn build(self) -> (m: CscMatrix)
        requires
            (self.cols() != 0) == (self.rows() != 0),
        ensures
            m.rows() == self.rows(),
            m.ends() == self.ends(),
            m.entries() == self.entries(),
    {
        CscMatrix::new(self.num_rows, self.end, self.ones)
    }
}

/// A matrix whose columns follow one another in its entries and hold row
/// indices below the number of rows is well formed.
pub proof fn lemma_built_matrix_well_formed(b: CscMatrixBuilder, m: CscMatrix)
    requires
        b.well_formed(),
        m.rows() == b.rows(),
        m.ends() == b.ends(),
        m.entries() == b.entries(),
        forall|c: int, j: int|
            0 <= c < b.cols() && 0 <= j < b.column(c).len() ==> #[trigger] b.column(c)[j]
                < b.rows(),
    ensures
        m.well_formed(),
{
    assert forall|c: int| 0 <= c < m.cols() implies #[trigger] m.column_ok(c) by {
        assert(b.col_start(c) <= b.ends()[c] <= b.entries().len());
        assert(m.col_start(c) == b.col_start(c));
        assert forall|j: int| m.col_start(c) <= j < m.ends()[c] implies #[trigger] m.entries()[j]
            < m.rows() by {
            assert(b.column(c)[j - b.col_start(c)] == b.entries()[j]);
        }
    }
}


/// Column `k` of a matrix of packed rows, as a matrix of 64 rows of one word.
pub open spec fn word_column(t: Seq<Seq<u64>>, k: int) -> Seq<u64> {
    Seq::new(64, |j: int| t[j][k])
}

/// The vector with the bits of `v`, as a matrix of 64 rows whose column 0 it is.
pub open spec fn column_matrix(v: u64) -> Seq<u64> {
    Seq::new(
        64,
        |k: int|
            if bit(v, k) {
                1u64
            } else {
                0u64
            },
    )
}

/// Transposing twice gives the matrix back. For a matrix `m` whose number of
/// rows is a multiple of 64 and its explicit transpose `t`, word column `k`
/// of `t` is a matrix of 64 rows, and the explicit transpose `back` of that
/// matrix holds rows `64 k .. 64 k + 64` of `m`.
pub proof fn lemma_transpose_twice(m: Seq<u64>, t: Seq<Seq<u64>>, k: int, back: Seq<Seq<u64>>)
    requires
        m.len() % 64 == 0,
        0 <= k < m.len() / 64,
        t.len() == 64,
        forall|j: int| 0 <= j < 64 ==> is_transposed_row(m, j, #[trigger] t[j]),
        back.len() == 64,
        forall|j: int| 0 <= j < 64 ==> is_transposed_row(word_column(t, k), j, #[trigger] back[j]),
    ensures
        word_column(back, 0) == m.subrange(64 * k, 64 * k + 64),
{
    assert forall|i: int| 0 <= i < 64 implies word_column(back, 0)[i] == m[64 * k + i] by {
        let x = back[i][0];
        let y = m[64 * k + i];
        assert(is_transposed_row(word_column(t, k), i, back[i]));
        assert forall|s: int| 0 <= s < 64 implies bit(x, s) == bit(y, s) by {
            assert(bit(back[i][0], s) == (64 * 0 + s < 64 && bit(word_column(t, k)[64 * 0 + s], i)));
            assert(is_transposed_row(m, s, t[s]));
            assert(bit(t[s][k], i) == (64 * k + i < m.len() && bit(m[64 * k + i], s)));
        }
        lemma_bits_determine_word(x, y);
    }
    assert(word_column(back, 0) =~= m.subrange(64 * k, 64 * k + 64));
}

/// The inner product does not depend on the order of its arguments.
pub proof fn lemma_dot_symmetric(x: u64, y: u64)
    ensures
        dot(x, y) == dot(y, x),
{
    assert forall|k: int| 0 <= k < 64 implies #[trigger] dot_terms(x, y)(k) == dot_terms(y, x)(
        k,
    ) by {}
    lemma_parity_sum_congruent(dot_terms(x, y), dot_terms(y, x), 64);
}

/// The product of a matrix of 64 rows with its own transpose is symmetric.
pub proof fn lemma_gram_matrix_symmetric(a: Seq<u64>, res: Seq<u64>)
    requires
        a.len() == 64,
        is_product_with_transpose(a, a, res),
    ensures
        symmetric(res),
{
    assert forall|i: int, j: int| 0 <= i < 64 && 0 <= j < 64 implies bit(#[trigger] res[i], j)
        == bit(#[trigger] res[j], i) by {
        assert(bit(res[i], j) == dot(a[i], a[j]));
        assert(bit(res[j], i) == dot(a[j], a[i]));
        lemma_dot_symmetric(a[i], a[j]);
    }
}

/// Column `j` of `a * b^T` is `a` times row `j` of `b`: entry `(i, j)` of the
/// product with the transpose is entry `(i, 0)` of the product of `a` with
/// the matrix that has row `j` of `b` as its column 0.
pub proof fn lemma_product_with_transpose_by_columns(
    a: Seq<u64>,
    b: Seq<u64>,
    with_transpose: Seq<u64>,
    j: int,
    with_column: Seq<u64>,
)
    requires
        b.len() == 64,
        0 <= j < 64,
        is_product_with_transpose(a, b, with_transpose),
        is_product(a, column_matrix(b[j]), with_column),
    ensures
        forall|i: int|
            0 <= i < a.len() ==> bit(#[trigger] with_transpose[i], j) == bit(with_column[i], 0),
{
    assert forall|i: int| 0 <= i < a.len() implies bit(#[trigger] with_transpose[i], j) == bit(
        with_column[i],
        0,
    ) by {
        let f = row_terms(a[i], column_matrix(b[j]));
        assert(with_column[i] == xor_sum(f, 64));
        lemma_bit_of_xor_sum(f, 64, 0);
        assert forall|k: int| 0 <= k < 64 implies #[trigger] bit_terms(f, 0)(k) == dot_terms(
            a[i],
            b[j],
        )(k) by {
            lemma_bit_of_one(0);
            lemma_bit_ops(0, 0, 0);
        }
        lemma_parity_sum_congruent(bit_terms(f, 0), dot_terms(a[i], b[j]), 64);
        assert(bit(with_transpose[i], j) == dot(a[i], b[j]));
    }
}

/// Multiplying by the transpose through a view gives what multiplying by the
/// transpose written out as a matrix of its own gives: if `t` has entry
/// `(c, r)` exactly where `m` has entry `(r, c)`, then `m^T * b = t * b`.
pub proof fn lemma_transpose_view_agrees(
    m: CscMatrix,
    t: CscMatrix,
    b: Seq<u64>,
    through_view: Seq<u64>,
    through_matrix: Seq<u64>,
)
    requires
        t.rows() == m.cols(),
        t.cols() == m.rows(),
        forall|r: int, c: int|
            0 <= r < m.rows() && 0 <= c < m.cols() ==> #[trigger] t.entry(c, r) == m.entry(r, c),
        m.is_transpose_product(b, through_view),
        t.is_product(b, through_matrix),
    ensures
        through_view == through_matrix,
{
    assert forall|c: int| 0 <= c < m.cols() implies through_view[c] == through_matrix[c] by {
        let f = m.column_terms(b, c);
        let g = t.row_terms(b, c);
        assert forall|r: int| 0 <= r < m.rows() implies #[trigger] f(r) == g(r) by {
            assert(t.entry(c, r) == m.entry(r, c));
        }
        lemma_xor_sum_congruent(f, g, m.rows());
    }
    assert(through_view =~= through_matrix);
}


impl From<Vec<u64>> for BlockMatrix {
    /// The matrix whose rows are the words of `x`.
    fn from(x: Vec<u64>) -> (m: BlockMatrix)
        ensures
            m@ == x@,
    {
        BlockMatrix(x)
    }
}

impl vstd::std_specs::convert::FromSpecImpl<Vec<u64>> for BlockMatrix {
    open spec fn obeys_from_spec() -> bool {
        false
    }

    open spec fn from_spec(x: Vec<u64>) -> BlockMatrix {
        arbitrary()
    }
}

impl<'a, 'b> core::ops::Mul<&'b BlockMatrix> for &'a CscMatrix {
    type Output = BlockMatrix;

    /// `self * b`; see [`CscMatrix::times`].
    fn mul(self, b: &'b BlockMatrix) -> (res: BlockMatrix)
        ensures
            self.is_product(b@, res@),
    {
        CscMatrix::times(self, b)
    }
}

impl<'a, 'b> vstd::std_specs::ops::MulSpecImpl<&'b BlockMatrix> for &'a CscMatrix {
    open spec fn obeys_mul_spec() -> bool {
        false
    }

    open spec fn mul_req(self, b: &'b BlockMatrix) -> bool {
        self.well_formed() && b@.len() == self.cols()
    }

    open spec fn mul_spec(self, b: &'b BlockMatrix) -> BlockMatrix {
        arbitrary()
    }
}

impl<'a, 'b, 'c> core::ops::Mul<&'b BlockMatrix> for &'a CscMatrixTranspose<'c> {
    type Output = BlockMatrix;

    /// `m^T * b`; see [`CscMatrixTranspose::times`].
    fn mul(self, b: &'b BlockMatrix) -> (res: BlockMatrix)
        ensures
            self.matrix().is_transpose_product(b@, res@),
    {
        CscMatrixTranspose::times(self, b)
    }
}

impl<'a, 'b, 'c> vstd::std_specs::ops::MulSpecImpl<&'b BlockMatrix> for &'a CscMatrixTranspose<'c> {
    open spec fn obeys_mul_spec() -> bool {
        false
    }

    open spec fn mul_req(self, b: &'b BlockMatrix) -> bool {
        self.matrix().well_formed() && b@.len() == self.matrix().rows()
    }

    open spec fn mul_spec(self, b: &'b BlockMatrix) -> BlockMatrix {
        arbitrary()
    }
}

impl<'a, 'b> core::ops::Mul<&'b BlockMatrix> for &'a BlockMatrix {
    type Output = BlockMatrix;

    /// `self * b`; see [`BlockMatrix::times`].
    fn mul(self, b: &'b BlockMatrix) -> (res: BlockMatrix)
        ensures
            is_product(self@, b@, res@),
    {
        BlockMatrix::times(self, b)
    }
}

impl<'a, 'b> vstd::std_specs::ops::MulSpecImpl<&'b BlockMatrix> for &'a BlockMatrix {
    open spec fn obeys_mul_spec() -> bool {
        false
    }

    open spec fn mul_req(self, b: &'b BlockMatrix) -> bool {
        b@.len() == 64
    }

    open spec fn mul_spec(self, b: &'b BlockMatrix) -> BlockMatrix {
        arbitrary()
    }
}

impl<'a, 'b, 'c> core::ops::Mul<&'b BlockMatrixTranspose<'c>> for &'a BlockMatrix {
    type Output = BlockMatrix;

    /// `self * b^T`; see [`BlockMatrix::times_transpose`].
    fn mul(self, b: &'b BlockMatrixTranspose<'c>) -> (res: BlockMatrix)
        ensures
            is_product_with_transpose(self@, b.rows(), res@),
    {
        self.times_transpose(b)
    }
}

impl<'a, 'b, 'c> vstd::std_specs::ops::MulSpecImpl<&'b BlockMatrixTranspose<'c>> for &'a BlockMatrix {
    open spec fn obeys_mul_spec() -> bool {
        false
    }

    open spec fn mul_req(self, b: &'b BlockMatrixTranspose<'c>) -> bool {
        b.rows().len() == 64
    }

    open spec fn mul_spec(self, b: &'b BlockMatrixTranspose<'c>) -> BlockMatrix {
        arbitrary()
    }
}

impl<'a, 'b, 'c> core::ops::Mul<&'b BlockMatrix> for &'a BlockMatrixTranspose<'c> {
    type Output = BlockMatrix;

    /// `a^T * b`; see [`BlockMatrixTranspose::times`].
    fn mul(self, b: &'b BlockMatrix) -> (res: BlockMatrix)
        ensures
            is_transpose_product(self.rows(), b@, res@),
    {
        BlockMatrixTranspose::times(self, b)
    }
}

impl<'a, 'b, 'c> vstd::std_specs::ops::MulSpecImpl<&'b BlockMatrix> for &'a BlockMatrixTranspose<'c> {
    open spec fn obeys_mul_spec() -> bool {
        false
    }

    open spec fn mul_req(self, b: &'b BlockMatrix) -> bool {
        self.rows().len() == b@.len()
    }

    open spec fn mul_spec(self, b: &'b BlockMatrix) -> BlockMatrix {
        arbitrary()
    }
}

} // verus!
