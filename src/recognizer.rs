use crate::error::RecognizerError;
use crate::number::{num, Real};
use vstd::prelude::*;

verus! {


/// The DNA shape feature that a shape recognizer would read.
#[derive(Copy, Clone, Debug, PartialEq, Eq, Structural)]
pub enum ShapeFeat {
    MGW,
    ProT,
    HelT,
    Roll,
    /// A shape name that is none of the above.
    Unknown,
}

/// What a recognizer scores: the bases themselves, or a shape feature.
#[derive(Copy, Clone, Debug, PartialEq, Eq, Structural)]
pub enum RecognizerFeat {
    Sequence,
    Shape(ShapeFeat),
    /// No feature chosen yet.
    Unset,
}

/// Row of the base `c` in a matrix column (A, C, G, T in either case), if
/// `c` is a base at all.
pub open spec fn base_of(c: char) -> Option<int> {
    if c == 'a' || c == 'A' {
        Some(0)
    } else if c == 'c' || c == 'C' {
        Some(1)
    } else if c == 'g' || c == 'G' {
        Some(2)
    } else if c == 't' || c == 'T' {
        Some(3)
    } else {
        None
    }
}

/// Row of the base `c` in a matrix column: `a`/`A` is 0, `c`/`C` is 1,
/// `g`/`G` is 2 and `t`/`T` is 3; anything else is no base.
pub fn base_index(c: char) -> (r: Option<usize>)
    ensures
        r matches Some(b) ==> base_of(c) == Some(b as int) && b < 4,
        r is None <==> base_of(c) is None,
{
    match c {
        'a' | 'A' => Some(0),
        'c' | 'C' => Some(1),
        'g' | 'G' => Some(2),
        't' | 'T' => Some(3),
        _ => None,
    }
}

} // verus!

verus! {


/// Column `col`, row `base` of a matrix flattened column by column.
pub open spec fn cell<R>(m: Seq<R>, col: int, base: int) -> R {
    m[col * 4 + base]
}

/// `i` with `a` and `b` exchanged.
pub open spec fn swapped(i: int, a: int, b: int) -> int {
    if i == a {
        b
    } else if i == b {
        a
    } else {
        i
    }
}

/// `m` read through a map of its cells: cell `(c, b)` of the result is cell
/// `f(c, b)` of `m`.
pub open spec fn permuted_as<R>(
    new: Seq<R>,
    m: Seq<R>,
    len: int,
    f: spec_fn(int, int) -> (int, int),
) -> bool {
    &&& new.len() == m.len()
    &&& forall|c: int, b: int|
        0 <= c < len && 0 <= b < 4 ==> #[trigger] cell(new, c, b) == cell(m, f(c, b).0, f(c, b).1)
}

/// Number of leading positions of `seq[start..start + len]` that hold a base.
pub open spec fn scored_prefix(seq: Seq<char>, start: int, len: int) -> int
    recommends
        0 <= start,
        start + len <= seq.len(),
    decreases len,
{
    if len <= 0 {
        0
    } else if base_of(seq[start + len - 1]) is None || scored_prefix(seq, start, len - 1) < len - 1 {
        scored_prefix(seq, start, len - 1)
    } else {
        len
    }
}

/// How many leading columns of a window of `len` characters starting at
/// `start` are scored: scoring stops at the first character that is no base.
pub fn scored_columns(seq: &[char], start: usize, len: usize) -> (r: usize)
    requires
        start + len <= seq@.len(),
    ensures
        r <= len,
        forall|k: int| 0 <= k < r ==> base_of(#[trigger] seq@[start + k]) is Some,
        r < len ==> base_of(seq@[start + r]) is None,
        r == scored_prefix(seq@, start as int, len as int),
{
    let seq_len = seq.len();
    let mut n: usize = 0;
    while n < len
        invariant
            n <= len,
            start + len <= seq@.len(),
            seq_len == seq@.len(),
            forall|k: int| 0 <= k < n ==> base_of(#[trigger] seq@[start + k]) is Some,
            scored_prefix(seq@, start as int, n as int) == n,
        decreases len - n,
    {
        if base_index(seq[start + n]).is_none() {
            proof {
                lemma_scored_prefix_stops(seq@, start as int, n as int, len as int);
            }
            return n;
        }
        n = n + 1;
    }
    n
}

proof fn lemma_scored_prefix_stops(seq: Seq<char>, start: int, n: int, len: int)
    requires
        0 <= n < len,
        scored_prefix(seq, start, n) == n,
        base_of(seq[start + n]) is None,
    ensures
        scored_prefix(seq, start, len) == n,
    decreases len - n,
{
    if len > n + 1 {
        lemma_scored_prefix_stops(seq, start, n, len - 1);
    }
}

/// Sum, in column order starting from zero, of the cells that the first `n`
/// characters of `seq[start..]` pick: column `c` gives its row for base
/// `seq[start + c]`.
pub open spec fn column_sum<R: Real>(m: Seq<R>, seq: Seq<char>, start: int, n: int) -> R
    decreases n,
{
    if n <= 0 {
        num(0)
    } else {
        column_sum(m, seq, start, n - 1).add_spec(
            m[(n - 1) * 4 + base_of(seq[start + n - 1])->Some_0],
        )
    }
}

/// Score of the window of `len` characters of `seq` at `start`: the sum of
/// its columns up to the first character that is no base.
pub open spec fn window_score<R: Real>(m: Seq<R>, seq: Seq<char>, start: int, len: int) -> R {
    column_sum(m, seq, start, scored_prefix(seq, start, len))
}

/// A cell as `to_pssm` turns it: `log2(v) / log2(1/4)`.
pub open spec fn pssm_cell<R: Real>(v: R) -> R {
    v.log2_spec().div_spec(num::<R>(1).div_spec(num(4)).log2_spec())
}

/// A position weight matrix scoring windows of a sequence.
#[derive(Clone, Debug)]
pub struct Recognizer<R> {
    feat: RecognizerFeat,
    len: usize,
    matrix: Vec<R>,
    mu: R,
    sigma: R,
    null: Vec<(R, R, R)>,
    alt: Vec<(R, R, R)>,
}

/// What a recognizer holds, as mathematical values.
pub ghost struct RecognizerView<R> {
    pub feat: RecognizerFeat,
    pub len: int,
    pub matrix: Seq<R>,
    pub mu: R,
    pub sigma: R,
    pub null: Seq<(R, R, R)>,
    pub alt: Seq<(R, R, R)>,
}

impl<R> View for Recognizer<R> {
    type V = RecognizerView<R>;

    closed spec fn view(&self) -> RecognizerView<R> {
        RecognizerView {
            feat: self.feat,
            len: self.len as int,
            matrix: self.matrix@,
            mu: self.mu,
            sigma: self.sigma,
            null: self.null@,
            alt: self.alt@,
        }
    }
}

impl<R> RecognizerView<R> {
    /// The matrix holds four cells per column.
    pub open spec fn wf(&self) -> bool {
        &&& self.matrix.len() == self.len * 4
        &&& self.matrix.len() <= usize::MAX
    }
}

impl<R: Real> Recognizer<R> {
    /// Whether the matrix holds four cells per column.
    pub fn is_wf(&self) -> (r: bool)
        ensures
            r == self@.wf(),
    {
        self.len <= usize::MAX / 4 && self.matrix.len() == self.len * 4
    }

    pub fn feat(&self) -> (r: RecognizerFeat)
        ensures
            r == self@.feat,
    {
        self.feat
    }

    pub fn len(&self) -> (r: usize)
        ensures
            r == self@.len,
    {
        self.len
    }

    pub fn matrix(&self) -> (r: &Vec<R>)
        ensures
            r@ == self@.matrix,
    {
        &self.matrix
    }

    pub fn matrix_mut(&mut self) -> (r: &mut Vec<R>)
        ensures
            r@ == old(self)@.matrix,
            final(self)@ == (RecognizerView { matrix: final(r)@, ..old(self)@ }),
    {
        &mut self.matrix
    }

    pub fn mu(&self) -> (r: R)
        ensures
            r == self@.mu,
    {
        self.mu
    }

    pub fn sigma(&self) -> (r: R)
        ensures
            r == self@.sigma,
    {
        self.sigma
    }

    pub fn null(&self) -> (r: &Vec<(R, R, R)>)
        ensures
            r@ == self@.null,
    {
        &self.null
    }

    pub fn alt(&self) -> (r: &Vec<(R, R, R)>)
        ensures
            r@ == self@.alt,
    {
        &self.alt
    }

    pub fn set_feat(&mut self, feat: RecognizerFeat)
        ensures
            final(self)@ == (RecognizerView { feat, ..old(self)@ }),
    {
        self.feat = feat;
    }

    pub fn set_len(&mut self, len: usize)
        ensures
            final(self)@ == (RecognizerView { len: len as int, ..old(self)@ }),
    {
        self.len = len;
    }

    pub fn set_mu(&mut self, mu: R)
        ensures
            final(self)@ == (RecognizerView { mu, ..old(self)@ }),
    {
        self.mu = mu;
    }

    pub fn set_sigma(&mut self, sigma: R)
        ensures
            final(self)@ == (RecognizerView { sigma, ..old(self)@ }),
    {
        self.sigma = sigma;
    }

    /// Exchanges cells `a` and `b` of the matrix.
    fn swap_cells(&mut self, a: usize, b: usize)
        requires
            a < old(self)@.matrix.len(),
            b < old(self)@.matrix.len(),
        ensures
            final(self)@ == (RecognizerView {
                matrix: old(self)@.matrix.update(a as int, old(self)@.matrix[b as int]).update(
                    b as int,
                    old(self)@.matrix[a as int],
                ),
                ..old(self)@
            }),
    {
        let x = self.matrix[a];
        let y = self.matrix[b];
        self.matrix.set(a, y);
        self.matrix.set(b, x);
    }

    /// Writes `val` into column `index.0`, row `index.1`.
    pub fn set_at(&mut self, val: R, index: (usize, usize))
        requires
            old(self)@.wf(),
            index.0 < old(self)@.len,
            index.1 < 4,
        ensures
            final(self)@ == (RecognizerView {
                matrix: old(self)@.matrix.update(index.0 * 4 + index.1, val),
                ..old(self)@
            }),
    {
        self.matrix.set(index.0 * 4 + index.1, val);
    }

    /// Reverses row `row` across the columns: column `c` takes the cell of
    /// column `len - 1 - c`.
    pub fn flip_row(&mut self, row: usize)
        requires
            old(self)@.wf(),
            row < 4,
        ensures
            final(self)@ == (RecognizerView { matrix: final(self)@.matrix, ..old(self)@ }),
            permuted_as(
                final(self)@.matrix,
                old(self)@.matrix,
                old(self)@.len,
                |c: int, b: int| if b == row { (old(self)@.len - 1 - c, b) } else { (c, b) },
            ),
    {
        let len = self.len;
        let ghost m0 = self@.matrix;
        let mut i: usize = 0;
        while i < len / 2
            invariant
                self@ == (RecognizerView { matrix: self@.matrix, ..old(self)@ }),
                m0 == old(self)@.matrix,
                len == old(self)@.len,
                m0.len() == len * 4,
                m0.len() <= usize::MAX,
                row < 4,
                i <= len / 2,
                self@.matrix.len() == m0.len(),
                forall|c: int, b: int|
                    0 <= c < len && 0 <= b < 4 ==> #[trigger] cell(self@.matrix, c, b) == if b
                        == row && (c < i || c >= len - i) {
                        cell(m0, len - 1 - c, b)
                    } else {
                        cell(m0, c, b)
                    },
            decreases len / 2 - i,
        {
            let ghost before = self@.matrix;
            self.swap_cells(i * 4 + row, (len - i) * 4 - (4 - row));
            proof {
                assert forall|c: int, b: int| 0 <= c < len && 0 <= b < 4 implies #[trigger] cell(
                    self@.matrix,
                    c,
                    b,
                ) == if b == row && (c < i + 1 || c >= len - (i + 1)) {
                    cell(m0, len - 1 - c, b)
                } else {
                    cell(m0, c, b)
                } by {
                    assert(cell(before, c, b) == before[c * 4 + b]);
                    assert(cell(before, len - 1 - c, b) == before[(len - 1 - c) * 4 + b]);
                }
            }
            i = i + 1;
        }
    }

    /// Reverses the four bases of column `col` (A with T, C with G).
    pub fn flip_col(&mut self, col: usize)
        requires
            old(self)@.wf(),
            col < old(self)@.len,
        ensures
            final(self)@ == (RecognizerView { matrix: final(self)@.matrix, ..old(self)@ }),
            permuted_as(
                final(self)@.matrix,
                old(self)@.matrix,
                old(self)@.len,
                |c: int, b: int| if c == col { (c, 3 - b) } else { (c, b) },
            ),
    {
        self.swap_cells(col * 4, col * 4 + 3);
        self.swap_cells(col * 4 + 1, col * 4 + 2);
        proof {
            let m0 = old(self)@.matrix;
            let m = self@.matrix;
            assert forall|c: int, b: int| 0 <= c < old(self)@.len && 0 <= b < 4 implies #[trigger] cell(
                m,
                c,
                b,
            ) == if c == col { cell(m0, c, 3 - b) } else { cell(m0, c, b) } by {
                assert(cell(m0, c, 3 - b) == m0[c * 4 + (3 - b)]);
            }
        }
    }

    /// Exchanges columns `col_a` and `col_b`.
    pub fn swap_cols(&mut self, col_a: usize, col_b: usize)
        requires
            old(self)@.wf(),
            col_a < old(self)@.len,
            col_b < old(self)@.len,
        ensures
            final(self)@ == (RecognizerView { matrix: final(self)@.matrix, ..old(self)@ }),
            permuted_as(
                final(self)@.matrix,
                old(self)@.matrix,
                old(self)@.len,
                |c: int, b: int| (swapped(c, col_a as int, col_b as int), b),
            ),
    {
        let ghost m0 = self@.matrix;
        let mut i: usize = 0;
        while i < 4
            invariant
                self@ == (RecognizerView { matrix: self@.matrix, ..old(self)@ }),
                m0 == old(self)@.matrix,
                m0.len() == old(self)@.len * 4,
                m0.len() <= usize::MAX,
                col_a < old(self)@.len,
                col_b < old(self)@.len,
                i <= 4,
                self@.matrix.len() == m0.len(),
                forall|c: int, b: int|
                    0 <= c < old(self)@.len && 0 <= b < 4 ==> #[trigger] cell(self@.matrix, c, b)
                        == if b < i {
                        cell(m0, swapped(c, col_a as int, col_b as int), b)
                    } else {
                        cell(m0, c, b)
                    },
            decreases 4 - i,
        {
            let ghost before = self@.matrix;
            self.swap_cells(col_a * 4 + i, col_b * 4 + i);
            proof {
                assert forall|c: int, b: int|
                    0 <= c < old(self)@.len && 0 <= b < 4 implies #[trigger] cell(self@.matrix, c, b)
                    == if b < i + 1 {
                    cell(m0, swapped(c, col_a as int, col_b as int), b)
                } else {
                    cell(m0, c, b)
                } by {
                    assert(cell(before, c, b) == before[c * 4 + b]);
                    assert(cell(before, col_a as int, b) == before[col_a * 4 + b]);
                    assert(cell(before, col_b as int, b) == before[col_b * 4 + b]);
                }
            }
            i = i + 1;
        }
    }

    /// Exchanges rows (bases) `row_a` and `row_b` in every column.
    pub fn swap_rows(&mut self, row_a: usize, row_b: usize)
        requires
            old(self)@.wf(),
            row_a < 4,
            row_b < 4,
        ensures
            final(self)@ == (RecognizerView { matrix: final(self)@.matrix, ..old(self)@ }),
            permuted_as(
                final(self)@.matrix,
                old(self)@.matrix,
                old(self)@.len,
                |c: int, b: int| (c, swapped(b, row_a as int, row_b as int)),
            ),
    {
        let len = self.len;
        let ghost m0 = self@.matrix;
        let mut i: usize = 0;
        while i < len
            invariant
                self@ == (RecognizerView { matrix: self@.matrix, ..old(self)@ }),
                m0 == old(self)@.matrix,
                len == old(self)@.len,
                m0.len() == len * 4,
                m0.len() <= usize::MAX,
                row_a < 4,
                row_b < 4,
                i <= len,
                self@.matrix.len() == m0.len(),
                forall|c: int, b: int|
                    0 <= c < len && 0 <= b < 4 ==> #[trigger] cell(self@.matrix, c, b) == if c < i {
                        cell(m0, c, swapped(b, row_a as int, row_b as int))
                    } else {
                        cell(m0, c, b)
                    },
            decreases len - i,
        {
            let ghost before = self@.matrix;
            self.swap_cells(row_a + i * 4, row_b + i * 4);
            proof {
                assert forall|c: int, b: int| 0 <= c < len && 0 <= b < 4 implies #[trigger] cell(
                    self@.matrix,
                    c,
                    b,
                ) == if c < i + 1 {
                    cell(m0, c, swapped(b, row_a as int, row_b as int))
                } else {
                    cell(m0, c, b)
                } by {
                    assert(cell(before, c, b) == before[c * 4 + b]);
                    assert(cell(before, c, row_a as int) == before[c * 4 + row_a]);
                    assert(cell(before, c, row_b as int) == before[c * 4 + row_b]);
                }
            }
            i = i + 1;
        }
    }

    /// Moves every column one place to the left; the first column becomes
    /// the last.
    pub fn shift_left(&mut self)
        requires
            old(self)@.wf(),
            old(self)@.len >= 1,
        ensures
            final(self)@ == (RecognizerView { matrix: final(self)@.matrix, ..old(self)@ }),
            permuted_as(
                final(self)@.matrix,
                old(self)@.matrix,
                old(self)@.len,
                |c: int, b: int|
                    if c == old(self)@.len - 1 {
                        (0, b)
                    } else {
                        (c + 1, b)
                    },
            ),
    {
        let len = self.len;
        let ghost m0 = self@.matrix;
        let mut i: usize = 0;
        while i < len - 1
            invariant
                self@ == (RecognizerView { matrix: self@.matrix, ..old(self)@ }),
                self@.wf(),
                m0 == old(self)@.matrix,
                len == old(self)@.len,
                len >= 1,
                i <= len - 1,
                forall|c: int, b: int|
                    0 <= c < len && 0 <= b < 4 ==> #[trigger] cell(self@.matrix, c, b) == if c < i {
                        cell(m0, c + 1, b)
                    } else if c == i {
                        cell(m0, 0, b)
                    } else {
                        cell(m0, c, b)
                    },
            decreases len - 1 - i,
        {
            let ghost before = self@.matrix;
            self.swap_cols(i, i + 1);
            proof {
                assert forall|c: int, b: int| 0 <= c < len && 0 <= b < 4 implies #[trigger] cell(
                    self@.matrix,
                    c,
                    b,
                ) == if c < i + 1 {
                    cell(m0, c + 1, b)
                } else if c == i + 1 {
                    cell(m0, 0, b)
                } else {
                    cell(m0, c, b)
                } by {
                    assert(cell(self@.matrix, c, b) == cell(before, swapped(c, i as int, i + 1), b));
                }
            }
            i = i + 1;
        }
    }

    /// Moves every column one place to the right; the last column becomes
    /// the first.
    pub fn shift_right(&mut self)
        requires
            old(self)@.wf(),
            old(self)@.len >= 1,
        ensures
            final(self)@ == (RecognizerView { matrix: final(self)@.matrix, ..old(self)@ }),
            permuted_as(
                final(self)@.matrix,
                old(self)@.matrix,
                old(self)@.len,
                |c: int, b: int|
                    if c == 0 {
                        (old(self)@.len - 1, b)
                    } else {
                        (c - 1, b)
                    },
            ),
    {
        let len = self.len;
        let ghost m0 = self@.matrix;
        let mut i: usize = len - 1;
        while i > 0
            invariant
                self@ == (RecognizerView { matrix: self@.matrix, ..old(self)@ }),
                self@.wf(),
                m0 == old(self)@.matrix,
                len == old(self)@.len,
                len >= 1,
                i <= len - 1,
                forall|c: int, b: int|
                    0 <= c < len && 0 <= b < 4 ==> #[trigger] cell(self@.matrix, c, b) == if c > i {
                        cell(m0, c - 1, b)
                    } else if c == i {
                        cell(m0, len - 1, b)
                    } else {
                        cell(m0, c, b)
                    },
            decreases i,
        {
            let ghost before = self@.matrix;
            self.swap_cols(i, i - 1);
            proof {
                assert forall|c: int, b: int| 0 <= c < len && 0 <= b < 4 implies #[trigger] cell(
                    self@.matrix,
                    c,
                    b,
                ) == if c > i - 1 {
                    cell(m0, c - 1, b)
                } else if c == i - 1 {
                    cell(m0, len - 1, b)
                } else {
                    cell(m0, c, b)
                } by {
                    assert(cell(self@.matrix, c, b) == cell(before, swapped(c, i as int, i - 1), b));
                }
            }
            i = i - 1;
        }
    }

    /// Replaces every cell `v` by `log2(v) / log2(1/4)`: a probability of
    /// one quarter becomes 1.
    pub fn to_pssm(&mut self)
        ensures
            final(self)@ == (RecognizerView { matrix: final(self)@.matrix, ..old(self)@ }),
            final(self)@.matrix.len() == old(self)@.matrix.len(),
            forall|i: int|
                0 <= i < old(self)@.matrix.len() ==> #[trigger] final(self)@.matrix[i] == pssm_cell(
                    old(self)@.matrix[i],
                ),
    {
        let quarter = R::from_u64(1).over(R::from_u64(4));
        let base = quarter.log2();
        let n = self.matrix.len();
        let mut i: usize = 0;
        while i < n
            invariant
                self@ == (RecognizerView { matrix: self@.matrix, ..old(self)@ }),
                self@.matrix.len() == n,
                i <= n,
                base == num::<R>(1).div_spec(num(4)).log2_spec(),
                forall|k: int| 0 <= k < i ==> #[trigger] self@.matrix[k] == pssm_cell(old(self)@.matrix[k]),
                forall|k: int| i <= k < n ==> #[trigger] self@.matrix[k] == old(self)@.matrix[k],
            decreases n - i,
        {
            let v = self.matrix[i];
            self.matrix.set(i, v.log2().over(base));
            i = i + 1;
        }
    }

    /// Scores every window of `self.len` characters of `seq` and writes the
    /// score of the window at offset `i` into `row[i]`. Only base matrices
    /// score: a shape recognizer fails and leaves `row` as it was.
    pub fn calculate_row(&self, seq: &[char], row: &mut Vec<R>) -> (r: Result<(), RecognizerError>)
        requires
            self@.wf(),
            1 <= self@.len <= seq@.len(),
            old(row)@.len() >= seq@.len() - self@.len + 1,
        ensures
            r is Ok <==> self@.feat == RecognizerFeat::Sequence,
            r == Err::<(), RecognizerError>(RecognizerError::ShapeUnimplemented) || r is Ok,
            final(row)@.len() == old(row)@.len(),
            r is Err ==> final(row)@ == old(row)@,
            r is Ok ==> forall|i: int|
                0 <= i < seq@.len() - self@.len + 1 ==> #[trigger] final(row)@[i] == window_score(
                    self@.matrix,
                    seq@,
                    i,
                    self@.len,
                ),
            forall|i: int|
                seq@.len() - self@.len + 1 <= i < old(row)@.len() ==> #[trigger] final(row)@[i]
                    == old(row)@[i],
    {
        match self.feat {
            RecognizerFeat::Sequence => {
                self.pssm_row(seq, row);
                Ok(())
            },
            _ => Err(RecognizerError::ShapeUnimplemented),
        }
    }

    fn pssm_row(&self, seq: &[char], row: &mut Vec<R>)
        requires
            self@.wf(),
            1 <= self@.len <= seq@.len(),
            old(row)@.len() >= seq@.len() - self@.len + 1,
        ensures
            final(row)@.len() == old(row)@.len(),
            forall|i: int|
                0 <= i < seq@.len() - self@.len + 1 ==> #[trigger] final(row)@[i] == window_score(
                    self@.matrix,
                    seq@,
                    i,
                    self@.len,
                ),
            forall|i: int|
                seq@.len() - self@.len + 1 <= i < old(row)@.len() ==> #[trigger] final(row)@[i]
                    == old(row)@[i],
    {
        let len = self.len;
        let seq_len = seq.len();
        let count = seq_len - len + 1;
        let mut i: usize = 0;
        while i < count
            invariant
                self@.wf(),
                len == self@.len,
                len <= seq@.len(),
                seq_len == seq@.len(),
                count == seq@.len() - len + 1,
                i <= count,
                row@.len() == old(row)@.len(),
                old(row)@.len() >= count,
                forall|k: int| count <= k < old(row)@.len() ==> #[trigger] row@[k] == old(row)@[k],
                forall|k: int|
                    0 <= k < i ==> #[trigger] row@[k] == window_score(self@.matrix, seq@, k, len as int),
            decreases count - i,
        {
            let n = scored_columns(seq, i, len);
            let mut score = R::from_u64(0);
            let mut j: usize = 0;
            while j < n
                invariant
                    self@.wf(),
                    len == self@.len,
                    i < count,
                    seq_len == seq@.len(),
                    count == seq@.len() - len + 1,
                    n <= len,
                    j <= n,
                    forall|k: int| 0 <= k < n ==> base_of(#[trigger] seq@[i + k]) is Some,
                    n == scored_prefix(seq@, i as int, len as int),
                    score == column_sum(self@.matrix, seq@, i as int, j as int),
                decreases n - j,
            {
                assert(base_of(seq@[i + j]) is Some);
                if let Some(b) = base_index(seq[i + j]) {
                    score = score.plus(self.matrix[j * 4 + b]);
                }
                j = j + 1;
            }
            row.set(i, score);
            i = i + 1;
        }
    }
}

/// A base matrix recognizer of `len` columns holding `matrix` (none: an
/// empty matrix).
pub fn pssm<R: Real>(feat: RecognizerFeat, len: usize, matrix: Option<Vec<R>>) -> (r: Recognizer<R>)
    ensures
        r@.feat == feat,
        r@.len == len,
        r@.matrix == (match matrix {
            Some(m) => m@,
            Option::None => Seq::<R>::empty(),
        }),
        r@.null.len() == 0,
        r@.alt.len() == 0,
{
    let zero = R::from_u64(0);
    Recognizer {
        feat,
        len,
        matrix: match matrix {
            Some(m) => m,
            Option::None => Vec::new(),
        },
        mu: zero,
        sigma: zero,
        null: Vec::new(),
        alt: Vec::new(),
    }
}

/// A shape recognizer of `len` columns with the given mean and spread
/// (none: zero). It holds no matrix, and scoring with it fails.
pub fn shape<R: Real>(feat: RecognizerFeat, len: usize, mu: Option<R>, sigma: Option<R>) -> (r:
    Recognizer<R>)
    ensures
        r@.feat == feat,
        r@.len == len,
        r@.matrix.len() == 0,
        mu matches Some(m) ==> r@.mu == m,
        sigma matches Some(s) ==> r@.sigma == s,
        r@.null.len() == 0,
        r@.alt.len() == 0,
{
    let zero = R::from_u64(0);
    Recognizer {
        feat,
        len,
        matrix: Vec::new(),
        mu: match mu {
            Some(m) => m,
            Option::None => zero,
        },
        sigma: match sigma {
            Some(s) => s,
            Option::None => zero,
        },
        null: Vec::new(),
        alt: Vec::new(),
    }
}

} // verus!
