use vstd::prelude::*;

verus! {

/// The smallest of three numbers.
pub open spec fn min3(a: nat, b: nat, c: nat) -> nat {
    if a <= b && a <= c {
        a
    } else if b <= c {
        b
    } else {
        c
    }
}

/// The Levenshtein distance between the prefixes `s[..i]` and `t[..j]`.
pub open spec fn lev(s: Seq<usize>, t: Seq<usize>, i: nat, j: nat) -> nat
    decreases i + j,
{
    if i == 0 {
        j
    } else if j == 0 {
        i
    } else {
        min3(
            lev(s, t, (i - 1) as nat, j) + 1,
            lev(s, t, i, (j - 1) as nat) + 1,
            lev(s, t, (i - 1) as nat, (j - 1) as nat) + if s[i - 1] == t[j - 1] {
                0nat
            } else {
                1nat
            },
        )
    }
}

/// The distance between two whole sequences.
pub open spec fn lev_distance(s: Seq<usize>, t: Seq<usize>) -> nat {
    lev(s, t, s.len(), t.len())
}

/// The distance between two prefixes never exceeds the sum of their lengths.
pub proof fn lemma_lev_bound(s: Seq<usize>, t: Seq<usize>, i: nat, j: nat)
    ensures
        lev(s, t, i, j) <= i + j,
    decreases i + j,
{
    if i > 0 && j > 0 {
        lemma_lev_bound(s, t, (i - 1) as nat, j);
    }
}

/// Row-major position of a cell: in range, and distinct cells have distinct positions.
proof fn lemma_index(cols: int, rows: int, c: int, r: int)
    requires
        0 <= c < cols,
        0 <= r < rows,
    ensures
        0 <= r * cols + c < cols * rows,
{
    assert(r * cols + c < cols * rows) by (nonlinear_arith)
        requires
            0 <= c < cols,
            0 <= r < rows,
    ;
    assert(0 <= r * cols) by (nonlinear_arith)
        requires
            0 <= c < cols,
            0 <= r < rows,
    ;
}

proof fn lemma_index_inj(cols: int, c1: int, r1: int, c2: int, r2: int)
    requires
        0 <= c1 < cols,
        0 <= c2 < cols,
        0 <= r1,
        0 <= r2,
        r1 != r2 || c1 != c2,
    ensures
        r1 * cols + c1 != r2 * cols + c2,
{
    if r1 == r2 {
    } else if r1 < r2 {
        assert(r1 * cols + c1 < r2 * cols + c2) by (nonlinear_arith)
            requires
                0 <= c1 < cols,
                0 <= c2 < cols,
                r1 < r2,
        ;
    } else {
        assert(r2 * cols + c2 < r1 * cols + c1) by (nonlinear_arith)
            requires
                0 <= c1 < cols,
                0 <= c2 < cols,
                r2 < r1,
        ;
    }
}

/// Computes the Levenshtein distance between the given two slices with two rolling rows.
/// It cannot produce a sequence of edits; use [`levenshtein_matrix`] for that.
pub fn levenshtein(s: &[usize], t: &[usize]) -> (r: usize)
    requires
        s@.len() + t@.len() < usize::MAX,
    ensures
        r == lev_distance(s@, t@),
{
    let n = t.len();
    let mut v0: Vec<usize> = Vec::new();
    let mut k: usize = 0;
    while k <= n
        invariant
            k <= n + 1,
            n == t@.len(),
            n < usize::MAX,
            v0@.len() == k,
            forall|j: int| 0 <= j < k ==> v0@[j] == j,
        decreases n + 1 - k,
    {
        v0.push(k);
        k += 1;
    }
    let mut v1: Vec<usize> = Vec::new();
    k = 0;
    while k <= n
        invariant
            k <= n + 1,
            n < usize::MAX,
            v1@.len() == k,
        decreases n + 1 - k,
    {
        v1.push(0);
        k += 1;
    }
    proof {
        assert forall|j: int| 0 <= j <= n implies v0@[j] == lev(s@, t@, 0, j as nat) by {}
    }
    let mut i: usize = 0;
    while i < s.len()
        invariant
            i <= s@.len(),
            n == t@.len(),
            s@.len() + t@.len() < usize::MAX,
            v0@.len() == n + 1,
            v1@.len() == n + 1,
            forall|j: int| 0 <= j <= n ==> v0@[j] == lev(s@, t@, i as nat, j as nat),
        decreases s@.len() - i,
    {
        v1.set(0, i + 1);
        let mut j: usize = 0;
        while j < n
            invariant
                i < s@.len(),
                j <= n,
                n == t@.len(),
                s@.len() + t@.len() < usize::MAX,
                v0@.len() == n + 1,
                v1@.len() == n + 1,
                forall|k: int| 0 <= k <= n ==> v0@[k] == lev(s@, t@, i as nat, k as nat),
                forall|k: int| 0 <= k <= j ==> v1@[k] == lev(s@, t@, (i + 1) as nat, k as nat),
            decreases n - j,
        {
            proof {
                lemma_lev_bound(s@, t@, i as nat, (j + 1) as nat);
                lemma_lev_bound(s@, t@, (i + 1) as nat, j as nat);
                lemma_lev_bound(s@, t@, i as nat, j as nat);
            }
            let deletion_cost = v0[j + 1] + 1;
            let insertion_cost = v1[j] + 1;
            let substitution_cost = if s[i] == t[j] {
                v0[j]
            } else {
                v0[j] + 1
            };
            let mut cost = deletion_cost;
            if insertion_cost < cost {
                cost = insertion_cost;
            }
            if substitution_cost < cost {
                cost = substitution_cost;
            }
            v1.set(j + 1, cost);
            j += 1;
        }
        std::mem::swap(&mut v0, &mut v1);
        i += 1;
    }
    v0[n]
}

/// One edit operation of a script that turns one sequence into another.
#[derive(Debug, PartialEq, Eq, Clone, Copy, Structural)]
pub enum Edit {
    /// Insert the element of the target at the given index.
    Insert(usize),
    /// Remove the element at the current position.
    Delete,
    /// Replace the element at the current position by the target's element at the given index.
    Substitute(usize),
    /// Keep the element at the current position.
    Noop,
}

/// The effect of one edit at position `pos` of `v`, taking new elements from `t`.
pub open spec fn apply_edit(v: Seq<usize>, pos: int, e: Edit, t: Seq<usize>) -> Seq<usize> {
    match e {
        Edit::Insert(k) => v.insert(pos, t[k as int]),
        Edit::Delete => v.remove(pos),
        Edit::Substitute(k) => v.update(pos, t[k as int]),
        Edit::Noop => v,
    }
}

/// The effect of a whole indexed script, applied from its first entry on.
pub open spec fn apply_script(v: Seq<usize>, es: Seq<(usize, Edit)>, t: Seq<usize>) -> Seq<usize>
    decreases es.len(),
{
    if es.len() == 0 {
        v
    } else {
        apply_script(apply_edit(v, es[0].0 as int, es[0].1, t), es.drop_first(), t)
    }
}

/// Whether applying edit `e` at position `pos` to `v` stays within bounds.
pub open spec fn edit_in_bounds(v: Seq<usize>, pos: int, e: Edit, t: Seq<usize>) -> bool {
    match e {
        Edit::Insert(k) => 0 <= pos <= v.len() && k < t.len(),
        Edit::Delete => 0 <= pos < v.len(),
        Edit::Substitute(k) => 0 <= pos < v.len() && k < t.len(),
        Edit::Noop => true,
    }
}

impl Edit {
    /// Applies the edit at position `pos` of `lhs`, taking new elements from `rhs`.
    pub fn apply(self, pos: usize, lhs: &mut Vec<usize>, rhs: &[usize])
        requires
            edit_in_bounds(old(lhs)@, pos as int, self, rhs@),
        ensures
            final(lhs)@ == apply_edit(old(lhs)@, pos as int, self, rhs@),
    {
        match self {
            Edit::Insert(x) => {
                lhs.insert(pos, rhs[x]);
            },
            Edit::Delete => {
                lhs.remove(pos);
            },
            Edit::Substitute(x) => {
                lhs.set(pos, rhs[x]);
            },
            Edit::Noop => {},
        }
    }
}

/// A Levenshtein distance matrix: one column per prefix of the source, one row per
/// prefix of the target, stored row by row in one buffer.
pub struct LevenshteinMatrix {
    cols: usize,
    rows: usize,
    matrix: Vec<usize>,
    src: Ghost<Seq<usize>>,
    dst: Ghost<Seq<usize>>,
}

impl LevenshteinMatrix {
    /// Number of columns.
    pub closed spec fn n_cols(&self) -> nat {
        self.cols as nat
    }

    /// Number of rows.
    pub closed spec fn n_rows(&self) -> nat {
        self.rows as nat
    }

    /// The value of a cell.
    pub closed spec fn cell(&self, col: int, row: int) -> int {
        self.matrix@[row * self.cols + col] as int
    }

    /// The sequence the matrix compares from.
    pub closed spec fn source(&self) -> Seq<usize> {
        self.src@
    }

    /// The sequence the matrix compares to.
    pub closed spec fn target(&self) -> Seq<usize> {
        self.dst@
    }

    /// The buffer has the declared shape, and the dimensions fit.
    pub closed spec fn shaped(&self) -> bool {
        &&& self.cols >= 1
        &&& self.rows >= 1
        &&& self.cols * self.rows <= usize::MAX
        &&& self.matrix@.len() == self.cols * self.rows
    }

    /// The matrix is complete: every cell holds the distance between the prefixes it stands for.
    pub closed spec fn wf(&self) -> bool {
        &&& self.shaped()
        &&& self.cols == self.src@.len() + 1
        &&& self.rows == self.dst@.len() + 1
        &&& forall|i: int, j: int|
            0 <= i < self.cols && 0 <= j < self.rows ==> #[trigger] self.cell(i, j) == lev(
                self.src@,
                self.dst@,
                i as nat,
                j as nat,
            )
    }

    /// The length of the buffer that holds the cells.
    pub closed spec fn buffer_len(&self) -> nat {
        self.matrix@.len()
    }

    /// What a shaped matrix is: at least one column and one row, and one buffer entry per
    /// cell.
    pub proof fn lemma_shaped(&self)
        requires
            self.shaped(),
        ensures
            self.n_cols() >= 1,
            self.n_rows() >= 1,
            self.n_cols() * self.n_rows() <= usize::MAX,
            self.buffer_len() == self.n_cols() * self.n_rows(),
    {
    }

    /// What a complete matrix is: shaped, one column per prefix of the source and one row per
    /// prefix of the target, and every cell the distance between its prefixes.
    pub proof fn lemma_wf(&self)
        requires
            self.wf(),
        ensures
            self.shaped(),
            self.n_cols() == self.source().len() + 1,
            self.n_rows() == self.target().len() + 1,
            forall|i: int, j: int|
                0 <= i < self.n_cols() && 0 <= j < self.n_rows() ==> #[trigger] self.cell(i, j)
                    == lev(self.source(), self.target(), i as nat, j as nat),
    {
    }

    /// The distance that the complete matrix holds in its last cell.
    pub open spec fn distance_spec(&self) -> nat {
        lev_distance(self.source(), self.target())
    }

    /// Creates a matrix for sources of length `cols` and targets of length `rows`, with
    /// the first row and the first column filled in.
    pub fn new(cols: usize, rows: usize) -> (r: Self)
        requires
            (cols + 1) * (rows + 1) <= usize::MAX,
        ensures
            r.shaped(),
            r.n_cols() == cols + 1,
            r.n_rows() == rows + 1,
            forall|i: int| 0 <= i <= cols ==> #[trigger] r.cell(i, 0) == i,
            forall|j: int| 0 <= j <= rows ==> #[trigger] r.cell(0, j) == j,
            forall|i: int, j: int| 1 <= i <= cols && 1 <= j <= rows ==> #[trigger] r.cell(i, j) == 0,
    {
        proof {
            assert((cols + 1) * (rows + 1) >= cols + 1) by (nonlinear_arith);
            assert((cols + 1) * (rows + 1) >= rows + 1) by (nonlinear_arith);
        }
        let n = cols + 1;
        let m = rows + 1;
        proof {
            assert(n * m >= n) by (nonlinear_arith)
                requires
                    m >= 1,
            ;
            assert(n * m >= m) by (nonlinear_arith)
                requires
                    n >= 1,
            ;
        }
        let total = n * m;
        let mut buf: Vec<usize> = Vec::new();
        let mut k: usize = 0;
        while k < total
            invariant
                k <= total,
                buf@.len() == k,
                forall|q: int| 0 <= q < k ==> buf@[q] == 0,
            decreases total - k,
        {
            buf.push(0);
            k += 1;
        }
        let mut this = LevenshteinMatrix {
            cols: n,
            rows: m,
            matrix: buf,
            src: Ghost(Seq::empty()),
            dst: Ghost(Seq::empty()),
        };
        proof {
            assert forall|c: int, r: int| 1 <= c < n && 1 <= r < m implies #[trigger] this.cell(c, r)
                == 0 by {
                lemma_index(n as int, m as int, c, r);
            }
        }
        let mut i: usize = 0;
        while i < n
            invariant
                this.shaped(),
                this.cols == n,
                this.rows == m,
                n * m == total,
                n <= total,
                m <= total,
                i <= n,
                forall|c: int| 0 <= c < i ==> #[trigger] this.cell(c, 0) == c,
                forall|c: int, r: int| 1 <= c < n && 1 <= r < m ==> #[trigger] this.cell(c, r) == 0,
            decreases n - i,
        {
            proof {
                assert forall|c: int| 0 <= c < i implies #[trigger] this.cell(c, 0) == c by {
                    lemma_index_inj(n as int, c, 0, i as int, 0);
                }
            }
            let ghost prev = this;
            this.set(i, 0, i);
            proof {
                assert forall|c: int| 0 <= c < i implies #[trigger] this.cell(c, 0) == c by {
                    lemma_index_inj(n as int, c, 0, i as int, 0);
                    assert(this.cell(c, 0) == prev.cell(c, 0));
                }
            }
            i += 1;
        }
        let mut j: usize = 0;
        while j < m
            invariant
                this.shaped(),
                this.cols == n,
                this.rows == m,
                n * m == total,
                n <= total,
                m <= total,
                j <= m,
                forall|c: int| 1 <= c < n ==> #[trigger] this.cell(c, 0) == c,
                forall|r: int| 0 <= r < j ==> #[trigger] this.cell(0, r) == r,
                forall|c: int, r: int| 1 <= c < n && 1 <= r < m ==> #[trigger] this.cell(c, r) == 0,
            decreases m - j,
        {
            let ghost prev = this;
            this.set(0, j, j);
            proof {
                assert forall|c: int| 1 <= c < n implies #[trigger] this.cell(c, 0) == c by {
                    lemma_index_inj(n as int, c, 0, 0, j as int);
                    assert(this.cell(c, 0) == prev.cell(c, 0));
                }
                assert forall|r: int| 0 <= r < j implies #[trigger] this.cell(0, r) == r by {
                    lemma_index_inj(n as int, 0, r, 0, j as int);
                    assert(this.cell(0, r) == prev.cell(0, r));
                }
            }
            j += 1;
        }
        proof {
            assert(this.cell(0, 0) == 0);
        }
        this
    }

    /// Returns the value at the given column and row.
    pub fn get(&self, col: usize, row: usize) -> (r: usize)
        requires
            self.shaped(),
            col < self.n_cols(),
            row < self.n_rows(),
        ensures
            r == self.cell(col as int, row as int),
    {
        proof {
            lemma_index(self.cols as int, self.rows as int, col as int, row as int);
        }
        self.matrix[row * self.cols + col]
    }

    /// Sets the value at the given column and row; every other cell keeps its value.
    pub fn set(&mut self, col: usize, row: usize, value: usize)
        requires
            old(self).shaped(),
            col < old(self).n_cols(),
            row < old(self).n_rows(),
        ensures
            final(self).shaped(),
            final(self).n_cols() == old(self).n_cols(),
            final(self).n_rows() == old(self).n_rows(),
            final(self).source() == old(self).source(),
            final(self).target() == old(self).target(),
            final(self).cell(col as int, row as int) == value,
            forall|c: int, r: int|
                0 <= c < final(self).n_cols() && 0 <= r < final(self).n_rows() && (c != col
                    || r != row) ==> #[trigger] final(self).cell(c, r) == old(self).cell(c, r),
    {
        proof {
            lemma_index(self.cols as int, self.rows as int, col as int, row as int);
        }
        let idx = row * self.cols + col;
        self.matrix.set(idx, value);
        proof {
            assert forall|c: int, r: int|
                0 <= c < self.cols && 0 <= r < self.rows && (c != col || r != row) implies
                #[trigger] self.cell(c, r) == old(self).cell(c, r) by {
                lemma_index_inj(self.cols as int, c, r, col as int, row as int);
                lemma_index(self.cols as int, self.rows as int, c, r);
            }
        }
    }

    /// Returns the Levenshtein distance between the two sequences.
    pub fn distance(&self) -> (r: usize)
        requires
            self.shaped(),
        ensures
            r == self.cell(self.n_cols() - 1, self.n_rows() - 1),
            self.wf() ==> r == self.distance_spec(),
    {
        self.get(self.cols - 1, self.rows - 1)
    }
}


/// Whether every edit of an indexed script stays within bounds when the script is applied
/// to `v` from its first entry on.
pub open spec fn script_applies(v: Seq<usize>, es: Seq<(usize, Edit)>, t: Seq<usize>) -> bool
    decreases es.len(),
{
    es.len() == 0 || (edit_in_bounds(v, es[0].0 as int, es[0].1, t) && script_applies(
        apply_edit(v, es[0].0 as int, es[0].1, t),
        es.drop_first(),
        t,
    ))
}

/// One step of the backtrack from cell `(x, y)` of the distance table of `s` and `t`: the
/// edit it emits and the cell it moves to. The diagonal is preferred when it is no larger
/// than the left, the upper and the current cell; then the left cell (a deletion); then the
/// upper cell (an insertion). Moves across index 0 are never taken.
pub open spec fn backtrack_step(s: Seq<usize>, t: Seq<usize>, x: nat, y: nat) -> (Edit, nat, nat) {
    if x == 0 {
        (Edit::Insert((y - 1) as usize), x, (y - 1) as nat)
    } else if y == 0 {
        (Edit::Delete, (x - 1) as nat, y)
    } else {
        let cur = lev(s, t, x, y);
        let diag = lev(s, t, (x - 1) as nat, (y - 1) as nat);
        let left = lev(s, t, (x - 1) as nat, y);
        let up = lev(s, t, x, (y - 1) as nat);
        if diag <= left && diag <= up && diag <= cur {
            if diag == cur {
                (Edit::Noop, (x - 1) as nat, (y - 1) as nat)
            } else {
                (Edit::Substitute((y - 1) as usize), (x - 1) as nat, (y - 1) as nat)
            }
        } else if left <= up && left <= cur {
            (Edit::Delete, (x - 1) as nat, y)
        } else {
            (Edit::Insert((y - 1) as usize), x, (y - 1) as nat)
        }
    }
}

/// The indexed edit script from cell `(x, y)` back to the origin: each edit is paired with
/// the source position it applies at.
pub open spec fn edit_script(s: Seq<usize>, t: Seq<usize>, x: nat, y: nat) -> Seq<(usize, Edit)>
    decreases x + y,
{
    if x == 0 && y == 0 {
        Seq::empty()
    } else {
        let (e, x2, y2) = backtrack_step(s, t, x, y);
        if x2 + y2 < x + y {
            seq![(x2 as usize, e)] + edit_script(s, t, x2, y2)
        } else {
            Seq::empty()
        }
    }
}

impl LevenshteinMatrix {
    /// The indexed edit script from cell `(x, y)`.
    pub closed spec fn script(&self, x: nat, y: nat) -> Seq<(usize, Edit)> {
        edit_script(self.src@, self.dst@, x, y)
    }

    /// One step of the backtrack from cell `(x, y)`.
    pub closed spec fn step(&self, x: nat, y: nat) -> (Edit, nat, nat) {
        backtrack_step(self.src@, self.dst@, x, y)
    }

    /// The whole indexed edit script, from the last cell back to the origin.
    pub open spec fn indexed_edits(&self) -> Seq<(usize, Edit)> {
        edit_script(self.source(), self.target(), self.source().len(), self.target().len())
    }

    /// Returns an iterator over an optimal sequence of edits.
    /// The iterator yields edits starting from the end of the sequences.
    pub fn edits(&self) -> (r: Edits<'_>)
        requires
            self.wf(),
        ensures
            r.inv(),
            r.at_start(),
            r.matrix() == *self,
            r.position() == self.source().len(),
            r.row() == self.target().len(),
            r.remaining() == self.indexed_edits(),
    {
        Edits { x: self.cols - 1, y: self.rows - 1, matrix: self }
    }
}

/// Computes a [`LevenshteinMatrix`] for the given two slices. The resulting matrix can be used
/// to obtain a distance and an optimal sequence of edits.
pub fn levenshtein_matrix(s: &[usize], t: &[usize]) -> (r: LevenshteinMatrix)
    requires
        (s@.len() + 1) * (t@.len() + 1) <= usize::MAX,
    ensures
        r.wf(),
        r.shaped(),
        r.source() == s@,
        r.target() == t@,
        r.n_cols() == s@.len() + 1,
        r.n_rows() == t@.len() + 1,
        forall|i: int, j: int|
            0 <= i <= s@.len() && 0 <= j <= t@.len() ==> #[trigger] r.cell(i, j) == lev(
                s@,
                t@,
                i as nat,
                j as nat,
            ),
{
    let mut mat = LevenshteinMatrix::new(s.len(), t.len());
    let ghost n = s@.len();
    let ghost m = t@.len();
    proof {
        assert((n + 1) * (m + 1) == n * m + n + m + 1) by (nonlinear_arith);
        assert(n * m >= 0) by (nonlinear_arith);
    }
    let mut j: usize = 0;
    while j < t.len()
        invariant
            mat.shaped(),
            n == s@.len(),
            m == t@.len(),
            n + m + 1 <= usize::MAX,
            mat.n_cols() == n + 1,
            mat.n_rows() == m + 1,
            j <= m,
            forall|c: int, r: int|
                0 <= c <= n && 0 <= r <= j ==> #[trigger] mat.cell(c, r) == lev(
                    s@,
                    t@,
                    c as nat,
                    r as nat,
                ),
            forall|r: int| 0 <= r <= m ==> #[trigger] mat.cell(0, r) == r,
        decreases m - j,
    {
        let mut i: usize = 0;
        while i < s.len()
            invariant
                mat.shaped(),
                n == s@.len(),
                m == t@.len(),
                n + m + 1 <= usize::MAX,
                mat.n_cols() == n + 1,
                mat.n_rows() == m + 1,
                j < m,
                i <= n,
                forall|c: int, r: int|
                    0 <= c <= n && 0 <= r <= j ==> #[trigger] mat.cell(c, r) == lev(
                        s@,
                        t@,
                        c as nat,
                        r as nat,
                    ),
                forall|c: int|
                    0 <= c <= i ==> #[trigger] mat.cell(c, j + 1) == lev(
                        s@,
                        t@,
                        c as nat,
                        (j + 1) as nat,
                    ),
                forall|r: int| 0 <= r <= m ==> #[trigger] mat.cell(0, r) == r,
            decreases n - i,
        {
            proof {
                lemma_lev_bound(s@, t@, i as nat, (j + 1) as nat);
                lemma_lev_bound(s@, t@, (i + 1) as nat, j as nat);
                lemma_lev_bound(s@, t@, i as nat, j as nat);
            }
            let substitution_cost: usize = if s[i] == t[j] {
                0
            } else {
                1
            };
            let a = mat.get(i, j + 1) + 1;
            let b = mat.get(i + 1, j) + 1;
            let c = mat.get(i, j) + substitution_cost;
            let mut cost = a;
            if b < cost {
                cost = b;
            }
            if c < cost {
                cost = c;
            }
            proof {
                assert(cost == lev(s@, t@, (i + 1) as nat, (j + 1) as nat));
            }
            mat.set(i + 1, j + 1, cost);
            i += 1;
        }
        j += 1;
    }
    let ghost before = mat;
    mat.src = Ghost(s@);
    mat.dst = Ghost(t@);
    proof {
        assert forall|c: int, r: int| 0 <= c < mat.cols && 0 <= r < mat.rows implies
            #[trigger] mat.cell(c, r) == lev(mat.src@, mat.dst@, c as nat, r as nat) by {
            assert(0 <= c <= n && 0 <= r <= j);
            assert(before.cell(c, r) == lev(s@, t@, c as nat, r as nat));
            assert(mat.cell(c, r) == before.cell(c, r));
        }
    }
    mat
}

/// One backtracking step keeps the invariant of the round trip: applying its edit to the
/// source prefix of length `x` followed by the target suffix from `y` gives the same shape
/// for the cell it moves to.
proof fn lemma_step(mat: &LevenshteinMatrix, x: nat, y: nat)
    requires
        mat.wf(),
        x < mat.cols,
        y < mat.rows,
        x > 0 || y > 0,
    ensures
        ({
            let (e, x2, y2) = mat.step(x, y);
            let v = mat.src@.take(x as int) + mat.dst@.skip(y as int);
            &&& x2 + y2 < x + y
            &&& edit_in_bounds(v, x2 as int, e, mat.dst@)
            &&& apply_edit(v, x2 as int, e, mat.dst@) == mat.src@.take(x2 as int) + mat.dst@.skip(
                y2 as int,
            )
        }),
{
    let s = mat.src@;
    let t = mat.dst@;
    let v = s.take(x as int) + t.skip(y as int);
    let (e, x2, y2) = mat.step(x, y);
    let w = s.take(x2 as int) + t.skip(y2 as int);
    if x > 0 && y > 0 {
        assert(mat.cell(x as int, y as int) == lev(s, t, x, y));
        assert(mat.cell(x - 1, y - 1) == lev(s, t, (x - 1) as nat, (y - 1) as nat));
        assert(mat.cell(x - 1, y as int) == lev(s, t, (x - 1) as nat, y));
        assert(mat.cell(x as int, y - 1) == lev(s, t, x, (y - 1) as nat));
    }
    match e {
        Edit::Noop => {
            assert(s[x - 1] == t[y - 1]);
            assert(apply_edit(v, x2 as int, e, t) =~= w);
        },
        Edit::Substitute(k) => {
            assert(apply_edit(v, x2 as int, e, t) =~= w);
        },
        Edit::Delete => {
            assert(apply_edit(v, x2 as int, e, t) =~= w);
        },
        Edit::Insert(k) => {
            assert(apply_edit(v, x2 as int, e, t) =~= w);
        },
    }
}

/// The edit script, applied from its first entry to the source, stays within bounds and
/// yields the target, starting from any cell `(x, y)` with the source's prefix of length `x`
/// followed by the target's suffix from `y`.
proof fn lemma_script_from(mat: &LevenshteinMatrix, x: nat, y: nat)
    requires
        mat.wf(),
        x < mat.cols,
        y < mat.rows,
    ensures
        script_applies(mat.src@.take(x as int) + mat.dst@.skip(y as int), mat.script(x, y), mat.dst@),
        apply_script(mat.src@.take(x as int) + mat.dst@.skip(y as int), mat.script(x, y), mat.dst@)
            == mat.dst@,
    decreases x + y,
{
    let s = mat.src@;
    let t = mat.dst@;
    let v = s.take(x as int) + t.skip(y as int);
    if x == 0 && y == 0 {
        assert(v =~= t);
    } else {
        let (e, x2, y2) = mat.step(x, y);
        lemma_step(mat, x, y);
        let es = mat.script(x, y);
        lemma_script_from(mat, x2, y2);
        assert(es[0] == (x2 as usize, e));
        assert(es.drop_first() =~= mat.script(x2, y2));
    }
}

/// Applying the edit script of a complete matrix, in the order the matrix emits it and at
/// the positions it gives, to the source yields the target exactly.
pub proof fn lemma_edits_round_trip(mat: &LevenshteinMatrix)
    requires
        mat.wf(),
    ensures
        script_applies(mat.source(), mat.indexed_edits(), mat.target()),
        apply_script(mat.source(), mat.indexed_edits(), mat.target()) == mat.target(),
{
    let s = mat.src@;
    let t = mat.dst@;
    lemma_script_from(mat, (mat.cols - 1) as nat, (mat.rows - 1) as nat);
    assert(s.take(s.len() as int) + t.skip(t.len() as int) =~= s);
}

/// An iterator over the edits of a complete matrix, from the last cell back to the origin.
pub struct Edits<'a> {
    matrix: &'a LevenshteinMatrix,
    x: usize,
    y: usize,
}

impl<'a> Edits<'a> {
    /// The matrix the edits come from.
    pub closed spec fn matrix(&self) -> LevenshteinMatrix {
        *self.matrix
    }

    /// The current position in the source.
    pub closed spec fn position(&self) -> nat {
        self.x as nat
    }

    /// The current position in the target.
    pub closed spec fn row(&self) -> nat {
        self.y as nat
    }

    /// The iterator has not yet moved.
    pub closed spec fn at_start(&self) -> bool {
        self.x + 1 == self.matrix.cols && self.y + 1 == self.matrix.rows
    }

    /// The iterator stands on a cell of a complete matrix.
    pub closed spec fn inv(&self) -> bool {
        self.matrix.wf() && self.x < self.matrix.cols && self.y < self.matrix.rows
    }

    /// The indexed edits still to come.
    pub open spec fn remaining(&self) -> Seq<(usize, Edit)> {
        edit_script(self.matrix().source(), self.matrix().target(), self.position(), self.row())
    }

    /// The iterator stands within the table of a complete matrix.
    pub proof fn lemma_bounds(&self)
        requires
            self.inv(),
        ensures
            self.matrix().wf(),
            self.position() <= self.matrix().source().len(),
            self.row() <= self.matrix().target().len(),
    {
    }

    /// Returns the next edit, or `None` once the origin is reached.
    pub fn next(&mut self) -> (r: Option<Edit>)
        requires
            old(self).inv(),
        ensures
            final(self).inv(),
            final(self).matrix() == old(self).matrix(),
            old(self).remaining().len() == 0 ==> r.is_none() && final(self).remaining()
                == old(self).remaining(),
            old(self).remaining().len() > 0 ==> r == Some(old(self).remaining()[0].1)
                && old(self).remaining()[0].0 == final(self).position() && final(self).remaining()
                == old(self).remaining().drop_first(),
            old(self).remaining().len() > 0 ==> (r.unwrap(), final(self).position(), final(self).row())
                == backtrack_step(
                old(self).matrix().source(),
                old(self).matrix().target(),
                old(self).position(),
                old(self).row(),
            ),
            old(self).remaining().len() == 0 <==> old(self).position() == 0 && old(self).row() == 0,
    {
        if self.x == 0 && self.y == 0 {
            return None;
        }
        let ghost s = self.matrix.src@;
        let ghost t = self.matrix.dst@;
        let ghost (e, x2, y2) = self.matrix.step(self.x as nat, self.y as nat);
        proof {
            lemma_lev_bound(s, t, self.x as nat, self.y as nat);
            if self.x > 0 {
                lemma_lev_bound(s, t, (self.x - 1) as nat, self.y as nat);
            }
            if self.y > 0 {
                lemma_lev_bound(s, t, self.x as nat, (self.y - 1) as nat);
            }
            if self.x > 0 && self.y > 0 {
                lemma_lev_bound(s, t, (self.x - 1) as nat, (self.y - 1) as nat);
            }
            assert(self.matrix.cell(0, self.y as int) == self.y);
            assert(self.matrix.cell(self.x as int, 0) == self.x);
            if self.y > 0 {
                assert(self.matrix.cell(0, self.y - 1) == self.y - 1);
            }
            if self.x > 0 {
                assert(self.matrix.cell(self.x - 1, 0) == self.x - 1);
            }
        }
        let current = self.matrix.get(self.x, self.y);
        let diagonal = if self.x > 0 && self.y > 0 {
            self.matrix.get(self.x - 1, self.y - 1)
        } else {
            usize::MAX
        };
        let left = if self.x > 0 {
            self.matrix.get(self.x - 1, self.y)
        } else {
            usize::MAX
        };
        let up = if self.y > 0 {
            self.matrix.get(self.x, self.y - 1)
        } else {
            usize::MAX
        };
        let r = if diagonal <= left && diagonal <= up && diagonal <= current {
            self.x -= 1;
            self.y -= 1;
            if diagonal == current {
                Some(Edit::Noop)
            } else {
                Some(Edit::Substitute(self.y))
            }
        } else if left <= up && left <= current {
            self.x -= 1;
            Some(Edit::Delete)
        } else {
            self.y -= 1;
            Some(Edit::Insert(self.y))
        };
        proof {
            assert(r == Some(e) && self.x == x2 && self.y == y2);
            assert(old(self).remaining() == seq![(x2 as usize, e)] + self.remaining());
            assert(old(self).remaining().drop_first() =~= self.remaining());
        }
        r
    }

    /// Returns the edits paired with the source position at which each applies.
    pub fn with_indices(self) -> (r: Vec<(usize, Edit)>)
        requires
            self.inv(),
            self.at_start(),
        ensures
            r@ == self.remaining(),
    {
        let mut i: usize = self.matrix.cols - 1;
        let ghost start = self;
        let mut it = self;
        let mut out: Vec<(usize, Edit)> = Vec::new();
        loop
            invariant
                it.inv(),
                it.matrix() == start.matrix(),
                i == it.position(),
                out@ + it.remaining() == start.remaining(),
            ensures
                out@ == start.remaining(),
            decreases it.remaining().len(),
        {
            let ghost before = it.remaining();
            match it.next() {
                Some(edit) => {
                    i -= match edit {
                        Edit::Insert(_) => 0,
                        Edit::Delete | Edit::Substitute(_) | Edit::Noop => 1,
                    };
                    out.push((i, edit));
                    proof {
                        assert(before =~= seq![before[0]] + it.remaining());
                    }
                },
                None => {
                    proof {
                        assert(out@ =~= out@ + before);
                    }
                    break;
                },
            }
        }
        out
    }

    /// Applies the edits to `lhs`, the source of the matrix, taking new elements from `rhs`,
    /// its target: `lhs` becomes a copy of `rhs`.
    pub fn apply(self, lhs: &mut Vec<usize>, rhs: &[usize])
        requires
            self.inv(),
            self.at_start(),
            old(lhs)@ == self.matrix().source(),
            rhs@ == self.matrix().target(),
        ensures
            final(lhs)@ == rhs@,
    {
        let ghost m = self.matrix();
        proof {
            lemma_edits_round_trip(self.matrix);
        }
        let es = self.with_indices();
        proof {
            assert(es@.skip(0) =~= es@);
        }
        let mut k: usize = 0;
        while k < es.len()
            invariant
                k <= es@.len(),
                script_applies(lhs@, es@.skip(k as int), rhs@),
                apply_script(lhs@, es@.skip(k as int), rhs@) == rhs@,
            decreases es@.len() - k,
        {
            let (i, edit) = es[k];
            proof {
                assert(es@.skip(k as int)[0] == es@[k as int]);
                assert(es@.skip(k as int).drop_first() =~= es@.skip(k + 1));
            }
            edit.apply(i, lhs, rhs);
            k += 1;
        }
        proof {
            assert(es@.skip(k as int) =~= Seq::<(usize, Edit)>::empty());
        }
    }
}

} // verus!
