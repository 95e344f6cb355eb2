use vstd::prelude::*;

verus! {

/// Why a differential system could not be built or solved.
#[derive(PartialEq, Eq, Structural, Clone, Copy, Debug)]
pub enum EditError {
    /// The chain has fewer than two points.
    EmptyChain,
    /// A local similarity fit had a singular normal matrix.
    DegenerateNeighborhood,
    /// The factorization or a triangular solve broke down.
    SingularSystem,
}

/// The points whose positions the local similarity fit of `i` reads: `i - 1`, `i`
/// and `i + 1`, those of them that lie on the chain, in chain order.
pub open spec fn neighborhood_points(n: nat, i: nat) -> Seq<usize> {
    let before = if i > 0 {
        seq![(i - 1) as usize]
    } else {
        Seq::empty()
    };
    let after = if i + 1 < n {
        seq![(i + 1) as usize]
    } else {
        Seq::empty()
    };
    before + seq![i as usize] + after
}

/// The Laplacian weight of point `j` in the row of point `i`, in halves: two on the
/// diagonal; for an adjacent point, minus two in the row of a chain end and minus one
/// in the row of an inner point; zero elsewhere.
pub open spec fn half_weight(n: nat, i: nat, j: nat) -> int {
    if i == j {
        2
    } else if j < n && (j + 1 == i || i + 1 == j) {
        if i == 0 || i + 1 == n {
            -2
        } else {
            -1
        }
    } else {
        0
    }
}

/// The weight, in halves, of an adjacent point in the Laplacian row of `i`.
pub open spec fn edge_half_weight(n: nat, i: nat) -> i64 {
    if i == 0 || i + 1 == n {
        -2i64
    } else {
        -1i64
    }
}

/// The non-zero entries of the Laplacian row of point `i`, as (column, weight in
/// halves): the adjacent points, then the diagonal.
pub open spec fn laplacian_row_entries(n: nat, i: nat) -> Seq<(usize, i64)> {
    let before = if i > 0 {
        seq![((i - 1) as usize, edge_half_weight(n, i))]
    } else {
        Seq::empty()
    };
    let after = if i + 1 < n {
        seq![((i + 1) as usize, edge_half_weight(n, i))]
    } else {
        Seq::empty()
    };
    before + after + seq![(i as usize, 2i64)]
}

/// Each entry of a Laplacian row carries the weight `half_weight` gives its column,
/// and every column with a non-zero weight has an entry.
pub proof fn lemma_laplacian_row_weights(n: nat, i: nat)
    requires
        2 <= n,
        i < n,
        n <= usize::MAX,
    ensures
        forall|k: int|
            0 <= k < laplacian_row_entries(n, i).len() ==> #[trigger] laplacian_row_entries(
                n,
                i,
            )[k].1 == half_weight(n, i, laplacian_row_entries(n, i)[k].0 as nat),
        forall|j: usize|
            half_weight(n, i, j as nat) != 0 ==> exists|k: int|
                0 <= k < laplacian_row_entries(n, i).len() && #[trigger] laplacian_row_entries(
                    n,
                    i,
                )[k].0 == j,
{
    let row = laplacian_row_entries(n, i);
    assert forall|j: usize| half_weight(n, i, j as nat) != 0 implies exists|k: int|
        0 <= k < row.len() && #[trigger] row[k].0 == j by {
        if j == i {
            assert(row[row.len() - 1].0 == j);
        } else if j + 1 == i {
            assert(row[0].0 == j);
        } else {
            if i > 0 {
                assert(row[1].0 == j);
            } else {
                assert(row[0].0 == j);
            }
        }
    }
}

/// The sum of the weights of `row`.
pub open spec fn weight_sum(row: Seq<(usize, i64)>) -> int
    decreases row.len(),
{
    if row.len() == 0 {
        0
    } else {
        weight_sum(row.drop_last()) + row.last().1
    }
}

/// The row applied to one coordinate of the points: the differential coordinate of
/// the row's point, in halves.
pub open spec fn row_apply(row: Seq<(usize, i64)>, p: Seq<int>) -> int
    decreases row.len(),
{
    if row.len() == 0 {
        0
    } else {
        row_apply(row.drop_last(), p) + row.last().1 * p[row.last().0 as int]
    }
}

/// Every Laplacian row sums to zero, chain ends included.
pub proof fn lemma_laplacian_row_sum(n: nat, i: nat)
    requires
        2 <= n,
        i < n,
        n <= usize::MAX,
    ensures
        weight_sum(laplacian_row_entries(n, i)) == 0,
{
    let row = laplacian_row_entries(n, i);
    reveal_with_fuel(weight_sum, 4);
    if i == 0 {
        assert(row =~= seq![(1usize, -2i64), (0usize, 2i64)]);
        assert(row.drop_last().drop_last() =~= Seq::<(usize, i64)>::empty());
    } else if i + 1 == n {
        assert(row =~= seq![((i - 1) as usize, -2i64), (i as usize, 2i64)]);
        assert(row.drop_last().drop_last() =~= Seq::<(usize, i64)>::empty());
    } else {
        assert(row =~= seq![((i - 1) as usize, -1i64), ((i + 1) as usize, -1i64), (i as usize, 2i64)]);
        assert(row.drop_last().drop_last().drop_last() =~= Seq::<(usize, i64)>::empty());
    }
}

/// One coordinate of every point moved by `c`.
pub open spec fn shifted(p: Seq<int>, c: int) -> Seq<int> {
    p.map_values(|x: int| x + c)
}

/// Shifting one coordinate of every point by `c` shifts what a row gives by `c`
/// times the row's weight sum.
pub proof fn lemma_row_apply_shift(row: Seq<(usize, i64)>, p: Seq<int>, c: int)
    requires
        forall|k: int| 0 <= k < row.len() ==> (#[trigger] row[k]).0 < p.len(),
    ensures
        row_apply(row, shifted(p, c)) == row_apply(row, p) + c * weight_sum(row),
    decreases row.len(),
{
    if row.len() > 0 {
        let q = shifted(p, c);
        let last = row.last();
        assert(row[row.len() - 1] == last);
        assert(row.drop_last().len() == row.len() - 1);
        assert forall|k: int| 0 <= k < row.drop_last().len() implies (
        #[trigger] row.drop_last()[k]).0 < p.len() by {
            assert(row.drop_last()[k] == row[k]);
        }
        lemma_row_apply_shift(row.drop_last(), p, c);
        assert(q[last.0 as int] == p[last.0 as int] + c);
        assert(last.1 * (p[last.0 as int] + c) == last.1 * p[last.0 as int] + c * last.1)
            by (nonlinear_arith);
        assert(c * weight_sum(row.drop_last()) + c * last.1 == c * (weight_sum(row.drop_last())
            + last.1)) by (nonlinear_arith);
    }
}

/// Differential coordinates do not see a translation: moving every point of the chain
/// by the same amount along one axis leaves that coordinate of `L p` unchanged at
/// every point.
pub proof fn lemma_delta_translation_invariant(n: nat, i: nat, p: Seq<int>, c: int)
    requires
        2 <= n,
        i < n,
        n <= usize::MAX,
        p.len() == n,
    ensures
        row_apply(laplacian_row_entries(n, i), shifted(p, c)) == row_apply(
            laplacian_row_entries(n, i),
            p,
        ),
{
    let row = laplacian_row_entries(n, i);
    lemma_laplacian_row_sum(n, i);
    assert forall|k: int| 0 <= k < row.len() implies (#[trigger] row[k]).0 < p.len() by {}
    lemma_row_apply_shift(row, p, c);
}

/// The points read by the local similarity fit of point `i`.
pub fn neighborhood(n: usize, i: usize) -> (r: Vec<usize>)
    requires
        i < n,
    ensures
        r@ == neighborhood_points(n as nat, i as nat),
{
    let mut r: Vec<usize> = Vec::new();
    if i > 0 {
        r.push(i - 1);
    }
    r.push(i);
    if i + 1 < n {
        r.push(i + 1);
    }
    assert(r@ =~= neighborhood_points(n as nat, i as nat));
    r
}

/// The Laplacian row of point `i` of a chain of `n`, weights in halves.
pub fn laplacian_row(n: usize, i: usize) -> (r: Vec<(usize, i64)>)
    requires
        2 <= n,
        i < n,
    ensures
        r@ == laplacian_row_entries(n as nat, i as nat),
        weight_sum(r@) == 0,
{
    let w: i64 = if i == 0 || i + 1 == n {
        -2
    } else {
        -1
    };
    let mut r: Vec<(usize, i64)> = Vec::new();
    if i > 0 {
        r.push((i - 1, w));
    }
    if i + 1 < n {
        r.push((i + 1, w));
    }
    r.push((i, 2));
    assert(r@ =~= laplacian_row_entries(n as nat, i as nat));
    proof {
        lemma_laplacian_row_sum(n as nat, i as nat);
    }
    r
}

/// The unknown of the x coordinate of point `i` is `i`, that of its y coordinate
/// `n + i`; the same goes for the differential rows.
///
/// The constraint entry `k` of a system with `fixed` pinned: the rows after the
/// `2 n` differential rows pin first the x coordinate of each pinned point, then
/// the y coordinate of each, as (row, unknown).
pub open spec fn constraint_entry(n: nat, fixed: Seq<usize>, k: int) -> (usize, usize) {
    let m = fixed.len() as int;
    if k < m {
        ((2 * n + k) as usize, fixed[k])
    } else {
        ((2 * n + k) as usize, (n + fixed[k - m]) as usize)
    }
}

/// The shape of the least-squares system of a chain of `n` points with `fixed`
/// pinned: `2 n` unknowns, `2 n` differential rows, and two constraint rows per
/// pinned point.
#[derive(Clone, Debug)]
pub struct SystemLayout {
    pub n: usize,
    pub fixed: Vec<usize>,
}

impl SystemLayout {
    /// At least two points, pinned points on the chain, and every row index fits.
    pub open spec fn wf(&self) -> bool {
        &&& 2 <= self.n
        &&& forall|k: int| 0 <= k < self.fixed@.len() ==> #[trigger] self.fixed@[k] < self.n
        &&& 2 * self.n + 2 * self.fixed@.len() <= usize::MAX
    }

    /// The layout for a chain of `n` points with `fixed` pinned; a chain of fewer
    /// than two points has none.
    pub fn new(n: usize, fixed: Vec<usize>) -> (r: Result<SystemLayout, EditError>)
        requires
            forall|k: int| 0 <= k < fixed@.len() ==> #[trigger] fixed@[k] < n,
            2 * n + 2 * fixed@.len() <= usize::MAX,
        ensures
            n < 2 <==> r == Err::<SystemLayout, EditError>(EditError::EmptyChain),
            2 <= n <==> r is Ok,
            r matches Ok(l) ==> l.wf() && l.n == n && l.fixed@ == fixed@,
    {
        if n < 2 {
            Err(EditError::EmptyChain)
        } else {
            Ok(SystemLayout { n, fixed })
        }
    }

    /// The number of equations: `2 n + 2 |fixed|`.
    pub fn row_count(&self) -> (r: usize)
        requires
            self.wf(),
        ensures
            r == 2 * self.n + 2 * self.fixed@.len(),
    {
        2 * self.n + 2 * self.fixed.len()
    }

    /// The number of unknowns: `2 n`.
    pub fn col_count(&self) -> (r: usize)
        requires
            self.wf(),
        ensures
            r == 2 * self.n,
    {
        2 * self.n
    }

    /// The (row, unknown) of every constraint entry, in row order.
    pub fn constraint_entries(&self) -> (r: Vec<(usize, usize)>)
        requires
            self.wf(),
        ensures
            r@.len() == 2 * self.fixed@.len(),
            forall|k: int|
                0 <= k < r@.len() ==> #[trigger] r@[k] == constraint_entry(
                    self.n as nat,
                    self.fixed@,
                    k,
                ),
    {
        let n = self.n;
        let m = self.fixed.len();
        let mut r: Vec<(usize, usize)> = Vec::new();
        let mut k: usize = 0;
        while k < 2 * m
            invariant
                self.wf(),
                n == self.n,
                m == self.fixed@.len(),
                k <= 2 * m,
                r@.len() == k,
                forall|j: int| 0 <= j < k ==> #[trigger] r@[j] == constraint_entry(n as nat, self.fixed@, j),
            decreases 2 * m - k,
        {
            let e = if k < m {
                (2 * n + k, self.fixed[k])
            } else {
                (2 * n + k, n + self.fixed[k - m])
            };
            r.push(e);
            k += 1;
        }
        r
    }
}

/// The entries contributed by point `i` to the stacked `2 n` by `2 n` Laplacian,
/// as (row, unknown, weight in halves): its row in the x block, then the same row
/// in the y block.
pub open spec fn point_block(n: nat, i: nat) -> Seq<(usize, usize, i64)> {
    let row = laplacian_row_entries(n, i);
    let m = row.len() as int;
    Seq::new(
        (2 * m) as nat,
        |k: int|
            if k < m {
                (i as usize, row[k].0, row[k].1)
            } else {
                ((n + i) as usize, (n + row[k - m].0) as usize, row[k - m].1)
            },
    )
}

/// The entries of the stacked Laplacian contributed by the points `0..k`.
pub open spec fn stacked_entries(n: nat, k: nat) -> Seq<(usize, usize, i64)>
    decreases k,
{
    if k == 0 {
        Seq::empty()
    } else {
        stacked_entries(n, (k - 1) as nat) + point_block(n, (k - 1) as nat)
    }
}

/// The weight, in halves, of unknown `c` in row `r` of the stacked Laplacian: the
/// x and y blocks each hold the chain's Laplacian, and nothing couples them.
pub open spec fn stacked_half_weight(n: nat, r: nat, c: nat) -> int {
    if r < n && c < n {
        half_weight(n, r, c)
    } else if n <= r < 2 * n && n <= c < 2 * n {
        half_weight(n, (r - n) as nat, (c - n) as nat)
    } else {
        0
    }
}

/// Every entry of the stacked Laplacian lies in the `2 n` by `2 n` square and
/// carries the weight `stacked_half_weight` gives its position.
pub proof fn lemma_stacked_entries(n: nat, k: nat)
    requires
        2 <= n,
        k <= n,
        2 * n <= usize::MAX,
    ensures
        forall|e: int|
            0 <= e < stacked_entries(n, k).len() ==> {
                let t = #[trigger] stacked_entries(n, k)[e];
                &&& t.0 < 2 * n
                &&& t.1 < 2 * n
                &&& t.2 == stacked_half_weight(n, t.0 as nat, t.1 as nat)
            },
    decreases k,
{
    if k > 0 {
        let i = (k - 1) as nat;
        lemma_stacked_entries(n, i);
        lemma_laplacian_row_weights(n, i);
        let prev = stacked_entries(n, i);
        let blk = point_block(n, i);
        let row = laplacian_row_entries(n, i);
        let m = row.len() as int;
        assert forall|e: int| 0 <= e < stacked_entries(n, k).len() implies {
            let t = #[trigger] stacked_entries(n, k)[e];
            &&& t.0 < 2 * n
            &&& t.1 < 2 * n
            &&& t.2 == stacked_half_weight(n, t.0 as nat, t.1 as nat)
        } by {
            if e >= prev.len() {
                let q = e - prev.len();
                let j = if q < m {
                    q
                } else {
                    q - m
                };
                assert(row[j].1 == half_weight(n, i, row[j].0 as nat));
                assert(row[j].0 < n) by {
                    assert(0 <= j < row.len());
                }
            }
        }
    }
}

/// The stacked `2 n` by `2 n` Laplacian of a chain of `n` points, weights in halves.
pub fn laplacian_entries(n: usize) -> (r: Vec<(usize, usize, i64)>)
    requires
        2 <= n,
        2 * n <= usize::MAX,
    ensures
        r@ == stacked_entries(n as nat, n as nat),
{
    let mut r: Vec<(usize, usize, i64)> = Vec::new();
    let mut i: usize = 0;
    while i < n
        invariant
            2 <= n,
            2 * n <= usize::MAX,
            i <= n,
            r@ == stacked_entries(n as nat, i as nat),
        decreases n - i,
    {
        let row = laplacian_row(n, i);
        let ghost base = r@;
        let ghost m = row@.len() as int;
        let mut k: usize = 0;
        while k < row.len()
            invariant
                i < n,
                2 * n <= usize::MAX,
                row@ == laplacian_row_entries(n as nat, i as nat),
                m == row@.len(),
                k <= m,
                r@ == base + point_block(n as nat, i as nat).subrange(0, k as int),
            decreases m - k,
        {
            let (j, w) = row[k];
            assert(j < n) by {
                assert(row@[k as int].0 < n);
            }
            r.push((i, j, w));
            assert(point_block(n as nat, i as nat).subrange(0, k + 1) =~= point_block(
                n as nat,
                i as nat,
            ).subrange(0, k as int).push((i, j, w)));
            assert(r@ =~= base + point_block(n as nat, i as nat).subrange(0, k + 1));
            k += 1;
        }
        let mut k: usize = 0;
        while k < row.len()
            invariant
                i < n,
                2 * n <= usize::MAX,
                row@ == laplacian_row_entries(n as nat, i as nat),
                m == row@.len(),
                k <= m,
                r@ == base + point_block(n as nat, i as nat).subrange(0, m + k),
            decreases m - k,
        {
            let (j, w) = row[k];
            assert(j < n) by {
                assert(row@[k as int].0 < n);
            }
            r.push((n + i, n + j, w));
            assert(point_block(n as nat, i as nat).subrange(0, m + k + 1) =~= point_block(
                n as nat,
                i as nat,
            ).subrange(0, m + k).push(((n + i) as usize, (n + j) as usize, w)));
            assert(r@ =~= base + point_block(n as nat, i as nat).subrange(0, m + k + 1));
            k += 1;
        }
        assert(point_block(n as nat, i as nat).subrange(0, 2 * m) =~= point_block(
            n as nat,
            i as nat,
        ));
        i += 1;
    }
    r
}

} // verus!
