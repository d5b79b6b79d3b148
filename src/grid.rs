use vstd::arithmetic::div_mod::{lemma_fundamental_div_mod, lemma_fundamental_div_mod_converse};
use vstd::prelude::*;
use vstd::assert_seqs_equal;

use crate::{GRID_SIDE, PATCH_HALF};

verus! {

/// A band of the scan grid: the columns `x` with `start <= x < end`, each
/// taken with every row `y` in `[-PATCH_HALF, PATCH_HALF)`.
#[derive(Clone, Copy, Debug, PartialEq, Eq, Structural)]
pub struct Band {
    pub start: i32,
    pub end: i32,
}

impl Band {
    /// The band lies inside the patch and does not run backwards.
    pub open spec fn wf(self) -> bool {
        -PATCH_HALF <= self.start <= self.end <= PATCH_HALF
    }
}

/// The grid cell at position `k` of a row-major walk that starts at column
/// `first`: the column advances once every `GRID_SIDE` cells.
pub open spec fn cell_at(first: int, k: int) -> (i32, i32) {
    ((first + k / GRID_SIDE as int) as i32, (-PATCH_HALF + k % GRID_SIDE as int) as i32)
}

/// Every cell of the columns `[lo, hi)`, column by column, rows ascending.
pub open spec fn cells_between(lo: int, hi: int) -> Seq<(i32, i32)> {
    Seq::new(((hi - lo) * GRID_SIDE) as nat, |k: int| cell_at(lo, k))
}

/// The whole scan grid, in the order of the full scan.
pub open spec fn full_grid() -> Seq<(i32, i32)> {
    cells_between(-PATCH_HALF as int, PATCH_HALF as int)
}

/// How many bands a request for `requested` bands yields: at least one, and
/// no more than there are columns.
pub open spec fn band_count(requested: int) -> int {
    if requested < 1 {
        1
    } else if requested > GRID_SIDE {
        GRID_SIDE as int
    } else {
        requested
    }
}

/// The first column of band `i` out of `n`.
pub open spec fn band_bound(i: int, n: int) -> int {
    -PATCH_HALF + (i * GRID_SIDE) / n
}

/// The `n` bands that split the columns into near-equal runs.
pub open spec fn planned_bands(n: int) -> Seq<Band> {
    Seq::new(
        n as nat,
        |i: int| Band { start: band_bound(i, n) as i32, end: band_bound(i + 1, n) as i32 },
    )
}

/// The cells of the bands of `bands`, one band after the other.
pub open spec fn joined_cells(bands: Seq<Band>) -> Seq<(i32, i32)>
    decreases bands.len(),
{
    if bands.len() == 0 {
        Seq::empty()
    } else {
        joined_cells(bands.drop_last()) + cells_between(
            bands.last().start as int,
            bands.last().end as int,
        )
    }
}

proof fn lemma_bound_range(i: int, n: int)
    requires
        1 <= n <= GRID_SIDE,
        0 <= i <= n,
    ensures
        0 <= (i * GRID_SIDE) / n <= GRID_SIDE,
        i == 0 ==> (i * GRID_SIDE) / n == 0,
        i == n ==> (i * GRID_SIDE) / n == GRID_SIDE,
        i < n ==> (i * GRID_SIDE) / n < ((i + 1) * GRID_SIDE) / n,
{
    let w = GRID_SIDE as int;
    assert(0 <= i * w <= n * w) by (nonlinear_arith)
        requires
            0 <= i <= n,
            w == 1000,
    ;
    lemma_fundamental_div_mod(i * w, n);
    let q = (i * w) / n;
    let r = (i * w) % n;
    assert(0 <= q <= w) by (nonlinear_arith)
        requires
            i * w == n * q + r,
            0 <= r < n,
            0 <= i * w <= n * w,
            n >= 1,
    ;
    if i == n {
        lemma_fundamental_div_mod_converse(i * w, n, w, 0);
    }
    if i < n {
        assert((i + 1) * w == i * w + w) by (nonlinear_arith);
        lemma_fundamental_div_mod((i + 1) * w, n);
        let q2 = ((i + 1) * w) / n;
        let r2 = ((i + 1) * w) % n;
        assert(q < q2) by (nonlinear_arith)
            requires
                i * w == n * q + r,
                (i + 1) * w == n * q2 + r2,
                (i + 1) * w == i * w + w,
                0 <= r < n,
                0 <= r2 < n,
                n <= w,
        ;
    }
}

/// Row-major positions: the cell `j` rows past the start of column `q`.
proof fn lemma_cell_position(q: int, j: int)
    requires
        q >= 0,
        0 <= j < GRID_SIDE,
    ensures
        (q * GRID_SIDE + j) / GRID_SIDE as int == q,
        (q * GRID_SIDE + j) % GRID_SIDE as int == j,
{
    lemma_fundamental_div_mod_converse(q * GRID_SIDE + j, GRID_SIDE as int, q, j);
}

proof fn lemma_cells_append_column(lo: int, x: int)
    requires
        lo <= x,
    ensures
        cells_between(lo, x + 1) =~= cells_between(lo, x) + Seq::new(
            GRID_SIDE as nat,
            |j: int| (x as i32, (j - PATCH_HALF) as i32),
        ),
{
    let w = GRID_SIDE as int;
    assert((x + 1 - lo) * w == (x - lo) * w + w) by (nonlinear_arith);
    assert forall|k: int| (x - lo) * w <= k < (x + 1 - lo) * w implies cell_at(lo, k) == (
    x as i32, (k - (x - lo) * w - PATCH_HALF) as i32) by {
        lemma_cell_position(x - lo, k - (x - lo) * w);
    }
}

/// Columns `[a, b)` followed by columns `[b, c)` are columns `[a, c)`.
proof fn lemma_cells_concat(a: int, b: int, c: int)
    requires
        a <= b <= c,
    ensures
        cells_between(a, b) + cells_between(b, c) =~= cells_between(a, c),
{
    let w = GRID_SIDE as int;
    assert((c - a) * w == (b - a) * w + (c - b) * w) by (nonlinear_arith);
    assert forall|k: int| (b - a) * w <= k < (c - a) * w implies cell_at(a, k) == cell_at(
        b,
        k - (b - a) * w,
    ) by {
        let k2 = k - (b - a) * w;
        lemma_fundamental_div_mod(k2, w);
        assert(k2 / w >= 0) by (nonlinear_arith)
            requires
                k2 >= 0,
                w > 0,
        ;
        assert(k == ((b - a) + k2 / w) * w + k2 % w) by (nonlinear_arith)
            requires
                k2 == w * (k2 / w) + k2 % w,
                k == k2 + (b - a) * w,
        ;
        lemma_fundamental_div_mod_converse(k, w, (b - a) + k2 / w, k2 % w);
    }
}

proof fn lemma_joined_contiguous(bands: Seq<Band>, lo: int)
    requires
        bands.len() >= 1,
        bands[0].start == lo,
        forall|i: int| 0 <= i < bands.len() ==> bands[i].start <= bands[i].end,
        forall|i: int| 0 <= i < bands.len() - 1 ==> bands[i].end == bands[i + 1].start,
    ensures
        lo <= bands.last().end,
        joined_cells(bands) == cells_between(lo, bands.last().end as int),
    decreases bands.len(),
{
    if bands.len() == 1 {
        assert(joined_cells(bands.drop_last()) == Seq::<(i32, i32)>::empty());
        assert(joined_cells(bands) =~= cells_between(lo, bands.last().end as int));
    } else {
        let init = bands.drop_last();
        lemma_joined_contiguous(init, lo);
        assert(init.last().end == bands.last().start);
        lemma_cells_concat(lo, bands.last().start as int, bands.last().end as int);
    }
}

/// The bands of any split, scanned one after the other, visit every cell of
/// the grid exactly once and in the order of the full scan: no band needs
/// another band's output.
pub proof fn lemma_bands_cover_grid(n: int)
    requires
        1 <= n <= GRID_SIDE,
    ensures
        joined_cells(planned_bands(n)) == full_grid(),
{
    let bands = planned_bands(n);
    assert forall|i: int| 0 <= i < n implies bands[i].start <= bands[i].end by {
        lemma_bound_range(i, n);
        lemma_bound_range(i + 1, n);
    }
    lemma_bound_range(0, n);
    lemma_bound_range(n, n);
    lemma_joined_contiguous(bands, -PATCH_HALF as int);
}

/// Splits the columns of the scan grid into `requested` bands of near-equal
/// width, in order (clamped to at least one band and at most one per column).
/// Scanned one after the other, the bands visit the whole grid in scan order.
pub fn scan_bands(requested: u32) -> (r: Vec<Band>)
    ensures
        r@ == planned_bands(band_count(requested as int)),
        joined_cells(r@) == full_grid(),
        forall|i: int| 0 <= i < r@.len() ==> (#[trigger] r@[i]).wf() && r@[i].start < r@[i].end,
{
    let n: u32 = if requested < 1 {
        1
    } else if requested > GRID_SIDE as u32 {
        GRID_SIDE as u32
    } else {
        requested
    };
    let ghost planned = planned_bands(n as int);
    let mut r: Vec<Band> = Vec::new();
    let mut i: u32 = 0;
    while i < n
        invariant
            1 <= n <= GRID_SIDE,
            n == band_count(requested as int),
            planned == planned_bands(n as int),
            i <= n,
            r@ == planned.take(i as int),
        decreases n - i,
    {
        proof {
            lemma_bound_range(i as int, n as int);
            lemma_bound_range(i + 1, n as int);
            assert(i * 1000 <= 1000000 && (i + 1) * 1000 <= 1000000) by (nonlinear_arith)
                requires
                    i < n <= 1000,
            ;
        }
        let lo: u32 = i * (GRID_SIDE as u32) / n;
        let hi: u32 = (i + 1) * (GRID_SIDE as u32) / n;
        r.push(Band { start: lo as i32 - PATCH_HALF, end: hi as i32 - PATCH_HALF });
        assert(r@ =~= planned.take(i + 1));
        i = i + 1;
    }
    assert(r@ =~= planned);
    proof {
        lemma_bands_cover_grid(n as int);
    }
    assert forall|i: int| 0 <= i < r@.len() implies (#[trigger] r@[i]).wf() && r@[i].start
        < r@[i].end by {
        lemma_bound_range(i, n as int);
        lemma_bound_range(i + 1, n as int);
    }
    r
}

impl Band {
    /// Every cell of the band, column by column with rows ascending, as the
    /// full scan visits them.
    pub fn cells(&self) -> (r: Vec<(i32, i32)>)
        requires
            self.wf(),
        ensures
            r@ == cells_between(self.start as int, self.end as int),
    {
        let mut r: Vec<(i32, i32)> = Vec::new();
        let mut x: i32 = self.start;
        while x < self.end
            invariant
                self.wf(),
                self.start <= x <= self.end,
                r@ == cells_between(self.start as int, x as int),
            decreases self.end - x,
        {
            let mut y: i32 = -PATCH_HALF;
            while y < PATCH_HALF
                invariant
                    self.wf(),
                    self.start <= x < self.end,
                    -PATCH_HALF <= y <= PATCH_HALF,
                    r@ == cells_between(self.start as int, x as int) + Seq::new(
                        (y + PATCH_HALF) as nat,
                        |j: int| (x, (j - PATCH_HALF) as i32),
                    ),
                decreases PATCH_HALF - y,
            {
                r.push((x, y));
                let ghost before = cells_between(self.start as int, x as int);
                assert(r@ =~= before + Seq::new(
                    (y + 1 + PATCH_HALF) as nat,
                    |j: int| (x, (j - PATCH_HALF) as i32),
                ));
                y = y + 1;
            }
            proof {
                lemma_cells_append_column(self.start as int, x as int);
                assert(r@ =~= cells_between(self.start as int, x + 1));
            }
            x = x + 1;
        }
        r
    }
}

} // verus!
