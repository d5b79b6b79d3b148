use vstd::arithmetic::div_mod::{lemma_fundamental_div_mod, lemma_fundamental_div_mod_converse};
use vstd::prelude::*;

verus! {

/// Sub-units per patch unit: coordinates are fixed-point thousandths.
pub const UNIT: i64 = 1000;

/// The patch half-size `S` in sub-units (`PATCH_HALF` units).
pub const HALF: i64 = 500_000;

/// One lap round the patch horizontally, `2 * S`.
pub const PERIOD: i64 = 1_000_000;

/// One full meridian over both poles, `4 * S`.
pub const MERIDIAN: i64 = 2_000_000;

/// Tolerance of the coarse positional match: a tenth of a unit.
pub const NEAR: i64 = 100;

/// A point of the patch in sub-units, with the parity of the pole crossings
/// it has made (`spin`).
#[derive(Clone, Copy, Debug, PartialEq, Eq, Structural)]
pub struct Vector2 {
    pub x: i64,
    pub y: i64,
    pub spin: bool,
}

/// `v` is a coordinate of the patch itself.
pub open spec fn in_patch(v: int) -> bool {
    -HALF <= v <= HALF
}

/// The coordinate in `[-S, S]` that `v` stands for once the two vertical
/// edges of the patch are taken as one line. Both edges, `S` and `-S`, are
/// the same place; the sign of `v` decides which of them is returned.
pub open spec fn folded(v: int) -> int {
    let m = v % (PERIOD as int);
    if m > HALF {
        m - PERIOD
    } else if m == HALF && v < 0 {
        -HALF
    } else {
        m
    }
}

/// Whether reaching `y` from the patch goes over a pole an odd number of times.
pub open spec fn reflected(y: int) -> bool {
    let t = y % (MERIDIAN as int);
    HALF < t < 3 * HALF
}

/// Where `y` lands back on the patch after going over the poles.
pub open spec fn settled_y(y: int) -> int {
    let t = y % (MERIDIAN as int);
    if t <= HALF {
        t
    } else if t < 3 * HALF {
        2 * HALF - t
    } else {
        t - MERIDIAN
    }
}

/// The point `p` brought back onto the patch: `x` is folded, and each pole
/// crossing reflects `y`, moves `x` half a lap and flips the spin.
pub open spec fn settled(p: Vector2) -> Vector2 {
    Vector2 {
        x: (if reflected(p.y as int) {
            folded(folded(p.x as int) + HALF)
        } else {
            folded(p.x as int)
        }) as i64,
        y: settled_y(p.y as int) as i64,
        spin: p.spin != reflected(p.y as int),
    }
}

/// A negative coordinate taken into `[0, 2S)`; others as they are.
pub open spec fn canonical(v: int) -> int {
    if v < 0 {
        v % (PERIOD as int)
    } else {
        v
    }
}

pub open spec fn abs_int(v: int) -> int {
    if v < 0 {
        -v
    } else {
        v
    }
}

/// Two coordinates match coarsely: their magnitudes differ by under `NEAR`.
pub open spec fn near(a: int, b: int) -> bool {
    abs_int(abs_int(a) - abs_int(b)) < NEAR
}

/// The move that `add(dx, dy)` makes: mirrored when the spin is set.
pub open spec fn moved(p: Vector2, dx: int, dy: int) -> (int, int) {
    if p.spin {
        (p.x - dx, p.y - dy)
    } else {
        (p.x + dx, p.y + dy)
    }
}

proof fn lemma_multiple_mod(q: int, m: int)
    requires
        m > 0,
    ensures
        (q * m) % m == 0,
{
    lemma_fundamental_div_mod_converse(q * m, m, q, 0);
}

/// What a fold gives: a patch coordinate, congruent to `v`, and `v` itself
/// when `v` is already on the patch.
pub proof fn lemma_folded(v: int)
    ensures
        in_patch(folded(v)),
        (folded(v) - v) % (PERIOD as int) == 0,
        in_patch(v) ==> folded(v) == v,
{
    let p = PERIOD as int;
    lemma_fundamental_div_mod(v, p);
    let q = v / p;
    let m = v % p;
    if m > HALF || (m == HALF && v < 0) {
        assert(folded(v) - v == (-q - 1) * p) by (nonlinear_arith)
            requires
                v == p * q + m,
                folded(v) == m - p,
        ;
        lemma_multiple_mod(-q - 1, p);
    } else {
        assert(folded(v) - v == (-q) * p) by (nonlinear_arith)
            requires
                v == p * q + m,
                folded(v) == m,
        ;
        lemma_multiple_mod(-q, p);
    }
    if in_patch(v) {
        if v >= 0 {
            lemma_fundamental_div_mod_converse(v, p, 0, v);
        } else {
            lemma_fundamental_div_mod_converse(v, p, -1, v + p);
        }
    }
}

/// Folding commutes with mirroring: `-v` folds to the mirror image of `v`.
pub proof fn lemma_folded_mirror(v: int)
    ensures
        folded(-v) == -folded(v),
{
    let p = PERIOD as int;
    lemma_fundamental_div_mod(v, p);
    let q = v / p;
    let m = v % p;
    if m == 0 {
        lemma_fundamental_div_mod_converse(-v, p, -q, 0);
    } else {
        assert(-v == (-q - 1) * p + (p - m)) by (nonlinear_arith)
            requires
                v == p * q + m,
        ;
        lemma_fundamental_div_mod_converse(-v, p, -q - 1, p - m);
        if m == HALF {
            assert(v != 0);
        }
    }
}

/// Where `y` lands is on the patch, and is `y` itself or its mirror image
/// about a pole, up to whole meridians; a `y` on the patch stays put.
pub proof fn lemma_settled_y(y: int)
    ensures
        in_patch(settled_y(y)),
        reflected(y) ==> (settled_y(y) - (2 * HALF - y)) % (MERIDIAN as int) == 0,
        !reflected(y) ==> (settled_y(y) - y) % (MERIDIAN as int) == 0,
        in_patch(y) ==> settled_y(y) == y && !reflected(y),
{
    let w = MERIDIAN as int;
    lemma_fundamental_div_mod(y, w);
    let q = y / w;
    let t = y % w;
    if reflected(y) {
        assert(settled_y(y) - (2 * HALF - y) == q * w) by (nonlinear_arith)
            requires
                y == w * q + t,
                settled_y(y) == 2 * HALF - t,
        ;
        lemma_multiple_mod(q, w);
    } else if t <= HALF {
        assert(settled_y(y) - y == (-q) * w) by (nonlinear_arith)
            requires
                y == w * q + t,
                settled_y(y) == t,
        ;
        lemma_multiple_mod(-q, w);
    } else {
        assert(settled_y(y) - y == (-q - 1) * w) by (nonlinear_arith)
            requires
                y == w * q + t,
                settled_y(y) == t - w,
        ;
        lemma_multiple_mod(-q - 1, w);
    }
    if in_patch(y) {
        if y >= 0 {
            lemma_fundamental_div_mod_converse(y, w, 0, y);
        } else {
            lemma_fundamental_div_mod_converse(y, w, -1, y + w);
        }
    }
}

/// A settled point lies on the patch, and a point already on the patch is
/// settled as it is.
pub proof fn lemma_settled_in_patch(p: Vector2)
    ensures
        in_patch(settled(p).x as int),
        in_patch(settled(p).y as int),
        in_patch(p.x as int) && in_patch(p.y as int) ==> settled(p) == p,
{
    lemma_folded(p.x as int);
    lemma_folded(folded(p.x as int) + HALF);
    lemma_settled_y(p.y as int);
}

/// Settling is idempotent: settling a settled point changes nothing.
pub proof fn lemma_settle_twice(p: Vector2)
    ensures
        settled(settled(p)) == settled(p),
{
    lemma_settled_in_patch(p);
    lemma_settled_in_patch(settled(p));
}

/// Going less than a half meridian past either pole is one crossing: `y` is
/// reflected about that pole, `x` moves half a lap, and the spin flips once.
pub proof fn lemma_one_pole_crossing(p: Vector2)
    requires
        HALF < p.y < 3 * HALF || -3 * HALF < p.y < -HALF,
    ensures
        settled(p).y == (if p.y > 0 { 2 * HALF - p.y } else { -2 * HALF - p.y }),
        settled(p).x == folded(folded(p.x as int) + HALF),
        settled(p).spin == !p.spin,
{
    let w = MERIDIAN as int;
    if p.y > 0 {
        lemma_fundamental_div_mod_converse(p.y as int, w, 0, p.y as int);
    } else {
        lemma_fundamental_div_mod_converse(p.y as int, w, -1, p.y + w);
    }
    lemma_folded(p.x as int);
    lemma_folded(folded(p.x as int) + HALF);
}

/// `v mod m`, in `[0, m)`, for every `v`.
fn euclid_mod(v: i64, m: i64) -> (r: i64)
    requires
        m > 0,
    ensures
        r == v as int % m as int,
{
    if v >= 0 {
        v % m
    } else {
        let k: i64 = -(v + 1);
        let r: i64 = m - 1 - k % m;
        proof {
            lemma_fundamental_div_mod(k as int, m as int);
            let q = k as int / m as int;
            assert(v == (-q - 1) * m + r) by (nonlinear_arith)
                requires
                    k == m * q + k as int % m as int,
                    k == -(v + 1),
                    r == m - 1 - k as int % m as int,
            ;
            lemma_fundamental_div_mod_converse(v as int, m as int, -q - 1, r as int);
        }
        r
    }
}

impl Vector2 {
    /// A point with no pole crossings behind it.
    pub fn new(x: i64, y: i64) -> (r: Vector2)
        ensures
            r == (Vector2 { x, y, spin: false }),
    {
        Vector2 { x, y, spin: false }
    }

    /// Folds a horizontal coordinate onto the patch, the two vertical edges
    /// being one line.
    pub fn lapped(l: i64) -> (r: i64)
        ensures
            r == folded(l as int),
            in_patch(r as int),
            (r - l) % (PERIOD as int) == 0,
            in_patch(l as int) ==> r == l,
    {
        proof {
            lemma_folded(l as int);
        }
        let m = euclid_mod(l, PERIOD);
        if m > HALF {
            m - PERIOD
        } else if m == HALF && l < 0 {
            -HALF
        } else {
            m
        }
    }

    /// The point brought back onto the patch.
    pub fn optimized(&self) -> (r: Vector2)
        ensures
            r == settled(*self),
            in_patch(r.x as int),
            in_patch(r.y as int),
            in_patch(self.x as int) && in_patch(self.y as int) ==> r == *self,
    {
        proof {
            lemma_settled_in_patch(*self);
        }
        let fx = Self::lapped(self.x);
        let t = euclid_mod(self.y, MERIDIAN);
        if t <= HALF {
            Vector2 { x: fx, y: t, spin: self.spin }
        } else if t < 3 * HALF {
            Vector2 { x: Self::lapped(fx + HALF), y: 2 * HALF - t, spin: !self.spin }
        } else {
            Vector2 { x: fx, y: t - MERIDIAN, spin: self.spin }
        }
    }

    /// Brings the point back onto the patch in place; a second call changes
    /// nothing.
    pub fn optimize(&mut self)
        ensures
            *final(self) == settled(*old(self)),
            in_patch(final(self).x as int),
            in_patch(final(self).y as int),
            settled(*final(self)) == *final(self),
    {
        proof {
            lemma_settle_twice(*self);
        }
        *self = self.optimized();
    }

    /// Canonical form for comparisons: negative coordinates are taken into
    /// `[0, 2S)`, others kept; the spin is dropped.
    pub fn abs(&self) -> (r: Vector2)
        ensures
            r == (Vector2 {
                x: canonical(self.x as int) as i64,
                y: canonical(self.y as int) as i64,
                spin: false,
            }),
    {
        let x = if self.x < 0 {
            euclid_mod(self.x, PERIOD)
        } else {
            self.x
        };
        let y = if self.y < 0 {
            euclid_mod(self.y, PERIOD)
        } else {
            self.y
        };
        Vector2::new(x, y)
    }

    /// Coarse positional match: on each axis the magnitudes differ by less
    /// than a tenth of a unit.
    pub fn eq(&self, point: &Vector2) -> (r: bool)
        ensures
            r == (near(self.x as int, point.x as int) && near(self.y as int, point.y as int)),
    {
        near_exec(self.x, point.x) && near_exec(self.y, point.y)
    }

    /// Both coordinates folded horizontally, spin dropped.
    pub fn relative(&self) -> (r: Vector2)
        ensures
            r == (Vector2 {
                x: folded(self.x as int) as i64,
                y: folded(self.y as int) as i64,
                spin: false,
            }),
    {
        Vector2::new(Self::lapped(self.x), Self::lapped(self.y))
    }

    /// Whether `add(dx, dy)` stays within the range of `i64`.
    pub open spec fn add_fits(self, dx: i64, dy: i64) -> bool {
        let (x, y) = moved(self, dx as int, dy as int);
        i64::MIN <= x <= i64::MAX && i64::MIN <= y <= i64::MAX
    }

    /// Moves by `(dx, dy)`; after an odd number of pole crossings the local
    /// sense of motion is inverted, so the move is mirrored.
    pub fn add(&mut self, dx: i64, dy: i64)
        requires
            old(self).add_fits(dx, dy),
        ensures
            (final(self).x as int, final(self).y as int) == moved(*old(self), dx as int, dy as int),
            final(self).spin == old(self).spin,
    {
        if self.spin {
            self.x = self.x - dx;
            self.y = self.y - dy;
        } else {
            self.x = self.x + dx;
            self.y = self.y + dy;
        }
    }
}

fn near_exec(a: i64, b: i64) -> (r: bool)
    ensures
        r == near(a as int, b as int),
{
    let aa: i128 = if a < 0 { -(a as i128) } else { a as i128 };
    let bb: i128 = if b < 0 { -(b as i128) } else { b as i128 };
    let d: i128 = aa - bb;
    let ad: i128 = if d < 0 { -d } else { d };
    ad < NEAR as i128
}

} // verus!
