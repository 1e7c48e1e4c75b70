//! Discrete geometry primitives: line and ring rasterization.
//!
//! These are stateless algorithms over signed grid coordinates. Clipping to a
//! particular grid's bounds is done by the tile map methods that wrap them.
use vstd::prelude::*;

verus! {

use vstd::arithmetic::div_mod::lemma_fundamental_div_mod_converse;

/// Largest coordinate magnitude the rasterizers accept. Products of two
/// coordinates and small constants then stay well inside `i64`.
pub const COORD_LIMIT: i64 = 1048576;

/// Absolute value.
pub open spec fn abs_val(v: int) -> int {
    if v >= 0 {
        v
    } else {
        -v
    }
}

/// Direction of one rasterization step along an axis: `-1` for a negative
/// delta, `1` otherwise.
pub open spec fn step_dir(delta: int) -> int {
    if delta < 0 {
        -1
    } else {
        1
    }
}

/// The `i`-th cell of a rasterized line, written along its major axis: the
/// major coordinate advances one cell per step from `maj0`, and the minor
/// coordinate follows from `min0` at the rounded slope `m / n`, ties rounding
/// away from the starting row. `n` is the major delta magnitude, `m` the
/// minor one, and `smaj`/`smin` the step directions.
pub open spec fn line_axis_point(
    maj0: int,
    min0: int,
    smaj: int,
    smin: int,
    n: int,
    m: int,
    i: int,
) -> (int, int) {
    (maj0 + smaj * i, min0 + smin * ((2 * i * m + n) / (2 * n)))
}

/// The cells of the canonical walk from `(ax, ay)` to `(bx, by)`, in order,
/// both endpoints included. The major axis is the one with the larger
/// absolute delta; the Y axis wins ties.
pub open spec fn spec_line_walk(ax: int, ay: int, bx: int, by: int) -> Seq<(int, int)> {
    let adx = abs_val(bx - ax);
    let ady = abs_val(by - ay);
    if adx > ady {
        Seq::new(
            (adx + 1) as nat,
            |i: int| line_axis_point(ax, ay, step_dir(bx - ax), step_dir(by - ay), adx, ady, i),
        )
    } else if ady > 0 {
        Seq::new(
            (ady + 1) as nat,
            |i: int|
                {
                    let p = line_axis_point(
                        ay,
                        ax,
                        step_dir(by - ay),
                        step_dir(bx - ax),
                        ady,
                        adx,
                        i,
                    );
                    (p.1, p.0)
                },
        )
    } else {
        seq![(ax, ay)]
    }
}

/// Whether `(ax, ay)` comes no later than `(bx, by)` in the canonical walk
/// order: by X first, then by Y.
pub open spec fn lex_at_most(ax: int, ay: int, bx: int, by: int) -> bool {
    ax < bx || (ax == bx && ay <= by)
}

/// The cells on the rasterized line between two grid points, in order from
/// the first point to the second, both endpoints included. The walk is
/// canonicalized: it always proceeds from the lexicographically smaller
/// endpoint and is reversed for the other direction, so the two directions
/// cover exactly the same cells, whatever the rounding at ties would do.
pub open spec fn spec_line_points(ax: int, ay: int, bx: int, by: int) -> Seq<(int, int)> {
    if lex_at_most(ax, ay, bx, by) {
        spec_line_walk(ax, ay, bx, by)
    } else {
        spec_line_walk(bx, by, ax, ay).reverse()
    }
}

/// The rounded slope offset is `0` at the start of the line and exactly the
/// minor delta at its end.
proof fn lemma_slope_offset_ends(n: int, m: int)
    requires
        0 < n,
        0 <= m,
    ensures
        (2 * 0 * m + n) / (2 * n) == 0,
        (2 * n * m + n) / (2 * n) == m,
{
    assert(2 * 0 * m + n == 0 * (2 * n) + n) by (nonlinear_arith);
    lemma_fundamental_div_mod_converse(2 * 0 * m + n, 2 * n, 0, n);
    assert(2 * n * m + n == m * (2 * n) + n) by (nonlinear_arith);
    lemma_fundamental_div_mod_converse(2 * n * m + n, 2 * n, m, n);
}

/// The canonical walk always has `max(|dx|, |dy|) + 1` cells and includes
/// both of its endpoints: the first cell is the start, the last the end.
proof fn lemma_line_walk_endpoints(ax: int, ay: int, bx: int, by: int)
    ensures
        spec_line_walk(ax, ay, bx, by).len() == vstd::math::max(
            abs_val(bx - ax),
            abs_val(by - ay),
        ) + 1,
        spec_line_walk(ax, ay, bx, by).first() == (ax, ay),
        spec_line_walk(ax, ay, bx, by).last() == (bx, by),
{
    let adx = abs_val(bx - ax);
    let ady = abs_val(by - ay);
    if adx > ady {
        lemma_slope_offset_ends(adx, ady);
        assert(step_dir(bx - ax) * adx == bx - ax) by (nonlinear_arith)
            requires
                adx == abs_val(bx - ax),
        ;
        assert(step_dir(by - ay) * ady == by - ay) by (nonlinear_arith)
            requires
                ady == abs_val(by - ay),
        ;
    } else if ady > 0 {
        lemma_slope_offset_ends(ady, adx);
        assert(step_dir(by - ay) * ady == by - ay) by (nonlinear_arith)
            requires
                ady == abs_val(by - ay),
        ;
        assert(step_dir(bx - ax) * adx == bx - ax) by (nonlinear_arith)
            requires
                adx == abs_val(bx - ax),
        ;
    }
}

/// A rasterized line always has `max(|dx|, |dy|) + 1` cells and includes
/// both of its endpoints: the first cell is the start, the last the end.
pub proof fn lemma_line_endpoints(ax: int, ay: int, bx: int, by: int)
    ensures
        spec_line_points(ax, ay, bx, by).len() == vstd::math::max(
            abs_val(bx - ax),
            abs_val(by - ay),
        ) + 1,
        spec_line_points(ax, ay, bx, by).first() == (ax, ay),
        spec_line_points(ax, ay, bx, by).last() == (bx, by),
{
    if lex_at_most(ax, ay, bx, by) {
        lemma_line_walk_endpoints(ax, ay, bx, by);
    } else {
        lemma_line_walk_endpoints(bx, by, ax, ay);
        let w = spec_line_walk(bx, by, ax, ay);
        assert(w.reverse()[0] == w[w.len() - 1]);
        assert(w.reverse()[w.len() - 1] == w[0]);
    }
}

/// Rasterizing a line backward yields exactly the forward cells in reverse
/// order: the two directions cover the same cells.
pub proof fn lemma_line_symmetric(ax: int, ay: int, bx: int, by: int)
    ensures
        spec_line_points(bx, by, ax, ay) == spec_line_points(ax, ay, bx, by).reverse(),
{
    if ax == bx && ay == by {
        let w = spec_line_walk(ax, ay, bx, by);
        lemma_line_walk_endpoints(ax, ay, bx, by);
        assert(w.reverse() =~= w);
    } else if lex_at_most(ax, ay, bx, by) {
        assert(!lex_at_most(bx, by, ax, ay));
    } else {
        let w = spec_line_walk(bx, by, ax, ay);
        lemma_line_walk_endpoints(bx, by, ax, ay);
        assert(w.reverse().reverse() =~= w);
    }
}

/// Rasterizes a line along its major axis: `n` major steps of direction
/// `smaj` from `maj0`, the minor coordinate following from `min0` in
/// direction `smin` at slope `m / n`. Returns `(major, minor)` pairs.
fn rasterize_axis(maj0: i64, min0: i64, smaj: i64, smin: i64, n: i64, m: i64) -> (out: Vec<
    (i64, i64),
>)
    requires
        -COORD_LIMIT <= maj0 <= COORD_LIMIT,
        -COORD_LIMIT <= min0 <= COORD_LIMIT,
        1 <= n <= 2 * COORD_LIMIT,
        0 <= m <= n,
        smaj == 1 || smaj == -1,
        smin == 1 || smin == -1,
    ensures
        out@.len() == n + 1,
        forall|k: int|
            0 <= k <= n ==> (#[trigger] out@[k].0 as int, out@[k].1 as int) == line_axis_point(
                maj0 as int,
                min0 as int,
                smaj as int,
                smin as int,
                n as int,
                m as int,
                k,
            ),
{
    proof {
        lemma_slope_offset_ends(n as int, m as int);
        assert(2 * (0 as int) * (m as int) == 0) by (nonlinear_arith);
        assert(2 * (0 as int) * (n as int) == 0) by (nonlinear_arith);
        assert((smaj as int) * (0 as int) == 0) by (nonlinear_arith);
        assert((smin as int) * (0 as int) == 0) by (nonlinear_arith);
    }
    let mut out: Vec<(i64, i64)> = Vec::new();
    out.push((maj0, min0));

    let mut x: i64 = maj0;
    let mut y: i64 = min0;
    let mut d: i64 = 2 * m - n;
    let mut i: i64 = 0;
    let ghost mut j: int = 0;

    while i < n
        invariant
            -COORD_LIMIT <= maj0 <= COORD_LIMIT,
            -COORD_LIMIT <= min0 <= COORD_LIMIT,
            1 <= n <= 2 * COORD_LIMIT,
            0 <= m <= n,
            smaj == 1 || smaj == -1,
            smin == 1 || smin == -1,
            0 <= i <= n,
            0 <= j <= m,
            x == maj0 + smaj * i,
            y == min0 + smin * j,
            maj0 - i <= x <= maj0 + i,
            min0 - j <= y <= min0 + j,
            2 * j * (n as int) <= 2 * i * (m as int) + n,
            2 * i * (m as int) < 2 * j * (n as int) + n,
            d == 2 * i * (m as int) + 2 * m - 2 * j * (n as int) - n,
            2 * m - 2 * n <= d < 2 * m,
            out@.len() == i + 1,
            forall|k: int|
                0 <= k <= i ==> (#[trigger] out@[k].0 as int, out@[k].1 as int) == line_axis_point(
                    maj0 as int,
                    min0 as int,
                    smaj as int,
                    smin as int,
                    n as int,
                    m as int,
                    k,
                ),
        decreases n - i,
    {
        let ghost i0 = i as int;
        let ghost j0 = j;
        x = x + smaj;
        proof {
            assert(smaj * (i0 + 1) == smaj * i0 + smaj) by (nonlinear_arith);
        }
        if d < 0 {
            d = d + 2 * m;
        } else {
            y = y + smin;
            d = d + 2 * m - 2 * n;
            proof {
                j = j + 1;
                assert(smin * (j0 + 1) == smin * j0 + smin) by (nonlinear_arith);
                assert(2 * (j0 + 1) * (n as int) == 2 * j0 * (n as int) + 2 * n)
                    by (nonlinear_arith);
                assert(2 * (i0 + 1) * (m as int) == 2 * i0 * (m as int) + 2 * m)
                    by (nonlinear_arith);
                assert(j0 + 1 <= m) by (nonlinear_arith)
                    requires
                        2 * (i0 + 1) * (m as int) >= 2 * j0 * (n as int) + n,
                        i0 + 1 <= n,
                        0 <= m,
                        0 < n,
                        0 <= j0,
                ;
            }
        }
        i = i + 1;
        proof {
            assert(2 * (i0 + 1) * (m as int) == 2 * i0 * (m as int) + 2 * m) by (nonlinear_arith);
            let xi = 2 * (i as int) * (m as int) + n;
            let r = xi - j * (2 * (n as int));
            assert(2 * j * (n as int) == j * (2 * (n as int))) by (nonlinear_arith);
            assert(xi == j * (2 * (n as int)) + r);
            assert(0 <= r < 2 * n);
            lemma_fundamental_div_mod_converse(xi, 2 * (n as int), j, r);
            assert((2 * (i as int) * (m as int) + n) / (2 * (n as int)) == j);
        }
        out.push((x, y));
    }
    out
}

/// The ordered cells of the canonical walk from `(x1, y1)` to `(x2, y2)`,
/// both endpoints included (integer Bresenham over the major axis).
fn walk_points(x1: i64, y1: i64, x2: i64, y2: i64) -> (out: Vec<(i64, i64)>)
    requires
        -COORD_LIMIT <= x1 <= COORD_LIMIT,
        -COORD_LIMIT <= y1 <= COORD_LIMIT,
        -COORD_LIMIT <= x2 <= COORD_LIMIT,
        -COORD_LIMIT <= y2 <= COORD_LIMIT,
    ensures
        out@.len() == spec_line_walk(x1 as int, y1 as int, x2 as int, y2 as int).len(),
        forall|k: int|
            0 <= k < out@.len() ==> (#[trigger] out@[k].0 as int, out@[k].1 as int)
                == spec_line_walk(x1 as int, y1 as int, x2 as int, y2 as int)[k],
{
    let adx: i64 = if x2 >= x1 {
        x2 - x1
    } else {
        x1 - x2
    };
    let ady: i64 = if y2 >= y1 {
        y2 - y1
    } else {
        y1 - y2
    };
    let sx: i64 = if x2 - x1 < 0 {
        -1
    } else {
        1
    };
    let sy: i64 = if y2 - y1 < 0 {
        -1
    } else {
        1
    };
    if adx > ady {
        rasterize_axis(x1, y1, sx, sy, adx, ady)
    } else if ady > 0 {
        let swapped = rasterize_axis(y1, x1, sy, sx, ady, adx);
        let mut out: Vec<(i64, i64)> = Vec::new();
        let mut k: usize = 0;
        while k < swapped.len()
            invariant
                swapped@.len() == ady + 1,
                0 <= k <= swapped@.len(),
                out@.len() == k,
                forall|t: int|
                    0 <= t < k ==> #[trigger] out@[t] == (swapped@[t].1, swapped@[t].0),
            decreases swapped@.len() - k,
        {
            let p = swapped[k];
            out.push((p.1, p.0));
            k = k + 1;
        }
        out
    } else {
        let mut out: Vec<(i64, i64)> = Vec::new();
        out.push((x1, y1));
        out
    }
}

/// The ordered cells on the rasterized line from `(x1, y1)` to `(x2, y2)`,
/// both endpoints included (integer Bresenham over the major axis, the walk
/// direction canonicalized so both directions cover the same cells).
pub fn line_points(x1: i64, y1: i64, x2: i64, y2: i64) -> (out: Vec<(i64, i64)>)
    requires
        -COORD_LIMIT <= x1 <= COORD_LIMIT,
        -COORD_LIMIT <= y1 <= COORD_LIMIT,
        -COORD_LIMIT <= x2 <= COORD_LIMIT,
        -COORD_LIMIT <= y2 <= COORD_LIMIT,
    ensures
        out@.len() == spec_line_points(x1 as int, y1 as int, x2 as int, y2 as int).len(),
        forall|k: int|
            0 <= k < out@.len() ==> (#[trigger] out@[k].0 as int, out@[k].1 as int)
                == spec_line_points(x1 as int, y1 as int, x2 as int, y2 as int)[k],
{
    if x1 < x2 || (x1 == x2 && y1 <= y2) {
        walk_points(x1, y1, x2, y2)
    } else {
        let walk = walk_points(x2, y2, x1, y1);
        let ghost w = spec_line_walk(x2 as int, y2 as int, x1 as int, y1 as int);
        let mut out: Vec<(i64, i64)> = Vec::new();
        let mut k: usize = walk.len();
        while k > 0
            invariant
                walk@.len() == w.len(),
                forall|t: int|
                    0 <= t < walk@.len() ==> (#[trigger] walk@[t].0 as int, walk@[t].1 as int)
                        == w[t],
                0 <= k <= walk@.len(),
                out@.len() == walk@.len() - k,
                forall|t: int|
                    0 <= t < out@.len() ==> (#[trigger] out@[t].0 as int, out@[t].1 as int)
                        == w[w.len() - 1 - t],
            decreases k,
        {
            k = k - 1;
            let p = walk[k];
            out.push(p);
        }
        out
    }
}

/// The view of a vector of cells as a sequence of integer pairs.
pub open spec fn pts_view(s: Seq<(i64, i64)>) -> Seq<(int, int)> {
    Seq::new(s.len(), |k: int| (s[k].0 as int, s[k].1 as int))
}

/// The cells produced by the midpoint-circle scan from octant offset
/// `(x, y)` with error term `err`: each reachable offset contributes its
/// eight reflections around the center `(cx, cy)`, in order.
pub open spec fn spec_ring_scan(cx: int, cy: int, x: int, y: int, err: int) -> Seq<(int, int)>
    decreases vstd::math::max(y - x + 1, 0),
{
    if x > y {
        Seq::empty()
    } else {
        let block = seq![
            (cx + x, cy + y),
            (cx + x, cy - y),
            (cx - x, cy + y),
            (cx - x, cy - y),
            (cx + y, cy + x),
            (cx + y, cy - x),
            (cx - y, cy + x),
            (cx - y, cy - x),
        ];
        if err < 0 {
            block + spec_ring_scan(cx, cy, x + 1, y, err + 2 * x + 1)
        } else {
            block + spec_ring_scan(cx, cy, x + 1, y - 1, err + 2 * (x - y) + 1)
        }
    }
}

/// Initial error term of the midpoint-circle scan: `(5 - 4r) / 4` rounded
/// toward zero.
pub open spec fn spec_ring_init_err(r: int) -> int {
    if 5 - 4 * r >= 0 {
        (5 - 4 * r) / 4
    } else {
        -((-(5 - 4 * r)) / 4)
    }
}

/// The cells on the rasterized ring of the given radius around `(cx, cy)`:
/// the classic midpoint-circle point set, duplicates kept, unclipped. Empty
/// for a negative radius.
pub open spec fn spec_ring_points(cx: int, cy: int, radius: int) -> Seq<(int, int)> {
    spec_ring_scan(cx, cy, 0, radius, spec_ring_init_err(radius))
}

/// Rasterizes the ring of the given radius around `(cx, cy)` with the
/// midpoint-circle algorithm. Duplicates are kept and nothing is clipped.
pub fn ring_points(cx: i64, cy: i64, radius: i64) -> (out: Vec<(i64, i64)>)
    requires
        -COORD_LIMIT <= cx <= COORD_LIMIT,
        -COORD_LIMIT <= cy <= COORD_LIMIT,
        -COORD_LIMIT <= radius <= COORD_LIMIT,
    ensures
        pts_view(out@) == spec_ring_points(cx as int, cy as int, radius as int),
{
    let ghost full = spec_ring_points(cx as int, cy as int, radius as int);
    let out: Vec<(i64, i64)> = Vec::new();
    if radius < 0 {
        proof {
            assert(full =~= pts_view(out@));
        }
        return out;
    }
    let mut out = out;
    let mut x: i64 = 0;
    let mut y: i64 = radius;
    let mut err: i64 = (5 - 4 * radius) / 4;
    proof {
        if radius >= 2 {
            vstd::arithmetic::div_mod::lemma_div_pos_is_pos(4 * (radius as int) - 5, 4);
            vstd::arithmetic::div_mod::lemma_div_is_ordered(
                4 * (radius as int) - 5,
                4 * (radius as int),
                4,
            );
            assert((4 * (radius as int)) / 4 == radius) by (nonlinear_arith);
        }
    }
    while x <= y
        invariant
            -COORD_LIMIT <= cx <= COORD_LIMIT,
            -COORD_LIMIT <= cy <= COORD_LIMIT,
            0 <= radius <= COORD_LIMIT,
            0 <= x <= y + 2,
            -1 <= y <= radius,
            -(2 * y + 2) <= err <= 2 * x + 2,
            full == pts_view(out@) + spec_ring_scan(cx as int, cy as int, x as int, y as int, err as int),
        decreases vstd::math::max(y - x + 1, 0),
    {
        let ghost out0 = out@;
        let ghost block = seq![
            ((cx + x) as int, (cy + y) as int),
            ((cx + x) as int, (cy - y) as int),
            ((cx - x) as int, (cy + y) as int),
            ((cx - x) as int, (cy - y) as int),
            ((cx + y) as int, (cy + x) as int),
            ((cx + y) as int, (cy - x) as int),
            ((cx - y) as int, (cy + x) as int),
            ((cx - y) as int, (cy - x) as int),
        ];
        let ghost rest = if err < 0 {
            spec_ring_scan(cx as int, cy as int, x as int + 1, y as int, err as int + 2 * x + 1)
        } else {
            spec_ring_scan(
                cx as int,
                cy as int,
                x as int + 1,
                y as int - 1,
                err as int + 2 * (x - y) + 1,
            )
        };
        proof {
            assert(spec_ring_scan(cx as int, cy as int, x as int, y as int, err as int) == block
                + rest);
        }
        out.push((cx + x, cy + y));
        out.push((cx + x, cy - y));
        out.push((cx - x, cy + y));
        out.push((cx - x, cy - y));
        out.push((cx + y, cy + x));
        out.push((cx + y, cy - x));
        out.push((cx - y, cy + x));
        out.push((cx - y, cy - x));
        proof {
            assert(pts_view(out@) =~= pts_view(out0) + block);
            assert((pts_view(out0) + block) + rest =~= pts_view(out0) + (block + rest));
        }
        if err < 0 {
            err = err + 2 * x + 1;
        } else {
            err = err + 2 * (x - y) + 1;
            y = y - 1;
        }
        x = x + 1;
    }
    proof {
        assert(spec_ring_scan(cx as int, cy as int, x as int, y as int, err as int)
            =~= Seq::<(int, int)>::empty());
        assert(full =~= pts_view(out@));
    }
    out
}

/// Whether a cell set is closed under the three reflections around
/// `(cx, cy)` that generate eight-fold symmetry: the mirror across the
/// vertical axis, the mirror across the horizontal axis, and the mirror
/// across the main diagonal.
pub open spec fn eightfold_symmetric(s: Seq<(int, int)>, cx: int, cy: int) -> bool {
    forall|p: (int, int)|
        #[trigger] s.contains(p) ==> s.contains((2 * cx - p.0, p.1)) && s.contains(
            (p.0, 2 * cy - p.1),
        ) && s.contains((cx + p.1 - cy, cy + p.0 - cx))
}

/// One cell reached by the midpoint-circle scan has all three of its
/// generating reflections reached as well.
#[verifier::rlimit(60)]
proof fn lemma_ring_scan_symmetric_at(cx: int, cy: int, x: int, y: int, err: int, p: (int, int))
    requires
        spec_ring_scan(cx, cy, x, y, err).contains(p),
    ensures
        spec_ring_scan(cx, cy, x, y, err).contains((2 * cx - p.0, p.1)),
        spec_ring_scan(cx, cy, x, y, err).contains((p.0, 2 * cy - p.1)),
        spec_ring_scan(cx, cy, x, y, err).contains((cx + p.1 - cy, cy + p.0 - cx)),
    decreases vstd::math::max(y - x + 1, 0),
{
    let s = spec_ring_scan(cx, cy, x, y, err);
    let rest = if err < 0 {
        spec_ring_scan(cx, cy, x + 1, y, err + 2 * x + 1)
    } else {
        spec_ring_scan(cx, cy, x + 1, y - 1, err + 2 * (x - y) + 1)
    };
    let i = choose|i: int| 0 <= i < s.len() && s[i] == p;
    assert(x <= y);
    assert(s.len() == 8 + rest.len());
    if i >= 8 {
        assert(rest[i - 8] == p);
        assert(rest.contains(p));
        if err < 0 {
            lemma_ring_scan_symmetric_at(cx, cy, x + 1, y, err + 2 * x + 1, p);
        } else {
            lemma_ring_scan_symmetric_at(cx, cy, x + 1, y - 1, err + 2 * (x - y) + 1, p);
        }
        let q1 = (2 * cx - p.0, p.1);
        let q2 = (p.0, 2 * cy - p.1);
        let q3 = (cx + p.1 - cy, cy + p.0 - cx);
        let k1 = choose|k: int| 0 <= k < rest.len() && rest[k] == q1;
        assert(s[k1 + 8] == q1);
        let k2 = choose|k: int| 0 <= k < rest.len() && rest[k] == q2;
        assert(s[k2 + 8] == q2);
        let k3 = choose|k: int| 0 <= k < rest.len() && rest[k] == q3;
        assert(s[k3 + 8] == q3);
    } else {
        assert(s.contains(s[0]) && s.contains(s[1]) && s.contains(s[2]) && s.contains(s[3])
            && s.contains(s[4]) && s.contains(s[5]) && s.contains(s[6]) && s.contains(s[7]));
        if i == 0 {
            assert((2 * cx - p.0, p.1) == s[2]);
            assert((p.0, 2 * cy - p.1) == s[1]);
            assert((cx + p.1 - cy, cy + p.0 - cx) == s[4]);
        } else if i == 1 {
            assert((2 * cx - p.0, p.1) == s[3]);
            assert((p.0, 2 * cy - p.1) == s[0]);
            assert((cx + p.1 - cy, cy + p.0 - cx) == s[6]);
        } else if i == 2 {
            assert((2 * cx - p.0, p.1) == s[0]);
            assert((p.0, 2 * cy - p.1) == s[3]);
            assert((cx + p.1 - cy, cy + p.0 - cx) == s[5]);
        } else if i == 3 {
            assert((2 * cx - p.0, p.1) == s[1]);
            assert((p.0, 2 * cy - p.1) == s[2]);
            assert((cx + p.1 - cy, cy + p.0 - cx) == s[7]);
        } else if i == 4 {
            assert((2 * cx - p.0, p.1) == s[6]);
            assert((p.0, 2 * cy - p.1) == s[5]);
            assert((cx + p.1 - cy, cy + p.0 - cx) == s[0]);
        } else if i == 5 {
            assert((2 * cx - p.0, p.1) == s[7]);
            assert((p.0, 2 * cy - p.1) == s[4]);
            assert((cx + p.1 - cy, cy + p.0 - cx) == s[2]);
        } else if i == 6 {
            assert((2 * cx - p.0, p.1) == s[4]);
            assert((p.0, 2 * cy - p.1) == s[7]);
            assert((cx + p.1 - cy, cy + p.0 - cx) == s[1]);
        } else {
            assert((2 * cx - p.0, p.1) == s[5]);
            assert((p.0, 2 * cy - p.1) == s[6]);
            assert((cx + p.1 - cy, cy + p.0 - cx) == s[3]);
        }
    }
}

/// A rasterized ring is eight-fold symmetric: with every cell it contains
/// the cell's mirror across the vertical axis through the center, across the
/// horizontal axis, and across the main diagonal.
pub proof fn lemma_ring_symmetric(cx: int, cy: int, radius: int)
    ensures
        eightfold_symmetric(spec_ring_points(cx, cy, radius), cx, cy),
{
    assert forall|p: (int, int)|
        #[trigger] spec_ring_points(cx, cy, radius).contains(p) implies spec_ring_points(
        cx,
        cy,
        radius,
    ).contains((2 * cx - p.0, p.1)) && spec_ring_points(cx, cy, radius).contains(
        (p.0, 2 * cy - p.1),
    ) && spec_ring_points(cx, cy, radius).contains((cx + p.1 - cy, cy + p.0 - cx)) by {
        lemma_ring_scan_symmetric_at(cx, cy, 0, radius, spec_ring_init_err(radius), p);
    }
}

/// The ring of radius zero is eight coincident copies of the center cell.
pub proof fn lemma_ring_radius_zero(cx: int, cy: int)
    ensures
        spec_ring_points(cx, cy, 0).len() == 8,
        (forall|k: int| 0 <= k < 8 ==> spec_ring_points(cx, cy, 0)[k] == (cx, cy)),
{
    assert(spec_ring_init_err(0) == 1);
    assert(spec_ring_scan(cx, cy, 1, -1, 2) =~= Seq::<(int, int)>::empty());
}

/// The ring of a negative radius is empty.
pub proof fn lemma_ring_negative_radius(cx: int, cy: int, radius: int)
    requires
        radius < 0,
    ensures
        spec_ring_points(cx, cy, radius).len() == 0,
{
}

/// The view of a vector of unsigned cells as a sequence of integer pairs.
pub open spec fn upts_view(s: Seq<(usize, usize)>) -> Seq<(int, int)> {
    Seq::new(s.len(), |k: int| (s[k].0 as int, s[k].1 as int))
}

/// The subsequence of `s` whose cells lie on a `w` by `h` grid, in order,
/// duplicates kept.
pub open spec fn spec_clip_points(s: Seq<(int, int)>, w: int, h: int) -> Seq<(int, int)>
    decreases s.len(),
{
    if s.len() == 0 {
        Seq::empty()
    } else if 0 <= s.last().0 < w && 0 <= s.last().1 < h {
        spec_clip_points(s.drop_last(), w, h).push(s.last())
    } else {
        spec_clip_points(s.drop_last(), w, h)
    }
}

/// Clipping keeps exactly the cells that lie on the grid.
pub proof fn lemma_clip_points_membership(s: Seq<(int, int)>, w: int, h: int)
    ensures
        forall|p: (int, int)|
            #[trigger] spec_clip_points(s, w, h).contains(p) <==> (s.contains(p) && 0 <= p.0 < w
                && 0 <= p.1 < h),
    decreases s.len(),
{
    let clipped = spec_clip_points(s, w, h);
    if s.len() == 0 {
        assert forall|p: (int, int)| #[trigger] clipped.contains(p) <==> (s.contains(p) && 0 <= p.0
            < w && 0 <= p.1 < h) by {
            if s.contains(p) {
                let k = choose|k: int| 0 <= k < s.len() && s[k] == p;
            }
            if clipped.contains(p) {
                let k = choose|k: int| 0 <= k < clipped.len() && clipped[k] == p;
            }
        }
    } else {
        let rest = s.drop_last();
        let rec = spec_clip_points(rest, w, h);
        lemma_clip_points_membership(rest, w, h);
        assert forall|p: (int, int)| #[trigger] clipped.contains(p) <==> (s.contains(p) && 0 <= p.0
            < w && 0 <= p.1 < h) by {
            if clipped.contains(p) {
                let k = choose|k: int| 0 <= k < clipped.len() && clipped[k] == p;
                if k < rec.len() {
                    assert(rec[k] == p);
                    assert(rec.contains(p));
                    let k2 = choose|k2: int| 0 <= k2 < rest.len() && rest[k2] == p;
                    assert(s[k2] == p);
                } else {
                    assert(p == s.last());
                    assert(s[s.len() - 1] == p);
                }
            }
            if s.contains(p) && 0 <= p.0 < w && 0 <= p.1 < h {
                let k = choose|k: int| 0 <= k < s.len() && s[k] == p;
                if k < s.len() - 1 {
                    assert(rest[k] == p);
                    assert(rest.contains(p));
                    assert(rec.contains(p));
                    let k2 = choose|k2: int| 0 <= k2 < rec.len() && rec[k2] == p;
                    if 0 <= s.last().0 < w && 0 <= s.last().1 < h {
                        assert(clipped[k2] == p);
                    } else {
                        assert(clipped[k2] == p);
                    }
                } else {
                    assert(p == s.last());
                    assert(clipped.last() == p);
                }
            }
        }
    }
}

/// A deduplicated set of grid cells, as produced by the ring-band
/// rasterizer and carried by visibility pulses.
pub struct TileSet {
    items: Vec<(usize, usize)>,
}

impl TileSet {
    /// Structural invariant: no cell occurs twice.
    pub closed spec fn inv(self) -> bool {
        forall|i: int, j: int|
            0 <= i < j < self.items@.len() ==> #[trigger] self.items@[i]
                != #[trigger] self.items@[j]
    }

    /// Whether the set holds the cell `(x, y)`.
    pub closed spec fn spec_contains(self, x: int, y: int) -> bool {
        exists|k: int|
            0 <= k < self.items@.len() && (#[trigger] self.items@[k]).0 == x && self.items@[k].1
                == y
    }

    /// The number of cells held.
    pub closed spec fn spec_len(self) -> int {
        self.items@.len() as int
    }

    /// The cell at position `i` of the set's backing order.
    pub closed spec fn spec_item(self, i: int) -> (usize, usize) {
        self.items@[i]
    }

    /// A cell is held exactly when it sits at some position.
    pub proof fn lemma_contains_iff_item(self)
        ensures
            forall|a: int, b: int|
                #[trigger] self.spec_contains(a, b) <==> exists|i: int|
                    0 <= i < self.spec_len() && (#[trigger] self.spec_item(i)).0 == a
                        && self.spec_item(i).1 == b,
    {
        assert forall|a: int, b: int| #[trigger] self.spec_contains(a, b) <==> exists|i: int|
            0 <= i < self.spec_len() && (#[trigger] self.spec_item(i)).0 == a && self.spec_item(
                i,
            ).1 == b by {
            if self.spec_contains(a, b) {
                let k = choose|k: int|
                    0 <= k < self.items@.len() && (#[trigger] self.items@[k]).0 == a
                        && self.items@[k].1 == b;
                assert(self.spec_item(k).0 == a && self.spec_item(k).1 == b);
            }
            if exists|i: int|
                0 <= i < self.spec_len() && (#[trigger] self.spec_item(i)).0 == a && self.spec_item(
                    i,
                ).1 == b {
                let k = choose|k: int|
                    0 <= k < self.spec_len() && (#[trigger] self.spec_item(k)).0 == a
                        && self.spec_item(k).1 == b;
                assert(self.items@[k].0 == a && self.items@[k].1 == b);
            }
        }
    }

    /// An empty set.
    pub fn new() -> (s: TileSet)
        ensures
            s.inv(),
            forall|x: int, y: int| !s.spec_contains(x, y),
            s.spec_len() == 0,
    {
        TileSet { items: Vec::new() }
    }

    /// Empties the set.
    pub fn clear(&mut self)
        ensures
            final(self).inv(),
            forall|x: int, y: int| !final(self).spec_contains(x, y),
            final(self).spec_len() == 0,
    {
        self.items.clear();
    }

    /// The number of cells held.
    pub fn len(&self) -> (n: usize)
        ensures
            n == self.spec_len(),
    {
        self.items.len()
    }

    /// True iff the set holds the cell `(x, y)`.
    pub fn contains(&self, x: usize, y: usize) -> (r: bool)
        ensures
            r == self.spec_contains(x as int, y as int),
    {
        let mut k: usize = 0;
        while k < self.items.len()
            invariant
                0 <= k <= self.items@.len(),
                forall|t: int|
                    0 <= t < k ==> !((#[trigger] self.items@[t]).0 == x && self.items@[t].1 == y),
            decreases self.items@.len() - k,
        {
            let item = self.items[k];
            if item.0 == x && item.1 == y {
                return true;
            }
            k = k + 1;
        }
        false
    }

    /// Adds the cell `(x, y)`: cells already held stay held and nothing else
    /// is added.
    pub fn insert(&mut self, x: usize, y: usize)
        requires
            old(self).inv(),
        ensures
            final(self).inv(),
            final(self).spec_contains(x as int, y as int),
            forall|a: int, b: int|
                #[trigger] final(self).spec_contains(a, b) == (old(self).spec_contains(a, b) || (a
                    == x as int && b == y as int)),
            old(self).spec_len() <= final(self).spec_len() <= old(self).spec_len() + 1,
    {
        if self.contains(x, y) {
            return;
        }
        let ghost s0 = self.items@;
        self.items.push((x, y));
        proof {
            let s1 = self.items@;
            assert(s1[s0.len() as int] == (x, y));
            assert forall|i: int, j: int| 0 <= i < j < s1.len() implies #[trigger] s1[i]
                != #[trigger] s1[j] by {
                if j == s0.len() {
                    assert(s1[i] == s0[i]);
                    assert(!(s0[i].0 == x && s0[i].1 == y));
                } else {
                    assert(s1[i] == s0[i] && s1[j] == s0[j]);
                }
            }
            assert(self.spec_contains(x as int, y as int));
            assert forall|a: int, b: int| #[trigger] self.spec_contains(a, b) == (old(
                self,
            ).spec_contains(a, b) || (a == x as int && b == y as int)) by {
                if self.spec_contains(a, b) {
                    let k = choose|k: int|
                        0 <= k < s1.len() && (#[trigger] s1[k]).0 == a && s1[k].1 == b;
                    if k < s0.len() {
                        assert(s0[k] == s1[k]);
                        assert(old(self).spec_contains(a, b));
                    }
                }
                if old(self).spec_contains(a, b) {
                    let k = choose|k: int|
                        0 <= k < s0.len() && (#[trigger] s0[k]).0 == a && s0[k].1 == b;
                    assert(s1[k] == s0[k]);
                    assert(self.spec_contains(a, b));
                }
            }
        }
    }

    /// The cell at position `i` of the set's backing order.
    pub fn get(&self, i: usize) -> (r: (usize, usize))
        requires
            i < self.spec_len(),
        ensures
            r == self.spec_item(i as int),
            self.spec_contains(r.0 as int, r.1 as int),
    {
        self.items[i]
    }
}

} // verus!
