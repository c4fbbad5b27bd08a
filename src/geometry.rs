//! Closest approach of two points moving at constant velocity.
//!
//! Two pieces are compared in a frame scaled by a positive integer `m`: their
//! relative position at the start of an interval is `a / m`, their relative
//! velocity is `b / m` per tick. They meet when, at some moment `t` of the
//! interval, the squared length of `(a + t * b) / m` is at most
//! `CAPTURE_NUM / CAPTURE_DEN`. Every moment is written as a fraction `n / d`,
//! so the whole statement stays in integers.
use vstd::prelude::*;

verus! {

/// Squared capture radius is `CAPTURE_NUM / CAPTURE_DEN`: a radius of 0.7,
/// just under half the diagonal of a square, so that a sliding piece meets
/// what lies on its path and misses what lies beside it.
pub const CAPTURE_NUM: i64 = 49;

pub const CAPTURE_DEN: i64 = 100;

/// Largest component of `a` or `b` that the test accepts.
pub const COORD_BOUND: i64 = 2000;

/// Largest scale factor and interval length that the test accepts.
pub const SCALE_BOUND: i64 = 100;

pub open spec fn sq(x: int, y: int) -> int {
    x * x + y * y
}

/// At the moment `n / d`, the two points are within the capture radius.
pub open spec fn near_at(ax: int, ay: int, bx: int, by: int, m: int, n: int, d: int) -> bool {
    CAPTURE_DEN * sq(d * ax + n * bx, d * ay + n * by) <= CAPTURE_NUM * (m * d) * (m * d)
}

/// At some moment of `[0, span]` the two points are within the capture radius.
pub open spec fn comes_near(ax: int, ay: int, bx: int, by: int, m: int, span: int) -> bool {
    exists|n: int, d: int|
        d > 0 && 0 <= n <= span * d && #[trigger] near_at(ax, ay, bx, by, m, n, d)
}

/// Squared length of `d * a + n * b`: the squared distance at `n / d`,
/// scaled by `(m * d)^2`.
pub open spec fn sq_at(ax: int, ay: int, bx: int, by: int, n: int, d: int) -> int {
    sq(d * ax + n * bx, d * ay + n * by)
}

/// The first tick of an interval and the rest of it: meeting during
/// `[0, span]` is meeting during `[0, 1]`, or during `[0, span - 1]` when
/// starting one tick later, from `a + b`.
pub proof fn lemma_split(ax: int, ay: int, bx: int, by: int, m: int, span: int)
    requires
        span >= 1,
    ensures
        comes_near(ax, ay, bx, by, m, span) == (comes_near(ax, ay, bx, by, m, 1) || comes_near(
            ax + bx,
            ay + by,
            bx,
            by,
            m,
            span - 1,
        )),
{
    if comes_near(ax, ay, bx, by, m, span) {
        let (n, d) = choose|n: int, d: int|
            d > 0 && 0 <= n <= span * d && #[trigger] near_at(ax, ay, bx, by, m, n, d);
        if n <= d {
            assert(n <= 1 * d);
            assert(near_at(ax, ay, bx, by, m, n, d));
        } else {
            assert(d * (ax + bx) + (n - d) * bx == d * ax + n * bx) by (nonlinear_arith);
            assert(d * (ay + by) + (n - d) * by == d * ay + n * by) by (nonlinear_arith);
            assert(n - d <= (span - 1) * d) by (nonlinear_arith)
                requires
                    n <= span * d,
            ;
            assert(near_at(ax + bx, ay + by, bx, by, m, n - d, d));
        }
    }
    if comes_near(ax, ay, bx, by, m, 1) {
        let (n, d) = choose|n: int, d: int|
            d > 0 && 0 <= n <= 1 * d && #[trigger] near_at(ax, ay, bx, by, m, n, d);
        assert(n <= span * d) by (nonlinear_arith)
            requires
                n <= 1 * d,
                span >= 1,
                d > 0,
        ;
        assert(near_at(ax, ay, bx, by, m, n, d));
    }
    if comes_near(ax + bx, ay + by, bx, by, m, span - 1) {
        let (n, d) = choose|n: int, d: int|
            d > 0 && 0 <= n <= (span - 1) * d && #[trigger] near_at(
                ax + bx,
                ay + by,
                bx,
                by,
                m,
                n,
                d,
            );
        assert(d * (ax + bx) + n * bx == d * ax + (n + d) * bx) by (nonlinear_arith);
        assert(d * (ay + by) + n * by == d * ay + (n + d) * by) by (nonlinear_arith);
        assert(n + d <= span * d) by (nonlinear_arith)
            requires
                n <= (span - 1) * d,
        ;
        assert(near_at(ax, ay, bx, by, m, n + d, d));
    }
}

/// Meeting does not depend on which of the two points is the reference.
pub proof fn lemma_comes_near_symmetric(ax: int, ay: int, bx: int, by: int, m: int, span: int)
    requires
        comes_near(ax, ay, bx, by, m, span),
    ensures
        comes_near(-ax, -ay, -bx, -by, m, span),
{
    let (n, d) = choose|n: int, d: int|
        d > 0 && 0 <= n <= span * d && #[trigger] near_at(ax, ay, bx, by, m, n, d);
    assert(d * (-ax) + n * (-bx) == -(d * ax + n * bx)) by (nonlinear_arith);
    assert(d * (-ay) + n * (-by) == -(d * ay + n * by)) by (nonlinear_arith);
    let (u, v) = (d * ax + n * bx, d * ay + n * by);
    assert(sq(-u, -v) == sq(u, v)) by (nonlinear_arith);
    assert(near_at(-ax, -ay, -bx, -by, m, n, d));
}

pub open spec fn in_bounds(v: int) -> bool {
    -COORD_BOUND <= v <= COORD_BOUND
}

proof fn lemma_expand1(a: int, b: int, n: int, d: int)
    ensures
        (d * a + n * b) * (d * a + n * b) == d * d * (a * a) + 2 * d * n * (a * b) + n * n * (b
            * b),
{
    let x = d * a;
    let y = n * b;
    assert((x + y) * (x + y) == x * x + 2 * (x * y) + y * y) by (nonlinear_arith);
    assert(x * x == d * d * (a * a)) by (nonlinear_arith)
        requires
            x == d * a,
    ;
    assert(2 * d * n * (a * b) == 2 * (x * y)) by (nonlinear_arith)
        requires
            x == d * a,
            y == n * b,
    ;
    assert(y * y == n * n * (b * b)) by (nonlinear_arith)
        requires
            y == n * b,
    ;
}

proof fn lemma_expand(ax: int, ay: int, bx: int, by: int, n: int, d: int)
    ensures
        sq(d * ax + n * bx, d * ay + n * by) == d * d * sq(ax, ay) + 2 * d * n * (ax * bx + ay
            * by) + n * n * sq(bx, by),
{
    lemma_expand1(ax, bx, n, d);
    lemma_expand1(ay, by, n, d);
    assert(d * d * sq(ax, ay) == d * d * (ax * ax) + d * d * (ay * ay)) by (nonlinear_arith);
    assert(2 * d * n * (ax * bx + ay * by) == 2 * d * n * (ax * bx) + 2 * d * n * (ay * by))
        by (nonlinear_arith);
    assert(n * n * sq(bx, by) == n * n * (bx * bx) + n * n * (by * by)) by (nonlinear_arith);
}

proof fn lemma_sq_nonneg(x: int, y: int)
    ensures
        sq(x, y) >= 0,
        sq(x, y) == 0 ==> x == 0 && y == 0,
{
    assert(x * x >= 0) by (nonlinear_arith);
    assert(y * y >= 0) by (nonlinear_arith);
    if x != 0 {
        assert(x * x > 0) by (nonlinear_arith)
            requires
                x != 0,
        ;
    }
    if y != 0 {
        assert(y * y > 0) by (nonlinear_arith)
            requires
                y != 0,
        ;
    }
}

/// `|b|^2 * |d a + n b|^2 == (d (a.b) + n |b|^2)^2 + d^2 (|a|^2 |b|^2 - (a.b)^2)`.
proof fn lemma_lagrange(aa: int, ab: int, bb: int, n: int, d: int, s: int)
    requires
        s == d * d * aa + 2 * d * n * ab + n * n * bb,
    ensures
        bb * s == (d * ab + n * bb) * (d * ab + n * bb) + d * d * (aa * bb - ab * ab),
{
    let x = d * ab;
    let y = n * bb;
    assert((x + y) * (x + y) == x * x + 2 * (x * y) + y * y) by (nonlinear_arith);
    assert(bb * s == bb * (d * d * aa) + bb * (2 * d * n * ab) + bb * (n * n * bb))
        by (nonlinear_arith)
        requires
            s == d * d * aa + 2 * d * n * ab + n * n * bb,
    ;
    assert(bb * (d * d * aa) == d * d * (aa * bb)) by (nonlinear_arith);
    assert(bb * (2 * d * n * ab) == 2 * (x * y)) by (nonlinear_arith)
        requires
            x == d * ab,
            y == n * bb,
    ;
    assert(bb * (n * n * bb) == y * y) by (nonlinear_arith)
        requires
            y == n * bb,
    ;
    assert(x * x == d * d * (ab * ab)) by (nonlinear_arith)
        requires
            x == d * ab,
    ;
    assert(d * d * (aa * bb - ab * ab) == d * d * (aa * bb) - d * d * (ab * ab))
        by (nonlinear_arith);
}

/// `(n - g d) (2 d (a.b) + |b|^2 (n + g d)) == |d a + n b|^2 - d^2 |a + g b|^2`,
/// both squares written expanded.
proof fn lemma_shift(a2: int, b2: int, c2: int, n: int, d: int, g: int)
    ensures
        (n - g * d) * (2 * d * b2 + c2 * (n + g * d)) == (d * d * a2 + 2 * d * n * b2 + n * n
            * c2) - (d * d) * (a2 + 2 * g * b2 + g * g * c2),
{
    let u = n - g * d;
    assert(u * (2 * d * b2 + c2 * (n + g * d)) == u * (2 * d * b2) + u * (c2 * (n + g * d)))
        by (nonlinear_arith);
    assert(u * (2 * d * b2) == 2 * d * n * b2 - 2 * g * (d * d) * b2) by (nonlinear_arith)
        requires
            u == n - g * d,
    ;
    assert(u * (c2 * (n + g * d)) == n * n * c2 - c2 * (g * g) * (d * d)) by (nonlinear_arith)
        requires
            u == n - g * d,
    ;
    assert((d * d) * (a2 + 2 * g * b2 + g * g * c2) == d * d * a2 + 2 * g * (d * d) * b2 + c2
        * (g * g) * (d * d)) by (nonlinear_arith);
}

pub(crate) proof fn lemma_mul_bound(x: int, y: int, bx: int, by: int)
    requires
        -bx <= x <= bx,
        -by <= y <= by,
    ensures
        -(bx * by) <= x * y <= bx * by,
{
    assert(-(bx * by) <= x * y <= bx * by) by (nonlinear_arith)
        requires
            -bx <= x <= bx,
            -by <= y <= by,
    ;
}

/// No moment of `[0, span]` is near, given a lower bound `low` on the
/// squared distance at every such moment, scaled by `d * d`.
proof fn lemma_far_everywhere(ax: int, ay: int, bx: int, by: int, m: int, span: int, low: int)
    requires
        CAPTURE_DEN * low > CAPTURE_NUM * m * m,
        forall|n: int, d: int|
            d > 0 && 0 <= n <= span * d ==> #[trigger] sq_at(ax, ay, bx, by, n, d) >= (d * d)
                * low,
    ensures
        !comes_near(ax, ay, bx, by, m, span),
{
    assert forall|n: int, d: int| d > 0 && 0 <= n <= span * d implies !#[trigger] near_at(
        ax,
        ay,
        bx,
        by,
        m,
        n,
        d,
    ) by {
        let s = sq(d * ax + n * bx, d * ay + n * by);
        assert(sq_at(ax, ay, bx, by, n, d) >= (d * d) * low);
        assert(d * d > 0) by (nonlinear_arith)
            requires
                d > 0,
        ;
        assert(CAPTURE_DEN * s >= (d * d) * (CAPTURE_DEN * low)) by (nonlinear_arith)
            requires
                s >= (d * d) * low,
        ;
        assert((d * d) * (CAPTURE_DEN * low) > (d * d) * (CAPTURE_NUM * m * m)) by (
        nonlinear_arith)
            requires
                d * d > 0,
                CAPTURE_DEN * low > CAPTURE_NUM * m * m,
        ;
        assert((d * d) * (CAPTURE_NUM * m * m) == CAPTURE_NUM * (m * d) * (m * d))
            by (nonlinear_arith);
    }
}

/// Decides `comes_near` by the closed-form closest moment
/// `t* = clamp(-(a.b) / |b|^2, 0, span)`.
pub fn comes_near_exec(ax: i64, ay: i64, bx: i64, by: i64, m: i64, span: i64) -> (r: bool)
    requires
        in_bounds(ax as int),
        in_bounds(ay as int),
        in_bounds(bx as int),
        in_bounds(by as int),
        1 <= m <= SCALE_BOUND,
        0 <= span <= SCALE_BOUND,
    ensures
        r == comes_near(ax as int, ay as int, bx as int, by as int, m as int, span as int),
{
    proof {
        lemma_mul_bound(ax as int, ax as int, COORD_BOUND as int, COORD_BOUND as int);
        lemma_mul_bound(ay as int, ay as int, COORD_BOUND as int, COORD_BOUND as int);
        lemma_mul_bound(bx as int, bx as int, COORD_BOUND as int, COORD_BOUND as int);
        lemma_mul_bound(by as int, by as int, COORD_BOUND as int, COORD_BOUND as int);
        lemma_mul_bound(ax as int, bx as int, COORD_BOUND as int, COORD_BOUND as int);
        lemma_mul_bound(ay as int, by as int, COORD_BOUND as int, COORD_BOUND as int);
        lemma_mul_bound(m as int, m as int, SCALE_BOUND as int, SCALE_BOUND as int);
    }
    let aa = ax * ax + ay * ay;
    let bb = bx * bx + by * by;
    let ab = ax * bx + ay * by;
    let mm = m * m;
    let limit = CAPTURE_NUM * mm;
    let ghost (gax, gay, gbx, gby, gm, gs) = (
        ax as int,
        ay as int,
        bx as int,
        by as int,
        m as int,
        span as int,
    );
    proof {
        lemma_sq_nonneg(gbx, gby);
        lemma_sq_nonneg(gax, gay);
    }
    proof {
        lemma_mul_bound(span as int, bb as int, SCALE_BOUND as int, 8000000);
    }
    if bb == 0 || ab >= 0 {
        let r = CAPTURE_DEN * aa <= limit;
        proof {
            assert(CAPTURE_NUM * gm * gm == limit) by (nonlinear_arith)
                requires
                    limit == CAPTURE_NUM * (gm * gm),
            ;
            if r {
                assert(sq(1 * gax + 0 * gbx, 1 * gay + 0 * gby) == aa);
                assert(CAPTURE_NUM * (gm * 1) * (gm * 1) == limit);
                assert(near_at(gax, gay, gbx, gby, gm, 0, 1));
            } else {
                assert forall|n: int, d: int| d > 0 && 0 <= n <= gs * d implies #[trigger] sq_at(gax, gay, gbx, gby, n, d) >= (d * d) * (aa as int) by {
                    lemma_expand(gax, gay, gbx, gby, n, d);
                    if bb == 0 {
                        lemma_sq_nonneg(gbx, gby);
                        assert(gbx == 0 && gby == 0);
                        assert(sq(gbx, gby) == 0);
                        assert(n * n * sq(gbx, gby) == 0) by (nonlinear_arith)
                            requires
                                sq(gbx, gby) == 0,
                        ;
                        assert(2 * d * n * (gax * gbx + gay * gby) == 0) by (nonlinear_arith)
                            requires
                                gbx == 0 && gby == 0,
                        ;
                    } else {
                        assert(2 * d * n * (ab as int) >= 0) by (nonlinear_arith)
                            requires
                                d > 0,
                                n >= 0,
                                ab >= 0,
                        ;
                        assert(n * n * (bb as int) >= 0) by (nonlinear_arith)
                            requires
                                bb >= 0,
                        ;
                    }
                }
                lemma_far_everywhere(gax, gay, gbx, gby, gm, gs, aa as int);
            }
        }
        r
    } else if -ab >= span * bb {
        proof {
            lemma_mul_bound(span as int, bx as int, SCALE_BOUND as int, COORD_BOUND as int);
            lemma_mul_bound(span as int, by as int, SCALE_BOUND as int, COORD_BOUND as int);
        }
        let ex = ax + span * bx;
        let ey = ay + span * by;
        proof {
            lemma_mul_bound(ex as int, ex as int, 202000, 202000);
            lemma_mul_bound(ey as int, ey as int, 202000, 202000);
        }
        let ee = ex * ex + ey * ey;
        let r = CAPTURE_DEN * ee <= limit;
        proof {
            assert(CAPTURE_NUM * gm * gm == limit) by (nonlinear_arith)
                requires
                    limit == CAPTURE_NUM * (gm * gm),
            ;
            if r {
                assert(1 * gax + gs * gbx == ex as int);
                assert(1 * gay + gs * gby == ey as int);
                assert(sq(1 * gax + gs * gbx, 1 * gay + gs * gby) == ee as int);
                assert(CAPTURE_NUM * (gm * 1) * (gm * 1) == limit) by (nonlinear_arith)
                    requires
                        limit == CAPTURE_NUM * (gm * gm),
                ;
                assert(near_at(gax, gay, gbx, gby, gm, gs, 1));
            } else {
                assert forall|n: int, d: int| d > 0 && 0 <= n <= gs * d implies #[trigger] sq_at(gax, gay, gbx, gby, n, d) >= (d * d) * (ee as int) by {
                    lemma_expand(gax, gay, gbx, gby, n, d);
                    lemma_expand(gax, gay, gbx, gby, gs, 1);
                    let (a2, b2, c2) = (aa as int, ab as int, bb as int);
                    assert(sq(1 * gax + gs * gbx, 1 * gay + gs * gby) == ee as int);
                    assert((n - gs * d) * (2 * d * b2 + c2 * (n + gs * d)) >= 0)
                        by (nonlinear_arith)
                        requires
                            n - gs * d <= 0,
                            d > 0,
                            n >= 0,
                            c2 > 0,
                            -b2 >= gs * c2,
                    {
                        assert(c2 * (n + gs * d) <= c2 * (2 * gs * d)) by (nonlinear_arith)
                            requires
                                n <= gs * d,
                                c2 > 0,
                        ;
                        assert(2 * d * b2 + c2 * (2 * gs * d) == 2 * d * (b2 + gs * c2))
                            by (nonlinear_arith);
                        assert(2 * d * (b2 + gs * c2) <= 0) by (nonlinear_arith)
                            requires
                                d > 0,
                                b2 + gs * c2 <= 0,
                        ;
                    }
                    lemma_shift(a2, b2, c2, n, d, gs);
                }
                lemma_far_everywhere(gax, gay, gbx, gby, gm, gs, ee as int);
            }
        }
        r
    } else {
        proof {
            lemma_mul_bound(aa as int, bb as int, 8000000, 8000000);
            lemma_mul_bound(ab as int, ab as int, 8000000, 8000000);
            lemma_mul_bound(limit as int, bb as int, 490000, 8000000);
        }
        let det = aa * bb - ab * ab;
        let r = CAPTURE_DEN * det <= limit * bb;
        proof {
            let (a2, b2, c2) = (aa as int, ab as int, bb as int);
            assert(limit * bb == CAPTURE_NUM * gm * gm * c2) by (nonlinear_arith)
                requires
                    limit == CAPTURE_NUM * (gm * gm),
                    c2 == bb,
            ;
            if r {
                let n = -b2;
                let d = c2;
                lemma_expand(gax, gay, gbx, gby, n, d);
                let s = sq(d * gax + n * gbx, d * gay + n * gby);
                lemma_lagrange(a2, b2, c2, n, d, s);
                assert(d * b2 + n * c2 == 0) by (nonlinear_arith)
                    requires
                        n == -b2,
                        d == c2,
                ;
                assert(c2 * s == c2 * (c2 * (a2 * c2 - b2 * b2))) by (nonlinear_arith)
                    requires
                        c2 * s == 0 * 0 + d * d * (a2 * c2 - b2 * b2),
                        d == c2,
                ;
                assert(s == c2 * (a2 * c2 - b2 * b2)) by (nonlinear_arith)
                    requires
                        c2 * s == c2 * (c2 * (a2 * c2 - b2 * b2)),
                        c2 > 0,
                ;
                assert(CAPTURE_DEN * s <= CAPTURE_NUM * (gm * d) * (gm * d)) by (nonlinear_arith)
                    requires
                        s == c2 * (a2 * c2 - b2 * b2),
                        CAPTURE_DEN * (a2 * c2 - b2 * b2) <= CAPTURE_NUM * gm * gm * c2,
                        c2 > 0,
                        d == c2,
                ;
                assert(0 <= n <= gs * d);
                assert(near_at(gax, gay, gbx, gby, gm, n, d));
            } else {
                assert forall|n: int, d: int| d > 0 && 0 <= n <= gs * d implies !#[trigger] near_at(
                    gax,
                    gay,
                    gbx,
                    gby,
                    gm,
                    n,
                    d,
                ) by {
                    lemma_expand(gax, gay, gbx, gby, n, d);
                    let s = sq(d * gax + n * gbx, d * gay + n * gby);
                    lemma_lagrange(a2, b2, c2, n, d, s);
                    let q = d * b2 + n * c2;
                    assert(q * q >= 0) by (nonlinear_arith);
                    let det2 = a2 * c2 - b2 * b2;
                    assert(CAPTURE_DEN * det2 > CAPTURE_NUM * gm * gm * c2);
                    assert(c2 * (CAPTURE_DEN * s) >= (d * d) * (CAPTURE_DEN * det2))
                        by (nonlinear_arith)
                        requires
                            c2 * s == q * q + d * d * det2,
                            q * q >= 0,
                    ;
                    assert(d * d > 0) by (nonlinear_arith)
                        requires
                            d > 0,
                    ;
                    assert((d * d) * (CAPTURE_DEN * det2) > (d * d) * (CAPTURE_NUM * gm * gm
                        * c2)) by (nonlinear_arith)
                        requires
                            d * d > 0,
                            CAPTURE_DEN * det2 > CAPTURE_NUM * gm * gm * c2,
                    ;
                    assert(c2 * (CAPTURE_DEN * s) > c2 * (CAPTURE_NUM * (gm * d) * (gm * d)))
                        by (nonlinear_arith)
                        requires
                            c2 * (CAPTURE_DEN * s) > (d * d) * (CAPTURE_NUM * gm * gm * c2),
                    ;
                    assert(CAPTURE_DEN * s > CAPTURE_NUM * (gm * d) * (gm * d))
                        by (nonlinear_arith)
                        requires
                            c2 * (CAPTURE_DEN * s) > c2 * (CAPTURE_NUM * (gm * d) * (gm * d)),
                            c2 > 0,
                    ;
                }
            }
        }
        r
    }
}

} // verus!
