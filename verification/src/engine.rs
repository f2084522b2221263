//! Mathematical model of the error-diffusion pass.
//!
//! The image is a flat row-major sequence of fixed-point samples, indexed by
//! `(x, y) -> x + y * w`. The scan runs x-outer, y-inner over the interior
//! (the cells at least `half` away from every edge). Each step quantizes the
//! current sample against the threshold, spreads the rounding error over the
//! kernel cells, and finalizes the sample to `0` or `SCALE`.
//!
//! The central bound is tracked by `rw`, the total kernel weight a cell has
//! received so far: since each already-processed source reaches a cell
//! through a distinct kernel cell, `rw` never exceeds the sum of all weights,
//! and a cell never drifts from its original value by more than
//! `rw * SCALE / div`, hence by more than one full intensity unit.

use vstd::prelude::*;
use vstd::arithmetic::div_mod::{
    lemma_fundamental_div_mod, lemma_div_is_ordered, lemma_div_multiples_vanish, lemma_mod_bound,
    lemma_div_of0,
};
use vstd::arithmetic::mul::{lemma_mul_inequality, lemma_mul_nonnegative};
use crate::algs::{Filter, sum_weights, lemma_weight_le_sum};
use crate::SCALE;

verus! {

/// Row-major index of the cell `(x, y)` in an image of width `w`.
pub open spec fn idx_at(w: int, x: int, y: int) -> int {
    x + y * w
}

/// The cell `(x, y)` is at least `half` away from every edge, so the scan
/// visits it.
pub open spec fn interior(f: Filter, w: int, h: int, x: int, y: int) -> bool {
    f.half() <= x < w - f.half() && f.half() <= y < h - f.half()
}

/// `(x1, y1)` comes strictly before `(x2, y2)` in the x-outer, y-inner scan.
pub open spec fn scan_lt(x1: int, y1: int, x2: int, y2: int) -> bool {
    x1 < x2 || (x1 == x2 && y1 < y2)
}

/// Quantized value of a sample: black, or full white.
pub open spec fn quant(p: int, thr: int) -> int {
    if p <= thr {
        0
    } else {
        SCALE as int
    }
}

/// Rounding error left over by quantization.
pub open spec fn qerr(p: int, thr: int) -> int {
    if p <= thr {
        p
    } else {
        p - SCALE
    }
}

/// The share of the error `e` that a kernel cell of weight `wt` receives,
/// with the division by `d` truncated toward zero.
pub open spec fn share(wt: int, e: int, d: int) -> int {
    if e >= 0 {
        (wt * e) / d
    } else {
        -((wt * (-e)) / d)
    }
}

/// x-coordinate hit by flat kernel cell `c` applied at `x`: rows offset the
/// outer scan axis.
pub open spec fn tgt_x(f: Filter, x: int, c: int) -> int {
    x - f.half() + c / (f.size as int)
}

/// y-coordinate hit by flat kernel cell `c` applied at `y`.
pub open spec fn tgt_y(f: Filter, y: int, c: int) -> int {
    y - f.half() + c % (f.size as int)
}

/// State after the first `c` kernel cells have spread the error `e` of the
/// pixel `(x, y)`.
pub open spec fn diffuse(s: Seq<int>, f: Filter, w: int, x: int, y: int, e: int, c: nat) -> Seq<
    int,
>
    decreases c,
{
    if c == 0 {
        s
    } else {
        let prev = diffuse(s, f, w, x, y, e, (c - 1) as nat);
        let t = idx_at(w, tgt_x(f, x, c - 1), tgt_y(f, y, c - 1));
        prev.update(t, prev[t] + share(f.wt(c - 1), e, f.div as int))
    }
}

/// One full pixel step at `(x, y)`: spread the quantization error, then
/// finalize the pixel to its quantized value.
pub open spec fn pix_step(s: Seq<int>, f: Filter, w: int, thr: int, x: int, y: int) -> Seq<int> {
    let p = s[idx_at(w, x, y)];
    let d = diffuse(s, f, w, x, y, qerr(p, thr), (f.size * f.size) as nat);
    d.update(idx_at(w, x, y), quant(p, thr))
}

/// State after the scan has processed column `x` up to (excluding) row `y`.
pub open spec fn scan_col(s: Seq<int>, f: Filter, w: int, h: int, thr: int, x: int, y: int) -> Seq<
    int,
>
    decreases y - f.half(),
{
    if y <= f.half() {
        s
    } else {
        pix_step(scan_col(s, f, w, h, thr, x, y - 1), f, w, thr, x, y - 1)
    }
}

/// State after the scan has processed all columns up to (excluding) `x`.
pub open spec fn scan_cols(s: Seq<int>, f: Filter, w: int, h: int, thr: int, x: int) -> Seq<int>
    decreases x - f.half(),
{
    if x <= f.half() {
        s
    } else {
        scan_col(scan_cols(s, f, w, h, thr, x - 1), f, w, h, thr, x - 1, h - f.half())
    }
}

/// The complete pass: every interior pixel in scan order.
pub open spec fn dither(s: Seq<int>, f: Filter, w: int, h: int, thr: int) -> Seq<int> {
    scan_cols(s, f, w, h, thr, w - f.half())
}

/// Total kernel weight the cell `(tx, ty)` has received, summed over the
/// first `c` kernel cells: cell `cc` contributes when the source pixel that
/// reaches `(tx, ty)` through it is interior and already processed — strictly
/// before the scan position `(px, py)`, or equal to it with `cc` among the
/// `cur_c` cells already spread at the current pixel.
pub open spec fn rw(
    f: Filter,
    w: int,
    h: int,
    tx: int,
    ty: int,
    px: int,
    py: int,
    cur_c: nat,
    c: nat,
) -> int
    decreases c,
{
    if c == 0 {
        0
    } else {
        let cc = c - 1;
        let sx = tx + f.half() - cc / (f.size as int);
        let sy = ty + f.half() - cc % (f.size as int);
        rw(f, w, h, tx, ty, px, py, cur_c, (c - 1) as nat) + if interior(f, w, h, sx, sy) && (
        scan_lt(sx, sy, px, py) || (sx == px && sy == py && cc < cur_c)) {
            f.wt(cc)
        } else {
            0
        }
    }
}

/// The fixed-point samples of an executable buffer, as mathematical integers.
pub open spec fn as_ints(s: Seq<i64>) -> Seq<int> {
    Seq::new(s.len(), |i: int| s[i] as int)
}

/// Every value of `s` lies in `[lo, hi]`.
pub open spec fn seq_in(s: Seq<int>, lo: int, hi: int) -> bool {
    forall|k: int| 0 <= k < s.len() ==> lo <= #[trigger] s[k] <= hi
}

/// A cell's bound on how far the state `s` may drift from `orig`: processed
/// interior cells are already binary; every other cell has moved by at most
/// `rw * SCALE / div`.
pub open spec fn cell_ok(
    orig: Seq<int>,
    s: Seq<int>,
    f: Filter,
    w: int,
    h: int,
    px: int,
    py: int,
    cur_c: nat,
    x: int,
    y: int,
) -> bool {
    let t = idx_at(w, x, y);
    if interior(f, w, h, x, y) && scan_lt(x, y, px, py) {
        s[t] == 0 || s[t] == SCALE
    } else {
        let d = f.div as int;
        let r = rw(f, w, h, x, y, px, py, cur_c, (f.size * f.size) as nat);
        d * (s[t] - orig[t]) <= r * (SCALE as int) && -(r * (SCALE as int)) <= d * (s[t]
            - orig[t])
    }
}

/// The scan invariant at position `(px, py)` with `cur_c` cells of the
/// current pixel already spread.
pub open spec fn inv_at(
    orig: Seq<int>,
    s: Seq<int>,
    f: Filter,
    w: int,
    h: int,
    px: int,
    py: int,
    cur_c: nat,
) -> bool {
    &&& s.len() == w * h
    &&& orig.len() == w * h
    &&& forall|x: int, y: int|
        0 <= x < w && 0 <= y < h ==> #[trigger] cell_ok(orig, s, f, w, h, px, py, cur_c, x, y)
}

/// A flat kernel cell index splits into a row and a column, each below the
/// kernel size.
pub proof fn lemma_cell_split(c: int, n: int)
    requires
        0 <= c < n * n,
        1 <= n,
    ensures
        0 <= c / n < n,
        0 <= c % n < n,
        c == n * (c / n) + c % n,
{
    lemma_fundamental_div_mod(c, n);
    lemma_mod_bound(c, n);
    assert(0 <= c / n < n) by (nonlinear_arith)
        requires
            c == n * (c / n) + c % n,
            0 <= c % n < n,
            0 <= c < n * n,
            1 <= n,
    ;
}

/// Row-major indexing is injective over the cells of the image.
pub proof fn lemma_idx_inj(w: int, x1: int, y1: int, x2: int, y2: int)
    requires
        0 <= x1 < w,
        0 <= x2 < w,
        idx_at(w, x1, y1) == idx_at(w, x2, y2),
    ensures
        x1 == x2,
        y1 == y2,
{
    assert(x1 == x2 && y1 == y2) by (nonlinear_arith)
        requires
            0 <= x1 < w,
            0 <= x2 < w,
            x1 + y1 * w == x2 + y2 * w,
    ;
}

/// Every cell of the image has its row-major index inside the buffer.
pub proof fn lemma_idx_range(w: int, h: int, x: int, y: int)
    requires
        0 <= x < w,
        0 <= y < h,
    ensures
        0 <= idx_at(w, x, y) < w * h,
{
    assert(0 <= x + y * w < w * h) by (nonlinear_arith)
        requires
            0 <= x < w,
            0 <= y < h,
    ;
}

/// Applied at an interior pixel, every kernel cell hits a cell of the image.
pub proof fn lemma_tgt_bounds(f: Filter, w: int, h: int, x: int, y: int, c: int)
    requires
        f.wf(),
        interior(f, w, h, x, y),
        0 <= c < f.size * f.size,
    ensures
        0 <= tgt_x(f, x, c) < w,
        0 <= tgt_y(f, y, c) < h,
        0 <= idx_at(w, tgt_x(f, x, c), tgt_y(f, y, c)) < w * h,
{
    let n = f.size as int;
    lemma_cell_split(c, n);
    lemma_fundamental_div_mod(n, 2);
    lemma_mod_bound(n, 2);
    lemma_idx_range(w, h, tgt_x(f, x, c), tgt_y(f, y, c));
}

/// Distinct kernel cells hit distinct cells of the image.
pub proof fn lemma_tgt_inj(f: Filter, x: int, y: int, c1: int, c2: int)
    requires
        1 <= f.size,
        0 <= c1 < f.size * f.size,
        0 <= c2 < f.size * f.size,
        c1 != c2,
    ensures
        tgt_x(f, x, c1) != tgt_x(f, x, c2) || tgt_y(f, y, c1) != tgt_y(f, y, c2),
{
    let n = f.size as int;
    lemma_cell_split(c1, n);
    lemma_cell_split(c2, n);
}

/// Bounds on the share of the error a kernel cell receives: it never exceeds
/// the error itself, and `div` times the share stays within `weight * error`.
pub proof fn lemma_share(wt: int, e: int, d: int)
    requires
        0 <= wt <= d,
        1 <= d,
    ensures
        e >= 0 ==> 0 <= share(wt, e, d) <= e && d * share(wt, e, d) <= wt * e,
        e < 0 ==> e <= share(wt, e, d) <= 0 && d * share(wt, e, d) >= wt * e,
        wt == 0 ==> share(wt, e, d) == 0,
{
    let a = if e >= 0 {
        wt * e
    } else {
        wt * (-e)
    };
    lemma_mul_nonnegative(wt, if e >= 0 { e } else { -e });
    lemma_fundamental_div_mod(a, d);
    lemma_mod_bound(a, d);
    assert(0 <= a / d) by (nonlinear_arith)
        requires
            a == d * (a / d) + a % d,
            0 <= a % d < d,
            a >= 0,
            d >= 1,
    ;
    lemma_mul_inequality(wt, d, if e >= 0 { e } else { -e });
    lemma_div_is_ordered(a, d * (if e >= 0 { e } else { -e }), d);
    lemma_div_multiples_vanish(if e >= 0 { e } else { -e }, d);
    if e < 0 {
        assert(d * share(wt, e, d) == -(d * (a / d))) by (nonlinear_arith)
            requires
                share(wt, e, d) == -(a / d),
        ;
        assert(wt * e == -a) by (nonlinear_arith)
            requires
                a == wt * (-e),
        ;
    }
    if wt == 0 {
        assert(a == 0) by (nonlinear_arith)
            requires
                a == 0 * (if e >= 0 { e } else { -e }),
        ;
        lemma_div_of0(d);
    }
}

/// Received weight is never negative.
pub proof fn lemma_rw_nonneg(
    f: Filter,
    w: int,
    h: int,
    tx: int,
    ty: int,
    px: int,
    py: int,
    cur_c: nat,
    c: nat,
)
    ensures
        rw(f, w, h, tx, ty, px, py, cur_c, c) >= 0,
    decreases c,
{
    if c > 0 {
        lemma_rw_nonneg(f, w, h, tx, ty, px, py, cur_c, (c - 1) as nat);
    }
}

/// Received weight is bounded by the sum of the kernel's weights: every
/// processed source reaches the cell through a distinct kernel cell.
pub proof fn lemma_rw_le_sum(
    f: Filter,
    w: int,
    h: int,
    tx: int,
    ty: int,
    px: int,
    py: int,
    cur_c: nat,
    c: nat,
)
    requires
        c <= f.matrix@.len(),
    ensures
        rw(f, w, h, tx, ty, px, py, cur_c, c) <= sum_weights(f.matrix@, c),
    decreases c,
{
    if c > 0 {
        lemma_rw_le_sum(f, w, h, tx, ty, px, py, cur_c, (c - 1) as nat);
    }
}

/// Cells in the left border band receive nothing: every kernel cell with a
/// positive weight sits on or below the center row, so its source would have
/// to stand left of the interior.
pub proof fn lemma_rw_zero_left(
    f: Filter,
    w: int,
    h: int,
    tx: int,
    ty: int,
    px: int,
    py: int,
    cur_c: nat,
    c: nat,
)
    requires
        f.wf(),
        tx < f.half(),
        c <= f.size * f.size,
    ensures
        rw(f, w, h, tx, ty, px, py, cur_c, c) == 0,
    decreases c,
{
    if c > 0 {
        let cc = c - 1;
        let n = f.size as int;
        lemma_rw_zero_left(f, w, h, tx, ty, px, py, cur_c, (c - 1) as nat);
        lemma_cell_split(cc, n);
        let sx = tx + f.half() - cc / n;
        if f.wt(cc) > 0 {
            assert(cc / n >= f.half());
            assert(sx < f.half());
            assert(!interior(f, w, h, sx, ty + f.half() - cc % n));
        }
    }
}

/// Finishing all kernel cells of the current pixel is the same as advancing
/// the scan position one row down.
pub proof fn lemma_rw_advance(
    f: Filter,
    w: int,
    h: int,
    tx: int,
    ty: int,
    px: int,
    py: int,
    c: nat,
)
    requires
        c <= f.size * f.size,
    ensures
        rw(f, w, h, tx, ty, px, py, (f.size * f.size) as nat, c) == rw(
            f,
            w,
            h,
            tx,
            ty,
            px,
            py + 1,
            0,
            c,
        ),
    decreases c,
{
    if c > 0 {
        lemma_rw_advance(f, w, h, tx, ty, px, py, (c - 1) as nat);
    }
}

/// At the end of a column the scan moves to the top of the next one; no
/// interior source lies between the two positions, so received weights agree.
pub proof fn lemma_rw_colend(
    f: Filter,
    w: int,
    h: int,
    tx: int,
    ty: int,
    px: int,
    c: nat,
)
    ensures
        rw(f, w, h, tx, ty, px, h - f.half(), 0, c) == rw(f, w, h, tx, ty, px + 1, f.half(), 0, c),
    decreases c,
{
    if c > 0 {
        lemma_rw_colend(f, w, h, tx, ty, px, (c - 1) as nat);
    }
}

/// Received weight over the first `c` kernel cells does not depend on how
/// many cells of the current pixel are spread, as long as all of `c` are
/// counted either way.
pub proof fn lemma_rw_prefix_eq(
    f: Filter,
    w: int,
    h: int,
    tx: int,
    ty: int,
    px: int,
    py: int,
    cur1: nat,
    cur2: nat,
    c: nat,
)
    requires
        c <= cur1,
        c <= cur2,
    ensures
        rw(f, w, h, tx, ty, px, py, cur1, c) == rw(f, w, h, tx, ty, px, py, cur2, c),
    decreases c,
{
    if c > 0 {
        lemma_rw_prefix_eq(f, w, h, tx, ty, px, py, cur1, cur2, (c - 1) as nat);
    }
}

/// Spreading one more kernel cell of the current pixel adds that cell's
/// weight to the cell it hits and changes no other received weight.
pub proof fn lemma_rw_cell_step(
    f: Filter,
    w: int,
    h: int,
    tx: int,
    ty: int,
    px: int,
    py: int,
    k: nat,
    c: nat,
)
    requires
        1 <= f.size,
        interior(f, w, h, px, py),
        k < c <= f.size * f.size,
    ensures
        rw(f, w, h, tx, ty, px, py, (k + 1) as nat, c) == rw(f, w, h, tx, ty, px, py, k, c) + (
        if tx == tgt_x(f, px, k as int) && ty == tgt_y(f, py, k as int) {
            f.wt(k as int)
        } else {
            0
        }),
    decreases c,
{
    let n = f.size as int;
    let cc = (c - 1) as int;
    if cc > k {
        lemma_rw_cell_step(f, w, h, tx, ty, px, py, k, (c - 1) as nat);
    } else {
        // cc == k: only this term can differ between cur_c == k and k + 1
        lemma_rw_prefix_eq(f, w, h, tx, ty, px, py, k, (k + 1) as nat, k);
        let sx = tx + f.half() - cc / n;
        let sy = ty + f.half() - cc % n;
        if tx == tgt_x(f, px, k as int) && ty == tgt_y(f, py, k as int) {
            assert(sx == px && sy == py);
            assert(!scan_lt(px, py, px, py));
        } else {
            assert(!(sx == px && sy == py));
        }
    }
}

/// A flat buffer index splits into the coordinates of a cell.
pub proof fn lemma_idx_split(w: int, h: int, k: int)
    requires
        1 <= w,
        0 <= k < w * h,
    ensures
        0 <= k % w < w,
        0 <= k / w < h,
        idx_at(w, k % w, k / w) == k,
{
    lemma_fundamental_div_mod(k, w);
    lemma_mod_bound(k, w);
    assert(0 <= k / w < h && k % w + (k / w) * w == k) by (nonlinear_arith)
        requires
            k == w * (k / w) + k % w,
            0 <= k % w < w,
            0 <= k < w * h,
            1 <= w,
    ;
}

/// Spreading the error preserves the length of the buffer.
pub proof fn lemma_diffuse_len(s: Seq<int>, f: Filter, w: int, h: int, x: int, y: int, e: int, c: nat)
    requires
        f.wf(),
        interior(f, w, h, x, y),
        s.len() == w * h,
        c <= f.size * f.size,
    ensures
        diffuse(s, f, w, x, y, e, c).len() == s.len(),
    decreases c,
{
    if c > 0 {
        lemma_diffuse_len(s, f, w, h, x, y, e, (c - 1) as nat);
        lemma_tgt_bounds(f, w, h, x, y, c - 1);
    }
}

/// A cell that no kernel cell among the first `c` hits keeps its value.
pub proof fn lemma_diffuse_untouched(
    s: Seq<int>,
    f: Filter,
    w: int,
    h: int,
    x: int,
    y: int,
    e: int,
    c: nat,
    k: int,
)
    requires
        f.wf(),
        interior(f, w, h, x, y),
        s.len() == w * h,
        c <= f.size * f.size,
        0 <= k < w * h,
        forall|cc: int|
            0 <= cc < c ==> idx_at(w, #[trigger] tgt_x(f, x, cc), tgt_y(f, y, cc)) != k,
    ensures
        diffuse(s, f, w, x, y, e, c)[k] == s[k],
    decreases c,
{
    if c > 0 {
        lemma_diffuse_untouched(s, f, w, h, x, y, e, (c - 1) as nat, k);
        lemma_diffuse_len(s, f, w, h, x, y, e, (c - 1) as nat);
        lemma_tgt_bounds(f, w, h, x, y, c - 1);
    }
}

/// Spreading one more kernel cell of the current pixel keeps the scan
/// invariant, with the received weight of the hit cell stepped up.
pub proof fn lemma_diffuse_inv(
    orig: Seq<int>,
    s: Seq<int>,
    f: Filter,
    w: int,
    h: int,
    px: int,
    py: int,
    e: int,
    c: nat,
)
    requires
        f.wf(),
        s.len() == w * h,
        orig.len() == w * h,
        interior(f, w, h, px, py),
        -(SCALE as int) <= e <= SCALE as int,
        inv_at(orig, s, f, w, h, px, py, 0),
        c <= f.size * f.size,
    ensures
        inv_at(orig, diffuse(s, f, w, px, py, e, c), f, w, h, px, py, c),
    decreases c,
{
    if c > 0 {
        lemma_diffuse_inv(orig, s, f, w, h, px, py, e, (c - 1) as nat);
        let n = f.size as int;
        let n2 = (f.size * f.size) as nat;
        let cc = c - 1;
        let prev = diffuse(s, f, w, px, py, e, (c - 1) as nat);
        let cur = diffuse(s, f, w, px, py, e, c);
        lemma_diffuse_len(s, f, w, h, px, py, e, (c - 1) as nat);
        lemma_tgt_bounds(f, w, h, px, py, cc);
        let gx = tgt_x(f, px, cc);
        let gy = tgt_y(f, py, cc);
        let t = idx_at(w, gx, gy);
        let d = f.div as int;
        let wt = f.wt(cc);
        lemma_weight_le_sum(f.matrix@, f.matrix@.len(), cc);
        lemma_share(wt, e, d);
        let sh = share(wt, e, d);
        assert forall|x: int, y: int| 0 <= x < w && 0 <= y < h implies #[trigger] cell_ok(
            orig,
            cur,
            f,
            w,
            h,
            px,
            py,
            c,
            x,
            y,
        ) by {
            assert(cell_ok(orig, prev, f, w, h, px, py, (c - 1) as nat, x, y));
            lemma_idx_range(w, h, x, y);
            let kidx = idx_at(w, x, y);
            lemma_rw_cell_step(f, w, h, x, y, px, py, (c - 1) as nat, n2);
            let r_old = rw(f, w, h, x, y, px, py, (c - 1) as nat, n2);
            if x == gx && y == gy {
                if wt > 0 {
                    // a positive weight sits strictly after the center, so the
                    // hit cell is strictly after the scan position
                    lemma_cell_split(cc, n);
                    assert(cc / n > f.half() || (cc / n == f.half() && cc % n > f.half()));
                    assert(gx > px || (gx == px && gy > py));
                    assert(!(interior(f, w, h, x, y) && scan_lt(x, y, px, py)));
                    assert(d * (cur[kidx] - orig[kidx]) == d * (prev[kidx] - orig[kidx]) + d * sh)
                        by (nonlinear_arith)
                        requires
                            cur[kidx] == prev[kidx] + sh,
                    ;
                    assert(d * sh <= wt * (SCALE as int) && -(wt * (SCALE as int)) <= d * sh)
                        by (nonlinear_arith)
                        requires
                            e >= 0 ==> 0 <= sh && d * sh <= wt * e,
                            e < 0 ==> sh <= 0 && d * sh >= wt * e,
                            -(SCALE as int) <= e <= SCALE as int,
                            0 <= wt,
                            1 <= d,
                    ;
                    assert((r_old + wt) * (SCALE as int) == r_old * (SCALE as int) + wt * (
                    SCALE as int)) by (nonlinear_arith);
                    assert(cell_ok(orig, cur, f, w, h, px, py, c, x, y));
                } else {
                    assert(cur[kidx] == prev[kidx]);
                    assert(cell_ok(orig, cur, f, w, h, px, py, c, x, y));
                }
            } else {
                if kidx == t {
                    lemma_idx_inj(w, x, y, gx, gy);
                }
                assert(kidx != t);
                assert(cur[kidx] == prev[kidx]);
                assert(cell_ok(orig, cur, f, w, h, px, py, c, x, y));
            }
        }
    }
}

/// One full pixel step preserves the scan invariant, advancing the scan
/// position one row down.
pub proof fn lemma_pix_step_inv(
    orig: Seq<int>,
    s: Seq<int>,
    f: Filter,
    w: int,
    h: int,
    thr: int,
    px: int,
    py: int,
)
    requires
        f.wf(),
        s.len() == w * h,
        orig.len() == w * h,
        interior(f, w, h, px, py),
        forall|k: int| 0 <= k < w * h ==> 0 <= #[trigger] orig[k] <= SCALE as int,
        0 <= thr <= SCALE as int,
        inv_at(orig, s, f, w, h, px, py, 0),
    ensures
        inv_at(orig, pix_step(s, f, w, thr, px, py), f, w, h, px, py + 1, 0),
{
    let n2 = (f.size * f.size) as nat;
    let d = f.div as int;
    let o = idx_at(w, px, py);
    lemma_idx_range(w, h, px, py);
    assert(cell_ok(orig, s, f, w, h, px, py, 0, px, py));
    let r0 = rw(f, w, h, px, py, px, py, 0, n2);
    lemma_rw_nonneg(f, w, h, px, py, px, py, 0, n2);
    lemma_rw_le_sum(f, w, h, px, py, px, py, 0, n2);
    lemma_mul_inequality(r0, d, SCALE as int);
    let p = s[o];
    assert(-(SCALE as int) <= p - orig[o] <= SCALE as int) by (nonlinear_arith)
        requires
            d * (p - orig[o]) <= d * (SCALE as int),
            -(d * (SCALE as int)) <= d * (p - orig[o]),
            d >= 1,
            (SCALE as int) >= 0,
    ;
    assert(0 <= orig[o] <= SCALE as int);
    let e = qerr(p, thr);
    assert(-(SCALE as int) <= e <= SCALE as int);
    lemma_diffuse_inv(orig, s, f, w, h, px, py, e, n2);
    let ds = diffuse(s, f, w, px, py, e, n2);
    lemma_diffuse_len(s, f, w, h, px, py, e, n2);
    let fin = pix_step(s, f, w, thr, px, py);
    assert forall|x: int, y: int| 0 <= x < w && 0 <= y < h implies #[trigger] cell_ok(
        orig,
        fin,
        f,
        w,
        h,
        px,
        py + 1,
        0,
        x,
        y,
    ) by {
        assert(cell_ok(orig, ds, f, w, h, px, py, n2, x, y));
        lemma_idx_range(w, h, x, y);
        let kidx = idx_at(w, x, y);
        lemma_rw_advance(f, w, h, x, y, px, py, n2);
        if x == px && y == py {
            assert(fin[kidx] == quant(p, thr));
            assert(scan_lt(x, y, px, py + 1));
        } else {
            if kidx == o {
                lemma_idx_inj(w, x, y, px, py);
            }
            assert(fin[kidx] == ds[kidx]);
            assert((interior(f, w, h, x, y) && scan_lt(x, y, px, py + 1)) == (interior(
                f,
                w,
                h,
                x,
                y,
            ) && scan_lt(x, y, px, py)));
        }
    }
}

/// The scan invariant holds at the start of the scan: nothing is processed
/// and nothing has been received.
pub proof fn lemma_scan_init(orig: Seq<int>, f: Filter, w: int, h: int)
    requires
        f.wf(),
        orig.len() == w * h,
    ensures
        inv_at(orig, orig, f, w, h, f.half(), f.half(), 0),
{
    let n2 = (f.size * f.size) as nat;
    assert forall|x: int, y: int| 0 <= x < w && 0 <= y < h implies #[trigger] cell_ok(
        orig,
        orig,
        f,
        w,
        h,
        f.half(),
        f.half(),
        0,
        x,
        y,
    ) by {
        lemma_rw_nonneg(f, w, h, x, y, f.half(), f.half(), 0, n2);
        lemma_mul_nonnegative(rw(f, w, h, x, y, f.half(), f.half(), 0, n2), SCALE as int);
        assert(!(interior(f, w, h, x, y) && scan_lt(x, y, f.half(), f.half())));
    }
}

/// At the end of a column the scan invariant carries to the top of the next
/// column.
pub proof fn lemma_colend_inv(orig: Seq<int>, s: Seq<int>, f: Filter, w: int, h: int, px: int)
    requires
        f.wf(),
        inv_at(orig, s, f, w, h, px, h - f.half(), 0),
    ensures
        inv_at(orig, s, f, w, h, px + 1, f.half(), 0),
{
    assert forall|x: int, y: int| 0 <= x < w && 0 <= y < h implies #[trigger] cell_ok(
        orig,
        s,
        f,
        w,
        h,
        px + 1,
        f.half(),
        0,
        x,
        y,
    ) by {
        assert(cell_ok(orig, s, f, w, h, px, h - f.half(), 0, x, y));
        lemma_rw_colend(f, w, h, x, y, px, (f.size * f.size) as nat);
        assert((interior(f, w, h, x, y) && scan_lt(x, y, px + 1, f.half())) == (interior(
            f,
            w,
            h,
            x,
            y,
        ) && scan_lt(x, y, px, h - f.half())));
    }
}

/// Determinism of the pass: the outcome is a function of the starting
/// samples, the kernel, the dimensions and the threshold alone, so two runs
/// from equal states agree exactly.
pub proof fn lemma_dither_deterministic(
    s1: Seq<int>,
    s2: Seq<int>,
    f: Filter,
    w: int,
    h: int,
    t1: int,
    t2: int,
)
    requires
        s1 == s2,
        t1 == t2,
    ensures
        dither(s1, f, w, h, t1) == dither(s2, f, w, h, t2),
{
}

/// While the scan stands at `(px, py)`, every sample has drifted at most one
/// full intensity unit from its original value.
pub proof fn lemma_inv_range(
    orig: Seq<int>,
    s: Seq<int>,
    f: Filter,
    w: int,
    h: int,
    px: int,
    py: int,
)
    requires
        f.wf(),
        1 <= w,
        orig.len() == w * h,
        seq_in(orig, 0, SCALE as int),
        inv_at(orig, s, f, w, h, px, py, 0),
    ensures
        seq_in(s, -(SCALE as int), 2 * (SCALE as int)),
{
    let n2 = (f.size * f.size) as nat;
    let d = f.div as int;
    assert forall|k: int| 0 <= k < s.len() implies -(SCALE as int) <= #[trigger] s[k] <= 2 * (
    SCALE as int) by {
        lemma_idx_split(w, h, k);
        let x = k % w;
        let y = k / w;
        assert(cell_ok(orig, s, f, w, h, px, py, 0, x, y));
        if !(interior(f, w, h, x, y) && scan_lt(x, y, px, py)) {
            let r = rw(f, w, h, x, y, px, py, 0, n2);
            lemma_rw_nonneg(f, w, h, x, y, px, py, 0, n2);
            lemma_rw_le_sum(f, w, h, x, y, px, py, 0, n2);
            lemma_mul_inequality(r, d, SCALE as int);
            assert(-(SCALE as int) <= s[k] - orig[k] <= SCALE as int) by (nonlinear_arith)
                requires
                    d * (s[k] - orig[k]) <= d * (SCALE as int),
                    -(d * (SCALE as int)) <= d * (s[k] - orig[k]),
                    d >= 1,
                    (SCALE as int) >= 0,
            ;
            assert(0 <= orig[k] <= SCALE as int);
        }
    }
}

} // verus!
