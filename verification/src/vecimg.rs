//! The luminance image and the dithering engine.
//!
//! A `VecImg` owns a flat row-major buffer of fixed-point luminance samples
//! (`SCALE` stands for full white) and the threshold that separates black
//! from white. `apply_filter` performs one verified pixel step; `apply_kernel`
//! runs the full raster scan and is proved equal to the `engine::dither`
//! model of the pass.

use vstd::prelude::*;
use vstd::arithmetic::div_mod::{
    lemma_fundamental_div_mod, lemma_div_is_ordered, lemma_div_multiples_vanish, lemma_mod_bound,
    lemma_div_of0,
};
use vstd::arithmetic::mul::{lemma_mul_inequality, lemma_mul_nonnegative};
use crate::algs::{Filter, lemma_weight_le_sum};
use crate::srgb::{lum_of, luminance, srgb_linear_table, srgb_table};
use crate::engine::{
    as_ints, cell_ok, diffuse, dither, idx_at, interior, inv_at, lemma_cell_split,
    lemma_colend_inv, lemma_diffuse_untouched, lemma_idx_inj, lemma_idx_range, lemma_inv_range,
    lemma_pix_step_inv, lemma_rw_zero_left, lemma_scan_init, lemma_share, lemma_tgt_bounds,
    lemma_tgt_inj, pix_step, qerr, quant, scan_col, scan_cols, scan_lt, seq_in, share, tgt_x,
    tgt_y,
};
use crate::SCALE;

verus! {

/// How often the byte `v` occurs among the first `k` entries of `s`.
pub open spec fn count_pref(s: Seq<u8>, v: u8, k: int) -> int
    decreases k,
{
    if k <= 0 {
        0
    } else {
        count_pref(s, v, k - 1) + if s[k - 1] == v {
            1int
        } else {
            0int
        }
    }
}

/// The 256-bucket histogram of a byte buffer with every bucket seeded at
/// one.
pub open spec fn smooth_hist(bytes: Seq<u8>) -> Seq<int> {
    Seq::new(256, |i: int| 1 + count_pref(bytes, i as u8, bytes.len() as int))
}

/// A `u32` buffer as mathematical integers.
pub open spec fn ints_of(s: Seq<u32>) -> Seq<int> {
    Seq::new(s.len(), |i: int| s[i] as int)
}

/// Sum over the first `k` buckets of `index * SCALE / count`.
pub open spec fn sum_ratio(bins: Seq<int>, k: int) -> int
    decreases k,
{
    if k <= 0 {
        0
    } else {
        sum_ratio(bins, k - 1) + ((k - 1) * (SCALE as int)) / bins[k - 1]
    }
}

/// Sum of the first `k` bucket counts.
pub open spec fn sum_count(bins: Seq<int>, k: int) -> int
    decreases k,
{
    if k <= 0 {
        0
    } else {
        sum_count(bins, k - 1) + bins[k - 1]
    }
}

/// The histogram threshold: the sum of `index / count` over all buckets,
/// divided by the total of all counts.
pub open spec fn threshold_of(bins: Seq<int>) -> int {
    sum_ratio(bins, 256) / sum_count(bins, 256)
}

/// A count never exceeds the number of bytes counted.
pub proof fn lemma_count_le(s: Seq<u8>, v: u8, k: int)
    requires
        0 <= k,
    ensures
        0 <= count_pref(s, v, k) <= k,
    decreases k,
{
    if k > 0 {
        lemma_count_le(s, v, k - 1);
    }
}

/// Failures of image construction and of the dithering pass; decode and
/// encode failures of the surrounding I/O layer use the same set.
#[derive(Debug, Clone, Copy, PartialEq, Eq, Structural)]
pub enum DitherError {
    DecodeError,
    InvalidDimensions,
    ImageTooSmall,
    EncodeError,
}

/// A grayscale image in fixed-point linear luminance, with its quantization
/// threshold.
pub struct VecImg {
    pub w: usize,
    pub h: usize,
    pub pixels: Vec<i64>,
    pub threshold: i64,
}

impl VecImg {
    /// The buffer holds exactly one sample per pixel of a non-empty image.
    pub open spec fn wf(self) -> bool {
        &&& 1 <= self.w
        &&& 1 <= self.h
        &&& self.pixels@.len() == self.w * self.h
    }

    /// The samples as mathematical integers.
    pub open spec fn model(self) -> Seq<int> {
        as_ints(self.pixels@)
    }

    /// Row-major position of the pixel `(x, y)`.
    fn idx(&self, x: usize, y: usize) -> (i: usize)
        requires
            self.wf(),
            x < self.w,
            y < self.h,
        ensures
            i == idx_at(self.w as int, x as int, y as int),
            i < self.pixels@.len(),
    {
        // reading the length makes `w * h <= usize::MAX` available, so the
        // index arithmetic below cannot overflow
        let _len = self.pixels.len();
        proof {
            lemma_idx_range(self.w as int, self.h as int, x as int, y as int);
        }
        y * self.w + x
    }

    /// Sample of the pixel `(x, y)`.
    pub fn get(&self, x: usize, y: usize) -> (p: i64)
        requires
            self.wf(),
            x < self.w,
            y < self.h,
        ensures
            p == self.model()[idx_at(self.w as int, x as int, y as int)],
    {
        let i = self.idx(x, y);
        self.pixels[i]
    }

    /// Overwrite the sample of the pixel `(x, y)`.
    pub fn set(&mut self, x: usize, y: usize, value: i64)
        requires
            old(self).wf(),
            x < old(self).w,
            y < old(self).h,
        ensures
            final(self).w == old(self).w,
            final(self).h == old(self).h,
            final(self).threshold == old(self).threshold,
            final(self).pixels@ == old(self).pixels@.update(
                idx_at(old(self).w as int, x as int, y as int),
                value,
            ),
    {
        let i = self.idx(x, y);
        self.pixels[i] = value;
    }

    /// Quantize a sample against the threshold: the finalized value and the
    /// rounding error left over.
    pub fn quantize(&self, p: i64) -> (r: (i64, i64))
        requires
            -(2 * SCALE) <= p <= 2 * SCALE,
        ensures
            r.0 == quant(p as int, self.threshold as int),
            r.1 == qerr(p as int, self.threshold as int),
    {
        if p <= self.threshold {
            (0, p)
        } else {
            (SCALE, p - SCALE)
        }
    }

    /// One pixel step of the scan at `(at_x, at_y)`: quantize the sample,
    /// spread the rounding error over the kernel cells, finalize the pixel.
    pub fn apply_filter(&mut self, at_x: usize, at_y: usize, f: &Filter)
        requires
            old(self).wf(),
            f.wf(),
            interior(*f, old(self).w as int, old(self).h as int, at_x as int, at_y as int),
            0 <= old(self).threshold <= SCALE,
            seq_in(old(self).model(), -(SCALE as int), 2 * (SCALE as int)),
        ensures
            final(self).w == old(self).w,
            final(self).h == old(self).h,
            final(self).threshold == old(self).threshold,
            final(self).pixels@.len() == old(self).pixels@.len(),
            final(self).model() == pix_step(
                old(self).model(),
                *f,
                old(self).w as int,
                old(self).threshold as int,
                at_x as int,
                at_y as int,
            ),
    {
        let w = self.w;
        let h = self.h;
        let n = f.size;
        proof {
            assert((n as int) * (n as int) <= 4096) by (nonlinear_arith)
                requires
                    1 <= n <= 64,
            ;
        }
        let nn = n * n;
        let half = n / 2;
        let thr = self.threshold;
        let ghost s0 = self.model();
        let ghost fi = *f;
        let i0 = self.idx(at_x, at_y);
        let p = self.pixels[i0];
        proof {
            assert(s0[i0 as int] == p as int);
            assert(-(SCALE as int) <= s0[i0 as int] <= 2 * (SCALE as int));
        }
        let (q, e) = self.quantize(p);
        let neg = e < 0;
        let mag: u64 = if neg {
            (-e) as u64
        } else {
            e as u64
        };
        let mut c: usize = 0;
        while c < nn
            invariant
                self.w == w,
                self.h == h,
                self.threshold == thr,
                self.wf(),
                fi == *f,
                f.wf(),
                f.size == n,
                nn == n * n,
                half == n / 2,
                interior(fi, w as int, h as int, at_x as int, at_y as int),
                c <= nn,
                i0 == idx_at(w as int, at_x as int, at_y as int),
                i0 < self.pixels@.len(),
                s0.len() == w * h,
                seq_in(s0, -(SCALE as int), 2 * (SCALE as int)),
                p == s0[i0 as int],
                e == qerr(p as int, thr as int),
                q == quant(p as int, thr as int),
                -(2 * SCALE) <= e <= 2 * SCALE,
                mag == (if e >= 0 { e as int } else { -(e as int) }),
                neg == (e < 0),
                as_ints(self.pixels@) == diffuse(s0, fi, w as int, at_x as int, at_y as int, e as int, c as nat),
            decreases nn - c,
        {
            proof {
                lemma_cell_split(c as int, n as int);
                lemma_tgt_bounds(fi, w as int, h as int, at_x as int, at_y as int, c as int);
            }
            let gx = at_x - half + c / n;
            let gy = at_y - half + c % n;
            let t = self.idx(gx, gy);
            let wt = f.matrix[c];
            proof {
                lemma_weight_le_sum(f.matrix@, f.matrix@.len(), c as int);
                lemma_share(wt as int, e as int, fi.div as int);
                assert forall|cc: int|
                    0 <= cc < c implies idx_at(
                    w as int,
                    #[trigger] tgt_x(fi, at_x as int, cc),
                    tgt_y(fi, at_y as int, cc),
                ) != t by {
                    lemma_tgt_bounds(fi, w as int, h as int, at_x as int, at_y as int, cc);
                    lemma_tgt_inj(fi, at_x as int, at_y as int, cc, c as int);
                    if idx_at(w as int, tgt_x(fi, at_x as int, cc), tgt_y(fi, at_y as int, cc))
                        == t {
                        lemma_idx_inj(
                            w as int,
                            tgt_x(fi, at_x as int, cc),
                            tgt_y(fi, at_y as int, cc),
                            tgt_x(fi, at_x as int, c as int),
                            tgt_y(fi, at_y as int, c as int),
                        );
                    }
                }
                lemma_diffuse_untouched(
                    s0,
                    fi,
                    w as int,
                    h as int,
                    at_x as int,
                    at_y as int,
                    e as int,
                    c as nat,
                    t as int,
                );
            }
            proof {
                assert((wt as int) * (mag as int) <= 1000000 * (2 * (SCALE as int)))
                    by (nonlinear_arith)
                    requires
                        0 <= wt <= 1000000,
                        0 <= mag <= 2 * (SCALE as int),
                ;
            }
            let num = wt * mag;
            let inc = num / f.div;
            proof {
                assert(inc <= num) by (nonlinear_arith)
                    requires
                        inc == num / (fi.div as u64),
                        1 <= fi.div,
                        0 <= num,
                ;
            }
            let delta: i64 = if neg {
                -(inc as i64)
            } else {
                inc as i64
            };
            proof {
                assert(delta as int == share(fi.wt(c as int), e as int, fi.div as int));
            }
            let old_v = self.pixels[t];
            self.pixels[t] = old_v + delta;
            proof {
                assert(as_ints(self.pixels@) =~= diffuse(
                    s0,
                    fi,
                    w as int,
                    at_x as int,
                    at_y as int,
                    e as int,
                    (c + 1) as nat,
                ));
            }
            c += 1;
        }
        self.pixels[i0] = q;
        proof {
            assert(as_ints(self.pixels@) =~= pix_step(
                s0,
                fi,
                w as int,
                thr as int,
                at_x as int,
                at_y as int,
            ));
        }
    }

    /// The full dithering pass: a raster scan over every interior pixel,
    /// x-outer and y-inner. Fails with `ImageTooSmall` exactly when the
    /// image is not strictly larger than the kernel footprint, leaving the
    /// buffer untouched; otherwise the buffer afterwards equals the
    /// `engine::dither` model of the pass, every interior pixel ends exactly
    /// black or white, and the left border band keeps its samples.
    pub fn apply_kernel(&mut self, f: &Filter) -> (r: Result<(), DitherError>)
        requires
            old(self).wf(),
            f.wf(),
            0 <= old(self).threshold <= SCALE,
            seq_in(old(self).model(), 0, SCALE as int),
        ensures
            final(self).w == old(self).w,
            final(self).h == old(self).h,
            final(self).threshold == old(self).threshold,
            final(self).wf(),
            old(self).w > f.size && old(self).h > f.size ==> {
                &&& r is Ok
                &&& final(self).model() == dither(
                    old(self).model(),
                    *f,
                    old(self).w as int,
                    old(self).h as int,
                    old(self).threshold as int,
                )
                &&& forall|x: int, y: int|
                    #[trigger] interior(*f, old(self).w as int, old(self).h as int, x, y)
                        ==> final(self).model()[idx_at(old(self).w as int, x, y)] == 0
                        || final(self).model()[idx_at(old(self).w as int, x, y)] == SCALE as int
                &&& forall|x: int, y: int|
                    0 <= x < f.half() && 0 <= y < old(self).h as int ==> final(self).model()[#[trigger] idx_at(old(self).w as int, x, y)] == old(self).model()[idx_at(old(self).w as int, x, y)]
            },
            !(old(self).w > f.size && old(self).h > f.size) ==> r == Err::<(), DitherError>(
                DitherError::ImageTooSmall,
            ) && final(self).pixels@ == old(self).pixels@,
    {
        let w = self.w;
        let h = self.h;
        if w <= f.size || h <= f.size {
            return Err(DitherError::ImageTooSmall);
        }
        let half = f.size / 2;
        let thr = self.threshold;
        let ghost orig = self.model();
        let ghost fi = *f;
        proof {
            lemma_scan_init(orig, fi, w as int, h as int);
        }
        let mut x = half;
        while x < w - half
            invariant
                self.w == w,
                self.h == h,
                self.threshold == thr,
                self.wf(),
                fi == *f,
                f.wf(),
                half == f.size / 2,
                w > f.size,
                h > f.size,
                0 <= thr <= SCALE,
                orig.len() == w * h,
                seq_in(orig, 0, SCALE as int),
                half <= x <= w - half,
                inv_at(
                    orig,
                    as_ints(self.pixels@),
                    fi,
                    w as int,
                    h as int,
                    x as int,
                    half as int,
                    0,
                ),
                as_ints(self.pixels@) == scan_cols(
                    orig,
                    fi,
                    w as int,
                    h as int,
                    thr as int,
                    x as int,
                ),
            decreases w - half - x,
        {
            let mut y = half;
            while y < h - half
                invariant
                    self.w == w,
                    self.h == h,
                    self.threshold == thr,
                    self.wf(),
                    fi == *f,
                    f.wf(),
                    half == f.size / 2,
                    w > f.size,
                    h > f.size,
                    0 <= thr <= SCALE,
                    orig.len() == w * h,
                    seq_in(orig, 0, SCALE as int),
                    half <= x < w - half,
                    half <= y <= h - half,
                    inv_at(
                        orig,
                        as_ints(self.pixels@),
                        fi,
                        w as int,
                        h as int,
                        x as int,
                        y as int,
                        0,
                    ),
                    as_ints(self.pixels@) == scan_col(
                        scan_cols(orig, fi, w as int, h as int, thr as int, x as int),
                        fi,
                        w as int,
                        h as int,
                        thr as int,
                        x as int,
                        y as int,
                    ),
                decreases h - half - y,
            {
                let ghost prev = as_ints(self.pixels@);
                proof {
                    lemma_inv_range(orig, prev, fi, w as int, h as int, x as int, y as int);
                    lemma_pix_step_inv(
                        orig,
                        prev,
                        fi,
                        w as int,
                        h as int,
                        thr as int,
                        x as int,
                        y as int,
                    );
                }
                self.apply_filter(x, y, f);
                y += 1;
            }
            proof {
                lemma_colend_inv(orig, as_ints(self.pixels@), fi, w as int, h as int, x as int);
            }
            x += 1;
        }
        proof {
            let fin = as_ints(self.pixels@);
            let n2 = (f.size * f.size) as nat;
            let d = fi.div as int;
            assert forall|xx: int, yy: int|
                #[trigger] interior(fi, w as int, h as int, xx, yy) implies fin[idx_at(
                w as int,
                xx,
                yy,
            )] == 0 || fin[idx_at(w as int, xx, yy)] == SCALE as int by {
                assert(cell_ok(
                    orig,
                    fin,
                    fi,
                    w as int,
                    h as int,
                    (w - half) as int,
                    half as int,
                    0,
                    xx,
                    yy,
                ));
                assert(scan_lt(xx, yy, (w - half) as int, half as int));
            }
            assert forall|xx: int, yy: int|
                0 <= xx < fi.half() && 0 <= yy < h as int implies fin[#[trigger] idx_at(
                w as int,
                xx,
                yy,
            )] == orig[idx_at(w as int, xx, yy)] by {
                assert(cell_ok(
                    orig,
                    fin,
                    fi,
                    w as int,
                    h as int,
                    (w - half) as int,
                    half as int,
                    0,
                    xx,
                    yy,
                ));
                lemma_rw_zero_left(
                    fi,
                    w as int,
                    h as int,
                    xx,
                    yy,
                    (w - half) as int,
                    half as int,
                    0,
                    n2,
                );
                let t = idx_at(w as int, xx, yy);
                assert(fin[t] == orig[t]) by (nonlinear_arith)
                    requires
                        d * (fin[t] - orig[t]) <= 0,
                        0 <= d * (fin[t] - orig[t]),
                        d >= 1,
                ;
            }
        }
        Ok(())
    }
}

/// The fixed-point luminance of each pixel of a flat 8-bit RGB buffer
/// (three bytes per pixel, row-major).
pub open spec fn lums_of(rgb: Seq<u8>, np: int) -> Seq<int> {
    Seq::new(np as nat, |p: int| lum_of(rgb[3 * p], rgb[3 * p + 1], rgb[3 * p + 2]))
}

/// The luminance of each pixel requantized to 8 bits, as the histogram sees
/// it.
pub open spec fn lum_bytes(rgb: Seq<u8>, np: int) -> Seq<u8> {
    Seq::new(np as nat, |p: int| ((lums_of(rgb, np)[p] * 255) / (SCALE as int)) as u8)
}

impl VecImg {
    /// Build the luminance image from a flat 8-bit RGB buffer: linearize and
    /// weigh each pixel's channels into a fixed-point luminance, then derive
    /// the histogram threshold. Zero dimensions are `InvalidDimensions`; a
    /// buffer that does not hold exactly three bytes per pixel cannot be
    /// interpreted and is `DecodeError`.
    pub fn from_rgb(w: usize, h: usize, rgb: &Vec<u8>) -> (r: Result<VecImg, DitherError>)
        requires
            w * h <= 0x1000_0000,
        ensures
            (w == 0 || h == 0) ==> r == Err::<VecImg, DitherError>(DitherError::InvalidDimensions),
            (w > 0 && h > 0 && rgb@.len() != 3 * w * h) ==> r == Err::<VecImg, DitherError>(
                DitherError::DecodeError,
            ),
            (w > 0 && h > 0 && rgb@.len() == 3 * w * h) ==> {
                &&& r is Ok
                &&& r->Ok_0.wf()
                &&& r->Ok_0.w == w
                &&& r->Ok_0.h == h
                &&& r->Ok_0.model() == lums_of(rgb@, (w * h) as int)
                &&& r->Ok_0.threshold == threshold_of(smooth_hist(lum_bytes(rgb@, (w * h) as int)))
                &&& r->Ok_0.threshold >= 0
                &&& seq_in(r->Ok_0.model(), 0, SCALE as int)
            },
    {
        if w == 0 || h == 0 {
            return Err(DitherError::InvalidDimensions);
        }
        let np = w * h;
        let need = 3 * np;
        proof {
            assert(need == 3 * w * h) by (nonlinear_arith)
                requires
                    np == w * h,
                    need == 3 * np,
            ;
        }
        if rgb.len() != need {
            return Err(DitherError::DecodeError);
        }
        let table = srgb_linear_table();
        let mut pixels: Vec<i64> = Vec::new();
        let mut bytes: Vec<u8> = Vec::new();
        let mut p: usize = 0;
        while p < np
            invariant
                np == w * h,
                np <= 0x1000_0000,
                rgb@.len() == 3 * np,
                table@ == srgb_table(),
                p <= np,
                pixels@.len() == p,
                bytes@.len() == p,
                forall|j: int|
                    0 <= j < p ==> #[trigger] pixels@[j] == lums_of(rgb@, np as int)[j],
                forall|j: int| 0 <= j < p ==> #[trigger] bytes@[j] == lum_bytes(rgb@, np as int)[j],
                forall|j: int| 0 <= j < p ==> 0 <= #[trigger] pixels@[j] <= SCALE,
            decreases np - p,
        {
            let r8 = rgb[3 * p];
            let g8 = rgb[3 * p + 1];
            let b8 = rgb[3 * p + 2];
            let l = luminance(&table, r8, g8, b8);
            pixels.push(l);
            proof {
                lemma_mul_inequality(l as int, SCALE as int, 255);
                lemma_div_is_ordered((l as int) * 255, (SCALE as int) * 255, SCALE as int);
                lemma_div_multiples_vanish(255, SCALE as int);
                lemma_fundamental_div_mod((l as int) * 255, SCALE as int);
                lemma_mod_bound((l as int) * 255, SCALE as int);
                lemma_mul_nonnegative(l as int, 255);
            }
            let by = (((l as u64) * 255) / (SCALE as u64)) as u8;
            bytes.push(by);
            p += 1;
        }
        proof {
            assert(bytes@ =~= lum_bytes(rgb@, np as int));
        }
        let bins = bin_lum(bytes);
        proof {
            assert forall|i: int| 0 <= i < 256 implies #[trigger] bins@[i] >= 1 by {
                lemma_count_le(lum_bytes(rgb@, np as int), i as u8, np as int);
            }
        }
        let threshold = compute_threshold(&bins);
        proof {
            assert(as_ints(pixels@) =~= lums_of(rgb@, np as int));
        }
        Ok(VecImg { w, h, pixels, threshold })
    }

    /// Scale every sample to an 8-bit gray value, `sample * 256 / SCALE`,
    /// saturated below at zero and above at 255, so the byte range can never
    /// be left.
    pub fn to_bytes(&self) -> (out: Vec<u8>)
        requires
            self.wf(),
            seq_in(self.model(), -(2 * (SCALE as int)), 2 * (SCALE as int)),
        ensures
            out@.len() == self.pixels@.len(),
            forall|k: int|
                0 <= k < out@.len() ==> #[trigger] out@[k] as int == byte256_of(self.model()[k]),
    {
        let mut out: Vec<u8> = Vec::new();
        let mut k: usize = 0;
        let len = self.pixels.len();
        while k < len
            invariant
                self.wf(),
                seq_in(self.model(), -(2 * (SCALE as int)), 2 * (SCALE as int)),
                len == self.pixels@.len(),
                k <= len,
                out@.len() == k,
                forall|j: int|
                    0 <= j < k ==> #[trigger] out@[j] as int == byte256_of(self.model()[j]),
            decreases len - k,
        {
            let v = self.pixels[k];
            proof {
                assert(self.model()[k as int] == v as int);
            }
            let b: u8 = if v < 0 {
                0
            } else {
                proof {
                    lemma_fundamental_div_mod((v as int) * 256, SCALE as int);
                    lemma_mod_bound((v as int) * 256, SCALE as int);
                    lemma_mul_nonnegative(v as int, 256);
                }
                let t = ((v as u64) * 256) / (SCALE as u64);
                if t > 255 {
                    255
                } else {
                    t as u8
                }
            };
            out.push(b);
            k += 1;
        }
        out
    }
}

/// An 8-bit gray value from a fixed-point sample: `sample * 256 / SCALE`,
/// saturated to the byte range.
pub open spec fn byte256_of(v: int) -> int {
    if v < 0 {
        0
    } else if (v * 256) / (SCALE as int) > 255 {
        255
    } else {
        (v * 256) / (SCALE as int)
    }
}

/// Histogram of the 8-bit intensities of a buffer, each of the 256 buckets
/// seeded with a count of one so no bucket is ever empty.
pub fn bin_lum(pixels: Vec<u8>) -> (res: Vec<u32>)
    requires
        pixels@.len() < 0xffff_ff00,
    ensures
        res@.len() == 256,
        forall|i: int|
            0 <= i < 256 ==> #[trigger] res@[i] == 1 + count_pref(
                pixels@,
                i as u8,
                pixels@.len() as int,
            ),
        ints_of(res@) == smooth_hist(pixels@),
{
    let mut res: Vec<u32> = Vec::new();
    let mut i: usize = 0;
    while i < 256
        invariant
            i <= 256,
            res@.len() == i,
            forall|j: int| 0 <= j < i ==> #[trigger] res@[j] == 1,
        decreases 256 - i,
    {
        res.push(1);
        i += 1;
    }
    let mut k: usize = 0;
    while k < pixels.len()
        invariant
            res@.len() == 256,
            k <= pixels@.len(),
            pixels@.len() < 0xffff_ff00,
            forall|j: int|
                0 <= j < 256 ==> #[trigger] res@[j] == 1 + count_pref(pixels@, j as u8, k as int),
        decreases pixels@.len() - k,
    {
        let p = pixels[k] as usize;
        proof {
            lemma_count_le(pixels@, pixels@[k as int], k as int);
        }
        res[p] = res[p] + 1;
        k += 1;
    }
    proof {
        assert forall|j: int| 0 <= j < 256 implies #[trigger] smooth_hist(pixels@)[j] == ints_of(
            res@,
        )[j] by {
            lemma_count_le(pixels@, j as u8, pixels@.len() as int);
        }
        assert(ints_of(res@) =~= smooth_hist(pixels@));
    }
    res
}

/// Every prefix sum of ratios is non-negative and bounded by `k * 255 *
/// SCALE` when all counts are at least one.
pub proof fn lemma_sum_ratio_bounds(bins: Seq<int>, k: int)
    requires
        0 <= k <= bins.len(),
        k <= 256,
        forall|i: int| 0 <= i < bins.len() ==> #[trigger] bins[i] >= 1,
    ensures
        0 <= sum_ratio(bins, k) <= k * 255 * (SCALE as int),
        2 * sum_ratio(bins, k) <= k * (k - 1) * (SCALE as int),
    decreases k,
{
    if k > 0 {
        lemma_sum_ratio_bounds(bins, k - 1);
        let b = bins[k - 1];
        let num = (k - 1) * (SCALE as int);
        lemma_mul_nonnegative(k - 1, SCALE as int);
        lemma_mul_inequality(k - 1, 255, SCALE as int);
        lemma_fundamental_div_mod(num, b);
        lemma_mod_bound(num, b);
        assert(0 <= num / b <= 255 * (SCALE as int) && num / b <= (k - 1) * (SCALE as int))
            by (nonlinear_arith)
            requires
                num == b * (num / b) + num % b,
                0 <= num % b < b,
                0 <= num <= 255 * (SCALE as int),
                num == (k - 1) * (SCALE as int),
                b >= 1,
        ;
        assert((k - 1) * 255 * (SCALE as int) + 255 * (SCALE as int) == k * 255 * (SCALE as int))
            by (nonlinear_arith);
        assert((k - 1) * (k - 2) * (SCALE as int) + 2 * ((k - 1) * (SCALE as int)) == k * (k - 1)
            * (SCALE as int)) by (nonlinear_arith);
    }
}

/// Prefix sums of counts grow by at least one per bucket.
pub proof fn lemma_sum_count_bounds(bins: Seq<int>, k: int)
    requires
        0 <= k <= bins.len(),
        forall|i: int| 0 <= i < bins.len() ==> #[trigger] bins[i] >= 1,
    ensures
        sum_count(bins, k) >= k,
    decreases k,
{
    if k > 0 {
        lemma_sum_count_bounds(bins, k - 1);
    }
}

/// Threshold range: whenever the total count of the histogram reaches the
/// sum of all bucket indices (32640, which the seeded histogram of a buffer
/// of at least 32384 samples always does), the threshold lies between full
/// black and full white.
pub proof fn lemma_threshold_range(bins: Seq<int>)
    requires
        bins.len() == 256,
        forall|i: int| 0 <= i < bins.len() ==> #[trigger] bins[i] >= 1,
        sum_count(bins, 256) >= 32640,
    ensures
        0 <= threshold_of(bins) <= SCALE as int,
{
    let t = sum_ratio(bins, 256);
    let total = sum_count(bins, 256);
    lemma_sum_ratio_bounds(bins, 256);
    assert(t <= 32640 * (SCALE as int));
    lemma_mul_inequality(32640, total, SCALE as int);
    lemma_div_is_ordered(t, total * (SCALE as int), total);
    lemma_div_multiples_vanish(SCALE as int, total);
    assert((total * (SCALE as int)) / total == SCALE as int);
    lemma_div_is_ordered(0, t, total);
    lemma_div_of0(total);
}

/// Compute the histogram threshold of a seeded 256-bucket histogram,
/// as the truncated fixed-point sum
/// of `index / count`, divided by the total count.
pub fn compute_threshold(bins: &Vec<u32>) -> (thr: i64)
    requires
        bins@.len() == 256,
        forall|i: int| 0 <= i < 256 ==> #[trigger] bins@[i] >= 1,
    ensures
        thr == threshold_of(ints_of(bins@)),
        thr >= 0,
        sum_count(ints_of(bins@), 256) >= 32640 ==> thr <= SCALE,
{
    let ghost ib = ints_of(bins@);
    let mut t: u64 = 0;
    let mut total: u64 = 0;
    let mut i: usize = 0;
    proof {
        assert forall|j: int| 0 <= j < ib.len() implies #[trigger] ib[j] >= 1 by {}
    }
    while i < 256
        invariant
            i <= 256,
            bins@.len() == 256,
            ib == ints_of(bins@),
            forall|j: int| 0 <= j < ib.len() ==> #[trigger] ib[j] >= 1,
            forall|j: int| 0 <= j < 256 ==> #[trigger] bins@[j] >= 1,
            t == sum_ratio(ib, i as int),
            total == sum_count(ib, i as int),
            total <= i * 0x1_0000_0000,
        decreases 256 - i,
    {
        proof {
            lemma_sum_ratio_bounds(ib, i as int);
            lemma_sum_ratio_bounds(ib, i as int + 1);
            assert(total + bins@[i as int] <= (i + 1) * 0x1_0000_0000) by (nonlinear_arith)
                requires
                    total <= i * 0x1_0000_0000,
                    bins@[i as int] < 0x1_0000_0000,
            ;
        }
        let term = ((i as u64) * (SCALE as u64)) / (bins[i] as u64);
        proof {
            assert(term == ((i as int) * (SCALE as int)) / (ib[i as int]));
        }
        t = t + term;
        total = total + bins[i] as u64;
        i += 1;
    }
    proof {
        lemma_sum_count_bounds(ib, 256);
        lemma_sum_ratio_bounds(ib, 256);
        lemma_div_is_ordered(0, t as int, total as int);
        lemma_div_of0(total as int);
        lemma_fundamental_div_mod(t as int, total as int);
        lemma_mod_bound(t as int, total as int);
        assert((t as int) / (total as int) <= t as int) by (nonlinear_arith)
            requires
                t >= 0,
                total >= 1,
                (t as int) / (total as int) >= 0,
                (t as int) == (total as int) * ((t as int) / (total as int)) + (t as int) % (
                total as int),
                0 <= (t as int) % (total as int),
        ;
        if sum_count(ib, 256) >= 32640 {
            lemma_threshold_range(ib);
        }
    }
    let thr = t / total;
    thr as i64
}

} // verus!
