use dither::algs::{atkinson, floydsteinberg, jjn, stucki, Filter};
use dither::naming::output_path;
use dither::vecimg::{bin_lum, compute_threshold, DitherError, VecImg};
use dither::SCALE;

fn weight_sum(f: &Filter) -> u64 {
    f.matrix.iter().sum()
}

#[test]
fn conservation_floydsteinberg() {
    let f = floydsteinberg();
    assert_eq!(f.div, 16);
    assert_eq!(f.size, 3);
    assert_eq!(weight_sum(&f), 16);
}

#[test]
fn conservation_jjn() {
    let f = jjn();
    assert_eq!(f.div, 48);
    assert_eq!(weight_sum(&f), 48);
}

#[test]
fn conservation_stucki() {
    let f = stucki();
    assert_eq!(f.div, 42);
    assert_eq!(weight_sum(&f), 42);
}

#[test]
fn atkinson_spreads_three_quarters() {
    let f = atkinson();
    assert_eq!(f.div, 8);
    assert_eq!(f.size, 5);
    assert_eq!(weight_sum(&f), 6);
}

#[test]
fn kernel_names() {
    assert_eq!(floydsteinberg().name, "floydsteinberg");
    assert_eq!(atkinson().name, "atkinson");
    assert_eq!(jjn().name, "jjn");
    assert_eq!(stucki().name, "stucki");
}

fn uniform(w: usize, h: usize, sample: i64, threshold: i64) -> VecImg {
    VecImg { w, h, pixels: vec![sample; w * h], threshold }
}

#[test]
fn binary_interior_after_pass() {
    // After a pass, every interior pixel ends exactly black or white.
    let f = stucki();
    let mut img = uniform(12, 9, 19661, 32768);
    img.apply_kernel(&f).unwrap();
    for x in 2..10 {
        for y in 2..7 {
            let p = img.get(x, y);
            assert!(p == 0 || p == SCALE, "pixel ({x},{y}) = {p}");
        }
    }
}

#[test]
fn left_border_band_untouched() {
    // The left border band is untouched: no kernel weight can reach it.
    let f = stucki();
    let mut img = uniform(12, 9, 19661, 32768);
    img.apply_kernel(&f).unwrap();
    for x in 0..2 {
        for y in 0..9 {
            assert_eq!(img.get(x, y), 19661);
        }
    }
}

#[test]
fn uniform_black_stays_black() {
    // A field at zero luminance quantizes to black with zero residual, so
    // the pass is the identity on it.
    let f = floydsteinberg();
    let mut img = uniform(10, 10, 0, 32768);
    img.apply_kernel(&f).unwrap();
    for x in 0..10 {
        for y in 0..10 {
            assert_eq!(img.get(x, y), 0);
        }
    }
}

#[test]
fn uniform_gray_mixed_outcome() {
    // A uniform field at 0.3 with threshold 0.5: each quantized pixel
    // leaves a positive residual of 0.3 that accumulates along the scan,
    // so some interior pixels tip over the threshold and end white. The
    // pass still makes every interior pixel binary and keeps the mean
    // brightness near the source.
    let f = floydsteinberg();
    let mut img = uniform(10, 10, 19661, 32768);
    img.apply_kernel(&f).unwrap();
    let mut whites = 0u32;
    for x in 1..9 {
        for y in 1..9 {
            let p = img.get(x, y);
            assert!(p == 0 || p == SCALE);
            if p == SCALE {
                whites += 1;
            }
        }
    }
    assert_eq!(whites, 18);
    // left border column keeps its pre-pass samples
    for y in 0..10 {
        assert_eq!(img.get(0, y), 19661);
    }
}

#[test]
fn too_small_image_fails() {
    // A 4x4 image cannot host a footprint-5 kernel.
    let f = atkinson();
    let mut img = uniform(4, 4, 19661, 32768);
    let r = img.apply_kernel(&f);
    assert_eq!(r, Err(DitherError::ImageTooSmall));
    assert_eq!(img.pixels, vec![19661; 16]);
}

#[test]
fn determinism_two_runs() {
    // Determinism: the same buffer and kernel give identical output buffers.
    let rgb: Vec<u8> = (0..12 * 8).flat_map(|i| [(i * 7 % 256) as u8, (i * 13 % 256) as u8, (i * 29 % 256) as u8]).collect();
    let f = jjn();
    let mut a = VecImg::from_rgb(12, 8, &rgb).unwrap();
    let mut b = VecImg::from_rgb(12, 8, &rgb).unwrap();
    assert_eq!(a.pixels, b.pixels);
    assert_eq!(a.threshold, b.threshold);
    a.threshold = a.threshold.min(SCALE);
    b.threshold = a.threshold;
    a.apply_kernel(&f).unwrap();
    b.apply_kernel(&f).unwrap();
    assert_eq!(a.pixels, b.pixels);
}

#[test]
fn zero_dimensions_rejected() {
    let rgb: Vec<u8> = vec![];
    assert!(matches!(VecImg::from_rgb(0, 5, &rgb), Err(DitherError::InvalidDimensions)));
    assert!(matches!(VecImg::from_rgb(5, 0, &rgb), Err(DitherError::InvalidDimensions)));
}

#[test]
fn wrong_buffer_length_rejected() {
    let rgb: Vec<u8> = vec![0; 10];
    assert!(matches!(VecImg::from_rgb(2, 2, &rgb), Err(DitherError::DecodeError)));
}

#[test]
fn luminance_extremes() {
    let rgb: Vec<u8> = vec![255, 255, 255, 0, 0, 0];
    let img = VecImg::from_rgb(2, 1, &rgb).unwrap();
    assert_eq!(img.pixels, vec![SCALE, 0]);
}

#[test]
fn luminance_mid_gray() {
    // srgb 128 linearizes to 14147/65536; the luminance weights sum to one,
    // so equal channels keep that value exactly.
    let rgb: Vec<u8> = vec![128, 128, 128];
    let img = VecImg::from_rgb(1, 1, &rgb).unwrap();
    assert_eq!(img.pixels, vec![14147]);
}

#[test]
fn histogram_seeded_counts() {
    let bins = bin_lum(vec![10, 10, 10, 20]);
    assert_eq!(bins.len(), 256);
    assert_eq!(bins[10], 4);
    assert_eq!(bins[20], 2);
    assert_eq!(bins[0], 1);
    assert_eq!(bins[255], 1);
}

#[test]
fn threshold_exact_small_buffer() {
    // The exact formula value on a tiny buffer; it is far above
    // full white, which is why the threshold range only holds of buffers
    // with enough samples.
    let bins = bin_lum(vec![10, 10, 10, 20]);
    assert_eq!(compute_threshold(&bins), 8222877);
}

#[test]
fn threshold_range_large_buffer() {
    // On a buffer with enough samples the threshold lands in [0, 1].
    let bins = bin_lum(vec![128; 40000]);
    let thr = compute_threshold(&bins);
    assert_eq!(thr, 52928);
    assert!(0 <= thr && thr <= SCALE);
}

#[test]
fn output_bytes_saturate() {
    let img = VecImg { w: 4, h: 1, pixels: vec![-500, 0, 32768, 65536], threshold: 0 };
    assert_eq!(img.to_bytes(), vec![0, 0, 128, 255]);
}

#[test]
fn round_trip_naming() {
    // Filename a/b.png, kernel stucki, threshold 0.42.
    let thr = (42 * SCALE + 50) / 100;
    let name = output_path(b"a/b.png", b"stucki", thr);
    assert_eq!(String::from_utf8(name).unwrap(), "dithered/a/b.png_stucki_0.42.png");
}

#[test]
fn naming_full_white() {
    let name = output_path(b"x.png", b"jjn", SCALE);
    assert_eq!(String::from_utf8(name).unwrap(), "dithered/x.png_jjn_1.00.png");
}

#[test]
fn get_set_roundtrip() {
    let mut img = uniform(3, 2, 5, 0);
    img.set(2, 1, 77);
    assert_eq!(img.get(2, 1), 77);
    assert_eq!(img.get(0, 0), 5);
    assert_eq!(img.pixels[5], 77);
}

#[test]
fn single_step_spreads_error() {
    // One pixel step at the center of a 3x3 field of 40000 with threshold
    // 32768: the center quantizes to white, leaving error -25536, and the
    // kernel spreads -7/16, -3/16, -5/16 and -1/16 of it (truncated toward
    // zero) to the cells after the center in scan order.
    let f = floydsteinberg();
    let mut img = uniform(3, 3, 40000, 32768);
    img.apply_filter(1, 1, &f);
    assert_eq!(img.get(1, 1), SCALE);
    assert_eq!(img.get(1, 2), 40000 - 11172);
    assert_eq!(img.get(2, 0), 40000 - 4788);
    assert_eq!(img.get(2, 1), 40000 - 7980);
    assert_eq!(img.get(2, 2), 40000 - 1596);
    assert_eq!(img.get(0, 0), 40000);
    assert_eq!(img.get(0, 1), 40000);
    assert_eq!(img.get(0, 2), 40000);
    assert_eq!(img.get(1, 0), 40000);
}

#[test]
fn quantize_splits_at_threshold() {
    let img = uniform(1, 1, 0, 32768);
    assert_eq!(img.quantize(32768), (0, 32768));
    assert_eq!(img.quantize(32769), (SCALE, 32769 - SCALE));
    assert_eq!(img.quantize(-100), (0, -100));
}
