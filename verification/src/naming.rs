//! Output file naming.
//!
//! The derived name is `dithered/<filename>_<kernel>_<t.tt>.png`, with the
//! threshold printed to two decimal places. Names are byte strings here, so
//! the whole derivation is plain integer and sequence logic; the I/O layer
//! turns them into platform paths.

use vstd::prelude::*;
use vstd::arithmetic::div_mod::{lemma_div_is_ordered, lemma_mod_bound};
use crate::SCALE;

verus! {

/// The bytes of `"dithered/"`.
pub open spec fn path_prefix() -> Seq<u8> {
    seq![100u8, 105, 116, 104, 101, 114, 101, 100, 47]
}

/// The bytes of `".png"`.
pub open spec fn png_suffix() -> Seq<u8> {
    seq![46u8, 112, 110, 103]
}

/// The threshold in hundredths of full white, rounded to nearest.
pub open spec fn centis_of(thr: int) -> int {
    (thr * 100 + (SCALE as int) / 2) / (SCALE as int)
}

/// The threshold printed to two decimals: `0.tt`, or `1.00` at full white.
pub open spec fn dec_repr(thr: int) -> Seq<u8> {
    let c = centis_of(thr);
    if c >= 100 {
        seq![49u8, 46, 48, 48]
    } else {
        seq![48u8, 46, (48 + c / 10) as u8, (48 + c % 10) as u8]
    }
}

/// The output name derived from a source file name, a kernel name and a
/// threshold.
pub open spec fn path_spec(filename: Seq<u8>, kernel: Seq<u8>, thr: int) -> Seq<u8> {
    path_prefix() + filename + seq![95u8] + kernel + seq![95u8] + dec_repr(thr) + png_suffix()
}

/// Append every byte of a slice.
fn push_all(out: &mut Vec<u8>, s: &[u8])
    ensures
        final(out)@ == old(out)@ + s@,
{
    let ghost base = out@;
    let mut i: usize = 0;
    while i < s.len()
        invariant
            i <= s@.len(),
            out@ == base + s@.take(i as int),
        decreases s@.len() - i,
    {
        let b = s[i];
        out.push(b);
        i += 1;
        proof {
            assert(out@ =~= base + s@.take(i as int));
        }
    }
    proof {
        assert(base + s@.take(s@.len() as int) =~= base + s@);
    }
}

/// Derive the output path `dithered/<filename>_<kernel>_<t.tt>.png` for one
/// (image, kernel) pairing.
pub fn output_path(filename: &[u8], kernel: &[u8], threshold: i64) -> (out: Vec<u8>)
    requires
        0 <= threshold <= SCALE,
    ensures
        out@ == path_spec(filename@, kernel@, threshold as int),
{
    let mut out: Vec<u8> = Vec::new();
    let prefix: Vec<u8> = vec![100, 105, 116, 104, 101, 114, 101, 100, 47];
    push_all(&mut out, prefix.as_slice());
    push_all(&mut out, filename);
    out.push(95);
    push_all(&mut out, kernel);
    out.push(95);
    let num = (threshold as u64) * 100 + (SCALE as u64) / 2;
    let c = num / (SCALE as u64);
    proof {
        lemma_div_is_ordered(num as int, 100 * (SCALE as int) + (SCALE as int) / 2, SCALE as int);
        assert((100 * (SCALE as int) + (SCALE as int) / 2) / (SCALE as int) == 100);
        assert(c == centis_of(threshold as int));
    }
    if c >= 100 {
        out.push(49);
        out.push(46);
        out.push(48);
        out.push(48);
    } else {
        proof {
            lemma_div_is_ordered(c as int, 99, 10);
            lemma_mod_bound(c as int, 10);
        }
        out.push(48);
        out.push(46);
        out.push(48 + (c / 10) as u8);
        out.push(48 + (c % 10) as u8);
    }
    out.push(46);
    out.push(112);
    out.push(110);
    out.push(103);
    proof {
        assert(prefix@ =~= path_prefix());
        assert(out@ =~= path_spec(filename@, kernel@, threshold as int));
    }
    out
}

} // verus!
