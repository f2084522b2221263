//! Fixed-point sRGB linearization and relative luminance.
//!
//! The inverse sRGB transfer function (`c / 12.92` for `c <= 0.04045`, else
//! `((c + 0.055) / 1.055) ^ 2.4`, with `c` the channel value over 255) is
//! sampled at the 256 8-bit code points, scaled by `SCALE` and rounded to
//! nearest, giving a pure integer table. The BT.709 relative-luminance
//! weights 0.2126, 0.7152 and 0.0722 combine the linearized channels.

use vstd::prelude::*;
use vstd::arithmetic::div_mod::{
    lemma_fundamental_div_mod, lemma_div_is_ordered, lemma_div_multiples_vanish, lemma_mod_bound,
};
use vstd::arithmetic::mul::lemma_mul_inequality;
use crate::SCALE;

verus! {

/// The linear-light value of each 8-bit sRGB code point, in fixed point.
pub open spec fn srgb_table() -> Seq<u64> {
    seq![
        0u64, 20, 40, 60, 80, 99, 119, 139,
        159, 179, 199, 219, 241, 264, 288, 313,
        340, 367, 396, 427, 458, 491, 526, 562,
        599, 637, 677, 718, 761, 805, 851, 898,
        947, 997, 1048, 1101, 1156, 1212, 1270, 1330,
        1391, 1453, 1517, 1583, 1651, 1720, 1791, 1863,
        1937, 2013, 2090, 2170, 2250, 2333, 2418, 2504,
        2592, 2681, 2773, 2866, 2961, 3058, 3157, 3258,
        3360, 3464, 3570, 3678, 3788, 3900, 4014, 4129,
        4247, 4366, 4488, 4611, 4736, 4864, 4993, 5124,
        5257, 5392, 5530, 5669, 5810, 5953, 6099, 6246,
        6395, 6547, 6701, 6856, 7014, 7174, 7336, 7500,
        7666, 7834, 8004, 8177, 8352, 8529, 8708, 8889,
        9072, 9258, 9446, 9636, 9828, 10022, 10219, 10418,
        10619, 10822, 11028, 11236, 11446, 11658, 11873, 12090,
        12309, 12531, 12754, 12981, 13209, 13440, 13673, 13909,
        14147, 14387, 14629, 14874, 15122, 15372, 15624, 15878,
        16135, 16394, 16656, 16920, 17187, 17456, 17727, 18001,
        18278, 18556, 18838, 19121, 19408, 19696, 19988, 20281,
        20578, 20876, 21178, 21481, 21788, 22096, 22408, 22722,
        23038, 23357, 23679, 24003, 24329, 24659, 24991, 25325,
        25662, 26002, 26344, 26689, 27036, 27387, 27739, 28095,
        28453, 28813, 29177, 29543, 29911, 30283, 30657, 31033,
        31413, 31795, 32180, 32567, 32957, 33350, 33746, 34144,
        34545, 34949, 35355, 35765, 36177, 36591, 37009, 37429,
        37852, 38278, 38707, 39138, 39572, 40009, 40449, 40892,
        41337, 41786, 42237, 42691, 43147, 43607, 44069, 44534,
        45003, 45474, 45947, 46424, 46904, 47386, 47871, 48360,
        48851, 49345, 49842, 50342, 50844, 51350, 51859, 52370,
        52884, 53402, 53922, 54445, 54972, 55501, 56033, 56568,
        57106, 57647, 58191, 58738, 59288, 59841, 60397, 60956,
        61518, 62083, 62651, 63222, 63796, 64373, 64953, 65536,
    ]
}

/// Fixed-point linear luminance of one pixel from its 8-bit sRGB channels.
pub open spec fn lum_of(r: u8, g: u8, b: u8) -> int {
    (2126 * srgb_table()[r as int] + 7152 * srgb_table()[g as int] + 722 * srgb_table()[
        b as int
    ]) / 10000
}

/// The linearization table holds 256 entries, none above full white.
pub proof fn lemma_srgb_table_bounds()
    ensures
        srgb_table().len() == 256,
        forall|i: int| 0 <= i < 256 ==> #[trigger] srgb_table()[i] <= SCALE as u64,
{
}

/// The linearization table as an executable vector.
pub fn srgb_linear_table() -> (t: Vec<u64>)
    ensures
        t@ == srgb_table(),
        t@.len() == 256,
{
    let t: Vec<u64> = vec![
        0, 20, 40, 60, 80, 99, 119, 139,
        159, 179, 199, 219, 241, 264, 288, 313,
        340, 367, 396, 427, 458, 491, 526, 562,
        599, 637, 677, 718, 761, 805, 851, 898,
        947, 997, 1048, 1101, 1156, 1212, 1270, 1330,
        1391, 1453, 1517, 1583, 1651, 1720, 1791, 1863,
        1937, 2013, 2090, 2170, 2250, 2333, 2418, 2504,
        2592, 2681, 2773, 2866, 2961, 3058, 3157, 3258,
        3360, 3464, 3570, 3678, 3788, 3900, 4014, 4129,
        4247, 4366, 4488, 4611, 4736, 4864, 4993, 5124,
        5257, 5392, 5530, 5669, 5810, 5953, 6099, 6246,
        6395, 6547, 6701, 6856, 7014, 7174, 7336, 7500,
        7666, 7834, 8004, 8177, 8352, 8529, 8708, 8889,
        9072, 9258, 9446, 9636, 9828, 10022, 10219, 10418,
        10619, 10822, 11028, 11236, 11446, 11658, 11873, 12090,
        12309, 12531, 12754, 12981, 13209, 13440, 13673, 13909,
        14147, 14387, 14629, 14874, 15122, 15372, 15624, 15878,
        16135, 16394, 16656, 16920, 17187, 17456, 17727, 18001,
        18278, 18556, 18838, 19121, 19408, 19696, 19988, 20281,
        20578, 20876, 21178, 21481, 21788, 22096, 22408, 22722,
        23038, 23357, 23679, 24003, 24329, 24659, 24991, 25325,
        25662, 26002, 26344, 26689, 27036, 27387, 27739, 28095,
        28453, 28813, 29177, 29543, 29911, 30283, 30657, 31033,
        31413, 31795, 32180, 32567, 32957, 33350, 33746, 34144,
        34545, 34949, 35355, 35765, 36177, 36591, 37009, 37429,
        37852, 38278, 38707, 39138, 39572, 40009, 40449, 40892,
        41337, 41786, 42237, 42691, 43147, 43607, 44069, 44534,
        45003, 45474, 45947, 46424, 46904, 47386, 47871, 48360,
        48851, 49345, 49842, 50342, 50844, 51350, 51859, 52370,
        52884, 53402, 53922, 54445, 54972, 55501, 56033, 56568,
        57106, 57647, 58191, 58738, 59288, 59841, 60397, 60956,
        61518, 62083, 62651, 63222, 63796, 64373, 64953, 65536,
    ];
    proof {
        assert(t@ =~= srgb_table());
    }
    t
}

/// Fixed-point luminance of one pixel: linearize each channel through the
/// table and combine with the BT.709 weights.
pub fn luminance(table: &Vec<u64>, r: u8, g: u8, b: u8) -> (l: i64)
    requires
        table@ == srgb_table(),
    ensures
        l == lum_of(r, g, b),
        0 <= l <= SCALE,
{
    proof {
        lemma_srgb_table_bounds();
    }
    let lr = table[r as usize];
    let lg = table[g as usize];
    let lb = table[b as usize];
    let num = 2126 * lr + 7152 * lg + 722 * lb;
    let l = num / 10000;
    proof {
        lemma_mul_inequality(num as int, 10000 * (SCALE as int), 1);
        lemma_div_is_ordered(num as int, 10000 * (SCALE as int), 10000);
        lemma_div_multiples_vanish(SCALE as int, 10000);
        lemma_fundamental_div_mod(num as int, 10000);
        lemma_mod_bound(num as int, 10000);
        assert(l >= 0);
    }
    l as i64
}

} // verus!
