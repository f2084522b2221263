//! The kernel catalog: named error-diffusion kernels.
//!
//! A kernel is a square grid of non-negative integer weights together with a
//! positive divisor; the effective weight of a cell is `weight / divisor`.
//! The grid is stored flat in row-major order: the cell in row `i`, column
//! `j` sits at index `i * size + j`. Row offsets follow the outer (x) scan
//! axis and column offsets the inner (y) axis, so a valid kernel carries
//! weight only on cells strictly after its center in scan order.

use vstd::prelude::*;

verus! {

/// An error-diffusion kernel: a `size` x `size` weight grid (flat, row-major)
/// and the divisor that normalizes the weights.
pub struct Filter {
    pub name: &'static str,
    pub matrix: Vec<u64>,
    pub div: u64,
    pub size: usize,
}

/// Sum of the first `c` weights of a flat kernel grid.
pub open spec fn sum_weights(m: Seq<u64>, c: nat) -> int
    decreases c,
{
    if c == 0 {
        0
    } else {
        sum_weights(m, (c - 1) as nat) + m[c - 1]
    }
}

impl Filter {
    /// Half-width of the kernel: the margin it needs around the current pixel.
    pub open spec fn half(self) -> int {
        self.size as int / 2
    }

    /// Weight of the flat cell `c`; cell `c` covers row `c / size`, column
    /// `c % size`.
    pub open spec fn wt(self, c: int) -> int {
        self.matrix@[c] as int
    }

    /// Well-formed kernel: square grid, positive bounded divisor, total
    /// weight at most the divisor, and weight only on cells strictly after
    /// the center in scan order (row below the center, or center row to the
    /// right of the center).
    pub open spec fn wf(self) -> bool {
        &&& 1 <= self.size <= 64
        &&& self.matrix@.len() == self.size * self.size
        &&& 1 <= self.div <= 1000000
        &&& sum_weights(self.matrix@, self.matrix@.len()) <= self.div
        &&& forall|c: int|
            0 <= c < self.matrix@.len() && #[trigger] self.wt(c) > 0 ==> (c / (self.size as int)
                > self.half() || (c / (self.size as int) == self.half() && c % (self.size as int)
                > self.half()))
    }

    /// The kernel conserves diffused error: its weights sum exactly to the
    /// divisor, so the effective weights sum to one.
    pub open spec fn conserves(self) -> bool {
        sum_weights(self.matrix@, self.matrix@.len()) == self.div
    }
}

/// Every single weight is bounded by the sum of all weights.
pub proof fn lemma_weight_le_sum(m: Seq<u64>, c: nat, k: int)
    requires
        0 <= k < c <= m.len(),
    ensures
        m[k] <= sum_weights(m, c),
    decreases c,
{
    if k == c - 1 {
        lemma_sum_weights_nonneg(m, (c - 1) as nat);
    } else {
        lemma_weight_le_sum(m, (c - 1) as nat, k);
    }
}

/// The sum of any prefix of weights is non-negative.
pub proof fn lemma_sum_weights_nonneg(m: Seq<u64>, c: nat)
    requires
        c <= m.len(),
    ensures
        sum_weights(m, c) >= 0,
    decreases c,
{
    if c > 0 {
        lemma_sum_weights_nonneg(m, (c - 1) as nat);
    }
}

/// The Floyd-Steinberg kernel: footprint 3, divisor 16.
pub fn floydsteinberg() -> (f: Filter)
    ensures
        f.wf(),
        f.conserves(),
        f.size == 3,
        f.div == 16,
        f.name@ == "floydsteinberg"@,
        f.matrix@ == seq![0u64, 0, 0, 0, 0, 7, 3, 5, 1],
{
    let m: Vec<u64> = vec![0, 0, 0, 0, 0, 7, 3, 5, 1];
    proof {
        reveal_with_fuel(sum_weights, 10);
        assert(sum_weights(m@, 9) == 16);
        assert(forall|c: int|
            0 <= c < 9 && #[trigger] m@[c] > 0 ==> (c / 3 > 1 || (c / 3 == 1 && c % 3 > 1)));
    }
    Filter { name: "floydsteinberg", matrix: m, div: 16, size: 3 }
}

/// The Atkinson kernel: footprint 5, divisor 8. Its weights sum to 6, so it
/// deliberately diffuses only three quarters of the error and does not
/// conserve it.
pub fn atkinson() -> (f: Filter)
    ensures
        f.wf(),
        f.size == 5,
        f.div == 8,
        f.name@ == "atkinson"@,
        f.matrix@ == seq![
            0u64, 0, 0, 0, 0,
            0, 0, 0, 0, 0,
            0, 0, 0, 1, 1,
            0, 1, 1, 1, 0,
            0, 0, 1, 0, 0,
        ],
        sum_weights(f.matrix@, f.matrix@.len()) == 6,
{
    let m: Vec<u64> = vec![
        0, 0, 0, 0, 0,
        0, 0, 0, 0, 0,
        0, 0, 0, 1, 1,
        0, 1, 1, 1, 0,
        0, 0, 1, 0, 0,
    ];
    proof {
        reveal_with_fuel(sum_weights, 26);
        assert(sum_weights(m@, 25) == 6);
        assert(forall|c: int|
            0 <= c < 25 && #[trigger] m@[c] > 0 ==> (c / 5 > 2 || (c / 5 == 2 && c % 5 > 2)));
    }
    Filter { name: "atkinson", matrix: m, div: 8, size: 5 }
}

/// The Jarvis-Judice-Ninke kernel: footprint 5, divisor 48.
pub fn jjn() -> (f: Filter)
    ensures
        f.wf(),
        f.conserves(),
        f.size == 5,
        f.div == 48,
        f.name@ == "jjn"@,
        f.matrix@ == seq![
            0u64, 0, 0, 0, 0,
            0, 0, 0, 0, 0,
            0, 0, 0, 7, 5,
            3, 5, 7, 5, 3,
            1, 3, 5, 3, 1,
        ],
{
    let m: Vec<u64> = vec![
        0, 0, 0, 0, 0,
        0, 0, 0, 0, 0,
        0, 0, 0, 7, 5,
        3, 5, 7, 5, 3,
        1, 3, 5, 3, 1,
    ];
    proof {
        reveal_with_fuel(sum_weights, 26);
        assert(sum_weights(m@, 25) == 48);
        assert(forall|c: int|
            0 <= c < 25 && #[trigger] m@[c] > 0 ==> (c / 5 > 2 || (c / 5 == 2 && c % 5 > 2)));
    }
    Filter { name: "jjn", matrix: m, div: 48, size: 5 }
}

/// The Stucki kernel: footprint 5, divisor 42.
pub fn stucki() -> (f: Filter)
    ensures
        f.wf(),
        f.conserves(),
        f.size == 5,
        f.div == 42,
        f.name@ == "stucki"@,
        f.matrix@ == seq![
            0u64, 0, 0, 0, 0,
            0, 0, 0, 0, 0,
            0, 0, 0, 8, 4,
            2, 4, 8, 4, 2,
            1, 2, 4, 2, 1,
        ],
{
    let m: Vec<u64> = vec![
        0, 0, 0, 0, 0,
        0, 0, 0, 0, 0,
        0, 0, 0, 8, 4,
        2, 4, 8, 4, 2,
        1, 2, 4, 2, 1,
    ];
    proof {
        reveal_with_fuel(sum_weights, 26);
        assert(sum_weights(m@, 25) == 42);
        assert(forall|c: int|
            0 <= c < 25 && #[trigger] m@[c] > 0 ==> (c / 5 > 2 || (c / 5 == 2 && c % 5 > 2)));
    }
    Filter { name: "stucki", matrix: m, div: 42, size: 5 }
}

} // verus!
