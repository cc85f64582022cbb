//! Price paths and their structural invariants.
//!
//! A `Path` is an ordered sequence of binary64 bit patterns: the price at
//! day 0 followed by one simulated price per day.  The invariant every
//! path keeps — it is never empty, and its first element is the exact
//! initial price it was started from — is what the path generators owe
//! regardless of the arithmetic that produced the later prices.
use vstd::prelude::*;

use crate::fbits;

verus! {

/// One simulated price path: day-indexed binary64 bit patterns.
pub struct Path {
    prices: Vec<u64>,
}

impl View for Path {
    type V = Seq<u64>;

    closed spec fn view(&self) -> Seq<u64> {
        self.prices@
    }
}

impl Path {
    /// A path always holds at least its initial price.
    pub open spec fn wf(self) -> bool {
        self@.len() >= 1
    }

    /// Starts a path at its initial price: a length-1 path, which is the
    /// whole result when the horizon is zero days.
    pub fn new(initial_price: u64) -> (p: Path)
        ensures
            p.wf(),
            p@.len() == 1,
            p@[0] == initial_price,
    {
        Path { prices: vec![initial_price] }
    }

    /// Appends the price of the next day.
    pub fn push_price(&mut self, price: u64)
        ensures
            final(self)@ == old(self)@.push(price),
    {
        self.prices.push(price);
    }

    /// The number of stored prices: one more than the simulated days.
    pub fn len(&self) -> (n: usize)
        ensures
            n == self@.len(),
    {
        self.prices.len()
    }

    /// The price at day `i`.
    pub fn price_at(&self, i: usize) -> (r: u64)
        requires
            i < self@.len(),
        ensures
            r == self@[i as int],
    {
        self.prices[i]
    }

    /// The terminal price: the last element, fed to the risk statistics.
    pub fn terminal(&self) -> (r: u64)
        requires
            self.wf(),
        ensures
            r == self@.last(),
    {
        self.prices[self.prices.len() - 1]
    }

    /// The stored prices, for callers that consume the raw patterns.
    pub fn prices(&self) -> (r: &Vec<u64>)
        ensures
            r@ == self@,
    {
        &self.prices
    }
}

impl Clone for Path {
    /// A clone holds exactly the same prices.
    fn clone(&self) -> (r: Self)
        ensures
            r@ == self@,
    {
        Path { prices: copy_bits(&self.prices) }
    }
}

/// Copies a vector of bit patterns element by element.
pub fn copy_bits(src: &Vec<u64>) -> (r: Vec<u64>)
    ensures
        r@ == src@,
{
    let mut out: Vec<u64> = Vec::new();
    let mut i: usize = 0;
    while i < src.len()
        invariant
            i <= src@.len(),
            out@ == src@.subrange(0, i as int),
        decreases src@.len() - i,
    {
        out.push(src[i]);
        i = i + 1;
        proof {
            assert(out@ =~= src@.subrange(0, i as int));
        }
    }
    proof {
        assert(out@ =~= src@);
    }
    out
}

/// Interleaves antithetic pairs into the batch order the engine returns:
/// pair `k` contributes the paths at positions `2k` and `2k + 1`.
pub fn interleave_pairs(pairs: Vec<(Path, Path)>) -> (r: Vec<Path>)
    ensures
        r@.len() == 2 * pairs@.len(),
        forall|k: int|
            0 <= k < pairs@.len() ==> r@[2 * k]@ == pairs@[k].0@ && r@[2 * k + 1]@
                == pairs@[k].1@,
{
    let mut out: Vec<Path> = Vec::new();
    let mut i: usize = 0;
    while i < pairs.len()
        invariant
            i <= pairs@.len(),
            out@.len() == 2 * i,
            forall|k: int|
                0 <= k < i ==> out@[2 * k]@ == pairs@[k].0@ && out@[2 * k + 1]@
                    == pairs@[k].1@,
        decreases pairs@.len() - i,
    {
        let a = pairs[i].0.clone();
        let b = pairs[i].1.clone();
        out.push(a);
        out.push(b);
        i = i + 1;
    }
    out
}

/// Extracts the terminal price of every path: the sample the risk
/// statistics are computed over.
pub fn terminal_prices(paths: &Vec<Path>) -> (r: Vec<u64>)
    requires
        forall|i: int| 0 <= i < paths@.len() ==> (#[trigger] paths@[i]).wf(),
    ensures
        r@.len() == paths@.len(),
        forall|i: int| 0 <= i < paths@.len() ==> r@[i] == (#[trigger] paths@[i])@.last(),
{
    let mut out: Vec<u64> = Vec::new();
    let mut i: usize = 0;
    while i < paths.len()
        invariant
            i <= paths@.len(),
            out@.len() == i,
            forall|j: int| 0 <= j < paths@.len() ==> (#[trigger] paths@[j]).wf(),
            forall|j: int| 0 <= j < i ==> out@[j] == (#[trigger] paths@[j])@.last(),
        decreases paths@.len() - i,
    {
        out.push(paths[i].terminal());
        i = i + 1;
    }
    out
}

/// Every price of `p` is strictly positive, in the binary64 sense.
pub open spec fn all_prices_positive(p: Path) -> bool {
    forall|i: int| 0 <= i < p@.len() ==> fbits::is_gt_zero(#[trigger] p@[i])
}

impl Path {
    /// Checks that every stored price is strictly positive, as every
    /// multiplicative step from a positive initial price keeps it.
    pub fn all_positive(&self) -> (r: bool)
        ensures
            r == all_prices_positive(*self),
    {
        let mut i: usize = 0;
        while i < self.prices.len()
            invariant
                i <= self@.len(),
                forall|j: int| 0 <= j < i ==> fbits::is_gt_zero(#[trigger] self@[j]),
            decreases self@.len() - i,
        {
            if !fbits::f64_bits_gt_zero(self.prices[i]) {
                return false;
            }
            i = i + 1;
        }
        true
    }
}

} // verus!
