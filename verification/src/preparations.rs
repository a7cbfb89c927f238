//! Preparing pictures of sixteen bits: their mean brightness, and their
//! reduction to eight bits.

use vstd::prelude::*;

verus! {

/// The sum of the first `n` samples.
pub open spec fn sum_upto(samples: Seq<u16>, n: int) -> int
    decreases n,
{
    if n <= 0 {
        0
    } else {
        sum_upto(samples, n - 1) + samples[n - 1]
    }
}

/// The mean of the samples, rounded down.
pub open spec fn mean(samples: Seq<u16>) -> int {
    sum_upto(samples, samples.len() as int) / (samples.len() as int)
}

proof fn sum_bounded(samples: Seq<u16>, n: int)
    requires
        0 <= n <= samples.len(),
    ensures
        0 <= sum_upto(samples, n) <= 65535 * n,
    decreases n,
{
    if n > 0 {
        sum_bounded(samples, n - 1);
    }
}

/// The mean brightness of a picture of sixteen bits that is not empty:
/// the sum of its samples over their number, rounded down.
pub fn mean_brightness(samples: &Vec<u16>) -> (m: u64)
    requires
        samples@.len() > 0,
    ensures
        m == mean(samples@),
{
    let mut total: u128 = 0;
    let mut i: usize = 0;
    while i < samples.len()
        invariant
            i <= samples@.len(),
            total == sum_upto(samples@, i as int),
            total <= 65535 * i,
        decreases samples@.len() - i,
    {
        total = total + samples[i] as u128;
        i = i + 1;
    }
    let count: u128 = samples.len() as u128;
    proof {
        let t = total as int;
        let n = count as int;
        assert(0 <= t / n <= 65535) by (nonlinear_arith)
            requires
                0 <= t <= 65535 * n,
                n > 0,
        ;
    }
    (total / count) as u64
}

/// The high byte of a sample of sixteen bits.
pub open spec fn high_byte(v: u16) -> u8 {
    (v / 256) as u8
}

fn reduce(v: u16) -> (r: u8)
    ensures
        r == high_byte(v),
{
    assert(v >> 8 == v / 256) by (bit_vector);
    (v >> 8) as u8
}

/// A grey picture of sixteen bits reduced to eight: every sample gives
/// its high byte.
pub fn luma16_to8(samples: &Vec<u16>) -> (out: Vec<u8>)
    ensures
        out@.len() == samples@.len(),
        forall|i: int| 0 <= i < samples@.len() ==> #[trigger] out@[i] == high_byte(samples@[i]),
{
    let mut out: Vec<u8> = Vec::new();
    let mut i: usize = 0;
    while i < samples.len()
        invariant
            i <= samples@.len(),
            out@.len() == i,
            forall|j: int| 0 <= j < i ==> #[trigger] out@[j] == high_byte(samples@[j]),
        decreases samples@.len() - i,
    {
        out.push(reduce(samples[i]));
        i = i + 1;
    }
    out
}

/// A colour picture of sixteen bits reduced to eight: every sample of
/// every channel gives its high byte.
pub fn rgb16_to8(samples: &Vec<u16>) -> (out: Vec<u8>)
    ensures
        out@.len() == samples@.len(),
        forall|i: int| 0 <= i < samples@.len() ==> #[trigger] out@[i] == high_byte(samples@[i]),
{
    luma16_to8(samples)
}

} // verus!
