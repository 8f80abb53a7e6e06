use vstd::arithmetic::mul::lemma_mul_upper_bound;
use vstd::prelude::*;

verus! {

pub open spec fn is_floor_sqrt(n: nat, r: nat) -> bool {
    r * r <= n < (r + 1) * (r + 1)
}

/// The integer square root, rounded down.
pub open spec fn floor_sqrt(n: nat) -> nat {
    choose|r: nat| is_floor_sqrt(n, r)
}

pub proof fn lemma_floor_sqrt_unique(n: nat, r1: nat, r2: nat)
    requires
        is_floor_sqrt(n, r1),
        is_floor_sqrt(n, r2),
    ensures
        r1 == r2,
{
    if r1 < r2 {
        assert((r1 + 1) * (r1 + 1) <= r2 * r2) by (nonlinear_arith)
            requires
                r1 + 1 <= r2,
        ;
    } else if r2 < r1 {
        assert((r2 + 1) * (r2 + 1) <= r1 * r1) by (nonlinear_arith)
            requires
                r2 + 1 <= r1,
        ;
    }
}

/// Integer square root by bisection.
pub fn isqrt(n: u128) -> (r: u64)
    ensures
        r == floor_sqrt(n as nat),
        is_floor_sqrt(n as nat, r as nat),
{
    let mut lo: u128 = 0;
    let mut hi: u128 = 0x1_0000_0000_0000_0000;
    assert(n < hi * hi);
    while hi - lo > 1
        invariant
            lo < hi <= 0x1_0000_0000_0000_0000,
            lo * lo <= n,
            n < hi * hi,
        decreases hi - lo,
    {
        let mid = lo + (hi - lo) / 2;
        proof {
            lemma_mul_upper_bound(
                mid as int,
                0xffff_ffff_ffff_ffff,
                mid as int,
                0xffff_ffff_ffff_ffff,
            );
        }
        if mid * mid <= n {
            lo = mid;
        } else {
            hi = mid;
        }
    }
    proof {
        assert(is_floor_sqrt(n as nat, lo as nat));
        let c = floor_sqrt(n as nat);
        lemma_floor_sqrt_unique(n as nat, c, lo as nat);
    }
    lo as u64
}

} // verus!
