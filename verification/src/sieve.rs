//! The prime that sizes the primary index: the largest prime not above a
//! limit, or 2 when the limit is very small.

use vstd::prelude::*;

verus! {

pub open spec fn divides(d: int, n: int) -> bool {
    n % d == 0
}

pub open spec fn is_prime(n: int) -> bool {
    n >= 2 && forall|d: int| 2 <= d < n ==> !#[trigger] divides(d, n)
}

/// The largest prime not above `n`, or 2 when `n < 3`.
pub open spec fn greatest_prime_le(n: int) -> int
    decreases n,
{
    if n < 3 {
        2
    } else if is_prime(n) {
        n
    } else {
        greatest_prime_le(n - 1)
    }
}

fn check_prime(n: u32) -> (r: bool)
    requires
        n >= 2,
    ensures
        r == is_prime(n as int),
{
    let mut d: u32 = 2;
    while d < n
        invariant
            2 <= d <= n,
            forall|e: int| 2 <= e < d ==> !#[trigger] divides(e, n as int),
        decreases n - d,
    {
        if n % d == 0 {
            proof {
                assert(divides(d as int, n as int));
            }
            return false;
        }
        d += 1;
    }
    true
}

/// The largest prime not above `limit`; 2 when `limit < 3`.
pub fn get_le_prime(limit: u32) -> (r: u32)
    ensures
        r as int == greatest_prime_le(limit as int),
        is_prime(r as int),
        r >= 2,
        limit >= 2 ==> r <= limit,
{
    proof {
        assert(is_prime(2)) by {
            assert forall|d: int| 2 <= d < 2 implies !divides(d, 2) by {}
        }
        assert(is_prime(3)) by {
            assert forall|d: int| 2 <= d < 3 implies !divides(d, 3) by {
                assert(3int % 2 == 1);
            }
        }
    }
    if limit < 3 {
        return 2;
    }
    let mut r: u32 = limit;
    while r >= 3
        invariant
            2 <= r <= limit,
            greatest_prime_le(limit as int) == greatest_prime_le(r as int),
        decreases r,
    {
        if check_prime(r) {
            return r;
        }
        proof {
            assert(greatest_prime_le(r as int) == greatest_prime_le(r as int - 1));
        }
        r -= 1;
    }
    proof {
        assert(greatest_prime_le(r as int) == 2);
    }
    2
}

} // verus!
