//! Small arithmetic helpers.

use vstd::arithmetic::power2::{
    lemma2_to64, lemma2_to64_rest, lemma_pow2_strictly_increases, lemma_pow2_unfold, pow2,
};
use vstd::prelude::*;

verus! {

/// The integer base-2 logarithm of `n`, or `None` when `n` is zero.
pub fn log2n(n: &u64) -> (r: Option<u64>)
    ensures
        r is None <==> *n == 0,
        r matches Some(k) ==> k < 64 && pow2(k as nat) <= *n < pow2((k + 1) as nat),
    decreases *n,
{
    if *n == 0 {
        return None;
    } else if *n > 1 {
        let half = n / 2;
        let r = log2n(&half);
        match r {
            Some(k) => {
                proof {
                    if k >= 63 {
                        if k > 63 {
                            lemma_pow2_strictly_increases(63, k as nat);
                        }
                        lemma2_to64_rest();
                        assert(false);
                    }
                    lemma_pow2_unfold((k + 1) as nat);
                    lemma_pow2_unfold((k + 2) as nat);
                }
                return Some(k + 1);
            },
            None => {
                // unreachable: n > 1 makes n / 2 nonzero
                proof {
                    assert(false);
                }
                return None;
            },
        }
    } else {
        proof {
            lemma2_to64();
        }
        return Some(0);
    }
}

} // verus!
