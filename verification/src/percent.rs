//! Percentage change between a prior and a current value.

use vstd::prelude::*;
use crate::decimal::{Dec, rdiv_s, M_MAX, P9};

verus! {

/// The percent delta from `prior` to `current`, in `10^-9` units:
/// `(current - prior) / prior * 100`, with the quotient rounded to nine
/// fractional digits. A zero prior value yields zero rather than a
/// division fault.
pub open spec fn percent_change_v(pv: int, cv: int) -> int {
    if pv == 0 {
        0
    } else {
        100 * rdiv_s((cv - pv) * P9, pv)
    }
}

/// Signed percentage change from `prior` to `current`.
///
/// When `prior` is zero — the sentinel for "no known prior price" — the
/// result is defined as zero instead of faulting on division.
pub fn percent_change(prior: Dec, current: Dec) -> (r: Dec)
    requires
        prior.wf(),
        current.wf(),
        -M_MAX <= current.v() - prior.v() <= M_MAX,
        -M_MAX <= percent_change_v(prior.v(), current.v()) <= M_MAX,
    ensures
        r.wf(),
        r.v() == percent_change_v(prior.v(), current.v()),
{
    if prior.is_zero() {
        Dec::zero()
    } else {
        let diff = current.sub(prior);
        proof {
            crate::decimal::lemma_abs_bound(
                rdiv_s(diff.v() * P9, prior.v()),
                100,
                M_MAX as int,
            );
        }
        let q = diff.div(prior);
        let hundred = Dec::from_int(100);
        proof {
            crate::decimal::lemma_rdiv_exact(100 * q.v(), P9 as int);
            assert((100 * q.v()) * (P9 as int) == q.v() * (100 * (P9 as int)))
                by (nonlinear_arith);
        }
        q.mul(hundred)
    }
}

} // verus!
