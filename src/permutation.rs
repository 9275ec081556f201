//! The MiMC round permutation over a prime field, as mathematics.
use vstd::prelude::*;

verus! {

/// `(a + b) mod p`.
pub open spec fn fadd(p: int, a: int, b: int) -> int {
    (a + b) % p
}

/// `(a - b) mod p`, in `[0, p)`.
pub open spec fn fsub(p: int, a: int, b: int) -> int {
    (a - b) % p
}

/// `(a * b) mod p`.
pub open spec fn fmul(p: int, a: int, b: int) -> int {
    (a * b) % p
}

/// `a^3 mod p`.
pub open spec fn fcube(p: int, a: int) -> int {
    (a * a * a) % p
}

/// One MiMC round on the state `(xl, xr)` with round constant `c`:
/// `(xr + (xl + c)^3, xl)`.
pub open spec fn round(p: int, state: (int, int), c: int) -> (int, int) {
    (fadd(p, state.1, fcube(p, fadd(p, state.0, c))), state.0)
}

/// The state after the first `k` rounds, starting from `(xl, xr)`.
pub open spec fn state_after(p: int, xl: int, xr: int, cs: Seq<int>, k: nat) -> (int, int)
    decreases k,
{
    if k == 0 {
        (xl, xr)
    } else {
        round(p, state_after(p, xl, xr, cs, (k - 1) as nat), cs[k - 1])
    }
}

/// The MiMC image of `(xl, xr)` under the round constants `cs`: the left half
/// of the state once every constant has been used.
pub open spec fn mimc_spec(p: int, xl: int, xr: int, cs: Seq<int>) -> int {
    state_after(p, xl, xr, cs, cs.len()).0
}

/// Every state reached from field elements holds field elements.
pub proof fn lemma_state_in_field(p: int, xl: int, xr: int, cs: Seq<int>, k: nat)
    requires
        p > 0,
        0 <= xl < p,
        0 <= xr < p,
    ensures
        0 <= state_after(p, xl, xr, cs, k).0 < p,
        0 <= state_after(p, xl, xr, cs, k).1 < p,
    decreases k,
{
    if k > 0 {
        lemma_state_in_field(p, xl, xr, cs, (k - 1) as nat);
        let s = state_after(p, xl, xr, cs, (k - 1) as nat);
        vstd::arithmetic::div_mod::lemma_mod_bound(s.1 + fcube(p, fadd(p, s.0, cs[k - 1])), p);
    }
}

/// The state after `k` rounds depends only on the first `k` constants.
pub proof fn lemma_state_prefix(p: int, xl: int, xr: int, cs: Seq<int>, ds: Seq<int>, k: nat)
    requires
        k <= cs.len(),
        k <= ds.len(),
        forall|i: int| 0 <= i < k ==> cs[i] == ds[i],
    ensures
        state_after(p, xl, xr, cs, k) == state_after(p, xl, xr, ds, k),
    decreases k,
{
    if k > 0 {
        lemma_state_prefix(p, xl, xr, cs, ds, (k - 1) as nat);
    }
}

/// A difference of two field elements is zero exactly where they are equal.
pub proof fn lemma_fsub_zero(p: int, a: int, b: int)
    requires
        0 <= a < p,
        0 <= b < p,
    ensures
        (fsub(p, a, b) == 0) <==> (a == b),
{
    if a >= b {
        vstd::arithmetic::div_mod::lemma_small_mod((a - b) as nat, p as nat);
    } else {
        vstd::arithmetic::div_mod::lemma_mod_add_multiples_vanish(a - b, p);
        vstd::arithmetic::div_mod::lemma_small_mod((p + a - b) as nat, p as nat);
    }
}

} // verus!
