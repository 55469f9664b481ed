//! Residues modulo the field characteristic and their inverses.
use vstd::prelude::*;
use vstd::arithmetic::div_mod::{lemma_add_mod_noop, lemma_mul_mod_noop_general, lemma_mod_twice};

verus! {

/// The prime order of the field every polynomial lives over.
pub const CHARACTERISTIC: i64 = 5;

/// The residue of `v` in `[0, CHARACTERISTIC)`.
pub open spec fn residue(v: int) -> int {
    v % (CHARACTERISTIC as int)
}

/// Whether some `r` in `[0, p)` satisfies `(a * r) mod p == 1`.
pub open spec fn has_inverse(a: int, p: int) -> bool {
    exists|r: int| 0 <= r < p && #[trigger] ((a * r) % p) == 1
}

/// Reduces `v` into `[0, CHARACTERISTIC)`.
pub fn reduce(v: i64) -> (r: i64)
    ensures
        r as int == residue(v as int),
        0 <= r < CHARACTERISTIC,
{
    match v.checked_rem_euclid(CHARACTERISTIC) {
        Some(r) => r,
        None => 0,
    }
}

/// Relies on `modinverse::modinverse` for `i64`: for a modulus above one it
/// returns the inverse of `a` in `[0, m)` when one exists and `None` otherwise.
#[verifier::external_body]
fn modinverse_i64(a: i64, m: i64) -> (r: Option<i64>)
    requires
        m > 1,
    ensures
        match r {
            Some(v) => 0 <= v < m && (a * v) % (m as int) == 1,
            None => !has_inverse(a as int, m as int),
        },
{
    modinverse::modinverse(a, m)
}

/// The inverse of `a` modulo `p`, or `None` when `a` has none.
pub fn modular_inverse(a: i64, p: i64) -> (r: Option<i64>)
    requires
        p > 1,
    ensures
        r is Some <==> has_inverse(a as int, p as int),
        r matches Some(v) ==> 0 <= v < p && (a * v) % (p as int) == 1,
{
    modinverse_i64(a, p)
}

/// Every residue of the characteristic that is not zero is invertible.
pub proof fn lemma_nonzero_residue_invertible(a: int)
    requires
        a % CHARACTERISTIC as int != 0,
    ensures
        has_inverse(a, CHARACTERISTIC as int),
{
    let p = CHARACTERISTIC as int;
    let k = a / p;
    let m = a % p;
    assert(a == k * p + m) by (nonlinear_arith) requires k == a / p, m == a % p, p == 5;
    let r: int = if m == 1 { 1 } else if m == 2 { 3 } else if m == 3 { 2 } else { 4 };
    assert((a * r) % p == 1) by (nonlinear_arith)
        requires
            a == k * p + m,
            p == 5,
            0 < m < 5,
            r == (if m == 1 { 1int } else if m == 2 { 3int } else if m == 3 { 2int } else { 4int }),
    ;
    assert(0 <= r < p && (a * r) % p == 1);
}

/// A residue congruent to zero has no inverse.
pub proof fn lemma_zero_residue_not_invertible(a: int, p: int)
    requires
        p > 1,
        a % p == 0,
    ensures
        !has_inverse(a, p),
{
    assert forall|r: int| 0 <= r < p implies #[trigger] ((a * r) % p) != 1 by {
        vstd::arithmetic::div_mod::lemma_mul_mod_noop_left(a, r, p);
        assert((a % p) * r == 0);
        vstd::arithmetic::div_mod::lemma_small_mod(0, p as nat);
    }
}

/// A residue is its own residue.
pub proof fn lemma_residue_idempotent(a: int)
    ensures
        residue(residue(a)) == residue(a),
        0 <= residue(a) < CHARACTERISTIC,
{
    lemma_mod_twice(a, CHARACTERISTIC as int);
}

/// Congruence is preserved by addition.
pub proof fn lemma_residue_add(a: int, b: int, a2: int, b2: int)
    requires
        residue(a) == residue(a2),
        residue(b) == residue(b2),
    ensures
        residue(a + b) == residue(a2 + b2),
{
    lemma_add_mod_noop(a, b, CHARACTERISTIC as int);
    lemma_add_mod_noop(a2, b2, CHARACTERISTIC as int);
}

/// Congruence is preserved by multiplication.
pub proof fn lemma_residue_mul(a: int, b: int, a2: int, b2: int)
    requires
        residue(a) == residue(a2),
        residue(b) == residue(b2),
    ensures
        residue(a * b) == residue(a2 * b2),
{
    lemma_mul_mod_noop_general(a, b, CHARACTERISTIC as int);
    lemma_mul_mod_noop_general(a2, b2, CHARACTERISTIC as int);
}

} // verus!
