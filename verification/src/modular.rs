//! The mathematical model of the prime field: canonical residues in `[0, p)`
//! and the reduced operations on them, together with the small modular
//! arithmetic lemmas the verified code leans on.

use vstd::prelude::*;
use vstd::arithmetic::div_mod::{
    lemma_add_mod_noop, lemma_mod_add_multiples_vanish, lemma_mod_bound, lemma_mul_mod_noop_general,
    lemma_small_mod,
};

verus! {

/// Reduced sum of two residues.
pub open spec fn fadd(p: nat, a: nat, b: nat) -> nat {
    (a + b) % p
}

/// Reduced difference of two residues, normalized into `[0, p)`:
/// `b` is first lifted by `p` so the difference never goes below zero.
pub open spec fn fsub(p: nat, a: nat, b: nat) -> nat {
    (((a + p - b) % (p as int)) as nat)
}

/// Reduced product of two residues.
pub open spec fn fmul(p: nat, a: nat, b: nat) -> nat {
    (a * b) % p
}

/// Additive inverse of a residue, normalized into `[0, p)`.
pub open spec fn fneg(p: nat, a: nat) -> nat {
    fsub(p, 0, a)
}

/// `x` is the multiplicative inverse of `a` modulo `p`.
pub open spec fn is_inv(p: nat, a: nat, x: nat) -> bool {
    x < p && (a * x) % p == 1
}

/// Every entry of the sequence is a canonical residue.
pub open spec fn canon(p: nat, s: Seq<nat>) -> bool {
    forall|i: int| 0 <= i < s.len() ==> s[i] < p
}

/// Reduced power: `b^e % p`, one reduced multiplication per exponent step.
pub open spec fn pow_mod(p: nat, b: nat, e: int) -> nat
    decreases e,
{
    if e <= 0 {
        1nat % p
    } else {
        fmul(p, pow_mod(p, b, e - 1), b)
    }
}

/// `n` is a power of two.
pub open spec fn is_pow2(n: int) -> bool
    decreases n,
{
    if n <= 0 {
        false
    } else if n == 1 {
        true
    } else {
        n % 2 == 0 && is_pow2(n / 2)
    }
}

/// `m` is the multiplicative order of `b`: the least positive exponent whose
/// reduced power returns to `1`.
pub open spec fn is_order(p: nat, b: nat, m: nat) -> bool {
    &&& m >= 1
    &&& pow_mod(p, b, m as int) == 1
    &&& forall|i: int| 1 <= i < m ==> pow_mod(p, b, i) != 1
}

/// Reduced product of the nonzero entries of a sequence; `1` when none are.
/// The zero entries are passed over, as the batch inversion policy asks.
pub open spec fn prod_nz(p: nat, s: Seq<nat>) -> nat
    decreases s.len(),
{
    if s.len() == 0 {
        1
    } else if s.last() == 0 {
        prod_nz(p, s.drop_last())
    } else {
        fmul(p, prod_nz(p, s.drop_last()), s.last())
    }
}

/// One step of the running product over a prefix: extending the prefix by a
/// zero entry keeps it, by a nonzero entry multiplies it in.
pub proof fn lemma_prod_nz_take_step(p: nat, s: Seq<nat>, i: int)
    requires
        0 <= i < s.len(),
    ensures
        s[i] == 0 ==> prod_nz(p, s.take(i + 1)) == prod_nz(p, s.take(i)),
        s[i] != 0 ==> prod_nz(p, s.take(i + 1)) == fmul(p, prod_nz(p, s.take(i)), s[i]),
{
    assert(s.take(i + 1).drop_last() =~= s.take(i));
    assert(s.take(i + 1).last() == s[i]);
}

/// The three closed operations keep their results in `[0, p)`.
pub proof fn lemma_field_closed(p: nat, a: nat, b: nat)
    requires
        p >= 1,
        b <= p,
    ensures
        fadd(p, a, b) < p,
        fsub(p, a, b) < p,
        fmul(p, a, b) < p,
{
    lemma_mod_bound((a + b) as int, p as int);
    lemma_mod_bound(a + p - b, p as int);
    lemma_mod_bound((a * b) as int, p as int);
}

/// Subtracting `y` undoes adding `y`: the round trip over canonical residues.
pub proof fn lemma_fsub_fadd_cancel(p: nat, x: nat, y: nat)
    requires
        p >= 1,
        x < p,
        y < p,
    ensures
        fsub(p, fadd(p, x, y), y) == x,
{
    lemma_mod_bound((x + y) as int, p as int);
    lemma_small_mod(x, p);
    lemma_mod_add_multiples_vanish(x as int, p as int);
    if y > 0 {
        // (s + p - y) % p == ((x + y) + (p - y)) % p == (x + p) % p == x
        lemma_add_mod_noop((x + y) as int, p - y, p as int);
        lemma_small_mod(((p - y) as nat), p);
    }
}

/// A residue multiplied by `1` reduces to itself.
pub proof fn lemma_fmul_one(p: nat, a: nat)
    requires
        p >= 1,
        a < p,
    ensures
        fmul(p, a, 1) == a,
        fmul(p, 1, a) == a,
{
    lemma_small_mod(a, p);
}

/// The multiplicative inverse of a residue is unique.
pub proof fn lemma_inv_unique(p: nat, a: nat, x1: nat, x2: nat)
    requires
        p >= 2,
        is_inv(p, a, x1),
        is_inv(p, a, x2),
    ensures
        x1 == x2,
{
    // x1 == x1 * (a * x2) == (x1 * a) * x2 == x2  (mod p)
    lemma_mul_mod_noop_general(x1 as int, (a * x2) as int, p as int);
    lemma_small_mod(1, p);
    assert(x1 * (a * x2) == (a * x1) * x2) by (nonlinear_arith);
    lemma_mul_mod_noop_general((a * x1) as int, x2 as int, p as int);
    lemma_small_mod(x1, p);
    lemma_small_mod(x2, p);
}

} // verus!
