//! Arithmetic over a fixed prime modulus, and dense polynomial algebra on it.
//!
//! A `PrimeField` carries one modulus `p`; every operation takes and returns
//! canonical residues in `[0, p)`. Polynomials are vectors of residues in
//! ascending degree order.

use vstd::prelude::*;
use num_bigint::BigUint;
use crate::bignum::{
    big, big_add, big_clone, big_div, big_eq, big_from_u64, big_mod, big_mul, big_sub, deep,
    lemma_deep_index,
};
use crate::modular::{
    canon, fadd, fmul, fsub, is_inv, lemma_inv_unique, lemma_prod_nz_take_step, prod_nz,
};
use crate::poly::{
    conv_at, divstep_rem, horner, lag_acc, lag_denom, lag_denoms, lag_numer, lag_row,
    lemma_polydiv_len, linfac, padd_s, pget, pmaxlen, pmod_s, pmul_s, polydiv, psub_s, zpoly,
};
use crate::FriError;
use vstd::arithmetic::div_mod::{
    lemma_fundamental_div_mod, lemma_mod_multiples_vanish, lemma_mod_self_0, lemma_mul_mod_noop_left,
    lemma_mul_mod_noop_right, lemma_small_mod, lemma_sub_mod_noop,
};

verus! {

/// A prime field: the integers `{0, .., p-1}` under arithmetic modulo `p`.
pub struct PrimeField {
    p: BigUint,
}

impl PrimeField {
    /// The modulus this field reduces by.
    pub closed spec fn modulus(&self) -> nat {
        big(self.p)
    }

    /// The modulus of a field is at least `2` (every prime is).
    pub open spec fn wf(&self) -> bool {
        self.modulus() >= 2
    }

    /// A field over the given modulus, which must be at least `2`.
    /// Primality is the caller's obligation; it is what makes every nonzero
    /// residue invertible, but no operation below depends on it for soundness.
    pub fn new(p: BigUint) -> (r: PrimeField)
        requires
            big(p) >= 2,
        ensures
            r.wf(),
            r.modulus() == big(p),
    {
        PrimeField { p }
    }

    /// A second field over the same modulus.
    pub fn duplicate(&self) -> (r: PrimeField)
        ensures
            r.modulus() == self.modulus(),
            r.wf() == self.wf(),
    {
        PrimeField { p: big_clone(&self.p) }
    }

    /// Reduced sum: `(a + b) % p`, canonical.
    pub fn add(&self, a: &BigUint, b: &BigUint) -> (r: BigUint)
        requires
            self.wf(),
            big(*a) < self.modulus(),
            big(*b) < self.modulus(),
        ensures
            big(r) == fadd(self.modulus(), big(*a), big(*b)),
            big(r) < self.modulus(),
    {
        let s = big_add(a, b);
        big_mod(&s, &self.p)
    }

    /// Reduced difference, normalized into `[0, p)`: `(a + p - b) % p`.
    pub fn sub(&self, a: &BigUint, b: &BigUint) -> (r: BigUint)
        requires
            self.wf(),
            big(*a) < self.modulus(),
            big(*b) < self.modulus(),
        ensures
            big(r) == fsub(self.modulus(), big(*a), big(*b)),
            big(r) < self.modulus(),
    {
        let lift = big_sub(&self.p, b);
        let s = big_add(a, &lift);
        big_mod(&s, &self.p)
    }

    /// Reduced product: `(a * b) % p`, canonical.
    pub fn mul(&self, a: &BigUint, b: &BigUint) -> (r: BigUint)
        requires
            self.wf(),
            big(*a) < self.modulus(),
            big(*b) < self.modulus(),
        ensures
            big(r) == fmul(self.modulus(), big(*a), big(*b)),
            big(r) < self.modulus(),
    {
        let s = big_mul(a, b);
        big_mod(&s, &self.p)
    }

    /// A machine word reduced into the field.
    pub fn reduce_u64(&self, x: u64) -> (r: BigUint)
        requires
            self.wf(),
        ensures
            big(r) == (x as nat) % self.modulus(),
            big(r) < self.modulus(),
    {
        let b = big_from_u64(x);
        big_mod(&b, &self.p)
    }

    /// The multiplicative inverse of `a`, by the extended Euclidean algorithm.
    ///
    /// Returns the unique `x` in `[0, p)` with `a * x == 1 (mod p)` whenever
    /// such an `x` exists — for a prime modulus, exactly when `a != 0` — and
    /// reports `DivisionByZero` otherwise.
    pub fn mod_inverse(&self, a: &BigUint) -> (r: Result<BigUint, FriError>)
        requires
            self.wf(),
            big(*a) < self.modulus(),
        ensures
            r is Ok <==> exists|x: nat| is_inv(self.modulus(), big(*a), x),
            r matches Ok(x) ==> is_inv(self.modulus(), big(*a), big(x)),
            r matches Err(e) ==> e == FriError::DivisionByZero,
            big(*a) == 0 ==> r is Err,
    {
        let ghost pv = self.modulus();
        let ghost av = big(*a);
        let zero = big_from_u64(0);
        let one = big_from_u64(1);
        let mut r0 = big_clone(&self.p);
        let mut r1 = big_clone(a);
        let mut t0 = big_from_u64(0);
        let mut t1 = big_from_u64(1);
        // Bezout bookkeeping: the input `a` and the modulus stay integer
        // combinations of the current remainder pair.
        let ghost mut ca0: int = 0;
        let ghost mut ca1: int = 1;
        let ghost mut cp0: int = 1;
        let ghost mut cp1: int = 0;
        proof {
            lemma_mod_self_0(pv as int);
            lemma_small_mod(av, pv);
            lemma_small_mod(0, pv);
        }
        while !big_eq(&r1, &zero)
            invariant
                self.wf(),
                self.modulus() == pv,
                big(*a) == av,
                big(zero) == 0,
                big(one) == 1,
                big(r1) < pv,
                big(t0) < pv,
                big(t1) < pv,
                (big(t0) * av) % pv == big(r0) % pv,
                (big(t1) * av) % pv == big(r1) % pv,
                av == ca0 * big(r0) + ca1 * big(r1),
                pv == cp0 * big(r0) + cp1 * big(r1),
            decreases big(r1),
        {
            let ghost or0 = big(r0);
            let ghost or1 = big(r1);
            let ghost tv0 = big(t0);
            let ghost tv1 = big(t1);
            let q = big_div(&r0, &r1);
            let rem = big_mod(&r0, &r1);
            let ghost qv = big(q);
            let ghost rm = big(rem);
            let qt = big_mul(&q, &t1);
            let qt_m = big_mod(&qt, &self.p);
            let t2 = self.sub(&t0, &qt_m);
            proof {
                let tv2 = big(t2) as int;
                let qtm = big(qt_m) as int;
                let p_ = pv as int;
                let a_ = av as int;
                let t0_ = tv0 as int;
                let t1_ = tv1 as int;
                let q_ = qv as int;
                let r0_ = or0 as int;
                let r1_ = or1 as int;
                let rm_ = rm as int;
                lemma_fundamental_div_mod(r0_, r1_);
                assert(rm_ == r0_ - q_ * r1_);
                // (t2 * a) % p == (r0 % r1) % p, the invariant for the new pair
                assert(tv2 == (t0_ + p_ - qtm) % p_);
                lemma_mul_mod_noop_left(t0_ + p_ - qtm, a_, p_);
                assert((t0_ + p_ - qtm) * a_ == p_ * a_ + (t0_ * a_ - qtm * a_)) by (nonlinear_arith);
                lemma_mod_multiples_vanish(a_, t0_ * a_ - qtm * a_, p_);
                lemma_sub_mod_noop(t0_ * a_, qtm * a_, p_);
                lemma_mul_mod_noop_left(q_ * t1_, a_, p_);
                assert((q_ * t1_) * a_ == q_ * (t1_ * a_)) by (nonlinear_arith);
                lemma_sub_mod_noop(t0_ * a_, (q_ * t1_) * a_, p_);
                lemma_mul_mod_noop_right(q_, t1_ * a_, p_);
                lemma_mul_mod_noop_right(q_, r1_, p_);
                lemma_sub_mod_noop(r0_, q_ * r1_, p_);
                assert((tv2 * a_) % p_ == rm_ % p_);
                assert((big(t2) * av) % pv == rm % pv);
            }
            r0 = r1;
            r1 = rem;
            t0 = t1;
            t1 = t2;
            proof {
                let nca0 = ca0 * qv + ca1;
                let ncp0 = cp0 * qv + cp1;
                assert(av == nca0 * or1 + ca0 * rm && pv == ncp0 * or1 + cp0 * rm)
                    by (nonlinear_arith)
                    requires
                        av == ca0 * or0 + ca1 * or1,
                        pv == cp0 * or0 + cp1 * or1,
                        rm == or0 - qv * or1,
                        nca0 == ca0 * qv + ca1,
                        ncp0 == cp0 * qv + cp1,
                ;
                ca1 = ca0;
                ca0 = nca0;
                cp1 = cp0;
                cp0 = ncp0;
            }
        }
        if big_eq(&r0, &one) {
            proof {
                lemma_small_mod(1, pv);
                assert(big(r0) == 1);
                assert((big(t0) * av) % pv == 1nat % pv);
                assert(av * big(t0) == big(t0) * av) by (nonlinear_arith);
                assert(is_inv(pv, av, big(t0)));
                if av == 0 {
                    assert((av * big(t0)) == 0);
                    assert(false);
                }
            }
            Ok(t0)
        } else {
            proof {
                let g = big(r0) as int;
                let r1v = big(r1) as int;
                assert(av == ca0 * g && pv == cp0 * g) by (nonlinear_arith)
                    requires
                        av == ca0 * g + ca1 * r1v,
                        pv == cp0 * g + cp1 * r1v,
                        r1v == 0,
                ;
                if exists|x: nat| is_inv(pv, av, x) {
                    let x = choose|x: nat| is_inv(pv, av, x);
                    lemma_fundamental_div_mod((av * x) as int, pv as int);
                    let k = (av * x) as int / pv as int;
                    assert(av * x - pv * k == 1);
                    assert(av * x - pv * k == g * (ca0 * x - cp0 * k)) by (nonlinear_arith)
                        requires
                            av == ca0 * g,
                            pv == cp0 * g,
                    ;
                    assert(false) by (nonlinear_arith)
                        requires
                            g * (ca0 * x - cp0 * k) == 1,
                            g >= 0,
                            g != 1,
                    ;
                }
            }
            Err(FriError::DivisionByZero)
        }
    }

    /// Polynomial long division, returning the quotient and discarding the
    /// remainder (which `mod_polynomial` recovers).
    ///
    /// Needs a nonempty divisor no longer than the dividend, with an
    /// invertible leading coefficient; reports `InvalidInput` otherwise.
    #[verifier::rlimit(50)]
    pub fn div_polynomial(&self, a: &Vec<BigUint>, b: &Vec<BigUint>) -> (r: Result<
        Vec<BigUint>,
        FriError,
    >)
        requires
            self.wf(),
            canon(self.modulus(), deep(a@)),
            canon(self.modulus(), deep(b@)),
        ensures
            r is Ok <==> b@.len() >= 1 && a@.len() >= b@.len() && (exists|x: nat|
                is_inv(self.modulus(), deep(b@).last(), x)),
            r matches Ok(q) ==> {
                &&& q@.len() == a@.len() - b@.len() + 1
                &&& canon(self.modulus(), deep(q@))
                &&& forall|x: nat|
                    is_inv(self.modulus(), deep(b@).last(), x) ==> deep(q@) == polydiv(
                        self.modulus(),
                        deep(a@),
                        deep(b@),
                        x,
                        (a@.len() - b@.len() + 1) as nat,
                    ).0
            },
            r matches Err(e) ==> e == FriError::InvalidInput,
    {
        let ghost pv = self.modulus();
        let ghost da = deep(a@);
        let ghost db = deep(b@);
        if b.len() == 0 || a.len() < b.len() {
            return Err(FriError::InvalidInput);
        }
        proof {
            lemma_deep_index(b@, b@.len() - 1);
        }
        let il = match self.mod_inverse(&b[b.len() - 1]) {
            Ok(v) => v,
            Err(_) => {
                proof {
                    assert forall|x: nat| !is_inv(pv, db.last(), x) by {
                        assert(!is_inv(pv, big(b@[b@.len() - 1]), x));
                    }
                }
                return Err(FriError::InvalidInput);
            },
        };
        let ghost ilv = big(il);
        proof {
            assert(is_inv(pv, db.last(), ilv));
        }
        let steps = a.len() - b.len() + 1;
        let ghost target = polydiv(pv, da, db, ilv, steps as nat);
        proof {
            lemma_polydiv_len(pv, da, db, ilv, steps as nat);
            assert(target.0.take(steps as int) =~= target.0);
        }
        let mut rem: Vec<BigUint> = Vec::new();
        let mut i: usize = 0;
        while i < a.len()
            invariant
                deep(a@) == da,
                i <= a@.len(),
                rem@.len() == i,
                forall|t: int| 0 <= t < i ==> #[trigger] big(rem@[t]) == da[t],
            decreases a@.len() - i,
        {
            proof {
                lemma_deep_index(a@, i as int);
            }
            rem.push(big_clone(&a[i]));
            i += 1;
        }
        proof {
            assert(deep(rem@) =~= da);
        }
        // Quotient coefficients fall out from the highest degree down; they
        // are collected in that order and reversed at the end.
        let mut quot_rev: Vec<BigUint> = Vec::new();
        let mut d: usize = steps;
        while d > 0
            invariant
                self.wf(),
                self.modulus() == pv,
                deep(a@) == da,
                deep(b@) == db,
                canon(pv, da),
                canon(pv, db),
                big(il) == ilv,
                ilv < pv,
                b@.len() >= 1,
                a@.len() >= b@.len(),
                a@.len() <= usize::MAX,
                steps == a@.len() - b@.len() + 1,
                d <= steps,
                rem@.len() == a@.len(),
                canon(pv, deep(rem@)),
                target == polydiv(pv, da, db, ilv, steps as nat),
                target.0.len() == steps,
                polydiv(pv, deep(rem@), db, ilv, d as nat).0 == target.0.take(d as int),
                quot_rev@.len() == steps - d,
                forall|j: int|
                    0 <= j < steps - d ==> #[trigger] big(quot_rev@[j]) == target.0[steps - 1 - j]
                        && big(quot_rev@[j]) < pv,
            decreases d,
        {
            let dd = d - 1;
            let lb1 = b.len() - 1;
            let lead_pos = dd + lb1;
            proof {
                assert(dd + b@.len() - 1 < a@.len());
                lemma_deep_index(rem@, lead_pos as int);
            }
            let qd = self.mul(&rem[lead_pos], &il);
            let ghost qdv = big(qd);
            let ghost orem = deep(rem@);
            let mut nrem: Vec<BigUint> = Vec::new();
            let mut t: usize = 0;
            while t < rem.len()
                invariant
                    self.wf(),
                    self.modulus() == pv,
                    deep(b@) == db,
                    canon(pv, db),
                    deep(rem@) == orem,
                    canon(pv, orem),
                    big(qd) == qdv,
                    qdv < pv,
                    rem@.len() == a@.len(),
                    dd + b@.len() <= a@.len() + 1,
                    t <= a@.len(),
                    nrem@.len() == t,
                    forall|s2: int|
                        0 <= s2 < t ==> #[trigger] big(nrem@[s2]) == divstep_rem(
                            pv,
                            orem,
                            db,
                            qdv,
                            dd as int,
                        )[s2] && big(nrem@[s2]) < pv,
                decreases a@.len() - t,
            {
                proof {
                    lemma_deep_index(rem@, t as int);
                }
                if dd <= t && t - dd < b.len() {
                    proof {
                        lemma_deep_index(b@, (t - dd) as int);
                    }
                    let m = self.mul(&qd, &b[t - dd]);
                    nrem.push(self.sub(&rem[t], &m));
                } else {
                    nrem.push(big_clone(&rem[t]));
                }
                t += 1;
            }
            proof {
                assert(deep(nrem@) =~= divstep_rem(pv, orem, db, qdv, dd as int));
                assert forall|s2: int| 0 <= s2 < deep(nrem@).len() implies deep(nrem@)[s2]
                    < pv by {
                    lemma_deep_index(nrem@, s2);
                }
                // one unfolding of the division at the current step
                assert(pget(orem, dd + db.len() - 1) == big(rem@[dd + b@.len() - 1]));
                assert(polydiv(pv, orem, db, ilv, d as nat).0 == polydiv(
                    pv,
                    deep(nrem@),
                    db,
                    ilv,
                    dd as nat,
                ).0.push(qdv));
                assert(target.0.take(d as int).drop_last() =~= target.0.take(dd as int));
                lemma_polydiv_len(pv, deep(nrem@), db, ilv, dd as nat);
                assert(polydiv(pv, deep(nrem@), db, ilv, dd as nat).0 == target.0.take(dd as int));
                assert(polydiv(pv, orem, db, ilv, d as nat).0[dd as int] == qdv);
                assert(target.0.take(d as int)[dd as int] == target.0[dd as int]);
                assert(target.0[dd as int] == qdv);
            }
            quot_rev.push(qd);
            rem = nrem;
            d = dd;
        }
        let mut quot: Vec<BigUint> = Vec::new();
        let mut j: usize = 0;
        while j < steps
            invariant
                quot_rev@.len() == steps,
                target.0.len() == steps,
                j <= steps,
                quot@.len() == j,
                forall|jj: int|
                    0 <= jj < steps ==> #[trigger] big(quot_rev@[jj]) == target.0[steps - 1 - jj]
                        && big(quot_rev@[jj]) < pv,
                forall|t2: int|
                    0 <= t2 < j ==> #[trigger] big(quot@[t2]) == target.0[t2] && big(quot@[t2])
                        < pv,
            decreases steps - j,
        {
            quot.push(big_clone(&quot_rev[steps - 1 - j]));
            j += 1;
        }
        proof {
            assert(deep(quot@) =~= target.0);
            assert forall|s2: int| 0 <= s2 < deep(quot@).len() implies deep(quot@)[s2] < pv by {
                lemma_deep_index(quot@, s2);
            }
            assert forall|x: nat| is_inv(pv, db.last(), x) implies deep(quot@) == polydiv(
                pv,
                da,
                db,
                x,
                steps as nat,
            ).0 by {
                lemma_inv_unique(pv, db.last(), x, ilv);
            }
        }
        Ok(quot)
    }

    /// The division remainder: `a` minus the divisor times the quotient,
    /// truncated to the remainder's maximum possible length `|b| - 1`.
    /// Fails exactly where `div_polynomial` does.
    pub fn mod_polynomial(&self, a: &Vec<BigUint>, b: &Vec<BigUint>) -> (r: Result<
        Vec<BigUint>,
        FriError,
    >)
        requires
            self.wf(),
            canon(self.modulus(), deep(a@)),
            canon(self.modulus(), deep(b@)),
            a@.len() < usize::MAX,
        ensures
            r is Ok <==> b@.len() >= 1 && a@.len() >= b@.len() && (exists|x: nat|
                is_inv(self.modulus(), deep(b@).last(), x)),
            r matches Ok(m) ==> {
                &&& m@.len() == b@.len() - 1
                &&& canon(self.modulus(), deep(m@))
                &&& forall|x: nat|
                    is_inv(self.modulus(), deep(b@).last(), x) ==> deep(m@) == pmod_s(
                        self.modulus(),
                        deep(a@),
                        deep(b@),
                        x,
                    )
            },
            r matches Err(e) ==> e == FriError::InvalidInput,
    {
        let ghost pv = self.modulus();
        let ghost da = deep(a@);
        let ghost db = deep(b@);
        let q = match self.div_polynomial(a, b) {
            Ok(q) => q,
            Err(e) => {
                return Err(e);
            },
        };
        let prod = self.mul_polynomial(&q, b);
        let mut diff = self.sub_polynomial(a, &prod);
        let ghost full = deep(diff@);
        let ghost odiff = diff@;
        diff.truncate(b.len() - 1);
        proof {
            assert forall|t: int| 0 <= t < diff@.len() implies #[trigger] deep(diff@)[t] == full[t]
                by {
                lemma_deep_index(diff@, t);
                lemma_deep_index(odiff, t);
            }
            assert(deep(diff@) =~= full.take(db.len() - 1));
            assert forall|x: nat| is_inv(pv, db.last(), x) implies deep(diff@) == pmod_s(
                pv,
                da,
                db,
                x,
            ) by {
                assert(deep(q@) == polydiv(pv, da, db, x, (da.len() - db.len() + 1) as nat).0);
            }
        }
        Ok(diff)
    }

    /// The vanishing polynomial of the given roots: the product of the linear
    /// factors `X - x` over all entries of `xs`, built by iterated
    /// convolution. It evaluates to zero at every root.
    pub fn zeropoly(&self, xs: &Vec<BigUint>) -> (r: Vec<BigUint>)
        requires
            self.wf(),
            canon(self.modulus(), deep(xs@)),
            xs@.len() + 2 <= usize::MAX,
        ensures
            deep(r@) == zpoly(self.modulus(), deep(xs@)),
            r@.len() == xs@.len() + 1,
            canon(self.modulus(), deep(r@)),
    {
        let ghost pv = self.modulus();
        let ghost dx = deep(xs@);
        let zero = big_from_u64(0);
        let mut root: Vec<BigUint> = Vec::new();
        root.push(big_from_u64(1));
        proof {
            assert(dx.take(0) =~= Seq::<nat>::empty());
            assert(deep(root@) =~= zpoly(pv, dx.take(0)));
        }
        let mut i: usize = 0;
        while i < xs.len()
            invariant
                self.wf(),
                self.modulus() == pv,
                deep(xs@) == dx,
                canon(pv, dx),
                big(zero) == 0,
                xs@.len() + 2 <= usize::MAX,
                i <= xs@.len(),
                root@.len() == i + 1,
                deep(root@) == zpoly(pv, dx.take(i as int)),
                canon(pv, deep(root@)),
            decreases xs@.len() - i,
        {
            proof {
                lemma_deep_index(xs@, i as int);
            }
            let negx = self.sub(&zero, &xs[i]);
            let mut fac: Vec<BigUint> = Vec::new();
            fac.push(negx);
            fac.push(big_from_u64(1));
            proof {
                assert(deep(fac@) =~= linfac(pv, dx[i as int]));
                assert(dx.take(i + 1).drop_last() =~= dx.take(i as int));
                assert(dx.take(i + 1).last() == dx[i as int]);
            }
            let nroot = self.mul_polynomial(&root, &fac);
            root = nroot;
            i += 1;
        }
        proof {
            assert(dx.take(xs@.len() as int) =~= dx);
        }
        root
    }

    /// Lagrange interpolation: the polynomial through the points
    /// `(xs[i], ys[i])`, as the reduced sum of each point's rescaled
    /// numerator polynomial. Every term is accumulated; a duplicate point
    /// shows up as a zero denominator and is rejected as `InvalidInput`.
    /// No points at all ask for nothing: the result is the empty polynomial.
    pub fn lagrange_interpolation(&self, xs: &Vec<BigUint>, ys: &Vec<BigUint>) -> (r: Result<
        Vec<BigUint>,
        FriError,
    >)
        requires
            self.wf(),
            canon(self.modulus(), deep(xs@)),
            canon(self.modulus(), deep(ys@)),
            xs@.len() + 2 <= usize::MAX,
        ensures
            r is Ok <==> {
                &&& xs@.len() == ys@.len()
                &&& forall|i: int|
                    0 <= i < xs@.len() ==> #[trigger] lag_denom(self.modulus(), deep(xs@), i) != 0
                &&& exists|x: nat|
                    is_inv(
                        self.modulus(),
                        prod_nz(self.modulus(), lag_denoms(self.modulus(), deep(xs@))),
                        x,
                    )
            },
            r matches Ok(out) ==> {
                &&& out@.len() == ys@.len()
                &&& canon(self.modulus(), deep(out@))
                &&& forall|dv: Seq<nat>|
                    (dv.len() == xs@.len() && (forall|i: int|
                        0 <= i < xs@.len() ==> is_inv(
                            self.modulus(),
                            #[trigger] lag_denom(self.modulus(), deep(xs@), i),
                            dv[i],
                        ))) ==> deep(out@) == lag_acc(
                        self.modulus(),
                        deep(xs@),
                        deep(ys@),
                        dv,
                        xs@.len() as int,
                    )
            },
            r matches Err(e) ==> (e == FriError::InvalidInput || e == FriError::DivisionByZero),
            r matches Err(e) ==> ((xs@.len() != ys@.len() || (exists|i: int|
                0 <= i < xs@.len() && #[trigger] lag_denom(self.modulus(), deep(xs@), i) == 0))
                ==> e == FriError::InvalidInput),
    {
        let ghost pv = self.modulus();
        let ghost dxs = deep(xs@);
        let ghost dys = deep(ys@);
        if xs.len() != ys.len() {
            return Err(FriError::InvalidInput);
        }
        if xs.len() == 0 {
            let out: Vec<BigUint> = Vec::new();
            proof {
                lemma_small_mod(1, pv);
                assert(is_inv(pv, 1nat, 1nat));
                assert(lag_denoms(pv, dxs).len() == 0);
                assert(prod_nz(pv, lag_denoms(pv, dxs)) == 1);
                assert(is_inv(pv, prod_nz(pv, lag_denoms(pv, dxs)), 1nat));
                assert forall|dv: Seq<nat>|
                    (dv.len() == xs@.len() && (forall|i: int|
                        0 <= i < xs@.len() ==> is_inv(
                            pv,
                            #[trigger] lag_denom(pv, dxs, i),
                            dv[i],
                        ))) implies deep(out@) == lag_acc(pv, dxs, dys, dv, xs@.len() as int) by {
                    assert(deep(out@) =~= lag_acc(pv, dxs, dys, dv, 0));
                }
            }
            return Ok(out);
        }
        let n = xs.len();
        let root = self.zeropoly(xs);
        let zero = big_from_u64(0);
        proof {
            lemma_small_mod(1, pv);
            assert(is_inv(pv, 1nat, 1nat));
        }
        let mut numerators: Vec<Vec<BigUint>> = Vec::new();
        let mut i: usize = 0;
        while i < n
            invariant
                self.wf(),
                self.modulus() == pv,
                deep(xs@) == dxs,
                deep(ys@) == dys,
                canon(pv, dxs),
                canon(pv, dys),
                big(zero) == 0,
                is_inv(pv, 1nat, 1nat),
                n == xs@.len(),
                n == ys@.len(),
                n >= 1,
                n + 2 <= usize::MAX,
                root@.len() == n + 1,
                deep(root@) == zpoly(pv, dxs),
                canon(pv, deep(root@)),
                i <= n,
                numerators@.len() == i,
                forall|t: int|
                    0 <= t < i ==> {
                        &&& deep(#[trigger] numerators@[t]@) == lag_numer(pv, dxs, t)
                        &&& numerators@[t]@.len() == n
                        &&& canon(pv, deep(numerators@[t]@))
                    },
            decreases n - i,
        {
            proof {
                lemma_deep_index(xs@, i as int);
            }
            let negx = self.sub(&zero, &xs[i]);
            let mut fac: Vec<BigUint> = Vec::new();
            fac.push(negx);
            fac.push(big_from_u64(1));
            proof {
                assert(deep(fac@) =~= linfac(pv, dxs[i as int]));
                assert(deep(fac@).last() == 1nat);
                assert(is_inv(pv, deep(fac@).last(), 1nat));
            }
            let q = match self.div_polynomial(&root, &fac) {
                Ok(q) => q,
                Err(_) => {
                    proof {
                        assert(false);
                    }
                    return Err(FriError::InvalidInput);
                },
            };
            proof {
                assert(deep(q@) == lag_numer(pv, dxs, i as int));
            }
            numerators.push(q);
            i += 1;
        }
        let mut denoms: Vec<BigUint> = Vec::new();
        i = 0;
        while i < n
            invariant
                self.wf(),
                self.modulus() == pv,
                deep(xs@) == dxs,
                deep(ys@) == dys,
                canon(pv, dxs),
                canon(pv, dys),
                big(zero) == 0,
                n == xs@.len(),
                n == ys@.len(),
                n >= 1,
                numerators@.len() == n,
                forall|t: int|
                    0 <= t < n ==> {
                        &&& deep(#[trigger] numerators@[t]@) == lag_numer(pv, dxs, t)
                        &&& numerators@[t]@.len() == n
                        &&& canon(pv, deep(numerators@[t]@))
                    },
                i <= n,
                denoms@.len() == i,
                forall|t: int|
                    0 <= t < i ==> #[trigger] big(denoms@[t]) == lag_denom(pv, dxs, t) && big(
                        denoms@[t],
                    ) < pv && big(denoms@[t]) != 0,
            decreases n - i,
        {
            proof {
                lemma_deep_index(xs@, i as int);
            }
            let d = self.evaluate_polynomial(&numerators[i], &xs[i]);
            if big_eq(&d, &zero) {
                proof {
                    assert(lag_denom(pv, dxs, i as int) == 0);
                }
                return Err(FriError::InvalidInput);
            }
            denoms.push(d);
            i += 1;
        }
        proof {
            assert(deep(denoms@) =~= lag_denoms(pv, dxs));
        }
        let dinvs = match self.batch_inverse(&denoms) {
            Ok(v) => v,
            Err(e) => {
                proof {
                    assert forall|x: nat| !is_inv(pv, prod_nz(pv, lag_denoms(pv, dxs)), x) by {
                        assert(!is_inv(pv, prod_nz(pv, deep(denoms@)), x));
                    }
                    assert forall|ii: int| 0 <= ii < xs@.len() implies lag_denom(pv, dxs, ii)
                        != 0 by {
                        assert(big(denoms@[ii]) == lag_denom(pv, dxs, ii));
                    }
                }
                return Err(FriError::DivisionByZero);
            },
        };
        let ghost dinv_seq = deep(dinvs@);
        proof {
            assert forall|t: int| 0 <= t < n implies is_inv(pv, lag_denom(pv, dxs, t), dinv_seq[t])
                by {
                lemma_deep_index(dinvs@, t);
                lemma_deep_index(denoms@, t);
                assert(deep(denoms@)[t] != 0);
                assert(is_inv(pv, deep(denoms@)[t], big(dinvs@[t])));
            }
        }
        let mut out: Vec<BigUint> = Vec::new();
        i = 0;
        while i < n
            invariant
                big(zero) == 0,
                i <= n,
                out@.len() == i,
                forall|t: int| 0 <= t < i ==> #[trigger] big(out@[t]) == 0,
            decreases n - i,
        {
            out.push(big_from_u64(0));
            i += 1;
        }
        proof {
            assert(deep(out@) =~= lag_acc(pv, dxs, dys, dinv_seq, 0));
        }
        i = 0;
        while i < n
            invariant
                self.wf(),
                self.modulus() == pv,
                deep(xs@) == dxs,
                deep(ys@) == dys,
                canon(pv, dxs),
                canon(pv, dys),
                n == xs@.len(),
                n == ys@.len(),
                n >= 1,
                numerators@.len() == n,
                forall|t: int|
                    0 <= t < n ==> {
                        &&& deep(#[trigger] numerators@[t]@) == lag_numer(pv, dxs, t)
                        &&& numerators@[t]@.len() == n
                        &&& canon(pv, deep(numerators@[t]@))
                    },
                dinvs@.len() == n,
                deep(dinvs@) == dinv_seq,
                forall|t: int|
                    0 <= t < n ==> is_inv(pv, #[trigger] lag_denom(pv, dxs, t), dinv_seq[t]),
                i <= n,
                out@.len() == n,
                deep(out@) == lag_acc(pv, dxs, dys, dinv_seq, i as int),
                canon(pv, deep(out@)),
            decreases n - i,
        {
            proof {
                lemma_deep_index(ys@, i as int);
                lemma_deep_index(dinvs@, i as int);
                assert(big(dinvs@[i as int]) == dinv_seq[i as int]);
                assert(is_inv(pv, lag_denom(pv, dxs, i as int), dinv_seq[i as int]));
            }
            let yslice = self.mul(&ys[i], &dinvs[i]);
            let mut nout: Vec<BigUint> = Vec::new();
            let mut j: usize = 0;
            while j < n
                invariant
                    self.wf(),
                    self.modulus() == pv,
                    deep(xs@) == dxs,
                    deep(ys@) == dys,
                    n == ys@.len(),
                    i < n,
                    numerators@.len() == n,
                    forall|t: int|
                        0 <= t < n ==> {
                            &&& deep(#[trigger] numerators@[t]@) == lag_numer(pv, dxs, t)
                            &&& numerators@[t]@.len() == n
                            &&& canon(pv, deep(numerators@[t]@))
                        },
                    dinv_seq.len() == n,
                    big(yslice) == fmul(pv, dys[i as int], dinv_seq[i as int]),
                    big(yslice) < pv,
                    out@.len() == n,
                    canon(pv, deep(out@)),
                    j <= n,
                    nout@.len() == j,
                    forall|t: int|
                        0 <= t < j ==> #[trigger] big(nout@[t]) == fadd(
                            pv,
                            deep(out@)[t],
                            fmul(pv, pget(lag_numer(pv, dxs, i as int), t), big(yslice)),
                        ) && big(nout@[t]) < pv,
                decreases n - j,
            {
                proof {
                    lemma_deep_index(numerators@[i as int]@, j as int);
                    lemma_deep_index(out@, j as int);
                }
                let term = self.mul(&numerators[i][j], &yslice);
                nout.push(self.add(&out[j], &term));
                j += 1;
            }
            proof {
                assert(deep(nout@) =~= padd_s(
                    pv,
                    deep(out@),
                    lag_row(pv, dxs, dys, dinv_seq, i as int),
                ));
                assert(lag_acc(pv, dxs, dys, dinv_seq, i + 1) == padd_s(
                    pv,
                    lag_acc(pv, dxs, dys, dinv_seq, i as int),
                    lag_row(pv, dxs, dys, dinv_seq, i as int),
                ));
            }
            out = nout;
            i += 1;
        }
        proof {
            assert forall|dv: Seq<nat>|
                (dv.len() == xs@.len() && (forall|t: int|
                    0 <= t < xs@.len() ==> is_inv(
                        pv,
                        #[trigger] lag_denom(pv, dxs, t),
                        dv[t],
                    ))) implies deep(out@) == lag_acc(pv, dxs, dys, dv, xs@.len() as int) by {
                assert forall|t: int| 0 <= t < n implies dv[t] == dinv_seq[t] by {
                    lemma_inv_unique(pv, lag_denom(pv, dxs, t), dv[t], dinv_seq[t]);
                }
                assert(dv =~= dinv_seq);
            }
        }
        Ok(out)
    }

    /// Montgomery batch inversion: every entry inverted at the cost of one
    /// inversion and a linear number of multiplications.
    ///
    /// A zero entry yields a zero output at its position and is left out of
    /// the running product, so sparse zeros do not fail the whole batch.
    pub fn batch_inverse(&self, values: &Vec<BigUint>) -> (r: Result<Vec<BigUint>, FriError>)
        requires
            self.wf(),
            canon(self.modulus(), deep(values@)),
        ensures
            r is Ok <==> exists|x: nat|
                is_inv(self.modulus(), prod_nz(self.modulus(), deep(values@)), x),
            r matches Ok(out) ==> {
                &&& out@.len() == values@.len()
                &&& forall|i: int|
                    0 <= i < values@.len() ==> {
                        &&& (deep(values@)[i] == 0 ==> #[trigger] big(out@[i]) == 0)
                        &&& (deep(values@)[i] != 0 ==> is_inv(
                            self.modulus(),
                            deep(values@)[i],
                            big(out@[i]),
                        ))
                    }
            },
            r matches Err(e) ==> e == FriError::DivisionByZero,
    {
        let ghost pv = self.modulus();
        let ghost vs = deep(values@);
        let n = values.len();
        let zero = big_from_u64(0);
        let mut partials: Vec<BigUint> = Vec::new();
        partials.push(big_from_u64(1));
        proof {
            assert(vs.take(0) =~= Seq::<nat>::empty());
        }
        let mut i: usize = 0;
        while i < n
            invariant
                self.wf(),
                self.modulus() == pv,
                deep(values@) == vs,
                canon(pv, vs),
                big(zero) == 0,
                n == values@.len(),
                i <= n,
                partials@.len() == i + 1,
                forall|j: int|
                    0 <= j <= i ==> #[trigger] big(partials@[j]) == prod_nz(pv, vs.take(j))
                        && big(partials@[j]) < pv,
            decreases n - i,
        {
            proof {
                lemma_prod_nz_take_step(pv, vs, i as int);
            }
            let next = if big_eq(&values[i], &zero) {
                big_clone(&partials[i])
            } else {
                self.mul(&partials[i], &values[i])
            };
            partials.push(next);
            i += 1;
        }
        proof {
            assert(vs.take(n as int) =~= vs);
        }
        let inv_total = match self.mod_inverse(&partials[n]) {
            Ok(v) => v,
            Err(e) => {
                proof {
                    assert(big(partials@[n as int]) == prod_nz(pv, vs));
                    assert forall|x: nat| !is_inv(pv, prod_nz(pv, vs), x) by {
                        assert(!is_inv(pv, big(partials@[n as int]), x));
                    }
                }
                return Err(e);
            },
        };
        let ghost witness = big(inv_total);
        proof {
            assert(is_inv(pv, prod_nz(pv, vs), witness));
        }
        // Walk backward: `inv` always inverts the product of the nonzero
        // entries of the prefix still to be processed.
        let mut rev: Vec<BigUint> = Vec::new();
        let mut inv = inv_total;
        let mut k: usize = n;
        while k > 0
            invariant
                self.wf(),
                self.modulus() == pv,
                deep(values@) == vs,
                canon(pv, vs),
                big(zero) == 0,
                n == values@.len(),
                k <= n,
                partials@.len() == n + 1,
                forall|j: int|
                    0 <= j <= n ==> #[trigger] big(partials@[j]) == prod_nz(pv, vs.take(j))
                        && big(partials@[j]) < pv,
                rev@.len() == n - k,
                big(inv) < pv,
                (prod_nz(pv, vs.take(k as int)) * big(inv)) % pv == 1,
                forall|j: int|
                    0 <= j < n - k ==> {
                        &&& (vs[n - 1 - j] == 0 ==> #[trigger] big(rev@[j]) == 0)
                        &&& (vs[n - 1 - j] != 0 ==> is_inv(pv, vs[n - 1 - j], big(rev@[j])))
                    },
            decreases k,
        {
            let idx = k - 1;
            proof {
                lemma_prod_nz_take_step(pv, vs, idx as int);
            }
            if big_eq(&values[idx], &zero) {
                rev.push(big_from_u64(0));
            } else {
                let o = self.mul(&partials[idx], &inv);
                let ninv = self.mul(&inv, &values[idx]);
                proof {
                    let pi = prod_nz(pv, vs.take(idx as int));
                    let v = vs[idx as int];
                    let iv = big(inv);
                    // ((pi * v) % p * iv) % p == 1, so ((pi * v) * iv) % p == 1
                    lemma_mul_mod_noop_left((pi * v) as int, iv as int, pv as int);
                    // the output inverts v
                    lemma_mul_mod_noop_right(v as int, (pi * iv) as int, pv as int);
                    assert(v * (pi * iv) == (pi * v) * iv) by (nonlinear_arith);
                    assert((v * big(o)) % pv == 1);
                    // the new accumulator inverts the shorter prefix product
                    lemma_mul_mod_noop_right(pi as int, (iv * v) as int, pv as int);
                    assert(pi * (iv * v) == (pi * v) * iv) by (nonlinear_arith);
                    assert((pi * big(ninv)) % pv == 1);
                }
                rev.push(o);
                inv = ninv;
            }
            k = idx;
        }
        let mut out: Vec<BigUint> = Vec::new();
        let mut j: usize = 0;
        while j < n
            invariant
                deep(values@) == vs,
                n == values@.len(),
                rev@.len() == n,
                j <= n,
                out@.len() == j,
                forall|t: int|
                    0 <= t < n ==> {
                        &&& (vs[n - 1 - t] == 0 ==> #[trigger] big(rev@[t]) == 0)
                        &&& (vs[n - 1 - t] != 0 ==> is_inv(pv, vs[n - 1 - t], big(rev@[t])))
                    },
                forall|t: int|
                    0 <= t < j ==> {
                        &&& (vs[t] == 0 ==> #[trigger] big(out@[t]) == 0)
                        &&& (vs[t] != 0 ==> is_inv(pv, vs[t], big(out@[t])))
                    },
            decreases n - j,
        {
            out.push(big_clone(&rev[n - 1 - j]));
            j += 1;
        }
        Ok(out)
    }

    /// Horner evaluation of a polynomial at `x`: the reduced value of the
    /// sum of `c_i * x^i` over all coefficients.
    pub fn evaluate_polynomial(&self, polynomial: &Vec<BigUint>, x: &BigUint) -> (r: BigUint)
        requires
            self.wf(),
            canon(self.modulus(), deep(polynomial@)),
            big(*x) < self.modulus(),
        ensures
            big(r) == horner(self.modulus(), deep(polynomial@), big(*x)),
            big(r) as int == crate::poly::poly_sum(deep(polynomial@), big(*x)) % (
            self.modulus() as int),
            big(r) < self.modulus(),
    {
        proof {
            crate::poly::lemma_horner_is_poly_sum(self.modulus(), deep(polynomial@), big(*x));
        }
        let ghost pv = self.modulus();
        let ghost ps = deep(polynomial@);
        let ghost xv = big(*x);
        let mut y = big_from_u64(0);
        let mut i: usize = polynomial.len();
        proof {
            assert(ps.skip(i as int) =~= Seq::<nat>::empty());
        }
        while i > 0
            invariant
                self.wf(),
                self.modulus() == pv,
                deep(polynomial@) == ps,
                canon(pv, ps),
                big(*x) == xv,
                xv < pv,
                i <= polynomial@.len(),
                big(y) == horner(pv, ps.skip(i as int), xv),
                big(y) < pv,
            decreases i,
        {
            i = i - 1;
            proof {
                lemma_deep_index(polynomial@, i as int);
            }
            let t = self.mul(x, &y);
            y = self.add(&polynomial[i], &t);
            proof {
                assert(ps.skip(i as int).drop_first() =~= ps.skip(i as int + 1));
                assert(ps.skip(i as int)[0] == ps[i as int]);
            }
        }
        proof {
            assert(ps.skip(0) =~= ps);
        }
        y
    }

    /// Elementwise reduced sum over the zero-extended common length.
    pub fn add_polynomial(&self, a: &Vec<BigUint>, b: &Vec<BigUint>) -> (r: Vec<BigUint>)
        requires
            self.wf(),
            canon(self.modulus(), deep(a@)),
            canon(self.modulus(), deep(b@)),
        ensures
            deep(r@) == padd_s(self.modulus(), deep(a@), deep(b@)),
            r@.len() == pmaxlen(deep(a@), deep(b@)),
            canon(self.modulus(), deep(r@)),
    {
        let ghost pv = self.modulus();
        let ghost da = deep(a@);
        let ghost db = deep(b@);
        let n = if a.len() >= b.len() {
            a.len()
        } else {
            b.len()
        };
        let zero = big_from_u64(0);
        let mut out: Vec<BigUint> = Vec::new();
        let mut i: usize = 0;
        while i < n
            invariant
                self.wf(),
                self.modulus() == pv,
                deep(a@) == da,
                deep(b@) == db,
                canon(pv, da),
                canon(pv, db),
                big(zero) == 0,
                n == pmaxlen(da, db),
                n <= usize::MAX,
                i <= n,
                out@.len() == i,
                forall|t: int|
                    0 <= t < i ==> #[trigger] big(out@[t]) == fadd(pv, pget(da, t), pget(db, t))
                        && big(out@[t]) < pv,
            decreases n - i,
        {
            proof {
                if i < a@.len() {
                    lemma_deep_index(a@, i as int);
                }
                if i < b@.len() {
                    lemma_deep_index(b@, i as int);
                }
            }
            let ai = if i < a.len() {
                &a[i]
            } else {
                &zero
            };
            let bi = if i < b.len() {
                &b[i]
            } else {
                &zero
            };
            out.push(self.add(ai, bi));
            i += 1;
        }
        proof {
            assert(deep(out@) =~= padd_s(pv, da, db));
        }
        out
    }

    /// Elementwise reduced difference over the zero-extended common length,
    /// normalized into `[0, p)` even where the raw difference is negative.
    pub fn sub_polynomial(&self, a: &Vec<BigUint>, b: &Vec<BigUint>) -> (r: Vec<BigUint>)
        requires
            self.wf(),
            canon(self.modulus(), deep(a@)),
            canon(self.modulus(), deep(b@)),
        ensures
            deep(r@) == psub_s(self.modulus(), deep(a@), deep(b@)),
            r@.len() == pmaxlen(deep(a@), deep(b@)),
            canon(self.modulus(), deep(r@)),
    {
        let ghost pv = self.modulus();
        let ghost da = deep(a@);
        let ghost db = deep(b@);
        let n = if a.len() >= b.len() {
            a.len()
        } else {
            b.len()
        };
        let zero = big_from_u64(0);
        let mut out: Vec<BigUint> = Vec::new();
        let mut i: usize = 0;
        while i < n
            invariant
                self.wf(),
                self.modulus() == pv,
                deep(a@) == da,
                deep(b@) == db,
                canon(pv, da),
                canon(pv, db),
                big(zero) == 0,
                n == pmaxlen(da, db),
                i <= n,
                out@.len() == i,
                forall|t: int|
                    0 <= t < i ==> #[trigger] big(out@[t]) == fsub(pv, pget(da, t), pget(db, t))
                        && big(out@[t]) < pv,
            decreases n - i,
        {
            proof {
                if i < a@.len() {
                    lemma_deep_index(a@, i as int);
                }
                if i < b@.len() {
                    lemma_deep_index(b@, i as int);
                }
            }
            let ai = if i < a.len() {
                &a[i]
            } else {
                &zero
            };
            let bi = if i < b.len() {
                &b[i]
            } else {
                &zero
            };
            out.push(self.sub(ai, bi));
            i += 1;
        }
        proof {
            assert(deep(out@) =~= psub_s(pv, da, db));
        }
        out
    }

    /// Dense convolution: the product polynomial, of length `|a| + |b| - 1`,
    /// every output coefficient reduced.
    pub fn mul_polynomial(&self, a: &Vec<BigUint>, b: &Vec<BigUint>) -> (r: Vec<BigUint>)
        requires
            self.wf(),
            canon(self.modulus(), deep(a@)),
            canon(self.modulus(), deep(b@)),
            a@.len() + b@.len() >= 1,
            a@.len() + b@.len() <= usize::MAX,
        ensures
            deep(r@) == pmul_s(self.modulus(), deep(a@), deep(b@)),
            r@.len() == a@.len() + b@.len() - 1,
            canon(self.modulus(), deep(r@)),
    {
        let ghost pv = self.modulus();
        let ghost da = deep(a@);
        let ghost db = deep(b@);
        let n = a.len() + b.len() - 1;
        let mut out: Vec<BigUint> = Vec::new();
        let mut t: usize = 0;
        while t < n
            invariant
                self.wf(),
                self.modulus() == pv,
                deep(a@) == da,
                deep(b@) == db,
                canon(pv, da),
                canon(pv, db),
                n == da.len() + db.len() - 1,
                t <= n,
                out@.len() == t,
                forall|s: int|
                    0 <= s < t ==> #[trigger] big(out@[s]) == conv_at(pv, da, db, s, da.len() as int)
                        && big(out@[s]) < pv,
            decreases n - t,
        {
            let mut acc = big_from_u64(0);
            let mut k: usize = 0;
            while k < a.len()
                invariant
                    self.wf(),
                    self.modulus() == pv,
                    deep(a@) == da,
                    deep(b@) == db,
                    canon(pv, da),
                    canon(pv, db),
                    t < n,
                    n == da.len() + db.len() - 1,
                    k <= a@.len(),
                    big(acc) == conv_at(pv, da, db, t as int, k as int),
                    big(acc) < pv,
                decreases a@.len() - k,
            {
                if k <= t && t - k < b.len() {
                    proof {
                        lemma_deep_index(a@, k as int);
                        lemma_deep_index(b@, (t - k) as int);
                    }
                    let term = self.mul(&a[k], &b[t - k]);
                    acc = self.add(&acc, &term);
                } else {
                    proof {
                        lemma_small_mod(big(acc), pv);
                    }
                }
                k += 1;
            }
            out.push(acc);
            t += 1;
        }
        proof {
            assert(deep(out@) =~= pmul_s(pv, da, db));
        }
        out
    }

    /// Reduced quotient: `a` times the inverse of `b`; `DivisionByZero` when
    /// `b` has no inverse, in particular when `b == 0`.
    pub fn div(&self, a: &BigUint, b: &BigUint) -> (r: Result<BigUint, FriError>)
        requires
            self.wf(),
            big(*a) < self.modulus(),
            big(*b) < self.modulus(),
        ensures
            r is Ok <==> exists|x: nat| is_inv(self.modulus(), big(*b), x),
            r matches Ok(v) ==> big(v) < self.modulus() && forall|x: nat|
                is_inv(self.modulus(), big(*b), x) ==> big(v) == fmul(
                    self.modulus(),
                    big(*a),
                    x,
                ),
            r matches Err(e) ==> e == FriError::DivisionByZero,
            big(*b) == 0 ==> r is Err,
    {
        match self.mod_inverse(b) {
            Ok(inv) => {
                let v = self.mul(a, &inv);
                proof {
                    assert forall|x: nat| is_inv(self.modulus(), big(*b), x) implies big(v)
                        == fmul(self.modulus(), big(*a), x) by {
                        crate::modular::lemma_inv_unique(self.modulus(), big(*b), x, big(inv));
                    }
                }
                Ok(v)
            },
            Err(e) => Err(e),
        }
    }
}

} // verus!
