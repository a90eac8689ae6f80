//! The number-theoretic transform: multiplicative domains generated by a
//! root of unity, and the forward and inverse transforms over them, by
//! recursive radix-2 decimation with a direct summation base case.
//!
//! The direct base case negates the standard summation; the recursive
//! butterfly composes with that sign consistently, and the inverse transform
//! (reversed domain, scaled by the inverse of the domain size) undoes the
//! forward one.

use vstd::prelude::*;
use num_bigint::BigUint;
use crate::bignum::{big, big_clone, big_eq, big_from_u64, deep, lemma_deep_index};
use crate::modular::{
    canon, fadd, fmul, fsub, is_inv, is_order, is_pow2, lemma_inv_unique, pow_mod,
};
use crate::prime_field::PrimeField;
use crate::FriError;
use vstd::arithmetic::div_mod::lemma_small_mod;

verus! {

/// The bound on how many multiplications may search for the generator's
/// return to `1`: a generator of larger order is rejected as `InvalidDomain`
/// rather than looped after.
pub const ORDER_CAP: usize = 65536;

/// The entries at even indices.
pub open spec fn evens(s: Seq<nat>) -> Seq<nat> {
    Seq::new(((s.len() + 1) / 2) as nat, |i: int| s[2 * i])
}

/// The entries at odd indices.
pub open spec fn odds(s: Seq<nat>) -> Seq<nat> {
    Seq::new((s.len() / 2) as nat, |i: int| s[2 * i + 1])
}

/// Running reduced sum of the first `k` direct-summation terms of output
/// `i`: the products `v[j] * d[(i * j) % n]`.
pub open spec fn ft_sum(p: nat, v: Seq<nat>, d: Seq<nat>, i: int, k: int) -> nat
    decreases k,
{
    if k <= 0 {
        0
    } else {
        let j = k - 1;
        fadd(p, ft_sum(p, v, d, i, j), fmul(p, v[j], d[(i * j) % (d.len() as int)]))
    }
}

/// One output of the direct transform: the negated reduced summation.
pub open spec fn ft_point(p: nat, v: Seq<nat>, d: Seq<nat>, i: int) -> nat {
    fsub(p, 0, ft_sum(p, v, d, i, v.len() as int))
}

/// The direct transform of `v` over domain `d` (equal lengths).
pub open spec fn ft_all(p: nat, v: Seq<nat>, d: Seq<nat>) -> Seq<nat> {
    Seq::new(v.len(), |i: int| ft_point(p, v, d, i))
}

/// The recursive radix-2 transform: sizes of four and below (and odd sizes)
/// fall back to the direct summation; larger even sizes split values and
/// domain into even- and odd-indexed halves, recurse against the squared
/// domain (its even-indexed entries), and recombine with the butterfly.
pub open spec fn fft_s(p: nat, v: Seq<nat>, d: Seq<nat>) -> Seq<nat>
    decreases v.len(),
{
    if v.len() <= 4 || v.len() % 2 == 1 {
        ft_all(p, v, d)
    } else {
        let e = fft_s(p, evens(v), evens(d));
        let o = fft_s(p, odds(v), evens(d));
        let half = v.len() / 2;
        Seq::new(
            v.len(),
            |i: int|
                if i < half {
                    fadd(p, e[i], fmul(p, d[i], o[i]))
                } else {
                    fsub(p, e[i - half], fmul(p, d[i - half], o[i - half]))
                },
        )
    }
}

/// The ascending powers `g^0 .. g^(m-1)`.
pub open spec fn dom_of(p: nat, g: nat, m: nat) -> Seq<nat> {
    Seq::new(m, |i: int| pow_mod(p, g, i))
}

/// The powers used by the inverse transform: `g^m (== 1), g^(m-1), .., g^1`,
/// the forward domain read backward with the leading `1` left out.
pub open spec fn rev_dom(p: nat, g: nat, m: nat) -> Seq<nat> {
    Seq::new(m, |i: int| pow_mod(p, g, m - i))
}

/// The inverse transform: the recursive transform over the reversed domain,
/// scaled by `minv`, the inverse of the domain size.
pub open spec fn inv_fft_s(p: nat, v: Seq<nat>, g: nat, m: nat, minv: nat) -> Seq<nat> {
    let y = fft_s(p, crate::poly::pext(v, m), rev_dom(p, g, m));
    Seq::new(y.len(), |i: int| fmul(p, y[i], minv))
}

/// A generator has at most one order.
pub proof fn lemma_order_unique(p: nat, b: nat, m1: nat, m2: nat)
    requires
        is_order(p, b, m1),
        is_order(p, b, m2),
    ensures
        m1 == m2,
{
    if m1 < m2 {
        assert(pow_mod(p, b, m1 as int) != 1);
    }
    if m2 < m1 {
        assert(pow_mod(p, b, m2 as int) != 1);
    }
}

/// The transform component: a field together with the domain machinery.
pub struct FFT {
    field: PrimeField,
}

impl FFT {
    /// The modulus of the underlying field.
    pub closed spec fn modulus(&self) -> nat {
        self.field.modulus()
    }

    /// The underlying field is well formed.
    pub open spec fn wf(&self) -> bool {
        self.modulus() >= 2
    }

    /// A transform over the given field.
    pub fn new(field: PrimeField) -> (r: FFT)
        ensures
            r.modulus() == field.modulus(),
    {
        FFT { field }
    }

    /// The ordered powers `[1, g, g^2, .., g^(n-1), 1]` of the generator:
    /// repeated reduced multiplication until the product returns to `1`,
    /// where `n` is the generator's multiplicative order. A generator that
    /// does not return to `1` within `ORDER_CAP` steps is rejected.
    pub fn build_root_of_unity(&self, root_of_unity: &BigUint) -> (r: Result<Vec<BigUint>, FriError>)
        requires
            self.wf(),
            big(*root_of_unity) < self.modulus(),
        ensures
            r is Ok <==> exists|m: nat|
                is_order(self.modulus(), big(*root_of_unity), m) && m <= ORDER_CAP as nat,
            r matches Ok(d) ==> {
                &&& 2 <= d@.len() <= ORDER_CAP + 1
                &&& forall|i: int|
                    0 <= i < d@.len() ==> #[trigger] big(d@[i]) == pow_mod(
                        self.modulus(),
                        big(*root_of_unity),
                        i,
                    ) && big(d@[i]) < self.modulus()
                &&& is_order(self.modulus(), big(*root_of_unity), (d@.len() - 1) as nat)
            },
            r matches Err(e) ==> e == FriError::InvalidDomain,
    {
        let ghost pv = self.modulus();
        let ghost gv = big(*root_of_unity);
        let one = big_from_u64(1);
        let mut result: Vec<BigUint> = Vec::new();
        result.push(big_from_u64(1));
        result.push(big_clone(root_of_unity));
        proof {
            lemma_small_mod(1, pv);
            lemma_small_mod(gv, pv);
            crate::modular::lemma_fmul_one(pv, gv);
            assert(pow_mod(pv, gv, 0) == 1);
            assert(pow_mod(pv, gv, 1) == fmul(pv, 1nat, gv));
        }
        let mut k: usize = 1;
        while k < ORDER_CAP && !big_eq(&result[k], &one)
            invariant
                self.wf(),
                self.modulus() == pv,
                big(*root_of_unity) == gv,
                gv < pv,
                big(one) == 1,
                1 <= k <= ORDER_CAP,
                result@.len() == k + 1,
                forall|i: int|
                    0 <= i <= k ==> #[trigger] big(result@[i]) == pow_mod(pv, gv, i) && big(
                        result@[i],
                    ) < pv,
                forall|i: int| 1 <= i < k ==> #[trigger] pow_mod(pv, gv, i) != 1,
            decreases ORDER_CAP - k,
        {
            let next = self.field.mul(&result[k], root_of_unity);
            result.push(next);
            k += 1;
        }
        if big_eq(&result[k], &one) {
            proof {
                assert(is_order(pv, gv, k as nat));
            }
            Ok(result)
        } else {
            proof {
                assert(k == ORDER_CAP);
                assert forall|m: nat| !(is_order(pv, gv, m) && m <= ORDER_CAP as nat) by {
                    if is_order(pv, gv, m) && m <= ORDER_CAP as nat {
                        assert(pow_mod(pv, gv, m as int) == 1);
                        if m < k as nat {
                            assert(pow_mod(pv, gv, m as int) != 1);
                        } else {
                            assert(m == k as nat);
                            assert(big(result@[k as int]) == pow_mod(pv, gv, k as int));
                        }
                    }
                }
            }
            Err(FriError::InvalidDomain)
        }
    }

    /// One output of the direct transform, the negated summation
    /// `-(sum of v[j] * d[(i*j) % n])`, reduced into `[0, p)`.
    pub fn compute_ft(&self, values: &Vec<BigUint>, domain: &Vec<BigUint>) -> (r: Vec<BigUint>)
        requires
            self.wf(),
            canon(self.modulus(), deep(values@)),
            canon(self.modulus(), deep(domain@)),
            values@.len() == domain@.len(),
            values@.len() <= 65536,
        ensures
            deep(r@) == ft_all(self.modulus(), deep(values@), deep(domain@)),
            r@.len() == values@.len(),
            canon(self.modulus(), deep(r@)),
    {
        let ghost pv = self.modulus();
        let ghost dv = deep(values@);
        let ghost dd = deep(domain@);
        let n = values.len();
        let zero = big_from_u64(0);
        let mut out: Vec<BigUint> = Vec::new();
        let mut i: usize = 0;
        while i < n
            invariant
                self.wf(),
                self.modulus() == pv,
                deep(values@) == dv,
                deep(domain@) == dd,
                canon(pv, dv),
                canon(pv, dd),
                big(zero) == 0,
                n == values@.len(),
                n == domain@.len(),
                n <= 65536,
                i <= n,
                out@.len() == i,
                forall|t: int|
                    0 <= t < i ==> #[trigger] big(out@[t]) == ft_point(pv, dv, dd, t) && big(
                        out@[t],
                    ) < pv,
            decreases n - i,
        {
            let mut acc = big_from_u64(0);
            let mut j: usize = 0;
            while j < n
                invariant
                    self.wf(),
                    self.modulus() == pv,
                    deep(values@) == dv,
                    deep(domain@) == dd,
                    canon(pv, dv),
                    canon(pv, dd),
                    n == values@.len(),
                    n == domain@.len(),
                    n <= 65536,
                    i < n,
                    j <= n,
                    big(acc) == ft_sum(pv, dv, dd, i as int, j as int),
                    big(acc) < pv,
                decreases n - j,
            {
                proof {
                    vstd::arithmetic::mul::lemma_mul_upper_bound(i as int, 65535, j as int, 65535);
                }
                let idx = (i * j) % n;
                proof {
                    lemma_deep_index(values@, j as int);
                    lemma_deep_index(domain@, idx as int);
                }
                let t = self.field.mul(&values[j], &domain[idx]);
                acc = self.field.add(&acc, &t);
                j += 1;
            }
            out.push(self.field.sub(&zero, &acc));
            i += 1;
        }
        proof {
            assert(deep(out@) =~= ft_all(pv, dv, dd));
        }
        out
    }

    /// The recursive transform. Sizes of four and below (and odd sizes) go to
    /// the direct summation; larger even sizes recurse on the even- and
    /// odd-indexed halves against the squared domain and recombine with the
    /// butterfly `e[i] +/- d[i] * o[i]`.
    pub fn compute_fft(&self, values: &Vec<BigUint>, domain: &Vec<BigUint>) -> (r: Vec<BigUint>)
        requires
            self.wf(),
            canon(self.modulus(), deep(values@)),
            canon(self.modulus(), deep(domain@)),
            values@.len() == domain@.len(),
            values@.len() <= 65536,
        ensures
            deep(r@) == fft_s(self.modulus(), deep(values@), deep(domain@)),
            r@.len() == values@.len(),
            canon(self.modulus(), deep(r@)),
        decreases values@.len(),
    {
        let ghost pv = self.modulus();
        let ghost dv = deep(values@);
        let ghost dd = deep(domain@);
        let n = values.len();
        if n <= 4 || n % 2 == 1 {
            return self.compute_ft(values, domain);
        }
        let half = n / 2;
        let mut ev: Vec<BigUint> = Vec::new();
        let mut ov: Vec<BigUint> = Vec::new();
        let mut ed: Vec<BigUint> = Vec::new();
        let mut i: usize = 0;
        while i < half
            invariant
                deep(values@) == dv,
                deep(domain@) == dd,
                n == values@.len(),
                n == domain@.len(),
                half == n / 2,
                n % 2 == 0,
                n >= 6,
                i <= half,
                ev@.len() == i,
                ov@.len() == i,
                ed@.len() == i,
                forall|t: int| 0 <= t < i ==> #[trigger] big(ev@[t]) == dv[2 * t],
                forall|t: int| 0 <= t < i ==> #[trigger] big(ov@[t]) == dv[2 * t + 1],
                forall|t: int| 0 <= t < i ==> #[trigger] big(ed@[t]) == dd[2 * t],
            decreases half - i,
        {
            proof {
                lemma_deep_index(values@, 2 * i as int);
                lemma_deep_index(values@, 2 * i as int + 1);
                lemma_deep_index(domain@, 2 * i as int);
            }
            ev.push(big_clone(&values[2 * i]));
            ov.push(big_clone(&values[2 * i + 1]));
            ed.push(big_clone(&domain[2 * i]));
            i += 1;
        }
        proof {
            assert(deep(ev@) =~= evens(dv));
            assert(deep(ov@) =~= odds(dv));
            assert(deep(ed@) =~= evens(dd));
            assert forall|t: int| 0 <= t < deep(ev@).len() implies deep(ev@)[t] < pv by {
                lemma_deep_index(ev@, t);
            }
            assert forall|t: int| 0 <= t < deep(ov@).len() implies deep(ov@)[t] < pv by {
                lemma_deep_index(ov@, t);
            }
            assert forall|t: int| 0 <= t < deep(ed@).len() implies deep(ed@)[t] < pv by {
                lemma_deep_index(ed@, t);
            }
        }
        let e = self.compute_fft(&ev, &ed);
        let o = self.compute_fft(&ov, &ed);
        let ghost es = deep(e@);
        let ghost os = deep(o@);
        let mut out: Vec<BigUint> = Vec::new();
        i = 0;
        while i < half
            invariant
                self.wf(),
                self.modulus() == pv,
                deep(values@) == dv,
                deep(domain@) == dd,
                canon(pv, dv),
                canon(pv, dd),
                n == values@.len(),
                n == domain@.len(),
                half == n / 2,
                n % 2 == 0,
                n >= 6,
                e@.len() == half,
                o@.len() == half,
                deep(e@) == es,
                deep(o@) == os,
                canon(pv, es),
                canon(pv, os),
                i <= half,
                out@.len() == i,
                forall|t: int|
                    0 <= t < i ==> #[trigger] big(out@[t]) == fadd(
                        pv,
                        es[t],
                        fmul(pv, dd[t], os[t]),
                    ) && big(out@[t]) < pv,
            decreases half - i,
        {
            proof {
                lemma_deep_index(e@, i as int);
                lemma_deep_index(o@, i as int);
                lemma_deep_index(domain@, i as int);
            }
            let m = self.field.mul(&domain[i], &o[i]);
            out.push(self.field.add(&e[i], &m));
            i += 1;
        }
        i = 0;
        while i < half
            invariant
                self.wf(),
                self.modulus() == pv,
                deep(values@) == dv,
                deep(domain@) == dd,
                canon(pv, dv),
                canon(pv, dd),
                n == values@.len(),
                n == domain@.len(),
                half == n / 2,
                n % 2 == 0,
                n >= 6,
                e@.len() == half,
                o@.len() == half,
                deep(e@) == es,
                deep(o@) == os,
                canon(pv, es),
                canon(pv, os),
                i <= half,
                out@.len() == half + i,
                forall|t: int|
                    0 <= t < half ==> #[trigger] big(out@[t]) == fadd(
                        pv,
                        es[t],
                        fmul(pv, dd[t], os[t]),
                    ) && big(out@[t]) < pv,
                forall|t: int|
                    half <= t < half + i ==> #[trigger] big(out@[t]) == fsub(
                        pv,
                        es[t - half],
                        fmul(pv, dd[t - half], os[t - half]),
                    ) && big(out@[t]) < pv,
            decreases half - i,
        {
            proof {
                lemma_deep_index(e@, i as int);
                lemma_deep_index(o@, i as int);
                lemma_deep_index(domain@, i as int);
            }
            let m = self.field.mul(&domain[i], &o[i]);
            out.push(self.field.sub(&e[i], &m));
            i += 1;
        }
        proof {
            assert(deep(out@) =~= fft_s(pv, dv, dd));
        }
        out
    }

    /// The forward transform: builds the generator's domain, zero-pads the
    /// values on the right to the domain size (the build output less its
    /// trailing `1`), and runs the recursive transform. The domain size must
    /// be a power of two and the values must fit in it.
    pub fn fft(&self, values: Vec<BigUint>, root_of_unity: &BigUint) -> (r: Result<
        Vec<BigUint>,
        FriError,
    >)
        requires
            self.wf(),
            canon(self.modulus(), deep(values@)),
            big(*root_of_unity) < self.modulus(),
        ensures
            r is Ok <==> exists|m: nat|
                is_order(self.modulus(), big(*root_of_unity), m) && m <= ORDER_CAP as nat
                    && is_pow2(m as int) && values@.len() <= m,
            r matches Ok(out) ==> exists|m: nat|
                {
                    &&& #[trigger] is_order(self.modulus(), big(*root_of_unity), m)
                    &&& m <= ORDER_CAP as nat
                    &&& is_pow2(m as int)
                    &&& values@.len() <= m
                    &&& deep(out@) == fft_s(
                        self.modulus(),
                        crate::poly::pext(deep(values@), m),
                        dom_of(self.modulus(), big(*root_of_unity), m),
                    )
                    &&& out@.len() == m
                    &&& canon(self.modulus(), deep(out@))
                },
            r matches Err(e) ==> (e == FriError::InvalidDomain || e == FriError::InvalidInput),
    {
        let ghost pv = self.modulus();
        let ghost gv = big(*root_of_unity);
        let ghost dv = deep(values@);
        let roots = match self.build_root_of_unity(root_of_unity) {
            Ok(d) => d,
            Err(_) => {
                return Err(FriError::InvalidDomain);
            },
        };
        let m = roots.len() - 1;
        let ghost mv = m as nat;
        if !pow2_check(m) {
            proof {
                assert forall|m2: nat|
                    !(is_order(pv, gv, m2) && m2 <= ORDER_CAP as nat && is_pow2(m2 as int)
                        && dv.len() <= m2) by {
                    if is_order(pv, gv, m2) {
                        lemma_order_unique(pv, gv, m2, mv);
                    }
                }
            }
            return Err(FriError::InvalidDomain);
        }
        if values.len() > m {
            proof {
                assert forall|m2: nat|
                    !(is_order(pv, gv, m2) && m2 <= ORDER_CAP as nat && is_pow2(m2 as int)
                        && dv.len() <= m2) by {
                    if is_order(pv, gv, m2) {
                        lemma_order_unique(pv, gv, m2, mv);
                    }
                }
            }
            return Err(FriError::InvalidInput);
        }
        let mut padded = values;
        while padded.len() < m
            invariant
                padded@.len() >= dv.len(),
                padded@.len() <= m,
                forall|t: int|
                    0 <= t < padded@.len() ==> #[trigger] big(padded@[t]) == crate::poly::pget(
                        dv,
                        t,
                    ),
            decreases m - padded@.len(),
        {
            padded.push(big_from_u64(0));
        }
        proof {
            assert(deep(padded@) =~= crate::poly::pext(dv, mv));
            assert forall|t: int| 0 <= t < deep(padded@).len() implies deep(padded@)[t] < pv by {
                lemma_deep_index(padded@, t);
            }
        }
        let mut dom: Vec<BigUint> = Vec::new();
        let mut i: usize = 0;
        while i < m
            invariant
                self.wf(),
                self.modulus() == pv,
                big(*root_of_unity) == gv,
                roots@.len() == m + 1,
                m <= ORDER_CAP,
                forall|t: int|
                    0 <= t < roots@.len() ==> #[trigger] big(roots@[t]) == pow_mod(pv, gv, t) && big(
                        roots@[t],
                    ) < pv,
                i <= m,
                dom@.len() == i,
                forall|t: int|
                    0 <= t < i ==> #[trigger] big(dom@[t]) == pow_mod(pv, gv, t) && big(dom@[t])
                        < pv,
            decreases m - i,
        {
            dom.push(big_clone(&roots[i]));
            i += 1;
        }
        proof {
            assert(deep(dom@) =~= dom_of(pv, gv, mv));
            assert forall|t: int| 0 <= t < deep(dom@).len() implies deep(dom@)[t] < pv by {
                lemma_deep_index(dom@, t);
            }
        }
        let out = self.compute_fft(&padded, &dom);
        proof {
            assert(is_order(pv, gv, mv) && mv <= ORDER_CAP as nat && is_pow2(mv as int) && dv.len()
                <= mv && deep(out@) == fft_s(pv, crate::poly::pext(dv, mv), dom_of(pv, gv, mv)));
        }
        Ok(out)
    }

    /// The inverse transform: the same padding over the reversed domain
    /// (the powers of the inverted generator), scaled at the end by the
    /// inverse of the domain size — the normalization that makes it undo the
    /// forward transform exactly.
    pub fn inv_fft(&self, values: Vec<BigUint>, root_of_unity: &BigUint) -> (r: Result<
        Vec<BigUint>,
        FriError,
    >)
        requires
            self.wf(),
            canon(self.modulus(), deep(values@)),
            big(*root_of_unity) < self.modulus(),
        ensures
            r is Ok <==> exists|m: nat|
                #[trigger] is_order(self.modulus(), big(*root_of_unity), m) && m <= ORDER_CAP as nat
                    && is_pow2(m as int) && values@.len() <= m && (exists|x: nat|
                    #[trigger] is_inv(self.modulus(), m % self.modulus(), x)),
            r matches Ok(out) ==> exists|m: nat|
                {
                    &&& #[trigger] is_order(self.modulus(), big(*root_of_unity), m)
                    &&& m <= ORDER_CAP as nat
                    &&& is_pow2(m as int)
                    &&& values@.len() <= m
                    &&& out@.len() == m
                    &&& canon(self.modulus(), deep(out@))
                    &&& forall|x: nat|
                        is_inv(self.modulus(), m % self.modulus(), x) ==> deep(out@) == inv_fft_s(
                            self.modulus(),
                            deep(values@),
                            big(*root_of_unity),
                            m,
                            x,
                        )
                },
            r matches Err(e) ==> (e == FriError::InvalidDomain || e == FriError::InvalidInput || e
                == FriError::DivisionByZero),
    {
        let ghost pv = self.modulus();
        let ghost gv = big(*root_of_unity);
        let ghost dv = deep(values@);
        let roots = match self.build_root_of_unity(root_of_unity) {
            Ok(d) => d,
            Err(_) => {
                return Err(FriError::InvalidDomain);
            },
        };
        let m = roots.len() - 1;
        let ghost mv = m as nat;
        if !pow2_check(m) {
            proof {
                assert forall|m2: nat|
                    !(is_order(pv, gv, m2) && m2 <= ORDER_CAP as nat && is_pow2(m2 as int)
                        && dv.len() <= m2 && (exists|x: nat|
                        #[trigger] is_inv(pv, m2 % pv, x))) by {
                    if is_order(pv, gv, m2) {
                        lemma_order_unique(pv, gv, m2, mv);
                    }
                }
            }
            return Err(FriError::InvalidDomain);
        }
        if values.len() > m {
            proof {
                assert forall|m2: nat|
                    !(is_order(pv, gv, m2) && m2 <= ORDER_CAP as nat && is_pow2(m2 as int)
                        && dv.len() <= m2 && (exists|x: nat|
                        #[trigger] is_inv(pv, m2 % pv, x))) by {
                    if is_order(pv, gv, m2) {
                        lemma_order_unique(pv, gv, m2, mv);
                    }
                }
            }
            return Err(FriError::InvalidInput);
        }
        let mm = self.field.reduce_u64(m as u64);
        let im = match self.field.mod_inverse(&mm) {
            Ok(v) => v,
            Err(_) => {
                proof {
                    assert forall|m2: nat|
                        !(is_order(pv, gv, m2) && m2 <= ORDER_CAP as nat && is_pow2(m2 as int)
                            && dv.len() <= m2 && (exists|x: nat|
                        #[trigger] is_inv(pv, m2 % pv, x))) by {
                        if is_order(pv, gv, m2) {
                            lemma_order_unique(pv, gv, m2, mv);
                            assert forall|x: nat| !(#[trigger] is_inv(pv, m2 % pv, x)) by {
                                assert(!is_inv(pv, big(mm), x));
                            }
                        }
                    }
                }
                return Err(FriError::DivisionByZero);
            },
        };
        let ghost imv = big(im);
        let mut padded = values;
        while padded.len() < m
            invariant
                padded@.len() >= dv.len(),
                padded@.len() <= m,
                forall|t: int|
                    0 <= t < padded@.len() ==> #[trigger] big(padded@[t]) == crate::poly::pget(
                        dv,
                        t,
                    ),
            decreases m - padded@.len(),
        {
            padded.push(big_from_u64(0));
        }
        proof {
            assert(deep(padded@) =~= crate::poly::pext(dv, mv));
            assert forall|t: int| 0 <= t < deep(padded@).len() implies deep(padded@)[t] < pv by {
                lemma_deep_index(padded@, t);
            }
        }
        let mut dom: Vec<BigUint> = Vec::new();
        let mut i: usize = 0;
        while i < m
            invariant
                self.wf(),
                self.modulus() == pv,
                big(*root_of_unity) == gv,
                roots@.len() == m + 1,
                m <= ORDER_CAP,
                forall|t: int|
                    0 <= t < roots@.len() ==> #[trigger] big(roots@[t]) == pow_mod(pv, gv, t) && big(
                        roots@[t],
                    ) < pv,
                i <= m,
                dom@.len() == i,
                forall|t: int|
                    0 <= t < i ==> #[trigger] big(dom@[t]) == pow_mod(pv, gv, m - t) && big(
                        dom@[t],
                    ) < pv,
            decreases m - i,
        {
            dom.push(big_clone(&roots[m - i]));
            i += 1;
        }
        proof {
            assert(deep(dom@) =~= rev_dom(pv, gv, mv));
            assert forall|t: int| 0 <= t < deep(dom@).len() implies deep(dom@)[t] < pv by {
                lemma_deep_index(dom@, t);
            }
        }
        let y = self.compute_fft(&padded, &dom);
        let ghost ys = deep(y@);
        let mut out: Vec<BigUint> = Vec::new();
        i = 0;
        while i < m
            invariant
                self.wf(),
                self.modulus() == pv,
                y@.len() == m,
                deep(y@) == ys,
                canon(pv, ys),
                big(im) == imv,
                imv < pv,
                i <= m,
                out@.len() == i,
                forall|t: int|
                    0 <= t < i ==> #[trigger] big(out@[t]) == fmul(pv, ys[t], imv) && big(out@[t])
                        < pv,
            decreases m - i,
        {
            proof {
                lemma_deep_index(y@, i as int);
            }
            out.push(self.field.mul(&y[i], &im));
            i += 1;
        }
        proof {
            assert(deep(out@) =~= inv_fft_s(pv, dv, gv, mv, imv));
            assert(is_inv(pv, mv % pv, imv));
            assert forall|x: nat| is_inv(pv, mv % pv, x) implies deep(out@) == inv_fft_s(
                pv,
                dv,
                gv,
                mv,
                x,
            ) by {
                lemma_inv_unique(pv, mv % pv, x, imv);
            }
            assert forall|t: int| 0 <= t < deep(out@).len() implies deep(out@)[t] < pv by {
                lemma_deep_index(out@, t);
            }
        }
        Ok(out)
    }
}

/// Whether a size is a power of two, by repeated halving.
fn pow2_check(n: usize) -> (b: bool)
    ensures
        b == is_pow2(n as int),
{
    if n == 0 {
        return false;
    }
    let mut m = n;
    while m % 2 == 0
        invariant
            m >= 1,
            is_pow2(n as int) == is_pow2(m as int),
        decreases m,
    {
        m = m / 2;
    }
    m == 1
}

} // verus!
