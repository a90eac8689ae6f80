//! The FRI folding recurrence: repeatedly halve an evaluation domain by
//! squaring it, evaluate the polynomial's even- and odd-indexed coefficient
//! halves over the halved domain, and combine them with a challenge scalar,
//! until the domain can no longer be halved meaningfully.

use vstd::prelude::*;
use num_bigint::BigUint;
use crate::bignum::{big, big_clone, big_from_u64, deep, lemma_deep_index};
use crate::fft::{evens, fft_s, odds, FFT, ORDER_CAP};
use crate::modular::{canon, fmul, is_order, pow_mod};
use crate::poly::{padd_s, pext, pget};
use crate::prime_field::PrimeField;
use crate::FriError;

verus! {

/// The halved domain: each entry squared, keeping only the first half, since
/// squaring a root of unity of order `n` is two-to-one onto the subgroup of
/// order `n / 2`.
pub open spec fn fold_domain_s(p: nat, d: Seq<nat>) -> Seq<nat> {
    Seq::new((d.len() / 2) as nat, |i: int| fmul(p, d[i], d[i]))
}

/// The folding recurrence. Each round halves the domain; once the halved
/// domain has two or fewer points the current layer is the result. Otherwise
/// the polynomial's even- and odd-indexed coefficients are evaluated over
/// the halved domain (zero-padded to its size), combined as
/// `even + challenge * odd`, and folded again. Coefficient halves that do
/// not fit the halved domain are rejected.
pub open spec fn fold_s(p: nat, domain: Seq<nat>, poly: Seq<nat>, x0: nat) -> Result<
    Seq<nat>,
    FriError,
>
    decreases domain.len(),
{
    let nd = fold_domain_s(p, domain);
    if nd.len() <= 2 {
        Ok(poly)
    } else if evens(poly).len() > nd.len() || odds(poly).len() > nd.len() {
        Err(FriError::InvalidInput)
    } else {
        let p0 = fft_s(p, pext(evens(poly), nd.len()), nd);
        let p1 = fft_s(p, pext(odds(poly), nd.len()), nd);
        let scaled = Seq::new(nd.len(), |i: int| fmul(p, x0, p1[i]));
        fold_s(p, nd, padd_s(p, p0, scaled), x0)
    }
}

/// The folding component: a field and a transform over the same modulus.
pub struct FRI {
    field: PrimeField,
    fft: FFT,
}

impl FRI {
    /// The modulus both members reduce by.
    pub closed spec fn modulus(&self) -> nat {
        self.field.modulus()
    }

    /// Both members carry the same modulus, at least `2`.
    pub closed spec fn wf(&self) -> bool {
        self.field.modulus() == self.fft.modulus() && self.modulus() >= 2
    }

    /// A folder over the 64-bit prime `2^64 - 2^32 + 1`, whose multiplicative
    /// group holds large power-of-two subgroups.
    pub fn new() -> (r: FRI)
        ensures
            r.wf(),
            r.modulus() == 18446744069414584321,
    {
        let p = big_from_u64(18446744069414584321u64);
        let field = PrimeField::new(p);
        let fft = FFT::new(field.duplicate());
        FRI { field, fft }
    }

    /// One full folding run on a fixed scenario: the domain of the generator
    /// `1753635133440165772`, the polynomial `[34, 2, 10, 17, 9]`, and the
    /// challenge `10`. The generator's order in this field is far above
    /// `ORDER_CAP`, so domain construction reports `InvalidDomain` rather
    /// than looping toward it.
    pub fn construct(&self) -> (r: Result<Vec<BigUint>, FriError>)
        requires
            self.wf(),
            self.modulus() == 18446744069414584321,
        ensures
            r is Ok <==> (exists|m: nat|
                #[trigger] is_order(self.modulus(), 1753635133440165772, m) && m <= ORDER_CAP as nat
                    && fold_s(
                    self.modulus(),
                    Seq::new((m + 1) as nat, |i: int| pow_mod(self.modulus(), 1753635133440165772, i)),
                    seq![34nat, 2nat, 10nat, 17nat, 9nat],
                    10,
                ) is Ok),
            r matches Err(e) ==> ((!exists|m: nat|
                #[trigger] is_order(self.modulus(), 1753635133440165772, m) && m
                    <= ORDER_CAP as nat) ==> e == FriError::InvalidDomain),
    {
        let ghost pv = self.modulus();
        let root_of_unity = big_from_u64(1753635133440165772u64);
        let domain = match self.fft.build_root_of_unity(&root_of_unity) {
            Ok(d) => d,
            Err(e) => {
                return Err(e);
            },
        };
        let ghost mv = (domain@.len() - 1) as nat;
        let mut polynomial: Vec<BigUint> = Vec::new();
        polynomial.push(big_from_u64(34));
        polynomial.push(big_from_u64(2));
        polynomial.push(big_from_u64(10));
        polynomial.push(big_from_u64(17));
        polynomial.push(big_from_u64(9));
        let challenge = big_from_u64(10);
        proof {
            assert(deep(polynomial@) =~= seq![34nat, 2nat, 10nat, 17nat, 9nat]);
            assert(deep(domain@) =~= Seq::new((mv + 1) as nat, |i: int| pow_mod(pv, 1753635133440165772, i)));
            assert forall|t: int| 0 <= t < deep(domain@).len() implies deep(domain@)[t] < pv by {
                lemma_deep_index(domain@, t);
            }
        }
        let r = self.fold(domain, polynomial, &challenge);
        proof {
            assert forall|m: nat|
                #[trigger] is_order(pv, 1753635133440165772, m) && m <= ORDER_CAP as nat implies m
                == mv by {
                crate::fft::lemma_order_unique(pv, 1753635133440165772, m, mv);
            }
        }
        r
    }

    /// The folding recurrence on explicit inputs; the terminal layer is the
    /// polynomial in hand once the halved domain has at most two points.
    pub fn fold(&self, domain: Vec<BigUint>, polynomial: Vec<BigUint>, x0: &BigUint) -> (r: Result<
        Vec<BigUint>,
        FriError,
    >)
        requires
            self.wf(),
            canon(self.modulus(), deep(domain@)),
            canon(self.modulus(), deep(polynomial@)),
            big(*x0) < self.modulus(),
            domain@.len() <= 131072,
        ensures
            r is Ok <==> fold_s(self.modulus(), deep(domain@), deep(polynomial@), big(*x0)) is Ok,
            r matches Ok(out) ==> (fold_s(self.modulus(), deep(domain@), deep(polynomial@), big(*x0))
                matches Ok(s) && s == deep(out@)),
            r matches Err(e) ==> (fold_s(self.modulus(), deep(domain@), deep(polynomial@), big(*x0))
                matches Err(e2) && e2 == e),
        decreases domain@.len(),
    {
        let ghost pv = self.modulus();
        let ghost ds = deep(domain@);
        let ghost ps = deep(polynomial@);
        let ghost x0v = big(*x0);
        let nd = self.fold_domain(&domain);
        let ghost nds = deep(nd@);
        if nd.len() <= 2 {
            return Ok(polynomial);
        }
        let n = polynomial.len();
        let mut even_part: Vec<BigUint> = Vec::new();
        let mut odd_part: Vec<BigUint> = Vec::new();
        let mut i: usize = 0;
        while i < n
            invariant
                deep(polynomial@) == ps,
                n == polynomial@.len(),
                i <= n,
                even_part@.len() == (i + 1) / 2,
                odd_part@.len() == i / 2,
                forall|t: int| 0 <= t < (i + 1) / 2 ==> #[trigger] big(even_part@[t]) == ps[2 * t],
                forall|t: int| 0 <= t < i / 2 ==> #[trigger] big(odd_part@[t]) == ps[2 * t + 1],
            decreases n - i,
        {
            proof {
                lemma_deep_index(polynomial@, i as int);
            }
            if i % 2 == 0 {
                even_part.push(big_clone(&polynomial[i]));
            } else {
                odd_part.push(big_clone(&polynomial[i]));
            }
            i += 1;
        }
        proof {
            assert(deep(even_part@) =~= evens(ps));
            assert(deep(odd_part@) =~= odds(ps));
        }
        if even_part.len() > nd.len() || odd_part.len() > nd.len() {
            return Err(FriError::InvalidInput);
        }
        let m = nd.len();
        let mut even_pad = even_part;
        while even_pad.len() < m
            invariant
                even_pad@.len() <= m,
                even_pad@.len() >= evens(ps).len(),
                forall|t: int|
                    0 <= t < even_pad@.len() ==> #[trigger] big(even_pad@[t]) == pget(evens(ps), t),
            decreases m - even_pad@.len(),
        {
            even_pad.push(big_from_u64(0));
        }
        let mut odd_pad = odd_part;
        while odd_pad.len() < m
            invariant
                odd_pad@.len() <= m,
                odd_pad@.len() >= odds(ps).len(),
                forall|t: int|
                    0 <= t < odd_pad@.len() ==> #[trigger] big(odd_pad@[t]) == pget(odds(ps), t),
            decreases m - odd_pad@.len(),
        {
            odd_pad.push(big_from_u64(0));
        }
        proof {
            assert(deep(even_pad@) =~= pext(evens(ps), m as nat));
            assert(deep(odd_pad@) =~= pext(odds(ps), m as nat));
            assert forall|t: int| 0 <= t < deep(even_pad@).len() implies deep(even_pad@)[t]
                < pv by {
                lemma_deep_index(even_pad@, t);
            }
            assert forall|t: int| 0 <= t < deep(odd_pad@).len() implies deep(odd_pad@)[t] < pv by {
                lemma_deep_index(odd_pad@, t);
            }
        }
        let p0 = self.fft.compute_fft(&even_pad, &nd);
        let p1 = self.fft.compute_fft(&odd_pad, &nd);
        let ghost p1s = deep(p1@);
        let mut scaled: Vec<BigUint> = Vec::new();
        i = 0;
        while i < m
            invariant
                self.wf(),
                self.modulus() == pv,
                big(*x0) == x0v,
                x0v < pv,
                p1@.len() == m,
                deep(p1@) == p1s,
                canon(pv, p1s),
                i <= m,
                scaled@.len() == i,
                forall|t: int|
                    0 <= t < i ==> #[trigger] big(scaled@[t]) == fmul(pv, x0v, p1s[t]) && big(
                        scaled@[t],
                    ) < pv,
            decreases m - i,
        {
            proof {
                lemma_deep_index(p1@, i as int);
            }
            scaled.push(self.field.mul(x0, &p1[i]));
            i += 1;
        }
        proof {
            assert(deep(scaled@) =~= Seq::new(nds.len(), |t: int| fmul(pv, x0v, p1s[t])));
            assert forall|t: int| 0 <= t < deep(scaled@).len() implies deep(scaled@)[t] < pv by {
                lemma_deep_index(scaled@, t);
            }
        }
        let y = self.field.add_polynomial(&p0, &scaled);
        self.fold(nd, y, x0)
    }

    /// The halved domain: every element squared, first half kept.
    pub fn fold_domain(&self, domain: &Vec<BigUint>) -> (r: Vec<BigUint>)
        requires
            self.wf(),
            canon(self.modulus(), deep(domain@)),
        ensures
            deep(r@) == fold_domain_s(self.modulus(), deep(domain@)),
            r@.len() == domain@.len() / 2,
            canon(self.modulus(), deep(r@)),
    {
        let ghost pv = self.modulus();
        let ghost ds = deep(domain@);
        let half = domain.len() / 2;
        let mut out: Vec<BigUint> = Vec::new();
        let mut i: usize = 0;
        while i < half
            invariant
                self.wf(),
                self.modulus() == pv,
                deep(domain@) == ds,
                canon(pv, ds),
                half == domain@.len() / 2,
                i <= half,
                out@.len() == i,
                forall|t: int|
                    0 <= t < i ==> #[trigger] big(out@[t]) == fmul(pv, ds[t], ds[t]) && big(
                        out@[t],
                    ) < pv,
            decreases half - i,
        {
            proof {
                lemma_deep_index(domain@, i as int);
            }
            out.push(self.field.mul(&domain[i], &domain[i]));
            i += 1;
        }
        proof {
            assert(deep(out@) =~= fold_domain_s(pv, ds));
            assert forall|t: int| 0 <= t < deep(out@).len() implies deep(out@)[t] < pv by {
                lemma_deep_index(out@, t);
            }
        }
        out
    }
}

} // verus!
