//! The mathematical model of dense polynomials over the field: sequences of
//! canonical residues in ascending degree order, with trailing zeros allowed.
//! Operands of different lengths are zero-extended before they are combined.

use vstd::prelude::*;
use crate::modular::{canon, fadd, fmul, fneg, fsub, is_inv, lemma_fmul_one, lemma_fsub_fadd_cancel};
use vstd::arithmetic::div_mod::{
    lemma_add_mod_noop, lemma_add_mod_noop_right, lemma_mod_add_multiples_vanish, lemma_mod_bound,
    lemma_mod_equivalence, lemma_mod_multiples_vanish, lemma_mod_self_0, lemma_mul_mod_noop_left,
    lemma_mul_mod_noop_right, lemma_small_mod, lemma_sub_mod_noop, lemma_sub_mod_noop_right,
};

verus! {

/// Coefficient of degree `i`, reading past the end as zero.
pub open spec fn pget(s: Seq<nat>, i: int) -> nat {
    if 0 <= i < s.len() {
        s[i]
    } else {
        0
    }
}

/// The longer of the two operand lengths.
pub open spec fn pmaxlen(a: Seq<nat>, b: Seq<nat>) -> nat {
    if a.len() >= b.len() {
        a.len()
    } else {
        b.len()
    }
}

/// A sequence zero-extended to length `n`.
pub open spec fn pext(s: Seq<nat>, n: nat) -> Seq<nat> {
    Seq::new(n, |i: int| pget(s, i))
}

/// Elementwise reduced sum over the zero-extended common length.
pub open spec fn padd_s(p: nat, a: Seq<nat>, b: Seq<nat>) -> Seq<nat> {
    Seq::new(pmaxlen(a, b), |i: int| fadd(p, pget(a, i), pget(b, i)))
}

/// Elementwise reduced difference over the zero-extended common length.
pub open spec fn psub_s(p: nat, a: Seq<nat>, b: Seq<nat>) -> Seq<nat> {
    Seq::new(pmaxlen(a, b), |i: int| fsub(p, pget(a, i), pget(b, i)))
}

/// Running reduced sum of the first `k` convolution terms at output degree
/// `t`: the products `a[j] * b[t - j]` for `j < k`, reduced as they are added.
pub open spec fn conv_at(p: nat, a: Seq<nat>, b: Seq<nat>, t: int, k: int) -> nat
    decreases k,
{
    if k <= 0 {
        0
    } else {
        let j = k - 1;
        let term = if j < a.len() && 0 <= t - j < b.len() {
            fmul(p, a[j], b[t - j])
        } else {
            0
        };
        fadd(p, conv_at(p, a, b, t, j), term)
    }
}

/// Dense convolution: the product polynomial, of length `|a| + |b| - 1`,
/// every output coefficient reduced.
pub open spec fn pmul_s(p: nat, a: Seq<nat>, b: Seq<nat>) -> Seq<nat> {
    Seq::new((a.len() + b.len() - 1) as nat, |t: int| conv_at(p, a, b, t, a.len() as int))
}

/// Horner evaluation: `s[0] + x * (s[1] + x * (...))`, reduced at each step.
pub open spec fn horner(p: nat, s: Seq<nat>, x: nat) -> nat
    decreases s.len(),
{
    if s.len() == 0 {
        0
    } else {
        fadd(p, s[0], fmul(p, x, horner(p, s.drop_first(), x)))
    }
}

/// The plain integer value of a polynomial at `x`: the sum of `s[i] * x^i`
/// over all coefficients, with no reduction.
pub open spec fn poly_sum(s: Seq<nat>, x: nat) -> int
    decreases s.len(),
{
    if s.len() == 0 {
        0
    } else {
        poly_sum(s.drop_last(), x) + s.last() * vstd::arithmetic::power::pow(
            x as int,
            (s.len() - 1) as nat,
        )
    }
}

/// The monic linear factor `X - x`, as the coefficient pair `[-x, 1]`.
pub open spec fn linfac(p: nat, x: nat) -> Seq<nat> {
    seq![fneg(p, x), 1nat]
}

/// The vanishing polynomial of the given roots: the running product of their
/// linear factors, starting from the constant `1`.
pub open spec fn zpoly(p: nat, xs: Seq<nat>) -> Seq<nat>
    decreases xs.len(),
{
    if xs.len() == 0 {
        seq![1nat]
    } else {
        pmul_s(p, zpoly(p, xs.drop_last()), linfac(p, xs.last()))
    }
}

/// One synthetic-division step at quotient degree `d`: the scaled divisor is
/// subtracted so that the remainder's coefficient of degree `d + |b| - 1`
/// cancels.
pub open spec fn divstep_rem(p: nat, rem: Seq<nat>, b: Seq<nat>, qd: nat, d: int) -> Seq<nat> {
    Seq::new(rem.len(), |t: int| if d <= t < d + b.len() {
        fsub(p, rem[t], fmul(p, qd, b[t - d]))
    } else {
        rem[t]
    })
}

/// Polynomial long division, from the highest quotient degree down. `il` is
/// the inverse of the divisor's leading coefficient; `steps` quotient
/// coefficients are produced, and the final remainder is returned with them.
pub open spec fn polydiv(p: nat, rem: Seq<nat>, b: Seq<nat>, il: nat, steps: nat) -> (Seq<
    nat,
>, Seq<nat>)
    decreases steps,
{
    if steps == 0 {
        (Seq::empty(), rem)
    } else {
        let d = (steps - 1) as int;
        let qd = fmul(p, pget(rem, d + b.len() - 1), il);
        let rem2 = divstep_rem(p, rem, b, qd, d);
        let sub = polydiv(p, rem2, b, il, (steps - 1) as nat);
        (sub.0.push(qd), sub.1)
    }
}

/// The division produces exactly `steps` quotient coefficients and keeps the
/// remainder's length.
pub proof fn lemma_polydiv_len(p: nat, rem: Seq<nat>, b: Seq<nat>, il: nat, steps: nat)
    ensures
        polydiv(p, rem, b, il, steps).0.len() == steps,
        polydiv(p, rem, b, il, steps).1.len() == rem.len(),
    decreases steps,
{
    if steps > 0 {
        let d = (steps - 1) as int;
        let qd = fmul(p, pget(rem, d + b.len() - 1), il);
        lemma_polydiv_len(p, divstep_rem(p, rem, b, qd, d), b, il, (steps - 1) as nat);
    }
}

/// The division remainder: `a` minus the divisor times the quotient,
/// truncated to the remainder's maximum possible length `|b| - 1`.
pub open spec fn pmod_s(p: nat, a: Seq<nat>, b: Seq<nat>, il: nat) -> Seq<nat> {
    psub_s(p, a, pmul_s(p, polydiv(p, a, b, il, (a.len() - b.len() + 1) as nat).0, b)).take(
        b.len() - 1,
    )
}

/// The `i`-th Lagrange numerator: the vanishing polynomial of all points,
/// divided by the linear factor of the `i`-th one. Its leading divisor
/// coefficient is `1`, whose inverse is `1`.
pub open spec fn lag_numer(p: nat, xs: Seq<nat>, i: int) -> Seq<nat> {
    polydiv(p, zpoly(p, xs), linfac(p, xs[i]), 1, xs.len()).0
}

/// The `i`-th Lagrange denominator: the `i`-th numerator evaluated at the
/// `i`-th point. Zero exactly when that point is a duplicate.
pub open spec fn lag_denom(p: nat, xs: Seq<nat>, i: int) -> nat {
    horner(p, lag_numer(p, xs, i), xs[i])
}

/// All Lagrange denominators, in point order.
pub open spec fn lag_denoms(p: nat, xs: Seq<nat>) -> Seq<nat> {
    Seq::new(xs.len(), |i: int| lag_denom(p, xs, i))
}

/// The `i`-th numerator rescaled by `ys[i]` times the inverted denominator.
pub open spec fn lag_row(p: nat, xs: Seq<nat>, ys: Seq<nat>, dinv: Seq<nat>, i: int) -> Seq<nat> {
    Seq::new(ys.len(), |j: int| fmul(p, pget(lag_numer(p, xs, i), j), fmul(p, ys[i], dinv[i])))
}

/// The interpolated polynomial accumulated over the first `rows` points:
/// the reduced sum of their rescaled numerators.
pub open spec fn lag_acc(p: nat, xs: Seq<nat>, ys: Seq<nat>, dinv: Seq<nat>, rows: int) -> Seq<nat>
    decreases rows,
{
    if rows <= 0 {
        Seq::new(ys.len(), |j: int| 0nat)
    } else {
        padd_s(p, lag_acc(p, xs, ys, dinv, rows - 1), lag_row(p, xs, ys, dinv, rows - 1))
    }
}

/// The plain integer value of the first `k` convolution terms at output
/// degree `t`: the same sum `conv_at` folds, with no reduction.
pub open spec fn conv_int(a: Seq<nat>, b: Seq<nat>, t: int, k: int) -> int
    decreases k,
{
    if k <= 0 {
        0
    } else {
        let j = k - 1;
        conv_int(a, b, t, j) + (if j < a.len() && 0 <= t - j < b.len() {
            a[j] * b[t - j]
        } else {
            0
        })
    }
}

/// The stepwise-reduced convolution sum is the plain sum, reduced once.
pub proof fn lemma_conv_int_mod(p: nat, a: Seq<nat>, b: Seq<nat>, t: int, k: int)
    requires
        p >= 1,
    ensures
        conv_at(p, a, b, t, k) as int == conv_int(a, b, t, k) % (p as int),
    decreases k,
{
    let p_ = p as int;
    if k <= 0 {
        lemma_small_mod(0, p);
    } else {
        let j = k - 1;
        lemma_conv_int_mod(p, a, b, t, j);
        let prev = conv_int(a, b, t, j);
        if j < a.len() && 0 <= t - j < b.len() {
            lemma_add_mod_noop(prev, (a[j] * b[t - j]) as int, p_);
        } else {
            lemma_mod_bound(prev, p_);
            lemma_small_mod((prev % p_) as nat, p);
        }
    }
}

/// A coefficient appended beyond the summation window changes nothing.
pub proof fn lemma_conv_int_push(a: Seq<nat>, b: Seq<nat>, c: nat, t: int, k: int)
    requires
        0 <= k <= a.len(),
    ensures
        conv_int(a.push(c), b, t, k) == conv_int(a, b, t, k),
    decreases k,
{
    if k > 0 {
        lemma_conv_int_push(a, b, c, t, k - 1);
    }
}

/// Above the window's reach every term's guard fails: the sum is zero.
pub proof fn lemma_conv_int_high(a: Seq<nat>, b: Seq<nat>, t: int, k: int)
    requires
        t >= k - 1 + b.len(),
    ensures
        conv_int(a, b, t, k) == 0,
    decreases k,
{
    if k > 0 {
        lemma_conv_int_high(a, b, t, k - 1);
    }
}

/// What long division leaves behind: every remainder entry is the dividend
/// entry minus the quotient-times-divisor sum there, and the entries from
/// degree `|b| - 1` up to the processed range are zero.
proof fn lemma_polydiv_rem(p: nat, rem: Seq<nat>, b: Seq<nat>, il: nat, steps: nat)
    requires
        p >= 2,
        canon(p, rem),
        canon(p, b),
        b.len() >= 1,
        is_inv(p, b.last(), il),
        steps + b.len() <= rem.len() + 1,
    ensures
        ({
            let res = polydiv(p, rem, b, il, steps);
            &&& forall|t: int|
                0 <= t < rem.len() ==> #[trigger] res.1[t] as int == (rem[t] - conv_int(
                    res.0,
                    b,
                    t,
                    steps as int,
                )) % (p as int)
            &&& forall|t: int| b.len() - 1 <= t < steps + b.len() - 1 ==> #[trigger] res.1[t] == 0
            &&& canon(p, res.1)
        }),
    decreases steps,
{
    let p_ = p as int;
    let lb = b.len() as int;
    let res = polydiv(p, rem, b, il, steps);
    lemma_polydiv_len(p, rem, b, il, steps);
    if steps == 0 {
        assert forall|t: int| 0 <= t < rem.len() implies #[trigger] res.1[t] as int == (rem[t]
            - conv_int(res.0, b, t, 0)) % p_ by {
            lemma_small_mod(rem[t], p);
        }
    } else {
        let d = (steps - 1) as int;
        let pos = d + lb - 1;
        let qd = fmul(p, pget(rem, pos), il);
        let rem2 = divstep_rem(p, rem, b, qd, d);
        let sub = polydiv(p, rem2, b, il, (steps - 1) as nat);
        assert forall|t: int| 0 <= t < rem2.len() implies #[trigger] rem2[t] < p by {
            if d <= t < d + lb {
                lemma_mod_bound(rem[t] + p - fmul(p, qd, b[t - d]), p_);
            }
        }
        lemma_polydiv_rem(p, rem2, b, il, (steps - 1) as nat);
        lemma_polydiv_len(p, rem2, b, il, (steps - 1) as nat);
        // every entry: one more subtracted term joins the sum
        assert forall|t: int| 0 <= t < rem.len() implies #[trigger] res.1[t] as int == (rem[t]
            - conv_int(res.0, b, t, steps as int)) % p_ by {
            let sprev = conv_int(sub.0, b, t, d);
            lemma_conv_int_push(sub.0, b, qd, t, d);
            assert(conv_int(res.0, b, t, d) == sprev);
            assert(sub.1[t] as int == (rem2[t] - sprev) % p_);
            if d <= t < d + lb {
                let y = fmul(p, qd, b[t - d]) as int;
                let x0 = rem[t] + p_ - y;
                assert(rem2[t] as int == x0 % p_);
                lemma_sub_mod_noop_right(x0 % p_, sprev, p_);
                lemma_sub_mod_noop(x0, sprev, p_);
                lemma_sub_mod_noop_right(rem[t] + p_ - sprev, (qd * b[t - d]) as int, p_);
                lemma_mod_add_multiples_vanish(rem[t] - sprev - qd * b[t - d], p_);
                assert(conv_int(res.0, b, t, steps as int) == sprev + qd * b[t - d]);
            } else {
                assert(rem2[t] == rem[t]);
                assert(conv_int(res.0, b, t, steps as int) == sprev);
            }
        }
        // the zeroed band: the freshly cancelled top entry, and the band the
        // recursion has already cleared below it
        assert forall|t: int| lb - 1 <= t < steps + lb - 1 implies #[trigger] res.1[t] == 0 by {
            if t < pos {
                assert(sub.1[t] == 0);
            } else {
                let r = rem[pos];
                let lead = b[lb - 1];
                let r_ = r as int;
                let il_ = il as int;
                let ld = lead as int;
                lemma_mul_mod_noop_left(r_ * il_, ld, p_);
                assert((r_ * il_) * ld == r_ * (ld * il_)) by (nonlinear_arith);
                lemma_mul_mod_noop_right(r_, ld * il_, p_);
                lemma_small_mod(r, p);
                assert(fmul(p, qd, lead) == r);
                lemma_mod_self_0(p_);
                assert(rem2[pos] == 0);
                lemma_conv_int_high(sub.0, b, pos, d);
                assert(sub.1[pos] as int == (0 - 0) % p_);
                lemma_small_mod(0, p);
            }
        }
    }
}

/// The Euclidean division identity: the quotient times the divisor, plus the
/// remainder, gives back the dividend exactly.
pub proof fn lemma_division_identity(p: nat, a: Seq<nat>, b: Seq<nat>, il: nat)
    requires
        p >= 2,
        canon(p, a),
        canon(p, b),
        b.len() >= 1,
        a.len() >= b.len(),
        is_inv(p, b.last(), il),
    ensures
        padd_s(
            p,
            pmul_s(p, polydiv(p, a, b, il, (a.len() - b.len() + 1) as nat).0, b),
            pmod_s(p, a, b, il),
        ) == a,
{
    let p_ = p as int;
    let lb = b.len() as int;
    let la = a.len() as int;
    let steps = (a.len() - b.len() + 1) as nat;
    let q = polydiv(p, a, b, il, steps).0;
    let remf = polydiv(p, a, b, il, steps).1;
    lemma_polydiv_len(p, a, b, il, steps);
    lemma_polydiv_rem(p, a, b, il, steps);
    let conv = pmul_s(p, q, b);
    assert(conv.len() == la);
    assert forall|t: int| 0 <= t < la implies #[trigger] conv[t] as int == conv_int(
        q,
        b,
        t,
        steps as int,
    ) % p_ && conv[t] < p by {
        lemma_conv_int_mod(p, q, b, t, steps as int);
        lemma_mod_bound(conv_int(q, b, t, steps as int), p_);
    }
    // the untruncated difference is exactly the division's remainder
    let diff = psub_s(p, a, conv);
    assert(diff.len() == la);
    assert forall|t: int| 0 <= t < la implies #[trigger] diff[t] == remf[t] by {
        let s = conv_int(q, b, t, steps as int);
        lemma_sub_mod_noop_right(a[t] + p_, s, p_);
        lemma_mod_add_multiples_vanish(a[t] - s, p_);
    }
    let res = padd_s(p, conv, pmod_s(p, a, b, il));
    assert(res.len() == la);
    assert forall|t: int| 0 <= t < la implies #[trigger] res[t] == a[t] by {
        let s = conv_int(q, b, t, steps as int);
        if t < lb - 1 {
            assert(pget(pmod_s(p, a, b, il), t) == remf[t]);
            lemma_add_mod_noop(s, a[t] - s, p_);
            lemma_small_mod(a[t], p);
        } else {
            assert(remf[t] == 0);
            assert((a[t] - s) % p_ == 0);
            lemma_mod_equivalence(a[t] as int, s, p_);
            lemma_small_mod(a[t], p);
            lemma_fadd_zero(p, conv[t]);
        }
    }
    assert(res =~= a);
}

/// A reduced sum with zero on either side is the other operand.
pub proof fn lemma_fadd_zero(p: nat, y: nat)
    requires
        p >= 1,
        y < p,
    ensures
        fadd(p, 0, y) == y,
        fadd(p, y, 0) == y,
{
    lemma_small_mod(y, p);
}

/// Reduced addition associates.
pub proof fn lemma_fadd_assoc(p: nat, a: nat, b: nat, w: nat)
    requires
        p >= 1,
    ensures
        fadd(p, fadd(p, a, b), w) == fadd(p, a, fadd(p, b, w)),
{
    lemma_add_mod_noop_right(w as int, (a + b) as int, p as int);
    lemma_add_mod_noop_right(a as int, (b + w) as int, p as int);
}

/// Every partial convolution sum is a canonical residue.
pub proof fn lemma_conv_bound(p: nat, a: Seq<nat>, b: Seq<nat>, t: int, k: int)
    requires
        p >= 1,
    ensures
        conv_at(p, a, b, t, k) < p,
    decreases k,
{
    if k > 0 {
        lemma_conv_bound(p, a, b, t, k - 1);
        lemma_mod_bound((conv_at(p, a, b, t, k - 1) + (if k - 1 < a.len() && 0 <= t - (k - 1)
            < b.len() {
            fmul(p, a[k - 1], b[t - (k - 1)])
        } else {
            0
        })) as int, p as int);
    }
}

/// Horner evaluation stays in `[0, p)`.
pub proof fn lemma_horner_bound(p: nat, s: Seq<nat>, x: nat)
    requires
        p >= 1,
    ensures
        horner(p, s, x) < p,
    decreases s.len(),
{
    if s.len() > 0 {
        lemma_horner_bound(p, s.drop_first(), x);
        lemma_mod_bound((s[0] + fmul(p, x, horner(p, s.drop_first(), x))) as int, p as int);
    }
}

/// The partial convolution of `q` with a linear factor, row by row: nothing
/// before row `t - 1`, the pass-through coefficient at row `t - 1`, and the
/// scaled coefficient at row `t`.
proof fn lemma_conv_lin_partial(p: nat, q: Seq<nat>, c: nat, t: int, k: int)
    requires
        p >= 2,
        canon(p, q),
        c < p,
        0 <= t,
        0 <= k <= q.len(),
    ensures
        k <= t - 1 ==> conv_at(p, q, linfac(p, c), t, k) == 0,
        k == t ==> conv_at(p, q, linfac(p, c), t, k) == (if 1 <= t <= q.len() {
            q[t - 1]
        } else {
            0
        }),
        k >= t + 1 ==> conv_at(p, q, linfac(p, c), t, k) == (if t < q.len() {
            fadd(
                p,
                (if 1 <= t {
                    q[t - 1]
                } else {
                    0
                }),
                fmul(p, q[t], fneg(p, c)),
            )
        } else if 1 <= t <= q.len() {
            q[t - 1]
        } else {
            0
        }),
    decreases k,
{
    let lin = linfac(p, c);
    if k > 0 {
        lemma_conv_lin_partial(p, q, c, t, k - 1);
        let j = k - 1;
        let prev = conv_at(p, q, lin, t, j);
        lemma_small_mod(0, p);
        if j < q.len() && 0 <= t - j < 2 {
            if t - j == 1 {
                // the pass-through row: prev is 0, the term is q[t-1] * 1
                lemma_fmul_one(p, q[j]);
                lemma_fadd_zero(p, q[j]);
            } else {
                // the scaled row: the term is q[t] * (-c)
                lemma_mod_bound((q[j] * fneg(p, c)) as int, p as int);
                if t == 0 {
                    lemma_fadd_zero(p, fmul(p, q[j], fneg(p, c)));
                }
            }
        } else {
            // an empty row adds zero and keeps the canonical value
            if prev < p {
                lemma_fadd_zero(p, prev);
            }
            lemma_conv_bound(p, q, lin, t, j);
        }
    }
}

/// The entries of a polynomial convolved with the linear factor `X - c`.
proof fn lemma_conv_lin_entry(p: nat, q: Seq<nat>, c: nat, t: int)
    requires
        p >= 2,
        canon(p, q),
        c < p,
        0 <= t < q.len() + 1,
    ensures
        pmul_s(p, q, linfac(p, c))[t] == (if t < q.len() {
            fadd(
                p,
                (if 1 <= t {
                    q[t - 1]
                } else {
                    0
                }),
                fmul(p, q[t], fneg(p, c)),
            )
        } else {
            (if 1 <= t <= q.len() {
                q[t - 1]
            } else {
                0
            })
        }),
{
    lemma_conv_lin_partial(p, q, c, t, q.len() as int);
}

/// The scalar core of the product rule for one Horner step:
/// `q0 * (-c) + x * (q0 + h1 * (x - c)) == (q0 + x * h1) * (x - c)  (mod p)`.
proof fn lemma_horner_step_cancel(p: nat, q0: nat, x: nat, c: nat, h1: nat)
    requires
        p >= 2,
        q0 < p,
        x < p,
        c < p,
        h1 < p,
    ensures
        fadd(p, fmul(p, q0, fneg(p, c)), fmul(p, x, fadd(p, q0, fmul(p, h1, fsub(p, x, c)))))
            == fmul(p, fadd(p, q0, fmul(p, x, h1)), fsub(p, x, c)),
{
    let p_ = p as int;
    let q0_ = q0 as int;
    let x_ = x as int;
    let c_ = c as int;
    let h1_ = h1 as int;
    let lift = x_ + p_ - c_;
    // left side, unreduced: q0 * (p - c) + x * (q0 + h1 * (x + p - c))
    lemma_mul_mod_noop_right(q0_, p_ - c_, p_);
    lemma_mul_mod_noop_right(h1_, lift, p_);
    lemma_add_mod_noop_right(q0_, h1_ * lift, p_);
    lemma_mul_mod_noop_right(x_, q0_ + h1_ * lift, p_);
    assert(x_ * (q0_ + h1_ * lift) == x_ * q0_ + x_ * (h1_ * lift)) by (nonlinear_arith);
    lemma_add_mod_noop(q0_ * (p_ - c_), x_ * q0_ + x_ * (h1_ * lift), p_);
    // right side, unreduced: (q0 + x * h1) * (x + p - c)
    lemma_add_mod_noop_right(q0_, x_ * h1_, p_);
    lemma_mul_mod_noop_right((q0_ + x_ * h1_) % p_, lift, p_);
    lemma_mul_mod_noop_left(q0_ + x_ * h1_, lift, p_);
    assert((q0_ + x_ * h1_) * lift == q0_ * lift + (x_ * h1_) * lift) by (nonlinear_arith);
    assert(q0_ * lift == q0_ * (p_ - c_) + x_ * q0_) by (nonlinear_arith)
        requires
            lift == x_ + p_ - c_,
    ;
    assert((x_ * h1_) * lift == x_ * (h1_ * lift)) by (nonlinear_arith);
}

/// The product rule for a linear factor: evaluating `q * (X - c)` at `x` is
/// evaluating `q` at `x` and multiplying by `x - c`, all reduced.
pub proof fn lemma_horner_mul_linfac(p: nat, q: Seq<nat>, c: nat, x: nat)
    requires
        p >= 2,
        canon(p, q),
        c < p,
        x < p,
    ensures
        horner(p, pmul_s(p, q, linfac(p, c)), x) == fmul(p, horner(p, q, x), fsub(p, x, c)),
    decreases q.len(),
{
    let lin = linfac(p, c);
    let conv = pmul_s(p, q, lin);
    lemma_small_mod(0, p);
    if q.len() == 0 {
        assert(conv =~= seq![0nat]);
        vstd::arithmetic::mul::lemma_mul_basics(x as int);
        assert(horner(p, conv.drop_first(), x) == 0);
        assert(fmul(p, x, 0) == 0);
        assert(horner(p, conv, x) == fadd(p, 0, 0));
        lemma_fadd_zero(p, 0);
        vstd::arithmetic::mul::lemma_mul_basics(fsub(p, x, c) as int);
        assert(fmul(p, 0, fsub(p, x, c)) == 0);
    } else {
        let qd = q.drop_first();
        assert(canon(p, qd));
        lemma_horner_mul_linfac(p, qd, c, x);
        let convd = pmul_s(p, qd, lin);
        let tail = conv.drop_first().drop_first();
        assert forall|t: int| 0 <= t < tail.len() implies tail[t] == convd.drop_first()[t] by {
            lemma_conv_lin_entry(p, q, c, t + 2);
            lemma_conv_lin_entry(p, qd, c, t + 1);
        }
        assert(tail =~= convd.drop_first());
        // the first entries: conv[1] carries q[0] on top of convd[0]
        lemma_conv_lin_entry(p, q, c, 0);
        lemma_conv_lin_entry(p, q, c, 1);
        lemma_mod_bound((q[0] * fneg(p, c)) as int, p as int);
        lemma_fadd_zero(p, fmul(p, q[0], fneg(p, c)));
        assert(conv[0] == fmul(p, q[0], fneg(p, c)));
        if qd.len() >= 1 {
            lemma_conv_lin_entry(p, qd, c, 0);
            lemma_mod_bound((qd[0] * fneg(p, c)) as int, p as int);
            lemma_fadd_zero(p, fmul(p, qd[0], fneg(p, c)));
        } else {
            assert(convd =~= seq![0nat]);
        }
        lemma_fadd_zero(p, q[0]);
        assert(conv.drop_first()[0] == fadd(p, q[0], convd[0]));
        // Horner over the shared tail
        let w = fmul(p, x, horner(p, tail, x));
        assert(horner(p, convd, x) == fadd(p, convd[0], w));
        assert(horner(p, conv.drop_first(), x) == fadd(p, fadd(p, q[0], convd[0]), w));
        lemma_fadd_assoc(p, q[0], convd[0], w);
        // the inductive value and the step cancellation
        let h1 = horner(p, qd, x);
        lemma_horner_bound(p, qd, x);
        assert(horner(p, conv.drop_first(), x) == fadd(p, q[0], fmul(p, h1, fsub(p, x, c))));
        lemma_horner_step_cancel(p, q[0], x, c, h1);
        assert(horner(p, conv, x) == fadd(
            p,
            fmul(p, q[0], fneg(p, c)),
            fmul(p, x, fadd(p, q[0], fmul(p, h1, fsub(p, x, c)))),
        ));
        assert(horner(p, q, x) == fadd(p, q[0], fmul(p, x, h1)));
    }
}

/// Appending a coefficient adds its power-basis term to the reduced value.
proof fn lemma_horner_push(p: nat, s: Seq<nat>, c: nat, x: nat)
    requires
        p >= 2,
    ensures
        horner(p, s.push(c), x) as int == (horner(p, s, x) + c * vstd::arithmetic::power::pow(
            x as int,
            s.len(),
        )) % (p as int),
    decreases s.len(),
{
    let p_ = p as int;
    let x_ = x as int;
    let c_ = c as int;
    if s.len() == 0 {
        assert(s.push(c) =~= seq![c]);
        assert((s.push(c)).drop_first() =~= Seq::<nat>::empty());
        vstd::arithmetic::power::lemma_pow0(x_);
        vstd::arithmetic::mul::lemma_mul_basics(x_);
        vstd::arithmetic::mul::lemma_mul_basics(c_);
        lemma_small_mod(0, p);
        assert(horner(p, (s.push(c)).drop_first(), x) == 0);
        assert(horner(p, s, x) == 0);
        assert(horner(p, s.push(c), x) == fadd(p, c, fmul(p, x, 0)));
        assert(fmul(p, x, 0) == 0);
    } else {
        lemma_horner_push(p, s.drop_first(), c, x);
        assert((s.push(c)).drop_first() =~= s.drop_first().push(c));
        assert((s.push(c))[0] == s[0]);
        let ell = s.drop_first().len();
        let h1 = horner(p, s.drop_first(), x) as int;
        let hc = horner(p, s.drop_first().push(c), x) as int;
        let pw = vstd::arithmetic::power::pow(x_, ell);
        // the scaled tail, with the appended term distributed out
        lemma_mul_mod_noop_right(x_, h1 + c_ * pw, p_);
        assert(x_ * (h1 + c_ * pw) == x_ * h1 + c_ * (x_ * pw)) by (nonlinear_arith);
        vstd::arithmetic::power::lemma_pow_adds(x_, ell, 1nat);
        vstd::arithmetic::power::lemma_pow1(x_);
        vstd::arithmetic::mul::lemma_mul_is_commutative(pw, x_);
        assert(vstd::arithmetic::power::pow(x_, (ell + 1) as nat) == x_ * pw);
        lemma_add_mod_noop_right(s[0] as int, x_ * h1 + c_ * (x_ * pw), p_);
        assert(hc == (h1 + c_ * pw) % p_);
        assert((x_ * hc) % p_ == (x_ * h1 + c_ * (x_ * pw)) % p_);
        assert(horner(p, s.push(c), x) as int == (s[0] + (x_ * hc) % p_) % p_);
        assert(horner(p, s.push(c), x) as int == (s[0] + x_ * h1 + c_ * (x_ * pw)) % p_);
        // the unappended evaluation, re-reduced with the extra term
        assert(horner(p, s, x) as int == (s[0] + (x_ * h1) % p_) % p_);
        lemma_add_mod_noop_right(s[0] as int + c_ * (x_ * pw), x_ * h1, p_);
        lemma_add_mod_noop_right(c_ * (x_ * pw), s[0] as int + (x_ * h1) % p_, p_);
        assert((horner(p, s, x) + c_ * (x_ * pw)) % p_ == (s[0] + x_ * h1 + c_ * (x_ * pw)) % p_);
        assert(c_ * (x_ * pw) == c_ * vstd::arithmetic::power::pow(x_, (ell + 1) as nat));
    }
}

/// Horner evaluation agrees with the full power-basis sum, reduced once:
/// the most direct reading of what evaluating a polynomial means.
pub proof fn lemma_horner_is_poly_sum(p: nat, s: Seq<nat>, x: nat)
    requires
        p >= 2,
    ensures
        horner(p, s, x) as int == poly_sum(s, x) % (p as int),
    decreases s.len(),
{
    let p_ = p as int;
    if s.len() == 0 {
        lemma_small_mod(0, p);
    } else {
        lemma_horner_is_poly_sum(p, s.drop_last(), x);
        lemma_horner_push(p, s.drop_last(), s.last(), x);
        assert(s.drop_last().push(s.last()) =~= s);
        let tail_sum = poly_sum(s.drop_last(), x);
        let term = s.last() * vstd::arithmetic::power::pow(x as int, (s.len() - 1) as nat);
        lemma_add_mod_noop_right(term, tail_sum, p_);
    }
}

/// The vanishing polynomial has one more coefficient than it has roots, all
/// of them canonical.
pub proof fn lemma_zpoly_shape(p: nat, xs: Seq<nat>)
    requires
        p >= 2,
    ensures
        zpoly(p, xs).len() == xs.len() + 1,
        canon(p, zpoly(p, xs)),
    decreases xs.len(),
{
    if xs.len() == 0 {
    } else {
        lemma_zpoly_shape(p, xs.drop_last());
        let prev = zpoly(p, xs.drop_last());
        let lin = linfac(p, xs.last());
        assert forall|t: int| 0 <= t < pmul_s(p, prev, lin).len() implies pmul_s(p, prev, lin)[t]
            < p by {
            lemma_conv_bound(p, prev, lin, t, prev.len() as int);
        }
    }
}

/// The vanishing polynomial of a set of roots evaluates to zero at each of
/// them.
pub proof fn lemma_zeropoly_vanishes(p: nat, xs: Seq<nat>, i: int)
    requires
        p >= 2,
        canon(p, xs),
        0 <= i < xs.len(),
    ensures
        horner(p, zpoly(p, xs), xs[i]) == 0,
    decreases xs.len(),
{
    let prefix = xs.drop_last();
    let c = xs.last();
    let prev = zpoly(p, prefix);
    lemma_zpoly_shape(p, prefix);
    lemma_small_mod(0, p);
    if i == xs.len() - 1 {
        // the last factor is zero at its own root
        lemma_horner_mul_linfac(p, prev, c, c);
        assert(fsub(p, c, c) == 0) by {
            lemma_small_mod(p, p + 1);
            vstd::arithmetic::div_mod::lemma_mod_self_0(p as int);
        }
        assert(fmul(p, horner(p, prev, c), 0) == 0) by {
            vstd::arithmetic::mul::lemma_mul_basics(horner(p, prev, c) as int);
            lemma_small_mod(0, p);
        }
    } else {
        // the root sits among the earlier factors
        assert(canon(p, prefix));
        lemma_zeropoly_vanishes(p, prefix, i);
        lemma_horner_mul_linfac(p, prev, c, xs[i]);
        assert(fmul(p, 0, fsub(p, xs[i], c)) == 0) by {
            vstd::arithmetic::mul::lemma_mul_basics(fsub(p, xs[i], c) as int);
            lemma_small_mod(0, p);
        }
    }
}

/// Every pairwise difference of the points has an inverse: what
/// distinctness means inside a field, stated without assuming primality.
pub open spec fn pairwise_invertible(p: nat, xs: Seq<nat>) -> bool {
    forall|t1: int, t2: int|
        0 <= t1 < xs.len() && 0 <= t2 < xs.len() && t1 != t2 ==> exists|w: nat|
            is_inv(p, #[trigger] fsub(p, xs[t1], xs[t2]), w)
}

/// Every quotient coefficient of the long division is a canonical residue.
proof fn lemma_polydiv_canon(p: nat, rem: Seq<nat>, b: Seq<nat>, il: nat, steps: nat)
    requires
        p >= 1,
    ensures
        canon(p, polydiv(p, rem, b, il, steps).0),
    decreases steps,
{
    if steps > 0 {
        let d = (steps - 1) as int;
        let qd = fmul(p, pget(rem, d + b.len() - 1), il);
        let rem2 = divstep_rem(p, rem, b, qd, d);
        lemma_polydiv_canon(p, rem2, b, il, (steps - 1) as nat);
        lemma_mod_bound((pget(rem, d + b.len() - 1) * il) as int, p as int);
        let res = polydiv(p, rem, b, il, steps).0;
        assert(canon(p, res)) by {
            assert forall|t: int| 0 <= t < res.len() implies res[t] < p by {
                lemma_polydiv_len(p, rem2, b, il, (steps - 1) as nat);
            }
        }
    }
}

/// Zero-extension does not change the evaluation.
proof fn lemma_horner_pext(p: nat, s: Seq<nat>, m: nat, x: nat)
    requires
        p >= 2,
        m >= s.len(),
    ensures
        horner(p, pext(s, m), x) == horner(p, s, x),
    decreases m - s.len(),
{
    if m == s.len() {
        assert(pext(s, m) =~= s);
    } else {
        lemma_horner_pext(p, s, (m - 1) as nat, x);
        assert(pext(s, m) =~= pext(s, (m - 1) as nat).push(0));
        lemma_horner_push(p, pext(s, (m - 1) as nat), 0, x);
        let pw = vstd::arithmetic::power::pow(x as int, (m - 1) as nat);
        vstd::arithmetic::mul::lemma_mul_basics(pw);
        lemma_horner_bound(p, s, x);
        lemma_small_mod(horner(p, s, x), p);
    }
}

/// Evaluation distributes over the elementwise sum of equal-length operands.
proof fn lemma_horner_padd_eq(p: nat, u: Seq<nat>, v: Seq<nat>, x: nat)
    requires
        p >= 2,
        u.len() == v.len(),
    ensures
        horner(p, padd_s(p, u, v), x) == fadd(p, horner(p, u, x), horner(p, v, x)),
    decreases u.len(),
{
    let p_ = p as int;
    let x_ = x as int;
    if u.len() == 0 {
        assert(padd_s(p, u, v) =~= Seq::<nat>::empty());
        lemma_small_mod(0, p);
    } else {
        lemma_horner_padd_eq(p, u.drop_first(), v.drop_first(), x);
        assert(padd_s(p, u, v).drop_first() =~= padd_s(p, u.drop_first(), v.drop_first()));
        assert(padd_s(p, u, v)[0] == fadd(p, u[0], v[0]));
        let hu = horner(p, u.drop_first(), x) as int;
        let hv = horner(p, v.drop_first(), x) as int;
        let u0 = u[0] as int;
        let v0 = v[0] as int;
        // left side down to one reduction of u0 + v0 + x*hu + x*hv
        lemma_mul_mod_noop_right(x_, hu + hv, p_);
        assert(x_ * (hu + hv) == x_ * hu + x_ * hv) by (nonlinear_arith);
        lemma_add_mod_noop(u0 + v0, x_ * hu + x_ * hv, p_);
        // right side down to the same form
        lemma_add_mod_noop_right(u0, x_ * hu, p_);
        lemma_add_mod_noop_right(v0, x_ * hv, p_);
        lemma_add_mod_noop(u0 + x_ * hu, v0 + x_ * hv, p_);
    }
}

/// Evaluation distributes over the zero-extending elementwise sum.
pub proof fn lemma_horner_padd(p: nat, u: Seq<nat>, v: Seq<nat>, x: nat)
    requires
        p >= 2,
    ensures
        horner(p, padd_s(p, u, v), x) == fadd(p, horner(p, u, x), horner(p, v, x)),
{
    let m = pmaxlen(u, v);
    assert(padd_s(p, u, v) =~= padd_s(p, pext(u, m), pext(v, m)));
    lemma_horner_padd_eq(p, pext(u, m), pext(v, m), x);
    lemma_horner_pext(p, u, m, x);
    lemma_horner_pext(p, v, m, x);
}

/// Evaluating an elementwise-rescaled polynomial rescales the evaluation.
proof fn lemma_horner_scale(p: nat, s: Seq<nat>, w: nat, x: nat)
    requires
        p >= 2,
    ensures
        horner(p, Seq::new(s.len(), |j: int| fmul(p, s[j], w)), x) == fmul(
            p,
            horner(p, s, x),
            w,
        ),
    decreases s.len(),
{
    let p_ = p as int;
    let x_ = x as int;
    let w_ = w as int;
    let scaled = Seq::new(s.len(), |j: int| fmul(p, s[j], w));
    if s.len() == 0 {
        lemma_small_mod(0, p);
        vstd::arithmetic::mul::lemma_mul_basics(w_);
    } else {
        lemma_horner_scale(p, s.drop_first(), w, x);
        assert(scaled.drop_first() =~= Seq::new(
            s.drop_first().len(),
            |j: int| fmul(p, s.drop_first()[j], w),
        ));
        let h1 = horner(p, s.drop_first(), x) as int;
        let s0 = s[0] as int;
        // left side: (s0*w)%p + x*((h1*w)%p), reduced
        lemma_mul_mod_noop_right(x_, h1 * w_, p_);
        assert(x_ * (h1 * w_) == (x_ * h1) * w_) by (nonlinear_arith);
        lemma_add_mod_noop(s0 * w_, (x_ * h1) * w_, p_);
        // right side: ((s0 + (x*h1)%p)%p * w)%p, reduced the same way
        lemma_add_mod_noop_right(s0, x_ * h1, p_);
        lemma_mul_mod_noop_left(s0 + x_ * h1, w_, p_);
        assert((s0 + x_ * h1) * w_ == s0 * w_ + (x_ * h1) * w_) by (nonlinear_arith);
    }
}

/// A Lagrange numerator evaluates to its own denominator at its own point,
/// and to zero at every other point whose difference from it is invertible.
proof fn lemma_lag_numer_eval(p: nat, xs: Seq<nat>, i: int, j: int)
    requires
        p >= 2,
        canon(p, xs),
        0 <= i < xs.len(),
        0 <= j < xs.len(),
        i != j ==> exists|w: nat| is_inv(p, fsub(p, xs[j], xs[i]), w),
    ensures
        horner(p, lag_numer(p, xs, i), xs[j]) == (if i == j {
            lag_denom(p, xs, i)
        } else {
            0
        }),
{
    if i == j {
    } else {
        let p_ = p as int;
        let z = zpoly(p, xs);
        let lin = linfac(p, xs[i]);
        let nmr = lag_numer(p, xs, i);
        lemma_zpoly_shape(p, xs);
        lemma_mod_bound((0 + p - xs[i]) as int, p_);
        lemma_small_mod(1, p);
        assert(is_inv(p, lin.last(), 1nat));
        assert(canon(p, lin));
        lemma_division_identity(p, z, lin, 1);
        lemma_polydiv_len(p, z, lin, 1, xs.len() as nat);
        lemma_polydiv_canon(p, z, lin, 1, xs.len() as nat);
        let rem = pmod_s(p, z, lin, 1);
        assert(rem.len() == 1);
        assert(rem[0] < p) by {
            lemma_mod_bound(
                (z[0] + p - pmul_s(p, nmr, lin)[0]) as int,
                p_,
            );
        }
        // the remainder itself evaluates to its constant
        assert forall|x: nat| x < p implies horner(p, rem, x) == rem[0] by {
            assert(horner(p, rem.drop_first(), x) == 0);
            vstd::arithmetic::mul::lemma_mul_basics(x as int);
            lemma_small_mod(0, p);
            lemma_small_mod(rem[0], p);
        }
        // at the numerator's own point the factor vanishes: the remainder is 0
        lemma_horner_padd(p, pmul_s(p, nmr, lin), rem, xs[i]);
        lemma_horner_mul_linfac(p, nmr, xs[i], xs[i]);
        lemma_zeropoly_vanishes(p, xs, i);
        lemma_mod_self_0(p_);
        assert(fsub(p, xs[i], xs[i]) == 0);
        vstd::arithmetic::mul::lemma_mul_basics(horner(p, nmr, xs[i]) as int);
        lemma_small_mod(0, p);
        lemma_fadd_zero(p, rem[0]);
        assert(rem[0] == 0);
        // at the other point the whole right side is the scaled numerator value
        lemma_horner_padd(p, pmul_s(p, nmr, lin), rem, xs[j]);
        lemma_horner_mul_linfac(p, nmr, xs[i], xs[j]);
        lemma_zeropoly_vanishes(p, xs, j);
        let e = horner(p, nmr, xs[j]);
        let d = fsub(p, xs[j], xs[i]);
        lemma_horner_bound(p, nmr, xs[j]);
        lemma_mod_bound((e * d) as int, p_);
        lemma_fadd_zero(p, fmul(p, e, d));
        assert(fmul(p, e, d) == 0);
        // multiply by the difference's inverse to free the numerator value
        let w = choose|w: nat| is_inv(p, d, w);
        let e_ = e as int;
        let d_ = d as int;
        let w_ = w as int;
        lemma_mul_mod_noop_left(e_ * d_, w_, p_);
        assert((e_ * d_) * w_ == e_ * (d_ * w_)) by (nonlinear_arith);
        lemma_mul_mod_noop_right(e_, d_ * w_, p_);
        lemma_small_mod(e, p);
        vstd::arithmetic::mul::lemma_mul_basics(w_);
        vstd::arithmetic::mul::lemma_mul_basics(e_);
        lemma_small_mod(0, p);
        assert(e == 0);
    }
}

/// The accumulated interpolation evaluates, at each of the first `rows`
/// points, to that point's target value, and to zero at the points not yet
/// accumulated.
proof fn lemma_lag_acc_eval(p: nat, xs: Seq<nat>, ys: Seq<nat>, dinv: Seq<nat>, rows: int, j: int)
    requires
        p >= 2,
        canon(p, xs),
        canon(p, ys),
        xs.len() == ys.len(),
        dinv.len() == xs.len(),
        forall|t: int|
            0 <= t < xs.len() ==> is_inv(p, #[trigger] lag_denom(p, xs, t), dinv[t]),
        pairwise_invertible(p, xs),
        0 <= rows <= xs.len(),
        0 <= j < xs.len(),
    ensures
        horner(p, lag_acc(p, xs, ys, dinv, rows), xs[j]) == (if j < rows {
            ys[j]
        } else {
            0
        }),
    decreases rows,
{
    let p_ = p as int;
    if rows == 0 {
        assert(lag_acc(p, xs, ys, dinv, 0) =~= pext(Seq::<nat>::empty(), ys.len()));
        lemma_horner_pext(p, Seq::<nat>::empty(), ys.len(), xs[j]);
    } else {
        let r1 = rows - 1;
        lemma_lag_acc_eval(p, xs, ys, dinv, r1, j);
        let prev = lag_acc(p, xs, ys, dinv, r1);
        let row = lag_row(p, xs, ys, dinv, r1);
        lemma_horner_padd(p, prev, row, xs[j]);
        // the row is the numerator rescaled by y * inverted denominator
        let nmr = lag_numer(p, xs, r1);
        let w = fmul(p, ys[r1], dinv[r1]);
        lemma_polydiv_len(p, zpoly(p, xs), linfac(p, xs[r1]), 1, xs.len() as nat);
        lemma_zpoly_shape(p, xs);
        assert(row =~= Seq::new(nmr.len(), |t: int| fmul(p, nmr[t], w)));
        lemma_horner_scale(p, nmr, w, xs[j]);
        if j != r1 {
            let dterm = fsub(p, xs[j], xs[r1]);
            assert(dterm == fsub(p, xs[j], xs[r1]));
            assert(exists|ww: nat| is_inv(p, fsub(p, xs[j], xs[r1]), ww));
        }
        lemma_lag_numer_eval(p, xs, r1, j);
        if j == r1 {
            // the diagonal: denominator times its inverse cancels
            let dnm = lag_denom(p, xs, j) as int;
            let y_ = ys[j] as int;
            let dv = dinv[j] as int;
            lemma_mul_mod_noop_right(dnm, y_ * dv, p_);
            assert(dnm * (y_ * dv) == y_ * (dnm * dv)) by (nonlinear_arith);
            lemma_mul_mod_noop_right(y_, dnm * dv, p_);
            lemma_small_mod(ys[j], p);
            lemma_horner_bound(p, prev, xs[j]);
            lemma_fadd_zero(p, ys[j]);
        } else {
            // off the diagonal the row contributes nothing
            vstd::arithmetic::mul::lemma_mul_basics(w as int);
            lemma_small_mod(0, p);
            if j < r1 {
                lemma_fadd_zero(p, ys[j]);
            } else {
                lemma_fadd_zero(p, 0);
            }
        }
    }
}

/// Interpolation correctness: the accumulated Lagrange polynomial passes
/// through every given point. Distinctness enters as the field fact it is:
/// every pairwise difference of points has an inverse.
pub proof fn lemma_interpolation_evaluates(
    p: nat,
    xs: Seq<nat>,
    ys: Seq<nat>,
    dinv: Seq<nat>,
    i: int,
)
    requires
        p >= 2,
        canon(p, xs),
        canon(p, ys),
        xs.len() == ys.len(),
        dinv.len() == xs.len(),
        forall|t: int|
            0 <= t < xs.len() ==> is_inv(p, #[trigger] lag_denom(p, xs, t), dinv[t]),
        pairwise_invertible(p, xs),
        0 <= i < xs.len(),
    ensures
        horner(p, lag_acc(p, xs, ys, dinv, xs.len() as int), xs[i]) == ys[i],
{
    lemma_lag_acc_eval(p, xs, ys, dinv, xs.len() as int, i);
}

/// Adding a polynomial and then subtracting it gives back the first operand,
/// zero-extended to the common length of the two.
pub proof fn lemma_poly_add_sub_round_trip(p: nat, a: Seq<nat>, b: Seq<nat>)
    requires
        p >= 2,
        canon(p, a),
        canon(p, b),
    ensures
        psub_s(p, padd_s(p, a, b), b) == pext(a, pmaxlen(a, b)),
{
    let m = pmaxlen(a, b);
    let s = padd_s(p, a, b);
    assert forall|i: int| 0 <= i < m implies psub_s(p, s, b)[i] == pget(a, i) by {
        lemma_fsub_fadd_cancel(p, pget(a, i), pget(b, i));
    }
    assert(psub_s(p, s, b) =~= pext(a, m));
}

} // verus!
