//! Gauss-Legendre quadrature rules.
//!
//! The nodes are found by Newton's method on their angles `theta`, with
//! `x = cos(theta)` (SIAM J. Sci. Comput. 35(2), A652): each node starts
//! from a Chebyshev angle and takes ten Newton steps, in which the Legendre
//! polynomial comes from Bonnet's recursion.  Each node is computed
//! independently of the others.
use crate::arith::{
    add_qq_spec, div_dq, div_qd, div_qd_spec, div_qq, mul_dq, mul_qd_spec, mul_qq, mul_qq_spec,
    neg_parts, neg_q, parts, reciprocal_q_spec, square_q, square_q_spec, sub_qq,
};
use crate::circular::{
    pi_half, reduction_in_range, reduction_ok, sincos, sincos_spec, PI_HALF, PI_HALF_CORR_HI,
};
use crate::convert::{int_enc, small_int_enc};
use crate::exp::{ONE, TWO};
use crate::ieee::{enc_lt, lt_enc};
use crate::ops::{abs_enc, add_enc, fabs, fadd, fmul, mul_enc};
use crate::Compensated;
use crate::Df64;
use vstd::prelude::*;

verus! {

/// The orders below `2^52`: there `2n` stays below `2^53`, so that the
/// integers of the rule are binary64 numbers.  (An order takes `16 n`
/// bytes for the nodes alone, so every order that fits in memory is one.)
pub open spec fn order_in_range(n: int) -> bool {
    n < 0x10_0000_0000_0000
}

/// The starting angles of node `i` of `n`: `theta = (2n - 2i - 1) *
/// (pi/2) / n`, and `theta' = theta - pi/2` as `(n - 2i - 1) * (pi/2) / n`.
pub open spec fn chebyshev_theta(n: int, i: int) -> ((u64, u64), (u64, u64)) {
    let fact = div_qd_spec(pi_half(), int_enc(n));
    let mult = 2 * n - 2 * i - 1;
    (mul_qd_spec(fact, int_enc(mult)), mul_qd_spec(fact, int_enc(mult - n)))
}

#[verifier::opaque]
/// `sincos(theta)` from the smaller of `theta` and `theta' = theta - pi/2`:
/// `(sin(theta'), cos(theta')) = (s, c)` gives `(c, -s)`.
pub open spec fn sincos_small_spec(t: (u64, u64), tp: (u64, u64)) -> ((u64, u64), (u64, u64)) {
    if enc_lt(fabs(t.0), fabs(tp.0)) {
        sincos_spec(t)
    } else {
        let (s, c) = sincos_spec(tp);
        (c, neg_parts(s))
    }
}

#[verifier::opaque]
/// The angle that `sincos_small` reduces is accepted by `sincos`.
pub open spec fn sincos_small_ok(t: (u64, u64), tp: (u64, u64)) -> bool {
    if enc_lt(fabs(t.0), fabs(tp.0)) {
        reduction_in_range(t)
    } else {
        reduction_in_range(tp)
    }
}

fn sincos_small_accepts(t: Df64, tp: Df64) -> (r: bool)
    ensures
        r == sincos_small_ok(parts(t), parts(tp)),
{
    reveal(sincos_small_ok);
    if lt_enc(abs_enc(t.hi()), abs_enc(tp.hi())) {
        reduction_ok(t)
    } else {
        reduction_ok(tp)
    }
}

/// The sine and the cosine of `theta`, from whichever of `theta` and
/// `theta' = theta - pi/2` is smaller.
fn sincos_small(t: Df64, tp: Df64) -> (r: (Df64, Df64))
    requires
        sincos_small_ok(parts(t), parts(tp)),
    ensures
        (parts(r.0), parts(r.1)) == sincos_small_spec(parts(t), parts(tp)),
{
    reveal(sincos_small_spec);
    reveal(sincos_small_ok);
    if lt_enc(abs_enc(t.hi()), abs_enc(tp.hi())) {
        sincos(t)
    } else {
        let (s, c) = sincos(tp);
        (c, neg_q(s))
    }
}

/// Bonnet's recursion `(k + 1) P(k+1) = (2k + 1) x P(k) - k P(k-1)` from
/// `(p0, p1) = (P(k-1), P(k))` up to `(P(ell-1), P(ell))`, each step in
/// double-double precision.
pub open spec fn bonnet(x: (u64, u64), k: int, ell: int, p0: (u64, u64), p1: (u64, u64)) -> (
    (u64, u64),
    (u64, u64),
)
    decreases ell - k,
{
    if k >= ell {
        (p0, p1)
    } else {
        let kk = int_enc(k);
        let a = fadd(fmul(TWO, kk), ONE);
        let num = add_qq_spec(mul_qq_spec(mul_qd_spec(x, a), p1), neg_parts(mul_qd_spec(p0, kk)));
        bonnet(x, k + 1, ell, p1, div_qd_spec(num, fadd(kk, ONE)))
    }
}

/// `(P(ell-1), P(ell))`, the Legendre polynomials at `x`, from `P(0) = 1`
/// and `P(1) = x`.
pub open spec fn plx_spec(ell: int, x: (u64, u64)) -> ((u64, u64), (u64, u64)) {
    bonnet(x, 1, ell, (ONE, 0), x)
}

/// The Legendre polynomials `(P(ell-1), P(ell))` at `x`.
pub fn plx(ell: i64, x: Df64) -> (r: (Df64, Df64))
    requires
        1 <= ell < 0x20_0000_0000_0000,
    ensures
        (parts(r.0), parts(r.1)) == plx_spec(ell as int, parts(x)),
{
    let mut p0 = Compensated::new(ONE, 0);
    let mut p1 = x;
    let ghost goal = plx_spec(ell as int, parts(x));
    let mut k: i64 = 1;
    while k < ell
        invariant
            1 <= k <= ell,
            ell < 0x20_0000_0000_0000,
            bonnet(parts(x), k as int, ell as int, parts(p0), parts(p1)) == goal,
        decreases ell - k,
    {
        let kk = small_int_enc(k);
        let a = add_enc(mul_enc(TWO, kk), ONE);
        let p2 = div_qd(sub_qq(mul_qq(mul_dq(a, x), p1), mul_dq(kk, p0)), add_enc(kk, ONE));
        p0 = p1;
        p1 = p2;
        k = k + 1;
    }
    (p0, p1)
}

#[verifier::opaque]
/// One Newton step for the angle: with `(s, c) = sincos(theta)` and
/// `P'(theta) = n (c P(n) - P(n-1)) / s`, both angles move by
/// `P(n) / P'(theta)`, and the weight is `2 / P'(theta)^2`.
pub open spec fn newton_step(n: int, t: (u64, u64), tp: (u64, u64)) -> (
    (u64, u64),
    (u64, u64),
    (u64, u64),
) {
    let (s, c) = sincos_small_spec(t, tp);
    let (pn_1, pn) = plx_spec(n, c);
    let pn_t = mul_qq_spec(
        reciprocal_q_spec(s),
        mul_qd_spec(add_qq_spec(mul_qq_spec(c, pn), neg_parts(pn_1)), int_enc(n)),
    );
    let d = mul_qq_spec(reciprocal_q_spec(pn_t), pn);
    (
        add_qq_spec(t, neg_parts(d)),
        add_qq_spec(tp, neg_parts(d)),
        mul_qd_spec(reciprocal_q_spec(square_q_spec(pn_t)), TWO),
    )
}

fn newton(n: i64, nf: u64, t: Df64, tp: Df64) -> (r: (Df64, Df64, Df64))
    requires
        1 <= n < 0x20_0000_0000_0000,
        nf == int_enc(n as int),
        sincos_small_ok(parts(t), parts(tp)),
    ensures
        (parts(r.0), parts(r.1), parts(r.2)) == newton_step(n as int, parts(t), parts(tp)),
{
    reveal(newton_step);
    let (s, c) = sincos_small(t, tp);
    let (pn_1, pn) = plx(n, c);
    let pn_t = div_qq(mul_dq(nf, sub_qq(mul_qq(c, pn), pn_1)), s);
    let d = div_qq(pn, pn_t);
    (sub_qq(t, d), sub_qq(tp, d), div_dq(TWO, square_q(pn_t)))
}

/// The angles of node `i` of `n` after `t` Newton steps.
pub open spec fn node_state(n: int, i: int, t: nat) -> ((u64, u64), (u64, u64))
    decreases t,
{
    if t == 0 {
        chebyshev_theta(n, i)
    } else {
        let p = node_state(n, i, (t - 1) as nat);
        let st = newton_step(n, p.0, p.1);
        (st.0, st.1)
    }
}

/// The weight that the `t`-th Newton step gives node `i` of `n`.
pub open spec fn node_weight(n: int, i: int, t: nat) -> (u64, u64) {
    let p = node_state(n, i, (t - 1) as nat);
    newton_step(n, p.0, p.1).2
}

/// The first `t` Newton steps of node `i` of `n` find their angles
/// accepted by `sincos`.
pub open spec fn node_ok_upto(n: int, i: int, t: nat) -> bool
    decreases t,
{
    t == 0 || (node_ok_upto(n, i, (t - 1) as nat) && sincos_small_ok(
        node_state(n, i, (t - 1) as nat).0,
        node_state(n, i, (t - 1) as nat).1,
    ))
}

#[verifier::opaque]
/// Node `i` of `n` is computed without a refused angle: its ten Newton
/// steps and the final cosine.
pub open spec fn node_ok(n: int, i: int) -> bool {
    node_ok_upto(n, i, 11)
}

#[verifier::opaque]
/// Node `i` of the rule of order `n` and its weight: the cosine of the
/// angle after ten Newton steps, and the weight of the last step.
pub open spec fn gauss_node(n: int, i: int) -> ((u64, u64), (u64, u64)) {
    let p = node_state(n, i, 10);
    (sincos_small_spec(p.0, p.1).1, node_weight(n, i, 10))
}

proof fn lemma_ok_upto_mono(n: int, i: int, t: nat, s: nat)
    requires
        t <= s,
        node_ok_upto(n, i, s),
    ensures
        node_ok_upto(n, i, t),
    decreases s,
{
    if t < s {
        lemma_ok_upto_mono(n, i, t, (s - 1) as nat);
    }
}

/// Node `i` of the rule of order `n` and its weight, where `fact` is
/// `(pi/2) / n`; `None` where an angle is refused by `sincos`.
fn node(ni: i64, nf: u64, fact: Df64, i: i64) -> (r: Option<(Df64, Df64)>)
    requires
        0 <= i < ni,
        order_in_range(ni as int),
        nf == int_enc(ni as int),
        parts(fact) == div_qd_spec(pi_half(), int_enc(ni as int)),
    ensures
        r is Some <==> node_ok(ni as int, i as int),
        r matches Some(p) ==> (parts(p.0), parts(p.1)) == gauss_node(ni as int, i as int),
{
    let mult: i64 = 2 * ni - 2 * i - 1;
    let mut t = mul_dq(small_int_enc(mult), fact);
    let mut tp = mul_dq(small_int_enc(mult - ni), fact);
    let mut w = Compensated::new(0, 0);
    let mut it: u32 = 0;
    while it < 10
        invariant
            0 <= i < ni,
            order_in_range(ni as int),
            nf == int_enc(ni as int),
            0 <= it <= 10,
            (parts(t), parts(tp)) == node_state(ni as int, i as int, it as nat),
            node_ok_upto(ni as int, i as int, it as nat),
            it > 0 ==> parts(w) == node_weight(ni as int, i as int, it as nat),
        decreases 10 - it,
    {
        if !sincos_small_accepts(t, tp) {
            proof {
                reveal(node_ok);
                if node_ok(ni as int, i as int) {
                    lemma_ok_upto_mono(ni as int, i as int, (it + 1) as nat, 11);
                }
            }
            return None;
        }
        let (a, b, c) = newton(ni, nf, t, tp);
        t = a;
        tp = b;
        w = c;
        it = it + 1;
    }
    if !sincos_small_accepts(t, tp) {
        assert(!node_ok(ni as int, i as int)) by {
            reveal(node_ok);
        }
        return None;
    }
    let (_s, c) = sincos_small(t, tp);
    assert(node_ok(ni as int, i as int) && (parts(c), parts(w)) == gauss_node(ni as int, i as int)) by {
        reveal(node_ok);
        reveal(gauss_node);
    }
    Some((c, w))
}

/// Gauss-Legendre quadrature nodes and weights `(x, w)` of order
/// `n = x.len()`: fills `x` with the nodes in `(-1, 1)` and the first `n`
/// entries of `w` with the weights.  The cost scales as `O(n^2)`.
///
/// Returns whether every angle that the computation reduces was accepted
/// by `sincos`; where one is not, the contents of `x` and `w` are not
/// specified.
#[verifier::spinoff_prover]
pub fn gauss_legendre(x: &mut [Df64], w: &mut [Df64]) -> (ok: bool)
    requires
        old(x)@.len() <= old(w)@.len(),
        order_in_range(old(x)@.len() as int),
    ensures
        final(x)@.len() == old(x)@.len(),
        final(w)@.len() == old(w)@.len(),
        ok == forall|i: int| 0 <= i < old(x)@.len() ==> node_ok(old(x)@.len() as int, i),
        ok ==> forall|i: int|
            0 <= i < old(x)@.len() ==> parts(#[trigger] final(x)@[i]) == gauss_node(
                old(x)@.len() as int,
                i,
            ).0 && parts(final(w)@[i]) == gauss_node(old(x)@.len() as int, i).1,
        forall|j: int| old(x)@.len() <= j < old(w)@.len() ==> #[trigger] final(w)@[j] == old(w)@[j],
{
    let n = x.len();
    let ghost nn = n as int;
    let ni: i64 = n as i64;
    if n == 0 {
        return true;
    }
    let nf = small_int_enc(ni);
    let fact = div_qd(Compensated::new(PI_HALF, PI_HALF_CORR_HI), nf);
    let mut i: usize = 0;
    while i < n
        invariant
            n == x@.len(),
            x@.len() == old(x)@.len(),
            w@.len() == old(w)@.len(),
            nn == n,
            0 < n,
            order_in_range(nn),
            ni == n,
            nf == int_enc(nn),
            parts(fact) == div_qd_spec(pi_half(), int_enc(nn)),
            n <= w@.len(),
            0 <= i <= n,
            forall|j: int|
                0 <= j < i ==> parts(#[trigger] x@[j]) == gauss_node(nn, j).0 && parts(w@[j])
                    == gauss_node(nn, j).1,
            forall|j: int| 0 <= j < i ==> #[trigger] node_ok(nn, j),
            forall|j: int| n <= j < old(w)@.len() ==> #[trigger] w@[j] == old(w)@[j],
        decreases n - i,
    {
        match node(ni, nf, fact, i as i64) {
            None => {
                return false;
            },
            Some((xi, wi)) => {
                let ghost x_prev = x@;
                let ghost w_prev = w@;
                x[i] = xi;
                w[i] = wi;
                proof {
                    assert forall|j: int| 0 <= j < i + 1 implies parts(#[trigger] x@[j])
                        == gauss_node(nn, j).0 && parts(w@[j]) == gauss_node(nn, j).1 by {
                        if j < i {
                            assert(x@[j] == x_prev[j]);
                            assert(w@[j] == w_prev[j]);
                        }
                    }
                }
            },
        }
        i = i + 1;
    }
    true
}

} // verus!
