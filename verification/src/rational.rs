//! Ghost rational numbers.
//!
//! The weights and frequencies of the oscillator network are exact binary
//! scalars; their mathematical values are rationals. This module gives the
//! specification-level rational arithmetic that the contracts of the rest of
//! the library are stated over, together with the lemmas those contracts need.

use vstd::prelude::*;

verus! {

/// A rational number `num / den`. Meaningful when `den > 0` (see [`rat_wf`]).
pub ghost struct Rat {
    pub num: int,
    pub den: int,
}

/// Well-formedness: the denominator is positive.
pub open spec fn rat_wf(r: Rat) -> bool {
    r.den > 0
}

/// Equality of the represented rationals, by cross multiplication.
pub open spec fn rat_eq(a: Rat, b: Rat) -> bool {
    a.num * b.den == b.num * a.den
}

pub open spec fn rat_zero() -> Rat {
    Rat { num: 0, den: 1 }
}

pub open spec fn rat_one() -> Rat {
    Rat { num: 1, den: 1 }
}

pub open spec fn rat_add(a: Rat, b: Rat) -> Rat {
    Rat { num: a.num * b.den + b.num * a.den, den: a.den * b.den }
}

/// The quotient `a / b`; meaningful when `b.num > 0`, which keeps the
/// denominator positive.
pub open spec fn rat_div(a: Rat, b: Rat) -> Rat {
    Rat { num: a.num * b.den, den: a.den * b.num }
}

/// `rat_eq` is reflexive and symmetric by definition; it is also transitive
/// on well-formed rationals.
pub proof fn lemma_rat_eq_trans(a: Rat, b: Rat, c: Rat)
    requires
        rat_wf(a),
        rat_wf(b),
        rat_wf(c),
        rat_eq(a, b),
        rat_eq(b, c),
    ensures
        rat_eq(a, c),
{
    assert(a.num * c.den == c.num * a.den) by (nonlinear_arith)
        requires
            a.num * b.den == b.num * a.den,
            b.num * c.den == c.num * b.den,
            b.den > 0,
    ;
}

/// Addition preserves well-formedness.
pub proof fn lemma_rat_add_wf(a: Rat, b: Rat)
    requires
        rat_wf(a),
        rat_wf(b),
    ensures
        rat_wf(rat_add(a, b)),
{
    assert(a.den * b.den > 0) by (nonlinear_arith)
        requires
            a.den > 0,
            b.den > 0,
    ;
}

/// Adding fractions over a common divisor: `p/s + v/s == (p + v)/s`.
#[verifier::rlimit(100)]
pub proof fn lemma_rat_div_add(p: Rat, v: Rat, s: Rat)
    requires
        rat_wf(p),
        rat_wf(v),
        rat_wf(s),
        s.num > 0,
    ensures
        rat_eq(rat_add(rat_div(p, s), rat_div(v, s)), rat_div(rat_add(p, v), s)),
{
    let lhs = rat_add(rat_div(p, s), rat_div(v, s));
    let rhs = rat_div(rat_add(p, v), s);
    let pn = p.num;
    let pd = p.den;
    let vn = v.num;
    let vd = v.den;
    let sn = s.num;
    let sd = s.den;
    let c = pn * vd + vn * pd;
    assert((pn * sd) * (vd * sn) == (pn * vd) * (sd * sn)) by (nonlinear_arith);
    assert((vn * sd) * (pd * sn) == (vn * pd) * (sd * sn)) by (nonlinear_arith);
    assert((pn * vd) * (sd * sn) + (vn * pd) * (sd * sn) == c * (sd * sn)) by (nonlinear_arith)
        requires
            c == pn * vd + vn * pd,
    ;
    assert(lhs.num == c * (sd * sn));
    assert((c * (sd * sn)) * ((pd * vd) * sn) == (c * sd) * ((pd * sn) * (vd * sn)))
        by (nonlinear_arith);
    assert(lhs.num * rhs.den == rhs.num * lhs.den);
}

/// Replacing one summand by an equal rational keeps the sum equal.
#[verifier::rlimit(100)]
pub proof fn lemma_rat_add_congruence(a: Rat, b: Rat, c: Rat)
    requires
        rat_wf(a),
        rat_wf(b),
        rat_wf(c),
        rat_eq(a, b),
    ensures
        rat_eq(rat_add(a, c), rat_add(b, c)),
{
    let lhs = rat_add(a, c);
    let rhs = rat_add(b, c);
    assert((a.num * c.den + c.num * a.den) * (b.den * c.den) == (a.num * b.den) * (c.den * c.den)
        + (c.num * c.den) * (a.den * b.den)) by (nonlinear_arith);
    assert((b.num * c.den + c.num * b.den) * (a.den * c.den) == (b.num * a.den) * (c.den * c.den)
        + (c.num * c.den) * (a.den * b.den)) by (nonlinear_arith);
    assert(lhs.num * rhs.den == rhs.num * lhs.den);
}

/// Order on the represented rationals, by cross multiplication; meaningful
/// for well-formed rationals.
pub open spec fn rat_le(a: Rat, b: Rat) -> bool {
    a.num * b.den <= b.num * a.den
}

/// The integer multiple `k * a`.
pub open spec fn rat_scale(k: int, a: Rat) -> Rat {
    Rat { num: k * a.num, den: a.den }
}

/// Scaling respects equality of the represented rationals.
pub proof fn lemma_rat_scale_congruence(k: int, a: Rat, b: Rat)
    requires
        rat_eq(a, b),
    ensures
        rat_eq(rat_scale(k, a), rat_scale(k, b)),
{
    assert((k * a.num) * b.den == (k * b.num) * a.den) by (nonlinear_arith)
        requires
            a.num * b.den == b.num * a.den,
    ;
}

/// `rat_le` respects equality of the represented rationals.
pub proof fn lemma_rat_le_congruence(a: Rat, a2: Rat, b: Rat, b2: Rat)
    requires
        rat_wf(a),
        rat_wf(a2),
        rat_wf(b),
        rat_wf(b2),
        rat_eq(a, a2),
        rat_eq(b, b2),
    ensures
        rat_le(a, b) <==> rat_le(a2, b2),
{
    if rat_le(a, b) {
        lemma_rat_le_transport(a, a2, b, b2);
    }
    if rat_le(a2, b2) {
        lemma_rat_le_transport(a2, a, b2, b);
    }
}

#[verifier::rlimit(100)]
proof fn lemma_rat_le_transport(a: Rat, a2: Rat, b: Rat, b2: Rat)
    requires
        rat_wf(a),
        rat_wf(a2),
        rat_wf(b),
        rat_wf(b2),
        rat_eq(a, a2),
        rat_eq(b, b2),
        rat_le(a, b),
    ensures
        rat_le(a2, b2),
{
    let an = a.num;
    let ad = a.den;
    let bn = b.num;
    let bd = b.den;
    let cn = a2.num;
    let cd = a2.den;
    let dn = b2.num;
    let dd = b2.den;
    assert((an * bd) * (cd * dd) <= (bn * ad) * (cd * dd)) by (nonlinear_arith)
        requires
            an * bd <= bn * ad,
            cd > 0,
            dd > 0,
    ;
    assert((an * bd) * (cd * dd) == (an * cd) * (bd * dd)) by (nonlinear_arith);
    assert((an * cd) * (bd * dd) == (cn * ad) * (bd * dd)) by (nonlinear_arith)
        requires
            an * cd == cn * ad,
    ;
    assert((cn * ad) * (bd * dd) == (cn * dd) * (ad * bd)) by (nonlinear_arith);
    assert((bn * ad) * (cd * dd) == (bn * dd) * (ad * cd)) by (nonlinear_arith);
    assert((bn * dd) * (ad * cd) == (dn * bd) * (ad * cd)) by (nonlinear_arith)
        requires
            bn * dd == dn * bd,
    ;
    assert((dn * bd) * (ad * cd) == (dn * cd) * (ad * bd)) by (nonlinear_arith);
    assert(cn * dd <= dn * cd) by (nonlinear_arith)
        requires
            (cn * dd) * (ad * bd) <= (dn * cd) * (ad * bd),
            ad > 0,
            bd > 0,
    ;
}

/// A quotient `s/s` of a positive rational by itself is one.
pub proof fn lemma_rat_div_self_one(s: Rat)
    requires
        rat_wf(s),
        s.num > 0,
    ensures
        rat_eq(rat_div(s, s), rat_one()),
{
    assert((s.num * s.den) * 1 == 1 * (s.den * s.num)) by (nonlinear_arith);
}

} // verus!
