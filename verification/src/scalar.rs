//! Exact binary scalars.
//!
//! The weights and frequencies of an oscillator network are carried as exact
//! binary scalars `mant * 2^exp`. Every finite binary floating-point number
//! is such a scalar, so a caller can hand the library its numeric inputs
//! without loss; the library in turn can compare them exactly. A scalar in
//! canonical form (odd mantissa, or the canonical zero) represents its
//! rational value uniquely, so equality of values is equality of fields.

use crate::rational::{lemma_rat_eq_trans, rat_eq, rat_wf, rat_zero, Rat};
use vstd::arithmetic::power2::{
    lemma_pow2_adds, lemma_pow2_pos, lemma_pow2_strictly_increases, lemma_pow2_unfold, pow2,
};
use vstd::prelude::*;

verus! {

/// An exact binary scalar: the rational number `mant * 2^exp`.
#[derive(Clone, Copy, Debug, PartialEq, Eq, Structural)]
pub struct Dyadic {
    pub mant: i64,
    pub exp: i64,
}

/// The rational value of a mantissa–exponent pair.
pub open spec fn dyadic_value(m: int, e: int) -> Rat {
    if e >= 0 {
        Rat { num: m * pow2(e as nat), den: 1 }
    } else {
        Rat { num: m, den: pow2((-e) as nat) as int }
    }
}

/// Canonical form of a mantissa–exponent pair: the mantissa is odd, or the
/// pair is the canonical zero. A canonical pair represents its rational value
/// uniquely (see [`lemma_canonical_pair_eq`]).
pub open spec fn canonical_pair(m: int, e: int) -> bool {
    m % 2 != 0 || (m == 0 && e == 0)
}

impl Dyadic {
    /// The rational value this scalar stands for.
    pub open spec fn value(self) -> Rat {
        dyadic_value(self.mant as int, self.exp as int)
    }

    /// Canonical form: the mantissa is odd, or the scalar is the canonical
    /// zero. Two canonical scalars with the same value have the same fields
    /// (see [`lemma_canonical_value_eq`]).
    pub open spec fn is_canonical(self) -> bool {
        canonical_pair(self.mant as int, self.exp as int)
    }

    /// Builds the canonical scalar with value `mant * 2^exp`.
    pub fn new(mant: i64, exp: i64) -> (r: Dyadic)
        requires
            mant > i64::MIN,
            exp <= i64::MAX - 64,
        ensures
            r.is_canonical(),
            rat_eq(r.value(), dyadic_value(mant as int, exp as int)),
            (r.mant == 0) <==> (mant == 0),
            (r.mant > 0) <==> (mant > 0),
            (r.mant >= 0) <==> (mant >= 0),
    {
        if mant == 0 {
            let r = Dyadic { mant: 0, exp: 0 };
            proof {
                lemma_value_sign(r);
                lemma_value_sign(Dyadic { mant, exp });
                lemma_value_wf(Dyadic { mant, exp });
            }
            return r;
        }
        let neg = mant < 0;
        let mut a: u64 = if neg {
            (-mant) as u64
        } else {
            mant as u64
        };
        let ghost abs0 = a as int;
        let mut e = exp;
        proof {
            vstd::arithmetic::power2::lemma2_to64();
            assert(a as int * pow2((e - exp) as nat) == abs0) by (nonlinear_arith)
                requires
                    pow2((e - exp) as nat) == 1,
                    a as int == abs0,
            ;
        }
        while a % 2 == 0
            invariant
                1 <= a,
                exp <= e <= exp + 63,
                exp <= i64::MAX - 64,
                abs0 < 0x8000_0000_0000_0000,
                a as int * pow2((e - exp) as nat) == abs0,
            decreases a,
        {
            proof {
                let d = (e - exp) as nat;
                lemma_pow2_pos(d);
                assert(a as int * pow2(d) >= pow2(d)) by (nonlinear_arith)
                    requires
                        a >= 1,
                        pow2(d) > 0,
                ;
                if e - exp >= 63 {
                    assert(pow2(63) <= pow2(d)) by {
                        if d > 63 {
                            lemma_pow2_strictly_increases(63, d);
                        }
                    }
                    vstd::arithmetic::power2::lemma2_to64_rest();
                    assert(false);
                }
                let half = a as int / 2;
                assert(a as int == 2 * half);
                lemma_pow2_unfold((d + 1) as nat);
                assert(half * pow2(d + 1) == a as int * pow2(d)) by (nonlinear_arith)
                    requires
                        a as int == 2 * half,
                        pow2(d + 1) == 2 * pow2(d),
                ;
            }
            a = a / 2;
            e = e + 1;
        }
        proof {
            lemma_pow2_pos((e - exp) as nat);
            assert(a as int <= abs0) by (nonlinear_arith)
                requires
                    a as int * pow2((e - exp) as nat) == abs0,
                    pow2((e - exp) as nat) >= 1,
                    a >= 1,
            ;
        }
        let m = if neg {
            -(a as i64)
        } else {
            a as i64
        };
        let r = Dyadic { mant: m, exp: e };
        proof {
            assert(m as int * pow2((e - exp) as nat) == mant as int) by (nonlinear_arith)
                requires
                    a as int * pow2((e - exp) as nat) == abs0,
                    (if neg {
                        m as int == -(a as int) && mant as int == -abs0
                    } else {
                        m as int == a as int && mant as int == abs0
                    }),
            ;
            lemma_value_shift(m as int, e as int, mant as int, exp as int);
        }
        r
    }

    /// Exact equality of the represented values, for canonical scalars.
    pub fn eq_val(&self, other: &Dyadic) -> (r: bool)
        requires
            self.is_canonical(),
            other.is_canonical(),
        ensures
            r <==> *self == *other,
            r <==> rat_eq(self.value(), other.value()),
    {
        proof {
            if rat_eq(self.value(), other.value()) {
                lemma_canonical_value_eq(*self, *other);
            }
        }
        self.mant == other.mant && self.exp == other.exp
    }

    /// The canonical mantissa–exponent pair with this scalar's value. Unlike
    /// [`Dyadic::new`] it accepts any representation: the exponent widens so
    /// that canonicalizing can neither overflow nor lose the value.
    pub fn canonical_parts(&self) -> (r: (i64, i128))
        ensures
            canonical_pair(r.0 as int, r.1 as int),
            rat_eq(dyadic_value(r.0 as int, r.1 as int), self.value()),
            (r.0 > 0) <==> (self.mant > 0),
            (r.0 == 0) <==> (self.mant == 0),
            i64::MIN <= r.1 <= i64::MAX as i128 + 63,
    {
        if self.mant == 0 {
            proof {
                lemma_value_sign(*self);
                lemma_value_sign(Dyadic { mant: 0, exp: 0 });
                lemma_value_wf(*self);
            }
            return (0, 0);
        }
        let neg = self.mant < 0;
        let mut a: u64 = if self.mant == i64::MIN {
            0x8000_0000_0000_0000u64
        } else if neg {
            (-self.mant) as u64
        } else {
            self.mant as u64
        };
        let ghost abs0 = a as int;
        let ghost exp0 = self.exp as int;
        let mut e: i128 = self.exp as i128;
        proof {
            vstd::arithmetic::power2::lemma2_to64();
            assert(a as int * pow2((e - exp0) as nat) == abs0) by (nonlinear_arith)
                requires
                    pow2((e - exp0) as nat) == 1,
                    a as int == abs0,
            ;
        }
        while a % 2 == 0
            invariant
                1 <= a,
                exp0 == self.exp as int,
                exp0 <= e <= exp0 + 63,
                abs0 <= 0x8000_0000_0000_0000,
                a as int * pow2((e - exp0) as nat) == abs0,
            decreases a,
        {
            proof {
                let d = (e - exp0) as nat;
                lemma_pow2_pos(d);
                lemma_pow2_pos((d + 1) as nat);
                lemma_pow2_unfold((d + 1) as nat);
                let half = a as int / 2;
                assert(a as int == 2 * half);
                assert(half * pow2(d + 1) == a as int * pow2(d)) by (nonlinear_arith)
                    requires
                        a as int == 2 * half,
                        pow2(d + 1) == 2 * pow2(d),
                ;
                if e - exp0 >= 63 {
                    assert(pow2(d + 1) <= half * pow2(d + 1)) by (nonlinear_arith)
                        requires
                            half >= 1,
                            pow2(d + 1) > 0,
                    ;
                    assert(pow2(64) <= pow2(d + 1)) by {
                        if d + 1 > 64 {
                            lemma_pow2_strictly_increases(64, (d + 1) as nat);
                        }
                    }
                    vstd::arithmetic::power2::lemma2_to64();
                    assert(false);
                }
            }
            a = a / 2;
            e = e + 1;
        }
        proof {
            lemma_pow2_pos((e - exp0) as nat);
            assert(a as int <= abs0) by (nonlinear_arith)
                requires
                    a as int * pow2((e - exp0) as nat) == abs0,
                    pow2((e - exp0) as nat) >= 1,
                    a >= 1,
            ;
        }
        let m = if neg {
            -(a as i64)
        } else {
            a as i64
        };
        proof {
            assert(m as int * pow2((e - exp0) as nat) == self.mant as int) by (nonlinear_arith)
                requires
                    a as int * pow2((e - exp0) as nat) == abs0,
                    (if neg {
                        m as int == -(a as int) && self.mant as int == -abs0
                    } else {
                        m as int == a as int && self.mant as int == abs0
                    }),
            ;
            lemma_value_shift(m as int, e as int, self.mant as int, exp0);
        }
        (m, e)
    }

    /// Exact equality of the represented values, for any representations:
    /// both sides are canonicalized and the unique canonical forms compared.
    pub fn same_value(&self, other: &Dyadic) -> (r: bool)
        ensures
            r <==> rat_eq(self.value(), other.value()),
    {
        let (ma, ea) = self.canonical_parts();
        let (mb, eb) = other.canonical_parts();
        let r = ma == mb && ea == eb;
        proof {
            let va = self.value();
            let vb = other.value();
            let ca = dyadic_value(ma as int, ea as int);
            let cb = dyadic_value(mb as int, eb as int);
            lemma_value_wf(*self);
            lemma_value_wf(*other);
            lemma_dyadic_value_wf(ma as int, ea as int);
            lemma_dyadic_value_wf(mb as int, eb as int);
            if r {
                assert(rat_eq(va, ca));
                assert(rat_eq(ca, vb));
                lemma_rat_eq_trans(va, ca, vb);
            } else if rat_eq(va, vb) {
                assert(rat_eq(ca, va));
                lemma_rat_eq_trans(ca, va, vb);
                assert(rat_eq(vb, cb));
                lemma_rat_eq_trans(ca, vb, cb);
                lemma_canonical_pair_eq(ma as int, ea as int, mb as int, eb as int);
                assert(false);
            }
        }
        r
    }

    /// Whether the scalar is zero.
    pub fn is_zero(&self) -> (r: bool)
        ensures
            r <==> self.mant == 0,
            r <==> rat_eq(self.value(), rat_zero()),
    {
        proof {
            lemma_value_zero_iff(*self);
        }
        self.mant == 0
    }

    /// Whether the scalar is at least zero.
    pub fn is_nonneg(&self) -> (r: bool)
        ensures
            r <==> self.mant >= 0,
            r <==> self.value().num >= 0,
    {
        proof {
            lemma_value_sign(*self);
        }
        self.mant >= 0
    }

    /// Whether the scalar is strictly positive.
    pub fn is_pos(&self) -> (r: bool)
        ensures
            r <==> self.mant > 0,
            r <==> self.value().num > 0,
    {
        proof {
            lemma_value_sign(*self);
        }
        self.mant > 0
    }
}

/// The value of any scalar is a well-formed rational.
pub proof fn lemma_value_wf(d: Dyadic)
    ensures
        rat_wf(d.value()),
{
    if d.exp < 0 {
        lemma_pow2_pos((-d.exp) as nat);
    }
}

/// A scalar is zero exactly when its mantissa is.
pub proof fn lemma_value_zero_iff(d: Dyadic)
    ensures
        d.mant == 0 <==> rat_eq(d.value(), rat_zero()),
{
    lemma_value_sign(d);
}

/// The sign of the value is the sign of the mantissa.
pub proof fn lemma_value_sign(d: Dyadic)
    ensures
        d.value().num > 0 <==> d.mant > 0,
        d.value().num == 0 <==> d.mant == 0,
        d.value().num < 0 <==> d.mant < 0,
{
    if d.exp >= 0 {
        let p = pow2(d.exp as nat);
        lemma_pow2_pos(d.exp as nat);
        assert((d.mant as int * p > 0 <==> d.mant > 0) && (d.mant as int * p == 0 <==> d.mant
            == 0)) by (nonlinear_arith)
            requires
                p > 0,
        ;
    }
}

/// Raising the exponent while multiplying the mantissa by the matching power
/// of two keeps the value: `mh * 2^eh == (mh * 2^(eh-el)) * 2^el`.
pub proof fn lemma_value_shift(mh: int, eh: int, ml: int, el: int)
    requires
        el <= eh,
        ml == mh * pow2((eh - el) as nat),
    ensures
        rat_eq(dyadic_value(mh, eh), dyadic_value(ml, el)),
{
    let d = (eh - el) as nat;
    if el >= 0 {
        lemma_pow2_adds(d, el as nat);
        assert(mh * pow2(eh as nat) == (mh * pow2(d)) * pow2(el as nat)) by (nonlinear_arith)
            requires
                pow2(eh as nat) == pow2(d) * pow2(el as nat),
        ;
    } else if eh >= 0 {
        // eh >= 0 > el: show mh * 2^eh * 2^(-el) == ml.
        lemma_pow2_adds(eh as nat, (-el) as nat);
        assert((mh * pow2(eh as nat)) * pow2((-el) as nat) == mh * pow2(d)) by (nonlinear_arith)
            requires
                pow2(d) == pow2(eh as nat) * pow2((-el) as nat),
        ;
    } else {
        // 0 > eh >= el: show mh * 2^(-el) == ml * 2^(-eh).
        lemma_pow2_adds(d, (-eh) as nat);
        assert(mh * pow2((-el) as nat) == (mh * pow2(d)) * pow2((-eh) as nat)) by (nonlinear_arith)
            requires
                pow2((-el) as nat) == pow2(d) * pow2((-eh) as nat),
        ;
    }
}

/// Canonical forms are unique: two canonical scalars with equal values have
/// equal fields.
pub proof fn lemma_canonical_value_eq(a: Dyadic, b: Dyadic)
    requires
        a.is_canonical(),
        b.is_canonical(),
        rat_eq(a.value(), b.value()),
    ensures
        a == b,
{
    lemma_canonical_pair_eq(a.mant as int, a.exp as int, b.mant as int, b.exp as int);
}

/// Canonical mantissa–exponent pairs are unique representatives of their
/// rational values.
pub proof fn lemma_canonical_pair_eq(ma: int, ea: int, mb: int, eb: int)
    requires
        canonical_pair(ma, ea),
        canonical_pair(mb, eb),
        rat_eq(dyadic_value(ma, ea), dyadic_value(mb, eb)),
    ensures
        ma == mb,
        ea == eb,
{
    if ea <= eb {
        lemma_canonical_pair_eq_ordered(ma, ea, mb, eb);
    } else {
        lemma_canonical_pair_eq_ordered(mb, eb, ma, ea);
    }
}

proof fn lemma_canonical_pair_eq_ordered(ma: int, ea: int, mb: int, eb: int)
    requires
        canonical_pair(ma, ea),
        canonical_pair(mb, eb),
        rat_eq(dyadic_value(ma, ea), dyadic_value(mb, eb)),
        ea <= eb,
    ensures
        ma == mb,
        ea == eb,
{
    let d = (eb - ea) as nat;
    lemma_pow2_pos(d);
    vstd::arithmetic::power2::lemma2_to64();
    // In every sign case of the exponents, cross multiplication reduces to
    // ma == mb * 2^d after cancelling a positive common factor.
    if ea >= 0 {
        lemma_pow2_adds(d, ea as nat);
        let k = pow2(ea as nat) as int;
        lemma_pow2_pos(ea as nat);
        assert(ma == mb * pow2(d)) by (nonlinear_arith)
            requires
                (ma * k) * 1 == (mb * (pow2(d) * k)) * 1,
                k > 0,
        ;
    } else if eb >= 0 {
        // ea < 0 <= eb: ma * 1 == mb * 2^eb * 2^(-ea).
        lemma_pow2_adds(eb as nat, (-ea) as nat);
        assert(ma == mb * pow2(d)) by (nonlinear_arith)
            requires
                ma * 1 == (mb * pow2(eb as nat)) * (pow2((-ea) as nat) as int),
                pow2(d) == pow2(eb as nat) * pow2((-ea) as nat),
        ;
    } else {
        // ea <= eb < 0: ma * 2^(-eb) == mb * 2^(-ea).
        lemma_pow2_adds(d, (-eb) as nat);
        let k = pow2((-eb) as nat) as int;
        lemma_pow2_pos((-eb) as nat);
        assert(ma == mb * pow2(d)) by (nonlinear_arith)
            requires
                ma * k == mb * (pow2((-ea) as nat) as int),
                pow2((-ea) as nat) == pow2(d) * k,
                k > 0,
        ;
    }
    if eb > ea {
        lemma_pow2_unfold(d);
        assert(ma == (mb * pow2((d - 1) as nat)) * 2) by (nonlinear_arith)
            requires
                ma == mb * pow2(d),
                pow2(d) == 2 * pow2((d - 1) as nat),
        ;
        assert(ma % 2 == 0);
        // A canonical even mantissa is the canonical zero.
        assert(ma == 0 && ea == 0);
        assert(mb * pow2(d) == 0);
        assert(mb == 0) by (nonlinear_arith)
            requires
                mb * pow2(d) == 0,
                pow2(d) > 0,
        ;
        assert(eb == 0);
        assert(false);
    }
    assert(ma == mb) by (nonlinear_arith)
        requires
            ma == mb * pow2(d),
            pow2(d) == 1,
    ;
}

/// The value of any mantissa–exponent pair is a well-formed rational.
pub proof fn lemma_dyadic_value_wf(m: int, e: int)
    ensures
        rat_wf(dyadic_value(m, e)),
{
    if e < 0 {
        lemma_pow2_pos((-e) as nat);
    }
}

/// Comparing a value against an integer multiple of another value reduces to
/// one integer inequality, after bringing both to the smaller exponent.
pub proof fn lemma_le_scale(mt: int, et: int, md: int, ed: int, k: int)
    requires
        md > 0,
    ensures
        et >= ed ==> (crate::rational::rat_le(
            dyadic_value(mt, et),
            crate::rational::rat_scale(k, dyadic_value(md, ed)),
        ) <==> mt * pow2((et - ed) as nat) <= k * md),
        et < ed ==> (crate::rational::rat_le(
            dyadic_value(mt, et),
            crate::rational::rat_scale(k, dyadic_value(md, ed)),
        ) <==> mt <= k * (md * pow2((ed - et) as nat))),
{
    if et >= ed {
        let d = (et - ed) as nat;
        if ed >= 0 {
            // values mt*2^et and k*md*2^ed over denominator one.
            lemma_pow2_adds(d, ed as nat);
            lemma_pow2_pos(ed as nat);
            assert((mt * pow2(et as nat)) * 1 <= (k * (md * pow2(ed as nat))) * 1 <==> mt * pow2(d)
                <= k * md) by (nonlinear_arith)
                requires
                    pow2(et as nat) == pow2(d) * pow2(ed as nat),
                    pow2(ed as nat) > 0,
            ;
        } else if et >= 0 {
            // et >= 0 > ed: cross multiplication by 2^(-ed).
            lemma_pow2_adds(et as nat, (-ed) as nat);
            assert((mt * pow2(et as nat)) * (pow2((-ed) as nat) as int) <= (k * md) * 1 <==> mt
                * pow2(d) <= k * md) by (nonlinear_arith)
                requires
                    pow2(d) == pow2(et as nat) * pow2((-ed) as nat),
            ;
        } else {
            // 0 > et >= ed.
            lemma_pow2_adds(d, (-et) as nat);
            lemma_pow2_pos((-et) as nat);
            assert(mt * (pow2((-ed) as nat) as int) <= (k * md) * (pow2((-et) as nat) as int)
                <==> mt * pow2(d) <= k * md) by (nonlinear_arith)
                requires
                    pow2((-ed) as nat) == pow2(d) * pow2((-et) as nat),
                    pow2((-et) as nat) > 0,
            ;
        }
    } else {
        let d = (ed - et) as nat;
        if et >= 0 {
            // ed > et >= 0.
            lemma_pow2_adds(d, et as nat);
            lemma_pow2_pos(et as nat);
            assert((mt * pow2(et as nat)) * 1 <= (k * (md * pow2(ed as nat))) * 1 <==> mt <= k * (
            md * pow2(d))) by (nonlinear_arith)
                requires
                    pow2(ed as nat) == pow2(d) * pow2(et as nat),
                    pow2(et as nat) > 0,
            ;
        } else if ed >= 0 {
            // ed >= 0 > et.
            lemma_pow2_adds(ed as nat, (-et) as nat);
            assert(mt * 1 <= (k * (md * pow2(ed as nat))) * (pow2((-et) as nat) as int) <==> mt <= k
                * (md * pow2(d))) by (nonlinear_arith)
                requires
                    pow2(d) == pow2(ed as nat) * pow2((-et) as nat),
            ;
        } else {
            // 0 > ed > et.
            lemma_pow2_adds(d, (-ed) as nat);
            lemma_pow2_pos((-ed) as nat);
            assert(mt * (pow2((-ed) as nat) as int) <= (k * md) * (pow2((-et) as nat) as int)
                <==> mt <= k * (md * pow2(d))) by (nonlinear_arith)
                requires
                    pow2((-et) as nat) == pow2(d) * pow2((-ed) as nat),
                    pow2((-ed) as nat) > 0,
            ;
        }
    }
}

} // verus!
