//! The fixed-point decimal model.
//!
//! A [`Dec`] is a sign, a 96-bit mantissa and a scale: it denotes the
//! rational `±mant / 10^scale`. Comparison is verified rational
//! comparison; parsing, formatting and arithmetic rely on the
//! `rust_decimal` crate through trusted wrappers.
use vstd::prelude::*;

verus! {

/// A fixed-point decimal: the rational `±mant / 10^scale`.
#[derive(Clone, Copy, Debug, PartialEq, Eq, Structural, Hash)]
pub struct Dec {
    pub neg: bool,
    pub mant: u128,
    pub scale: u32,
}

pub open spec fn pow10(n: nat) -> nat
    decreases n,
{
    if n == 0 {
        1
    } else {
        10 * pow10((n - 1) as nat)
    }
}

impl Dec {
    /// The mantissa fits in 96 bits and the scale is at most 28, as in
    /// the wire representation.
    pub open spec fn wf(&self) -> bool {
        self.mant < 0x1000000000000000000000000 && self.scale <= 28
    }

    /// The signed numerator of the denoted rational.
    pub open spec fn num(&self) -> int {
        if self.neg {
            -(self.mant as int)
        } else {
            self.mant as int
        }
    }

    /// The two decimals denote the same rational.
    pub open spec fn same_value(&self, other: &Dec) -> bool {
        self.num() * pow10(other.scale as nat) == other.num() * pow10(self.scale as nat)
    }

    /// The representation carries no trailing zero and zero itself is
    /// unsigned with scale zero.
    pub open spec fn normalized(&self) -> bool {
        if self.mant == 0 {
            self.scale == 0 && !self.neg
        } else {
            self.scale == 0 || self.mant % 10 != 0
        }
    }

    /// The decimal denoting the given unsigned integer.
    pub fn from_u64(v: u64) -> (r: Dec)
        ensures
            r.wf(),
            r.num() == v as int,
            r.scale == 0,
    {
        Dec { neg: false, mant: v as u128, scale: 0 }
    }

    /// The decimal denoting the given signed integer.
    pub fn from_i64(v: i64) -> (r: Dec)
        ensures
            r.wf(),
            r.num() == v as int,
            r.scale == 0,
    {
        if v < 0 {
            let m: u128 = -((v as i128)) as u128;
            Dec { neg: true, mant: m, scale: 0 }
        } else {
            Dec { neg: false, mant: v as u128, scale: 0 }
        }
    }
}

proof fn lemma_pow10_pos(n: nat)
    ensures
        pow10(n) >= 1,
    decreases n,
{
    if n > 0 {
        lemma_pow10_pos((n - 1) as nat);
    }
}

/// Powers of ten are positive.
pub proof fn lemma_pow10_pos_pub(n: nat)
    ensures
        pow10(n) >= 1,
{
    lemma_pow10_pos(n);
}

proof fn lemma_pow10_add(a: nat, b: nat)
    ensures
        pow10(a + b) == pow10(a) * pow10(b),
    decreases a,
{
    if a == 0 {
        assert(pow10(b) == 1 * pow10(b)) by (nonlinear_arith);
    } else {
        lemma_pow10_add((a - 1) as nat, b);
        assert(10 * (pow10((a - 1) as nat) * pow10(b)) == (10 * pow10((a - 1) as nat))
            * pow10(b)) by (nonlinear_arith);
    }
}

proof fn lemma_pow10_le(a: nat, b: nat)
    requires
        a <= b,
    ensures
        pow10(a) <= pow10(b),
    decreases b,
{
    if a < b {
        lemma_pow10_le(a, (b - 1) as nat);
        lemma_pow10_pos((b - 1) as nat);
    }
}

/// 10^38 still fits in a `u128`.
fn pow10_u128(d: u32) -> (r: u128)
    requires
        d <= 38,
    ensures
        r == pow10(d as nat),
        r >= 1,
    decreases d,
{
    proof {
        assert(pow10(38) == 100000000000000000000000000000000000000) by {
            reveal_with_fuel(pow10, 39);
        }
    }
    if d == 0 {
        1
    } else {
        let rest = pow10_u128(d - 1);
        proof {
            lemma_pow10_le(d as nat, 38);
            lemma_pow10_pos((d - 1) as nat);
        }
        10 * rest
    }
}

/// Compares `ma * pow10(d)` against `mb`, all non-negative, without
/// overflowing.
fn scaled_cmp(ma: u128, d: u32, mb: u128) -> (r: core::cmp::Ordering)
    requires
        ma < 0x1000000000000000000000000,
        mb < 0x1000000000000000000000000,
    ensures
        (r == core::cmp::Ordering::Equal) <==> ma * pow10(d as nat) == mb,
        (r == core::cmp::Ordering::Less) <==> ma * pow10(d as nat) < mb,
        (r == core::cmp::Ordering::Greater) <==> ma * pow10(d as nat) > mb,
{
    proof {
        lemma_pow10_pos(d as nat);
    }
    if ma == 0 {
        if mb == 0 {
            core::cmp::Ordering::Equal
        } else {
            core::cmp::Ordering::Less
        }
    } else if d > 38 {
        proof {
            assert(pow10(39) == 1000000000000000000000000000000000000000) by {
                reveal_with_fuel(pow10, 40);
            }
            lemma_pow10_le(39, d as nat);
            assert(ma * pow10(d as nat) >= 1 * pow10(d as nat)) by (nonlinear_arith)
                requires
                    ma >= 1,
                    pow10(d as nat) >= 0,
            ;
        }
        core::cmp::Ordering::Greater
    } else {
        let p = pow10_u128(d);
        let limit = u128::MAX / p;
        if ma > limit {
            proof {
                assert(ma * p > mb) by (nonlinear_arith)
                    requires
                        ma > u128::MAX as int / (p as int),
                        p >= 1,
                        mb <= u128::MAX as int,
                        mb < 0x1000000000000000000000000,
                        ma * p > u128::MAX as int ==> ma * p > mb,
                {
                    assert((u128::MAX as int / (p as int)) * p + p > u128::MAX as int);
                }
            }
            core::cmp::Ordering::Greater
        } else {
            proof {
                assert(ma * p <= u128::MAX as int) by (nonlinear_arith)
                    requires
                        ma <= u128::MAX as int / (p as int),
                        p >= 1,
                {
                    assert((u128::MAX as int / (p as int)) * p <= u128::MAX as int);
                }
            }
            let x = ma * p;
            if x == mb {
                core::cmp::Ordering::Equal
            } else if x < mb {
                core::cmp::Ordering::Less
            } else {
                core::cmp::Ordering::Greater
            }
        }
    }
}

/// Compares the magnitudes `ma / 10^sa` against `mb / 10^sb`.
fn mag_cmp(ma: u128, sa: u32, mb: u128, sb: u32) -> (r: core::cmp::Ordering)
    requires
        ma < 0x1000000000000000000000000,
        mb < 0x1000000000000000000000000,
    ensures
        (r == core::cmp::Ordering::Equal) <==> ma * pow10(sb as nat) == mb * pow10(
            sa as nat,
        ),
        (r == core::cmp::Ordering::Less) <==> ma * pow10(sb as nat) < mb * pow10(sa as nat),
        (r == core::cmp::Ordering::Greater) <==> ma * pow10(sb as nat) > mb * pow10(
            sa as nat,
        ),
{
    if sa <= sb {
        let r = scaled_cmp(ma, sb - sa, mb);
        proof {
            lemma_pow10_add((sb - sa) as nat, sa as nat);
            lemma_pow10_pos(sa as nat);
            let pa = pow10(sa as nat) as int;
            let pd = pow10((sb - sa) as nat) as int;
            assert(ma * (pd * pa) == (ma * pd) * pa) by (nonlinear_arith);
            assert(((ma * pd) * pa == mb * pa) == (ma * pd == mb) && ((ma * pd) * pa < mb
                * pa) == (ma * pd < mb) && ((ma * pd) * pa > mb * pa) == (ma * pd > mb))
                by (nonlinear_arith)
                requires
                    pa >= 1,
            ;
        }
        r
    } else {
        let r = scaled_cmp(mb, sa - sb, ma);
        proof {
            lemma_pow10_add((sa - sb) as nat, sb as nat);
            lemma_pow10_pos(sb as nat);
            let pb = pow10(sb as nat) as int;
            let pd = pow10((sa - sb) as nat) as int;
            assert(mb * (pd * pb) == (mb * pd) * pb) by (nonlinear_arith);
            assert(((mb * pd) * pb == ma * pb) == (mb * pd == ma) && ((mb * pd) * pb < ma
                * pb) == (mb * pd < ma) && ((mb * pd) * pb > ma * pb) == (mb * pd > ma))
                by (nonlinear_arith)
                requires
                    pb >= 1,
            ;
        }
        match r {
            core::cmp::Ordering::Equal => core::cmp::Ordering::Equal,
            core::cmp::Ordering::Less => core::cmp::Ordering::Greater,
            core::cmp::Ordering::Greater => core::cmp::Ordering::Less,
        }
    }
}

/// Rational comparison of two decimals: the total order of the denoted
/// values, with `-0` equal to `0`.
pub fn dec_cmp(a: &Dec, b: &Dec) -> (r: core::cmp::Ordering)
    requires
        a.wf(),
        b.wf(),
    ensures
        (r == core::cmp::Ordering::Equal) <==> a.num() * pow10(b.scale as nat) == b.num()
            * pow10(a.scale as nat),
        (r == core::cmp::Ordering::Less) <==> a.num() * pow10(b.scale as nat) < b.num()
            * pow10(a.scale as nat),
        (r == core::cmp::Ordering::Greater) <==> a.num() * pow10(b.scale as nat) > b.num()
            * pow10(a.scale as nat),
{
    proof {
        lemma_pow10_pos(a.scale as nat);
        lemma_pow10_pos(b.scale as nat);
    }
    let ghost pa = pow10(a.scale as nat) as int;
    let ghost pb = pow10(b.scale as nat) as int;
    let ghost ma = a.mant as int;
    let ghost mb = b.mant as int;
    proof {
        assert((-ma) * pb == -(ma * pb) && (-mb) * pa == -(mb * pa) && (ma >= 1 ==> ma
            * pb >= 1) && (mb >= 1 ==> mb * pa >= 1) && ma * pb >= 0 && mb * pa >= 0)
            by (nonlinear_arith)
            requires
                pa >= 1,
                pb >= 1,
                ma >= 0,
                mb >= 0,
        ;
    }
    let aneg = a.neg && a.mant != 0;
    let bneg = b.neg && b.mant != 0;
    if aneg && !bneg {
        core::cmp::Ordering::Less
    } else if !aneg && bneg {
        core::cmp::Ordering::Greater
    } else if !aneg && !bneg {
        mag_cmp(a.mant, a.scale, b.mant, b.scale)
    } else {
        let r = mag_cmp(a.mant, a.scale, b.mant, b.scale);
        match r {
            core::cmp::Ordering::Equal => core::cmp::Ordering::Equal,
            core::cmp::Ordering::Less => core::cmp::Ordering::Greater,
            core::cmp::Ordering::Greater => core::cmp::Ordering::Less,
        }
    }
}

/// The normal form of a decimal: trailing zeros stripped, zero itself
/// unsigned with scale zero.
pub open spec fn norm_spec(d: Dec) -> Dec
    decreases d.scale,
{
    if d.mant == 0 {
        Dec { neg: false, mant: 0, scale: 0 }
    } else if d.scale > 0 && d.mant % 10 == 0 {
        norm_spec(Dec { neg: d.neg, mant: d.mant / 10, scale: (d.scale - 1) as u32 })
    } else {
        d
    }
}

/// The normal form is well formed, normalized, and denotes the same
/// rational.
pub proof fn lemma_norm_spec(d: Dec)
    requires
        d.wf(),
    ensures
        norm_spec(d).wf(),
        norm_spec(d).normalized(),
        norm_spec(d).same_value(&d),
    decreases d.scale,
{
    lemma_pow10_pos(d.scale as nat);
    if d.mant == 0 {
        let r = norm_spec(d);
        assert(r.num() * pow10(d.scale as nat) == 0 && d.num() * pow10(0) == 0)
            by (nonlinear_arith)
            requires
                r.num() == 0,
                d.num() == 0,
        ;
    } else if d.scale > 0 && d.mant % 10 == 0 {
        let e = Dec { neg: d.neg, mant: d.mant / 10, scale: (d.scale - 1) as u32 };
        lemma_norm_spec(e);
        assert(d.mant == 10 * (d.mant / 10));
        lemma_pow10_pos(e.scale as nat);
        assert(pow10(d.scale as nat) == 10 * pow10(e.scale as nat));
        assert(e.num() * pow10(d.scale as nat) == d.num() * pow10(e.scale as nat))
            by (nonlinear_arith)
            requires
                d.mant == 10 * e.mant,
                pow10(d.scale as nat) == 10 * pow10(e.scale as nat),
                e.num() == if d.neg {
                    -(e.mant as int)
                } else {
                    e.mant as int
                },
                d.num() == if d.neg {
                    -(d.mant as int)
                } else {
                    d.mant as int
                },
        ;
        lemma_same_value_trans(norm_spec(d), e, d);
    } else {
        assert(d.same_value(&d));
    }
}

/// Decimals denoting the same rational have the same normal form.
pub proof fn lemma_norm_same(a: Dec, b: Dec)
    requires
        a.wf(),
        b.wf(),
        a.same_value(&b),
    ensures
        norm_spec(a) == norm_spec(b),
{
    lemma_norm_spec(a);
    lemma_norm_spec(b);
    lemma_same_value_trans(norm_spec(a), a, b);
    assert(b.same_value(&norm_spec(b))) by {
        let nb = norm_spec(b);
        lemma_pow10_pos(b.scale as nat);
        lemma_pow10_pos(nb.scale as nat);
        assert(nb.num() * pow10(b.scale as nat) == b.num() * pow10(nb.scale as nat));
    }
    lemma_same_value_trans(norm_spec(a), b, norm_spec(b));
    lemma_normal_unique(norm_spec(a), norm_spec(b));
}

/// Strips trailing zeros from the mantissa and gives zero its one
/// canonical form; the denoted rational is unchanged. Two decimals
/// denote the same rational exactly when their normal forms are equal,
/// which is what hashing relies on.
pub fn dec_normalize(d: &Dec) -> (r: Dec)
    requires
        d.wf(),
    ensures
        r.wf(),
        r.normalized(),
        r.same_value(d),
        r == norm_spec(*d),
{
    if d.mant == 0 {
        let r = Dec { neg: false, mant: 0, scale: 0 };
        proof {
            lemma_pow10_pos(d.scale as nat);
            assert(r.num() * pow10(d.scale as nat) == 0 && d.num() * pow10(0) == 0)
                by (nonlinear_arith)
                requires
                    r.num() == 0,
                    d.num() == 0,
            ;
        }
        r
    } else {
        let mut mant = d.mant;
        let mut scale = d.scale;
        proof {
            lemma_pow10_pos(d.scale as nat);
            assert(d.num() * pow10(d.scale as nat) == d.num() * pow10(d.scale as nat));
        }
        let ghost dn = Dec { neg: d.neg, mant: d.mant, scale: d.scale };
        while scale > 0 && mant % 10 == 0
            invariant
                mant <= d.mant,
                mant >= 1 || d.mant == 0,
                d.mant > 0,
                scale <= d.scale,
                (Dec { neg: d.neg, mant, scale }).same_value(d),
            decreases scale,
        {
            let ghost before = Dec { neg: d.neg, mant, scale };
            mant = mant / 10;
            scale = scale - 1;
            proof {
                let after = Dec { neg: d.neg, mant: before.mant / 10, scale:
                    (before.scale - 1) as u32 };
                assert(before.mant == 10 * (before.mant / 10));
                lemma_pow10_pos(after.scale as nat);
                assert(pow10(before.scale as nat) == 10 * pow10(after.scale as nat));
                assert(after.num() * pow10(before.scale as nat) == before.num() * pow10(
                    after.scale as nat)) by (nonlinear_arith)
                    requires
                        before.mant == 10 * after.mant,
                        pow10(before.scale as nat) == 10 * pow10(after.scale as nat),
                        after.num() == if d.neg {
                            -(after.mant as int)
                        } else {
                            after.mant as int
                        },
                        before.num() == if d.neg {
                            -(before.mant as int)
                        } else {
                            before.mant as int
                        },
                ;
                lemma_same_value_trans(after, before, *d);
            }
        }
        let r = Dec { neg: d.neg, mant, scale };
        proof {
            lemma_norm_spec(*d);
            let nd = norm_spec(*d);
            assert(d.same_value(&nd)) by {
                lemma_pow10_pos(d.scale as nat);
                lemma_pow10_pos(nd.scale as nat);
                assert(nd.num() * pow10(d.scale as nat) == d.num() * pow10(
                    nd.scale as nat,
                ));
            }
            lemma_same_value_trans(r, *d, nd);
            lemma_normal_unique(r, nd);
        }
        r
    }
}

proof fn lemma_same_value_trans(a: Dec, b: Dec, c: Dec)
    requires
        a.same_value(&b),
        b.same_value(&c),
    ensures
        a.same_value(&c),
{
    lemma_pow10_pos(a.scale as nat);
    lemma_pow10_pos(b.scale as nat);
    lemma_pow10_pos(c.scale as nat);
    let pa = pow10(a.scale as nat) as int;
    let pb = pow10(b.scale as nat) as int;
    let pc = pow10(c.scale as nat) as int;
    assert(a.num() * pc == c.num() * pa) by (nonlinear_arith)
        requires
            a.num() * pb == b.num() * pa,
            b.num() * pc == c.num() * pb,
            pa >= 1,
            pb >= 1,
            pc >= 1,
    {
        assert((a.num() * pb) * pc == (b.num() * pa) * pc);
        assert((b.num() * pc) * pa == (c.num() * pb) * pa);
        assert((a.num() * pc) * pb == (c.num() * pa) * pb);
    }
}

/// Two normalized decimals denoting the same rational are the same
/// representation.
pub proof fn lemma_normal_unique(a: Dec, b: Dec)
    requires
        a.wf(),
        b.wf(),
        a.normalized(),
        b.normalized(),
        a.same_value(&b),
    ensures
        a == b,
{
    lemma_pow10_pos(a.scale as nat);
    lemma_pow10_pos(b.scale as nat);
    let pa = pow10(a.scale as nat) as int;
    let pb = pow10(b.scale as nat) as int;
    if a.mant == 0 {
        assert(a.num() * pb == 0) by (nonlinear_arith)
            requires
                a.num() == 0,
        ;
        assert(b.num() == 0) by (nonlinear_arith)
            requires
                b.num() * pa == 0,
                pa >= 1,
        ;
        assert(b.mant == 0);
    } else if b.mant == 0 {
        assert(b.num() * pa == 0) by (nonlinear_arith)
            requires
                b.num() == 0,
        ;
        assert(a.num() == 0) by (nonlinear_arith)
            requires
                a.num() * pb == 0,
                pb >= 1,
        ;
        assert(a.mant == 0);
    } else {
        // both non-zero: signs agree, and the magnitude equation forces
        // equal scales because a higher scale would leave a trailing zero
        assert(a.neg == b.neg) by (nonlinear_arith)
            requires
                a.num() * pb == b.num() * pa,
                pa >= 1,
                pb >= 1,
                a.num() == if a.neg {
                    -(a.mant as int)
                } else {
                    a.mant as int
                },
                b.num() == if b.neg {
                    -(b.mant as int)
                } else {
                    b.mant as int
                },
                a.mant > 0,
                b.mant > 0,
        ;
        assert(a.mant * pb == b.mant * pa) by (nonlinear_arith)
            requires
                a.num() * pb == b.num() * pa,
                a.neg == b.neg,
                a.num() == if a.neg {
                    -(a.mant as int)
                } else {
                    a.mant as int
                },
                b.num() == if b.neg {
                    -(b.mant as int)
                } else {
                    b.mant as int
                },
        ;
        if a.scale < b.scale {
            lemma_scale_gap(a, b);
            assert(false);
        } else if b.scale < a.scale {
            lemma_scale_gap_rev(a, b);
            assert(false);
        } else if true {
            assert(a.mant == b.mant) by (nonlinear_arith)
                requires
                    a.mant * pb == b.mant * pa,
                    pa == pb,
                    pa >= 1,
            ;
        }
    }
}

proof fn lemma_scale_gap(a: Dec, b: Dec)
    requires
        a.mant > 0,
        b.mant > 0,
        a.scale < b.scale,
        a.mant * pow10(b.scale as nat) == b.mant * pow10(a.scale as nat),
    ensures
        !b.normalized(),
{
    let d = (b.scale - a.scale) as nat;
    lemma_pow10_add(d, a.scale as nat);
    lemma_pow10_pos(a.scale as nat);
    lemma_pow10_pos((d - 1) as nat);
    let pa = pow10(a.scale as nat) as int;
    let pd = pow10(d) as int;
    assert(a.mant * (pd * pa) == b.mant * pa);
    assert(a.mant * pd == b.mant) by (nonlinear_arith)
        requires
            a.mant * (pd * pa) == b.mant * pa as int,
            pa >= 1,
    {
        assert((a.mant * pd) * pa == a.mant * (pd * pa));
    }
    assert(pd == 10 * pow10((d - 1) as nat));
    assert(b.mant % 10 == 0) by (nonlinear_arith)
        requires
            a.mant * pd == b.mant,
            pd == 10 * pow10((d - 1) as nat) as int,
    {
        assert(b.mant == 10 * (a.mant * pow10((d - 1) as nat) as int));
    }
    assert(b.scale > 0);
}

proof fn lemma_scale_gap_rev(a: Dec, b: Dec)
    requires
        a.mant > 0,
        b.mant > 0,
        b.scale < a.scale,
        a.mant * pow10(b.scale as nat) == b.mant * pow10(a.scale as nat),
    ensures
        !a.normalized(),
{
    lemma_scale_gap(b, a);
}

/// The decimal that `rust_decimal` parses from the text, if any.
pub uninterp spec fn dec_of_text(s: Seq<char>) -> Option<Dec>;

/// The text that `rust_decimal` prints for the decimal.
pub uninterp spec fn dec_text_of(neg: bool, mant: u128, scale: u32) -> Seq<char>;

/// Relies on `rust_decimal::Decimal::from_str` (via `str::parse`): the
/// result depends on the text alone, and a parsed decimal is within the
/// 96-bit mantissa and maximum scale.
#[verifier::external_body]
pub fn dec_parse(s: &str) -> (r: Option<Dec>)
    ensures
        r == dec_of_text(s@),
        r matches Option::Some(d) ==> d.wf(),
{
    match s.parse::<rust_decimal::Decimal>() {
        Result::Ok(d) => Option::Some(Dec {
            neg: d.is_sign_negative(),
            mant: d.mantissa().unsigned_abs(),
            scale: d.scale(),
        }),
        Result::Err(_) => Option::None,
    }
}

/// Relies on `rust_decimal::Decimal`'s `Display`: the printed text
/// depends on the parts alone, and for a non-zero mantissa parsing it
/// back (`from_str`) gives the same parts, as the crate's string
/// round-trip tests show. A negative zero prints as `0`, losing its
/// sign, so nothing is promised of a zero mantissa.
#[verifier::external_body]
pub fn dec_to_text(d: &Dec) -> (r: String)
    requires
        d.wf(),
    ensures
        r@ == dec_text_of(d.neg, d.mant, d.scale),
        d.mant != 0 ==> dec_of_text(r@) == Option::Some(*d),
{
    let m = d.mant as i128;
    let v = rust_decimal::Decimal::from_i128_with_scale(if d.neg { -m } else { m }, d.scale);
    format!("{}", v)
}

/// The 64-bit float pattern that `rust_decimal` converts the decimal to.
pub uninterp spec fn dec_f64_of(neg: bool, mant: u128, scale: u32) -> u64;

/// Relies on `rust_decimal`'s `ToPrimitive::to_f64`: the result depends
/// on the parts alone, and the conversion of a decimal always succeeds
/// (`to_f64` wraps the infallible `as_f64`).
#[verifier::external_body]
pub fn dec_to_f64_bits(d: &Dec) -> (r: u64)
    requires
        d.wf(),
    ensures
        r == dec_f64_of(d.neg, d.mant, d.scale),
{
    let m = d.mant as i128;
    let v = rust_decimal::Decimal::from_i128_with_scale(if d.neg { -m } else { m }, d.scale);
    match num_traits::ToPrimitive::to_f64(&v) {
        Some(x) => x.to_bits(),
        None => 0,
    }
}

} // verus!
