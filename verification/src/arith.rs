//! Addition, subtraction and multiplication of decimal values.
//!
//! Contracts are stated over a scaled-magnitude model: `mag2(i, f, s)`
//! is the numeric value of the digit pair `(i, f)` multiplied by `10^s`
//! (for any scale `s` at least the fractional length), so every identity
//! can be written over natural numbers without division.

use vstd::prelude::*;

use crate::buffer::add_digits;
use crate::buffer::compare_digits;
use crate::buffer::concat_digits;
use crate::buffer::split_digits;
use crate::buffer::copy_digits;
use crate::buffer::lemma_pad_left;
use crate::buffer::lemma_pad_right;
use crate::buffer::mul_digits;
use crate::buffer::pad;
use crate::buffer::sub_digits;
use crate::buffer::trim_zeros;
use crate::buffer::collapse_zero;
use crate::decimal::Decimal;
use crate::digits::digits_ok;
use crate::digits::dval;
use crate::digits::is_digit;
use crate::digits::lemma_dval_bound;
use crate::digits::lemma_dval_concat;
use crate::digits::lemma_dval_single;
use crate::digits::lemma_pow10_add;
use crate::digits::lemma_pow10_pos;
use crate::digits::lemma_trim_leading_dval;
use crate::digits::lemma_trim_trailing_dval;
use crate::digits::pow10;
use crate::digits::trim_leading;
use crate::digits::trim_trailing;
use core::cmp::Ordering;

verus! {

/// The larger of two lengths.
pub open spec fn max_len(x: nat, y: nat) -> nat {
    if x >= y {
        x
    } else {
        y
    }
}

/// Value of the digit pair `(i, f)` scaled by `10^s`: the integer digits
/// weigh `10^s`, the fractional digits weigh `10^(s - f.len())`.
/// Meaningful whenever `f.len() <= s`.
pub open spec fn mag2(i: Seq<char>, f: Seq<char>, s: nat) -> nat {
    dval(i) * pow10(s) + dval(f) * pow10((s - f.len()) as nat)
}

/// Common fractional scale of two operands: the longer fractional length.
pub open spec fn fscale(a: Decimal, b: Decimal) -> nat {
    max_len(a.frac@.len(), b.frac@.len())
}

/// Common integer length of two operands.
pub open spec fn iscale(a: Decimal, b: Decimal) -> nat {
    max_len(a.int@.len(), b.int@.len())
}

/// Magnitude of a value scaled by `10^s`; meaningful for `s >= frac len`.
pub open spec fn mag_scaled(d: Decimal, s: nat) -> nat {
    mag2(d.int@, d.frac@, s)
}

/// Signed value scaled by `10^s`.
pub open spec fn sval(d: Decimal, s: nat) -> int {
    if d.is_positive {
        mag_scaled(d, s) as int
    } else {
        -(mag_scaled(d, s) as int)
    }
}

/// The scaled fractional contribution stays below `10^s`.
proof fn lemma_frac_bound(f: Seq<char>, s: nat)
    requires
        f.len() <= s,
    ensures
        dval(f) * pow10((s - f.len()) as nat) < pow10(s),
{
    lemma_dval_bound(f);
    lemma_pow10_add(f.len(), (s - f.len()) as nat);
    lemma_pow10_pos((s - f.len()) as nat);
    assert(dval(f) * pow10((s - f.len()) as nat) < pow10(f.len()) * pow10((s - f.len()) as nat))
        by (nonlinear_arith)
        requires
            dval(f) < pow10(f.len()),
            pow10((s - f.len()) as nat) >= 1,
    ;
}

/// Compare the magnitudes denoted by two digit pairs, at their common
/// fractional scale.
fn mag_cmp(ai: &Vec<char>, af: &Vec<char>, bi: &Vec<char>, bf: &Vec<char>) -> (r: Ordering)
    requires
        digits_ok(ai@),
        digits_ok(af@),
        digits_ok(bi@),
        digits_ok(bf@),
    ensures
        ({
            let fs = max_len(af@.len(), bf@.len());
            let ma = mag2(ai@, af@, fs);
            let mb = mag2(bi@, bf@, fs);
            &&& (r == Ordering::Less ==> ma < mb)
            &&& (r == Ordering::Greater ==> ma > mb)
            &&& (r == Ordering::Equal ==> ma == mb)
        }),
{
    let ghost fs = max_len(af@.len(), bf@.len());
    let ghost is = max_len(ai@.len(), bi@.len());
    let int_len: usize = if ai.len() > bi.len() {
        ai.len()
    } else {
        bi.len()
    };
    let frac_len: usize = if af.len() > bf.len() {
        af.len()
    } else {
        bf.len()
    };
    let mut pai = copy_digits(ai);
    let mut pbi = copy_digits(bi);
    let mut paf = copy_digits(af);
    let mut pbf = copy_digits(bf);
    pad(&mut pai, int_len, true);
    pad(&mut pbi, int_len, true);
    pad(&mut paf, frac_len, false);
    pad(&mut pbf, frac_len, false);
    proof {
        lemma_pad_left(ai@, is);
        lemma_pad_left(bi@, is);
        lemma_pad_right(af@, fs);
        lemma_pad_right(bf@, fs);
    }
    let ghost ma = mag2(ai@, af@, fs);
    let ghost mb = mag2(bi@, bf@, fs);
    let ghost fa = dval(af@) * pow10((fs - af@.len()) as nat);
    let ghost fb = dval(bf@) * pow10((fs - bf@.len()) as nat);
    proof {
        assert(dval(paf@) == fa);
        assert(dval(pbf@) == fb);
        lemma_frac_bound(af@, fs);
        lemma_frac_bound(bf@, fs);
    }
    match compare_digits(&pai, &pbi) {
        Ordering::Less => {
            proof {
                assert(dval(ai@) + 1 <= dval(bi@));
                assert(ma < mb) by (nonlinear_arith)
                    requires
                        ma == dval(ai@) * pow10(fs) + fa,
                        mb == dval(bi@) * pow10(fs) + fb,
                        dval(ai@) + 1 <= dval(bi@),
                        fa < pow10(fs),
                        fb >= 0,
                ;
            }
            Ordering::Less
        },
        Ordering::Greater => {
            proof {
                assert(ma > mb) by (nonlinear_arith)
                    requires
                        ma == dval(ai@) * pow10(fs) + fa,
                        mb == dval(bi@) * pow10(fs) + fb,
                        dval(bi@) + 1 <= dval(ai@),
                        fb < pow10(fs),
                        fa >= 0,
                ;
            }
            Ordering::Greater
        },
        Ordering::Equal => {
            assert(dval(pai@) == dval(pbi@));
            let r = compare_digits(&paf, &pbf);
            proof {
                match r {
                    Ordering::Less => {
                        assert(ma < mb);
                    },
                    Ordering::Greater => {
                        assert(ma > mb);
                    },
                    Ordering::Equal => {
                        assert(ma == mb);
                    },
                }
            }
            r
        },
    }
}

/// Add the magnitudes of two digit pairs: fractional pass first, its
/// carry threading into the integer pass, a final carry growing the
/// integer part by one digit.
fn mag_add(ai: &Vec<char>, af: &Vec<char>, bi: &Vec<char>, bf: &Vec<char>) -> (r: (
    Vec<char>,
    Vec<char>,
))
    requires
        digits_ok(ai@),
        digits_ok(af@),
        digits_ok(bi@),
        digits_ok(bf@),
    ensures
        ({
            let fs = max_len(af@.len(), bf@.len());
            let is = max_len(ai@.len(), bi@.len());
            &&& digits_ok(r.0@)
            &&& digits_ok(r.1@)
            &&& r.1@.len() == fs
            &&& (dval(r.0@) < pow10(is) ==> r.0@.len() == is)
            &&& (dval(r.0@) >= pow10(is) ==> r.0@.len() == is + 1)
            &&& dval(r.0@) * pow10(fs) + dval(r.1@) == mag2(ai@, af@, fs) + mag2(bi@, bf@, fs)
        }),
{
    let ghost fs = max_len(af@.len(), bf@.len());
    let ghost is = max_len(ai@.len(), bi@.len());
    let int_len: usize = if ai.len() > bi.len() {
        ai.len()
    } else {
        bi.len()
    };
    let frac_len: usize = if af.len() > bf.len() {
        af.len()
    } else {
        bf.len()
    };
    let mut pai = copy_digits(ai);
    let mut pbi = copy_digits(bi);
    let mut paf = copy_digits(af);
    let mut pbf = copy_digits(bf);
    pad(&mut pai, int_len, true);
    pad(&mut pbi, int_len, true);
    pad(&mut paf, frac_len, false);
    pad(&mut pbf, frac_len, false);
    proof {
        lemma_pad_left(ai@, is);
        lemma_pad_left(bi@, is);
        lemma_pad_right(af@, fs);
        lemma_pad_right(bf@, fs);
    }
    let (rf, c1) = add_digits(&paf, &pbf, 0);
    let (ri0, c2) = add_digits(&pai, &pbi, c1);
    let ghost fa = dval(af@) * pow10((fs - af@.len()) as nat);
    let ghost fb = dval(bf@) * pow10((fs - bf@.len()) as nat);
    proof {
        lemma_dval_bound(ri0@);
    }
    if c2 == 1 {
        let mut ri = ri0;
        let ghost prev = ri@;
        ri.insert(0, '1');
        assert(ri@ =~= seq!['1'] + prev);
        proof {
            lemma_dval_concat(seq!['1'], prev);
            lemma_dval_single('1');
            assert(dval(ri@) == pow10(is) + dval(prev));
            lemma_pow10_pos(is);
            assert(dval(ri@) >= pow10(is));
            assert(digits_ok(ri@)) by {
                assert(forall|k: int| 0 <= k < ri@.len() ==> is_digit(#[trigger] ri@[k]));
            }
            assert(dval(prev) + pow10(is) == dval(ai@) + dval(bi@) + c1);
            lemma_mag_add_value(
                dval(ai@),
                dval(bi@),
                fa,
                fb,
                dval(ri@),
                dval(rf@),
                c1 as nat,
                fs,
            );
        }
        (ri, rf)
    } else {
        proof {
            assert(dval(ri0@) < pow10(is));
            lemma_mag_add_value(
                dval(ai@),
                dval(bi@),
                fa,
                fb,
                dval(ri0@),
                dval(rf@),
                c1 as nat,
                fs,
            );
        }
        (ri0, rf)
    }
}

/// Arithmetic core of `mag_add`: combine the two pass equations into the
/// scaled-magnitude identity.  `vi`/`vf` are the result digit values
/// (with the final carry already folded into `vi`).
proof fn lemma_mag_add_value(xa: nat, xb: nat, fa: nat, fb: nat, vi: nat, vf: nat, c1: nat, fs: nat)
    requires
        fa + fb == vf + c1 * pow10(fs),
        vi == xa + xb + c1,
    ensures
        vi * pow10(fs) + vf == (xa * pow10(fs) + fa) + (xb * pow10(fs) + fb),
{
    assert(vi * pow10(fs) == xa * pow10(fs) + xb * pow10(fs) + c1 * pow10(fs)) by (nonlinear_arith)
        requires
            vi == xa + xb + c1,
    ;
}

/// Subtract the smaller magnitude from the larger: fractional pass
/// first, its borrow threading into the integer pass; the requirement
/// that the first pair denotes the larger magnitude makes the final
/// borrow zero.
fn mag_sub(ai: &Vec<char>, af: &Vec<char>, bi: &Vec<char>, bf: &Vec<char>) -> (r: (
    Vec<char>,
    Vec<char>,
))
    requires
        digits_ok(ai@),
        digits_ok(af@),
        digits_ok(bi@),
        digits_ok(bf@),
        mag2(ai@, af@, max_len(af@.len(), bf@.len())) >= mag2(
            bi@,
            bf@,
            max_len(af@.len(), bf@.len()),
        ),
    ensures
        ({
            let fs = max_len(af@.len(), bf@.len());
            let is = max_len(ai@.len(), bi@.len());
            &&& digits_ok(r.0@)
            &&& digits_ok(r.1@)
            &&& r.1@.len() == fs
            &&& r.0@.len() == is
            &&& dval(r.0@) < pow10(is)
            &&& dval(r.0@) * pow10(fs) + dval(r.1@) + mag2(bi@, bf@, fs) == mag2(ai@, af@, fs)
        }),
{
    let ghost fs = max_len(af@.len(), bf@.len());
    let ghost is = max_len(ai@.len(), bi@.len());
    let int_len: usize = if ai.len() > bi.len() {
        ai.len()
    } else {
        bi.len()
    };
    let frac_len: usize = if af.len() > bf.len() {
        af.len()
    } else {
        bf.len()
    };
    let mut pai = copy_digits(ai);
    let mut pbi = copy_digits(bi);
    let mut paf = copy_digits(af);
    let mut pbf = copy_digits(bf);
    pad(&mut pai, int_len, true);
    pad(&mut pbi, int_len, true);
    pad(&mut paf, frac_len, false);
    pad(&mut pbf, frac_len, false);
    proof {
        lemma_pad_left(ai@, is);
        lemma_pad_left(bi@, is);
        lemma_pad_right(af@, fs);
        lemma_pad_right(bf@, fs);
    }
    let (rf, b1) = sub_digits(&paf, &pbf, 0);
    let (ri, b2) = sub_digits(&pai, &pbi, b1);
    let ghost fa = dval(af@) * pow10((fs - af@.len()) as nat);
    let ghost fb = dval(bf@) * pow10((fs - bf@.len()) as nat);
    proof {
        lemma_dval_bound(ri@);
        lemma_dval_bound(rf@);
        lemma_pow10_add(is, fs);
        // Combine the two pass equations at scale fs.
        assert(dval(pai@) + b2 * pow10(is) == dval(pbi@) + b1 + dval(ri@));
        assert(dval(paf@) + b1 * pow10(fs) == dval(pbf@) + dval(rf@));
        assert((dval(ai@) + b2 * pow10(is)) * pow10(fs) == dval(ai@) * pow10(fs) + b2 * pow10(
            (is + fs) as nat,
        )) by (nonlinear_arith)
            requires
                pow10((is + fs) as nat) == pow10(is) * pow10(fs),
        ;
        assert((dval(bi@) + b1 + dval(ri@)) * pow10(fs) == dval(bi@) * pow10(fs) + b1 * pow10(fs)
            + dval(ri@) * pow10(fs)) by (nonlinear_arith);
        assert(dval(ai@) * pow10(fs) + b2 * pow10((is + fs) as nat) == dval(bi@) * pow10(fs) + b1
            * pow10(fs) + dval(ri@) * pow10(fs)) by (nonlinear_arith)
            requires
                dval(pai@) + b2 * pow10(is) == dval(pbi@) + b1 + dval(ri@),
                dval(pai@) == dval(ai@),
                dval(pbi@) == dval(bi@),
                (dval(ai@) + b2 * pow10(is)) * pow10(fs) == dval(ai@) * pow10(fs) + b2 * pow10(
                    (is + fs) as nat,
                ),
                (dval(bi@) + b1 + dval(ri@)) * pow10(fs) == dval(bi@) * pow10(fs) + b1 * pow10(fs)
                    + dval(ri@) * pow10(fs),
        ;
        // Adding the fractional equation cancels the b1 term.
        assert(mag2(ai@, af@, fs) + b2 * pow10((is + fs) as nat) == mag2(bi@, bf@, fs) + dval(ri@)
            * pow10(fs) + dval(rf@));
        if b2 == 1 {
            assert(dval(ri@) * pow10(fs) + dval(rf@) < pow10((is + fs) as nat))
                by (nonlinear_arith)
                requires
                    dval(ri@) < pow10(is),
                    dval(rf@) < pow10(fs),
                    pow10((is + fs) as nat) == pow10(is) * pow10(fs),
                    pow10(fs) >= 1,
            ;
            assert(false);
        }
        assert(b2 * pow10((is + fs) as nat) == 0) by (nonlinear_arith)
            requires
                b2 == 0,
        ;
    }
    (ri, rf)
}

/// At its own fractional length, a magnitude is just the two values.
pub proof fn lemma_mag2_at_scale(i: Seq<char>, f: Seq<char>)
    ensures
        mag2(i, f, f.len()) == dval(i) * pow10(f.len()) + dval(f),
{
    assert(pow10(0) == 1);
    assert(dval(f) * 1 == dval(f));
}

/// Everything `add` guarantees of its result `r` for operands `a`, `b`:
/// the result is well formed, its fractional length is the common scale,
/// its integer length is the common length (plus one for a final carry),
/// its sign follows the sign rules, and its scaled signed value is the
/// sum of the operands' scaled signed values.
pub open spec fn add_post(a: Decimal, b: Decimal, r: Decimal) -> bool {
    let fs = fscale(a, b);
    let is = iscale(a, b);
    &&& r.wf()
    &&& r.frac@.len() == fs
    &&& (dval(r.int@) < pow10(is) ==> r.int@.len() == is)
    &&& (dval(r.int@) >= pow10(is) ==> r.int@.len() == is + 1)
    &&& (a.is_positive == b.is_positive ==> r.is_positive == a.is_positive)
    &&& (a.is_positive != b.is_positive ==> {
        let ma = mag_scaled(a, fs);
        let mb = mag_scaled(b, fs);
        &&& (ma > mb ==> r.is_positive == a.is_positive)
        &&& (mb > ma ==> r.is_positive == b.is_positive)
        &&& (ma == mb ==> r.is_positive == true)
    })
    &&& sval(r, fs) == sval(a, fs) + sval(b, fs)
}

/// Everything `sub` guarantees of its result `r` for operands `a`, `b`.
/// The sign follows the larger magnitude, ties resolving to `a`'s sign;
/// the scaled signed value is the difference of the operands' values.
pub open spec fn sub_post(a: Decimal, b: Decimal, r: Decimal) -> bool {
    let fs = fscale(a, b);
    let is = iscale(a, b);
    &&& r.wf()
    &&& r.frac@.len() == fs
    &&& (dval(r.int@) < pow10(is) ==> r.int@.len() == is)
    &&& (dval(r.int@) >= pow10(is) ==> r.int@.len() == is + 1)
    &&& (a.is_positive == b.is_positive ==> r.is_positive == (if mag_scaled(a, fs) >= mag_scaled(
        b,
        fs,
    ) {
        a.is_positive
    } else {
        !b.is_positive
    }))
    &&& (!a.is_positive && b.is_positive ==> r.is_positive == false)
    &&& (a.is_positive && !b.is_positive ==> r.is_positive == true)
    &&& sval(r, fs) == sval(a, fs) - sval(b, fs)
}

/// Everything `mul` guarantees of its result `r` for operands `a`, `b`:
/// the sign is positive exactly when the operand signs agree, both parts
/// are zero-trimmed (collapsing to a single `'0'`), and the result value
/// times `10^(2 fs)` equals the product of the operands' values at the
/// common scale `fs`, times `10^(result fractional length)`.
pub open spec fn mul_post(a: Decimal, b: Decimal, r: Decimal) -> bool {
    let fs = fscale(a, b);
    &&& r.wf()
    &&& r.is_positive == (a.is_positive == b.is_positive)
    &&& r.int@.len() >= 1
    &&& (r.int@.len() > 1 ==> r.int@.first() != '0')
    &&& r.frac@.len() >= 1
    &&& (r.frac@.len() > 1 ==> r.frac@.last() != '0')
    &&& mag2(r.int@, r.frac@, r.frac@.len()) * pow10(2 * fs) == mag_scaled(a, fs) * mag_scaled(
        b,
        fs,
    ) * pow10(r.frac@.len())
}

impl Decimal {
    /// Exact sum of two decimal values.
    ///
    /// Operands of the same sign are added digit-wise with carry, the
    /// fractional carry threading into the integer pass; the result
    /// keeps the common sign, growing by one integer digit on a final
    /// carry.  For differing signs the smaller magnitude is subtracted
    /// from the larger, and the result takes the sign of the operand
    /// with the larger magnitude, a tie giving a non-negative result.
    pub fn add(&self, other: &Decimal) -> (r: Decimal)
        requires
            self.wf(),
            other.wf(),
        ensures
            add_post(*self, *other, r),
    {
        let ghost fs = fscale(*self, *other);
        if self.is_positive == other.is_positive {
            let (ri, rf) = mag_add(&self.int, &self.frac, &other.int, &other.frac);
            let r = Decimal { int: ri, frac: rf, is_positive: self.is_positive };
            proof {
                lemma_mag2_at_scale(r.int@, r.frac@);
            }
            r
        } else {
            match mag_cmp(&self.int, &self.frac, &other.int, &other.frac) {
                Ordering::Greater => {
                    let (ri, rf) = mag_sub(&self.int, &self.frac, &other.int, &other.frac);
                    let r = Decimal { int: ri, frac: rf, is_positive: self.is_positive };
                    proof {
                        lemma_mag2_at_scale(r.int@, r.frac@);
                    }
                    r
                },
                Ordering::Less => {
                    let (ri, rf) = mag_sub(&other.int, &other.frac, &self.int, &self.frac);
                    let r = Decimal { int: ri, frac: rf, is_positive: other.is_positive };
                    proof {
                        assert(fscale(*other, *self) == fs);
                        assert(iscale(*other, *self) == iscale(*self, *other));
                        lemma_mag2_at_scale(r.int@, r.frac@);
                    }
                    r
                },
                Ordering::Equal => {
                    let (ri, rf) = mag_sub(&self.int, &self.frac, &other.int, &other.frac);
                    let r = Decimal { int: ri, frac: rf, is_positive: true };
                    proof {
                        lemma_mag2_at_scale(r.int@, r.frac@);
                    }
                    r
                },
            }
        }
    }

    /// Exact difference `self - other` of two decimal values.
    ///
    /// For operands of the same sign the smaller padded magnitude is
    /// subtracted from the larger, the result taking the sign of the
    /// side that supplied the larger magnitude, ties resolving to
    /// `self`'s sign.  A negative `self` with non-negative `other`
    /// yields the negated sum of magnitudes; a non-negative `self` with
    /// negative `other` yields the sum of magnitudes.
    pub fn sub(&self, other: &Decimal) -> (r: Decimal)
        requires
            self.wf(),
            other.wf(),
        ensures
            sub_post(*self, *other, r),
    {
        let ghost fs = fscale(*self, *other);
        if self.is_positive == other.is_positive {
            match mag_cmp(&self.int, &self.frac, &other.int, &other.frac) {
                Ordering::Less => {
                    let (ri, rf) = mag_sub(&other.int, &other.frac, &self.int, &self.frac);
                    let r = Decimal { int: ri, frac: rf, is_positive: !other.is_positive };
                    proof {
                        assert(fscale(*other, *self) == fs);
                        assert(iscale(*other, *self) == iscale(*self, *other));
                        lemma_mag2_at_scale(r.int@, r.frac@);
                    }
                    r
                },
                _ => {
                    let (ri, rf) = mag_sub(&self.int, &self.frac, &other.int, &other.frac);
                    let r = Decimal { int: ri, frac: rf, is_positive: self.is_positive };
                    proof {
                        lemma_mag2_at_scale(r.int@, r.frac@);
                    }
                    r
                },
            }
        } else {
            let (ri, rf) = mag_add(&self.int, &self.frac, &other.int, &other.frac);
            let sign = self.is_positive;
            let r = Decimal { int: ri, frac: rf, is_positive: sign };
            proof {
                lemma_mag2_at_scale(r.int@, r.frac@);
            }
            r
        }
    }

    /// Exact product of two decimal values, by schoolbook long
    /// multiplication over the concatenated aligned digit strings.
    ///
    /// The aligned integer and fractional digits of each operand are
    /// flattened into one digit string, the flat strings are multiplied,
    /// and the product is split at twice the aligned fractional length;
    /// the integer part loses its leading zeros, the fractional part its
    /// trailing zeros, an all-zero part collapsing to a single `'0'`.
    /// The sign is non-negative exactly when the operand signs agree.
    /// The length bound keeps the position arithmetic within `usize`.
    pub fn mul(&self, other: &Decimal) -> (r: Decimal)
        requires
            self.wf(),
            other.wf(),
            self.frac@.len() + other.frac@.len() < usize::MAX as int / 4,
        ensures
            mul_post(*self, *other, r),
    {
        let ghost fs = fscale(*self, *other);
        let ghost is = iscale(*self, *other);
        let int_len: usize = if self.int.len() > other.int.len() {
            self.int.len()
        } else {
            other.int.len()
        };
        let frac_len: usize = if self.frac.len() > other.frac.len() {
            self.frac.len()
        } else {
            other.frac.len()
        };
        let mut pai = copy_digits(&self.int);
        let mut pbi = copy_digits(&other.int);
        let mut paf = copy_digits(&self.frac);
        let mut pbf = copy_digits(&other.frac);
        pad(&mut pai, int_len, true);
        pad(&mut pbi, int_len, true);
        pad(&mut paf, frac_len, false);
        pad(&mut pbf, frac_len, false);
        proof {
            lemma_pad_left(self.int@, is);
            lemma_pad_left(other.int@, is);
            lemma_pad_right(self.frac@, fs);
            lemma_pad_right(other.frac@, fs);
        }
        let flat_a = concat_digits(&pai, &paf);
        let flat_b = concat_digits(&pbi, &pbf);
        proof {
            lemma_dval_concat(pai@, paf@);
            lemma_dval_concat(pbi@, pbf@);
            assert(dval(flat_a@) == mag2(self.int@, self.frac@, fs));
            assert(dval(flat_b@) == mag2(other.int@, other.frac@, fs));
            assert(digits_ok(flat_a@)) by {
                assert(forall|k: int|
                    0 <= k < flat_a@.len() ==> is_digit(#[trigger] flat_a@[k]));
            }
            assert(digits_ok(flat_b@)) by {
                assert(forall|k: int|
                    0 <= k < flat_b@.len() ==> is_digit(#[trigger] flat_b@[k]));
            }
        }
        let prod = mul_digits(&flat_a, &flat_b);
        let ghost pval = dval(prod@);
        let div: usize = 2 * frac_len;
        let mut padded = prod;
        let ghost before_pad = padded@;
        pad(&mut padded, div + 1, true);
        proof {
            lemma_pad_left(before_pad, (div + 1) as nat);
        }
        let split_at: usize = padded.len() - div;
        let (int_part, frac_part) = split_digits(&padded, split_at);
        proof {
            assert(padded@ =~= int_part@ + frac_part@);
            lemma_dval_concat(int_part@, frac_part@);
            assert(frac_part@.len() == div);
            assert(digits_ok(int_part@)) by {
                assert(forall|k: int|
                    0 <= k < int_part@.len() ==> is_digit(#[trigger] int_part@[k]));
            }
            assert(digits_ok(frac_part@)) by {
                assert(forall|k: int|
                    0 <= k < frac_part@.len() ==> is_digit(#[trigger] frac_part@[k]));
            }
            assert(pval == dval(int_part@) * pow10(div as nat) + dval(frac_part@));
        }
        let ri = trim_zeros(&int_part, true);
        let rf = trim_zeros(&frac_part, false);
        let r = Decimal { int: ri, frac: rf, is_positive: self.is_positive == other.is_positive };
        proof {
            lemma_mul_assemble(int_part@, frac_part@, r.int@, r.frac@, div as nat);
            let lr = r.frac@.len();
            assert(mag2(r.int@, r.frac@, lr) == dval(r.int@) * pow10(lr) + dval(r.frac@)) by {
                lemma_mag2_at_scale(r.int@, r.frac@);
            }
            assert(2 * fs == div as nat);
            assert(mag2(r.int@, r.frac@, lr) * pow10(div as nat) == pval * pow10(lr));
        }
        r
    }
}

/// Assemble the final multiplication identity from the trimmed parts:
/// the trimmed pair `(ri, rf)` denotes the same scaled value as the raw
/// split `(ip, fp)` of the product, `d` being the split scale.
proof fn lemma_mul_assemble(ip: Seq<char>, fp: Seq<char>, ri: Seq<char>, rf: Seq<char>, d: nat)
    requires
        fp.len() == d,
        ri == collapse_zero(trim_leading(ip)),
        rf == collapse_zero(trim_trailing(fp)),
        digits_ok(ip),
        digits_ok(fp),
    ensures
        digits_ok(ri),
        digits_ok(rf),
        ri.len() >= 1,
        ri.len() > 1 ==> ri.first() != '0',
        rf.len() >= 1,
        rf.len() > 1 ==> rf.last() != '0',
        (dval(ri) * pow10(rf.len()) + dval(rf)) * pow10(d) == (dval(ip) * pow10(d) + dval(fp))
            * pow10(rf.len()),
{
    lemma_trim_leading_dval(ip);
    lemma_trim_trailing_dval(fp);
    lemma_dval_single('0');
    let tl = trim_leading(ip);
    let tt = trim_trailing(fp);
    // Integer side: trimming (and collapsing) keeps the value.
    assert(dval(ri) == dval(ip));
    assert(digits_ok(ri)) by {
        if tl.len() == 0 {
            assert(ri =~= seq!['0']);
            assert(forall|k: int| 0 <= k < ri.len() ==> is_digit(#[trigger] ri[k]));
        }
    }
    assert(digits_ok(rf)) by {
        if tt.len() == 0 {
            assert(rf =~= seq!['0']);
            assert(forall|k: int| 0 <= k < rf.len() ==> is_digit(#[trigger] rf[k]));
        }
    }
    let lr = rf.len();
    if tt.len() == 0 {
        // The fractional part was all zeros.
        assert(rf =~= seq!['0']);
        assert(dval(rf) == 0);
        assert(dval(fp) == dval(tt) * pow10((fp.len() - tt.len()) as nat));
        assert(dval(tt) == 0);
        assert(0 * pow10((fp.len() - tt.len()) as nat) == 0) by (nonlinear_arith);
        assert(dval(fp) == 0);
        assert((dval(ri) * pow10(lr) + 0) * pow10(d) == (dval(ip) * pow10(d) + 0) * pow10(lr))
            by (nonlinear_arith)
            requires
                dval(ri) == dval(ip),
        ;
    } else {
        assert(rf == tt);
        let k = (fp.len() - tt.len()) as nat;
        assert(dval(fp) == dval(rf) * pow10(k));
        assert(k + lr == d);
        lemma_pow10_add(k, lr);
        assert((dval(ri) * pow10(lr) + dval(rf)) * pow10(d) == (dval(ip) * pow10(d) + dval(rf)
            * pow10(k)) * pow10(lr)) by (nonlinear_arith)
            requires
                dval(ri) == dval(ip),
                pow10(d) == pow10(k) * pow10(lr),
        ;
    }
}

} // verus!
