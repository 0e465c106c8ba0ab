//! Algebraic laws of the library, proved from the public contracts.
//!
//! Each proof function takes the operands together with values standing
//! for the results of the operations involved, constrained exactly by
//! those operations' postconditions, and concludes the law.

use vstd::prelude::*;

use crate::arith::add_post;
use crate::arith::fscale;
use crate::arith::lemma_mag2_at_scale;
use crate::arith::mag_scaled;
use crate::arith::mul_post;
use crate::arith::sub_post;
use crate::arith::sval;
use crate::decimal::body_of;
use crate::decimal::decimal_eq;
use crate::decimal::first_dot;
use crate::decimal::frac_seg;
use crate::decimal::int_seg;
use crate::decimal::lemma_first_dot_props;
use crate::decimal::parse_valid;
use crate::decimal::sign_len;
use crate::decimal::sign_of;
use crate::decimal::text_of;
use crate::decimal::zero_magnitude;
use crate::decimal::Decimal;
use crate::digits::dval;
use crate::digits::lemma_dval_bound;
use crate::digits::lemma_dval_inj;
use crate::digits::lemma_dval_single;
use crate::digits::lemma_dval_zero_iff;
use crate::digits::lemma_pow10_add;
use crate::digits::lemma_pow10_pos;
use crate::digits::lemma_trim_leading_canon;
use crate::digits::lemma_trim_trailing_canon;
use crate::digits::pow10;
use crate::ordering::cmp_spec;
use core::cmp::Ordering;

verus! {

/// A value `V = A*p + r` with `r < p` splits into `A` and `r` uniquely.
proof fn lemma_unique_decomposition(x1: nat, y1: nat, x2: nat, y2: nat, p: nat)
    requires
        x1 * p + y1 == x2 * p + y2,
        y1 < p,
        y2 < p,
    ensures
        x1 == x2,
        y1 == y2,
{
    assert(x1 == x2 && y1 == y2) by (nonlinear_arith)
        requires
            x1 * p + y1 == x2 * p + y2,
            y1 < p,
            y2 < p,
    ;
}

/// Parse/format fixpoint: any nonempty text that the parser accepts,
/// that does not start with `'+'`, and that contains a decimal point,
/// is reproduced exactly by formatting the parsed value.
pub proof fn lemma_parse_format_fixpoint(t: Seq<char>, d: Decimal)
    requires
        t.len() > 0,
        t[0] != '+',
        parse_valid(t),
        first_dot(body_of(t)) < body_of(t).len(),
        d.int@ == int_seg(t),
        d.frac@ == frac_seg(t),
        d.is_positive == sign_of(t),
    ensures
        text_of(d) == t,
{
    let b = body_of(t);
    let fd = first_dot(b);
    lemma_first_dot_props(b);
    assert(b[fd] == '.');
    assert(b =~= b.take(fd) + seq![b[fd]] + b.skip(fd + 1));
    assert(d.int@ + seq!['.'] + d.frac@ =~= b);
    if t[0] == '-' {
        assert(sign_len(t) == 1);
        assert(!d.is_positive);
        assert(text_of(d) =~= seq!['-'] + b);
        assert(seq!['-'] + t.skip(1) =~= t);
    } else {
        assert(sign_len(t) == 0);
        assert(d.is_positive);
        assert(b =~= t);
        assert(text_of(d) =~= b);
    }
}

/// Two well-formed values of equal sign, equal fractional length and
/// equal scaled signed value are equal in the definitional sense.
proof fn lemma_same_value_eq(x: Decimal, y: Decimal, fs: nat)
    requires
        x.wf(),
        y.wf(),
        x.frac@.len() == fs,
        y.frac@.len() == fs,
        x.is_positive == y.is_positive,
        sval(x, fs) == sval(y, fs),
    ensures
        decimal_eq(x, y),
{
    assert(mag_scaled(x, fs) == mag_scaled(y, fs));
    lemma_mag2_at_scale(x.int@, x.frac@);
    lemma_mag2_at_scale(y.int@, y.frac@);
    lemma_dval_bound(x.frac@);
    lemma_dval_bound(y.frac@);
    lemma_unique_decomposition(dval(x.int@), dval(x.frac@), dval(y.int@), dval(y.frac@), pow10(fs));
    lemma_dval_inj(x.frac@, y.frac@);
    lemma_trim_leading_canon(x.int@, y.int@);
}

/// Additive commutativity: the sums of `a` with `b` in either order are
/// equal in the definitional sense.  `x` and `y` stand for the two sums,
/// constrained by the contract of `add`.
pub proof fn lemma_add_commutative(a: Decimal, b: Decimal, x: Decimal, y: Decimal)
    requires
        a.wf(),
        b.wf(),
        add_post(a, b, x),
        add_post(b, a, y),
    ensures
        decimal_eq(x, y),
{
    let fs = fscale(a, b);
    assert(fscale(b, a) == fs);
    assert(x.is_positive == y.is_positive);
    assert(sval(x, fs) == sval(y, fs));
    lemma_same_value_eq(x, y, fs);
}

/// Self-subtraction: subtracting any well-formed value from itself
/// yields a zero magnitude.  `r` stands for the difference, constrained
/// by the contract of `sub`; the sign of `r` is left open.
pub proof fn lemma_sub_self_zero(a: Decimal, r: Decimal)
    requires
        a.wf(),
        sub_post(a, a, r),
    ensures
        zero_magnitude(r),
{
    let fs = fscale(a, a);
    assert(sval(r, fs) == 0);
    assert(mag_scaled(r, fs) == 0);
    lemma_mag2_at_scale(r.int@, r.frac@);
    lemma_pow10_pos(fs);
    assert(dval(r.int@) * pow10(fs) + dval(r.frac@) == 0);
    assert(dval(r.int@) == 0) by (nonlinear_arith)
        requires
            dval(r.int@) * pow10(fs) == 0,
            pow10(fs) >= 1,
    ;
    lemma_dval_zero_iff(r.int@);
    lemma_dval_zero_iff(r.frac@);
}

/// Multiplicative identity: multiplying any well-formed value by the
/// parse of `"1"` (integer digits `"1"`, empty fraction, non-negative)
/// gives back a value equal to it in the definitional sense.  `r` stands
/// for the product, constrained by the contract of `mul`.
pub proof fn lemma_mul_identity(a: Decimal, one: Decimal, r: Decimal)
    requires
        a.wf(),
        one.int@ == seq!['1'],
        one.frac@.len() == 0,
        one.is_positive,
        mul_post(a, one, r),
    ensures
        decimal_eq(r, a),
{
    let fs = fscale(a, one);
    assert(fs == a.frac@.len());
    let lr = r.frac@.len();
    // The magnitude of one at scale fs is exactly 10^fs.
    lemma_dval_single('1');
    lemma_mag2_at_scale(one.int@, one.frac@);
    assert(one.frac@ =~= Seq::<char>::empty());
    assert(dval(one.frac@) == 0);
    assert(mag_scaled(one, fs) == 1 * pow10(fs) + dval(one.frac@) * pow10(fs));
    assert(1 * pow10(fs) == pow10(fs));
    assert(0 * pow10(fs) == 0) by (nonlinear_arith);
    assert(mag_scaled(one, fs) == pow10(fs));
    lemma_mag2_at_scale(r.int@, r.frac@);
    lemma_mag2_at_scale(a.int@, a.frac@);
    // Expand the product identity at the common scale 2*fs + lr.
    let vri = dval(r.int@);
    let vrf = dval(r.frac@);
    let vai = dval(a.int@);
    let vaf = dval(a.frac@);
    lemma_pow10_add(lr, 2 * fs);
    lemma_pow10_add(fs, fs + lr);
    lemma_pow10_add(fs, lr);
    lemma_pow10_pos(2 * fs);
    lemma_pow10_pos((fs + lr) as nat);
    assert((vri * pow10(lr) + vrf) * pow10(2 * fs) == vri * pow10((lr + 2 * fs) as nat) + vrf
        * pow10(2 * fs)) by (nonlinear_arith)
        requires
            pow10((lr + 2 * fs) as nat) == pow10(lr) * pow10(2 * fs),
    ;
    assert((vai * pow10(fs) + vaf) * pow10(fs) * pow10(lr) == vai * pow10((fs + fs + lr) as nat)
        + vaf * pow10((fs + lr) as nat)) by (nonlinear_arith)
        requires
            pow10((fs + fs + lr) as nat) == pow10(fs) * pow10((fs + lr) as nat),
            pow10((fs + lr) as nat) == pow10(fs) * pow10(lr),
    ;
    assert(vri * pow10((lr + 2 * fs) as nat) + vrf * pow10(2 * fs) == vai * pow10(
        (lr + 2 * fs) as nat,
    ) + vaf * pow10((fs + lr) as nat));
    // Both remainders stay below the common base.
    lemma_dval_bound(r.frac@);
    lemma_dval_bound(a.frac@);
    assert(vrf * pow10(2 * fs) < pow10((lr + 2 * fs) as nat)) by (nonlinear_arith)
        requires
            vrf < pow10(lr),
            pow10((lr + 2 * fs) as nat) == pow10(lr) * pow10(2 * fs),
            pow10(2 * fs) >= 1,
    ;
    assert(vaf * pow10((fs + lr) as nat) < pow10((lr + 2 * fs) as nat)) by (nonlinear_arith)
        requires
            vaf < pow10(fs),
            pow10((fs + fs + lr) as nat) == pow10(fs) * pow10((fs + lr) as nat),
            pow10((fs + lr) as nat) >= 1,
            lr + 2 * fs == fs + fs + lr,
    ;
    lemma_unique_decomposition(
        vri,
        vrf * pow10(2 * fs),
        vai,
        vaf * pow10((fs + lr) as nat),
        pow10((lr + 2 * fs) as nat),
    );
    lemma_trim_leading_canon(r.int@, a.int@);
    lemma_trim_trailing_canon(r.frac@, a.frac@, 2 * fs, (fs + lr) as nat);
}

/// Ordering consistency with sign: a negative value compares strictly
/// less than a non-negative one.
pub proof fn lemma_negative_less(a: Decimal, b: Decimal)
    requires
        !a.is_positive,
        b.is_positive,
    ensures
        cmp_spec(a, b) == Ordering::Less,
{
}

} // verus!
