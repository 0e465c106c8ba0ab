//! Spec-level model of digit sequences.
//!
//! A decimal magnitude is a sequence of ASCII digit characters, most
//! significant digit first.  `dval` maps such a sequence to the natural
//! number it denotes; the lemmas here relate `dval` to concatenation,
//! zero padding, zero trimming and lexicographic comparison, and are the
//! foundation for the contracts of the arithmetic operations.

use vstd::prelude::*;

verus! {

/// `c` is one of the ASCII digit characters `'0'` through `'9'`.
pub open spec fn is_digit(c: char) -> bool {
    48 <= c as int <= 57
}

/// Numeric value of a digit character; 0 for anything that is not a digit.
pub open spec fn digit_val(c: char) -> nat {
    if 48 <= c as int <= 57 {
        (c as int - 48) as nat
    } else {
        0
    }
}

/// Every character of `s` is an ASCII digit.
pub open spec fn digits_ok(s: Seq<char>) -> bool {
    forall|i: int| 0 <= i < s.len() ==> is_digit(#[trigger] s[i])
}

/// Natural number denoted by `s`, most significant digit first.
pub open spec fn dval(s: Seq<char>) -> nat
    decreases s.len(),
{
    if s.len() == 0 {
        0
    } else {
        dval(s.drop_last()) * 10 + digit_val(s.last())
    }
}

/// `10^n`.
pub open spec fn pow10(n: nat) -> nat
    decreases n,
{
    if n == 0 {
        1nat
    } else {
        10 * pow10((n - 1) as nat)
    }
}

/// A run of `n` zero digits.
pub open spec fn zeros(n: nat) -> Seq<char> {
    Seq::new(n, |i: int| '0')
}

/// `s` with leading zero digits removed.
pub open spec fn trim_leading(s: Seq<char>) -> Seq<char>
    decreases s.len(),
{
    if s.len() > 0 && s.first() == '0' {
        trim_leading(s.drop_first())
    } else {
        s
    }
}

/// `s` with trailing zero digits removed.
pub open spec fn trim_trailing(s: Seq<char>) -> Seq<char>
    decreases s.len(),
{
    if s.len() > 0 && s.last() == '0' {
        trim_trailing(s.drop_last())
    } else {
        s
    }
}

pub proof fn lemma_dval_single(c: char)
    ensures
        dval(seq![c]) == digit_val(c),
{
    let z = seq![c];
    assert(z.drop_last() =~= Seq::<char>::empty());
    assert(z.last() == c);
    assert(dval(z) == dval(z.drop_last()) * 10 + digit_val(z.last()));
}

pub proof fn lemma_dval_push(s: Seq<char>, c: char)
    ensures
        dval(s.push(c)) == dval(s) * 10 + digit_val(c),
{
    assert(s.push(c).drop_last() =~= s);
    assert(s.push(c).last() == c);
}

pub proof fn lemma_pow10_pos(n: nat)
    ensures
        pow10(n) >= 1,
    decreases n,
{
    if n > 0 {
        lemma_pow10_pos((n - 1) as nat);
    }
}

pub proof fn lemma_pow10_add(m: nat, n: nat)
    ensures
        pow10(m + n) == pow10(m) * pow10(n),
    decreases m,
{
    if m == 0 {
        assert(pow10(0 + n) == 1 * pow10(n));
    } else {
        lemma_pow10_add((m - 1) as nat, n);
        assert(pow10(m + n) == 10 * pow10((m - 1 + n) as nat)) by {
            assert(m + n >= 1);
        }
        assert(10 * (pow10((m - 1) as nat) * pow10(n)) == (10 * pow10((m - 1) as nat)) * pow10(n))
            by (nonlinear_arith);
    }
}

pub proof fn lemma_pow10_mono(m: nat, n: nat)
    requires
        m <= n,
    ensures
        pow10(m) <= pow10(n),
    decreases n,
{
    if m < n {
        lemma_pow10_mono(m, (n - 1) as nat);
        lemma_pow10_pos((n - 1) as nat);
    }
}

pub proof fn lemma_dval_bound(s: Seq<char>)
    ensures
        dval(s) < pow10(s.len()),
    decreases s.len(),
{
    if s.len() > 0 {
        lemma_dval_bound(s.drop_last());
        assert(digit_val(s.last()) <= 9);
    }
}

pub proof fn lemma_dval_concat(a: Seq<char>, b: Seq<char>)
    ensures
        dval(a + b) == dval(a) * pow10(b.len()) + dval(b),
    decreases b.len(),
{
    if b.len() == 0 {
        assert(a + b =~= a);
        assert(dval(a) * 1 == dval(a)) by (nonlinear_arith);
    } else {
        lemma_dval_concat(a, b.drop_last());
        assert((a + b).drop_last() =~= a + b.drop_last());
        assert((a + b).last() == b.last());
        let x = dval(a);
        let p = pow10((b.len() - 1) as nat);
        let y = dval(b.drop_last());
        let d = digit_val(b.last());
        assert(dval(a + b) == (x * p + y) * 10 + d);
        assert((x * p + y) * 10 == x * (10 * p) + y * 10) by (nonlinear_arith);
        assert(pow10(b.len()) == 10 * p);
    }
}

pub proof fn lemma_dval_zeros(n: nat)
    ensures
        dval(zeros(n)) == 0,
    decreases n,
{
    if n > 0 {
        assert(zeros(n).drop_last() =~= zeros((n - 1) as nat));
        assert(zeros(n).last() == '0');
        lemma_dval_zeros((n - 1) as nat);
    }
}

/// Equal-length digit sequences with equal value are equal.
pub proof fn lemma_dval_inj(s: Seq<char>, t: Seq<char>)
    requires
        digits_ok(s),
        digits_ok(t),
        s.len() == t.len(),
        dval(s) == dval(t),
    ensures
        s == t,
    decreases s.len(),
{
    if s.len() == 0 {
        assert(s =~= t);
    } else {
        let ds = digit_val(s.last());
        let dt = digit_val(t.last());
        assert(is_digit(s[s.len() - 1]));
        assert(is_digit(t[t.len() - 1]));
        assert(ds <= 9 && dt <= 9);
        assert(dval(s.drop_last()) * 10 + ds == dval(t.drop_last()) * 10 + dt);
        assert(ds == dt && dval(s.drop_last()) == dval(t.drop_last()));
        assert(s.last() as int == t.last() as int);
        assert(s.last() == t.last());
        assert(digits_ok(s.drop_last())) by {
            assert(forall|i: int|
                0 <= i < s.drop_last().len() ==> is_digit(#[trigger] s.drop_last()[i]));
        }
        assert(digits_ok(t.drop_last())) by {
            assert(forall|i: int|
                0 <= i < t.drop_last().len() ==> is_digit(#[trigger] t.drop_last()[i]));
        }
        lemma_dval_inj(s.drop_last(), t.drop_last());
        assert(s =~= s.drop_last().push(s.last()));
        assert(t =~= t.drop_last().push(t.last()));
    }
}

/// The value is zero exactly when every digit is `'0'`.
pub proof fn lemma_dval_zero_iff(s: Seq<char>)
    requires
        digits_ok(s),
    ensures
        dval(s) == 0 <==> (forall|i: int| 0 <= i < s.len() ==> s[i] == '0'),
    decreases s.len(),
{
    if s.len() > 0 {
        assert(digits_ok(s.drop_last())) by {
            assert(forall|i: int|
                0 <= i < s.drop_last().len() ==> is_digit(#[trigger] s.drop_last()[i]));
        }
        lemma_dval_zero_iff(s.drop_last());
        assert(is_digit(s[s.len() - 1]));
        if dval(s) == 0 {
            assert(digit_val(s.last()) == 0);
            assert(s.last() as int == 48);
            assert(s.last() == '0');
            assert(forall|i: int| 0 <= i < s.len() - 1 ==> s.drop_last()[i] == s[i]);
        } else {
            if forall|i: int| 0 <= i < s.len() ==> s[i] == '0' {
                assert(s.last() == '0');
                assert(forall|i: int|
                    0 <= i < s.drop_last().len() ==> #[trigger] s.drop_last()[i] == s[i]);
                assert(dval(s.drop_last()) == 0);
                assert(false);
            }
        }
    }
}

/// Trimming leading zeros does not change the value.
pub proof fn lemma_trim_leading_dval(s: Seq<char>)
    ensures
        dval(trim_leading(s)) == dval(s),
        trim_leading(s).len() <= s.len(),
        trim_leading(s).len() > 0 ==> trim_leading(s).first() != '0',
        digits_ok(s) ==> digits_ok(trim_leading(s)),
    decreases s.len(),
{
    if s.len() > 0 && s.first() == '0' {
        let r = s.drop_first();
        lemma_trim_leading_dval(r);
        assert(s =~= seq!['0'] + r);
        lemma_dval_concat(seq!['0'], r);
        let z = seq!['0'];
        assert(dval(z) == 0) by {
            assert(z.drop_last() =~= Seq::<char>::empty());
            assert(z.last() == '0');
            assert(dval(z) == dval(z.drop_last()) * 10 + digit_val(z.last()));
        }
        assert(0 * pow10(r.len()) == 0) by (nonlinear_arith);
        if digits_ok(s) {
            assert(digits_ok(r)) by {
                assert(forall|i: int| 0 <= i < r.len() ==> r[i] == s[i + 1]);
            }
        }
    }
}

/// A nonempty digit sequence without a leading zero is at least `10^(len-1)`.
pub proof fn lemma_no_leading_zero_bound(s: Seq<char>)
    requires
        digits_ok(s),
        s.len() > 0,
        s.first() != '0',
    ensures
        dval(s) >= pow10((s.len() - 1) as nat),
{
    let h = s.take(1);
    let r = s.skip(1);
    assert(s =~= h + r);
    lemma_dval_concat(h, r);
    assert(h.drop_last() =~= Seq::<char>::empty());
    assert(h.last() == s[0]);
    assert(is_digit(s[0]));
    assert(s[0] as int != 48) by {
        if s[0] as int == 48 {
            assert(s[0] == '0');
        }
    }
    assert(digit_val(s[0]) >= 1);
    assert(dval(h) >= 1);
    let p = pow10(r.len());
    lemma_pow10_pos(r.len());
    assert(dval(h) * p >= 1 * p) by (nonlinear_arith)
        requires
            dval(h) >= 1,
            p >= 0,
    ;
}

/// Digit sequences with equal value have the same leading-zero-trimmed form.
pub proof fn lemma_trim_leading_canon(s: Seq<char>, t: Seq<char>)
    requires
        digits_ok(s),
        digits_ok(t),
        dval(s) == dval(t),
    ensures
        trim_leading(s) == trim_leading(t),
{
    let u = trim_leading(s);
    let v = trim_leading(t);
    lemma_trim_leading_dval(s);
    lemma_trim_leading_dval(t);
    if u.len() < v.len() {
        lemma_no_leading_zero_bound(v);
        lemma_dval_bound(u);
        lemma_pow10_mono(u.len(), (v.len() - 1) as nat);
        assert(false);
    } else if v.len() < u.len() {
        lemma_no_leading_zero_bound(u);
        lemma_dval_bound(v);
        lemma_pow10_mono(v.len(), (u.len() - 1) as nat);
        assert(false);
    } else {
        lemma_dval_inj(u, v);
    }
}

/// A digit sequence is its trailing-trimmed form extended by zeros.
pub proof fn lemma_trim_trailing_dval(s: Seq<char>)
    ensures
        trim_trailing(s).len() <= s.len(),
        dval(s) == dval(trim_trailing(s)) * pow10((s.len() - trim_trailing(s).len()) as nat),
        trim_trailing(s).len() > 0 ==> trim_trailing(s).last() != '0',
        digits_ok(s) ==> digits_ok(trim_trailing(s)),
    decreases s.len(),
{
    if s.len() > 0 && s.last() == '0' {
        let r = s.drop_last();
        lemma_trim_trailing_dval(r);
        let u = trim_trailing(s);
        assert(u == trim_trailing(r));
        let k = (r.len() - u.len()) as nat;
        assert(dval(s) == dval(r) * 10 + 0);
        assert((dval(u) * pow10(k)) * 10 == dval(u) * (10 * pow10(k))) by (nonlinear_arith);
        assert(pow10((k + 1) as nat) == 10 * pow10(k));
        if digits_ok(s) {
            assert(digits_ok(r)) by {
                assert(forall|i: int| 0 <= i < r.len() ==> r[i] == s[i]);
            }
        }
    } else {
        assert(dval(s) * pow10(0) == dval(s)) by (nonlinear_arith);
    }
}

/// Two digit sequences whose values agree once scaled to a common power of
/// ten have the same trailing-trimmed form.  `ps` and `pt` are the scale
/// exponents of `s` and `t`.
pub proof fn lemma_trim_trailing_canon(s: Seq<char>, t: Seq<char>, ps: nat, pt: nat)
    requires
        digits_ok(s),
        digits_ok(t),
        dval(s) * pow10(ps) == dval(t) * pow10(pt),
        s.len() + ps == t.len() + pt,
    ensures
        trim_trailing(s) == trim_trailing(t),
{
    let u = trim_trailing(s);
    let v = trim_trailing(t);
    lemma_trim_trailing_dval(s);
    lemma_trim_trailing_dval(t);
    let ku = (s.len() - u.len()) as nat + ps;
    let kv = (t.len() - v.len()) as nat + pt;
    assert(dval(u) * pow10(ku) == dval(s) * pow10(ps)) by {
        lemma_pow10_add((s.len() - u.len()) as nat, ps);
        assert((dval(u) * pow10((s.len() - u.len()) as nat)) * pow10(ps) == dval(u) * (pow10(
            (s.len() - u.len()) as nat,
        ) * pow10(ps))) by (nonlinear_arith);
    }
    assert(dval(v) * pow10(kv) == dval(t) * pow10(pt)) by {
        lemma_pow10_add((t.len() - v.len()) as nat, pt);
        assert((dval(v) * pow10((t.len() - v.len()) as nat)) * pow10(pt) == dval(v) * (pow10(
            (t.len() - v.len()) as nat,
        ) * pow10(pt))) by (nonlinear_arith);
    }
    assert(u.len() + ku == v.len() + kv);
    lemma_trim_trailing_canon_aux(u, v, ku, kv);
}

/// Helper: both sequences already have no trailing zero.
proof fn lemma_trim_trailing_canon_aux(u: Seq<char>, v: Seq<char>, ku: nat, kv: nat)
    requires
        digits_ok(u),
        digits_ok(v),
        u.len() > 0 ==> u.last() != '0',
        v.len() > 0 ==> v.last() != '0',
        dval(u) * pow10(ku) == dval(v) * pow10(kv),
        u.len() + ku == v.len() + kv,
    ensures
        u == v,
    decreases u.len(),
{
    if u.len() == v.len() {
        assert(ku == kv);
        lemma_pow10_pos(ku);
        assert(dval(u) == dval(v)) by (nonlinear_arith)
            requires
                dval(u) * pow10(ku) == dval(v) * pow10(kv),
                ku == kv,
                pow10(ku) >= 1,
        ;
        lemma_dval_inj(u, v);
    } else if u.len() < v.len() {
        // v is longer, so v's value carries a factor of 10 less; show that
        // v would have to end in a zero digit, contradicting trimming.
        assert(kv < ku);
        lemma_pow10_pos(kv);
        assert(pow10(ku) == pow10((ku - kv) as nat) * pow10(kv)) by {
            lemma_pow10_add((ku - kv) as nat, kv);
        }
        assert(dval(v) == dval(u) * pow10((ku - kv) as nat)) by (nonlinear_arith)
            requires
                dval(u) * (pow10((ku - kv) as nat) * pow10(kv)) == dval(v) * pow10(kv),
                pow10(kv) >= 1,
        ;
        assert(ku - kv >= 1);
        assert(pow10((ku - kv) as nat) == 10 * pow10((ku - kv - 1) as nat));
        assert(dval(v) == (dval(u) * pow10((ku - kv - 1) as nat)) * 10) by (nonlinear_arith)
            requires
                dval(v) == dval(u) * (10 * pow10((ku - kv - 1) as nat)),
        ;
        if v.len() > 0 {
            assert(dval(v) == dval(v.drop_last()) * 10 + digit_val(v.last()));
            assert(is_digit(v[v.len() - 1]));
            assert(digit_val(v.last()) == 0);
            assert(v.last() as int == 48);
            assert(v.last() == '0');
            assert(false);
        } else {
            assert(false);
        }
    } else {
        lemma_trim_trailing_canon_aux(v, u, kv, ku);
    }
}

/// If two equal-length digit sequences agree on a prefix and then differ,
/// the one with the smaller digit at the first difference is smaller.
pub proof fn lemma_dval_lex(a: Seq<char>, b: Seq<char>, i: int)
    requires
        digits_ok(a),
        digits_ok(b),
        a.len() == b.len(),
        0 <= i < a.len(),
        forall|j: int| 0 <= j < i ==> a[j] == b[j],
        digit_val(a[i]) < digit_val(b[i]),
    ensures
        dval(a) < dval(b),
{
    let n = a.len() as int;
    let pa = a.take(i + 1);
    let pb = b.take(i + 1);
    assert(a =~= pa + a.skip(i + 1));
    assert(b =~= pb + b.skip(i + 1));
    lemma_dval_concat(pa, a.skip(i + 1));
    lemma_dval_concat(pb, b.skip(i + 1));
    assert(pa.drop_last() =~= pb.drop_last()) by {
        assert(forall|j: int| 0 <= j < i ==> a.take(i + 1).drop_last()[j] == a[j]);
        assert(forall|j: int| 0 <= j < i ==> b.take(i + 1).drop_last()[j] == b[j]);
    }
    assert(pa.last() == a[i]);
    assert(pb.last() == b[i]);
    assert(dval(pa) + 1 <= dval(pb));
    let p = pow10((n - i - 1) as nat);
    assert(a.skip(i + 1).len() == n - i - 1);
    lemma_dval_bound(a.skip(i + 1));
    lemma_pow10_pos((n - i - 1) as nat);
    assert(dval(a) < (dval(pa) + 1) * p) by (nonlinear_arith)
        requires
            dval(a) == dval(pa) * p + dval(a.skip(i + 1)),
            dval(a.skip(i + 1)) < p,
    ;
    assert((dval(pa) + 1) * p <= dval(pb) * p) by (nonlinear_arith)
        requires
            dval(pa) + 1 <= dval(pb),
            p >= 1,
    ;
    assert(dval(pb) * p <= dval(b));
}

} // verus!
