//! Digit buffer utilities: zero padding, zero trimming, and the
//! digit-wise carry/borrow passes that the arithmetic operations share.
//!
//! Buffers are `Vec<char>` of ASCII digit characters, most significant
//! digit first, modelled by the spec functions of [`crate::digits`].

use vstd::prelude::*;

use crate::digits::digit_val;
use crate::digits::digits_ok;
use crate::digits::dval;
use crate::digits::is_digit;
use crate::digits::lemma_dval_concat;
use crate::digits::lemma_dval_lex;
use crate::digits::lemma_dval_single;
use crate::digits::lemma_dval_push;
use crate::digits::lemma_dval_zeros;
use crate::digits::lemma_pow10_pos;
use crate::digits::pow10;
use crate::digits::trim_leading;
use crate::digits::trim_trailing;
use crate::digits::zeros;
use core::cmp::Ordering;

verus! {

/// `s` padded on the left with zeros up to length `n`.
pub open spec fn pad_left(s: Seq<char>, n: nat) -> Seq<char> {
    if s.len() >= n {
        s
    } else {
        zeros((n - s.len()) as nat) + s
    }
}

/// `s` padded on the right with zeros up to length `n`.
pub open spec fn pad_right(s: Seq<char>, n: nat) -> Seq<char> {
    if s.len() >= n {
        s
    } else {
        s + zeros((n - s.len()) as nat)
    }
}

/// An all-zero digit sequence collapsed to the single digit `'0'`.
pub open spec fn collapse_zero(s: Seq<char>) -> Seq<char> {
    if s.len() == 0 {
        seq!['0']
    } else {
        s
    }
}

pub proof fn lemma_pad_left(s: Seq<char>, n: nat)
    ensures
        pad_left(s, n).len() == if s.len() >= n {
            s.len()
        } else {
            n
        },
        dval(pad_left(s, n)) == dval(s),
        digits_ok(s) ==> digits_ok(pad_left(s, n)),
{
    if s.len() < n {
        let k = (n - s.len()) as nat;
        lemma_dval_concat(zeros(k), s);
        lemma_dval_zeros(k);
        assert(0 * pow10(s.len()) == 0) by (nonlinear_arith);
        if digits_ok(s) {
            assert(forall|i: int|
                0 <= i < pad_left(s, n).len() ==> is_digit(#[trigger] pad_left(s, n)[i])) by {
                assert(forall|i: int| 0 <= i < k ==> pad_left(s, n)[i] == '0');
                assert(forall|i: int| k <= i < n ==> pad_left(s, n)[i] == s[i - k]);
            }
        }
    }
}

pub proof fn lemma_pad_right(s: Seq<char>, n: nat)
    ensures
        pad_right(s, n).len() == if s.len() >= n {
            s.len()
        } else {
            n
        },
        dval(pad_right(s, n)) == dval(s) * pow10((pad_right(s, n).len() - s.len()) as nat),
        digits_ok(s) ==> digits_ok(pad_right(s, n)),
{
    if s.len() < n {
        let k = (n - s.len()) as nat;
        lemma_dval_concat(s, zeros(k));
        lemma_dval_zeros(k);
        if digits_ok(s) {
            assert(forall|i: int|
                0 <= i < pad_right(s, n).len() ==> is_digit(#[trigger] pad_right(s, n)[i])) by {
                assert(forall|i: int| 0 <= i < s.len() ==> pad_right(s, n)[i] == s[i]);
                assert(forall|i: int| s.len() <= i < n ==> pad_right(s, n)[i] == '0');
            }
        }
    } else {
        assert(dval(s) * pow10(0) == dval(s)) by (nonlinear_arith);
    }
}

/// Characterization of `trim_leading`: dropping a known run of leading zeros.
pub proof fn lemma_trim_leading_skip(s: Seq<char>, k: int)
    requires
        0 <= k <= s.len(),
        forall|j: int| 0 <= j < k ==> s[j] == '0',
        k < s.len() ==> s[k] != '0',
    ensures
        trim_leading(s) == s.skip(k),
    decreases k,
{
    if k == 0 {
        assert(trim_leading(s) == s);
        assert(s.skip(0) =~= s);
    } else {
        let r = s.drop_first();
        assert(s[0] == '0');
        assert(trim_leading(s) == trim_leading(r));
        assert(forall|j: int| 0 <= j < k - 1 ==> r[j] == s[j + 1]);
        lemma_trim_leading_skip(r, k - 1);
        assert(r.skip(k - 1) =~= s.skip(k));
    }
}

/// Characterization of `trim_trailing`: dropping a known run of trailing zeros.
pub proof fn lemma_trim_trailing_take(s: Seq<char>, e: int)
    requires
        0 <= e <= s.len(),
        forall|j: int| e <= j < s.len() ==> s[j] == '0',
        e > 0 ==> s[e - 1] != '0',
    ensures
        trim_trailing(s) == s.take(e),
    decreases s.len(),
{
    if e == s.len() {
        if s.len() > 0 {
            assert(s.last() != '0');
        }
        assert(s.take(e) =~= s);
    } else {
        assert(s.last() == '0');
        let r = s.drop_last();
        assert(trim_trailing(s) == trim_trailing(r));
        assert(forall|j: int| 0 <= j < r.len() ==> r[j] == s[j]);
        lemma_trim_trailing_take(r, e);
        assert(r.take(e) =~= s.take(e));
    }
}

/// Numeric value of a digit character.
pub fn char_digit(c: char) -> (d: u32)
    requires
        is_digit(c),
    ensures
        d as nat == digit_val(c),
        d <= 9,
{
    (c as u32) - 48
}

/// Digit character for a value between 0 and 9.
pub fn digit_char(d: u32) -> (c: char)
    requires
        d <= 9,
    ensures
        is_digit(c),
        digit_val(c) == d as nat,
{
    if d == 0 {
        '0'
    } else if d == 1 {
        '1'
    } else if d == 2 {
        '2'
    } else if d == 3 {
        '3'
    } else if d == 4 {
        '4'
    } else if d == 5 {
        '5'
    } else if d == 6 {
        '6'
    } else if d == 7 {
        '7'
    } else if d == 8 {
        '8'
    } else {
        '9'
    }
}

/// A fresh copy of a digit buffer.
pub fn copy_digits(v: &Vec<char>) -> (r: Vec<char>)
    ensures
        r@ == v@,
{
    let mut r: Vec<char> = Vec::new();
    let mut i: usize = 0;
    while i < v.len()
        invariant
            0 <= i <= v.len(),
            r@ == v@.take(i as int),
        decreases v.len() - i,
    {
        r.push(v[i]);
        assert(v@.take(i as int).push(v@[i as int]) =~= v@.take(i + 1));
        i += 1;
    }
    assert(v@.take(v.len() as int) =~= v@);
    r
}

/// Pad a digit buffer with zeros to `target_len`: on the left for integer
/// digits, on the right for fractional digits.  A buffer already at least
/// `target_len` long is unchanged.
pub fn pad(v: &mut Vec<char>, target_len: usize, left: bool)
    ensures
        final(v)@ == if left {
            pad_left(old(v)@, target_len as nat)
        } else {
            pad_right(old(v)@, target_len as nat)
        },
{
    if left {
        while v.len() < target_len
            invariant
                v@.len() >= old(v)@.len(),
                v@ == zeros((v@.len() - old(v)@.len()) as nat) + old(v)@,
                v@.len() <= target_len || v@.len() == old(v)@.len(),
            decreases target_len - v.len(),
        {
            let ghost prev = v@;
            let ghost k = (prev.len() - old(v)@.len()) as nat;
            v.insert(0, '0');
            assert(v@ =~= seq!['0'] + prev);
            assert(v@ =~= zeros((k + 1) as nat) + old(v)@);
        }
        proof {
            if v@.len() == old(v)@.len() {
                assert(v@ =~= old(v)@);
            }
        }
    } else {
        while v.len() < target_len
            invariant
                v@.len() >= old(v)@.len(),
                v@ == old(v)@ + zeros((v@.len() - old(v)@.len()) as nat),
                v@.len() <= target_len || v@.len() == old(v)@.len(),
            decreases target_len - v.len(),
        {
            let ghost prev = v@;
            let ghost k = (prev.len() - old(v)@.len()) as nat;
            v.push('0');
            assert(v@ =~= old(v)@ + zeros((k + 1) as nat));
        }
        proof {
            if v@.len() == old(v)@.len() {
                assert(v@ =~= old(v)@);
            }
        }
    }
}

/// Trim zeros from a digit buffer: leading zeros for integer digits,
/// trailing zeros for fractional digits, collapsing an all-zero buffer to
/// the single digit `'0'`.
pub fn trim_zeros(v: &Vec<char>, leading: bool) -> (r: Vec<char>)
    ensures
        r@ == collapse_zero(
            if leading {
                trim_leading(v@)
            } else {
                trim_trailing(v@)
            },
        ),
        r@.len() >= 1,
        digits_ok(v@) ==> digits_ok(r@),
{
    let n = v.len();
    let mut r: Vec<char> = Vec::new();
    if leading {
        let mut k: usize = 0;
        while k < n && v[k] == '0'
            invariant
                0 <= k <= n,
                n == v@.len(),
                forall|j: int| 0 <= j < k ==> v@[j] == '0',
            decreases n - k,
        {
            k += 1;
        }
        proof {
            lemma_trim_leading_skip(v@, k as int);
        }
        if k == n {
            r.push('0');
            assert(r@ =~= seq!['0']);
            assert(v@.skip(n as int) =~= Seq::<char>::empty());
        } else {
            let mut i: usize = k;
            while i < n
                invariant
                    k <= i <= n,
                    n == v@.len(),
                    r@ == v@.subrange(k as int, i as int),
                decreases n - i,
            {
                r.push(v[i]);
                assert(v@.subrange(k as int, i as int).push(v@[i as int]) =~= v@.subrange(
                    k as int,
                    i + 1,
                ));
                i += 1;
            }
            assert(v@.subrange(k as int, n as int) =~= v@.skip(k as int));
            assert(r@.len() >= 1);
        }
    } else {
        let mut e: usize = n;
        while e > 0 && v[e - 1] == '0'
            invariant
                0 <= e <= n,
                n == v@.len(),
                forall|j: int| e <= j < n ==> v@[j] == '0',
            decreases e,
        {
            e -= 1;
        }
        proof {
            lemma_trim_trailing_take(v@, e as int);
        }
        if e == 0 {
            r.push('0');
            assert(r@ =~= seq!['0']);
            assert(v@.take(0) =~= Seq::<char>::empty());
        } else {
            let mut i: usize = 0;
            while i < e
                invariant
                    0 <= i <= e <= n,
                    n == v@.len(),
                    r@ == v@.subrange(0, i as int),
                decreases e - i,
            {
                r.push(v[i]);
                assert(v@.subrange(0, i as int).push(v@[i as int]) =~= v@.subrange(0, i + 1));
                i += 1;
            }
            assert(v@.subrange(0, e as int) =~= v@.take(e as int));
            assert(r@.len() >= 1);
        }
    }
    r
}

/// Concatenation of two digit buffers.
pub fn concat_digits(x: &Vec<char>, y: &Vec<char>) -> (r: Vec<char>)
    ensures
        r@ == x@ + y@,
{
    let mut r = copy_digits(x);
    let mut i: usize = 0;
    while i < y.len()
        invariant
            0 <= i <= y@.len(),
            r@ == x@ + y@.take(i as int),
        decreases y@.len() - i,
    {
        r.push(y[i]);
        assert((x@ + y@.take(i as int)).push(y@[i as int]) =~= x@ + y@.take(i + 1));
        i += 1;
    }
    assert(x@ + y@.take(y@.len() as int) =~= x@ + y@);
    r
}

/// Split a digit buffer at `at` into its prefix and suffix.
pub fn split_digits(v: &Vec<char>, at: usize) -> (r: (Vec<char>, Vec<char>))
    requires
        at <= v@.len(),
    ensures
        r.0@ == v@.take(at as int),
        r.1@ == v@.skip(at as int),
{
    let n = v.len();
    let mut head: Vec<char> = Vec::new();
    let mut i: usize = 0;
    while i < at
        invariant
            0 <= i <= at <= n,
            n == v@.len(),
            head@ == v@.subrange(0, i as int),
        decreases at - i,
    {
        head.push(v[i]);
        assert(v@.subrange(0, i as int).push(v@[i as int]) =~= v@.subrange(0, i + 1));
        i += 1;
    }
    let mut tail: Vec<char> = Vec::new();
    let mut k: usize = at;
    while k < n
        invariant
            at <= k <= n,
            n == v@.len(),
            tail@ == v@.subrange(at as int, k as int),
        decreases n - k,
    {
        tail.push(v[k]);
        assert(v@.subrange(at as int, k as int).push(v@[k as int]) =~= v@.subrange(
            at as int,
            k + 1,
        ));
        k += 1;
    }
    assert(v@.subrange(0, at as int) =~= v@.take(at as int));
    assert(v@.subrange(at as int, n as int) =~= v@.skip(at as int));
    (head, tail)
}

/// A copy of `v` with leading zero digits removed (no collapsing).
pub fn trimmed_leading(v: &Vec<char>) -> (r: Vec<char>)
    ensures
        r@ == trim_leading(v@),
{
    let n = v.len();
    let mut k: usize = 0;
    while k < n && v[k] == '0'
        invariant
            0 <= k <= n,
            n == v@.len(),
            forall|j: int| 0 <= j < k ==> v@[j] == '0',
        decreases n - k,
    {
        k += 1;
    }
    proof {
        lemma_trim_leading_skip(v@, k as int);
    }
    let mut r: Vec<char> = Vec::new();
    let mut i: usize = k;
    while i < n
        invariant
            k <= i <= n,
            n == v@.len(),
            r@ == v@.subrange(k as int, i as int),
        decreases n - i,
    {
        r.push(v[i]);
        assert(v@.subrange(k as int, i as int).push(v@[i as int]) =~= v@.subrange(k as int, i + 1));
        i += 1;
    }
    assert(v@.subrange(k as int, n as int) =~= v@.skip(k as int));
    r
}

/// A copy of `v` with trailing zero digits removed (no collapsing).
pub fn trimmed_trailing(v: &Vec<char>) -> (r: Vec<char>)
    ensures
        r@ == trim_trailing(v@),
{
    let n = v.len();
    let mut e: usize = n;
    while e > 0 && v[e - 1] == '0'
        invariant
            0 <= e <= n,
            n == v@.len(),
            forall|j: int| e <= j < n ==> v@[j] == '0',
        decreases e,
    {
        e -= 1;
    }
    proof {
        lemma_trim_trailing_take(v@, e as int);
    }
    let mut r: Vec<char> = Vec::new();
    let mut i: usize = 0;
    while i < e
        invariant
            0 <= i <= e <= n,
            n == v@.len(),
            r@ == v@.subrange(0, i as int),
        decreases e - i,
    {
        r.push(v[i]);
        assert(v@.subrange(0, i as int).push(v@[i as int]) =~= v@.subrange(0, i + 1));
        i += 1;
    }
    assert(v@.subrange(0, e as int) =~= v@.take(e as int));
    r
}

/// Element-wise equality of two character buffers.
pub fn chars_equal(a: &Vec<char>, b: &Vec<char>) -> (r: bool)
    ensures
        r == (a@ == b@),
{
    if a.len() != b.len() {
        assert(a@ != b@);
        return false;
    }
    let n = a.len();
    let mut i: usize = 0;
    while i < n
        invariant
            0 <= i <= n,
            n == a@.len() == b@.len(),
            forall|j: int| 0 <= j < i ==> a@[j] == b@[j],
        decreases n - i,
    {
        if a[i] != b[i] {
            assert(a@ != b@);
            return false;
        }
        i += 1;
    }
    assert(a@ =~= b@);
    true
}

/// Three-way comparison of two equal-length digit buffers; because the
/// buffers have equal length, lexicographic order agrees with numeric order.
pub fn compare_digits(a: &Vec<char>, b: &Vec<char>) -> (r: Ordering)
    requires
        digits_ok(a@),
        digits_ok(b@),
        a@.len() == b@.len(),
    ensures
        r == Ordering::Less ==> dval(a@) < dval(b@),
        r == Ordering::Greater ==> dval(a@) > dval(b@),
        r == Ordering::Equal ==> a@ == b@,
{
    let n = a.len();
    let mut i: usize = 0;
    while i < n
        invariant
            0 <= i <= n,
            n == a@.len() == b@.len(),
            digits_ok(a@),
            digits_ok(b@),
            forall|j: int| 0 <= j < i ==> a@[j] == b@[j],
        decreases n - i,
    {
        assert(is_digit(a@[i as int]));
        assert(is_digit(b@[i as int]));
        let ca = a[i] as u32;
        let cb = b[i] as u32;
        if ca < cb {
            proof {
                lemma_dval_lex(a@, b@, i as int);
            }
            return Ordering::Less;
        }
        if ca > cb {
            proof {
                lemma_dval_lex(b@, a@, i as int);
            }
            return Ordering::Greater;
        }
        assert(a@[i as int] == b@[i as int]);
        i += 1;
    }
    assert(a@ =~= b@);
    Ordering::Equal
}

/// One right-to-left addition pass over two equal-length digit buffers.
/// Returns the digit buffer of the sum and the outgoing carry.
pub fn add_digits(a: &Vec<char>, b: &Vec<char>, carry_in: u32) -> (r: (Vec<char>, u32))
    requires
        digits_ok(a@),
        digits_ok(b@),
        a@.len() == b@.len(),
        carry_in <= 1,
    ensures
        r.0@.len() == a@.len(),
        digits_ok(r.0@),
        r.1 <= 1,
        dval(a@) + dval(b@) + carry_in == dval(r.0@) + r.1 * pow10(a@.len() as nat),
{
    let n = a.len();
    let mut res: Vec<char> = Vec::new();
    let mut carry: u32 = carry_in;
    let mut i: usize = n;
    assert(a@.skip(n as int) =~= Seq::<char>::empty());
    assert(b@.skip(n as int) =~= Seq::<char>::empty());
    assert(dval(Seq::<char>::empty()) == 0);
    assert(carry_in * pow10(0) == carry_in) by (nonlinear_arith);
    while i > 0
        invariant
            0 <= i <= n,
            n == a@.len() == b@.len(),
            digits_ok(a@),
            digits_ok(b@),
            digits_ok(res@),
            res@.len() == n - i,
            carry <= 1,
            dval(a@.skip(i as int)) + dval(b@.skip(i as int)) + carry_in == carry * pow10(
                (n - i) as nat,
            ) + dval(res@),
        decreases i,
    {
        let ghost p = pow10((n - i) as nat);
        assert(is_digit(a@[i - 1]));
        assert(is_digit(b@[i - 1]));
        let da = char_digit(a[i - 1]);
        let db = char_digit(b[i - 1]);
        let mut c: u32 = da + db + carry;
        let mut new_carry: u32 = 0;
        if c >= 10 {
            c -= 10;
            new_carry = 1;
        }
        let ch = digit_char(c);
        let ghost prev = res@;
        res.insert(0, ch);
        assert(res@ =~= seq![ch] + prev);
        proof {
            lemma_dval_concat(seq![ch], prev);
            lemma_dval_single(ch);
            assert(a@.skip(i - 1) =~= seq![a@[i - 1]] + a@.skip(i as int));
            assert(b@.skip(i - 1) =~= seq![b@[i - 1]] + b@.skip(i as int));
            lemma_dval_concat(seq![a@[i - 1]], a@.skip(i as int));
            lemma_dval_concat(seq![b@[i - 1]], b@.skip(i as int));
            lemma_dval_single(a@[i - 1]);
            lemma_dval_single(b@[i - 1]);
            let va = dval(a@.skip(i as int));
            let vb = dval(b@.skip(i as int));
            assert(dval(a@.skip(i - 1)) == da * p + va);
            assert(dval(b@.skip(i - 1)) == db * p + vb);
            assert((da + db) as nat * p == da * p + db * p) by (nonlinear_arith);
            assert(dval(res@) == c * p + dval(prev));
            assert(pow10((n - i + 1) as nat) == 10 * p);
            assert(da * p + db * p + (carry * p + dval(prev)) == (da + db + carry) as nat * p
                + dval(prev)) by (nonlinear_arith);
            assert((da + db + carry) as nat == c + 10 * new_carry);
            assert((c + 10 * new_carry) as nat * p == c * p + new_carry * (10 * p))
                by (nonlinear_arith);
        }
        carry = new_carry;
        i -= 1;
    }
    assert(a@.skip(0) =~= a@);
    assert(b@.skip(0) =~= b@);
    (res, carry)
}

/// One right-to-left subtraction pass over two equal-length digit buffers.
/// Returns the digit buffer of the difference and the outgoing borrow.
pub fn sub_digits(a: &Vec<char>, b: &Vec<char>, borrow_in: u32) -> (r: (Vec<char>, u32))
    requires
        digits_ok(a@),
        digits_ok(b@),
        a@.len() == b@.len(),
        borrow_in <= 1,
    ensures
        r.0@.len() == a@.len(),
        digits_ok(r.0@),
        r.1 <= 1,
        dval(a@) + r.1 * pow10(a@.len() as nat) == dval(b@) + borrow_in + dval(r.0@),
{
    let n = a.len();
    let mut res: Vec<char> = Vec::new();
    let mut borrow: u32 = borrow_in;
    let mut i: usize = n;
    assert(a@.skip(n as int) =~= Seq::<char>::empty());
    assert(b@.skip(n as int) =~= Seq::<char>::empty());
    assert(dval(Seq::<char>::empty()) == 0);
    assert(borrow_in * pow10(0) == borrow_in) by (nonlinear_arith);
    while i > 0
        invariant
            0 <= i <= n,
            n == a@.len() == b@.len(),
            digits_ok(a@),
            digits_ok(b@),
            digits_ok(res@),
            res@.len() == n - i,
            borrow <= 1,
            dval(a@.skip(i as int)) + borrow * pow10((n - i) as nat) == dval(b@.skip(i as int))
                + borrow_in + dval(res@),
        decreases i,
    {
        let ghost p = pow10((n - i) as nat);
        assert(is_digit(a@[i - 1]));
        assert(is_digit(b@[i - 1]));
        let da = char_digit(a[i - 1]);
        let db = char_digit(b[i - 1]);
        let mut c: u32 = 0;
        let mut new_borrow: u32 = 0;
        if da >= db + borrow {
            c = da - db - borrow;
        } else {
            c = da + 10 - db - borrow;
            new_borrow = 1;
        }
        let ch = digit_char(c);
        let ghost prev = res@;
        res.insert(0, ch);
        assert(res@ =~= seq![ch] + prev);
        proof {
            lemma_dval_concat(seq![ch], prev);
            lemma_dval_single(ch);
            assert(a@.skip(i - 1) =~= seq![a@[i - 1]] + a@.skip(i as int));
            assert(b@.skip(i - 1) =~= seq![b@[i - 1]] + b@.skip(i as int));
            lemma_dval_concat(seq![a@[i - 1]], a@.skip(i as int));
            lemma_dval_concat(seq![b@[i - 1]], b@.skip(i as int));
            lemma_dval_single(a@[i - 1]);
            lemma_dval_single(b@[i - 1]);
            assert(da + 10 * new_borrow == db + borrow + c);
            assert(dval(res@) == c * p + dval(prev));
            assert(pow10((n - i + 1) as nat) == 10 * p);
            assert((da + 10 * new_borrow) as nat * p == da * p + new_borrow * (10 * p))
                by (nonlinear_arith);
            assert((db + borrow + c) as nat * p == db * p + borrow * p + c * p)
                by (nonlinear_arith);
        }
        borrow = new_borrow;
        i -= 1;
    }
    assert(a@.skip(0) =~= a@);
    assert(b@.skip(0) =~= b@);
    (res, borrow)
}

/// Multiply a digit buffer by a single digit; the result has one extra
/// digit at the front for the final carry.
pub fn mul_digit(a: &Vec<char>, d: u32) -> (r: Vec<char>)
    requires
        digits_ok(a@),
        d <= 9,
    ensures
        r@.len() == a@.len() + 1,
        digits_ok(r@),
        dval(r@) == dval(a@) * d,
{
    let n = a.len();
    let mut res: Vec<char> = Vec::new();
    let mut carry: u32 = 0;
    let mut i: usize = n;
    assert(a@.skip(n as int) =~= Seq::<char>::empty());
    while i > 0
        invariant
            0 <= i <= n,
            n == a@.len(),
            digits_ok(a@),
            digits_ok(res@),
            res@.len() == n - i,
            carry <= 8,
            d <= 9,
            dval(a@.skip(i as int)) * d == carry * pow10((n - i) as nat) + dval(res@),
        decreases i,
    {
        let ghost p = pow10((n - i) as nat);
        assert(is_digit(a@[i - 1]));
        let da = char_digit(a[i - 1]);
        assert(da * d <= 81) by (nonlinear_arith)
            requires
                da <= 9,
                d <= 9,
        ;
        let t: u32 = da * d + carry;
        let c: u32 = t % 10;
        let new_carry: u32 = t / 10;
        assert(t <= 89);
        assert(new_carry <= 8);
        let ch = digit_char(c);
        let ghost prev = res@;
        res.insert(0, ch);
        assert(res@ =~= seq![ch] + prev);
        proof {
            lemma_dval_concat(seq![ch], prev);
            lemma_dval_single(ch);
            assert(a@.skip(i - 1) =~= seq![a@[i - 1]] + a@.skip(i as int));
            lemma_dval_concat(seq![a@[i - 1]], a@.skip(i as int));
            lemma_dval_single(a@[i - 1]);
            let va = dval(a@.skip(i as int));
            assert(dval(a@.skip(i - 1)) == da * p + va);
            assert(t == c + 10 * new_carry);
            assert(dval(res@) == c * p + dval(prev));
            assert(pow10((n - i + 1) as nat) == 10 * p);
            assert((da * p + va) * d == (da * d) * p + va * d) by (nonlinear_arith);
            assert((da * d) as nat * p + carry * p == (da * d + carry) as nat * p)
                by (nonlinear_arith);
            assert((c + 10 * new_carry) as nat * p == c * p + new_carry * (10 * p))
                by (nonlinear_arith);
        }
        carry = new_carry;
        i -= 1;
    }
    assert(a@.skip(0) =~= a@);
    let ch = digit_char(carry);
    let ghost prev = res@;
    res.insert(0, ch);
    assert(res@ =~= seq![ch] + prev);
    proof {
        lemma_dval_concat(seq![ch], prev);
        lemma_dval_single(ch);
    }
    res
}

/// Add two digit buffers of arbitrary lengths; the result has one extra
/// digit at the front for the final carry.
pub fn add_full(a: &Vec<char>, b: &Vec<char>) -> (r: Vec<char>)
    requires
        digits_ok(a@),
        digits_ok(b@),
    ensures
        digits_ok(r@),
        dval(r@) == dval(a@) + dval(b@),
{
    let mut x = copy_digits(a);
    let mut y = copy_digits(b);
    let m: usize = if x.len() > y.len() {
        x.len()
    } else {
        y.len()
    };
    pad(&mut x, m, true);
    pad(&mut y, m, true);
    proof {
        lemma_pad_left(a@, m as nat);
        lemma_pad_left(b@, m as nat);
    }
    let (s, c) = add_digits(&x, &y, 0);
    let ch = digit_char(c);
    let mut res = s;
    let ghost prev = res@;
    res.insert(0, ch);
    assert(res@ =~= seq![ch] + prev);
    proof {
        lemma_dval_concat(seq![ch], prev);
        lemma_dval_single(ch);
    }
    res
}

/// Product of two digit buffers, by Horner evaluation over the digits of
/// the second operand.
pub fn mul_digits(a: &Vec<char>, b: &Vec<char>) -> (r: Vec<char>)
    requires
        digits_ok(a@),
        digits_ok(b@),
    ensures
        digits_ok(r@),
        dval(r@) == dval(a@) * dval(b@),
{
    let m = b.len();
    let mut acc: Vec<char> = Vec::new();
    let mut j: usize = 0;
    assert(b@.take(0) =~= Seq::<char>::empty());
    assert(dval(a@) * 0 == 0) by (nonlinear_arith);
    while j < m
        invariant
            0 <= j <= m,
            m == b@.len(),
            digits_ok(a@),
            digits_ok(b@),
            digits_ok(acc@),
            dval(acc@) == dval(a@) * dval(b@.take(j as int)),
        decreases m - j,
    {
        let ghost prev = acc@;
        acc.push('0');
        proof {
            lemma_dval_push(prev, '0');
            assert(digits_ok(acc@)) by {
                assert(forall|i: int|
                    0 <= i < acc@.len() ==> is_digit(#[trigger] acc@[i]));
            }
        }
        assert(is_digit(b@[j as int]));
        let dj = char_digit(b[j]);
        let part = mul_digit(a, dj);
        let next = add_full(&acc, &part);
        proof {
            let vb = dval(b@.take(j as int));
            assert(b@.take(j + 1).drop_last() =~= b@.take(j as int));
            assert(b@.take(j + 1).last() == b@[j as int]);
            assert(dval(b@.take(j + 1)) == vb * 10 + dj);
            assert(dval(next@) == (dval(a@) * vb) * 10 + dval(a@) * dj);
            assert((dval(a@) * vb) * 10 + dval(a@) * dj == dval(a@) * (vb * 10 + dj))
                by (nonlinear_arith);
        }
        acc = next;
        j += 1;
    }
    assert(b@.take(m as int) =~= b@);
    acc
}

} // verus!
