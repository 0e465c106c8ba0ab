//! The decimal value type: parsing, formatting and equality.
//!
//! A `Decimal` is a sign plus two buffers of ASCII digit characters: the
//! integer digits (most significant first) and the fractional digits
//! (highest place value first).  Nothing is normalized at construction:
//! leading and trailing zeros are kept exactly as written, and a zero
//! magnitude may carry either sign.

use vstd::prelude::*;

use crate::buffer::chars_equal;
use crate::buffer::trimmed_leading;
use crate::buffer::trimmed_trailing;
use crate::digits::digits_ok;
use crate::digits::is_digit;
use crate::digits::trim_leading;
use crate::digits::trim_trailing;

verus! {

/// An arbitrary-precision decimal number in sign-and-magnitude form.
#[derive(Debug, Clone)]
pub struct Decimal {
    /// Integer digits, most significant first; may have leading zeros.
    pub int: Vec<char>,
    /// Fractional digits, highest place value first; may have trailing zeros.
    pub frac: Vec<char>,
    /// `true` for non-negative values, `false` for negative ones.
    pub is_positive: bool,
}

/// Why a piece of text failed to parse as a `Decimal`.
pub enum ParseDecimalError {
    /// The input text was empty.
    Empty,
    /// A segment held a character that is not an ASCII digit.
    InvalidDigit,
}

impl Decimal {
    /// Both digit buffers hold ASCII digits only.  Every arithmetic
    /// operation assumes this of its operands and guarantees it of its
    /// result; the parser establishes it.
    pub open spec fn wf(self) -> bool {
        digits_ok(self.int@) && digits_ok(self.frac@)
    }
}

/// Length of the optional leading sign character of `t`.
pub open spec fn sign_len(t: Seq<char>) -> int {
    if t.len() > 0 && (t[0] == '-' || t[0] == '+') {
        1
    } else {
        0
    }
}

/// Sign denoted by `t`: `false` exactly for a leading `'-'`.
pub open spec fn sign_of(t: Seq<char>) -> bool {
    !(t.len() > 0 && t[0] == '-')
}

/// `t` with its optional leading sign character removed.
pub open spec fn body_of(t: Seq<char>) -> Seq<char> {
    t.skip(sign_len(t))
}

/// Index of the first `'.'` in `s`, or `s.len()` if there is none.
pub open spec fn first_dot(s: Seq<char>) -> int
    decreases s.len(),
{
    if s.len() == 0 {
        0
    } else if s[0] == '.' {
        0
    } else {
        1 + first_dot(s.drop_first())
    }
}

/// Integer segment of `t`: the sign-stripped text up to the first dot.
pub open spec fn int_seg(t: Seq<char>) -> Seq<char> {
    body_of(t).take(first_dot(body_of(t)))
}

/// Fractional segment of `t`: the sign-stripped text after the first dot,
/// empty if there is no dot.
pub open spec fn frac_seg(t: Seq<char>) -> Seq<char> {
    let b = body_of(t);
    let d = first_dot(b);
    if d < b.len() {
        b.skip(d + 1)
    } else {
        Seq::<char>::empty()
    }
}

/// `t` parses successfully (given that it is nonempty): both segments
/// consist of ASCII digits only.
pub open spec fn parse_valid(t: Seq<char>) -> bool {
    digits_ok(int_seg(t)) && digits_ok(frac_seg(t))
}

/// The canonical text form of a value: optional `'-'`, the integer
/// digits, a `'.'`, then the fractional digits.
pub open spec fn text_of(d: Decimal) -> Seq<char> {
    (if d.is_positive {
        Seq::<char>::empty()
    } else {
        seq!['-']
    }) + d.int@ + seq!['.'] + d.frac@
}

/// Definitional equality: integer parts equal after stripping leading
/// zeros, fractional parts equal after stripping trailing zeros, and
/// signs equal exactly.
pub open spec fn decimal_eq(a: Decimal, b: Decimal) -> bool {
    trim_leading(a.int@) == trim_leading(b.int@) && trim_trailing(a.frac@) == trim_trailing(
        b.frac@,
    ) && a.is_positive == b.is_positive
}

/// The magnitude is zero: every digit of both buffers is `'0'`.
pub open spec fn zero_magnitude(d: Decimal) -> bool {
    (forall|i: int| 0 <= i < d.int@.len() ==> d.int@[i] == '0') && (forall|i: int|
        0 <= i < d.frac@.len() ==> d.frac@[i] == '0')
}

pub proof fn lemma_first_dot_props(s: Seq<char>)
    ensures
        0 <= first_dot(s) <= s.len(),
        forall|j: int| 0 <= j < first_dot(s) ==> s[j] != '.',
        first_dot(s) < s.len() ==> s[first_dot(s)] == '.',
    decreases s.len(),
{
    if s.len() > 0 && s[0] != '.' {
        let r = s.drop_first();
        lemma_first_dot_props(r);
        assert(forall|j: int| 0 <= j < r.len() ==> r[j] == s[j + 1]);
        assert forall|j: int| 0 <= j < first_dot(s) implies s[j] != '.' by {
            if j > 0 {
                assert(r[j - 1] != '.');
                assert(r[j - 1] == s[j]);
            }
        }
    }
}

/// If the first `k` characters of `s` are not dots and the character at
/// `k` (if any) is a dot, then `k` is where `s` splits.
pub proof fn lemma_first_dot_of(s: Seq<char>, k: int)
    requires
        0 <= k <= s.len(),
        forall|j: int| 0 <= j < k ==> s[j] != '.',
        k < s.len() ==> s[k] == '.',
    ensures
        first_dot(s) == k,
    decreases k,
{
    if k == 0 {
        if s.len() > 0 && s[0] != '.' {
            assert(false);
        }
    } else {
        let r = s.drop_first();
        assert(s[0] != '.');
        assert(forall|j: int| 0 <= j < k - 1 ==> r[j] == s[j + 1]);
        lemma_first_dot_of(r, k - 1);
    }
}

impl Decimal {
    /// Parse text into a decimal value.
    ///
    /// Empty input fails with `Empty`.  An optional leading `'+'` or
    /// `'-'` sets the sign; the rest is split at the first `'.'` into the
    /// integer and fractional segments, which must consist of ASCII
    /// digits only — anything else fails with `InvalidDigit`.  Segments
    /// are stored exactly as written, with no trimming.
    pub fn new(numstr: String) -> (r: Result<Decimal, ParseDecimalError>)
        ensures
            r matches Err(ParseDecimalError::Empty) <==> numstr@.len() == 0,
            r matches Err(ParseDecimalError::InvalidDigit) <==> (numstr@.len() > 0 && !parse_valid(
                numstr@,
            )),
            r matches Ok(d) <==> (numstr@.len() > 0 && parse_valid(numstr@)),
            r matches Ok(d) ==> {
                &&& d.int@ == int_seg(numstr@)
                &&& d.frac@ == frac_seg(numstr@)
                &&& d.is_positive == sign_of(numstr@)
                &&& d.wf()
            },
    {
        let ghost t = numstr@;
        let s = numstr.as_str();
        let n = s.unicode_len();
        if n == 0 {
            return Err(ParseDecimalError::Empty);
        }
        let c0 = s.get_char(0);
        let mut is_positive = true;
        let mut start: usize = 0;
        if c0 == '-' {
            is_positive = false;
            start = 1;
        } else if c0 == '+' {
            start = 1;
        }
        assert(sign_len(t) == start);
        assert(sign_of(t) == is_positive);
        let ghost body = t.skip(start as int);
        let mut int_digits: Vec<char> = Vec::new();
        let mut frac_digits: Vec<char> = Vec::new();
        let mut seen_dot = false;
        let ghost mut dot_pos: int = 0;
        let mut i: usize = start;
        assert(int_digits@ =~= body.take(0));
        while i < n
            invariant
                start <= i <= n,
                n == t.len(),
                t == numstr@,
                s@ == t,
                start == sign_len(t),
                body == t.skip(start as int),
                digits_ok(int_digits@),
                digits_ok(frac_digits@),
                !seen_dot ==> {
                    &&& int_digits@ == body.take(i - start)
                    &&& (forall|j: int| 0 <= j < i - start ==> body[j] != '.')
                    &&& frac_digits@.len() == 0
                },
                seen_dot ==> {
                    &&& 0 <= dot_pos < i - start
                    &&& (forall|j: int| 0 <= j < dot_pos ==> body[j] != '.')
                    &&& body[dot_pos] == '.'
                    &&& int_digits@ == body.take(dot_pos)
                    &&& frac_digits@ == body.subrange(dot_pos + 1, i - start)
                },
            decreases n - i,
        {
            let c = s.get_char(i);
            assert(c == body[i - start]);
            if c == '.' && !seen_dot {
                seen_dot = true;
                proof {
                    dot_pos = i - start;
                }
            } else {
                let u = c as u32;
                if 48 <= u && u <= 57 {
                    if seen_dot {
                        let ghost prev = frac_digits@;
                        frac_digits.push(c);
                        assert(frac_digits@ =~= body.subrange(dot_pos + 1, i + 1 - start));
                    } else {
                        let ghost prev = int_digits@;
                        int_digits.push(c);
                        assert(int_digits@ =~= body.take(i + 1 - start));
                    }
                } else {
                    proof {
                        if seen_dot {
                            lemma_first_dot_of(body, dot_pos);
                            assert(frac_seg(t)[i - start - dot_pos - 1] == c);
                            assert(!is_digit(c));
                        } else {
                            assert(body[i - start] != '.');
                            lemma_first_dot_props(body);
                            let fd = first_dot(body);
                            if fd <= i - start {
                                assert(fd < body.len());
                                assert(body[fd] == '.');
                                assert(false);
                            }
                            assert(int_seg(t)[i - start] == c);
                            assert(!is_digit(c));
                        }
                    }
                    return Err(ParseDecimalError::InvalidDigit);
                }
            }
            i += 1;
        }
        proof {
            if seen_dot {
                lemma_first_dot_of(body, dot_pos);
                assert(body.subrange(dot_pos + 1, n - start) =~= body.skip(dot_pos + 1));
            } else {
                lemma_first_dot_of(body, n - start);
                assert(body.take(n - start) =~= body);
            }
        }
        Ok(Decimal { int: int_digits, frac: frac_digits, is_positive })
    }

    /// Parse text, discarding the error kind.
    pub fn try_from(input: &str) -> (r: Option<Decimal>)
        ensures
            r matches Some(d) <==> (input@.len() > 0 && parse_valid(input@)),
            r matches Some(d) ==> {
                &&& d.int@ == int_seg(input@)
                &&& d.frac@ == frac_seg(input@)
                &&& d.is_positive == sign_of(input@)
                &&& d.wf()
            },
    {
        match Self::new(input.to_owned()) {
            Ok(d) => Some(d),
            Err(_) => None,
        }
    }

    /// Both digit buffers are empty (e.g. the input was just a sign).
    pub fn is_empty(&self) -> (r: bool)
        ensures
            r == (self.int@.len() == 0 && self.frac@.len() == 0),
    {
        if self.int.len() == 0 && self.frac.len() == 0 {
            return true;
        }
        false
    }

    /// The magnitude is zero: every stored digit is `'0'`.
    pub fn is_zero(&self) -> (r: bool)
        ensures
            r == zero_magnitude(*self),
    {
        let mut i: usize = 0;
        while i < self.int.len()
            invariant
                0 <= i <= self.int@.len(),
                forall|j: int| 0 <= j < i ==> self.int@[j] == '0',
            decreases self.int@.len() - i,
        {
            if self.int[i] != '0' {
                return false;
            }
            i += 1;
        }
        let mut k: usize = 0;
        while k < self.frac.len()
            invariant
                0 <= k <= self.frac@.len(),
                forall|j: int| 0 <= j < self.int@.len() ==> self.int@[j] == '0',
                forall|j: int| 0 <= j < k ==> self.frac@[j] == '0',
            decreases self.frac@.len() - k,
        {
            if self.frac[k] != '0' {
                return false;
            }
            k += 1;
        }
        true
    }

    /// Runtime check of the digits-only invariant `wf`.
    pub fn is_well_formed(&self) -> (r: bool)
        ensures
            r == self.wf(),
    {
        let mut i: usize = 0;
        while i < self.int.len()
            invariant
                0 <= i <= self.int@.len(),
                forall|j: int| 0 <= j < i ==> is_digit(#[trigger] self.int@[j]),
            decreases self.int@.len() - i,
        {
            if !is_digit_char(self.int[i]) {
                return false;
            }
            i += 1;
        }
        let mut k: usize = 0;
        while k < self.frac.len()
            invariant
                0 <= k <= self.frac@.len(),
                digits_ok(self.int@),
                forall|j: int| 0 <= j < k ==> is_digit(#[trigger] self.frac@[j]),
            decreases self.frac@.len() - k,
        {
            if !is_digit_char(self.frac[k]) {
                return false;
            }
            k += 1;
        }
        true
    }

    /// Format a value as text: `[-]<integer digits>.<fractional digits>`,
    /// the decimal point always present, the sign only for negatives.
    pub fn to_text(&self) -> (r: String)
        requires
            self.wf(),
        ensures
            r@ == text_of(*self),
    {
        let mut out = String::new();
        if !self.is_positive {
            proof {
                reveal_strlit("-");
            }
            out.append("-");
            assert(out@ =~= seq!['-']);
        }
        let ghost prefix = if self.is_positive {
            Seq::<char>::empty()
        } else {
            seq!['-']
        };
        assert(out@ =~= prefix);
        let mut i: usize = 0;
        while i < self.int.len()
            invariant
                0 <= i <= self.int@.len(),
                self.wf(),
                out@ == prefix + self.int@.take(i as int),
            decreases self.int@.len() - i,
        {
            assert(is_digit(self.int@[i as int]));
            let ds = digit_str(self.int[i]);
            let ghost prev = out@;
            out.append(ds);
            assert(out@ =~= prefix + self.int@.take(i + 1));
            i += 1;
        }
        assert(self.int@.take(self.int@.len() as int) =~= self.int@);
        proof {
            reveal_strlit(".");
        }
        let ghost prev = out@;
        out.append(".");
        assert(out@ =~= prefix + self.int@ + seq!['.']);
        let ghost mid = prefix + self.int@ + seq!['.'];
        let mut k: usize = 0;
        while k < self.frac.len()
            invariant
                0 <= k <= self.frac@.len(),
                self.wf(),
                mid == prefix + self.int@ + seq!['.'],
                out@ == mid + self.frac@.take(k as int),
            decreases self.frac@.len() - k,
        {
            assert(is_digit(self.frac@[k as int]));
            let ds = digit_str(self.frac[k]);
            out.append(ds);
            assert(out@ =~= mid + self.frac@.take(k + 1));
            k += 1;
        }
        assert(self.frac@.take(self.frac@.len() as int) =~= self.frac@);
        assert(out@ =~= text_of(*self));
        out
    }
}

/// Runtime test for an ASCII digit character.
pub fn is_digit_char(c: char) -> (r: bool)
    ensures
        r == is_digit(c),
{
    let u = c as u32;
    48 <= u && u <= 57
}

/// One-character text for a digit character.
pub fn digit_str(c: char) -> (r: &'static str)
    requires
        is_digit(c),
    ensures
        r@ == seq![c],
{
    proof {
        reveal_strlit("0");
        reveal_strlit("1");
        reveal_strlit("2");
        reveal_strlit("3");
        reveal_strlit("4");
        reveal_strlit("5");
        reveal_strlit("6");
        reveal_strlit("7");
        reveal_strlit("8");
        reveal_strlit("9");
    }
    if c == '0' {
        let r = "0";
        assert(r@ =~= seq![c]);
        r
    } else if c == '1' {
        let r = "1";
        assert(r@ =~= seq![c]);
        r
    } else if c == '2' {
        let r = "2";
        assert(r@ =~= seq![c]);
        r
    } else if c == '3' {
        let r = "3";
        assert(r@ =~= seq![c]);
        r
    } else if c == '4' {
        let r = "4";
        assert(r@ =~= seq![c]);
        r
    } else if c == '5' {
        let r = "5";
        assert(r@ =~= seq![c]);
        r
    } else if c == '6' {
        let r = "6";
        assert(r@ =~= seq![c]);
        r
    } else if c == '7' {
        let r = "7";
        assert(r@ =~= seq![c]);
        r
    } else if c == '8' {
        let r = "8";
        assert(r@ =~= seq![c]);
        r
    } else {
        assert(c == '9');
        let r = "9";
        assert(r@ =~= seq![c]);
        r
    }
}

impl PartialEq for Decimal {
    /// Equality after trimming: leading zeros of the integer parts and
    /// trailing zeros of the fractional parts are ignored; signs must
    /// match exactly, so zeros of opposite sign compare unequal.
    fn eq(&self, other: &Self) -> (r: bool)
        ensures
            r == decimal_eq(*self, *other),
    {
        if self.is_positive != other.is_positive {
            return false;
        }
        let a_int = trimmed_leading(&self.int);
        let b_int = trimmed_leading(&other.int);
        if !chars_equal(&a_int, &b_int) {
            return false;
        }
        let a_frac = trimmed_trailing(&self.frac);
        let b_frac = trimmed_trailing(&other.frac);
        chars_equal(&a_frac, &b_frac)
    }
}

impl vstd::std_specs::cmp::PartialEqSpecImpl for Decimal {
    open spec fn obeys_eq_spec() -> bool {
        true
    }

    open spec fn eq_spec(&self, other: &Self) -> bool {
        decimal_eq(*self, *other)
    }
}

} // verus!
