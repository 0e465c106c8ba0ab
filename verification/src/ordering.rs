//! Total ordering between decimal values.
//!
//! The order is decided in priority order: differing signs first, then
//! integer-part lengths, then integer digits pairwise, then fractional
//! digits pairwise up to the shorter length, then fractional lengths;
//! every digit comparison is reversed for negative values.  Digit
//! sequences are compared exactly as stored — this procedure does not
//! trim zeros, unlike definitional equality.

use vstd::prelude::*;

use crate::decimal::Decimal;
use core::cmp::Ordering;

verus! {

/// The reverse of an ordering, for comparisons between negative values.
pub open spec fn ord_rev(o: Ordering) -> Ordering {
    match o {
        Ordering::Less => Ordering::Greater,
        Ordering::Equal => Ordering::Equal,
        Ordering::Greater => Ordering::Less,
    }
}

/// Reverse the ordering when the common sign is negative.
pub open spec fn apply_sign(o: Ordering, positive: bool) -> Ordering {
    if positive {
        o
    } else {
        ord_rev(o)
    }
}

/// Three-way comparison of two natural numbers.
pub open spec fn len_cmp(x: nat, y: nat) -> Ordering {
    if x < y {
        Ordering::Less
    } else if x > y {
        Ordering::Greater
    } else {
        Ordering::Equal
    }
}

/// Pairwise character comparison, stopping at the shorter sequence:
/// the first differing pair decides; prefixes compare `Equal`.
pub open spec fn seq_lex(a: Seq<char>, b: Seq<char>) -> Ordering
    decreases a.len(),
{
    if a.len() == 0 || b.len() == 0 {
        Ordering::Equal
    } else if (a.first() as int) < (b.first() as int) {
        Ordering::Less
    } else if (a.first() as int) > (b.first() as int) {
        Ordering::Greater
    } else {
        seq_lex(a.drop_first(), b.drop_first())
    }
}

/// The ordering procedure between two decimal values.
pub open spec fn cmp_spec(a: Decimal, b: Decimal) -> Ordering {
    if a.is_positive && !b.is_positive {
        Ordering::Greater
    } else if !a.is_positive && b.is_positive {
        Ordering::Less
    } else if a.int@.len() != b.int@.len() {
        apply_sign(len_cmp(a.int@.len(), b.int@.len()), a.is_positive)
    } else if seq_lex(a.int@, b.int@) != Ordering::Equal {
        apply_sign(seq_lex(a.int@, b.int@), a.is_positive)
    } else if seq_lex(a.frac@, b.frac@) != Ordering::Equal {
        apply_sign(seq_lex(a.frac@, b.frac@), a.is_positive)
    } else {
        apply_sign(len_cmp(a.frac@.len(), b.frac@.len()), a.is_positive)
    }
}

pub proof fn lemma_seq_lex_equal(a: Seq<char>, b: Seq<char>)
    requires
        forall|j: int| 0 <= j < a.len() && j < b.len() ==> a[j] == b[j],
    ensures
        seq_lex(a, b) == Ordering::Equal,
    decreases a.len(),
{
    if a.len() > 0 && b.len() > 0 {
        assert(a.first() == b.first());
        let ra = a.drop_first();
        let rb = b.drop_first();
        assert(forall|j: int| 0 <= j < ra.len() && j < rb.len() ==> ra[j] == a[j + 1]);
        assert(forall|j: int| 0 <= j < ra.len() && j < rb.len() ==> rb[j] == b[j + 1]);
        lemma_seq_lex_equal(ra, rb);
    }
}

pub proof fn lemma_seq_lex_diff(a: Seq<char>, b: Seq<char>, i: int)
    requires
        0 <= i < a.len(),
        i < b.len(),
        forall|j: int| 0 <= j < i ==> a[j] == b[j],
        a[i] != b[i],
    ensures
        seq_lex(a, b) == if (a[i] as int) < (b[i] as int) {
            Ordering::Less
        } else {
            Ordering::Greater
        },
    decreases i,
{
    if i == 0 {
        if a[0] as int == b[0] as int {
            assert(a[0] == b[0]);
        }
    } else {
        assert(a.first() == b.first());
        let ra = a.drop_first();
        let rb = b.drop_first();
        assert(forall|j: int| 0 <= j < ra.len() ==> ra[j] == a[j + 1]);
        assert(forall|j: int| 0 <= j < rb.len() ==> rb[j] == b[j + 1]);
        lemma_seq_lex_diff(ra, rb, i - 1);
    }
}

/// Three-way comparison of two characters by code point.
pub fn char_cmp(x: char, y: char) -> (r: Ordering)
    ensures
        r == Ordering::Less <==> (x as int) < (y as int),
        r == Ordering::Greater <==> (x as int) > (y as int),
        r == Ordering::Equal <==> x == y,
{
    let ux = x as u32;
    let uy = y as u32;
    if ux < uy {
        Ordering::Less
    } else if ux > uy {
        Ordering::Greater
    } else {
        assert(x == y);
        Ordering::Equal
    }
}

/// Pairwise comparison of two character buffers, stopping at the shorter.
pub fn lex_cmp(a: &Vec<char>, b: &Vec<char>) -> (r: Ordering)
    ensures
        r == seq_lex(a@, b@),
{
    let m: usize = if a.len() < b.len() {
        a.len()
    } else {
        b.len()
    };
    let mut i: usize = 0;
    while i < m
        invariant
            0 <= i <= m,
            m == if a@.len() < b@.len() {
                a@.len()
            } else {
                b@.len()
            },
            forall|j: int| 0 <= j < i ==> a@[j] == b@[j],
        decreases m - i,
    {
        match char_cmp(a[i], b[i]) {
            Ordering::Less => {
                proof {
                    lemma_seq_lex_diff(a@, b@, i as int);
                }
                return Ordering::Less;
            },
            Ordering::Greater => {
                proof {
                    lemma_seq_lex_diff(a@, b@, i as int);
                }
                return Ordering::Greater;
            },
            Ordering::Equal => {
            },
        }
        i += 1;
    }
    proof {
        lemma_seq_lex_equal(a@, b@);
    }
    Ordering::Equal
}

impl PartialOrd for Decimal {
    /// The ordering procedure: sign first, then integer length, integer
    /// digits, fractional digits, fractional length; digit comparisons
    /// reversed for negatives.  Always returns a definite order.
    fn partial_cmp(&self, other: &Self) -> (r: Option<Ordering>)
        ensures
            r == Some(cmp_spec(*self, *other)),
    {
        if self.is_positive && !other.is_positive {
            return Some(Ordering::Greater);
        }
        if !self.is_positive && other.is_positive {
            return Some(Ordering::Less);
        }
        if self.int.len() != other.int.len() {
            let o = if self.int.len() < other.int.len() {
                Ordering::Less
            } else {
                Ordering::Greater
            };
            return Some(apply_sign_exec(o, self.is_positive));
        }
        match lex_cmp(&self.int, &other.int) {
            Ordering::Less => {
                return Some(apply_sign_exec(Ordering::Less, self.is_positive));
            },
            Ordering::Greater => {
                return Some(apply_sign_exec(Ordering::Greater, self.is_positive));
            },
            Ordering::Equal => {
            },
        }
        match lex_cmp(&self.frac, &other.frac) {
            Ordering::Less => {
                return Some(apply_sign_exec(Ordering::Less, self.is_positive));
            },
            Ordering::Greater => {
                return Some(apply_sign_exec(Ordering::Greater, self.is_positive));
            },
            Ordering::Equal => {
            },
        }
        let o = if self.frac.len() < other.frac.len() {
            Ordering::Less
        } else if self.frac.len() > other.frac.len() {
            Ordering::Greater
        } else {
            Ordering::Equal
        };
        Some(apply_sign_exec(o, self.is_positive))
    }
}

impl vstd::std_specs::cmp::PartialOrdSpecImpl for Decimal {
    open spec fn obeys_partial_cmp_spec() -> bool {
        true
    }

    open spec fn partial_cmp_spec(&self, other: &Self) -> Option<Ordering> {
        Some(cmp_spec(*self, *other))
    }
}

/// Reverse the ordering when the common sign is negative.
pub fn apply_sign_exec(o: Ordering, positive: bool) -> (r: Ordering)
    ensures
        r == apply_sign(o, positive),
{
    if positive {
        o
    } else {
        match o {
            Ordering::Less => Ordering::Greater,
            Ordering::Equal => Ordering::Equal,
            Ordering::Greater => Ordering::Less,
        }
    }
}

} // verus!
