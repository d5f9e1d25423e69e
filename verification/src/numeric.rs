//! The numeric-exclusion rule of the word filter: a word is excluded when it
//! is a non-empty string of decimal digits whose value is representable in an
//! unsigned 128-bit integer. A digit string too large for 128 bits is not
//! treated as numeric and is kept.

use vstd::prelude::*;

use crate::chars::digit_value;
use crate::chars::is_digit_char;

verus! {

/// `u128::MAX / 10`, the largest accumulator value that another digit can
/// safely extend.
pub const LAST_DIGIT_CUTOFF: u128 = 34028236692093846346337460743176821145;

/// The value of a string of decimal digits, most significant first.
pub open spec fn digits_value(s: Seq<char>) -> int
    decreases s.len(),
{
    if s.len() == 0 {
        0
    } else {
        10 * digits_value(s.drop_last()) + digit_value(s.last())
    }
}

pub open spec fn all_digits(s: Seq<char>) -> bool {
    forall|k: int| 0 <= k < s.len() ==> is_digit_char(s[k])
}

/// A word that the filter treats as a number: non-empty, decimal digits
/// only, and small enough for an unsigned 128-bit integer.
pub open spec fn is_numeric(s: Seq<char>) -> bool {
    s.len() > 0 && all_digits(s) && digits_value(s) <= u128::MAX
}

proof fn lemma_digits_value_nonneg(s: Seq<char>)
    requires
        all_digits(s),
    ensures
        digits_value(s) >= 0,
    decreases s.len(),
{
    if s.len() > 0 {
        assert(forall|k: int| 0 <= k < s.drop_last().len() ==> is_digit_char(s.drop_last()[k]));
        lemma_digits_value_nonneg(s.drop_last());
    }
}

/// Tests whether one word is a pure number as the filter understands it.
pub fn word_is_numeric(s: &str) -> (r: bool)
    ensures
        r == is_numeric(s@),
{
    let n = s.unicode_len();
    if n == 0 {
        return false;
    }
    let mut i: usize = 0;
    let mut val: u128 = 0;
    let mut over: bool = false;
    proof {
        assert(s@.take(0) =~= Seq::<char>::empty());
    }
    while i < n
        invariant
            i <= n,
            n == s@.len(),
            all_digits(s@.take(i as int)),
            !over ==> val == digits_value(s@.take(i as int)),
            over ==> digits_value(s@.take(i as int)) > u128::MAX,
        decreases n - i,
    {
        let c = s.get_char(i);
        let u = c as u32;
        if u < 48 || u > 57 {
            return false;
        }
        let d: u128 = (u - 48) as u128;
        let ghost prefix = s@.take(i + 1);
        proof {
            assert(prefix.drop_last() =~= s@.take(i as int));
            assert(prefix.last() == s@[i as int]);
            assert(digit_value(s@[i as int]) == d);
            assert(u128::MAX == 10 * LAST_DIGIT_CUTOFF + 5);
            lemma_digits_value_nonneg(s@.take(i as int));
        }
        if over {
            proof {
                assert(digits_value(prefix) > u128::MAX);
            }
        } else if val > LAST_DIGIT_CUTOFF || (val == LAST_DIGIT_CUTOFF && d > 5) {
            over = true;
            proof {
                assert(digits_value(prefix) > u128::MAX);
            }
        } else {
            val = val * 10 + d;
        }
        i += 1;
    }
    proof {
        assert(s@.take(n as int) =~= s@);
    }
    !over
}

} // verus!
