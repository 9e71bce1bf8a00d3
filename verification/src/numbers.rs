use vstd::prelude::*;
use crate::chars::{is_digit_char, is_digit};
use vstd::string::StrSliceExecFns;

verus! {

pub open spec fn all_digits(s: Seq<char>, i: int, j: int) -> bool {
    forall|k: int| i <= k < j ==> is_digit_char(#[trigger] s[k])
}

pub open spec fn digit_val(c: char) -> int {
    c as int - 48
}

/// The value of a run of decimal digits, most significant first.
pub open spec fn dec_val(s: Seq<char>) -> int
    decreases s.len(),
{
    if s.len() == 0 {
        0
    } else {
        dec_val(s.drop_last()) * 10 + digit_val(s.last())
    }
}

/// The float-literal shape `-? digit+ . digit*`: exactly the texts the
/// reader captures for a `Float` form, all of which `f64::from_str` accepts.
pub open spec fn is_float_text(s: Seq<char>) -> bool {
    let b: int = if s.len() > 0 && s[0] == '-' {
        1
    } else {
        0
    };
    exists|d: int|
        b < d && d < s.len() && s[d] == '.' && all_digits(s, b, d) && all_digits(
            s,
            d + 1,
            s.len() as int,
        )
}

/// The texts `i64::from_str` accepts: an optional sign, then one or more
/// decimal digits.
pub open spec fn is_int_text(s: Seq<char>) -> bool {
    let b: int = if s.len() > 0 && (s[0] == '+' || s[0] == '-') {
        1
    } else {
        0
    };
    s.len() > b && all_digits(s, b, s.len() as int)
}

/// The signed value an integer text denotes.
pub open spec fn int_text_val(s: Seq<char>) -> int {
    if s.len() > 0 && s[0] == '-' {
        -dec_val(s.skip(1))
    } else if s.len() > 0 && s[0] == '+' {
        dec_val(s.skip(1))
    } else {
        dec_val(s)
    }
}

/// The signed 64-bit integer an integer text denotes, or `None` when the
/// text is malformed or its value does not fit.
pub open spec fn i64_of_text(s: Seq<char>) -> Option<i64> {
    if is_int_text(s) && i64::MIN <= int_text_val(s) <= i64::MAX {
        Some(int_text_val(s) as i64)
    } else {
        None
    }
}

pub proof fn lemma_dec_val_nonneg(s: Seq<char>)
    requires
        all_digits(s, 0, s.len() as int),
    ensures
        dec_val(s) >= 0,
    decreases s.len(),
{
    if s.len() > 0 {
        assert(s.drop_last() =~= s.subrange(0, s.len() - 1));
        lemma_dec_val_nonneg(s.drop_last());
    }
}

/// A digit run is at least ten times any proper prefix of it.
pub proof fn lemma_dec_val_prefix(s: Seq<char>, m: int)
    requires
        all_digits(s, 0, s.len() as int),
        0 <= m <= s.len(),
    ensures
        dec_val(s) >= dec_val(s.take(m)),
        m < s.len() ==> dec_val(s) >= 10 * dec_val(s.take(m)),
    decreases s.len(),
{
    if m == s.len() {
        assert(s.take(m) =~= s);
    } else {
        let d = s.drop_last();
        assert(d =~= s.subrange(0, s.len() - 1));
        assert(d.take(m) =~= s.take(m));
        lemma_dec_val_prefix(d, m);
        lemma_dec_val_nonneg(d);
        lemma_dec_val_nonneg(s.take(m));
    }
}

/// Parses a signed 64-bit integer, accepting and rejecting exactly the texts
/// `i64::from_str` does.
pub fn parse_int(s: &str) -> (r: Option<i64>)
    ensures
        r == i64_of_text(s@),
{
    let ghost sq = s@;
    let n = s.unicode_len();
    if n == 0 {
        return None;
    }
    let c0 = s.get_char(0);
    let neg = c0 == '-';
    let b: usize = if c0 == '-' || c0 == '+' {
        1
    } else {
        0
    };
    if n == b {
        return None;
    }
    let ghost digits = sq.skip(b as int);
    let mut mag: u64 = 0;
    let mut i: usize = b;
    while i < n
        invariant
            b <= i <= n,
            n == sq.len(),
            b <= 1,
            n > b,
            b == 1 <==> (sq[0] == '+' || sq[0] == '-'),
            sq == s@,
            digits == sq.skip(b as int),
            all_digits(sq, b as int, i as int),
            mag == dec_val(sq.subrange(b as int, i as int)),
        decreases n - i,
    {
        let c = s.get_char(i);
        if !is_digit(c) {
            proof {
                assert(!is_digit_char(sq[i as int]));
                assert(!all_digits(sq, b as int, n as int));
            }
            return None;
        }
        let d: u64 = (c as u32 - 48) as u64;
        proof {
            assert(sq.subrange(b as int, i + 1).drop_last() =~= sq.subrange(b as int, i as int));
            assert(sq.subrange(b as int, i + 1).last() == sq[i as int]);
        }
        if mag > (u64::MAX - 9) / 10 {
            proof {
                if is_int_text(sq) {
                    assert(digits.take(i - b) =~= sq.subrange(b as int, i as int));
                    assert(all_digits(digits, 0, digits.len() as int));
                    lemma_dec_val_prefix(digits, i - b);
                    assert(dec_val(digits) >= 10 * mag > i64::MAX);
                    if b == 0 {
                        assert(sq.skip(0) =~= sq);
                    }
                    if sq[0] == '-' {
                        assert(int_text_val(sq) < i64::MIN);
                    } else {
                        assert(int_text_val(sq) > i64::MAX);
                    }
                }
            }
            return None;
        }
        mag = mag * 10 + d;
        i = i + 1;
    }
    proof {
        assert(sq.subrange(b as int, n as int) =~= digits);
        assert(is_int_text(sq));
        if b == 0 {
            assert(sq.skip(0) =~= sq);
        }
    }
    if neg {
        if mag > 9223372036854775808u64 {
            return None;
        }
        if mag == 9223372036854775808u64 {
            return Some(i64::MIN);
        }
        Some(-(mag as i64))
    } else {
        if mag > 9223372036854775807u64 {
            return None;
        }
        Some(mag as i64)
    }
}

} // verus!
