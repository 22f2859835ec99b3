//! Decimal text of integers, and digit-sequence evaluation.

use vstd::prelude::*;
use crate::chars::is_digit;

verus! {

/// The character of one decimal digit.
pub open spec fn digit_char(d: int) -> char {
    (((d + 48) as u8) as char)
}

/// Decimal text of a natural number, most significant digit first.
pub open spec fn nat_text(n: nat) -> Seq<char>
    decreases n,
{
    if n < 10 {
        seq![digit_char(n as int)]
    } else {
        nat_text(n / 10).push(digit_char((n % 10) as int))
    }
}

/// Decimal text of an integer: a minus sign for negative values.
pub open spec fn int_text(n: int) -> Seq<char> {
    if n < 0 {
        seq!['-'] + nat_text((-n) as nat)
    } else {
        nat_text(n as nat)
    }
}

/// Every character a decimal digit.
pub open spec fn all_digits(s: Seq<char>) -> bool {
    forall|i: int| 0 <= i < s.len() ==> is_digit(#[trigger] s[i])
}

/// The number a digit sequence denotes, most significant digit first.
pub open spec fn digits_val(s: Seq<char>) -> int
    decreases s.len(),
{
    if s.len() == 0 {
        0
    } else {
        digits_val(s.drop_last()) * 10 + (s.last() as int - 48)
    }
}

/// A digit sequence denotes a natural number.
pub proof fn lemma_digits_val_nonneg(s: Seq<char>)
    requires
        all_digits(s),
    ensures
        digits_val(s) >= 0,
    decreases s.len(),
{
    if s.len() != 0 {
        assert(all_digits(s.drop_last())) by {
            assert(forall|i: int|
                0 <= i < s.len() - 1 ==> #[trigger] s.drop_last()[i] == s[i]);
        }
        lemma_digits_val_nonneg(s.drop_last());
        assert(is_digit(s.last()));
        assert(s.last() as int - 48 >= 0);
    }
}

/// The decimal text of a natural number is made of digits and denotes it.
pub proof fn lemma_nat_text(n: nat)
    ensures
        nat_text(n).len() >= 1,
        all_digits(nat_text(n)),
        digits_val(nat_text(n)) == n,
    decreases n,
{
    if n < 10 {
        assert(is_digit(digit_char(n as int)));
        assert(nat_text(n) =~= seq![digit_char(n as int)]);
        assert(digits_val(nat_text(n)) == n) by {
            reveal_with_fuel(digits_val, 2);
            assert(nat_text(n).drop_last() =~= Seq::<char>::empty());
            assert(nat_text(n).last() == digit_char(n as int));
            assert(digit_char(n as int) as int == n + 48);
        }
    } else {
        lemma_nat_text(n / 10);
        let t = nat_text(n);
        assert(t == nat_text(n / 10).push(digit_char((n % 10) as int)));
        assert(t.drop_last() =~= nat_text(n / 10));
        assert(t.last() == digit_char((n % 10) as int));
        assert(is_digit(t.last())) by {
            assert(0 <= (n % 10) < 10);
        }
        assert(all_digits(t)) by {
            assert(forall|i: int|
                0 <= i < t.len() - 1 ==> #[trigger] t[i] == nat_text(n / 10)[i]);
        }
        assert(digit_char((n % 10) as int) as int == (n % 10) + 48);
        assert(digits_val(t) == (n / 10) * 10 + (n % 10));
        assert((n / 10) * 10 + (n % 10) == n) by (nonlinear_arith);
    }
}

/// Appends the decimal text of an unsigned number.
pub fn push_u64_text(n: u64, out: &mut Vec<char>)
    ensures
        final(out)@ == old(out)@ + nat_text(n as nat),
    decreases n,
{
    if n < 10 {
        out.push(((n as u8) + 48) as char);
        proof {
            assert(out@ =~= old(out)@ + nat_text(n as nat));
        }
    } else {
        push_u64_text(n / 10, out);
        out.push((((n % 10) as u8) + 48) as char);
        proof {
            assert(out@ =~= old(out)@ + nat_text(n as nat));
        }
    }
}

/// Appends the decimal text of a signed number.
pub fn push_i64_text(n: i64, out: &mut Vec<char>)
    ensures
        final(out)@ == old(out)@ + int_text(n as int),
{
    if n >= 0 {
        push_u64_text(n as u64, out);
    } else {
        out.push('-');
        let m: u64 = (-(n as i128)) as u64;
        proof {
            assert(m as nat == (-(n as int)) as nat);
        }
        push_u64_text(m, out);
        proof {
            assert(out@ =~= old(out)@ + int_text(n as int));
        }
    }
}

} // verus!
