//! Decimal numerals: what they denote, reading them and writing them.

use vstd::prelude::*;

verus! {

/// The byte is one of the digits `0` to `9`.
pub open spec fn is_digit(b: u8) -> bool {
    0x30 <= b <= 0x39
}

/// Every byte is a digit.
pub open spec fn all_digits(s: Seq<u8>) -> bool {
    forall|i: int| 0 <= i < s.len() ==> is_digit(#[trigger] s[i])
}

/// The number that a string of digits denotes.
pub open spec fn digits_value(s: Seq<u8>) -> nat
    decreases s.len(),
{
    if s.len() == 0 {
        0
    } else {
        10 * digits_value(s.drop_last()) + (s.last() - 0x30) as nat
    }
}

/// The natural number that the numeral denotes; `None` if it is not one or more digits.
pub open spec fn natural(s: Seq<u8>) -> Option<nat> {
    if s.len() > 0 && all_digits(s) {
        Some(digits_value(s))
    } else {
        None
    }
}

/// The integer that the numeral denotes: digits, with at most one sign before them.
pub open spec fn integer(s: Seq<u8>) -> Option<int> {
    if s.len() > 0 && s[0] == 0x2d {
        match natural(s.skip(1)) {
            Some(n) => Some(-(n as int)),
            None => None,
        }
    } else if s.len() > 0 && s[0] == 0x2b {
        match natural(s.skip(1)) {
            Some(n) => Some(n as int),
            None => None,
        }
    } else {
        match natural(s) {
            Some(n) => Some(n as int),
            None => None,
        }
    }
}

/// The digits of `n` without leading zeros.
pub open spec fn decimal_nat(n: nat) -> Seq<u8>
    decreases n,
{
    if n < 10 {
        seq![(0x30 + n) as u8]
    } else {
        decimal_nat(n / 10).push((0x30 + n % 10) as u8)
    }
}

/// The numeral of `i`: a minus sign if it is negative, then the digits.
pub open spec fn decimal_int(i: int) -> Seq<u8> {
    if i < 0 {
        seq![0x2du8] + decimal_nat((-i) as nat)
    } else {
        decimal_nat(i as nat)
    }
}

proof fn lemma_digits_value_grows(s: Seq<u8>, i: int)
    requires
        0 <= i <= s.len(),
    ensures
        digits_value(s.take(i)) <= digits_value(s),
    decreases s.len(),
{
    if i < s.len() {
        lemma_digits_value_grows(s.drop_last(), i);
        assert(s.drop_last().take(i) =~= s.take(i));
    } else {
        assert(s.take(i) =~= s);
    }
}

/// Writing a natural number and reading the numeral gives the number back.
pub proof fn lemma_natural_of_decimal(n: nat)
    ensures
        decimal_nat(n).len() > 0,
        all_digits(decimal_nat(n)),
        natural(decimal_nat(n)) == Some(n),
    decreases n,
{
    let s = decimal_nat(n);
    if n < 10 {
        assert(s.drop_last() =~= Seq::<u8>::empty());
        assert(digits_value(s.drop_last()) == 0);
    } else {
        lemma_natural_of_decimal(n / 10);
        assert(s.drop_last() =~= decimal_nat(n / 10));
    }
}

/// Writing an integer and reading the numeral gives the integer back.
pub proof fn lemma_integer_of_decimal(i: int)
    ensures
        integer(decimal_int(i)) == Some(i),
{
    if i < 0 {
        lemma_natural_of_decimal((-i) as nat);
        assert(decimal_int(i).skip(1) =~= decimal_nat((-i) as nat));
    } else {
        lemma_natural_of_decimal(i as nat);
        assert(is_digit(decimal_int(i)[0]));
    }
}

/// Reads a natural number that fits a `usize`.
pub fn read_usize(s: &[u8]) -> (r: Option<usize>)
    ensures
        r == (match natural(s@) {
            Some(n) => if n <= usize::MAX {
                Some(n as usize)
            } else {
                None
            },
            None => None,
        }),
{
    if s.len() == 0 {
        return None;
    }
    let mut value: usize = 0;
    let mut i: usize = 0;
    while i < s.len()
        invariant
            i <= s@.len(),
            0 < s@.len(),
            value == digits_value(s@.take(i as int)),
            forall|j: int| 0 <= j < i ==> is_digit(#[trigger] s@[j]),
        decreases s@.len() - i,
    {
        let b = s[i];
        if b < 0x30 || b > 0x39 {
            assert(!is_digit(s@[i as int]));
            return None;
        }
        let d: usize = (b - 0x30) as usize;
        proof {
            assert(s@.take(i + 1).drop_last() =~= s@.take(i as int));
            assert(digits_value(s@.take(i + 1)) == 10 * value + d);
            lemma_digits_value_grows(s@, i + 1);
        }
        if value > (usize::MAX - d) / 10 {
            return None;
        }
        value = value * 10 + d;
        i += 1;
    }
    assert(s@.take(i as int) =~= s@);
    Some(value)
}

/// Reads an integer that fits an `isize`.
pub fn read_isize(s: &[u8]) -> (r: Option<isize>)
    ensures
        r == (match integer(s@) {
            Some(i) => if isize::MIN <= i <= isize::MAX {
                Some(i as isize)
            } else {
                None
            },
            None => None,
        }),
{
    let limit: usize = isize::MAX as usize;
    if s.len() > 0 && s[0] == 0x2d {
        match read_usize(vstd::slice::slice_subrange(s, 1, s.len())) {
            Some(m) => {
                if m <= limit {
                    Some(-(m as isize))
                } else if m == limit + 1 {
                    Some(isize::MIN)
                } else {
                    None
                }
            },
            None => None,
        }
    } else {
        let digits = if s.len() > 0 && s[0] == 0x2b {
            vstd::slice::slice_subrange(s, 1, s.len())
        } else {
            s
        };
        match read_usize(digits) {
            Some(m) => if m <= limit {
                Some(m as isize)
            } else {
                None
            },
            None => None,
        }
    }
}

/// Writes a natural number.
pub fn write_usize(n: usize) -> (r: Vec<u8>)
    ensures
        r@ == decimal_nat(n as nat),
    decreases n,
{
    if n < 10 {
        let mut out: Vec<u8> = Vec::new();
        out.push(0x30 + n as u8);
        assert(out@ =~= decimal_nat(n as nat));
        out
    } else {
        let mut out = write_usize(n / 10);
        out.push(0x30 + (n % 10) as u8);
        out
    }
}

/// Writes an integer.
pub fn write_isize(i: isize) -> (r: Vec<u8>)
    ensures
        r@ == decimal_int(i as int),
{
    if i < 0 {
        let magnitude: usize = (-(i + 1)) as usize + 1;
        let mut digits = write_usize(magnitude);
        let mut out: Vec<u8> = Vec::new();
        out.push(0x2d);
        out.append(&mut digits);
        assert(out@ =~= decimal_int(i as int));
        out
    } else {
        write_usize(i as usize)
    }
}

} // verus!
