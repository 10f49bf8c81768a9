//! Decimal numbers as texts: how they are written and how they are read.

use crate::text::trim;
use vstd::prelude::*;

verus! {

/// The character that writes the digit `d`.
pub open spec fn digit_char(d: nat) -> char {
    ((48 + d) as u8) as char
}

/// Whether `c` is one of `0` to `9`.
pub open spec fn is_digit(c: char) -> bool {
    48 <= c as u32 <= 57
}

/// The digit that `c` writes.
pub open spec fn digit_value(c: char) -> nat {
    (c as u32 - 48) as nat
}

/// Whether `s` holds digits only.
pub open spec fn all_digits(s: Seq<char>) -> bool {
    forall|i: int| 0 <= i < s.len() ==> is_digit(#[trigger] s[i])
}

/// The number that the digits of `s` write, the first the most significant.
pub open spec fn digits_value(s: Seq<char>) -> nat
    decreases s.len(),
{
    if s.len() == 0 {
        0
    } else {
        digits_value(s.drop_last()) * 10 + digit_value(s.last())
    }
}

/// `n` in decimal, with no more digits than it needs.
pub open spec fn decimal(n: nat) -> Seq<char>
    decreases n,
{
    if n < 10 {
        seq![digit_char(n)]
    } else {
        decimal(n / 10).push(digit_char(n % 10))
    }
}

/// `n` in decimal, with zeros in front of it where it has fewer than
/// `width` digits.
pub open spec fn zero_padded(n: nat, width: nat) -> Seq<char> {
    let digits = decimal(n);
    if digits.len() >= width {
        digits
    } else {
        Seq::new((width - digits.len()) as nat, |i: int| '0') + digits
    }
}

/// The number that `s` writes without a sign or after a `+`: at least one
/// digit, and nothing else.
pub open spec fn parse_unsigned(s: Seq<char>) -> Option<nat> {
    let digits = if s.len() > 0 && s[0] == '+' {
        s.drop_first()
    } else {
        s
    };
    if digits.len() > 0 && all_digits(digits) {
        Some(digits_value(digits))
    } else {
        None
    }
}

/// The number that `s` writes, with `-` or `+` or nothing in front.
pub open spec fn parse_signed(s: Seq<char>) -> Option<int> {
    if s.len() > 0 && s[0] == '-' {
        let digits = s.drop_first();
        if digits.len() > 0 && all_digits(digits) {
            Some(-(digits_value(digits) as int))
        } else {
            None
        }
    } else {
        match parse_unsigned(s) {
            Some(n) => Some(n as int),
            None => None,
        }
    }
}

/// A number does not get smaller as digits are added behind it.
pub proof fn lemma_digits_value_grows(s: Seq<char>, k: int)
    requires
        0 <= k <= s.len(),
    ensures
        digits_value(s.take(k)) <= digits_value(s),
    decreases s.len() - k,
{
    if k == s.len() {
        assert(s.take(k) =~= s);
    } else {
        assert(s.take(k + 1).drop_last() =~= s.take(k));
        lemma_digits_value_grows(s, k + 1);
    }
}

/// A number in decimal is written in digits, and they write the number.
pub proof fn lemma_decimal_value(n: nat)
    ensures
        decimal(n).len() > 0,
        all_digits(decimal(n)),
        digits_value(decimal(n)) == n,
    decreases n,
{
    if n < 10 {
        let s = decimal(n);
        assert(digits_value(s.drop_last()) == 0);
    } else {
        lemma_decimal_value(n / 10);
        let front = decimal(n / 10);
        let s = decimal(n);
        assert(s.drop_last() =~= front);
        assert forall|i: int| 0 <= i < s.len() implies is_digit(#[trigger] s[i]) by {}
    }
}

/// Zeros in front of digits do not change the number.
pub proof fn lemma_leading_zeros(zeros: nat, digits: Seq<char>)
    ensures
        digits_value(Seq::new(zeros, |i: int| '0') + digits) == digits_value(digits),
    decreases digits.len(),
{
    let front = Seq::new(zeros, |i: int| '0');
    if digits.len() == 0 {
        lemma_zeros_value(zeros);
    } else {
        assert((front + digits).drop_last() =~= front + digits.drop_last());
        lemma_leading_zeros(zeros, digits.drop_last());
    }
}

/// Zeros alone write zero.
proof fn lemma_zeros_value(zeros: nat)
    ensures
        digits_value(Seq::new(zeros, |i: int| '0')) == 0,
    decreases zeros,
{
    if zeros > 0 {
        let s = Seq::new(zeros, |i: int| '0');
        assert(s.drop_last() =~= Seq::new((zeros - 1) as nat, |i: int| '0'));
        lemma_zeros_value((zeros - 1) as nat);
    }
}

/// A number that was written with zeros in front is read back as it was,
/// whatever white space is set aside at the ends: it has none.
pub proof fn lemma_padded_reads_back(n: nat, width: nat)
    ensures
        zero_padded(n, width).len() >= width,
        zero_padded(n, width).len() > 0,
        all_digits(zero_padded(n, width)),
        trim(zero_padded(n, width)) == zero_padded(n, width),
        parse_unsigned(trim(zero_padded(n, width))) == Some(n),
{
    let digits = decimal(n);
    let s = zero_padded(n, width);
    lemma_decimal_value(n);
    if digits.len() < width {
        let zeros = (width - digits.len()) as nat;
        lemma_leading_zeros(zeros, digits);
        assert forall|i: int| 0 <= i < s.len() implies is_digit(#[trigger] s[i]) by {}
    }
}

/// Ten to the power of `k`.
pub open spec fn pow10(k: nat) -> nat
    decreases k,
{
    if k == 0 {
        1
    } else {
        10 * pow10((k - 1) as nat)
    }
}

/// A number below ten to the power of `k` has at most `k` digits.
pub proof fn lemma_decimal_len(n: nat, k: nat)
    requires
        k >= 1,
        n < pow10(k),
    ensures
        decimal(n).len() <= k,
    decreases k,
{
    if n >= 10 {
        assert(k >= 2) by {
            reveal_with_fuel(pow10, 2);
        }
        lemma_decimal_len(n / 10, (k - 1) as nat);
    }
}

/// A number of 64 bits, filled up to `width` characters, takes no more
/// than 20 characters or `width`, whichever is more.
pub proof fn lemma_padded_len(n: nat, width: nat)
    requires
        n <= u64::MAX,
    ensures
        zero_padded(n, width).len() <= if width > 20 {
            width
        } else {
            20
        },
{
    assert(pow10(20) == 100000000000000000000) by {
        reveal_with_fuel(pow10, 21);
    }
    lemma_decimal_len(n, 20);
}

/// The number written by the digits of `chars` from `lo` to `hi`, where
/// there is at least one, all are digits and the number is at most `limit`.
pub fn read_digits(chars: &[char], lo: usize, hi: usize, limit: u64) -> (value: Option<u64>)
    requires
        lo <= hi <= chars@.len(),
    ensures
        value == ({
            let digits = chars@.subrange(lo as int, hi as int);
            if digits.len() > 0 && all_digits(digits) && digits_value(digits) <= limit {
                Some(digits_value(digits) as u64)
            } else {
                None
            }
        }),
{
    if lo == hi {
        return None;
    }
    let ghost digits = chars@.subrange(lo as int, hi as int);
    let mut acc: u64 = 0;
    let mut i: usize = lo;
    while i < hi
        invariant
            lo <= i <= hi <= chars@.len(),
            digits == chars@.subrange(lo as int, hi as int),
            all_digits(digits.take(i - lo)),
            acc == digits_value(digits.take(i - lo)),
            acc <= limit,
        decreases hi - i,
    {
        let c: char = chars[i];
        let u: u32 = c as u32;
        assert(digits[i - lo] == c);
        if u < 48 || u > 57 {
            return None;
        }
        let d: u64 = (u - 48) as u64;
        proof {
            assert(digits.take(i - lo + 1).drop_last() =~= digits.take(i - lo));
            lemma_digits_value_grows(digits, i - lo + 1);
            assert forall|j: int| 0 <= j < i - lo + 1 implies is_digit(
                #[trigger] digits.take(i - lo + 1)[j],
            ) by {}
        }
        let next: u64 = match acc.checked_mul(10) {
            Some(tens) => match tens.checked_add(d) {
                Some(sum) => sum,
                None => { return None; },
            },
            None => { return None; },
        };
        if next > limit {
            return None;
        }
        acc = next;
        i += 1;
    }
    assert(digits.take(hi - lo) =~= digits);
    Some(acc)
}

/// The number written in `chars` from `lo` to `hi`, with nothing or a `+`
/// in front, where it is at most `limit`.
pub fn read_unsigned(chars: &[char], lo: usize, hi: usize, limit: u64) -> (value: Option<u64>)
    requires
        lo <= hi <= chars@.len(),
    ensures
        value == (match parse_unsigned(chars@.subrange(lo as int, hi as int)) {
            Some(n) => if n <= limit {
                Some(n as u64)
            } else {
                None
            },
            None => None,
        }),
{
    let ghost s = chars@.subrange(lo as int, hi as int);
    if lo < hi && chars[lo] == '+' {
        assert(s.drop_first() =~= chars@.subrange(lo + 1, hi as int));
        read_digits(chars, lo + 1, hi, limit)
    } else {
        read_digits(chars, lo, hi, limit)
    }
}

/// Whether `chars` writes a number from `lo` to `hi`, with nothing or a `+`
/// in front.
pub fn is_unsigned(chars: &[char], lo: usize, hi: usize) -> (number: bool)
    requires
        lo <= hi <= chars@.len(),
    ensures
        number == parse_unsigned(chars@.subrange(lo as int, hi as int)) is Some,
{
    let ghost s = chars@.subrange(lo as int, hi as int);
    let first: usize = if lo < hi && chars[lo] == '+' {
        lo + 1
    } else {
        lo
    };
    let ghost digits = chars@.subrange(first as int, hi as int);
    proof {
        if first > lo {
            assert(s.drop_first() =~= digits);
        }
    }
    if first == hi {
        return false;
    }
    let ghost wanted = parse_unsigned(s) is Some;
    let mut i: usize = first;
    while i < hi
        invariant
            first <= i <= hi <= chars@.len(),
            lo <= first < hi,
            digits == chars@.subrange(first as int, hi as int),
            wanted == parse_unsigned(chars@.subrange(lo as int, hi as int)) is Some,
            wanted == all_digits(digits),
            forall|j: int| 0 <= j < i - first ==> is_digit(#[trigger] digits[j]),
        ensures
            wanted,
        decreases hi - i,
    {
        let u: u32 = chars[i] as u32;
        assert(digits[i - first] == chars@[i as int]);
        if u < 48 || u > 57 {
            return false;
        }
        i += 1;
    }
    true
}

/// The number written in `chars` from `lo` to `hi`, with `-`, `+` or nothing
/// in front, where it fits 32 bits.
pub fn read_signed(chars: &[char], lo: usize, hi: usize) -> (value: Option<i32>)
    requires
        lo <= hi <= chars@.len(),
    ensures
        value == (match parse_signed(chars@.subrange(lo as int, hi as int)) {
            Some(n) => if i32::MIN <= n <= i32::MAX {
                Some(n as i32)
            } else {
                None
            },
            None => None,
        }),
{
    let ghost s = chars@.subrange(lo as int, hi as int);
    if lo < hi && chars[lo] == '-' {
        assert(s.drop_first() =~= chars@.subrange(lo + 1, hi as int));
        match read_digits(chars, lo + 1, hi, 0x8000_0000) {
            Some(n) => {
                let wide: i64 = -(n as i64);
                Some(wide as i32)
            },
            None => None,
        }
    } else {
        match read_unsigned(chars, lo, hi, 0x7fff_ffff) {
            Some(n) => Some(n as i32),
            None => None,
        }
    }
}

/// `alloc::format!` with the directive `{:0>width$}` on a `u64`: the number
/// in decimal, filled up with `0` on the left to `width` characters.
/// Trusted, not proved.
#[verifier::external_body]
pub(crate) fn pad_decimal(value: u64, width: usize) -> (text: String)
    requires
        width <= 255,
    ensures
        text@ == zero_padded(value as nat, width as nat),
{
    format!("{:0>width$}", value, width = width)
}

} // verus!
