//! Numbers written in digits.

use vstd::prelude::*;

verus! {

/// The value of a digit in base ten, or in base sixteen with letters of either case.
pub open spec fn digit_value(b: u8, radix: int) -> Option<int> {
    if 0x30 <= b <= 0x39 {
        Some(b - 0x30)
    } else if radix == 16 && 0x61 <= b <= 0x66 {
        Some(b - 0x61 + 10)
    } else if radix == 16 && 0x41 <= b <= 0x46 {
        Some(b - 0x41 + 10)
    } else {
        None
    }
}

/// The number that a string of digits writes; the empty string writes zero.
pub open spec fn digits_value(s: Seq<u8>, radix: int) -> Option<int>
    decreases s.len(),
{
    if s.len() == 0 {
        Some(0)
    } else {
        match (digits_value(s.drop_last(), radix), digit_value(s.last(), radix)) {
            (Some(v), Some(d)) => Some(v * radix + d),
            _ => None,
        }
    }
}

/// The digits of a number that may be written with a plus sign before them.
pub open spec fn unsigned_digits(s: Seq<u8>) -> Seq<u8> {
    if s.len() > 0 && s[0] == 0x2b {
        s.skip(1)
    } else {
        s
    }
}

/// The number that `s` writes: an optional plus sign, then one digit or more and nothing
/// else, with a value of at most `max`.
pub open spec fn number_value(s: Seq<u8>, radix: int, max: int) -> Option<int> {
    let digits = unsigned_digits(s);
    if digits.len() == 0 {
        None
    } else {
        match digits_value(digits, radix) {
            Some(v) => if v <= max {
                Some(v)
            } else {
                None
            },
            None => None,
        }
    }
}

/// A string of digits writes at least what any of its beginnings writes.
proof fn lemma_prefix_value(s: Seq<u8>, k: int, radix: int)
    requires
        0 <= k <= s.len(),
        radix == 10 || radix == 16,
    ensures
        digits_value(s.take(k), radix) is None ==> digits_value(s, radix) is None,
        digits_value(s, radix) matches Some(v) ==> digits_value(s.take(k), radix) matches Some(u)
            && 0 <= u <= v,
    decreases s.len() - k,
{
    lemma_value_nonnegative(s.take(k), radix);
    if k == s.len() {
        assert(s.take(k) =~= s);
    } else {
        lemma_prefix_value(s, k + 1, radix);
        assert(s.take(k + 1).drop_last() =~= s.take(k));
        assert(s.take(k + 1).last() == s[k]);
    }
}

/// Where digits write a number, each of them is a digit.
pub proof fn lemma_each_digit(s: Seq<u8>, radix: int, i: int)
    requires
        digits_value(s, radix) is Some,
        0 <= i < s.len(),
    ensures
        digit_value(s[i], radix) is Some,
    decreases s.len(),
{
    if i < s.len() - 1 {
        assert(s.drop_last()[i] == s[i]);
        lemma_each_digit(s.drop_last(), radix, i);
    }
}

/// Digits in base sixteen write no negative number.
pub proof fn lemma_value_is_nonnegative(s: Seq<u8>)
    ensures
        digits_value(s, 16) matches Some(v) ==> 0 <= v,
{
    lemma_value_nonnegative(s, 16);
}

proof fn lemma_value_nonnegative(s: Seq<u8>, radix: int)
    requires
        radix == 10 || radix == 16,
    ensures
        digits_value(s, radix) matches Some(v) ==> 0 <= v,
    decreases s.len(),
{
    if s.len() > 0 {
        lemma_value_nonnegative(s.drop_last(), radix);
    }
}

/// The value of one digit.
fn digit(b: u8, radix: u8) -> (r: Option<u8>)
    ensures
        match r {
            Some(d) => digit_value(b, radix as int) == Some(d as int) && d < 16,
            None => digit_value(b, radix as int) is None,
        },
{
    if 0x30 <= b && b <= 0x39 {
        Some(b - 0x30)
    } else if radix == 16 && 0x61 <= b && b <= 0x66 {
        Some(b - 0x61 + 10)
    } else if radix == 16 && 0x41 <= b && b <= 0x46 {
        Some(b - 0x41 + 10)
    } else {
        None
    }
}

/// Reads a number of at most `max` in base ten or sixteen.
pub fn parse_number(s: &[u8], radix: u8, max: u64) -> (r: Option<u64>)
    requires
        radix == 10 || radix == 16,
    ensures
        match r {
            Some(v) => number_value(s@, radix as int, max as int) == Some(v as int) && v <= max,
            None => number_value(s@, radix as int, max as int) is None,
        },
{
    let start: usize = if s.len() > 0 && s[0] == 0x2b {
        1
    } else {
        0
    };
    let ghost digits = unsigned_digits(s@);
    assert(digits =~= s@.skip(start as int));
    if start == s.len() {
        return None;
    }
    let mut value: u64 = 0;
    let mut i: usize = start;
    while i < s.len()
        invariant
            radix == 10 || radix == 16,
            start <= i <= s@.len(),
            digits == s@.skip(start as int),
            digits == unsigned_digits(s@),
            value <= max,
            digits_value(digits.take(i - start), radix as int) == Some(value as int),
        decreases s@.len() - i,
    {
        let ghost k = i - start;
        assert(digits.take(k + 1).drop_last() =~= digits.take(k));
        assert(digits.take(k + 1).last() == s@[i as int]);
        match digit(s[i], radix) {
            Some(d) => {
                assert(value * radix <= u64::MAX * 16) by (nonlinear_arith)
                    requires
                        value <= u64::MAX,
                        radix <= 16,
                ;
                let next: u128 = value as u128 * radix as u128 + d as u128;
                if next > max as u128 {
                    proof {
                        lemma_prefix_value(digits, k + 1, radix as int);
                    }
                    return None;
                }
                value = next as u64;
            },
            None => {
                proof {
                    lemma_prefix_value(digits, k + 1, radix as int);
                }
                return None;
            },
        }
        i = i + 1;
    }
    assert(digits.take(s@.len() - start) =~= digits);
    Some(value)
}

/// The decimal digits of a number, without leading zeros.
pub open spec fn decimal(n: nat) -> Seq<char>
    decreases n,
{
    if n < 10 {
        seq![(0x30 + n) as char]
    } else {
        decimal(n / 10).push((0x30 + n % 10) as char)
    }
}

/// Appends a number in decimal digits.
pub fn push_decimal(out: &mut String, n: u64)
    ensures
        final(out)@ == old(out)@ + decimal(n as nat),
    decreases n,
{
    if n < 10 {
        out.push((0x30 + n as u8) as char);
    } else {
        push_decimal(out, n / 10);
        out.push((0x30 + (n % 10) as u8) as char);
    }
    assert(out@ =~= old(out)@ + decimal(n as nat));
}

/// The digits by their characters: from `0` to `9`, and in base sixteen letters up to `f` in
/// either case. Nothing else is a digit.
pub proof fn digits_by_character(b: u8)
    ensures
        48 <= b <= 57 ==> digit_value(b, 10) == Some(b - 48) && digit_value(b, 16) == Some(b - 48),
        97 <= b <= 102 ==> digit_value(b, 10) is None && digit_value(b, 16) == Some(b - 87),
        65 <= b <= 70 ==> digit_value(b, 10) is None && digit_value(b, 16) == Some(b - 55),
        !(48 <= b <= 57 || 97 <= b <= 102 || 65 <= b <= 70) ==> digit_value(b, 10) is None
            && digit_value(b, 16) is None,
{
}

/// A digit more makes a number `radix` times as large, and adds the digit; one character that
/// is no digit makes it no number.
pub proof fn digits_count_by_place(s: Seq<u8>, b: u8, radix: int)
    ensures
        (digits_value(s, radix), digit_value(b, radix)) matches (Some(v), Some(d)) ==> digits_value(
            s.push(b),
            radix,
        ) == Some(v * radix + d),
        digit_value(b, radix) is None ==> digits_value(s.push(b), radix) is None,
        digits_value(s, radix) is None ==> digits_value(s.push(b), radix) is None,
{
    assert(s.push(b).drop_last() =~= s);
}

/// A plus sign before a number counts for nothing; without a digit there is no number, and
/// none is larger than the limit.
pub proof fn numbers_within_a_limit(s: Seq<u8>, radix: int, max: int)
    ensures
        number_value(Seq::empty(), radix, max) is None,
        number_value(seq![0x2bu8], radix, max) is None,
        s.len() > 0 && s[0] != 0x2b ==> number_value(seq![0x2bu8] + s, radix, max) == number_value(
            s,
            radix,
            max,
        ),
        s.len() > 0 && s[0] != 0x2b ==> (number_value(s, radix, max) matches Some(v) ==> v <= max
            && digits_value(s, radix) == Some(v)),
        s.len() > 0 && s[0] != 0x2b ==> (digits_value(s, radix) matches Some(v) ==> v <= max
            ==> number_value(s, radix, max) == Some(v)),
{
    assert(seq![0x2bu8].skip(1) =~= Seq::<u8>::empty());
    assert((seq![0x2bu8] + s).skip(1) =~= s);
    assert((seq![0x2bu8] + s)[0] == 0x2b);
}

/// A number in decimal digits can be read back, and has no zero before it.
pub proof fn decimal_can_be_read_back(n: nat)
    ensures
        digits_value(decimal(n).map_values(|c: char| c as u8), 10) == Some(n as int),
        decimal(n).len() > 0,
        n > 0 ==> decimal(n)[0] != '0',
        n == 0 ==> decimal(n) == seq!['0'],
    decreases n,
{
    let f = |c: char| c as u8;
    let digits = decimal(n).map_values(f);
    if n < 10 {
        let c = (0x30 + n) as char;
        assert(decimal(n) =~= seq![c]);
        assert(digits =~= Seq::<u8>::empty().push(c as u8));
        assert(digits_value(Seq::<u8>::empty(), 10) == Some(0int));
        digits_count_by_place(Seq::empty(), c as u8, 10);
    } else {
        decimal_can_be_read_back(n / 10);
        let front = decimal(n / 10);
        let c = (0x30 + n % 10) as char;
        assert(digits =~= front.map_values(f).push(c as u8));
        digits_count_by_place(front.map_values(f), c as u8, 10);
        assert(decimal(n)[0] == front[0]);
    }
}

} // verus!
