//! Decimal numbers as text.

use crate::text::{is_space, lemma_nothing_to_trim, lemma_trimmed_around, lemma_trimmed_push};
use crate::text::{trim, trimmed, Edge};
use vstd::prelude::*;
use vstd::slice::slice_subrange;

verus! {

/// The character of a decimal digit.
pub open spec fn digit(n: nat) -> char {
    ('0' as nat + n) as char
}

/// A number in decimal, without leading zeros.
pub open spec fn decimal(n: nat) -> Seq<char>
    decreases n,
{
    if n < 10 {
        seq![digit(n)]
    } else {
        decimal(n / 10).push(digit(n % 10))
    }
}

/// An integer in decimal, with a minus sign where it is negative.
pub open spec fn signed(n: int) -> Seq<char> {
    if n < 0 {
        seq!['-'] + decimal((-n) as nat)
    } else {
        decimal(n as nat)
    }
}

/// Writes a number in decimal.
pub fn push_decimal(out: &mut String, n: u64)
    ensures
        final(out)@ == old(out)@ + decimal(n as nat),
    decreases n,
{
    if n >= 10 {
        push_decimal(out, n / 10);
    }
    let d: u8 = 48u8 + (n % 10) as u8;
    out.push(d as char);
    proof {
        assert(out@ =~= old(out)@ + decimal(n as nat));
    }
}

/// Writes an integer in decimal.
pub fn push_signed(out: &mut String, n: i64)
    ensures
        final(out)@ == old(out)@ + signed(n as int),
{
    if n < 0 {
        out.push('-');
        let size: u64 = (-(n as i128)) as u64;
        push_decimal(out, size);
        proof {
            assert(out@ =~= old(out)@ + (seq!['-'] + decimal(size as nat)));
        }
    } else {
        push_decimal(out, n as u64);
    }
}

/// Whether a character is an ASCII digit.
pub open spec fn is_digit(c: char) -> bool {
    '0' <= c <= '9'
}

/// Whether a text is one or more ASCII digits.
pub open spec fn is_digits(s: Seq<char>) -> bool {
    s.len() > 0 && forall|i: int| 0 <= i < s.len() ==> is_digit(#[trigger] s[i])
}

/// The number that some digits stand for.
pub open spec fn value(s: Seq<char>) -> nat
    decreases s.len(),
{
    if s.len() == 0 {
        0
    } else {
        10 * value(s.drop_last()) + (s.last() as nat - '0' as nat) as nat
    }
}

/// Digits at the front never make a number smaller.
proof fn lemma_value_prefix(s: Seq<char>, n: int)
    requires
        0 <= n <= s.len(),
    ensures
        value(s.take(n)) <= value(s),
    decreases s.len() - n,
{
    if n < s.len() {
        lemma_value_prefix(s, n + 1);
        assert(s.take(n + 1).drop_last() =~= s.take(n));
    } else {
        assert(s.take(n) =~= s);
    }
}

/// Reads digits that stand for a number of at most `max`.
fn digits_up_to(s: &[char], max: u64) -> (r: Option<u64>)
    requires
        max <= u32::MAX,
    ensures
        match r {
            Some(v) => is_digits(s@) && value(s@) <= max && v == value(s@),
            None => !(is_digits(s@) && value(s@) <= max),
        },
{
    if s.len() == 0 {
        return None;
    }
    let mut v: u64 = 0;
    for i in 0..s.len()
        invariant
            max <= u32::MAX,
            v <= max,
            v == value(s@.take(i as int)),
            forall|j: int| 0 <= j < i ==> is_digit(#[trigger] s@[j]),
    {
        let c = s[i];
        if !('0' <= c && c <= '9') {
            proof {
                assert(!is_digit(s@[i as int]));
            }
            return None;
        }
        proof {
            assert(s@.take(i + 1).drop_last() =~= s@.take(i as int));
            assert(s@.take(i + 1).last() == c);
        }
        v = 10 * v + (c as u64 - '0' as u64);
        if v > max {
            proof {
                lemma_value_prefix(s@, i + 1);
            }
            return None;
        }
    }
    proof {
        assert(s@.take(s@.len() as int) =~= s@);
    }
    Some(v)
}

/// `s` without a plus sign in front.
pub open spec fn without_plus(s: Seq<char>) -> Seq<char> {
    if s.len() > 0 && s[0] == '+' {
        s.skip(1)
    } else {
        s
    }
}

/// The number that a text names: digits, after a plus sign or none, that stand
/// for no more than 32 bits can hold.
pub open spec fn unsigned_32(s: Seq<char>) -> Option<u32> {
    if is_digits(without_plus(s)) && value(without_plus(s)) <= u32::MAX {
        Some(value(without_plus(s)) as u32)
    } else {
        None
    }
}

/// Reads a `u32`.
pub fn parse_u32(s: &[char]) -> (r: Option<u32>)
    ensures
        r == unsigned_32(s@),
{
    let digits = if s.len() > 0 && s[0] == '+' {
        slice_subrange(s, 1, s.len())
    } else {
        s
    };
    proof {
        assert(digits@ =~= without_plus(s@));
    }
    match digits_up_to(digits, u32::MAX as u64) {
        Some(v) => Some(v as u32),
        None => None,
    }
}

/// The file descriptor that a text names: blanks around it are left out, and it
/// has to fit an `i32` and not be negative. Minus zero is zero.
pub open spec fn descriptor_of(raw: Seq<char>) -> Option<u32> {
    let s = trimmed(raw, Edge::Blank);
    let limit: nat = if s.len() > 0 && s[0] == '-' {
        0
    } else {
        i32::MAX as nat
    };
    let digits = if s.len() > 0 && s[0] == '-' {
        s.skip(1)
    } else {
        without_plus(s)
    };
    if is_digits(digits) && value(digits) <= limit {
        Some(value(digits) as u32)
    } else {
        None
    }
}

/// Reads a file descriptor.
pub fn parse_descriptor(raw: &[char]) -> (r: Option<u32>)
    ensures
        r == descriptor_of(raw@),
{
    let s = trim(raw, Edge::Blank);
    let minus = s.len() > 0 && s[0] == '-';
    let digits = if s.len() > 0 && (s[0] == '-' || s[0] == '+') {
        slice_subrange(s, 1, s.len())
    } else {
        s
    };
    let limit: u64 = if minus {
        0
    } else {
        i32::MAX as u64
    };
    proof {
        assert(minus ==> digits@ =~= s@.skip(1));
        assert(!minus ==> digits@ =~= without_plus(s@));
    }
    match digits_up_to(digits, limit) {
        Some(v) => Some(v as u32),
        None => None,
    }
}

/// What is written in decimal reads back as the number that was written, and
/// starts with no sign.
pub proof fn decimal_reads_back(n: nat)
    ensures
        is_digits(decimal(n)),
        value(decimal(n)) == n,
        without_plus(decimal(n)) == decimal(n),
    decreases n,
{
    if n >= 10 {
        decimal_reads_back(n / 10);
        let s = decimal(n);
        assert(s.drop_last() =~= decimal(n / 10));
        assert forall|i: int| 0 <= i < s.len() implies is_digit(#[trigger] s[i]) by {
            if i < s.len() - 1 {
                assert(s[i] == decimal(n / 10)[i]);
            }
        }
        assert(is_digit(s[0]));
    } else {
        let s = decimal(n);
        assert(value(s.drop_last()) == 0);
        assert(is_digit(s[0]));
    }
}

/// A descriptor may be written with blanks around it.
pub proof fn a_descriptor_reads_back(before: Seq<char>, fd: u32, after: Seq<char>)
    requires
        fd <= i32::MAX,
        forall|i: int| 0 <= i < before.len() ==> is_space(#[trigger] before[i]),
        forall|i: int| 0 <= i < after.len() ==> is_space(#[trigger] after[i]),
    ensures
        descriptor_of(before + decimal(fd as nat) + after) == Some(fd),
{
    let digits = decimal(fd as nat);
    decimal_reads_back(fd as nat);
    assert(is_digit(digits[0]));
    assert(is_digit(digits[digits.len() - 1]));
    assert forall|i: int| 0 <= i < before.len() implies Edge::Blank.covers(
        #[trigger] before[i],
    ) by {}
    assert forall|i: int| 0 <= i < after.len() implies Edge::Blank.covers(#[trigger] after[i]) by {}
    lemma_trimmed_around(before, digits, after, Edge::Blank);
}

/// A number is written digit by digit, the last digit behind the number without
/// it, and a negative one with a minus sign in front.
pub proof fn numbers_are_written_digit_by_digit(n: nat, d: nat)
    requires
        d < 10,
    ensures
        decimal(d) == seq![(48 + d) as char],
        n > 0 ==> decimal(10 * n + d) == decimal(n) + seq![(48 + d) as char],
        signed(n as int) == decimal(n),
        n > 0 ==> signed(-n) == seq!['-'] + decimal(n),
{
    if n > 0 {
        assert((10 * n + d) / 10 == n);
        assert((10 * n + d) % 10 == d);
        assert(decimal(10 * n + d) =~= decimal(n) + seq![(48 + d) as char]);
    }
}

/// Zeros in front change no number.
proof fn lemma_zeros(zeros: Seq<char>, s: Seq<char>)
    requires
        forall|i: int| 0 <= i < zeros.len() ==> #[trigger] zeros[i] == '0',
    ensures
        value(zeros + s) == value(s),
    decreases s.len(), zeros.len(),
{
    let all = zeros + s;
    if s.len() > 0 {
        lemma_zeros(zeros, s.drop_last());
        assert(all.drop_last() =~= zeros + s.drop_last());
        assert(all.last() == s.last());
    } else if zeros.len() > 0 {
        assert(all =~= zeros);
        let rest = zeros.drop_last();
        lemma_zeros(rest, s);
        assert(rest + s =~= rest);
        assert(all.drop_last() =~= rest);
        assert(all.last() == zeros[zeros.len() - 1]);
    } else {
        assert(all =~= s);
    }
}

/// A number is read with a plus sign and zeros in front or without them, as far
/// as it fits 32 bits.
pub proof fn a_number_is_read_as_it_is_written(plus: bool, zeros: Seq<char>, n: nat)
    requires
        forall|i: int| 0 <= i < zeros.len() ==> #[trigger] zeros[i] == '0',
    ensures
        ({
            let text = (if plus {
                seq!['+']
            } else {
                Seq::empty()
            }) + (zeros + decimal(n));
            &&& n <= u32::MAX ==> unsigned_32(text) == Some(n as u32)
            &&& n > u32::MAX ==> unsigned_32(text) is None
        }),
{
    let digits = zeros + decimal(n);
    let text = (if plus {
        seq!['+']
    } else {
        Seq::empty()
    }) + digits;
    decimal_reads_back(n);
    lemma_zeros(zeros, decimal(n));
    assert forall|i: int| 0 <= i < digits.len() implies is_digit(#[trigger] digits[i]) by {
        if i < zeros.len() {
            assert(digits[i] == zeros[i]);
        } else {
            assert(digits[i] == decimal(n)[i - zeros.len()]);
        }
    }
    assert(is_digits(digits));
    assert(is_digit(digits[0]));
    if plus {
        assert(text.skip(1) =~= digits);
    } else {
        assert(text =~= digits);
    }
}

/// What is no number is not read as one: nothing, a sign alone, and a text with
/// anything but a digit behind its first character.
pub proof fn what_is_no_number_is_not_read(s: Seq<char>, i: int)
    requires
        s.len() == 0 || s == seq!['+'] || (0 <= i < s.len() && !('0' <= s[i] <= '9') && (i > 0
            || s[0] != '+')),
    ensures
        unsigned_32(s) is None,
{
    let digits = without_plus(s);
    if s.len() > 0 && s != seq!['+'] {
        if s[0] == '+' {
            assert(digits[i - 1] == s[i]);
        } else {
            assert(digits[i] == s[i]);
        }
        assert(!is_digits(digits));
    }
}

/// A descriptor is a number that is not negative and fits 31 bits, with nothing
/// in its text but digits, a sign and blanks around it.
pub proof fn a_descriptor_is_a_number(raw: Seq<char>)
    ensures
        descriptor_of(raw) matches Some(fd) ==> fd <= 0x7fff_ffff && forall|i: int|
            0 <= i < raw.len() ==> '0' <= #[trigger] raw[i] <= '9' || raw[i] == '+' || raw[i] == '-'
                || is_space(raw[i]),
        raw.len() == 0 ==> descriptor_of(raw) is None,
{
    let s = trimmed(raw, Edge::Blank);
    if descriptor_of(raw) is Some {
        lemma_trimmed_parts(raw);
        assert forall|i: int| 0 <= i < raw.len() implies '0' <= #[trigger] raw[i] <= '9' || raw[i]
            == '+' || raw[i] == '-' || is_space(raw[i]) by {
            if !is_space(raw[i]) {
                let k = choose|k: int| 0 <= k < s.len() && s[k] == raw[i];
                if k > 0 {
                    let digits = if s[0] == '-' {
                        s.skip(1)
                    } else {
                        without_plus(s)
                    };
                    if s[0] == '-' || s[0] == '+' {
                        assert(is_digit(digits[k - 1]));
                    } else {
                        assert(is_digit(digits[k]));
                    }
                } else if s[0] != '-' && s[0] != '+' {
                    assert(is_digit(s[0]));
                }
            }
        }
    }
}

/// Every character that is not white space survives trimming.
proof fn lemma_trimmed_parts(raw: Seq<char>)
    ensures
        forall|i: int|
            0 <= i < raw.len() && !is_space(#[trigger] raw[i]) ==> trimmed(
                raw,
                Edge::Blank,
            ).contains(raw[i]),
    decreases raw.len(),
{
    let s = trimmed(raw, Edge::Blank);
    if raw.len() > 0 && is_space(raw[0]) {
        let rest = raw.drop_first();
        lemma_trimmed_parts(rest);
        assert forall|i: int| 0 <= i < raw.len() && !is_space(#[trigger] raw[i]) implies s.contains(
            raw[i],
        ) by {
            assert(rest[i - 1] == raw[i]);
        }
    } else if raw.len() > 0 && is_space(raw.last()) {
        let rest = raw.drop_last();
        lemma_trimmed_parts(rest);
        lemma_trimmed_push(rest, raw.last(), Edge::Blank);
        assert(rest.push(raw.last()) =~= raw);
        assert forall|i: int| 0 <= i < raw.len() && !is_space(#[trigger] raw[i]) implies s.contains(
            raw[i],
        ) by {
            assert(rest[i] == raw[i]);
        }
    } else {
        lemma_nothing_to_trim(raw, Edge::Blank);
    }
}

} // verus!
