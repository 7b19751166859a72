//! Integer literals: reading them in the radixes the assembler accepts, and
//! writing them back in decimal and hexadecimal.
use vstd::prelude::*;

verus! {

/// Why a string is not an integer, in the terms of `str::parse`.
#[derive(Clone, Copy, Debug, PartialEq, Eq, Structural)]
pub enum IntErrorKind {
    Empty,
    InvalidDigit,
    PosOverflow,
}

/// `v` taken modulo 2^16 into the range of `i16`.
pub open spec fn wrap16(v: int) -> int {
    ((v + 32768) % 65536) - 32768
}

/// The value of `c` as a digit in `radix` (2 to 36), as `char::to_digit` reads it.
pub open spec fn digit_value(c: char, radix: nat) -> Option<nat> {
    let u = c as u32;
    if 48 <= u <= 57 && u - 48 < radix {
        Some((u - 48) as nat)
    } else if 97 <= u <= 122 && u - 87 < radix {
        Some((u - 87) as nat)
    } else if 65 <= u <= 90 && u - 55 < radix {
        Some((u - 55) as nat)
    } else {
        None
    }
}

/// Reads the digits of `s` left to right, failing at the first character that
/// is no digit, or once the value passes `limit`.
pub open spec fn fold_digits(s: Seq<char>, radix: nat, limit: int) -> Result<int, IntErrorKind>
    decreases s.len(),
{
    if s.len() == 0 {
        Ok(0)
    } else {
        match fold_digits(s.drop_last(), radix, limit) {
            Err(e) => Err(e),
            Ok(v) => match digit_value(s.last(), radix) {
                None => Err(IntErrorKind::InvalidDigit),
                Some(d) => if v * radix + d > limit {
                    Err(IntErrorKind::PosOverflow)
                } else {
                    Ok(v * radix + d)
                },
            },
        }
    }
}

/// A register index: decimal digits with an optional `+`, at most `usize::MAX`.
pub open spec fn parse_unsigned(s: Seq<char>) -> Result<int, IntErrorKind> {
    if s.len() == 0 {
        Err(IntErrorKind::Empty)
    } else if s.len() == 1 && (s[0] == '+' || s[0] == '-') {
        Err(IntErrorKind::InvalidDigit)
    } else if s[0] == '+' {
        fold_digits(s.drop_first(), 10, usize::MAX as int)
    } else {
        fold_digits(s, 10, usize::MAX as int)
    }
}

/// A signed 32-bit integer in `radix`, with an optional sign.
pub open spec fn parse_i32(s: Seq<char>, radix: nat) -> Option<int> {
    if s.len() == 0 {
        None
    } else if s.len() == 1 && (s[0] == '+' || s[0] == '-') {
        None
    } else if s[0] == '-' {
        match fold_digits(s.drop_first(), radix, 0x8000_0000) {
            Ok(v) => Some(-v),
            Err(_) => None,
        }
    } else {
        let digits = if s[0] == '+' {
            s.drop_first()
        } else {
            s
        };
        match fold_digits(digits, radix, 0x7fff_ffff) {
            Ok(v) => Some(v),
            Err(_) => None,
        }
    }
}

pub open spec fn has_prefix(s: Seq<char>, a: char, b: char) -> bool {
    s.len() >= 2 && s[0] == a && s[1] == b
}

/// An immediate operand: `0x` hexadecimal, `0b` binary or decimal, read as a
/// 32-bit integer and then cut to 16 bits.
pub open spec fn literal_value(s: Seq<char>) -> Option<int> {
    let v = if has_prefix(s, '0', 'x') {
        parse_i32(s.skip(2), 16)
    } else if has_prefix(s, '0', 'b') {
        parse_i32(s.skip(2), 2)
    } else {
        parse_i32(s, 10)
    };
    match v {
        Some(x) => Some(wrap16(x)),
        None => None,
    }
}

proof fn lemma_fold_err_stays(s: Seq<char>, i: int, radix: nat, limit: int)
    requires
        0 <= i <= s.len(),
        fold_digits(s.take(i), radix, limit) is Err,
    ensures
        fold_digits(s, radix, limit) == fold_digits(s.take(i), radix, limit),
    decreases s.len() - i,
{
    if i < s.len() {
        let t = s.take(i + 1);
        assert(t.drop_last() =~= s.take(i));
        lemma_fold_err_stays(s, i + 1, radix, limit);
    } else {
        assert(s.take(i) =~= s);
    }
}

proof fn lemma_fold_bounded(s: Seq<char>, radix: nat, limit: int)
    requires
        limit >= 0,
    ensures
        fold_digits(s, radix, limit) matches Ok(v) ==> 0 <= v <= limit,
    decreases s.len(),
{
    if s.len() > 0 {
        lemma_fold_bounded(s.drop_last(), radix, limit);
        if let Ok(v) = fold_digits(s.drop_last(), radix, limit) {
            if let Some(d) = digit_value(s.last(), radix) {
                assert(v * radix >= 0) by (nonlinear_arith)
                    requires
                        v >= 0,
                ;
            }
        }
    }
}

pub fn digit_of(c: char, radix: u32) -> (r: Option<u32>)
    requires
        2 <= radix <= 36,
    ensures
        r matches Some(d) ==> digit_value(c, radix as nat) == Some(d as nat) && d < radix,
        r is None ==> digit_value(c, radix as nat) is None,
{
    let u = c as u32;
    if 48 <= u && u <= 57 && u - 48 < radix {
        Some(u - 48)
    } else if 97 <= u && u <= 122 && u - 87 < radix {
        Some(u - 87)
    } else if 65 <= u && u <= 90 && u - 55 < radix {
        Some(u - 55)
    } else {
        None
    }
}

/// Reads `s[start..]` as digits in `radix`, up to `limit`.
pub fn scan_digits(s: &Vec<char>, start: usize, radix: u32, limit: u64) -> (r: Result<
    u64,
    IntErrorKind,
>)
    requires
        start <= s.len(),
        2 <= radix <= 36,
    ensures
        match r {
            Ok(v) => fold_digits(s@.skip(start as int), radix as nat, limit as int) == Ok::<
                int,
                IntErrorKind,
            >(v as int),
            Err(e) => fold_digits(s@.skip(start as int), radix as nat, limit as int) == Err::<
                int,
                IntErrorKind,
            >(e),
        },
{
    let ghost t = s@.skip(start as int);
    let mut acc: u64 = 0;
    let mut i: usize = start;
    assert(t.take(0) =~= Seq::<char>::empty());
    while i < s.len()
        invariant
            start <= i <= s.len(),
            t == s@.skip(start as int),
            2 <= radix <= 36,
            fold_digits(t.take(i - start), radix as nat, limit as int) == Ok::<int, IntErrorKind>(
                acc as int,
            ),
        decreases s.len() - i,
    {
        let ghost p = t.take(i - start + 1);
        assert(p.drop_last() =~= t.take(i - start));
        assert(p.last() == s@[i as int]);
        match digit_of(s[i], radix) {
            None => {
                proof {
                    lemma_fold_err_stays(t, i - start + 1, radix as nat, limit as int);
                }
                return Err(IntErrorKind::InvalidDigit);
            },
            Some(d) => {
                assert(acc as u128 * radix as u128 <= 0xffff_ffff_ffff_ffff * 36) by (nonlinear_arith)
                    requires
                        acc <= 0xffff_ffff_ffff_ffffu64,
                        radix <= 36,
                ;
                let next: u128 = acc as u128 * radix as u128 + d as u128;
                if next > limit as u128 {
                    proof {
                        lemma_fold_err_stays(t, i - start + 1, radix as nat, limit as int);
                    }
                    return Err(IntErrorKind::PosOverflow);
                }
                acc = next as u64;
            },
        }
        i += 1;
    }
    assert(t.take(i - start) =~= t);
    Ok(acc)
}

pub fn parse_usize(s: &Vec<char>) -> (r: Result<usize, IntErrorKind>)
    ensures
        match r {
            Ok(v) => parse_unsigned(s@) == Ok::<int, IntErrorKind>(v as int),
            Err(e) => parse_unsigned(s@) == Err::<int, IntErrorKind>(e),
        },
{
    if s.len() == 0 {
        return Err(IntErrorKind::Empty);
    }
    if s.len() == 1 && (s[0] == '+' || s[0] == '-') {
        return Err(IntErrorKind::InvalidDigit);
    }
    let start: usize = if s[0] == '+' {
        1
    } else {
        0
    };
    assert(s@.skip(0) =~= s@);
    assert(s@.skip(1) =~= s@.drop_first());
    match scan_digits(s, start, 10, usize::MAX as u64) {
        Ok(v) => {
            proof {
                lemma_fold_bounded(s@.skip(start as int), 10, usize::MAX as int);
            }
            Ok(v as usize)
        },
        Err(e) => Err(e),
    }
}

/// Reads `s[start..]` as a signed 32-bit integer in `radix`.
fn parse_i32_from(s: &Vec<char>, start: usize, radix: u32) -> (r: Option<i64>)
    requires
        start <= s.len(),
        2 <= radix <= 36,
    ensures
        match r {
            Some(v) => parse_i32(s@.skip(start as int), radix as nat) == Some(v as int),
            None => parse_i32(s@.skip(start as int), radix as nat) is None,
        },
        r matches Some(v) ==> -0x8000_0000 <= v <= 0x7fff_ffff,
{
    let ghost t = s@.skip(start as int);
    let n = s.len() - start;
    if n == 0 {
        return None;
    }
    let first = s[start];
    if n == 1 && (first == '+' || first == '-') {
        return None;
    }
    assert(t.drop_first() =~= s@.skip(start + 1));
    if first == '-' {
        match scan_digits(s, start + 1, radix, 0x8000_0000) {
            Ok(v) => {
                proof {
                    lemma_fold_bounded(s@.skip(start + 1), radix as nat, 0x8000_0000);
                }
                Some(-(v as i64))
            },
            Err(_) => None,
        }
    } else {
        let from = if first == '+' {
            start + 1
        } else {
            start
        };
        match scan_digits(s, from, radix, 0x7fff_ffff) {
            Ok(v) => {
                proof {
                    lemma_fold_bounded(s@.skip(from as int), radix as nat, 0x7fff_ffff);
                }
                Some(v as i64)
            },
            Err(_) => None,
        }
    }
}

pub fn wrap_i16(v: i64) -> (r: i16)
    requires
        -0x8000_0000 <= v <= 0x7fff_ffff,
    ensures
        r as int == wrap16(v as int),
{
    let w: u64 = (v + 2147516416) as u64;
    let m: i64 = (w % 65536) as i64 - 32768;
    assert(m == wrap16(v as int)) by (nonlinear_arith)
        requires
            w == v + 2147516416,
            m == (w % 65536) - 32768,
    ;
    m as i16
}

/// Reads an immediate operand: `0x` hexadecimal, `0b` binary or decimal,
/// cut to 16 bits.
pub fn parse_literal(s: &Vec<char>) -> (r: Option<i16>)
    ensures
        match r {
            Some(v) => literal_value(s@) == Some(v as int),
            None => literal_value(s@) is None,
        },
{
    let parsed = if s.len() >= 2 && s[0] == '0' && s[1] == 'x' {
        parse_i32_from(s, 2, 16)
    } else if s.len() >= 2 && s[0] == '0' && s[1] == 'b' {
        parse_i32_from(s, 2, 2)
    } else {
        assert(s@.skip(0) =~= s@);
        parse_i32_from(s, 0, 10)
    };
    match parsed {
        Some(v) => Some(wrap_i16(v)),
        None => None,
    }
}

/// The character of digit `d` (below 16): `0`-`9`, then `a`-`f`.
pub open spec fn digit_char(d: nat) -> char {
    if d < 10 {
        ((48 + d) as u8) as char
    } else {
        ((87 + d) as u8) as char
    }
}

/// The digits of `n` in `base`, most significant first, without leading zeros.
pub open spec fn digits(n: nat, base: nat) -> Seq<char>
    decreases n,
    via digits_decreases
{
    if base < 2 || n < base {
        seq![digit_char(n)]
    } else {
        digits(n / base, base).push(digit_char(n % base))
    }
}

#[via_fn]
proof fn digits_decreases(n: nat, base: nat) {
    if !(base < 2 || n < base) {
        assert(n / base < n) by (nonlinear_arith)
            requires
                n >= base,
                base >= 2,
        ;
    }
}

/// `v` in decimal, with a leading `-` when negative.
pub open spec fn decimal(v: int) -> Seq<char> {
    if v < 0 {
        seq!['-'] + digits((-v) as nat, 10)
    } else {
        digits(v as nat, 10)
    }
}

/// `v` in lower-case hexadecimal, a negative value shown as its 16-bit two's complement.
pub open spec fn hex16(v: i16) -> Seq<char> {
    if v < 0 {
        digits((v + 65536) as nat, 16)
    } else {
        digits(v as nat, 16)
    }
}

fn digit_char_exec(d: u128) -> (c: char)
    requires
        d < 16,
    ensures
        c == digit_char(d as nat),
{
    if d < 10 {
        ((48 + d) as u8) as char
    } else {
        ((87 + d) as u8) as char
    }
}

/// Appends the digits of `n` in `base`.
pub fn push_digits(out: &mut String, n: u128, base: u128)
    requires
        2 <= base <= 16,
    ensures
        final(out)@ == old(out)@ + digits(n as nat, base as nat),
    decreases n,
{
    if n < base {
        out.push(digit_char_exec(n));
        assert(out@ =~= old(out)@ + digits(n as nat, base as nat));
    } else {
        assert(n / base < n) by (nonlinear_arith)
            requires
                n >= base,
                base >= 2,
        ;
        push_digits(out, n / base, base);
        out.push(digit_char_exec(n % base));
        assert(out@ =~= old(out)@ + digits(n as nat, base as nat));
    }
}

/// Appends `v` in decimal.
pub fn push_decimal(out: &mut String, v: i128)
    requires
        v > i128::MIN,
    ensures
        final(out)@ == old(out)@ + decimal(v as int),
{
    if v < 0 {
        out.push('-');
        push_digits(out, (-v) as u128, 10);
        assert(out@ =~= old(out)@ + decimal(v as int));
    } else {
        push_digits(out, v as u128, 10);
    }
}

/// Appends `v` in 16-bit hexadecimal.
pub fn push_hex16(out: &mut String, v: i16)
    ensures
        final(out)@ == old(out)@ + hex16(v),
{
    if v < 0 {
        push_digits(out, (v as i32 + 65536) as u128, 16);
    } else {
        push_digits(out, v as u128, 16);
    }
}

} // verus!
