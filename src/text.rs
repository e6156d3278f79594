//! Fixed-width and decimal renderings of numbers and bytes, and the parsing
//! of hexadecimal numbers.

use vstd::prelude::*;
use crate::primitives::push_char;

verus! {

/// The upper-case hexadecimal digit for a value below 16.
pub open spec fn hex_digit(d: nat) -> char {
    if d < 10 {
        (d + 48) as char
    } else {
        (d + 55) as char
    }
}

/// The decimal digit for a value below 10.
pub open spec fn dec_digit(d: nat) -> char {
    (d + 48) as char
}

/// Two upper-case hexadecimal digits for each byte, most significant first.
pub open spec fn hex_upper(b: Seq<u8>) -> Seq<char>
    decreases b.len(),
{
    if b.len() == 0 {
        seq![]
    } else {
        hex_upper(b.drop_last()) + seq![hex_digit(b.last() as nat / 16), hex_digit(b.last() as nat % 16)]
    }
}

/// The last `n` hexadecimal digits of `v`, zeros in front.
pub open spec fn hex_fixed(v: nat, n: nat) -> Seq<char>
    decreases n,
{
    if n == 0 {
        seq![]
    } else {
        hex_fixed(v / 16, (n - 1) as nat).push(hex_digit(v % 16))
    }
}

/// The decimal digits of `v`, without leading zeros ("0" for zero).
pub open spec fn dec_string(v: nat) -> Seq<char>
    decreases v,
{
    if v < 10 {
        seq![dec_digit(v)]
    } else {
        dec_string(v / 10).push(dec_digit(v % 10))
    }
}

fn digit_char(d: u8) -> (c: char)
    requires
        d < 16,
    ensures
        c == hex_digit(d as nat),
{
    if d < 10 {
        (d + 48) as char
    } else {
        (d + 55) as char
    }
}

/// Appends two upper-case hexadecimal digits for each byte of `b`.
pub fn push_hex_bytes(s: &mut String, b: &[u8])
    ensures
        final(s)@ == old(s)@ + hex_upper(b@),
{
    let mut i: usize = 0;
    while i < b.len()
        invariant
            i <= b@.len(),
            s@ == old(s)@ + hex_upper(b@.subrange(0, i as int)),
        decreases b@.len() - i,
    {
        let byte = b[i];
        push_char(s, digit_char(byte / 16));
        push_char(s, digit_char(byte % 16));
        proof {
            let next = b@.subrange(0, i as int + 1);
            assert(next.drop_last() =~= b@.subrange(0, i as int));
            assert(next.last() == byte);
        }
        i = i + 1;
    }
    proof {
        assert(b@.subrange(0, b@.len() as int) =~= b@);
    }
}

/// Appends the last `n` hexadecimal digits of `v`.
pub fn push_hex_fixed(s: &mut String, v: u64, n: usize)
    ensures
        final(s)@ == old(s)@ + hex_fixed(v as nat, n as nat),
    decreases n,
{
    if n > 0 {
        push_hex_fixed(s, v / 16, n - 1);
        push_char(s, digit_char((v % 16) as u8));
        proof {
            assert(hex_fixed(v as nat, n as nat) == hex_fixed((v / 16) as nat, (n - 1) as nat).push(hex_digit((v % 16) as nat)));
        }
    } else {
        assert(old(s)@ + hex_fixed(v as nat, 0) =~= old(s)@);
    }
}

/// Appends the decimal digits of `v`.
pub fn push_decimal(s: &mut String, v: u128)
    ensures
        final(s)@ == old(s)@ + dec_string(v as nat),
    decreases v,
{
    if v < 10 {
        push_char(s, (v as u8 + 48) as char);
        assert(old(s)@.push(dec_digit(v as nat)) =~= old(s)@ + seq![dec_digit(v as nat)]);
    } else {
        push_decimal(s, v / 10);
        push_char(s, ((v % 10) as u8 + 48) as char);
        proof {
            assert(dec_string(v as nat) == dec_string((v / 10) as nat).push(dec_digit((v % 10) as nat)));
            assert(old(s)@ + dec_string((v / 10) as nat) + seq![dec_digit((v % 10) as nat)]
                =~= old(s)@ + dec_string((v / 10) as nat).push(dec_digit((v % 10) as nat)));
        }
    }
}


/// Why a number could not be read from text.
#[derive(Clone, Copy, Debug, PartialEq, Eq, Structural)]
pub enum IntParseError {
    /// The text is empty.
    Empty,
    /// A character is not a digit of the radix.
    InvalidDigit,
    /// The value does not fit the integer type.
    Overflow,
}

/// The value of a hexadecimal digit in either case, or -1.
pub open spec fn hex_value(c: char) -> int {
    if '0' <= c && c <= '9' {
        c as int - 48
    } else if 'a' <= c && c <= 'f' {
        c as int - 87
    } else if 'A' <= c && c <= 'F' {
        c as int - 55
    } else {
        -1
    }
}

/// Reads hexadecimal digits left to right onto `acc`, stopping at the first
/// character that is not a digit or at the first digit that takes the value
/// to `bound` or beyond.
pub open spec fn scan_hex(acc: nat, s: Seq<char>, bound: nat) -> Result<nat, IntParseError>
    decreases s.len(),
{
    if s.len() == 0 {
        Ok(acc)
    } else if hex_value(s[0]) < 0 {
        Err(IntParseError::InvalidDigit)
    } else if acc * 16 + hex_value(s[0]) >= bound {
        Err(IntParseError::Overflow)
    } else {
        scan_hex((acc * 16 + hex_value(s[0])) as nat, s.drop_first(), bound)
    }
}

/// An unsigned number below `bound` written in hexadecimal, with an optional
/// leading `+`.
pub open spec fn parse_hex(s: Seq<char>, bound: nat) -> Result<nat, IntParseError> {
    if s.len() == 0 {
        Err(IntParseError::Empty)
    } else if s[0] == '+' && s.len() == 1 {
        Err(IntParseError::InvalidDigit)
    } else if s[0] == '+' {
        scan_hex(0, s.drop_first(), bound)
    } else {
        scan_hex(0, s, bound)
    }
}

proof fn lemma_scan_hex_below(acc: nat, s: Seq<char>, bound: nat)
    requires
        acc < bound,
    ensures
        scan_hex(acc, s, bound) is Ok ==> scan_hex(acc, s, bound)->Ok_0 < bound,
    decreases s.len(),
{
    if s.len() > 0 && hex_value(s[0]) >= 0 && acc * 16 + hex_value(s[0]) < bound {
        lemma_scan_hex_below((acc * 16 + hex_value(s[0])) as nat, s.drop_first(), bound);
    }
}

fn char_hex_value(c: char) -> (r: Option<u8>)
    ensures
        r is Some <==> hex_value(c) >= 0,
        r is Some ==> r->Some_0 as int == hex_value(c),
{
    if '0' <= c && c <= '9' {
        Some((c as u32 - 48) as u8)
    } else if 'a' <= c && c <= 'f' {
        Some((c as u32 - 87) as u8)
    } else if 'A' <= c && c <= 'F' {
        Some((c as u32 - 55) as u8)
    } else {
        None
    }
}

/// Reads an unsigned hexadecimal number no larger than `max`.
pub fn parse_hex_bounded(s: &str, max: u128) -> (r: Result<u128, IntParseError>)
    ensures
        match parse_hex(s@, max as nat + 1) {
            Ok(v) => r == Ok::<u128, IntParseError>(v as u128),
            Err(e) => r == Err::<u128, IntParseError>(e),
        },
        r is Ok ==> r->Ok_0 <= max,
        parse_hex(s@, max as nat + 1) is Ok ==> parse_hex(s@, max as nat + 1)->Ok_0 <= max,
{
    proof {
        lemma_scan_hex_below(0, s@, max as nat + 1);
        if s@.len() > 0 {
            lemma_scan_hex_below(0, s@.drop_first(), max as nat + 1);
        }
    }
    let n = s.unicode_len();
    if n == 0 {
        return Err(IntParseError::Empty);
    }
    let mut i: usize = 0;
    if s.get_char(0) == '+' {
        if n == 1 {
            return Err(IntParseError::InvalidDigit);
        }
        i = 1;
    }
    let ghost start = i as int;
    proof {
        if start == 1 {
            assert(s@.subrange(start, n as int) =~= s@.drop_first());
        } else {
            assert(s@.subrange(start, n as int) =~= s@);
        }
    }
    let mut acc: u128 = 0;
    while i < n
        invariant
            start <= i <= n,
            n == s@.len(),
            acc <= max,
            parse_hex(s@, max as nat + 1) == scan_hex(acc as nat, s@.subrange(i as int, n as int), max as nat + 1),
        decreases n - i,
    {
        let c = s.get_char(i);
        let ghost tail = s@.subrange(i as int, n as int);
        assert(tail[0] == c);
        assert(tail.drop_first() =~= s@.subrange(i as int + 1, n as int));
        match char_hex_value(c) {
            None => {
                return Err(IntParseError::InvalidDigit);
            },
            Some(d) => {
                if d as u128 > max {
                    return Err(IntParseError::Overflow);
                }
                if acc > (max - d as u128) / 16 {
                    proof {
                        let q = (max - d as u128) as int / 16;
                        assert(acc as int >= q + 1);
                        assert(((max - d) as int) < 16 * (q + 1)) by (nonlinear_arith)
                            requires q == (max - d) as int / 16, (max - d) as int >= 0;
                        assert(acc as int * 16 >= 16 * (q + 1)) by (nonlinear_arith)
                            requires acc as int >= q + 1;
                    }
                    return Err(IntParseError::Overflow);
                }
                proof {
                    let q = (max - d as u128) as int / 16;
                    assert(acc as int * 16 <= 16 * q) by (nonlinear_arith)
                        requires acc as int <= q;
                    assert(16 * q <= (max - d) as int) by (nonlinear_arith)
                        requires q == (max - d) as int / 16, (max - d) as int >= 0;
                }
                acc = acc * 16 + d as u128;
                i = i + 1;
            },
        }
    }
    assert(s@.subrange(n as int, n as int).len() == 0);
    Ok(acc)
}

/// The value of a decimal digit, or -1.
pub open spec fn dec_value(c: char) -> int {
    if '0' <= c && c <= '9' {
        c as int - 48
    } else {
        -1
    }
}

/// Reads decimal digits left to right onto `acc`, stopping at the first
/// character that is not a digit or at the first digit that takes the value
/// to `bound` or beyond.
pub open spec fn scan_dec(acc: nat, s: Seq<char>, bound: nat) -> Result<nat, IntParseError>
    decreases s.len(),
{
    if s.len() == 0 {
        Ok(acc)
    } else if dec_value(s[0]) < 0 {
        Err(IntParseError::InvalidDigit)
    } else if acc * 10 + dec_value(s[0]) >= bound {
        Err(IntParseError::Overflow)
    } else {
        scan_dec((acc * 10 + dec_value(s[0])) as nat, s.drop_first(), bound)
    }
}

/// An unsigned number below `bound` written in decimal, with an optional
/// leading `+`.
pub open spec fn parse_dec(s: Seq<char>, bound: nat) -> Result<nat, IntParseError> {
    if s.len() == 0 {
        Err(IntParseError::Empty)
    } else if s[0] == '+' && s.len() == 1 {
        Err(IntParseError::InvalidDigit)
    } else if s[0] == '+' {
        scan_dec(0, s.drop_first(), bound)
    } else {
        scan_dec(0, s, bound)
    }
}

proof fn lemma_scan_dec_below(acc: nat, s: Seq<char>, bound: nat)
    requires
        acc < bound,
    ensures
        scan_dec(acc, s, bound) is Ok ==> scan_dec(acc, s, bound)->Ok_0 < bound,
    decreases s.len(),
{
    if s.len() > 0 && dec_value(s[0]) >= 0 && acc * 10 + dec_value(s[0]) < bound {
        lemma_scan_dec_below((acc * 10 + dec_value(s[0])) as nat, s.drop_first(), bound);
    }
}

fn char_dec_value(c: char) -> (r: Option<u8>)
    ensures
        r is Some <==> dec_value(c) >= 0,
        r is Some ==> r->Some_0 as int == dec_value(c),
{
    if '0' <= c && c <= '9' {
        Some((c as u32 - 48) as u8)
    } else {
        None
    }
}

/// Reads an unsigned decimal number no larger than `max`.
pub fn parse_dec_bounded(s: &str, max: u128) -> (r: Result<u128, IntParseError>)
    ensures
        match parse_dec(s@, max as nat + 1) {
            Ok(v) => r == Ok::<u128, IntParseError>(v as u128),
            Err(e) => r == Err::<u128, IntParseError>(e),
        },
        r is Ok ==> r->Ok_0 <= max,
        parse_dec(s@, max as nat + 1) is Ok ==> parse_dec(s@, max as nat + 1)->Ok_0 <= max,
{
    proof {
        lemma_scan_dec_below(0, s@, max as nat + 1);
        if s@.len() > 0 {
            lemma_scan_dec_below(0, s@.drop_first(), max as nat + 1);
        }
    }
    let n = s.unicode_len();
    if n == 0 {
        return Err(IntParseError::Empty);
    }
    let mut i: usize = 0;
    if s.get_char(0) == '+' {
        if n == 1 {
            return Err(IntParseError::InvalidDigit);
        }
        i = 1;
    }
    let ghost start = i as int;
    proof {
        if start == 1 {
            assert(s@.subrange(start, n as int) =~= s@.drop_first());
        } else {
            assert(s@.subrange(start, n as int) =~= s@);
        }
    }
    let mut acc: u128 = 0;
    while i < n
        invariant
            start <= i <= n,
            n == s@.len(),
            acc <= max,
            parse_dec(s@, max as nat + 1) == scan_dec(acc as nat, s@.subrange(i as int, n as int), max as nat + 1),
        decreases n - i,
    {
        let c = s.get_char(i);
        let ghost tail = s@.subrange(i as int, n as int);
        assert(tail[0] == c);
        assert(tail.drop_first() =~= s@.subrange(i as int + 1, n as int));
        match char_dec_value(c) {
            None => {
                return Err(IntParseError::InvalidDigit);
            },
            Some(d) => {
                if d as u128 > max {
                    return Err(IntParseError::Overflow);
                }
                if acc > (max - d as u128) / 10 {
                    proof {
                        let q = (max - d as u128) as int / 10;
                        assert(acc as int >= q + 1);
                        assert(((max - d) as int) < 10 * (q + 1)) by (nonlinear_arith)
                            requires q == (max - d) as int / 10, (max - d) as int >= 0;
                        assert(acc as int * 10 >= 10 * (q + 1)) by (nonlinear_arith)
                            requires acc as int >= q + 1;
                    }
                    return Err(IntParseError::Overflow);
                }
                proof {
                    let q = (max - d as u128) as int / 10;
                    assert(acc as int * 10 <= 10 * q) by (nonlinear_arith)
                        requires acc as int <= q;
                    assert(10 * q <= (max - d) as int) by (nonlinear_arith)
                        requires q == (max - d) as int / 10, (max - d) as int >= 0;
                }
                acc = acc * 10 + d as u128;
                i = i + 1;
            },
        }
    }
    assert(s@.subrange(n as int, n as int).len() == 0);
    Ok(acc)
}


/// Ten to the power `n`.
pub open spec fn pow10(n: nat) -> nat
    decreases n,
{
    if n == 0 {
        1
    } else {
        10 * pow10((n - 1) as nat)
    }
}

proof fn lemma_dec_string_len(v: nat)
    ensures
        dec_string(v).len() >= 1,
        v < pow10(dec_string(v).len()),
        pow10(dec_string(v).len()) >= 10,
    decreases v,
{
    if v >= 10 {
        lemma_dec_string_len(v / 10);
        let l = dec_string(v / 10).len();
        assert(dec_string(v).len() == l + 1);
        assert(pow10(l + 1) == 10 * pow10(l));
    } else {
        assert(pow10(1) == 10 * pow10(0));
    }
}

proof fn lemma_scan_dec_string(acc: nat, v: nat, rest: Seq<char>, bound: nat)
    requires
        acc * pow10(dec_string(v).len()) + v < bound,
    ensures
        scan_dec(acc, dec_string(v) + rest, bound) == scan_dec(acc * pow10(dec_string(v).len()) + v, rest, bound),
    decreases v,
{
    let d = v % 10;
    assert(dec_value(dec_digit(d)) == d);
    if v < 10 {
        assert(pow10(1) == 10 * pow10(0));
        let s = dec_string(v) + rest;
        assert(s[0] == dec_digit(v));
        assert(s.drop_first() =~= rest);
    } else {
        let l = dec_string(v / 10).len();
        lemma_dec_string_len(v / 10);
        assert(pow10(l + 1) == 10 * pow10(l));
        let q = v / 10;
        assert(acc * pow10(l) + q < bound) by (nonlinear_arith)
            requires
                acc * (10 * pow10(l)) + v < bound,
                q == v / 10,
                v >= 10,
        ;
        assert(dec_string(v) + rest =~= dec_string(q) + (seq![dec_digit(d)] + rest));
        lemma_scan_dec_string(acc, q, seq![dec_digit(d)] + rest, bound);
        let a = acc * pow10(l) + q;
        assert(a * 10 + d == acc * (10 * pow10(l)) + v) by (nonlinear_arith)
            requires a == acc * pow10(l) + q, q == v / 10, d == v % 10;
        let s = seq![dec_digit(d)] + rest;
        assert(s[0] == dec_digit(d));
        assert(s.drop_first() =~= rest);
    }
}

/// A number written by `push_decimal` reads back as the same number.
pub proof fn lemma_decimal_round_trip(v: nat, bound: nat)
    requires
        v < bound,
    ensures
        parse_dec(dec_string(v), bound) == Ok::<nat, IntParseError>(v),
{
    lemma_dec_string_len(v);
    let s = dec_string(v);
    assert(s[0] != '+') by {
        if v < 10 {
        } else {
            lemma_dec_first_digit(v);
        }
    }
    lemma_scan_dec_string(0, v, seq![], bound);
    assert(s + seq![] =~= s);
    assert(scan_dec(v, seq![], bound) == Ok::<nat, IntParseError>(v));
}

proof fn lemma_dec_first_digit(v: nat)
    ensures
        dec_value(dec_string(v)[0]) >= 0,
    decreases v,
{
    lemma_dec_string_len(v);
    if v >= 10 {
        lemma_dec_first_digit(v / 10);
        lemma_dec_string_len(v / 10);
        assert(dec_string(v)[0] == dec_string(v / 10)[0]);
    }
}


/// Sixteen to the power `n`.
pub open spec fn pow16(n: nat) -> nat
    decreases n,
{
    if n == 0 {
        1
    } else {
        16 * pow16((n - 1) as nat)
    }
}

proof fn lemma_hex_fixed_len(v: nat, n: nat)
    ensures
        hex_fixed(v, n).len() == n,
    decreases n,
{
    if n > 0 {
        lemma_hex_fixed_len(v / 16, (n - 1) as nat);
    }
}

proof fn lemma_scan_hex_fixed(acc: nat, v: nat, n: nat, rest: Seq<char>, bound: nat)
    requires
        v < pow16(n),
        acc * pow16(n) + v < bound,
    ensures
        scan_hex(acc, hex_fixed(v, n) + rest, bound) == scan_hex(acc * pow16(n) + v, rest, bound),
    decreases n,
{
    if n == 0 {
        assert(pow16(0) == 1);
        assert(v == 0);
        assert(acc * pow16(0) + v == acc) by (nonlinear_arith)
            requires pow16(0) == 1, v == 0;
        assert(hex_fixed(v, n) + rest =~= rest);
    } else {
        assert(pow16(n) == 16 * pow16((n - 1) as nat));
        let d = v % 16;
        let q = v / 16;
        assert(hex_value(hex_digit(d)) == d);
        assert(q < pow16((n - 1) as nat)) by (nonlinear_arith)
            requires v < 16 * pow16((n - 1) as nat), q == v / 16;
        assert(acc * pow16((n - 1) as nat) + q < bound) by (nonlinear_arith)
            requires acc * (16 * pow16((n - 1) as nat)) + v < bound, q == v / 16;
        lemma_hex_fixed_len(q, (n - 1) as nat);
        assert(hex_fixed(v, n) + rest =~= hex_fixed(q, (n - 1) as nat) + (seq![hex_digit(d)] + rest));
        lemma_scan_hex_fixed(acc, q, (n - 1) as nat, seq![hex_digit(d)] + rest, bound);
        let a = acc * pow16((n - 1) as nat) + q;
        assert(a * 16 + d == acc * (16 * pow16((n - 1) as nat)) + v) by (nonlinear_arith)
            requires a == acc * pow16((n - 1) as nat) + q, q == v / 16, d == v % 16;
        let s = seq![hex_digit(d)] + rest;
        assert(s[0] == hex_digit(d));
        assert(s.drop_first() =~= rest);
        assert(acc * pow16(n) == acc * (16 * pow16((n - 1) as nat)));
        assert(scan_hex(a, s, bound) == scan_hex(a * 16 + d, rest, bound));
    }
}

/// `n` hexadecimal digits as `push_hex_fixed` writes them read back as the
/// number, wherever it has at most `n` digits.
pub proof fn lemma_hex_fixed_round_trip(v: nat, n: nat, bound: nat)
    requires
        n >= 1,
        v < pow16(n),
        v < bound,
    ensures
        parse_hex(hex_fixed(v, n), bound) == Ok::<nat, IntParseError>(v),
{
    lemma_hex_fixed_len(v, n);
    lemma_scan_hex_fixed(0, v, n, seq![], bound);
    assert(hex_fixed(v, n) + seq![] =~= hex_fixed(v, n));
    let s = hex_fixed(v, n);
    assert(hex_value(s[0]) >= 0) by {
        lemma_hex_fixed_digits(v, n);
    }
}

proof fn lemma_hex_fixed_digits(v: nat, n: nat)
    ensures
        forall|i: int| 0 <= i < n ==> hex_value(#[trigger] hex_fixed(v, n)[i]) >= 0,
    decreases n,
{
    lemma_hex_fixed_len(v, n);
    if n > 0 {
        lemma_hex_fixed_digits(v / 16, (n - 1) as nat);
        lemma_hex_fixed_len(v / 16, (n - 1) as nat);
        assert(hex_value(hex_digit(v % 16)) == v % 16);
        assert forall|i: int| 0 <= i < n implies hex_value(#[trigger] hex_fixed(v, n)[i]) >= 0 by {
            if i < n - 1 {
                assert(hex_fixed(v, n)[i] == hex_fixed(v / 16, (n - 1) as nat)[i]);
            }
        }
    }
}

} // verus!
