//! Numbers as ASCII text: decimal for the values of a box, lowercase
//! hexadecimal for reply tags.

use vstd::prelude::*;

verus! {

/// The ASCII digit for `d`, which is below 16: `0`-`9`, then `a`-`f`.
pub open spec fn digit_char(d: int) -> u8 {
    if d < 10 {
        (0x30 + d) as u8
    } else {
        (0x61 + d - 10) as u8
    }
}

/// `n` written in the given radix, without leading zeros.
pub open spec fn number_text(radix: nat, n: nat) -> Seq<u8>
    recommends
        2 <= radix <= 16,
    decreases n,
{
    if n < radix || radix < 2 {
        seq![digit_char(n as int)]
    } else {
        proof {
            assert(n / radix < n) by (nonlinear_arith)
                requires
                    radix >= 2,
                    n >= radix,
            ;
        }
        number_text(radix, n / radix).push(digit_char((n % radix) as int))
    }
}

/// The value of a digit in the given radix; letters count in either case.
pub open spec fn digit_value(radix: nat, c: u8) -> Option<nat> {
    let d: int = if 0x30 <= c <= 0x39 {
        c - 0x30
    } else if 0x61 <= c <= 0x66 {
        c - 0x61 + 10
    } else if 0x41 <= c <= 0x46 {
        c - 0x41 + 10
    } else {
        16
    };
    if d < radix {
        Some(d as nat)
    } else {
        None
    }
}

/// The number that the digits spell, if all of them are digits of the radix.
pub open spec fn digits_value(radix: nat, s: Seq<u8>) -> Option<nat>
    decreases s.len(),
{
    if s.len() == 0 {
        Some(0)
    } else {
        match (digits_value(radix, s.drop_last()), digit_value(radix, s.last())) {
            (Some(high), Some(low)) => Some(high * radix + low),
            _ => None,
        }
    }
}

/// The number that at least one digit spells, if it is no more than `limit`.
pub open spec fn bounded_value(radix: nat, s: Seq<u8>, limit: nat) -> Option<nat> {
    if s.len() == 0 {
        None
    } else {
        match digits_value(radix, s) {
            Some(n) => if n <= limit {
                Some(n)
            } else {
                None
            },
            None => None,
        }
    }
}

/// What is left of a number's text behind a leading `+`.
pub open spec fn unsigned_digits(s: Seq<u8>) -> Seq<u8> {
    if s.len() > 0 && s[0] == 0x2b {
        s.skip(1)
    } else {
        s
    }
}

/// The number that a tag spells: an optional `+`, then at least one
/// hexadecimal digit, the whole within 64 bits.
pub open spec fn parse_hex(s: Seq<u8>) -> Option<u64> {
    match bounded_value(16, unsigned_digits(s), u64::MAX as nat) {
        Some(n) => Some(n as u64),
        None => None,
    }
}

/// The text of a reply tag.
pub open spec fn hex_text(n: nat) -> Seq<u8> {
    number_text(16, n)
}

/// The decimal text of a number.
pub open spec fn decimal_text(n: nat) -> Seq<u8> {
    number_text(10, n)
}

/// The decimal text of an integer: a minus sign before a negative one.
pub open spec fn integer_text(n: int) -> Seq<u8> {
    if n < 0 {
        seq![0x2du8] + decimal_text((-n) as nat)
    } else {
        decimal_text(n as nat)
    }
}

/// The integer that a decimal text spells: an optional sign, `-` only where
/// `signed`, then at least one digit; the whole between `lo` and `hi`.
pub open spec fn parse_integer(s: Seq<u8>, signed: bool, lo: int, hi: int) -> Option<int> {
    if signed && s.len() > 0 && s[0] == 0x2d {
        match digits_value(10, s.skip(1)) {
            Some(n) => if s.len() > 1 && lo <= -n <= hi {
                Some(-n)
            } else {
                None
            },
            None => None,
        }
    } else {
        match digits_value(10, unsigned_digits(s)) {
            Some(n) => if unsigned_digits(s).len() > 0 && lo <= n <= hi {
                Some(n as int)
            } else {
                None
            },
            None => None,
        }
    }
}

fn digit_of(d: u8) -> (c: u8)
    requires
        d < 16,
    ensures
        c == digit_char(d as int),
{
    if d < 10 {
        0x30 + d
    } else {
        0x61 + (d - 10)
    }
}

/// Appends the text of `n` in the given radix to `out`.
pub(crate) fn push_number(radix: u64, n: u64, out: &mut Vec<u8>)
    requires
        2 <= radix <= 16,
    ensures
        final(out)@ == old(out)@ + number_text(radix as nat, n as nat),
    decreases n,
{
    if n < radix {
        out.push(digit_of(n as u8));
        assert(out@ =~= old(out)@ + number_text(radix as nat, n as nat));
    } else {
        assert(n / radix < n) by (nonlinear_arith)
            requires
                radix >= 2,
                n >= radix,
        ;
        push_number(radix, n / radix, out);
        out.push(digit_of((n % radix) as u8));
        assert(out@ =~= old(out)@ + number_text(radix as nat, n as nat));
    }
}

/// The tag for `n`: lowercase hexadecimal.
pub fn format_tag(n: u64) -> (tag: Vec<u8>)
    ensures
        tag@ == hex_text(n as nat),
{
    let mut tag: Vec<u8> = Vec::new();
    push_number(16, n, &mut tag);
    assert(tag@ =~= hex_text(n as nat));
    tag
}

proof fn lemma_digits_grow(radix: nat, s: Seq<u8>, i: int)
    requires
        0 <= i <= s.len(),
        digits_value(radix, s) is Some,
    ensures
        digits_value(radix, s.take(i)) is Some,
        digits_value(radix, s.take(i))->0 <= digits_value(radix, s)->0,
    decreases s.len() - i,
{
    if i < s.len() {
        lemma_digits_grow(radix, s, i + 1);
        assert(s.take(i + 1).drop_last() =~= s.take(i));
        let high = digits_value(radix, s.take(i))->0;
        assert(digit_value(radix, s.take(i + 1).last()) is Some);
        assert(high <= high * radix) by (nonlinear_arith)
            requires
                radix >= 1,
        ;
    } else {
        assert(s.take(i) =~= s);
    }
}

proof fn lemma_digits_fail(radix: nat, s: Seq<u8>, i: int)
    requires
        0 <= i <= s.len(),
        digits_value(radix, s.take(i)) is None,
    ensures
        digits_value(radix, s) is None,
    decreases s.len() - i,
{
    if i < s.len() {
        assert(s.take(i + 1).drop_last() =~= s.take(i));
        lemma_digits_fail(radix, s, i + 1);
    } else {
        assert(s.take(i) =~= s);
    }
}

/// Reads digits of the given radix as a number of at most `limit`.
pub(crate) fn parse_digits(radix: u64, s: &[u8], limit: u64) -> (res: Option<u64>)
    requires
        2 <= radix <= 16,
    ensures
        (match res {
            Some(n) => Some(n as nat),
            None => None,
        }) == bounded_value(radix as nat, s@, limit as nat),
{
    if s.len() == 0 {
        return None;
    }
    let ghost r = radix as nat;
    let mut value: u64 = 0;
    let mut i: usize = 0;
    proof {
        assert(s@.take(0) =~= Seq::empty());
    }
    while i < s.len()
        invariant
            i <= s@.len(),
            s@.len() > 0,
            r == radix,
            2 <= radix <= 16,
            value <= limit,
            digits_value(r, s@.take(i as int)) == Some(value as nat),
        decreases s@.len() - i,
    {
        let c = s[i];
        let d: u64 = if 0x30 <= c && c <= 0x39 {
            (c - 0x30) as u64
        } else if 0x61 <= c && c <= 0x66 {
            (c - 0x61 + 10) as u64
        } else if 0x41 <= c && c <= 0x46 {
            (c - 0x41 + 10) as u64
        } else {
            16
        };
        proof {
            assert(s@.take(i + 1).drop_last() =~= s@.take(i as int));
            assert(s@.take(i + 1).last() == c);
        }
        if d >= radix {
            proof {
                assert(digit_value(r, c) is None);
                lemma_digits_fail(r, s@, i + 1);
            }
            return None;
        }
        assert(digit_value(r, c) == Some(d as nat));
        if d > limit || value > (limit - d) / radix {
            proof {
                assert(value as nat * r + d as nat > limit) by (nonlinear_arith)
                    requires
                        d > limit || value > (limit - d) / (radix as int),
                        r == radix,
                        2 <= radix <= 16,
                        0 <= d,
                        0 <= value,
                        0 <= limit,
                ;
                if digits_value(r, s@) is Some {
                    lemma_digits_grow(r, s@, i + 1);
                }
            }
            return None;
        }
        assert(value * radix + d <= limit) by (nonlinear_arith)
            requires
                d <= limit,
                value <= (limit - d) / (radix as int),
                2 <= radix <= 16,
                0 <= value,
        ;
        value = value * radix + d;
        i = i + 1;
    }
    proof {
        assert(s@.take(i as int) =~= s@);
    }
    Some(value)
}

/// Reads a tag as a 64-bit number.
pub fn parse_tag(tag: &[u8]) -> (res: Option<u64>)
    ensures
        res == parse_hex(tag@),
{
    let start: usize = if tag.len() > 0 && tag[0] == 0x2b {
        1
    } else {
        0
    };
    let digits = &tag[start..tag.len()];
    proof {
        assert(digits@ =~= unsigned_digits(tag@));
    }
    parse_digits(16, digits, u64::MAX)
}

/// Reads the decimal text of an unsigned integer of at most `hi`.
pub fn parse_unsigned(s: &[u8], hi: u64) -> (res: Option<u64>)
    ensures
        (match res {
            Some(n) => Some(n as int),
            None => None,
        }) == parse_integer(s@, false, 0, hi as int),
{
    let start: usize = if s.len() > 0 && s[0] == 0x2b {
        1
    } else {
        0
    };
    let digits = &s[start..s.len()];
    proof {
        assert(digits@ =~= unsigned_digits(s@));
    }
    parse_digits(10, digits, hi)
}

/// Reads the decimal text of a signed integer between `lo` and `hi`.
pub fn parse_signed(s: &[u8], lo: i64, hi: i64) -> (res: Option<i64>)
    ensures
        (match res {
            Some(n) => Some(n as int),
            None => None,
        }) == parse_integer(s@, true, lo as int, hi as int),
{
    if s.len() > 0 && s[0] == 0x2d {
        let digits = &s[1..s.len()];
        proof {
            assert(digits@ =~= s@.skip(1));
        }
        if lo > 0 {
            return None;
        }
        let magnitude: u64 = (-(lo as i128)) as u64;
        match parse_digits(10, digits, magnitude) {
            Some(n) => {
                let value: i64 = (-(n as i128)) as i64;
                if value <= hi {
                    Some(value)
                } else {
                    None
                }
            },
            None => None,
        }
    } else {
        if hi < 0 {
            return None;
        }
        match parse_unsigned(s, hi as u64) {
            Some(n) => if n as i64 >= lo {
                Some(n as i64)
            } else {
                None
            },
            None => None,
        }
    }
}

/// Appends the decimal text of `n` to `out`.
pub fn push_decimal(n: u64, out: &mut Vec<u8>)
    ensures
        final(out)@ == old(out)@ + decimal_text(n as nat),
{
    push_number(10, n, out);
}

/// Appends the decimal text of `n`, with its sign where it is negative, to
/// `out`.
pub fn push_integer(n: i64, out: &mut Vec<u8>)
    ensures
        final(out)@ == old(out)@ + integer_text(n as int),
{
    if n < 0 {
        out.push(0x2d);
        let magnitude: u64 = (-(n as i128)) as u64;
        push_number(10, magnitude, out);
        assert(out@ =~= old(out)@ + integer_text(n as int));
    } else {
        push_number(10, n as u64, out);
    }
}

proof fn lemma_number_digits(radix: nat, n: nat)
    requires
        2 <= radix <= 16,
    ensures
        number_text(radix, n).len() > 0,
        number_text(radix, n)[0] != 0x2b,
        number_text(radix, n)[0] != 0x2d,
        digits_value(radix, number_text(radix, n)) == Some(n),
    decreases n,
{
    let s = number_text(radix, n);
    if n < radix {
        assert(s.drop_last() =~= Seq::empty());
        assert(digits_value(radix, s.drop_last()) == Some(0nat));
        assert(digit_value(radix, digit_char(n as int)) == Some(n));
        assert(0 * radix + n == n) by (nonlinear_arith);
    } else {
        lemma_number_digits(radix, n / radix);
        assert(s.drop_last() =~= number_text(radix, n / radix));
        assert(s[0] == number_text(radix, n / radix)[0]);
        assert(digit_value(radix, digit_char((n % radix) as int)) == Some(n % radix));
        assert((n / radix) * radix + n % radix == n) by (nonlinear_arith)
            requires
                radix > 0,
        ;
    }
}

/// A tag reads back as the number that it was made from.
pub proof fn lemma_parse_format(n: u64)
    ensures
        parse_hex(hex_text(n as nat)) == Some(n),
{
    lemma_number_digits(16, n as nat);
}

/// Different numbers make different tags.
pub proof fn lemma_tags_differ(a: u64, b: u64)
    requires
        a != b,
    ensures
        hex_text(a as nat) != hex_text(b as nat),
{
    lemma_parse_format(a);
    lemma_parse_format(b);
}

/// The decimal text of an integer reads back as that integer, within any
/// bounds that hold it.
pub proof fn lemma_parse_integer_text(n: int, signed: bool, lo: int, hi: int)
    requires
        lo <= n <= hi,
        n < 0 ==> signed,
    ensures
        parse_integer(integer_text(n), signed, lo, hi) == Some(n),
{
    if n < 0 {
        let m = (-n) as nat;
        lemma_number_digits(10, m);
        let s = integer_text(n);
        assert(s.skip(1) =~= decimal_text(m));
    } else {
        lemma_number_digits(10, n as nat);
    }
}

} // verus!
