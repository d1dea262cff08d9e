//! Integer literals and the integer types that they convert to.
use vstd::prelude::*;
use crate::snbt::read::convert::Error;
use crate::snbt::read::parse::SpannedInt;
use crate::snbt::read::tokenize::number::{IntBytes, IntType, IntView, DigitsView, Sign, Signedness, is_hex_digit};

verus! {

/// A literal too large for the type that it is read into.
#[derive(Debug, Clone, Copy, PartialEq, Eq, Structural)]
pub struct TooLargeError;

/// `bytes` without its underscores.
pub open spec fn strip(bytes: Seq<u8>) -> Seq<u8>
    decreases bytes.len(),
{
    if bytes.len() == 0 {
        seq![]
    } else if bytes.last() == 0x5f /* '_' */ {
        strip(bytes.drop_last())
    } else {
        strip(bytes.drop_last()).push(bytes.last())
    }
}

/// The value of a digit of base 2, 10 or 16.
pub open spec fn digit_value(b: u8) -> int {
    if 0x30 /* '0' */ <= b <= 0x39 /* '9' */ {
        b - 0x30 /* '0' */
    } else if 0x61 /* 'a' */ <= b <= 0x66 /* 'f' */ {
        b - 0x61 /* 'a' */ + 10
    } else if 0x41 /* 'A' */ <= b <= 0x46 /* 'F' */ {
        b - 0x41 /* 'A' */ + 10
    } else {
        0
    }
}

/// The value that a byte stands for as a digit of `base`: for base 16 its hexadecimal value,
/// otherwise its distance from `'0'` (so `'a'` stands for 49 in a denary literal).
pub open spec fn digit_in(b: u8, base: int) -> int {
    if base == 16 {
        digit_value(b)
    } else if b >= 0x30 /* '0' */ {
        b - 0x30 /* '0' */
    } else {
        0
    }
}

/// The number whose digits in `base`, most significant first, are `ds`.
pub open spec fn value_of(ds: Seq<u8>, base: int) -> int
    decreases ds.len(),
{
    if ds.len() == 0 {
        0
    } else {
        value_of(ds.drop_last(), base) * base + digit_in(ds.last(), base)
    }
}

/// The bits of binary digits: each digit's value shifted left by its place, counted from the
/// last digit and truncated to 128 bits, all combined by bitwise or; computed here from the
/// first digit on, shifting what came before by one place for each further digit.
pub open spec fn bin_bits(ds: Seq<u8>) -> u128
    decreases ds.len(),
{
    if ds.len() == 0 {
        0
    } else {
        ((bin_bits(ds.drop_last()) << 1u128) | (digit_in(ds.last(), 2) as u128)) as u128
    }
}

/// The digits can be read: in a hexadecimal literal each byte is a hexadecimal digit or an
/// underscore; in a denary or binary one each byte is an underscore or comes no earlier than
/// `'0'`.
pub open spec fn digits_valid(d: DigitsView) -> bool {
    match d {
        DigitsView::Denary(b) => forall|i: int| 0 <= i < b.len() ==> (b[i] == 0x5f /* '_' */ || #[trigger] b[i] >= 0x30 /* '0' */),
        DigitsView::Binary(b) => forall|i: int| 0 <= i < b.len() ==> (b[i] == 0x5f /* '_' */ || #[trigger] b[i] >= 0x30 /* '0' */),
        DigitsView::Hex(b) => forall|i: int| 0 <= i < b.len() ==> (b[i] == 0x5f /* '_' */ || is_hex_digit(#[trigger] b[i])),
    }
}

/// `v`, a number below `2^128`, as the bits of an `i128`.
pub open spec fn wrap_i128(v: int) -> int {
    if v > i128::MAX {
        v - 0x1_0000_0000_0000_0000_0000_0000_0000_0000
    } else {
        v
    }
}

/// The value of an integer literal's digits as an `i128`: a denary literal of at most 39
/// digits whose value fits; a binary literal of at most 128 digits, whose bits ([`bin_bits`])
/// are taken as those of an `i128`; a hexadecimal one of at most 32 digits, likewise.
pub open spec fn spec_to_i128(d: DigitsView) -> Option<int> {
    match d {
        DigitsView::Denary(b) => if strip(b).len() <= 39 && value_of(strip(b), 10) <= i128::MAX {
            Some(value_of(strip(b), 10))
        } else {
            None
        },
        DigitsView::Binary(b) => if strip(b).len() <= 128 {
            Some(wrap_i128(bin_bits(strip(b)) as int))
        } else {
            None
        },
        DigitsView::Hex(b) => if strip(b).len() <= 32 {
            Some(wrap_i128(value_of(strip(b), 16)))
        } else {
            None
        },
    }
}

pub proof fn lemma_strip_step(b: Seq<u8>, i: int)
    requires
        0 <= i < b.len(),
    ensures
        strip(b.subrange(0, i + 1)) == (if b[i] == 0x5f /* '_' */ {
            strip(b.subrange(0, i))
        } else {
            strip(b.subrange(0, i)).push(b[i])
        }),
{
    assert(b.subrange(0, i + 1).drop_last() =~= b.subrange(0, i));
}

/// Taking more of the bytes never makes the digits fewer nor, with a positive base, the value
/// smaller.
pub proof fn lemma_strip_monotone(b: Seq<u8>, i: int, j: int, base: int)
    requires
        0 <= i <= j <= b.len(),
        base >= 1,
    ensures
        strip(b.subrange(0, i)).len() <= strip(b.subrange(0, j)).len(),
        value_of(strip(b.subrange(0, i)), base) <= value_of(strip(b.subrange(0, j)), base),
    decreases j - i,
{
    if i < j {
        lemma_strip_monotone(b, i, j - 1, base);
        lemma_strip_step(b, j - 1);
        let s = strip(b.subrange(0, j - 1));
        lemma_value_nonneg(s, base);
        if b[j - 1] != 0x5f /* '_' */ {
            assert(s.push(b[j - 1]).drop_last() =~= s);
            assert(value_of(s, base) * base >= value_of(s, base)) by (nonlinear_arith)
                requires
                    value_of(s, base) >= 0,
                    base >= 1,
            ;
        }
    }
}

pub proof fn lemma_value_nonneg(s: Seq<u8>, base: int)
    requires
        base >= 1,
    ensures
        value_of(s, base) >= 0,
    decreases s.len(),
{
    if s.len() > 0 {
        lemma_value_nonneg(s.drop_last(), base);
        assert(value_of(s.drop_last(), base) * base >= 0) by (nonlinear_arith)
            requires
                value_of(s.drop_last(), base) >= 0,
                base >= 1,
        ;
    }
}

pub proof fn lemma_strip_digits(b: Seq<u8>)
    ensures
        forall|k: int| 0 <= k < strip(b).len() ==> #[trigger] strip(b)[k] != 0x5f /* '_' */ && exists|m: int| 0 <= m < b.len() && b[m] == strip(b)[k],
    decreases b.len(),
{
    if b.len() > 0 {
        lemma_strip_digits(b.drop_last());
        assert forall|k: int| 0 <= k < strip(b).len() implies #[trigger] strip(b)[k] != 0x5f /* '_' */ && exists|m: int| 0 <= m < b.len() && b[m] == strip(b)[k] by {
            if k < strip(b.drop_last()).len() {
                let m = choose|m: int| 0 <= m < b.drop_last().len() && b.drop_last()[m] == strip(b.drop_last())[k];
                assert(b[m] == strip(b)[k]);
            } else {
                assert(b[b.len() - 1] == strip(b)[k]);
            }
        }
    }
}

/// `base` raised to `n`.
pub open spec fn pw(base: int, n: nat) -> int
    decreases n,
{
    if n == 0 {
        1
    } else {
        base * pw(base, (n - 1) as nat)
    }
}

pub proof fn lemma_pw_add(base: int, m: nat, n: nat)
    ensures
        pw(base, m + n) == pw(base, m) * pw(base, n),
    decreases n,
{
    if n > 0 {
        lemma_pw_add(base, m, (n - 1) as nat);
        assert(pw(base, m + n) == base * pw(base, (m + n - 1) as nat));
        assert(base * (pw(base, m) * pw(base, (n - 1) as nat)) == pw(base, m) * (base * pw(base, (n - 1) as nat)))
            by (nonlinear_arith);
    }
}

pub proof fn lemma_pw_pos(base: int, n: nat)
    requires
        base >= 1,
    ensures
        pw(base, n) >= 1,
    decreases n,
{
    if n > 0 {
        lemma_pw_pos(base, (n - 1) as nat);
        assert(base * pw(base, (n - 1) as nat) >= 1) by (nonlinear_arith)
            requires
                base >= 1,
                pw(base, (n - 1) as nat) >= 1,
        ;
    }
}

pub proof fn lemma_pw_mono(base: int, a: nat, b: nat)
    requires
        base >= 1,
        a <= b,
    ensures
        1 <= pw(base, a) <= pw(base, b),
    decreases b,
{
    lemma_pw_pos(base, a);
    if b > a {
        lemma_pw_mono(base, a, (b - 1) as nat);
        assert(base * pw(base, (b - 1) as nat) >= pw(base, (b - 1) as nat)) by (nonlinear_arith)
            requires
                base >= 1,
                pw(base, (b - 1) as nat) >= 1,
        ;
    }
}

pub proof fn lemma_pw_constants()
    ensures
        pw(2, 128) == 0x1_0000_0000_0000_0000_0000_0000_0000_0000,
        pw(16, 32) == 0x1_0000_0000_0000_0000_0000_0000_0000_0000,
{
    reveal_with_fuel(pw, 9);
    assert(pw(2, 8) == 0x100);
    assert(pw(16, 2) == 0x100);
    lemma_pw_add(2, 8, 8);
    assert(pw(2, 16) == 0x1_0000);
    lemma_pw_add(2, 16, 16);
    assert(pw(2, 32) == 0x1_0000_0000);
    lemma_pw_add(2, 32, 32);
    assert(pw(2, 64) == 0x1_0000_0000_0000_0000);
    lemma_pw_add(2, 64, 64);
    lemma_pw_add(16, 2, 2);
    assert(pw(16, 4) == 0x1_0000);
    lemma_pw_add(16, 4, 4);
    assert(pw(16, 8) == 0x1_0000_0000);
    lemma_pw_add(16, 8, 8);
    assert(pw(16, 16) == 0x1_0000_0000_0000_0000);
    lemma_pw_add(16, 16, 16);
}

/// A number of `n` digits in `base` is below `base` raised to `n`.
pub proof fn lemma_value_bound(ds: Seq<u8>, base: int)
    requires
        base >= 1,
        forall|k: int| 0 <= k < ds.len() ==> 0 <= #[trigger] digit_in(ds[k], base) < base,
    ensures
        0 <= value_of(ds, base) < pw(base, ds.len()),
    decreases ds.len(),
{
    if ds.len() > 0 {
        let p = ds.drop_last();
        lemma_value_bound(p, base);
        let d = digit_in(ds.last(), base);
        assert(value_of(p, base) * base + d < pw(base, p.len()) * base) by (nonlinear_arith)
            requires
                0 <= value_of(p, base) < pw(base, p.len()),
                0 <= d < base,
        ;
        assert(value_of(p, base) * base >= 0) by (nonlinear_arith)
            requires
                0 <= value_of(p, base),
                base >= 1,
        ;
        assert(pw(base, p.len()) * base == pw(base, ds.len())) by (nonlinear_arith)
            requires
                pw(base, ds.len()) == base * pw(base, p.len()),
        ;
    }
}

/// The value of a digit byte.
fn digit_of(b: u8) -> (d: u8)
    requires
        is_hex_digit(b),
    ensures
        d as int == digit_value(b),
        d < 16,
{
    if 0x30 /* '0' */ <= b && b <= 0x39 /* '9' */ {
        b - 0x30 /* '0' */
    } else if 0x61 /* 'a' */ <= b && b <= 0x66 /* 'f' */ {
        b - 0x61 /* 'a' */ + 10
    } else {
        b - 0x41 /* 'A' */ + 10
    }
}

/// The base of the digits and their largest count.
pub open spec fn base_of(d: DigitsView) -> (int, int) {
    match d {
        DigitsView::Denary(_) => (10, 39),
        DigitsView::Binary(_) => (2, 128),
        DigitsView::Hex(_) => (16, 32),
    }
}

pub open spec fn bytes_of(d: DigitsView) -> Seq<u8> {
    match d {
        DigitsView::Denary(b) => b,
        DigitsView::Binary(b) => b,
        DigitsView::Hex(b) => b,
    }
}

/// Every digit of a readable hexadecimal literal is below sixteen.
pub proof fn lemma_valid_hex_digits(d: DigitsView, i: int)
    requires
        d is Hex,
        digits_valid(d),
        0 <= i <= bytes_of(d).len(),
    ensures
        forall|k: int| 0 <= k < strip(bytes_of(d).subrange(0, i)).len() ==> 0 <= #[trigger] digit_in(strip(bytes_of(d).subrange(0, i))[k], 16) < 16,
{
    let b = bytes_of(d).subrange(0, i);
    lemma_strip_digits(b);
    assert forall|k: int| 0 <= k < strip(b).len() implies 0 <= #[trigger] digit_in(strip(b)[k], 16) < 16 by {
        let m = choose|m: int| 0 <= m < b.len() && b[m] == strip(b)[k];
        assert(b[m] == bytes_of(d)[m]);
    }
}

/// Every non-underscore byte of a readable literal is a digit that [`digit_in`] reads.
pub proof fn lemma_readable_byte(d: DigitsView, i: int)
    requires
        digits_valid(d),
        0 <= i < bytes_of(d).len(),
        bytes_of(d)[i] != 0x5f,
    ensures
        d is Hex ==> is_hex_digit(bytes_of(d)[i]),
        !(d is Hex) ==> bytes_of(d)[i] >= 0x30,
{
}

/// The bits of binary digits, as [`bin_bits`] states them, as an `i128`.
fn binary_to_i128(bytes: &[u8]) -> (r: Result<i128, TooLargeError>)
    requires
        digits_valid(DigitsView::Binary(bytes@)),
    ensures
        match r {
            Ok(v) => spec_to_i128(DigitsView::Binary(bytes@)) == Some(v as int),
            Err(_) => spec_to_i128(DigitsView::Binary(bytes@)) is None,
        },
{
    proof {
        assert(bytes@.subrange(0, bytes@.len() as int) =~= bytes@);
        assert(bytes@.subrange(0, 0) =~= Seq::<u8>::empty());
        lemma_strip_monotone(bytes@, 0, bytes@.len() as int, 2);
    }
    let mut v: u128 = 0;
    let mut n: usize = 0;
    let mut i: usize = 0;
    while i < bytes.len()
        invariant
            digits_valid(DigitsView::Binary(bytes@)),
            i <= bytes.len(),
            n as int == strip(bytes@.subrange(0, i as int)).len(),
            v == bin_bits(strip(bytes@.subrange(0, i as int))),
            n <= 128,
        decreases bytes.len() - i,
    {
        let b = bytes[i];
        proof {
            lemma_strip_step(bytes@, i as int);
            lemma_strip_monotone(bytes@, i as int + 1, bytes@.len() as int, 2);
            assert(bytes@.subrange(0, bytes@.len() as int) =~= bytes@);
        }
        if b != 0x5f /* '_' */ {
            if n == 128 {
                return Err(TooLargeError);
            }
            n = n + 1;
            assert(b >= 0x30) by {
                lemma_readable_byte(DigitsView::Binary(bytes@), i as int);
            }
            let digit = (b - 0x30) as u128;
            let ghost s = strip(bytes@.subrange(0, i as int + 1));
            assert(s.drop_last() == strip(bytes@.subrange(0, i as int)));
            assert(s.last() == b);
            v = (v << 1u128) | digit;
        }
        i = i + 1;
    }
    if v <= 0x7fff_ffff_ffff_ffff_ffff_ffff_ffff_ffff {
        Ok(v as i128)
    } else {
        Ok((v - 0x8000_0000_0000_0000_0000_0000_0000_0000) as i128 + i128::MIN)
    }
}

impl<'src> IntBytes<'src> {
    /// The value of the digits as an `i128`, as [`spec_to_i128`] states it; the digits must
    /// be readable ([`digits_valid`]).
    pub fn to_i128(&self) -> (r: Result<i128, TooLargeError>)
        requires
            digits_valid(self@),
        ensures
            match r {
                Ok(v) => spec_to_i128(self@) == Some(v as int),
                Err(_) => spec_to_i128(self@) is None,
            },
    {
        let (bytes, base, limit): (&[u8], u128, usize) = match self {
            IntBytes::Denary(b) => (b, 10, 39),
            IntBytes::Binary(b) => {
                return binary_to_i128(b);
            },
            IntBytes::Hex(b) => (b, 16, 32),
        };
        let ghost d = self@;
        assert(bytes@ == bytes_of(d) && (base as int, limit as int) == base_of(d));
        proof {
            lemma_pw_constants();
            assert(bytes@.subrange(0, bytes@.len() as int) =~= bytes@);
            assert(bytes@.subrange(0, 0) =~= Seq::<u8>::empty());
            lemma_strip_monotone(bytes@, 0, bytes@.len() as int, base as int);
        }
        let mut v: u128 = 0;
        let mut n: usize = 0;
        let mut i: usize = 0;
        while i < bytes.len()
            invariant
                d == self@,
                !(d is Binary),
                bytes@ == bytes_of(d),
                (base as int, limit as int) == base_of(d),
                digits_valid(d),
                i <= bytes.len(),
                n as int == strip(bytes@.subrange(0, i as int)).len(),
                v as int == value_of(strip(bytes@.subrange(0, i as int)), base as int),
                n <= limit,
                pw(16, 32) == 0x1_0000_0000_0000_0000_0000_0000_0000_0000,
            decreases bytes.len() - i,
        {
            let b = bytes[i];
            proof {
                lemma_strip_step(bytes@, i as int);
                lemma_strip_monotone(bytes@, i as int + 1, bytes@.len() as int, base as int);
                assert(bytes@.subrange(0, bytes@.len() as int) =~= bytes@);
            }
            if b != 0x5f /* '_' */ {
                if n == limit {
                    return Err(TooLargeError);
                }
                n = n + 1;
                proof {
                    lemma_readable_byte(d, i as int);
                }
                let digit = if base == 16 {
                    digit_of(b) as u128
                } else {
                    (b - 0x30 /* '0' */) as u128
                };
                let ghost s = strip(bytes@.subrange(0, i as int + 1));
                assert(s.drop_last() == strip(bytes@.subrange(0, i as int)));
                assert(s.last() == b);
                assert(digit as int == digit_in(b, base as int));
                proof {
                    if base == 16 {
                        lemma_valid_hex_digits(d, i as int + 1);
                        lemma_value_bound(s, base as int);
                        lemma_pw_mono(base as int, s.len(), limit as nat);
                    }
                }
                match v.checked_mul(base) {
                    Some(x) => match x.checked_add(digit) {
                        Some(y) => {
                            v = y;
                        },
                        None => {
                            return Err(TooLargeError);
                        },
                    },
                    None => {
                        proof {
                            assert(v * base + digit >= v * base);
                        }
                        return Err(TooLargeError);
                    },
                }
            }
            i = i + 1;
        }
        if v <= 0x7fff_ffff_ffff_ffff_ffff_ffff_ffff_ffff {
            Ok(v as i128)
        } else if base == 10 {
            Err(TooLargeError)
        } else {
            Ok((v - 0x8000_0000_0000_0000_0000_0000_0000_0000) as i128 + i128::MIN)
        }
    }
}

/// Why an integer literal does not convert.
#[derive(Debug, Clone, Copy, PartialEq, Eq, Structural)]
pub enum IntErrorKind {
    /// Its type is wider than the one asked for.
    Downcast,
    TooLarge,
    /// It is negative and unsigned.
    Negative,
}

/// A literal of type `ty` may be read as `target`: `target` is no narrower.
pub open spec fn fits_type(ty: IntType, target: IntType) -> bool {
    match target {
        IntType::Int8 => ty == IntType::Int8,
        IntType::Int16 => ty == IntType::Int8 || ty == IntType::Int16,
        IntType::Int32 => ty != IntType::Int64,
        IntType::Int64 => true,
    }
}

/// The number of values of the unsigned integer type of width `t`.
pub open spec fn type_range(t: IntType) -> int {
    match t {
        IntType::Int8 => 0x100,
        IntType::Int16 => 0x1_0000,
        IntType::Int32 => 0x1_0000_0000,
        IntType::Int64 => 0x1_0000_0000_0000_0000,
    }
}

/// The value of an integer literal as an unsigned integer of width `target`; a signed
/// negative literal is stored in two's complement.  A literal whose digits cannot be read
/// (see [`digits_valid`]) is too large.
pub open spec fn spec_int_value(i: IntView, target: IntType) -> Result<int, IntErrorKind> {
    if !fits_type(i.ty, target) {
        Err(IntErrorKind::Downcast)
    } else if !digits_valid(i.digits) {
        Err(IntErrorKind::TooLarge)
    } else {
        match spec_to_i128(i.digits) {
            None => Err(IntErrorKind::TooLarge),
            Some(v) => {
                let m = type_range(target);
                if !(0 <= v < m) {
                    Err(IntErrorKind::TooLarge)
                } else {
                    match (i.signedness, i.sign) {
                        (Signedness::Signed, Sign::Positive) => if v < m / 2 {
                            Ok(v)
                        } else {
                            Err(IntErrorKind::TooLarge)
                        },
                        (Signedness::Signed, Sign::Negative) => if v <= m / 2 {
                            Ok(if v == 0 {
                                0
                            } else {
                                m - v
                            })
                        } else {
                            Err(IntErrorKind::TooLarge)
                        },
                        (Signedness::Unsigned, Sign::Positive) => Ok(v),
                        (Signedness::Unsigned, Sign::Negative) => Err(IntErrorKind::Negative),
                    }
                }
            },
        }
    }
}

/// Reading denary digits: no digits read as zero, an underscore changes nothing, and each
/// further digit `d` multiplies the value so far by ten and adds `d`, while the value fits an
/// `i128` and there are at most 39 digits.
pub proof fn law_denary_digits(b: Seq<u8>, d: u8)
    requires
        0x30 <= d <= 0x39,
    ensures
        spec_to_i128(DigitsView::Denary(Seq::empty())) == Some(0int),
        spec_to_i128(DigitsView::Denary(b.push(0x5f))) == spec_to_i128(DigitsView::Denary(b)),
        spec_to_i128(DigitsView::Denary(b)) is Some && strip(b).len() < 39
            && 10 * spec_to_i128(DigitsView::Denary(b)).unwrap() + (d - 0x30) <= i128::MAX
            ==> spec_to_i128(DigitsView::Denary(b.push(d))) == Some(10 * spec_to_i128(DigitsView::Denary(b)).unwrap() + (d - 0x30)),
        strip(b).len() >= 39 ==> spec_to_i128(DigitsView::Denary(b.push(d))) is None,
{
    assert(b.push(0x5f).drop_last() =~= b);
    assert(b.push(d).drop_last() =~= b);
    let s2 = strip(b).push(d);
    assert(s2.drop_last() =~= strip(b));
}

/// Reading hexadecimal digits: each further digit multiplies the value so far by sixteen and
/// adds the digit's value (`0`-`9` for themselves, `a`-`f` and `A`-`F` for ten to fifteen),
/// while there are at most 31 digits; an underscore changes nothing.
pub proof fn law_hex_digits(b: Seq<u8>, d: u8)
    requires
        digits_valid(DigitsView::Hex(b)),
        is_hex_digit(d),
    ensures
        spec_to_i128(DigitsView::Hex(b.push(0x5f))) == spec_to_i128(DigitsView::Hex(b)),
        spec_to_i128(DigitsView::Hex(b)) is Some && strip(b).len() < 31 ==> spec_to_i128(
            DigitsView::Hex(b.push(d)),
        ) == Some(16 * spec_to_i128(DigitsView::Hex(b)).unwrap() + if d <= 0x39 {
            d - 0x30
        } else if d <= 0x46 {
            d - 0x41 + 10
        } else {
            d - 0x61 + 10
        }),
{
    assert(b.push(0x5f).drop_last() =~= b);
    assert(b.push(d).drop_last() =~= b);
    let s2 = strip(b).push(d);
    assert(s2.drop_last() =~= strip(b));
    if strip(b).len() < 31 {
        let hb = DigitsView::Hex(b);
        lemma_valid_hex_digits(hb, b.len() as int);
        assert(b.subrange(0, b.len() as int) =~= b);
        lemma_value_bound(strip(b), 16);
        lemma_pw_constants();
        lemma_pw_mono(16, strip(b).len(), 30);
        lemma_pw_add(16, 30, 2);
        reveal_with_fuel(pw, 3);
        assert(pw(16, 2) == 256);
        let v = value_of(strip(b), 16);
        assert(16 * v + 15 < pw(16, 32) / 2) by (nonlinear_arith)
            requires
                0 <= v < pw(16, 30),
                pw(16, 32) == pw(16, 30) * 256,
        ;
    }
}

/// The number of bits of an integer type.
pub open spec fn width(t: IntType) -> int {
    match t {
        IntType::Int8 => 8,
        IntType::Int16 => 16,
        IntType::Int32 => 32,
        IntType::Int64 => 64,
    }
}

/// How an integer literal whose digits read as `v` converts into a type of `w` bits:
/// a literal of a wider type is refused; an unsigned literal takes every value below `2^w`,
/// and a negative unsigned one is refused; a signed positive literal takes the values below
/// `2^(w-1)`; a signed negative one takes the magnitudes up to `2^(w-1)`, stored in two's
/// complement as `2^w - v` (zero stays zero). Everything else is too large.
pub proof fn law_integer_conversion(i: IntView, target: IntType, v: int)
    requires
        digits_valid(i.digits),
        spec_to_i128(i.digits) == Some(v),
    ensures
        ({
            let m: int = if target == IntType::Int8 {
                0x100
            } else if target == IntType::Int16 {
                0x1_0000
            } else if target == IntType::Int32 {
                0x1_0000_0000
            } else {
                0x1_0000_0000_0000_0000
            };
            let r = spec_int_value(i, target);
            &&& width(i.ty) > width(target) ==> r == Err::<int, IntErrorKind>(IntErrorKind::Downcast)
            &&& width(i.ty) <= width(target) ==> r == (match (i.signedness, i.sign) {
                (Signedness::Unsigned, Sign::Positive) => if 0 <= v < m {
                    Ok(v)
                } else {
                    Err(IntErrorKind::TooLarge)
                },
                (Signedness::Unsigned, Sign::Negative) => if 0 <= v < m {
                    Err(IntErrorKind::Negative)
                } else {
                    Err(IntErrorKind::TooLarge)
                },
                (Signedness::Signed, Sign::Positive) => if 0 <= v < m / 2 {
                    Ok(v)
                } else {
                    Err(IntErrorKind::TooLarge)
                },
                (Signedness::Signed, Sign::Negative) => if 0 <= v <= m / 2 {
                    Ok(if v == 0 { 0 } else { m - v })
                } else {
                    Err(IntErrorKind::TooLarge)
                },
            })
        }),
{
}

/// The conversion error for `kind`.
pub open spec fn int_error<'src>(kind: IntErrorKind, integer: SpannedInt<'src>, result_type: IntType) -> Error<'src> {
    match kind {
        IntErrorKind::Downcast => Error::DowncastInvalid { integer, result_type },
        IntErrorKind::TooLarge => Error::IntegerTooLarge { integer, result_type },
        IntErrorKind::Negative => Error::NegativeUnsignedInteger { integer, result_type },
    }
}

fn check_digits(d: &IntBytes) -> (r: bool)
    ensures
        r == digits_valid(d@),
{
    let (bytes, base): (&[u8], u8) = match d {
        IntBytes::Denary(b) => (b, 10),
        IntBytes::Binary(b) => (b, 2),
        IntBytes::Hex(b) => (b, 16),
    };
    let mut i: usize = 0;
    while i < bytes.len()
        invariant
            i <= bytes.len(),
            bytes@ == bytes_of(d@),
            base as int == base_of(d@).0,
            forall|k: int| 0 <= k < i ==> #[trigger] valid_byte(d@, bytes@[k]),
        decreases bytes.len() - i,
    {
        let b = bytes[i];
        let ok = b == 0x5f /* '_' */ || if base != 16 {
            b >= 0x30 /* '0' */
        } else {
            (0x30 /* '0' */ <= b && b <= 0x39 /* '9' */) || (0x61 /* 'a' */ <= b && b <= 0x66 /* 'f' */) || (0x41 /* 'A' */ <= b && b <= 0x46 /* 'F' */)
        };
        if !ok {
            return false;
        }
        i = i + 1;
    }
    proof {
        assert forall|k: int| 0 <= k < bytes@.len() implies valid_byte(d@, #[trigger] bytes@[k]) by {}
        match d@ {
            DigitsView::Denary(b) => {
                assert forall|k: int| 0 <= k < b.len() implies (b[k] == 0x5f || #[trigger] b[k] >= 0x30) by {
                    assert(valid_byte(d@, bytes@[k]));
                }
            },
            DigitsView::Binary(b) => {
                assert forall|k: int| 0 <= k < b.len() implies (b[k] == 0x5f || #[trigger] b[k] >= 0x30) by {
                    assert(valid_byte(d@, bytes@[k]));
                }
            },
            DigitsView::Hex(b) => {
                assert forall|k: int| 0 <= k < b.len() implies (b[k] == 0x5f || is_hex_digit(#[trigger] b[k])) by {
                    assert(valid_byte(d@, bytes@[k]));
                }
            },
        }
    }
    true
}

/// `b` may stand in the digits `d`.
pub open spec fn valid_byte(d: DigitsView, b: u8) -> bool {
    match d {
        DigitsView::Denary(_) => b == 0x5f /* '_' */ || b >= 0x30 /* '0' */,
        DigitsView::Binary(_) => b == 0x5f /* '_' */ || b >= 0x30 /* '0' */,
        DigitsView::Hex(_) => b == 0x5f /* '_' */ || is_hex_digit(b),
    }
}

/// The value of `integer` as an unsigned integer of width `target`, as [`spec_int_value`]
/// states it.
pub fn int_value(integer: &SpannedInt, target: IntType) -> (r: Result<u64, IntErrorKind>)
    ensures
        match r {
            Ok(v) => spec_int_value(integer.integer@, target) == Ok::<int, IntErrorKind>(v as int),
            Err(k) => spec_int_value(integer.integer@, target) == Err::<int, IntErrorKind>(k),
        },
{
    let ty = integer.integer.ty;
    let fits = match target {
        IntType::Int8 => matches!(ty, IntType::Int8),
        IntType::Int16 => matches!(ty, IntType::Int8 | IntType::Int16),
        IntType::Int32 => !matches!(ty, IntType::Int64),
        IntType::Int64 => true,
    };
    if !fits {
        return Err(IntErrorKind::Downcast);
    }
    if !check_digits(&integer.integer.digits) {
        return Err(IntErrorKind::TooLarge);
    }
    let v = match integer.integer.digits.to_i128() {
        Ok(v) => v,
        Err(_) => {
            return Err(IntErrorKind::TooLarge);
        },
    };
    let m: i128 = match target {
        IntType::Int8 => 0x100,
        IntType::Int16 => 0x1_0000,
        IntType::Int32 => 0x1_0000_0000,
        IntType::Int64 => 0x1_0000_0000_0000_0000,
    };
    if v < 0 || v >= m {
        return Err(IntErrorKind::TooLarge);
    }
    let half = m / 2;
    match (integer.integer.signedness, integer.integer.sign) {
        (Signedness::Signed, Sign::Positive) => if v < half {
            Ok(v as u64)
        } else {
            Err(IntErrorKind::TooLarge)
        },
        (Signedness::Signed, Sign::Negative) => if v <= half {
            Ok(if v == 0 {
                0
            } else {
                (m - v) as u64
            })
        } else {
            Err(IntErrorKind::TooLarge)
        },
        (Signedness::Unsigned, Sign::Positive) => Ok(v as u64),
        (Signedness::Unsigned, Sign::Negative) => Err(IntErrorKind::Negative),
    }
}

impl<'src> TryFrom<SpannedInt<'src>> for u8 {
    type Error = Error<'src>;

    fn try_from(integer: SpannedInt<'src>) -> (r: Result<u8, Error<'src>>) {
        match int_value(&integer, IntType::Int8) {
            Ok(v) => Ok(v as u8),
            Err(k) => Err(make_int_error(k, integer, IntType::Int8)),
        }
    }
}

impl<'src> vstd::std_specs::convert::TryFromSpecImpl<SpannedInt<'src>> for u8 {
    open spec fn obeys_try_from_spec() -> bool {
        true
    }

    open spec fn try_from_spec(integer: SpannedInt<'src>) -> Result<u8, Error<'src>> {
        match spec_int_value(integer.integer@, IntType::Int8) {
            Ok(v) => Ok(v as u8),
            Err(k) => Err(int_error(k, integer, IntType::Int8)),
        }
    }
}

impl<'src> TryFrom<SpannedInt<'src>> for u16 {
    type Error = Error<'src>;

    fn try_from(integer: SpannedInt<'src>) -> (r: Result<u16, Error<'src>>) {
        match int_value(&integer, IntType::Int16) {
            Ok(v) => Ok(v as u16),
            Err(k) => Err(make_int_error(k, integer, IntType::Int16)),
        }
    }
}

impl<'src> vstd::std_specs::convert::TryFromSpecImpl<SpannedInt<'src>> for u16 {
    open spec fn obeys_try_from_spec() -> bool {
        true
    }

    open spec fn try_from_spec(integer: SpannedInt<'src>) -> Result<u16, Error<'src>> {
        match spec_int_value(integer.integer@, IntType::Int16) {
            Ok(v) => Ok(v as u16),
            Err(k) => Err(int_error(k, integer, IntType::Int16)),
        }
    }
}

impl<'src> TryFrom<SpannedInt<'src>> for u32 {
    type Error = Error<'src>;

    fn try_from(integer: SpannedInt<'src>) -> (r: Result<u32, Error<'src>>) {
        match int_value(&integer, IntType::Int32) {
            Ok(v) => Ok(v as u32),
            Err(k) => Err(make_int_error(k, integer, IntType::Int32)),
        }
    }
}

impl<'src> vstd::std_specs::convert::TryFromSpecImpl<SpannedInt<'src>> for u32 {
    open spec fn obeys_try_from_spec() -> bool {
        true
    }

    open spec fn try_from_spec(integer: SpannedInt<'src>) -> Result<u32, Error<'src>> {
        match spec_int_value(integer.integer@, IntType::Int32) {
            Ok(v) => Ok(v as u32),
            Err(k) => Err(int_error(k, integer, IntType::Int32)),
        }
    }
}

impl<'src> TryFrom<SpannedInt<'src>> for u64 {
    type Error = Error<'src>;

    fn try_from(integer: SpannedInt<'src>) -> (r: Result<u64, Error<'src>>) {
        match int_value(&integer, IntType::Int64) {
            Ok(v) => Ok(v),
            Err(k) => Err(make_int_error(k, integer, IntType::Int64)),
        }
    }
}

impl<'src> vstd::std_specs::convert::TryFromSpecImpl<SpannedInt<'src>> for u64 {
    open spec fn obeys_try_from_spec() -> bool {
        true
    }

    open spec fn try_from_spec(integer: SpannedInt<'src>) -> Result<u64, Error<'src>> {
        match spec_int_value(integer.integer@, IntType::Int64) {
            Ok(v) => Ok(v as u64),
            Err(k) => Err(int_error(k, integer, IntType::Int64)),
        }
    }
}

pub fn make_int_error<'src>(kind: IntErrorKind, integer: SpannedInt<'src>, result_type: IntType) -> (e: Error<'src>)
    ensures
        e == int_error(kind, integer, result_type),
{
    match kind {
        IntErrorKind::Downcast => Error::DowncastInvalid { integer, result_type },
        IntErrorKind::TooLarge => Error::IntegerTooLarge { integer, result_type },
        IntErrorKind::Negative => Error::NegativeUnsignedInteger { integer, result_type },
    }
}

} // verus!
