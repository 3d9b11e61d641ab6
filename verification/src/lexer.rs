//! The lexer: calculator input to tokens.
//!
//! Numeric literals are built digit by digit into a fresh zero
//! accumulator — integer digits by multiply-and-add, fraction digits by
//! place-value accumulation — in any base from 2 to 36, selected by a
//! `0x`/`0d`/`0o`/`0b` prefix or a `radix#` prefix.  The token loop and
//! the digit loops poll the caller's cancellation object.

use vstd::prelude::*;

use crate::error::CalcError;
use crate::error::IntErr;
use crate::exact::Base;
use crate::exact::BaseV;
use crate::exact::CxV;
use crate::exact::ExactV;
use crate::exact::cx_mul;
use crate::exact::cx_of;
use crate::exact::cx_pow;
use crate::interrupt::Interrupt;
use crate::rational::all_digits_below;
use crate::rational::digits_val;
use crate::rational::pow_nat;
use crate::rational::Rat;
use crate::rational::rat_of_int;
use crate::unit::UnitValue;

verus! {

use vstd::std_specs::iter::IteratorSpec;
use vstd::string::StringExecFns;

/// A token of calculator input.
#[derive(Clone)]
pub enum Token {
    /// A numeric literal, already accumulated into a quantity.
    Num(UnitValue),
    /// An identifier.
    Ident(String),
    /// An operator or a parenthesis.
    Symbol(Symbol),
}

/// An operator or parenthesis token.
#[derive(PartialEq, Eq, Copy, Clone, Debug, Structural)]
pub enum Symbol {
    /// `(`
    OpenParens,
    /// `)`
    CloseParens,
    /// `+`
    Add,
    /// `-`
    Sub,
    /// `*`
    Mul,
    /// `/`, or the word `per`
    Div,
    /// `|`: division with higher precedence in some grammars.
    InnerDiv,
    /// `^` or `**`
    Pow,
    /// `->`, or the words `to` and `as`
    ArrowConversion,
    /// `!`
    Factorial,
}

impl Symbol {
    /// The text of the symbol.
    pub fn as_text(&self) -> (r: &'static str)
        ensures
            self is Add ==> r@ == "+"@,
            self is Sub ==> r@ == "-"@,
            self is Mul ==> r@ == "*"@,
            self is Div ==> r@ == "/"@,
            self is InnerDiv ==> r@ == "|"@,
            self is Pow ==> r@ == "^"@,
            self is OpenParens ==> r@ == "("@,
            self is CloseParens ==> r@ == ")"@,
            self is ArrowConversion ==> r@ == "->"@,
            self is Factorial ==> r@ == "!"@,
    {
        match self {
            Symbol::OpenParens => "(",
            Symbol::CloseParens => ")",
            Symbol::Add => "+",
            Symbol::Sub => "-",
            Symbol::Mul => "*",
            Symbol::Div => "/",
            Symbol::InnerDiv => "|",
            Symbol::Pow => "^",
            Symbol::ArrowConversion => "->",
            Symbol::Factorial => "!",
        }
    }
}

/// Relies on std's `char::is_alphabetic`: the result depends on the
/// character alone.
#[verifier::external_body]
fn alphabetic(c: char) -> (r: bool)
    ensures
        r == char_is_alphabetic(c),
{
    c.is_alphabetic()
}

/// What `char::is_alphabetic` returns.
pub uninterp spec fn char_is_alphabetic(c: char) -> bool;

/// Relies on std's `char::is_alphanumeric`: the result depends on the
/// character alone.
#[verifier::external_body]
fn alphanumeric(c: char) -> (r: bool)
    ensures
        r == char_is_alphanumeric(c),
{
    c.is_alphanumeric()
}

/// What `char::is_alphanumeric` returns.
pub uninterp spec fn char_is_alphanumeric(c: char) -> bool;

/// Relies on std's `char::is_whitespace`: the result depends on the
/// character alone.
#[verifier::external_body]
fn whitespace(c: char) -> (r: bool)
    ensures
        r == char_is_whitespace(c),
{
    c.is_whitespace()
}

/// What `char::is_whitespace` returns.
pub uninterp spec fn char_is_whitespace(c: char) -> bool;

/// The characters of the input, in order.
fn chars_of(s: &str) -> (r: Vec<char>)
    ensures
        r@ == s@,
{
    broadcast use vstd::string::axiom_spec_iter, vstd::string::next_postcondition;

    let mut it = s.chars();
    let mut out: Vec<char> = Vec::new();
    loop
        invariant
            it.obeys_prophetic_iter_laws(),
            out@ + it.remaining() == s@,
        decreases s@.len() - out@.len(),
    {
        match it.next() {
            Some(c) => {
                out.push(c);
                proof {
                    assert(out@ + it.remaining() =~= s@);
                }
            },
            None => {
                proof {
                    assert(out@ =~= s@);
                }
                return out;
            },
        }
    }
}

/// The digit value of a character: `0` to `9`, then `a` to `z` and
/// `A` to `Z` for ten to thirty-five; anything else is no digit.
pub open spec fn spec_char_digit(c: char) -> int {
    if 48 <= c as int <= 57 {
        c as int - 48
    } else if 97 <= c as int <= 122 {
        c as int - 87
    } else if 65 <= c as int <= 90 {
        c as int - 55
    } else {
        -1
    }
}

/// The digit value of a character, or `None` when the character is no
/// digit at all.
fn char_digit(c: char) -> (r: Option<u8>)
    ensures
        match r {
            Some(d) => d as int == spec_char_digit(c) && d < 36,
            None => spec_char_digit(c) == -1,
        },
{
    let v: u32 = c as u32;
    if v >= 48 && v <= 57 {
        Some((v - 48) as u8)
    } else if v >= 97 && v <= 122 {
        Some((v - 87) as u8)
    } else if v >= 65 && v <= 90 {
        Some((v - 55) as u8)
    } else {
        None
    }
}

/// Whether the character is valid only by itself as an identifier:
/// percent, per-mille, per-myriad, prime marks and quote marks.
pub open spec fn spec_symbol_ident_char(c: char) -> bool {
    ||| c as int == 0x25
    ||| c as int == 0x2030
    ||| c as int == 0x2031
    ||| c as int == 0x2032
    ||| c as int == 0x2033
    ||| c as int == 0x22
    ||| c as int == 0x27
    ||| c as int == 0x2019
    ||| c as int == 0x201d
}

/// Whether the character forms an identifier on its own: `%`, the
/// per-mille and per-myriad signs, prime marks and quote marks.
pub fn is_valid_in_ident_char(ch: char) -> (r: bool)
    ensures
        r == spec_symbol_ident_char(ch),
{
    let v: u32 = ch as u32;
    v == 0x25 || v == 0x2030 || v == 0x2031 || v == 0x2032 || v == 0x2033 || v == 0x22 || v == 0x27
        || v == 0x2019 || v == 0x201d
}

/// Whether the character may stand inside an ordinary identifier:
/// alphabetic characters, a set of currency and measurement signs,
/// vulgar fractions and degree-like marks, and — after the first
/// position — digits and the full stop.
pub open spec fn spec_ident_char(c: char, first: bool) -> bool {
    ||| char_is_alphabetic(c)
    ||| spec_ident_extra_char(c)
    ||| (!first && (c as int == 0x2e || (48 <= c as int <= 57)))
}

/// The non-alphabetic characters an identifier may contain.
pub open spec fn spec_ident_extra_char(c: char) -> bool {
    let v = c as int;
    ||| v == 0x24
    ||| v == 0x26
    ||| v == 0x2c
    ||| v == 0x5f
    ||| 0xa2 <= v <= 0xa3
    ||| v == 0xa5
    ||| v == 0xb0
    ||| 0xbc <= v <= 0xbe
    ||| v == 0xe3f
    ||| v == 0x20a1
    ||| 0x20a3 <= v <= 0x20a4
    ||| 0x20a6 <= v <= 0x20af
    ||| v == 0x20b1
    ||| v == 0x2103
    ||| 0x2108 <= v <= 0x2109
    ||| v == 0x2114
    ||| v == 0x2125
    ||| v == 0x2127
    ||| 0x2153 <= v <= 0x215e
    ||| 0x3371 <= v <= 0x3374
    ||| v == 0x3376
    ||| 0x3380 <= v <= 0x33c1
    ||| 0x33c3 <= v <= 0x33c6
    ||| 0x33c8 <= v <= 0x33ca
    ||| v == 0x33cc
    ||| 0x33cf <= v <= 0x33d0
    ||| 0x33d3 <= v <= 0x33d7
    ||| v == 0x33d9
    ||| 0x33db <= v <= 0x33dd
    ||| v == 0xfdfc
    ||| v == 0xfe69
    ||| 0xffe0 <= v <= 0xffe1
    ||| 0xffe5 <= v <= 0xffe6
}

/// Whether the character may stand inside an ordinary identifier,
/// under the normal identifier rules.
pub fn is_valid_in_ident(ch: char, first: bool) -> (r: bool)
    ensures
        r == spec_ident_char(ch, first),
{
    if alphabetic(ch) {
        return true;
    }
    let v: u32 = ch as u32;
    if v == 0x24 || v == 0x26 || v == 0x2c || v == 0x5f || (v >= 0xa2 && v <= 0xa3) || v == 0xa5
        || v == 0xb0 || (v >= 0xbc && v <= 0xbe) || v == 0xe3f || v == 0x20a1 || (v >= 0x20a3 && v
        <= 0x20a4) || (v >= 0x20a6 && v <= 0x20af) || v == 0x20b1 || v == 0x2103 || (v >= 0x2108
        && v <= 0x2109) || v == 0x2114 || v == 0x2125 || v == 0x2127 || (v >= 0x2153 && v
        <= 0x215e) || (v >= 0x3371 && v <= 0x3374) || v == 0x3376 || (v >= 0x3380 && v <= 0x33c1)
        || (v >= 0x33c3 && v <= 0x33c6) || (v >= 0x33c8 && v <= 0x33ca) || v == 0x33cc || (v
        >= 0x33cf && v <= 0x33d0) || (v >= 0x33d3 && v <= 0x33d7) || v == 0x33d9 || (v >= 0x33db
        && v <= 0x33dd) || v == 0xfdfc || v == 0xfe69 || (v >= 0xffe0 && v <= 0xffe1) || (v
        >= 0xffe5 && v <= 0xffe6) {
        return true;
    }
    !first && (v == 0x2e || (v >= 48 && v <= 57))
}

/// The next character of the input.
fn parse_char(input: &Vec<char>, pos: usize) -> (r: Result<(char, usize), CalcError>)
    ensures
        match r {
            Ok((c, p)) => pos < input@.len() && c == input@[pos as int] && p == pos + 1,
            Err(e) => e == CalcError::EndOfInput && pos >= input@.len(),
        },
{
    if pos < input.len() {
        Ok((input[pos], pos + 1))
    } else {
        Err(CalcError::EndOfInput)
    }
}

/// The next character as a digit of the given base.
fn parse_ascii_digit(input: &Vec<char>, pos: usize, base: Base) -> (r: Result<
    (u8, usize),
    CalcError,
>)
    requires
        base.wf(),
    ensures
        match r {
            Ok((d, p)) => pos < input@.len() && p == pos + 1 && d as int == spec_char_digit(
                input@[pos as int],
            ) && 0 <= (d as int) && (d as int) < base@.radix,
            Err(e) => (e == CalcError::EndOfInput && pos >= input@.len()) || (e
                == CalcError::ParseDigit && pos < input@.len() && !(0 <= spec_char_digit(
                input@[pos as int],
            ) < base@.radix)),
        },
        r is Ok <==> (pos < input@.len() && 0 <= spec_char_digit(input@[pos as int])
            < base@.radix),
{
    let (ch, p) = match parse_char(input, pos) {
        Ok(v) => v,
        Err(e) => {
            return Err(e);
        },
    };
    match char_digit(ch) {
        Some(d) => {
            if (d as u64) < base.base_as_u8() as u64 {
                Ok((d, p))
            } else {
                Err(CalcError::ParseDigit)
            }
        },
        None => Err(CalcError::ParseDigit),
    }
}

/// The next character, which must be the given one.
fn parse_fixed_char(input: &Vec<char>, pos: usize, ch: char) -> (r: Result<usize, CalcError>)
    ensures
        match r {
            Ok(p) => pos < input@.len() && input@[pos as int] == ch && p == pos + 1,
            Err(e) => (e == CalcError::EndOfInput && pos >= input@.len()) || (e
                == CalcError::UnexpectedChar && pos < input@.len() && input@[pos as int] != ch),
        },
        r is Ok <==> (pos < input@.len() && input@[pos as int] == ch),
{
    let (c, p) = match parse_char(input, pos) {
        Ok(v) => v,
        Err(e) => {
            return Err(e);
        },
    };
    if c == ch {
        Ok(p)
    } else {
        Err(CalcError::UnexpectedChar)
    }
}

/// The next character, which must be a digit separator: an underscore
/// or a comma.
fn parse_digit_separator(input: &Vec<char>, pos: usize) -> (r: Result<usize, CalcError>)
    ensures
        match r {
            Ok(p) => pos < input@.len() && (input@[pos as int] == '_' || input@[pos as int] == ',')
                && p == pos + 1,
            Err(_) => true,
        },
        r is Ok <==> (pos < input@.len() && (input@[pos as int] == '_' || input@[pos as int]
            == ',')),
{
    let (c, p) = match parse_char(input, pos) {
        Ok(v) => v,
        Err(e) => {
            return Err(e);
        },
    };
    if c == '_' || c == ',' {
        Ok(p)
    } else {
        Err(CalcError::DigitSeparator)
    }
}

/// Reads a plain integer, most significant digit first, accumulating
/// each digit into `res` by multiply-and-add.  Digit separators may be
/// allowed between digits; a leading zero is only allowed where the
/// base says so; and the loop polls the cancellation object once per
/// digit.
fn parse_integer_value<I: Interrupt>(
    input: &Vec<char>,
    pos: usize,
    allow_digit_separator: bool,
    allow_leading_zeroes: bool,
    base: Base,
    res: &mut UnitValue,
    intr: &I,
) -> (r: Result<usize, IntErr>)
    requires
        old(res).wf(),
        base.wf(),
    ensures
        (*final (res)).wf(),
        final (res)@.unit == old(res)@.unit,
        match r {
            Ok(p) => pos < p <= input@.len() && exists|ds: Seq<u64>|
                {
                    &&& ds.len() >= 1
                    &&& #[trigger] all_digits_below(ds, base@.radix)
                    &&& final (res)@.val == (crate::exact::ExactV {
                        re: Rat {
                            n: old(res)@.val.re.n * pow_nat(base@.radix, ds.len()) + digits_val(
                                ds,
                                base@.radix,
                            ) * old(res)@.val.re.d,
                            d: old(res)@.val.re.d,
                        },
                        im: old(res)@.val.im,
                        approx: old(res)@.val.approx,
                        base: old(res)@.val.base,
                        frac_places: old(res)@.val.frac_places,
                    })
                },
            Err(IntErr::Interrupted) => intr.requested(),
            Err(IntErr::Error(e)) => {
                &&& (e == CalcError::EndOfInput || e == CalcError::ParseDigit || e
                    == CalcError::DigitSeparator || e == CalcError::LeadingZeroes || e
                    == CalcError::NumericLimitExceeded)
                &&& (e == CalcError::EndOfInput ==> pos >= input@.len())
                &&& (e == CalcError::ParseDigit ==> pos < input@.len() && !(0 <= spec_char_digit(
                    input@[pos as int],
                ) && spec_char_digit(input@[pos as int]) < base@.radix))
                &&& (e == CalcError::LeadingZeroes ==> !allow_leading_zeroes && spec_char_digit(
                    input@[pos as int],
                ) == 0)
            },
        },
        intr.requested() ==> r == Err::<usize, IntErr>(IntErr::Interrupted),
        r matches Ok(p) ==> (p == input@.len() || (!(input@[p as int] == '_' || input@[p as int]
            == ',') && !(0 <= spec_char_digit(input@[p as int]) && spec_char_digit(
            input@[p as int],
        ) < base@.radix))),
{
    if intr.test() {
        return Err(IntErr::Interrupted);
    }
    let (digit, mut p) = match parse_ascii_digit(input, pos, base) {
        Ok(v) => v,
        Err(e) => {
            return Err(IntErr::Error(e));
        },
    };
    let leading_zero: bool = digit == 0;
    match res.add_digit_in_base(digit as u64, base) {
        Ok(()) => (),
        Err(e) => {
            return Err(IntErr::Error(e));
        },
    }
    let ghost first_val = res@.val;
    let ghost mut ds: Seq<u64> = seq![digit as u64];
    proof {
        assert(digits_val(ds, base@.radix) == digits_val(Seq::<u64>::empty(), base@.radix) * (
        base@.radix) + digit) by {
            assert(ds.drop_last() =~= Seq::<u64>::empty());
        }
        assert(0 * base@.radix == 0) by (nonlinear_arith);
        assert(pow_nat(base@.radix, 1) == base@.radix * pow_nat(base@.radix, 0));
        lemma_acc_shape(old(res)@.val.re, Seq::<u64>::empty(), digit as u64, base@.radix);
    }
    loop
        invariant
            res.wf(),
            base.wf(),
            res@.unit == old(res)@.unit,
            pos < p <= input@.len(),
            leading_zero == (spec_char_digit(input@[pos as int]) == 0),
            ds.len() >= 1,
            all_digits_below(ds, base@.radix),
            res@.val == (crate::exact::ExactV {
                re: Rat {
                    n: old(res)@.val.re.n * pow_nat(base@.radix, ds.len()) + digits_val(
                        ds,
                        base@.radix,
                    ) * old(res)@.val.re.d,
                    d: old(res)@.val.re.d,
                },
                im: old(res)@.val.im,
                approx: old(res)@.val.approx,
                base: old(res)@.val.base,
                frac_places: old(res)@.val.frac_places,
            }),
        decreases input@.len() - p,
    {
        if intr.test() {
            return Err(IntErr::Interrupted);
        }
        let mut parsed_digit_separator: bool = false;
        let mut q: usize = p;
        match parse_digit_separator(input, p) {
            Ok(p2) => {
                q = p2;
                parsed_digit_separator = true;
                if !allow_digit_separator {
                    return Err(IntErr::Error(CalcError::DigitSeparator));
                }
            },
            Err(_) => (),
        }
        match parse_ascii_digit(input, q, base) {
            Err(_) => {
                if parsed_digit_separator {
                    return Err(IntErr::Error(CalcError::DigitSeparator));
                }
                return Ok(p);
            },
            Ok((digit2, next)) => {
                if leading_zero && !allow_leading_zeroes {
                    return Err(IntErr::Error(CalcError::LeadingZeroes));
                }
                match res.add_digit_in_base(digit2 as u64, base) {
                    Ok(()) => (),
                    Err(e) => {
                        return Err(IntErr::Error(e));
                    },
                }
                proof {
                    lemma_acc_shape(old(res)@.val.re, ds, digit2 as u64, base@.radix);
                    ds = ds.push(digit2 as u64);
                }
                p = q;
                p = next;
            },
        }
    }
}

/// One multiply-and-add digit step, seen on the closed form of the
/// accumulated rational.
proof fn lemma_acc_shape(start: Rat, ds: Seq<u64>, digit: u64, rad: int)
    requires
        rad >= 2,
    ensures
        ({
            let cur = Rat {
                n: start.n * pow_nat(rad, ds.len()) + digits_val(ds, rad) * start.d,
                d: start.d,
            };
            let next = Rat {
                n: start.n * pow_nat(rad, ds.push(digit).len()) + digits_val(ds.push(digit), rad)
                    * start.d,
                d: start.d,
            };
            next == (Rat {
                n: (cur.n * rad) * 1 + (digit as int) * cur.d,
                d: cur.d * 1,
            })
        }),
{
    let p = pow_nat(rad, ds.len());
    crate::rational::lemma_digits_val_push(ds, digit, rad);
    assert(pow_nat(rad, ds.push(digit).len()) == rad * p);
    assert((start.n * p + digits_val(ds, rad) * start.d) * rad * 1 + (digit as int) * start.d
        == start.n * (rad * p) + (digits_val(ds, rad) * rad + digit) * start.d)
        by (nonlinear_arith);
}

/// The place-value accumulation of fraction digits onto a value.
pub open spec fn frac_acc(u: crate::exact::ExactV, ds: Seq<u64>, rad: int) -> crate::exact::ExactV
    decreases ds.len(),
{
    if ds.len() == 0 {
        u
    } else {
        let prev = frac_acc(u, ds.drop_last(), rad);
        crate::exact::ExactV {
            re: crate::rational::rat_add(
                prev.re,
                Rat { n: ds.last() as int, d: pow_nat(rad, (prev.frac_places + 1) as nat) },
            ),
            im: prev.im,
            approx: prev.approx,
            base: prev.base,
            frac_places: prev.frac_places + 1,
        }
    }
}

/// The value of a freshly accumulated integer mantissa: the digits
/// over denominator one, exact, tagged with the literal's base.
pub open spec fn int_mantissa(ds: Seq<u64>, b: BaseV) -> ExactV {
    ExactV {
        re: Rat { n: digits_val(ds, b.radix), d: 1 },
        im: rat_of_int(0),
        approx: false,
        base: b,
        frac_places: 0,
    }
}

/// The radix of a base, as a complex number.
pub open spec fn radix_cx(b: BaseV) -> CxV {
    CxV { re: rat_of_int(b.radix), im: rat_of_int(0) }
}

/// Reads digits after the decimal point, accumulating each into `res`
/// at the next fraction place.  The loop polls the cancellation object
/// once per digit.
fn parse_integer_fraction<I: Interrupt>(
    input: &Vec<char>,
    pos: usize,
    allow_digit_separator: bool,
    base: Base,
    res: &mut UnitValue,
    intr: &I,
) -> (r: Result<usize, IntErr>)
    requires
        old(res).wf(),
        base.wf(),
    ensures
        (*final (res)).wf(),
        final (res)@.unit == old(res)@.unit,
        match r {
            Ok(p) => pos < p <= input@.len() && exists|ds: Seq<u64>|
                {
                    &&& ds.len() >= 1
                    &&& #[trigger] all_digits_below(ds, base@.radix)
                    &&& final (res)@.val == frac_acc(old(res)@.val, ds, base@.radix)
                },
            Err(IntErr::Interrupted) => intr.requested(),
            Err(IntErr::Error(e)) => {
                &&& (e == CalcError::EndOfInput || e == CalcError::ParseDigit || e
                    == CalcError::DigitSeparator || e == CalcError::NumericLimitExceeded)
                &&& (e == CalcError::EndOfInput ==> pos >= input@.len())
                &&& (e == CalcError::ParseDigit ==> pos < input@.len() && !(0 <= spec_char_digit(
                    input@[pos as int],
                ) && spec_char_digit(input@[pos as int]) < base@.radix))
            },
        },
        intr.requested() ==> r == Err::<usize, IntErr>(IntErr::Interrupted),
        r matches Ok(p) ==> (p == input@.len() || (!(input@[p as int] == '_' || input@[p as int]
            == ',') && !(0 <= spec_char_digit(input@[p as int]) && spec_char_digit(
            input@[p as int],
        ) < base@.radix))),
{
    if intr.test() {
        return Err(IntErr::Interrupted);
    }
    let (digit, mut p) = match parse_ascii_digit(input, pos, base) {
        Ok(v) => v,
        Err(e) => {
            return Err(IntErr::Error(e));
        },
    };
    match res.add_fraction_digit_in_base(digit as u64, base) {
        Ok(()) => (),
        Err(e) => {
            return Err(IntErr::Error(e));
        },
    }
    let ghost mut ds: Seq<u64> = seq![digit as u64];
    proof {
        assert(ds.drop_last() =~= Seq::<u64>::empty());
        assert(frac_acc(old(res)@.val, Seq::<u64>::empty(), base@.radix) == old(res)@.val);
        assert(res@.val == frac_acc(old(res)@.val, ds, base@.radix));
    }
    loop
        invariant
            res.wf(),
            base.wf(),
            res@.unit == old(res)@.unit,
            pos < p <= input@.len(),
            ds.len() >= 1,
            all_digits_below(ds, base@.radix),
            res@.val == frac_acc(old(res)@.val, ds, base@.radix),
        decreases input@.len() - p,
    {
        if intr.test() {
            return Err(IntErr::Interrupted);
        }
        let mut parsed_digit_separator: bool = false;
        let mut q: usize = p;
        match parse_digit_separator(input, p) {
            Ok(p2) => {
                q = p2;
                parsed_digit_separator = true;
                if !allow_digit_separator {
                    return Err(IntErr::Error(CalcError::DigitSeparator));
                }
            },
            Err(_) => (),
        }
        match parse_ascii_digit(input, q, base) {
            Err(_) => {
                if parsed_digit_separator {
                    return Err(IntErr::Error(CalcError::DigitSeparator));
                }
                return Ok(p);
            },
            Ok((digit2, next)) => {
                match res.add_fraction_digit_in_base(digit2 as u64, base) {
                    Ok(()) => (),
                    Err(e) => {
                        return Err(IntErr::Error(e));
                    },
                }
                proof {
                    let ds2 = ds.push(digit2 as u64);
                    assert(ds2.drop_last() =~= ds);
                    ds = ds2;
                }
                p = next;
            },
        }
    }
}

/// Reads an optional base prefix: `0x`, `0d`, `0o`, `0b`, or
/// `radix#` for any radix from 2 to 36.
fn parse_base_prefix(input: &Vec<char>, pos: usize) -> (r: Result<(Base, usize), CalcError>)
    ensures
        match r {
            Ok((b, p)) => b.wf() && b@.prefixed && pos < p <= input@.len() && (input@[pos as int]
                == '0' ==> p == pos + 2 && (input@[pos + 1] == 'x' ==> b@.radix == 16) && (
            input@[pos + 1] == 'd' ==> b@.radix == 10) && (input@[pos + 1] == 'o' ==> b@.radix
                == 8) && (input@[pos + 1] == 'b' ==> b@.radix == 2)),
            Err(_) => true,
        },
        (pos + 1 < input@.len() && input@[pos as int] == '0' && (input@[pos + 1] == 'x'
            || input@[pos + 1] == 'd' || input@[pos + 1] == 'o' || input@[pos + 1] == 'b')) ==> r
            is Ok,
{
    if let Ok(p) = parse_fixed_char(input, pos, '0') {
        let (ch, p2) = match parse_char(input, p) {
            Ok(v) => v,
            Err(e) => {
                return Err(e);
            },
        };
        match Base::from_zero_based_prefix_char(ch) {
            Ok(b) => Ok((b, p2)),
            Err(e) => Err(e),
        }
    } else {
        // A custom base, written in decimal before a `#`.
        let ten = Base::default();
        let (first, mut p) = match parse_ascii_digit(input, pos, ten) {
            Ok(v) => v,
            Err(e) => {
                return Err(e);
            },
        };
        if first == 0 {
            return Err(CalcError::LeadingZeroes);
        }
        let mut custom_base: u8 = first;
        loop
            invariant
                ten.wf(),
                custom_base <= 36,
                pos < p <= input@.len(),
                input@[pos as int] != '0',
            decreases input@.len() - p,
        {
            match parse_ascii_digit(input, p, ten) {
                Err(_) => {
                    break ;
                },
                Ok((digit, next)) => {
                    if custom_base > 3 {
                        return Err(CalcError::BaseOutOfRange);
                    }
                    custom_base = 10 * custom_base + digit;
                    if custom_base > 36 {
                        return Err(CalcError::BaseOutOfRange);
                    }
                    p = next;
                },
            }
        }
        if custom_base < 2 {
            return Err(CalcError::BaseOutOfRange);
        }
        let p2 = match parse_fixed_char(input, p, '#') {
            Ok(v) => v,
            Err(e) => {
                return Err(e);
            },
        };
        match Base::from_custom_base(custom_base) {
            Ok(b) => Ok((b, p2)),
            Err(e) => Err(e),
        }
    }
}

/// Reads a number in the given base: an integer part, an optional
/// decimal point with fraction digits, and — in bases up to ten — an
/// optional exponent suffix.
fn parse_basic_number<I: Interrupt>(
    input: &Vec<char>,
    pos: usize,
    base: Base,
    allow_zero: bool,
    intr: &I,
) -> (r: Result<(UnitValue, usize), IntErr>)
    requires
        base.wf(),
    ensures
        match r {
            Ok((n, p)) => n.wf() && n@.unit.len() == 0 && pos < p <= input@.len() && exists|
                ds: Seq<u64>,
                fs: Seq<u64>,
            |
                #![trigger all_digits_below(ds, base@.radix), all_digits_below(fs, base@.radix)]
                {
                    &&& ds.len() >= 1
                    &&& all_digits_below(ds, base@.radix)
                    &&& all_digits_below(fs, base@.radix)
                    &&& (n@.val == frac_acc(int_mantissa(ds, base@), fs, base@.radix) || exists|
                        e: int,
                    |
                        cx_of(n@.val) == cx_mul(
                            cx_of(frac_acc(int_mantissa(ds, base@), fs, base@.radix)),
                            #[trigger] cx_pow(radix_cx(base@), e),
                        ))
                },
            Err(IntErr::Interrupted) => intr.requested(),
            Err(IntErr::Error(_)) => true,
        },
        intr.requested() ==> r == Err::<(UnitValue, usize), IntErr>(IntErr::Interrupted),
{
    let mut res = UnitValue::zero_with_base(base);
    let ghost zero_v = res@.val;
    let mut p = match parse_integer_value(
        input,
        pos,
        true,
        base.allow_leading_zeroes(),
        base,
        &mut res,
        intr,
    ) {
        Ok(p) => p,
        Err(e) => {
            return Err(e);
        },
    };
    let ghost ds0: Seq<u64> = choose|ds: Seq<u64>|
        ds.len() >= 1 && #[trigger] all_digits_below(ds, base@.radix) && res@.val == (ExactV {
            re: Rat {
                n: zero_v.re.n * pow_nat(base@.radix, ds.len()) + digits_val(ds, base@.radix)
                    * zero_v.re.d,
                d: zero_v.re.d,
            },
            im: zero_v.im,
            approx: zero_v.approx,
            base: zero_v.base,
            frac_places: zero_v.frac_places,
        });
    proof {
        assert(0 * pow_nat(base@.radix, ds0.len()) == 0 && digits_val(ds0, base@.radix) * 1
            == digits_val(ds0, base@.radix)) by (nonlinear_arith);
        assert(res@.val == int_mantissa(ds0, base@));
    }
    let ghost mut fs0: Seq<u64> = Seq::empty();
    // A decimal point followed by at least one digit.
    if let Ok(p2) = parse_fixed_char(input, p, '.') {
        let ghost before_frac = res@.val;
        match parse_integer_fraction(input, p2, true, base, &mut res, intr) {
            Ok(p3) => {
                p = p3;
            },
            Err(e) => {
                return Err(e);
            },
        }
        proof {
            fs0 = choose|fs: Seq<u64>|
                fs.len() >= 1 && #[trigger] all_digits_below(fs, base@.radix) && res@.val
                    == frac_acc(before_frac, fs, base@.radix);
        }
    }
    let ghost mant = frac_acc(int_mantissa(ds0, base@), fs0, base@.radix);
    proof {
        assert(res@.val == mant);
    }
    if !allow_zero && res.is_zero() {
        return Err(IntErr::Error(CalcError::UnexpectedChar));
    }
    // An exponent suffix, only in bases up to ten.
    if base.base_as_u8() <= 10 {
        if let Ok(p2) = parse_fixed_char(input, p, 'e') {
            // Peek ahead: an exponent only follows when the next
            // character could begin one.
            let continue_exponent: bool = match parse_char(input, p2) {
                Ok((ch, _)) => alphanumeric(ch) || ch == '+' || ch == '-',
                Err(_) => false,
            };
            if continue_exponent {
                let mut q = p2;
                let mut negative_exponent: bool = false;
                if let Ok(p3) = parse_fixed_char(input, q, '-') {
                    negative_exponent = true;
                    q = p3;
                } else if let Ok(p3) = parse_fixed_char(input, q, '+') {
                    q = p3;
                }
                let mut exp = UnitValue::zero_with_base(base);
                let ghost exp_zero = exp@.val;
                let p4 = match parse_integer_value(input, q, true, true, base, &mut exp, intr) {
                    Ok(v) => v,
                    Err(e) => {
                        return Err(e);
                    },
                };
                let ghost dse: Seq<u64> = choose|ds: Seq<u64>|
                    ds.len() >= 1 && #[trigger] all_digits_below(ds, base@.radix) && exp@.val
                        == (ExactV {
                        re: Rat {
                            n: exp_zero.re.n * pow_nat(base@.radix, ds.len()) + digits_val(
                                ds,
                                base@.radix,
                            ) * exp_zero.re.d,
                            d: exp_zero.re.d,
                        },
                        im: exp_zero.im,
                        approx: exp_zero.approx,
                        base: exp_zero.base,
                        frac_places: exp_zero.frac_places,
                    });
                proof {
                    assert(0 * pow_nat(base@.radix, dse.len()) == 0 && digits_val(
                        dse,
                        base@.radix,
                    ) * 1 == digits_val(dse, base@.radix)) by (nonlinear_arith);
                    assert(exp@.val.re == (Rat { n: digits_val(dse, base@.radix), d: 1 }));
                }
                let ghost k_exp: int = digits_val(dse, base@.radix);
                if negative_exponent {
                    exp = match exp.neg() {
                        Ok(v) => v,
                        Err(e) => {
                            return Err(IntErr::Error(e));
                        },
                    };
                    proof {
                        k_exp = -k_exp;
                        assert(exp@.val.re == (Rat { n: k_exp, d: 1 }));
                    }
                }
                let empty_components: Vec<crate::unit::UnitExponent<crate::unit::NamedUnit>> =
                    Vec::new();
                proof {
                    assert(crate::unit::comps_view(empty_components@) =~= Seq::<
                        crate::unit::UnitExpV<crate::unit::NamedUnitV>,
                    >::empty());
                }
                let base_as_number = UnitValue::new(base.base_as_u8() as i64, empty_components);
                proof {
                    assert(cx_of(base_as_number@.val) == radix_cx(base@));
                }
                let powed = match base_as_number.pow(exp, intr) {
                    Ok(v) => v,
                    Err(e) => {
                        return Err(e);
                    },
                };
                proof {
                    assert(k_exp * exp@.val.re.d == exp@.val.re.n) by (nonlinear_arith)
                        requires
                            exp@.val.re == (Rat { n: k_exp, d: 1 }),
                    ;
                    assert(cx_of(powed@.val) == cx_pow(radix_cx(base@), k_exp));
                }
                res = match res.mul(powed) {
                    Ok(v) => v,
                    Err(e) => {
                        return Err(IntErr::Error(e));
                    },
                };
                proof {
                    assert(cx_of(res@.val) == cx_mul(
                        cx_of(mant),
                        cx_pow(radix_cx(base@), k_exp),
                    ));
                }
                p = p4;
            }
        }
    }
    proof {
        assert(ds0.len() >= 1);
        assert(all_digits_below(ds0, base@.radix));
        assert(all_digits_below(fs0, base@.radix));
    }
    Ok((res, p))
}

/// Reads a number, with an optional base prefix ahead of its digits.
fn parse_number<I: Interrupt>(input: &Vec<char>, pos: usize, intr: &I) -> (r: Result<
    (UnitValue, usize),
    IntErr,
>)
    ensures
        match r {
            Ok((n, p)) => n.wf() && n@.unit.len() == 0 && pos < p <= input@.len(),
            Err(IntErr::Interrupted) => intr.requested(),
            Err(IntErr::Error(_)) => true,
        },
        intr.requested() ==> r == Err::<(UnitValue, usize), IntErr>(IntErr::Interrupted),
{
    match parse_base_prefix(input, pos) {
        Ok((base, p)) => parse_basic_number(input, p, base, true, intr),
        Err(_) => parse_basic_number(input, pos, Base::default(), true, intr),
    }
}

/// Reads an identifier: either a single stand-alone symbol character,
/// or a maximal run of identifier characters.  The words `to` and `as`
/// become the conversion arrow, and `per` becomes division.
fn parse_ident(input: &Vec<char>, pos: usize) -> (r: Result<(Token, usize), CalcError>)
    ensures
        match r {
            Ok((t, p)) => pos < p <= input@.len() && ({
                let sub = input@.subrange(pos as int, p as int);
                if spec_ident_char(input@[pos as int], true) {
                    &&& (forall|q: int|
                        pos <= q < p ==> spec_ident_char(#[trigger] input@[q], q == pos))
                    &&& (p == input@.len() || !spec_ident_char(input@[p as int], false))
                    &&& ((t is Symbol && t->Symbol_0 == Symbol::ArrowConversion) <==> (sub
                        == "to"@ || sub == "as"@))
                    &&& ((t is Symbol && t->Symbol_0 == Symbol::Div) <==> sub == "per"@)
                    &&& (t is Ident ==> t->Ident_0@ == sub)
                    &&& (t is Ident || t is Symbol)
                    &&& (t is Symbol ==> (t->Symbol_0 == Symbol::ArrowConversion || t->Symbol_0
                        == Symbol::Div))
                } else {
                    &&& spec_symbol_ident_char(input@[pos as int])
                    &&& p == pos + 1
                    &&& t is Ident
                    &&& t->Ident_0@ == sub
                }
            }),
            Err(e) => (e == CalcError::EndOfInput && pos >= input@.len()) || (e
                == CalcError::InvalidIdentChar && pos < input@.len() && !spec_ident_char(
                input@[pos as int],
                true,
            ) && !spec_symbol_ident_char(input@[pos as int])),
        },
{
    let (first_char, p1) = match parse_char(input, pos) {
        Ok(v) => v,
        Err(e) => {
            return Err(e);
        },
    };
    if !is_valid_in_ident(first_char, true) {
        if is_valid_in_ident_char(first_char) {
            let mut s = String::new();
            s.push(first_char);
            proof {
                assert(s@ =~= input@.subrange(pos as int, pos + 1));
            }
            return Ok((Token::Ident(s), p1));
        }
        return Err(CalcError::InvalidIdentChar);
    }
    let mut p = p1;
    let mut ident = String::new();
    ident.push(first_char);
    proof {
        assert(ident@ =~= input@.subrange(pos as int, p as int));
    }
    loop
        invariant
            pos < p <= input@.len(),
            ident@ == input@.subrange(pos as int, p as int),
            spec_ident_char(input@[pos as int], true),
            forall|q: int| pos <= q < p ==> spec_ident_char(#[trigger] input@[q], q == pos),
        ensures
            p == input@.len() || !spec_ident_char(input@[p as int], false),
        decreases input@.len() - p,
    {
        match parse_char(input, p) {
            Ok((next_char, p2)) => {
                if !is_valid_in_ident(next_char, false) {
                    break ;
                }
                ident.push(next_char);
                p = p2;
                proof {
                    assert(ident@ =~= input@.subrange(pos as int, p as int));
                }
            },
            Err(_) => {
                break ;
            },
        }
    }
    proof {
        reveal_strlit("to");
        reveal_strlit("as");
        reveal_strlit("per");
    }
    let token: Token = if ident == String::from_str("to") || ident == String::from_str("as") {
        Token::Symbol(Symbol::ArrowConversion)
    } else if ident == String::from_str("per") {
        Token::Symbol(Symbol::Div)
    } else {
        Token::Ident(ident)
    };
    Ok((token, p))
}

/// The symbol a single character lexes to, where one does.
pub open spec fn spec_symbol_char(c: char) -> Option<Symbol> {
    if c == '(' {
        Some(Symbol::OpenParens)
    } else if c == ')' {
        Some(Symbol::CloseParens)
    } else if c == '+' {
        Some(Symbol::Add)
    } else if c == '!' {
        Some(Symbol::Factorial)
    } else if c == '-' {
        Some(Symbol::Sub)
    } else if c == '*' {
        Some(Symbol::Mul)
    } else if c == '/' {
        Some(Symbol::Div)
    } else if c == '|' {
        Some(Symbol::InnerDiv)
    } else if c == '^' {
        Some(Symbol::Pow)
    } else {
        None
    }
}

/// How a character list from position `from` onward lexes into
/// tokens: whitespace yields no token; a run led by an ASCII digit
/// becomes one numeric token; an identifier run becomes an identifier
/// token or one of the word symbols; `->` and `**` take precedence
/// over `-` and `*`; any other symbol character maps to its symbol.
/// `cuts` lists, in order, the position after each numeric or
/// identifier token — the variable-length tokens.
pub open spec fn lexes(s: Seq<char>, from: int, toks: Seq<Token>, cuts: Seq<int>) -> bool
    decreases s.len() - from,
{
    if !(0 <= from && from < s.len()) {
        toks.len() == 0 && cuts.len() == 0
    } else if char_is_whitespace(s[from]) {
        lexes(s, from + 1, toks, cuts)
    } else if spec_char_digit(s[from]) >= 0 && !char_is_alphabetic(s[from]) {
        &&& toks.len() >= 1
        &&& cuts.len() >= 1
        &&& toks[0] is Num
        &&& from < cuts[0] <= s.len()
        &&& lexes(s, cuts[0], toks.drop_first(), cuts.drop_first())
    } else if spec_ident_char(s[from], true) || spec_symbol_ident_char(s[from]) {
        &&& toks.len() >= 1
        &&& cuts.len() >= 1
        &&& (toks[0] is Ident || toks[0] == Token::Symbol(Symbol::ArrowConversion) || toks[0]
            == Token::Symbol(Symbol::Div))
        &&& from < cuts[0] <= s.len()
        &&& lexes(s, cuts[0], toks.drop_first(), cuts.drop_first())
    } else if s[from] == '-' && from + 1 < s.len() && s[from + 1] == '>' {
        toks.len() >= 1 && toks[0] == Token::Symbol(Symbol::ArrowConversion) && lexes(
            s,
            from + 2,
            toks.drop_first(),
            cuts,
        )
    } else if s[from] == '*' && from + 1 < s.len() && s[from + 1] == '*' {
        toks.len() >= 1 && toks[0] == Token::Symbol(Symbol::Pow) && lexes(
            s,
            from + 2,
            toks.drop_first(),
            cuts,
        )
    } else if spec_symbol_char(s[from]) is Some {
        toks.len() >= 1 && toks[0] == Token::Symbol(spec_symbol_char(s[from])->0) && lexes(
            s,
            from + 1,
            toks.drop_first(),
            cuts,
        )
    } else {
        false
    }
}

/// Whether the input lexes into exactly these tokens, for some
/// placement of the variable-length token boundaries.
pub open spec fn lexes_to(s: Seq<char>, toks: Seq<Token>) -> bool {
    exists|cuts: Seq<int>| #[trigger] lexes(s, 0, toks, cuts)
}

/// Turns calculator input into tokens.  The token loop polls the
/// cancellation object once per token, and the digit loops poll it once
/// per digit; when a request is observed the lexer unwinds with the
/// distinguished interrupted outcome and the partial token list is
/// discarded.
pub fn lex<I: Interrupt>(input: &str, intr: &I) -> (r: Result<Vec<Token>, IntErr>)
    ensures
        match r {
            Ok(tokens) => input@.len() == 0 ==> tokens@.len() == 0,
            Err(IntErr::Interrupted) => intr.requested(),
            Err(IntErr::Error(_)) => true,
        },
        !intr.requested() ==> !(r == Err::<Vec<Token>, IntErr>(IntErr::Interrupted)),
        intr.requested() && input@.len() > 0 ==> r == Err::<Vec<Token>, IntErr>(
            IntErr::Interrupted,
        ),
        input@.len() == 0 ==> (r is Ok && r->Ok_0@.len() == 0),
        r matches Ok(toks) ==> lexes_to(input@, toks@),
{
    let chars = chars_of(input);
    let mut res: Vec<Token> = Vec::new();
    let mut pos: usize = 0;
    let ghost mut my_cuts: Seq<int> = Seq::empty();
    proof {
        assert forall|rest: Seq<Token>, cuts2: Seq<int>| #[trigger] lexes(
            chars@,
            0,
            rest,
            cuts2,
        ) implies lexes(chars@, 0, res@ + rest, my_cuts + cuts2) by {
            assert(res@ + rest =~= rest);
            assert(my_cuts + cuts2 =~= cuts2);
        }
    }
    while pos < chars.len()
        invariant
            chars@ == input@,
            pos <= chars@.len(),
            input@.len() == 0 ==> res@.len() == 0,
            intr.requested() ==> pos == 0,
            forall|rest: Seq<Token>, cuts2: Seq<int>| #[trigger] lexes(
                chars@,
                pos as int,
                rest,
                cuts2,
            ) ==> lexes(chars@, 0, res@ + rest, my_cuts + cuts2),
        decreases chars@.len() - pos,
    {
        if intr.test() {
            return Err(IntErr::Interrupted);
        }
        let ghost old_pos = pos as int;
        let ghost old_res = res@;
        let ch = chars[pos];
        if whitespace(ch) {
            pos = pos + 1;
            proof {
                assert forall|rest: Seq<Token>, cuts2: Seq<int>| #[trigger] lexes(
                    chars@,
                    pos as int,
                    rest,
                    cuts2,
                ) implies lexes(chars@, 0, res@ + rest, my_cuts + cuts2) by {
                    assert(lexes(chars@, old_pos, rest, cuts2));
                }
            }
        } else if char_digit(ch).is_some() && !alphabetic(ch) {
            let (num, p) = match parse_number(&chars, pos, intr) {
                Ok(v) => v,
                Err(e) => {
                    return Err(e);
                },
            };
            pos = p;
            res.push(Token::Num(num));
            proof {
                let t = Token::Num(num);
                let ghost old_cuts = my_cuts;
                my_cuts = my_cuts + seq![pos as int];
                assert forall|rest: Seq<Token>, cuts2: Seq<int>| #[trigger] lexes(
                    chars@,
                    pos as int,
                    rest,
                    cuts2,
                ) implies lexes(chars@, 0, res@ + rest, my_cuts + cuts2) by {
                    let toks2 = seq![t] + rest;
                    let cuts3 = seq![pos as int] + cuts2;
                    assert(toks2.drop_first() =~= rest);
                    assert(cuts3.drop_first() =~= cuts2);
                    assert(toks2[0] is Num);
                    assert(lexes(chars@, old_pos, toks2, cuts3));
                    assert(old_res + toks2 =~= res@ + rest);
                    assert(old_cuts + cuts3 =~= my_cuts + cuts2);
                    assert(lexes(chars@, 0, old_res + toks2, old_cuts + cuts3));
                }
            }
        } else if is_valid_in_ident(ch, true) || is_valid_in_ident_char(ch) {
            let (t, p) = match parse_ident(&chars, pos) {
                Ok(v) => v,
                Err(e) => {
                    return Err(IntErr::Error(e));
                },
            };
            pos = p;
            res.push(t);
            proof {
                let ghost old_cuts = my_cuts;
                my_cuts = my_cuts + seq![pos as int];
                assert forall|rest: Seq<Token>, cuts2: Seq<int>| #[trigger] lexes(
                    chars@,
                    pos as int,
                    rest,
                    cuts2,
                ) implies lexes(chars@, 0, res@ + rest, my_cuts + cuts2) by {
                    let toks2 = seq![t] + rest;
                    let cuts3 = seq![pos as int] + cuts2;
                    assert(toks2.drop_first() =~= rest);
                    assert(cuts3.drop_first() =~= cuts2);
                    assert(toks2[0] is Ident || toks2[0] == Token::Symbol(
                        Symbol::ArrowConversion,
                    ) || toks2[0] == Token::Symbol(Symbol::Div));
                    assert(lexes(chars@, old_pos, toks2, cuts3));
                    assert(old_res + toks2 =~= res@ + rest);
                    assert(old_cuts + cuts3 =~= my_cuts + cuts2);
                    assert(lexes(chars@, 0, old_res + toks2, old_cuts + cuts3));
                }
            }
        } else {
            let sym: Symbol = match ch {
                '(' => Symbol::OpenParens,
                ')' => Symbol::CloseParens,
                '+' => Symbol::Add,
                '!' => Symbol::Factorial,
                '-' => {
                    if pos + 1 < chars.len() && chars[pos + 1] == '>' {
                        pos = pos + 1;
                        Symbol::ArrowConversion
                    } else {
                        Symbol::Sub
                    }
                },
                '*' => {
                    if pos + 1 < chars.len() && chars[pos + 1] == '*' {
                        pos = pos + 1;
                        Symbol::Pow
                    } else {
                        Symbol::Mul
                    }
                },
                '/' => Symbol::Div,
                '|' => Symbol::InnerDiv,
                '^' => Symbol::Pow,
                _ => {
                    return Err(IntErr::Error(CalcError::UnexpectedChar));
                },
            };
            pos = pos + 1;
            res.push(Token::Symbol(sym));
            proof {
                let t = Token::Symbol(sym);
                assert forall|rest: Seq<Token>, cuts2: Seq<int>| #[trigger] lexes(
                    chars@,
                    pos as int,
                    rest,
                    cuts2,
                ) implies lexes(chars@, 0, res@ + rest, my_cuts + cuts2) by {
                    let toks2 = seq![t] + rest;
                    assert(toks2.drop_first() =~= rest);
                    assert(lexes(chars@, old_pos, toks2, cuts2));
                    assert(old_res + toks2 =~= res@ + rest);
                    assert(lexes(chars@, 0, old_res + toks2, my_cuts + cuts2));
                }
            }
        }
    }
    proof {
        assert(lexes(chars@, pos as int, Seq::<Token>::empty(), Seq::<int>::empty()));
        assert(res@ + Seq::<Token>::empty() =~= res@);
        assert(my_cuts + Seq::<int>::empty() =~= my_cuts);
        assert(lexes(chars@, 0, res@, my_cuts));
        assert(lexes(input@, 0, res@, my_cuts));
        assert(lexes_to(input@, res@));
    }
    Ok(res)
}

} // verus!
