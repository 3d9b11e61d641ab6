use fend_core::Always;
use fend_core::Base;
use fend_core::BaseUnit;
use fend_core::CalcError;
use fend_core::ExactValue;
use fend_core::IntErr;
use fend_core::NamedUnit;
use fend_core::Never;
use fend_core::Symbol;
use fend_core::Token;
use fend_core::UnitExponent;
use fend_core::UnitValue;

#[test]
fn test_basic_kg() {
    let base_kg = BaseUnit::new("kilogram");
    let kg = NamedUnit::new("kg", "kg", true, vec![UnitExponent::new(base_kg, 1)], ExactValue::from_i64(1));
    let one_kg = UnitValue::new(1, vec![UnitExponent::new(kg.clone(), 1)]);
    let two_kg = UnitValue::new(2, vec![UnitExponent::new(kg.clone(), 1)]);
    let sum = one_kg.add(two_kg).unwrap();
    assert_eq!(sum.format(), "3 kg");
}

#[test]
fn test_basic_kg_and_g() {
    let base_kg = BaseUnit::new("kilogram");
    let kg = NamedUnit::new("kg", "kg", true, vec![UnitExponent::new(base_kg.clone(), 1)], ExactValue::from_i64(1));
    let g = NamedUnit::new(
        "g",
        "g",
        true,
        vec![UnitExponent::new(base_kg, 1)],
        ExactValue::from_i64(1).div(ExactValue::from_i64(1000)).unwrap(),
    );
    let one_kg = UnitValue::new(1, vec![UnitExponent::new(kg.clone(), 1)]);
    let twelve_g = UnitValue::new(12, vec![UnitExponent::new(g.clone(), 1)]);
    assert_eq!(one_kg.clone().add(twelve_g.clone()).unwrap().format(), "1.012 kg");
    assert_eq!(twelve_g.add(one_kg).unwrap().format(), "1012 g");
}

#[test]
fn test_builtin_kg_and_g() {
    let sum = UnitValue::kg().add(UnitValue::g()).unwrap();
    assert_eq!(sum.format(), "1.001 kg");
}

#[test]
fn test_digit_accumulation_base_10() {
    let mut v = UnitValue::zero_with_base(Base::default());
    v.add_digit_in_base(1, Base::default()).unwrap();
    v.add_digit_in_base(2, Base::default()).unwrap();
    v.add_digit_in_base(3, Base::default()).unwrap();
    assert_eq!(v.format(), "123");
    let diff = v.sub(UnitValue::new(123, vec![])).unwrap();
    assert_eq!(diff.format(), "0");
}

#[test]
fn test_digit_accumulation_base_16() {
    let hex = Base::from_zero_based_prefix_char('x').unwrap();
    let mut v = UnitValue::zero_with_base(hex);
    v.add_digit_in_base(1, hex).unwrap();
    v.add_digit_in_base(2, hex).unwrap();
    v.add_digit_in_base(3, hex).unwrap();
    assert_eq!(v.format(), "123");
    let diff = v.sub(UnitValue::new(291, vec![])).unwrap();
    assert_eq!(diff.format(), "0");
}

#[test]
fn test_bad_digit_rejected() {
    let mut v = UnitValue::zero_with_base(Base::default());
    assert_eq!(v.add_digit_in_base(10, Base::default()), Err(CalcError::ParseDigit));
}

#[test]
fn test_dimension_mismatch() {
    let base_m = BaseUnit::new("meter");
    let m = NamedUnit::new("m", "m", true, vec![UnitExponent::new(base_m, 1)], ExactValue::from_i64(1));
    let one_m = UnitValue::new(1, vec![UnitExponent::new(m, 1)]);
    let r = UnitValue::kg().add(one_m);
    assert!(matches!(r, Err(CalcError::DimensionMismatch)));
}

#[test]
fn test_division_by_zero() {
    let zero_kg = UnitValue::kg().sub(UnitValue::kg()).unwrap();
    let r = UnitValue::kg().div(zero_kg);
    assert!(matches!(r, Err(CalcError::DivisionByZero)));
    let r2 = UnitValue::new(5, vec![]).div(UnitValue::new(0, vec![]));
    assert!(matches!(r2, Err(CalcError::DivisionByZero)));
}

#[test]
fn test_pow_requires_unitless() {
    let two = UnitValue::new(2, vec![]);
    let r = UnitValue::kg().pow(two, &Never {});
    assert!(matches!(r, Err(IntErr::Error(CalcError::UnsupportedUnitOperation))));
    let two2 = UnitValue::new(2, vec![]);
    let r2 = two2.pow(UnitValue::kg(), &Never {});
    assert!(matches!(r2, Err(IntErr::Error(CalcError::UnsupportedUnitOperation))));
}

#[test]
fn test_root_requires_unitless() {
    let r = UnitValue::kg().root_n(&UnitValue::new(2, vec![]));
    assert!(matches!(r, Err(CalcError::UnsupportedUnitOperation)));
}

#[test]
fn test_pow_values() {
    let a = UnitValue::new(2, vec![]);
    let b = UnitValue::new(10, vec![]);
    assert_eq!(a.pow(b, &Never {}).unwrap().format(), "1024");
    let c = UnitValue::new(2, vec![]);
    let d = UnitValue::new(-1, vec![]);
    assert_eq!(c.pow(d, &Never {}).unwrap().format(), "0.5");
}

#[test]
fn test_root_values() {
    let four = UnitValue::new(4, vec![]);
    let two = UnitValue::new(2, vec![]);
    assert_eq!(four.root_n(&two).unwrap().format(), "2");
    let sqrt2 = UnitValue::new(2, vec![]).root_n(&UnitValue::new(2, vec![])).unwrap();
    assert_eq!(sqrt2.format(), "approx. 1.414");
}

#[test]
fn test_pow_interrupted() {
    let one = UnitValue::new(1, vec![]);
    let big = UnitValue::new(1000000, vec![]);
    let r = one.pow(big, &Always {});
    assert!(matches!(r, Err(IntErr::Interrupted)));
}

#[test]
fn test_division_exact_and_approximate_display() {
    let r = UnitValue::new(1, vec![]).div(UnitValue::new(8, vec![])).unwrap();
    assert_eq!(r.format(), "0.125");
    let t = UnitValue::new(1, vec![]).div(UnitValue::new(3, vec![])).unwrap();
    assert_eq!(t.format(), "approx. 0.3333333333");
}

#[test]
fn test_format_round_trip() {
    // A value with a terminating decimal expansion formats exactly and
    // feeding the rendered digits back through the lexer reproduces it.
    let v = UnitValue::new(1, vec![]).div(UnitValue::new(8, vec![])).unwrap();
    let text = v.format();
    assert_eq!(text, "0.125");
    let tokens = fend_core::lex(&text, &Never {}).unwrap();
    assert_eq!(tokens.len(), 1);
    match &tokens[0] {
        Token::Num(n) => {
            assert_eq!(n.format(), "0.125");
            let diff = n.clone().sub(v).unwrap();
            assert_eq!(diff.format(), "0");
        }
        _ => panic!("expected a number token"),
    }
}

#[test]
fn test_cancellation_reports_interrupted() {
    let r = fend_core::lex("123456789", &Always {});
    assert!(matches!(r, Err(IntErr::Interrupted)));
    let ok = fend_core::lex("123456789", &Never {});
    assert!(ok.is_ok());
}

#[test]
fn test_make_approximate_idempotent() {
    let v = UnitValue::new(2, vec![]).make_approximate();
    assert_eq!(v.format(), "approx. 2");
    let w = v.make_approximate();
    assert_eq!(w.format(), "approx. 2");
}

#[test]
fn test_approx_pi_and_i() {
    assert_eq!(UnitValue::approx_pi().format(), "approx. 3.1415926535");
    assert_eq!(UnitValue::i().format(), "i");
}

#[test]
fn test_negation_and_is_negative() {
    let v = UnitValue::new(5, vec![]).neg().unwrap();
    assert!(v.is_negative());
    assert_eq!(v.format(), "-5");
}

#[test]
fn test_mul_concatenates_units() {
    let prod = UnitValue::kg().mul(UnitValue::kg()).unwrap();
    assert_eq!(prod.format(), "1 kg kg");
}

#[test]
fn test_div_negates_exponents() {
    let quot = UnitValue::kg().div(UnitValue::g()).unwrap();
    assert_eq!(quot.format(), "1 kg g^-1");
}

#[test]
fn test_lex_expression() {
    let tokens = fend_core::lex("1 + 1", &Never {}).unwrap();
    assert_eq!(tokens.len(), 3);
    assert!(matches!(tokens[0], Token::Num(_)));
    assert!(matches!(tokens[1], Token::Symbol(Symbol::Add)));
    assert!(matches!(tokens[2], Token::Num(_)));
}

#[test]
fn test_lex_arrow_and_words() {
    let tokens = fend_core::lex("3 -> x per y", &Never {}).unwrap();
    assert_eq!(tokens.len(), 5);
    assert!(matches!(tokens[1], Token::Symbol(Symbol::ArrowConversion)));
    assert!(matches!(tokens[3], Token::Symbol(Symbol::Div)));
}

#[test]
fn test_lex_hex_literal() {
    let tokens = fend_core::lex("0x1f", &Never {}).unwrap();
    assert_eq!(tokens.len(), 1);
    match &tokens[0] {
        Token::Num(n) => {
            let diff = n.clone().sub(UnitValue::new(31, vec![])).unwrap();
            assert_eq!(diff.format(), "0");
        }
        _ => panic!("expected a number token"),
    }
}

#[test]
fn test_lex_unexpected_char() {
    let r = fend_core::lex("#", &Never {});
    assert!(matches!(r, Err(IntErr::Error(CalcError::InvalidIdentChar | CalcError::UnexpectedChar))));
}

#[test]
fn test_ident_chars() {
    assert!(fend_core::is_valid_in_ident_char('%'));
    assert!(!fend_core::is_valid_in_ident_char('a'));
    assert!(fend_core::is_valid_in_ident('a', true));
    assert!(fend_core::is_valid_in_ident('0', false));
    assert!(!fend_core::is_valid_in_ident('0', true));
}

#[test]
fn test_error_messages() {
    assert_eq!(CalcError::DimensionMismatch.message(), "Units are incompatible");
    assert_eq!(CalcError::DivisionByZero.message(), "Attempt to divide by zero");
}

#[test]
fn test_base_constructors() {
    assert!(matches!(Base::from_custom_base(1), Err(CalcError::BaseOutOfRange)));
    assert!(matches!(Base::from_custom_base(37), Err(CalcError::BaseOutOfRange)));
    assert_eq!(Base::from_custom_base(8).unwrap().base_as_u8(), 8);
    assert!(matches!(Base::from_zero_based_prefix_char('q'), Err(CalcError::InvalidBasePrefix)));
}

#[test]
fn test_versions() {
    assert_eq!(fend_core::get_version(), "0.1.4");
    assert_eq!(fend_core::get_extended_version(), "0.1.4 (2020-09-15)");
}

#[test]
fn test_numeric_commutativity_of_add() {
    // 1 kg + 12 g and 12 g + 1 kg denote the same quantity even though
    // they display in different units.
    let a = UnitValue::kg().add(UnitValue::g()).unwrap();
    let b = UnitValue::g().add(UnitValue::kg()).unwrap();
    assert_eq!(a.format(), "1.001 kg");
    assert_eq!(b.format(), "1001 g");
    let diff = a.sub(b).unwrap();
    assert_eq!(diff.format(), "0 kg");
}

#[test]
fn test_is_zero() {
    assert!(UnitValue::new(0, vec![]).is_zero());
    assert!(!UnitValue::new(3, vec![]).is_zero());
    assert!(!UnitValue::i().is_zero());
}

#[test]
fn test_more_error_messages() {
    assert_eq!(CalcError::ParseDigit.message(), "Expected a digit for the active base");
    assert_eq!(
        CalcError::UnsupportedUnitOperation.message(),
        "This operation is currently only supported for unitless numbers"
    );
    assert_eq!(CalcError::BaseOutOfRange.message(), "Base must be between 2 and 36");
    assert_eq!(CalcError::LeadingZeroes.message(), "Integer literals cannot have leading zeroes");
}

#[test]
fn test_negative_scale_unit() {
    // A named unit whose scale is negative is admitted; conversion
    // flips the sign of the factor.
    let base = BaseUnit::new("charge");
    let neg = NamedUnit::new(
        "neg",
        "neg",
        true,
        vec![UnitExponent::new(base.clone(), 1)],
        ExactValue::from_i64(-1),
    );
    let pos = NamedUnit::new(
        "pos",
        "pos",
        true,
        vec![UnitExponent::new(base, 1)],
        ExactValue::from_i64(1),
    );
    let a = UnitValue::new(2, vec![UnitExponent::new(neg, 1)]);
    let b = UnitValue::new(3, vec![UnitExponent::new(pos, 1)]);
    // 2 neg + 3 pos = 2 + 3*(1/-1) = -1, displayed in neg.
    assert_eq!(a.add(b).unwrap().format(), "-1 neg");
}

#[test]
fn test_exact_root_not_marked_approximate() {
    let twentyseven = UnitValue::new(27, vec![]);
    let three = UnitValue::new(3, vec![]);
    assert_eq!(twentyseven.root_n(&three).unwrap().format(), "3");
}

#[test]
fn test_lex_empty_input() {
    let tokens = fend_core::lex("", &Never {}).unwrap();
    assert_eq!(tokens.len(), 0);
    let still_ok = fend_core::lex("", &Always {}).unwrap();
    assert_eq!(still_ok.len(), 0);
}

#[test]
fn test_lex_two_char_symbols_take_precedence() {
    let tokens = fend_core::lex("->", &Never {}).unwrap();
    assert_eq!(tokens.len(), 1);
    assert!(matches!(tokens[0], Token::Symbol(Symbol::ArrowConversion)));
    let tokens2 = fend_core::lex("**", &Never {}).unwrap();
    assert_eq!(tokens2.len(), 1);
    assert!(matches!(tokens2[0], Token::Symbol(Symbol::Pow)));
    let tokens3 = fend_core::lex("- *", &Never {}).unwrap();
    assert_eq!(tokens3.len(), 2);
    assert!(matches!(tokens3[0], Token::Symbol(Symbol::Sub)));
    assert!(matches!(tokens3[1], Token::Symbol(Symbol::Mul)));
}

#[test]
fn test_lex_keywords_and_idents() {
    let tokens = fend_core::lex("to", &Never {}).unwrap();
    assert_eq!(tokens.len(), 1);
    assert!(matches!(tokens[0], Token::Symbol(Symbol::ArrowConversion)));
    let tokens2 = fend_core::lex("tonne", &Never {}).unwrap();
    assert_eq!(tokens2.len(), 1);
    match &tokens2[0] {
        Token::Ident(s) => assert_eq!(s, "tonne"),
        _ => panic!("expected an identifier token"),
    }
    let tokens3 = fend_core::lex("%", &Never {}).unwrap();
    assert_eq!(tokens3.len(), 1);
    match &tokens3[0] {
        Token::Ident(s) => assert_eq!(s, "%"),
        _ => panic!("expected an identifier token"),
    }
}

#[test]
fn test_lex_fraction_and_exponent_values() {
    let tokens = fend_core::lex("1.5", &Never {}).unwrap();
    assert_eq!(tokens.len(), 1);
    match &tokens[0] {
        Token::Num(n) => {
            let diff = n.clone().mul(UnitValue::new(2, vec![])).unwrap().sub(UnitValue::new(
                3,
                vec![],
            )).unwrap();
            assert_eq!(diff.format(), "0");
        }
        _ => panic!("expected a number token"),
    }
    let tokens2 = fend_core::lex("2e3", &Never {}).unwrap();
    assert_eq!(tokens2.len(), 1);
    match &tokens2[0] {
        Token::Num(n) => {
            let diff = n.clone().sub(UnitValue::new(2000, vec![])).unwrap();
            assert_eq!(diff.format(), "0");
        }
        _ => panic!("expected a number token"),
    }
}

#[test]
fn test_format_exponent_rendering() {
    // A squared unit renders with the caret and its exponent's digits.
    let base_m = BaseUnit::new("meter");
    let m = NamedUnit::new("m", "m", true, vec![UnitExponent::new(base_m, 1)], ExactValue::from_i64(1));
    let area = UnitValue::new(4, vec![UnitExponent::new(m, 2)]);
    assert_eq!(area.format(), "4 m^2");
}
