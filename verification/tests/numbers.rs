use wson::number::digit;
use wson::number::digits;
use wson::number::exponent;
use wson::number::fraction;
use wson::number::integer;
use wson::number::number;
use wson::number::onenine;
use wson::number::sign;
use wson::number::zero;
use wson::number::Exponent;
use wson::number::Integer;
use wson::number::Number;
use wson::number::Sign;

#[test]
fn assert_zero() {
    assert_eq!(zero("0"), Ok(("", "0".to_string())));
}

#[test]
fn failed_parse_one() {
    assert!(zero("1").is_err());
}

#[test]
fn parse_one() {
    assert_eq!(onenine("1"), Ok(("", "1".to_string())));
}

#[test]
fn parse_nine() {
    assert_eq!(onenine("9"), Ok(("", "9".to_string())));
}

#[test]
fn failed_parse_a() {
    assert!(digit("a").is_err());
}

#[test]
fn digit_zero() {
    assert_eq!(digit("0"), Ok(("", "0".to_string())));
}

#[test]
fn digit_one() {
    assert_eq!(digit("1"), Ok(("", "1".to_string())));
}

#[test]
fn digit_one_nine() {
    assert_eq!(digit("19"), Ok(("9", "1".to_string())));
}

#[test]
fn digit_one_alpha() {
    assert_eq!(digit("1a"), Ok(("a", "1".to_string())));
}

#[test]
fn digit_alpha() {
    assert!(digit("a").is_err());
}

#[test]
fn digits1() {
    assert_eq!(digits("123"), Ok(("", "123".to_string())));
}

#[test]
fn parse_negative_digit() {
    assert_eq!(integer("-1"), Ok(("", Integer::Negative("-1".to_string()))));
}

#[test]
fn parse_negative_digits() {
    assert_eq!(integer("-123"), Ok(("", Integer::Negative("-123".to_string()))));
}

#[test]
fn empty_fraction() {
    assert_eq!(fraction(""), Ok(("", None)));
}

#[test]
fn rest_fraction() {
    assert_eq!(fraction(".123"), Ok(("", Some("123".to_string()))));
}

#[test]
fn sign_empty() {
    assert_eq!(sign(""), Ok(("", Sign::Plus)));
}

#[test]
fn sign_plus() {
    assert_eq!(sign("+2"), Ok(("2", Sign::Plus)));
}

#[test]
fn sign_minus() {
    assert_eq!(sign("-2"), Ok(("2", Sign::Minus)));
}

#[test]
fn exponent_empty() {
    assert_eq!(exponent(""), Ok(("", None)));
}

#[test]
fn exponent_e_plus() {
    assert_eq!(
        exponent("e+23"),
        Ok((
            "",
            Some(Exponent {
                sign: Sign::Plus,
                digits: "23".to_string()
            })
        ))
    );
}

#[test]
fn exponent_e_minus() {
    assert_eq!(
        exponent("e-23"),
        Ok((
            "",
            Some(Exponent {
                sign: Sign::Minus,
                digits: "23".to_string()
            })
        ))
    );
}

#[test]
fn exponent_large_e_plus() {
    assert_eq!(
        exponent("E+23"),
        Ok((
            "",
            Some(Exponent {
                sign: Sign::Plus,
                digits: "23".to_string()
            })
        ))
    );
}

#[test]
fn exponent_large_e_minus() {
    assert_eq!(
        exponent("E-23"),
        Ok((
            "",
            Some(Exponent {
                sign: Sign::Minus,
                digits: "23".to_string()
            })
        ))
    );
}

#[test]
fn number_plain_integers() {
    assert_eq!(number("3"), Ok(("", Number::PositiveInteger(3))));
    assert_eq!(number("32"), Ok(("", Number::PositiveInteger(32))));
    assert_eq!(number("-32"), Ok(("", Number::NegativeInteger(-32))));
    assert!(number("a").is_err());
}

#[test]
fn number_canonical_float_texts() {
    assert_eq!(number("3.21"), Ok(("", Number::Float("3.21".to_string()))));
    assert_eq!(number("-3.21"), Ok(("", Number::Float("-3.21".to_string()))));
    assert_eq!(number("-1E12"), Ok(("", Number::Float("-1E+12".to_string()))));
    assert_eq!(number("3e21"), Ok(("", Number::Float("3E+21".to_string()))));
    assert_eq!(number("3.2e-2"), Ok(("", Number::Float("3.2E-2".to_string()))));
}

#[test]
fn number_float_texts_convert_exactly() {
    let (_, n) = number("3.2e-2").unwrap();
    match n {
        Number::Float(text) => assert_eq!(text.parse::<f64>().unwrap(), 0.032),
        other => panic!("expected a float, got {:?}", other),
    }
    let (_, n) = number("-1E12").unwrap();
    match n {
        Number::Float(text) => assert_eq!(text.parse::<f64>().unwrap(), -1e12),
        other => panic!("expected a float, got {:?}", other),
    }
}

#[test]
fn number_bare_dot_or_exponent_backs_off() {
    assert_eq!(number("1."), Ok((".", Number::PositiveInteger(1))));
    assert_eq!(number("1e"), Ok(("e", Number::PositiveInteger(1))));
    assert_eq!(number("1e+"), Ok(("e+", Number::PositiveInteger(1))));
}
