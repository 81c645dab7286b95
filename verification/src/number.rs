//! The number grammar.
//!
//! ```text
//! number   = integer fraction? exponent?
//! integer  = "-"? ( "0" | onenine digits* )
//! fraction = "." digits+
//! exponent = ("e"|"E") sign? digits+
//! ```
//!
//! A literal with neither fraction nor exponent becomes an exact 64-bit
//! integer.  As soon as a fraction or an exponent is present, the parts
//! are reassembled into one canonical decimal text
//! `<int>[.<frac>][E<sign><exp>]`, which [`Number::Float`] carries
//! verbatim; converting that text to a machine float is left to the
//! caller, outside this crate.

use vstd::prelude::*;

use crate::ParseError;
use crate::ParseErrorKind;

verus! {

/// A parsed JSON number.
#[derive(Debug, Clone, PartialEq)]
pub enum Number {
    /// An unsigned literal without fraction or exponent, kept exact.
    PositiveInteger(u64),
    /// A `-`-signed literal without fraction or exponent, kept exact.
    NegativeInteger(i64),
    /// Any literal with a fraction and/or an exponent: the canonical
    /// decimal text `<int>[.<frac>][E<sign><exp>]` built from its parts.
    Float(String),
}

/// The mathematical content of a [`Number`].
pub enum NumberModel {
    PositiveInteger(u64),
    NegativeInteger(i64),
    Float(Seq<char>),
}

impl View for Number {
    type V = NumberModel;

    open spec fn view(&self) -> NumberModel {
        match self {
            Number::PositiveInteger(v) => NumberModel::PositiveInteger(*v),
            Number::NegativeInteger(v) => NumberModel::NegativeInteger(*v),
            Number::Float(t) => NumberModel::Float(t@),
        }
    }
}

/// The decimal digits `0` through `9`.
pub open spec fn is_digit_char(c: char) -> bool {
    48 <= c as u32 && c as u32 <= 57
}

/// The numeric value of one decimal digit.
pub open spec fn digit_val(c: char) -> nat {
    (c as u32 - 48) as nat
}

/// The value of a digit sequence read in base ten.
pub open spec fn digits_val(d: Seq<char>) -> nat
    decreases d.len(),
{
    if d.len() == 0 {
        0
    } else {
        digits_val(d.drop_last()) * 10 + digit_val(d.last())
    }
}

/// The suffix of `s` after the longest leading run of decimal digits.
pub open spec fn spec_skip_digits(s: Seq<char>) -> Seq<char>
    decreases s.len(),
{
    if s.len() > 0 && is_digit_char(s[0]) {
        spec_skip_digits(s.skip(1))
    } else {
        s
    }
}

/// `spec_skip_digits` returns a suffix; everything before it is a digit
/// and the first remaining character, if any, is not.
pub proof fn lemma_spec_skip_digits(s: Seq<char>)
    ensures
        spec_skip_digits(s).len() <= s.len(),
        spec_skip_digits(s) == s.skip(s.len() - spec_skip_digits(s).len()),
        spec_skip_digits(s).len() > 0 ==> !is_digit_char(spec_skip_digits(s)[0]),
        forall|i: int| 0 <= i < s.len() - spec_skip_digits(s).len() ==> is_digit_char(s[i]),
    decreases s.len(),
{
    if s.len() > 0 && is_digit_char(s[0]) {
        lemma_spec_skip_digits(s.skip(1));
        assert(s.skip(1).skip(s.skip(1).len() - spec_skip_digits(s.skip(1)).len())
            =~= s.skip(s.len() - spec_skip_digits(s).len()));
        assert forall|i: int| 0 <= i < s.len() - spec_skip_digits(s).len() implies is_digit_char(
            s[i],
        ) by {
            if i > 0 {
                assert(s[i] == s.skip(1)[i - 1]);
            }
        }
    } else {
        assert(s.skip(0) =~= s);
    }
}

/// On an all-digit sequence the digit run consumes everything.
pub proof fn lemma_skip_digits_all(d: Seq<char>)
    requires
        forall|i: int| 0 <= i < d.len() ==> is_digit_char(d[i]),
    ensures
        spec_skip_digits(d).len() == 0,
    decreases d.len(),
{
    if d.len() > 0 {
        assert forall|i: int| 0 <= i < d.skip(1).len() implies is_digit_char(d.skip(1)[i]) by {
            assert(d.skip(1)[i] == d[i + 1]);
        }
        lemma_skip_digits_all(d.skip(1));
    }
}

/// A digit run followed by anything that does not start with a digit
/// stops exactly at the boundary.
pub proof fn lemma_skip_digits_concat(d: Seq<char>, t: Seq<char>)
    requires
        forall|i: int| 0 <= i < d.len() ==> is_digit_char(d[i]),
        t.len() > 0 ==> !is_digit_char(t[0]),
    ensures
        spec_skip_digits(d + t) == t,
    decreases d.len(),
{
    if d.len() == 0 {
        assert(d + t =~= t);
        if t.len() > 0 {
        } else {
            assert(spec_skip_digits(t) == t);
        }
    } else {
        assert((d + t)[0] == d[0]);
        assert((d + t).skip(1) =~= d.skip(1) + t);
        assert forall|i: int| 0 <= i < d.skip(1).len() implies is_digit_char(d.skip(1)[i]) by {
            assert(d.skip(1)[i] == d[i + 1]);
        }
        lemma_skip_digits_concat(d.skip(1), t);
    }
}

/// The longest leading digit run of `s` and the rest, or `None` when
/// `s` does not start with a digit.
pub open spec fn spec_digits(s: Seq<char>) -> Option<(Seq<char>, Seq<char>)> {
    if s.len() > 0 && is_digit_char(s[0]) {
        Some((s.take(s.len() - spec_skip_digits(s).len()), spec_skip_digits(s)))
    } else {
        None
    }
}

/// The `integer` production: an optional `-`, then either a lone `0` or
/// a run led by `1`-`9`.  Yields the sign, the magnitude digits (sign
/// excluded) and the rest.
pub open spec fn spec_integer(s: Seq<char>) -> Option<(bool, Seq<char>, Seq<char>)> {
    if s.len() > 0 && s[0] == '-' {
        let t = s.skip(1);
        if t.len() > 0 && is_digit_char(t[0]) {
            if t[0] == '0' {
                Some((true, seq!['0'], t.skip(1)))
            } else {
                Some((true, t.take(t.len() - spec_skip_digits(t).len()), spec_skip_digits(t)))
            }
        } else {
            None
        }
    } else if s.len() > 0 && is_digit_char(s[0]) {
        if s[0] == '0' {
            Some((false, seq!['0'], s.skip(1)))
        } else {
            Some((false, s.take(s.len() - spec_skip_digits(s).len()), spec_skip_digits(s)))
        }
    } else {
        None
    }
}

/// The `sign` production of an exponent: an optional `+` or `-`, where
/// absence counts as positive.  Yields whether the sign is minus.
pub open spec fn spec_sign(s: Seq<char>) -> (bool, Seq<char>) {
    if s.len() > 0 && s[0] == '-' {
        (true, s.skip(1))
    } else if s.len() > 0 && s[0] == '+' {
        (false, s.skip(1))
    } else {
        (false, s)
    }
}

/// The optional `fraction` production: `.` followed by at least one
/// digit, or nothing (a bare `.` is left unconsumed).
pub open spec fn spec_fraction(s: Seq<char>) -> (Option<Seq<char>>, Seq<char>) {
    if s.len() >= 2 && s[0] == '.' && is_digit_char(s[1]) {
        let t = s.skip(1);
        (Some(t.take(t.len() - spec_skip_digits(t).len())), spec_skip_digits(t))
    } else {
        (None, s)
    }
}

/// The optional `exponent` production: `e` or `E`, an optional sign,
/// then at least one digit; anything less is left unconsumed.
pub open spec fn spec_exponent(s: Seq<char>) -> (Option<(bool, Seq<char>)>, Seq<char>) {
    if s.len() > 0 && (s[0] == 'e' || s[0] == 'E') {
        let (minus, t) = spec_sign(s.skip(1));
        if t.len() > 0 && is_digit_char(t[0]) {
            (Some((minus, t.take(t.len() - spec_skip_digits(t).len()))), spec_skip_digits(t))
        } else {
            (None, s)
        }
    } else {
        (None, s)
    }
}

/// The canonical decimal text `<int>[.<frac>][E<sign><exp>]` that a
/// fractional or exponential literal is reassembled into.
pub open spec fn float_text(
    neg: bool,
    mag: Seq<char>,
    frac: Option<Seq<char>>,
    ex: Option<(bool, Seq<char>)>,
) -> Seq<char> {
    (if neg {
        seq!['-'] + mag
    } else {
        mag
    }) + (match frac {
        Some(f) => seq!['.'] + f,
        None => Seq::<char>::empty(),
    }) + (match ex {
        Some((minus, d)) => seq!['E'] + (if minus {
            seq!['-']
        } else {
            seq!['+']
        }) + d,
        None => Seq::<char>::empty(),
    })
}

/// The `number` production.  Without fraction and exponent the literal
/// becomes an exact integer, provided its magnitude fits 64 bits
/// (`u64::MAX` unsigned, `2^63` for a negative literal); otherwise the
/// parts become the canonical [`float_text`].
pub open spec fn spec_number(s: Seq<char>) -> Option<(NumberModel, Seq<char>)> {
    match spec_integer(s) {
        Option::None => None,
        Option::Some((neg, mag, r1)) => {
            let (frac, r2) = spec_fraction(r1);
            let (ex, r3) = spec_exponent(r2);
            if frac is None && ex is None {
                if neg {
                    if digits_val(mag) <= 0x8000_0000_0000_0000 {
                        Some(
                            (
                                NumberModel::NegativeInteger((-(digits_val(mag) as int)) as i64),
                                r3,
                            ),
                        )
                    } else {
                        None
                    }
                } else {
                    if digits_val(mag) <= u64::MAX {
                        Some((NumberModel::PositiveInteger(digits_val(mag) as u64), r3))
                    } else {
                        None
                    }
                }
            } else {
                Some((NumberModel::Float(float_text(neg, mag, frac, ex)), r3))
            }
        },
    }
}

/// Appending whitespace never extends a digit run: the rest just
/// carries the appended text.
pub proof fn lemma_skip_digits_append(t: Seq<char>, w: Seq<char>)
    requires
        crate::all_ws(w),
    ensures
        spec_skip_digits(t + w) == spec_skip_digits(t) + w,
    decreases t.len(),
{
    if t.len() == 0 {
        assert(t + w =~= w);
        if w.len() > 0 {
            assert(!is_digit_char(w[0]));
        }
        assert(spec_skip_digits(w) == w);
        assert(spec_skip_digits(t) + w =~= w);
    } else {
        assert((t + w)[0] == t[0]);
        if is_digit_char(t[0]) {
            assert((t + w).skip(1) =~= t.skip(1) + w);
            lemma_skip_digits_append(t.skip(1), w);
        }
    }
}

/// Appending whitespace changes neither the recognised integer part
/// nor where it stops.
pub proof fn lemma_spec_integer_append(s: Seq<char>, w: Seq<char>)
    requires
        crate::all_ws(w),
    ensures
        spec_integer(s) matches Some((neg, mag, r)) ==> spec_integer(s + w) == Some(
            (neg, mag, r + w),
        ),
        spec_integer(s) is None ==> spec_integer(s + w) is None,
{
    if s.len() == 0 {
        assert(s + w =~= w);
        if w.len() > 0 {
            assert(!is_digit_char(w[0]) && w[0] != '-');
        }
    } else {
        assert((s + w)[0] == s[0]);
        if s[0] == '-' {
            let t = s.skip(1);
            assert((s + w).skip(1) =~= t + w);
            if t.len() == 0 {
                assert(t + w =~= w);
                if w.len() > 0 {
                    assert(!is_digit_char(w[0]));
                }
            } else {
                assert((t + w)[0] == t[0]);
                if is_digit_char(t[0]) {
                    if t[0] == '0' {
                        assert((t + w).skip(1) =~= t.skip(1) + w);
                    } else {
                        lemma_skip_digits_append(t, w);
                        lemma_spec_skip_digits(t);
                        assert((t + w).take((t + w).len() - spec_skip_digits(t + w).len())
                            =~= t.take(t.len() - spec_skip_digits(t).len()));
                    }
                }
            }
        } else if is_digit_char(s[0]) {
            if s[0] == '0' {
                assert((s + w).skip(1) =~= s.skip(1) + w);
            } else {
                lemma_skip_digits_append(s, w);
                lemma_spec_skip_digits(s);
                assert((s + w).take((s + w).len() - spec_skip_digits(s + w).len()) =~= s.take(
                    s.len() - spec_skip_digits(s).len(),
                ));
            }
        }
    }
}

/// Appending whitespace changes neither the recognised fraction part
/// nor where it stops.
pub proof fn lemma_spec_fraction_append(s: Seq<char>, w: Seq<char>)
    requires
        crate::all_ws(w),
    ensures
        spec_fraction(s + w) == (spec_fraction(s).0, spec_fraction(s).1 + w),
{
    if s.len() >= 2 {
        assert((s + w)[0] == s[0] && (s + w)[1] == s[1]);
        if s[0] == '.' && is_digit_char(s[1]) {
            assert((s + w).skip(1) =~= s.skip(1) + w);
            lemma_skip_digits_append(s.skip(1), w);
            lemma_spec_skip_digits(s.skip(1));
            assert((s.skip(1) + w).take((s.skip(1) + w).len() - spec_skip_digits(
                s.skip(1) + w,
            ).len()) =~= s.skip(1).take(s.skip(1).len() - spec_skip_digits(s.skip(1)).len()));
        }
    } else {
        if s.len() == 1 {
            assert((s + w)[0] == s[0]);
            if (s + w).len() >= 2 {
                assert((s + w)[1] == w[0]);
                assert(crate::is_ws_char(w[0]));
            }
        } else {
            assert(s + w =~= w);
            if w.len() >= 2 {
                assert(crate::is_ws_char(w[0]));
            }
        }
    }
}

/// Appending whitespace changes neither the recognised exponent part
/// nor where it stops.
pub proof fn lemma_spec_exponent_append(s: Seq<char>, w: Seq<char>)
    requires
        crate::all_ws(w),
    ensures
        spec_exponent(s + w) == (spec_exponent(s).0, spec_exponent(s).1 + w),
{
    if s.len() == 0 {
        assert(s + w =~= w);
        if w.len() > 0 {
            assert(crate::is_ws_char(w[0]));
        }
    } else {
        assert((s + w)[0] == s[0]);
        if s[0] == 'e' || s[0] == 'E' {
            let u = s.skip(1);
            assert((s + w).skip(1) =~= u + w);
            // The optional sign stops at the same place.
            if u.len() == 0 {
                assert(u + w =~= w);
                if w.len() > 0 {
                    assert(crate::is_ws_char(w[0]));
                }
                assert(spec_sign(u + w) == (false, u + w));
            } else {
                assert((u + w)[0] == u[0]);
                if u[0] == '-' || u[0] == '+' {
                    assert((u + w).skip(1) =~= u.skip(1) + w);
                }
            }
            let (minus, t) = spec_sign(u);
            assert(spec_sign(u + w) == (minus, t + w));
            if t.len() == 0 {
                assert(t + w =~= w);
                if w.len() > 0 {
                    assert(!is_digit_char(w[0]));
                }
            } else {
                assert((t + w)[0] == t[0]);
                if is_digit_char(t[0]) {
                    lemma_skip_digits_append(t, w);
                    lemma_spec_skip_digits(t);
                    assert((t + w).take((t + w).len() - spec_skip_digits(t + w).len()) =~= t.take(
                        t.len() - spec_skip_digits(t).len(),
                    ));
                }
            }
        }
    }
}

/// LAW at the number level: appending whitespace changes neither the
/// recognised number nor where it stops.
pub proof fn lemma_spec_number_append(s: Seq<char>, w: Seq<char>)
    requires
        crate::all_ws(w),
    ensures
        spec_number(s) matches Some((n, r)) ==> spec_number(s + w) == Some((n, r + w)),
        spec_number(s) is None ==> spec_number(s + w) is None,
{
    lemma_spec_integer_append(s, w);
    if spec_integer(s) is Some {
        let (neg, mag, r1) = spec_integer(s)->Some_0;
        lemma_spec_fraction_append(r1, w);
        let (frac, r2) = spec_fraction(r1);
        lemma_spec_exponent_append(r2, w);
    }
}

/// The source text of a fractional or exponential literal, assembled
/// from its parts: sign, magnitude digits, optional fraction digits,
/// optional exponent (its `e`/`E` marker, optional sign and digits).
pub open spec fn float_literal_source(
    neg: bool,
    mag: Seq<char>,
    frac: Option<Seq<char>>,
    ex: Option<(char, Option<char>, Seq<char>)>,
) -> Seq<char> {
    (if neg {
        seq!['-'] + mag
    } else {
        mag
    }) + (match frac {
        Option::Some(f) => seq!['.'] + f,
        Option::None => Seq::<char>::empty(),
    }) + (match ex {
        Option::Some((e, sg, d)) => seq![e] + (match sg {
            Option::Some(c) => seq![c],
            Option::None => Seq::<char>::empty(),
        }) + d,
        Option::None => Seq::<char>::empty(),
    })
}

/// The exponent of the canonical text: minus exactly when the source
/// wrote `-`; an absent or `+` sign counts as positive.
pub open spec fn exponent_model(ex: Option<(char, Option<char>, Seq<char>)>) -> Option<
    (bool, Seq<char>),
> {
    match ex {
        Option::Some((e, sg, d)) => Some((sg == Some('-'), d)),
        Option::None => None,
    }
}

/// A literal with a fraction and/or an exponent is recognised by the
/// `number` production as the float case, and the canonical text is
/// rebuilt exactly from the literal's own parts.
#[verifier::rlimit(100)]
#[verifier::spinoff_prover]
pub proof fn lemma_number_of_float_parts(
    neg: bool,
    mag: Seq<char>,
    frac: Option<Seq<char>>,
    ex: Option<(char, Option<char>, Seq<char>)>,
)
    requires
        mag.len() > 0,
        forall|i: int| 0 <= i < mag.len() ==> is_digit_char(mag[i]),
        mag[0] == '0' ==> mag.len() == 1,
        frac matches Some(f) ==> f.len() > 0 && (forall|i: int|
            0 <= i < f.len() ==> is_digit_char(f[i])),
        ex matches Some((e, sg, d)) ==> (e == 'e' || e == 'E') && (sg matches Some(c) ==> c == '+'
            || c == '-') && d.len() > 0 && (forall|i: int|
            0 <= i < d.len() ==> is_digit_char(d[i])),
        !(frac is None && ex is None),
    ensures
        spec_number(float_literal_source(neg, mag, frac, ex)) == Some(
            (
                NumberModel::Float(float_text(neg, mag, frac, exponent_model(ex))),
                Seq::<char>::empty(),
            ),
        ),
{
    let empty = Seq::<char>::empty();
    let s = float_literal_source(neg, mag, frac, ex);
    let tailf = match frac {
        Option::Some(f) => seq!['.'] + f,
        Option::None => empty,
    };
    let taile = match ex {
        Option::Some((e, sg, d)) => seq![e] + (match sg {
            Option::Some(c) => seq![c],
            Option::None => empty,
        }) + d,
        Option::None => empty,
    };
    let tail = tailf + taile;
    assert(tail.len() > 0 && !is_digit_char(tail[0])) by {
        match frac {
            Option::Some(f) => {
                assert(tail[0] == '.');
            },
            Option::None => {
                let (e, sg, d) = ex->Some_0;
                assert(tail[0] == e);
            },
        }
    }
    assert(spec_integer(s) == Some((neg, mag, tail))) by {
        let u = mag + tail;
        assert(s =~= (if neg {
            seq!['-'] + u
        } else {
            u
        }));
        if neg {
            assert(s.skip(1) =~= u);
        }
        assert(u[0] == mag[0]);
        if mag[0] == '0' {
            assert(mag =~= seq!['0']);
            assert(u.skip(1) =~= tail);
        } else {
            lemma_skip_digits_concat(mag, tail);
            assert(u.take(u.len() - tail.len()) =~= mag);
        }
    }
    assert(spec_fraction(tail) == (frac, taile)) by {
        match frac {
            Option::Some(f) => {
                assert(tail =~= seq!['.'] + (f + taile));
                assert(tail[0] == '.');
                assert(tail.skip(1) =~= f + taile);
                assert(tail[1] == f[0]);
                lemma_skip_digits_concat(f, taile);
                assert((f + taile).take((f + taile).len() - taile.len()) =~= f);
            },
            Option::None => {
                assert(tail =~= taile);
                let (e, sg, d) = ex->Some_0;
                assert(tail[0] == e);
            },
        }
    }
    assert(spec_exponent(taile) == (exponent_model(ex), empty)) by {
        match ex {
            Option::Some((e, sg, d)) => {
                let sgpart = match sg {
                    Option::Some(c) => seq![c],
                    Option::None => empty,
                };
                assert(taile =~= seq![e] + (sgpart + d));
                assert(taile[0] == e);
                assert(taile.skip(1) =~= sgpart + d);
                match sg {
                    Option::Some(c) => {
                        assert((sgpart + d)[0] == c);
                        assert((sgpart + d).skip(1) =~= d);
                    },
                    Option::None => {
                        assert(sgpart + d =~= d);
                    },
                }
                assert(spec_sign(taile.skip(1)) == ((sg == Some('-')), d));
                lemma_skip_digits_all(d);
                assert(spec_skip_digits(d) =~= empty);
                assert(d.take(d.len() - 0) =~= d);
            },
            Option::None => {
                assert(taile =~= empty);
            },
        }
    }
}

/// A successful `number` consumes at least one character.
pub proof fn lemma_spec_number_consumes(s: Seq<char>)
    ensures
        spec_number(s) matches Some((n, rest)) ==> rest.len() < s.len(),
{
    if spec_number(s) is Some {
        let (neg, mag, r1) = spec_integer(s)->Some_0;
        if s.len() > 0 && s[0] == '-' {
            lemma_spec_skip_digits(s.skip(1));
        } else {
            lemma_spec_skip_digits(s);
        }
        let (frac, r2) = spec_fraction(r1);
        if frac is Some {
            lemma_spec_skip_digits(r1.skip(1));
        }
        let (ex, r3) = spec_exponent(r2);
        if ex is Some {
            let (minus, t) = spec_sign(r2.skip(1));
            lemma_spec_skip_digits(t);
        }
    }
}

/// The sign of an exponent part.
#[derive(Debug, PartialEq, Clone)]
pub enum Sign {
    Plus,
    Minus,
}

impl Sign {
    /// Whether this sign is minus.
    pub open spec fn spec_minus(self) -> bool {
        self is Minus
    }
}

/// The integer part of a number: its source text, with the leading `-`
/// kept for a negative literal.
#[derive(Debug, PartialEq)]
pub enum Integer {
    Positive(String),
    Negative(String),
}

/// The exponent part of a number: its sign and its digits.
#[derive(Debug, PartialEq)]
pub struct Exponent {
    pub sign: Sign,
    pub digits: String,
}

/// A successful `integer` has a non-empty, all-digit magnitude and
/// consumes at least one character.
pub proof fn lemma_spec_integer(s: Seq<char>)
    ensures
        spec_integer(s) matches Some((neg, mag, rest)) ==> {
            &&& mag.len() >= 1
            &&& forall|i: int| 0 <= i < mag.len() ==> is_digit_char(mag[i])
            &&& rest.len() < s.len()
        },
{
    if spec_integer(s) is Some {
        if s.len() > 0 && s[0] == '-' {
            lemma_spec_skip_digits(s.skip(1));
        } else {
            lemma_spec_skip_digits(s);
        }
    }
}

/// Recognises a lone `0`.
pub fn zero<'a>(input: &'a str) -> (r: Result<(&'a str, String), ParseError>)
    ensures
        match r {
            Ok((rest, d)) => input@.len() > 0 && input@[0] == '0' && d@ == seq!['0'] && rest@
                == input@.skip(1),
            Err(e) => !(input@.len() > 0 && input@[0] == '0') && e.kind != ParseErrorKind::TrailingInput,
        },
{
    let n = input.unicode_len();
    if n > 0 && input.get_char(0) == '0' {
        let d = input.substring_char(0, 1).to_owned();
        proof {
            assert(input@.subrange(0, 1) =~= seq!['0']);
            assert(input@.subrange(1, n as int) =~= input@.skip(1));
        }
        Ok((input.substring_char(1, n), d))
    } else {
        Err(ParseError { kind: ParseErrorKind::UnexpectedChar, remaining: n })
    }
}

/// Recognises one digit `1` through `9`.
pub fn onenine<'a>(input: &'a str) -> (r: Result<(&'a str, String), ParseError>)
    ensures
        match r {
            Ok((rest, d)) => input@.len() > 0 && is_digit_char(input@[0]) && input@[0] != '0'
                && d@ == seq![input@[0]] && rest@ == input@.skip(1),
            Err(e) => !(input@.len() > 0 && is_digit_char(input@[0]) && input@[0] != '0') && e.kind
                != ParseErrorKind::TrailingInput,
        },
{
    let n = input.unicode_len();
    if n > 0 {
        let c = input.get_char(0);
        let u = c as u32;
        if 49 <= u && u <= 57 {
            let d = input.substring_char(0, 1).to_owned();
            proof {
                assert(input@.subrange(0, 1) =~= seq![input@[0]]);
                assert(input@.subrange(1, n as int) =~= input@.skip(1));
            }
            return Ok((input.substring_char(1, n), d));
        }
    }
    Err(ParseError { kind: ParseErrorKind::UnexpectedChar, remaining: n })
}

/// Recognises one decimal digit.
pub fn digit<'a>(input: &'a str) -> (r: Result<(&'a str, String), ParseError>)
    ensures
        match r {
            Ok((rest, d)) => input@.len() > 0 && is_digit_char(input@[0]) && d@ == seq![input@[0]]
                && rest@ == input@.skip(1),
            Err(e) => !(input@.len() > 0 && is_digit_char(input@[0])) && e.kind
                != ParseErrorKind::TrailingInput,
        },
{
    match zero(input) {
        Ok(ok) => Ok(ok),
        Err(_) => onenine(input),
    }
}

/// Recognises the longest run of at least one decimal digit.
pub fn digits<'a>(input: &'a str) -> (r: Result<(&'a str, String), ParseError>)
    ensures
        match r {
            Ok((rest, d)) => spec_digits(input@) == Some((d@, rest@)),
            Err(e) => spec_digits(input@) is None && e.kind != ParseErrorKind::TrailingInput,
        },
{
    let n = input.unicode_len();
    let mut i: usize = 0;
    let mut stop = false;
    proof {
        assert(input@.skip(0) =~= input@);
    }
    while i < n && !stop
        invariant
            0 <= i <= n,
            n == input@.len(),
            spec_skip_digits(input@) == spec_skip_digits(input@.skip(i as int)),
            input@.skip(i as int).len() == n - i,
            stop ==> i < n && !is_digit_char(input@[i as int]),
        decreases n - i + (if stop { 0int } else { 1int }),
    {
        let c = input.get_char(i);
        let u = c as u32;
        if 48 <= u && u <= 57 {
            proof {
                assert(input@.skip(i as int)[0] == input@[i as int]);
                assert(input@.skip(i as int).skip(1) =~= input@.skip(i + 1));
            }
            i = i + 1;
        } else {
            stop = true;
        }
    }
    proof {
        if i == n {
            assert(input@.skip(i as int).len() == 0);
        } else {
            assert(input@.skip(i as int)[0] == input@[i as int]);
        }
        assert(spec_skip_digits(input@) == input@.skip(i as int));
    }
    if i == 0 {
        return Err(ParseError { kind: ParseErrorKind::UnexpectedChar, remaining: n });
    }
    let d = input.substring_char(0, i).to_owned();
    let rest = input.substring_char(i, n);
    proof {
        assert(input@.subrange(0, i as int) =~= input@.take(
            input@.len() - spec_skip_digits(input@).len(),
        ));
        assert(input@.subrange(i as int, n as int) =~= input@.skip(i as int));
    }
    Ok((rest, d))
}

/// Recognises an optional `+` or `-`; absence counts as positive.
/// Never fails.
pub fn sign<'a>(input: &'a str) -> (r: Result<(&'a str, Sign), ParseError>)
    ensures
        r matches Ok((rest, sg)) && ({
            let (m, sr) = spec_sign(input@);
            rest@ == sr && sg.spec_minus() == m
        }),
{
    let n = input.unicode_len();
    if n > 0 && input.get_char(0) == '-' {
        Ok((input.substring_char(1, n), Sign::Minus))
    } else if n > 0 && input.get_char(0) == '+' {
        Ok((input.substring_char(1, n), Sign::Plus))
    } else {
        proof {
            assert(input@.subrange(0, n as int) =~= input@);
        }
        Ok((input, Sign::Plus))
    }
}

/// Recognises the `integer` production and keeps its source text.
pub fn integer<'a>(input: &'a str) -> (r: Result<(&'a str, Integer), ParseError>)
    ensures
        match r {
            Ok((rest, integ)) => spec_integer(input@) matches Some((neg, mag, sr)) && sr == rest@
                && (match integ {
                Integer::Positive(t) => !neg && t@ == mag,
                Integer::Negative(t) => neg && t@ == seq!['-'] + mag,
            }),
            Err(e) => spec_integer(input@) is None && e.kind != ParseErrorKind::TrailingInput,
        },
{
    let n = input.unicode_len();
    if n == 0 {
        return Err(ParseError { kind: ParseErrorKind::UnexpectedChar, remaining: n });
    }
    let c0 = input.get_char(0);
    if c0 == '-' {
        if n >= 2 {
            let c1 = input.get_char(1);
            let u1 = c1 as u32;
            proof {
                assert(input@.skip(1)[0] == input@[1]);
            }
            if c1 == '0' {
                let text = input.substring_char(0, 2).to_owned();
                proof {
                    assert(input@.subrange(0, 2) =~= seq!['-'] + seq!['0']);
                    assert(input@.subrange(2, n as int) =~= input@.skip(1).skip(1));
                }
                return Ok((input.substring_char(2, n), Integer::Negative(text)));
            }
            if 48 <= u1 && u1 <= 57 {
                let tail = input.substring_char(1, n);
                proof {
                    assert(input@.subrange(1, n as int) =~= input@.skip(1));
                }
                match digits(tail) {
                    Ok((rest, run)) => {
                        let mut text = input.substring_char(0, 1).to_owned();
                        text.append(run.as_str());
                        proof {
                            assert(input@.subrange(0, 1) =~= seq!['-']);
                        }
                        return Ok((rest, Integer::Negative(text)));
                    },
                    Err(e) => {
                        proof {
                            assert(false);
                        }
                        return Err(e);
                    },
                }
            }
        }
        return Err(ParseError { kind: ParseErrorKind::UnexpectedChar, remaining: n });
    }
    let u0 = c0 as u32;
    if c0 == '0' {
        let text = input.substring_char(0, 1).to_owned();
        proof {
            assert(input@.subrange(0, 1) =~= seq!['0']);
            assert(input@.subrange(1, n as int) =~= input@.skip(1));
        }
        return Ok((input.substring_char(1, n), Integer::Positive(text)));
    }
    if 48 <= u0 && u0 <= 57 {
        match digits(input) {
            Ok((rest, run)) => {
                return Ok((rest, Integer::Positive(run)));
            },
            Err(e) => {
                proof {
                    assert(false);
                }
                return Err(e);
            },
        }
    }
    Err(ParseError { kind: ParseErrorKind::UnexpectedChar, remaining: n })
}

/// Recognises an optional fraction part: `.` followed by at least one
/// digit.  A `.` without digits is left unconsumed.  Never fails.
pub fn fraction<'a>(input: &'a str) -> (r: Result<(&'a str, Option<String>), ParseError>)
    ensures
        r matches Ok((rest, f)) && ({
            let (sf, sr) = spec_fraction(input@);
            rest@ == sr && (match f {
                Option::Some(d) => sf == Some(d@),
                Option::None => sf is None,
            })
        }),
{
    let n = input.unicode_len();
    if n >= 2 && input.get_char(0) == '.' {
        let c1 = input.get_char(1);
        let u1 = c1 as u32;
        if 48 <= u1 && u1 <= 57 {
            let tail = input.substring_char(1, n);
            proof {
                assert(input@.subrange(1, n as int) =~= input@.skip(1));
                assert(input@.skip(1)[0] == input@[1]);
            }
            match digits(tail) {
                Ok((rest, run)) => {
                    return Ok((rest, Some(run)));
                },
                Err(e) => {
                    proof {
                        assert(false);
                    }
                    return Err(e);
                },
            }
        }
    }
    Ok((input, None))
}

/// Recognises an optional exponent part: `e` or `E`, an optional sign,
/// then at least one digit.  Anything less is left unconsumed.  Never
/// fails.
pub fn exponent<'a>(input: &'a str) -> (r: Result<(&'a str, Option<Exponent>), ParseError>)
    ensures
        r matches Ok((rest, ex)) && ({
            let (se, sr) = spec_exponent(input@);
            rest@ == sr && (match ex {
                Option::Some(e) => se == Some((e.sign.spec_minus(), e.digits@)),
                Option::None => se is None,
            })
        }),
{
    let n = input.unicode_len();
    if n >= 1 {
        let c0 = input.get_char(0);
        if c0 == 'e' || c0 == 'E' {
            let tail = input.substring_char(1, n);
            proof {
                assert(input@.subrange(1, n as int) =~= input@.skip(1));
            }
            match sign(tail) {
                Ok((rest1, sg)) => {
                    let m = rest1.unicode_len();
                    if m >= 1 {
                        let c1 = rest1.get_char(0);
                        let u1 = c1 as u32;
                        if 48 <= u1 && u1 <= 57 {
                            match digits(rest1) {
                                Ok((rest2, run)) => {
                                    return Ok((rest2, Some(Exponent { sign: sg, digits: run })));
                                },
                                Err(e) => {
                                    proof {
                                        assert(false);
                                    }
                                    return Err(e);
                                },
                            }
                        }
                    }
                    proof {
                        assert(input@.subrange(0, n as int) =~= input@);
                    }
                    return Ok((input, None));
                },
                Err(e) => {
                    proof {
                        assert(false);
                    }
                    return Err(e);
                },
            }
        }
    }
    Ok((input, None))
}

/// A longer digit prefix never has a smaller value.
proof fn lemma_digits_val_prefix(d: Seq<char>, i: int, j: int)
    requires
        0 <= i <= j <= d.len(),
    ensures
        digits_val(d.take(i)) <= digits_val(d.take(j)),
    decreases j - i,
{
    if i < j {
        lemma_digits_val_prefix(d, i, j - 1);
        assert(d.take(j).drop_last() =~= d.take(j - 1));
    }
}

/// Reads an all-digit text as a base-ten `u64`, reporting when the
/// value does not fit.
fn digits_to_u64(d: &str) -> (r: Option<u64>)
    requires
        d@.len() > 0,
        forall|i: int| 0 <= i < d@.len() ==> is_digit_char(d@[i]),
    ensures
        match r {
            Option::Some(v) => digits_val(d@) <= u64::MAX && v == digits_val(d@),
            Option::None => digits_val(d@) > u64::MAX,
        },
{
    let n = d.unicode_len();
    let mut acc: u64 = 0;
    let mut i: usize = 0;
    proof {
        assert(d@.take(0) =~= Seq::<char>::empty());
    }
    while i < n
        invariant
            0 <= i <= n,
            n == d@.len(),
            forall|k: int| 0 <= k < d@.len() ==> is_digit_char(d@[k]),
            acc == digits_val(d@.take(i as int)),
        decreases n - i,
    {
        let c = d.get_char(i);
        let dig: u64 = ((c as u32) - 48) as u64;
        proof {
            assert(is_digit_char(d@[i as int]));
            assert(d@.take(i + 1).drop_last() =~= d@.take(i as int));
            assert(d@.take(i + 1).last() == d@[i as int]);
        }
        if acc > 1844674407370955161u64 || (acc == 1844674407370955161u64 && dig > 5) {
            proof {
                lemma_digits_val_prefix(d@, i + 1, n as int);
                assert(d@.take(n as int) =~= d@);
            }
            return None;
        }
        acc = acc * 10 + dig;
        i = i + 1;
    }
    proof {
        assert(d@.take(n as int) =~= d@);
    }
    Some(acc)
}

/// Recognises the `number` production: `integer fraction? exponent?`,
/// assembled per the rule described on [`spec_number`].
#[verifier::rlimit(50)]
pub fn number<'a>(input: &'a str) -> (r: Result<(&'a str, Number), ParseError>)
    ensures
        match r {
            Ok((rest, num)) => spec_number(input@) == Some((num@, rest@)),
            Err(e) => spec_number(input@) is None && e.kind != ParseErrorKind::TrailingInput,
        },
{
    let (r1, integ) = integer(input)?;
    let (r2, frac) = fraction(r1)?;
    let (r3, expn) = exponent(r2)?;
    proof {
        lemma_spec_integer(input@);
    }
    if frac.is_none() && expn.is_none() {
        let left = r3.unicode_len();
        match integ {
            Integer::Positive(t) => {
                match digits_to_u64(t.as_str()) {
                    Option::Some(v) => Ok((r3, Number::PositiveInteger(v))),
                    Option::None => Err(
                        ParseError { kind: ParseErrorKind::NumberTooLarge, remaining: left },
                    ),
                }
            },
            Integer::Negative(t) => {
                let tn = t.as_str().unicode_len();
                let magtext = t.as_str().substring_char(1, tn);
                proof {
                    let mag = spec_integer(input@)->Some_0.1;
                    assert(t@.subrange(1, tn as int) =~= mag);
                }
                match digits_to_u64(magtext) {
                    Option::Some(v) => {
                        if v <= 0x8000_0000_0000_0000u64 {
                            let sv: i64 = if v == 0x8000_0000_0000_0000u64 {
                                i64::MIN
                            } else {
                                -(v as i64)
                            };
                            Ok((r3, Number::NegativeInteger(sv)))
                        } else {
                            Err(ParseError { kind: ParseErrorKind::NumberTooLarge, remaining: left })
                        }
                    },
                    Option::None => Err(
                        ParseError { kind: ParseErrorKind::NumberTooLarge, remaining: left },
                    ),
                }
            },
        }
    } else {
        let mut text: String = match integ {
            Integer::Positive(t) => t,
            Integer::Negative(t) => t,
        };
        match frac {
            Option::Some(f) => {
                text.append(".");
                text.append(f.as_str());
                proof {
                    reveal_strlit(".");
                }
            },
            Option::None => {},
        }
        match expn {
            Option::Some(e) => {
                text.append("E");
                proof {
                    reveal_strlit("E");
                }
                match e.sign {
                    Sign::Plus => {
                        text.append("+");
                        proof {
                            reveal_strlit("+");
                        }
                    },
                    Sign::Minus => {
                        text.append("-");
                        proof {
                            reveal_strlit("-");
                        }
                    },
                }
                text.append(e.digits.as_str());
            },
            Option::None => {},
        }
        proof {
            let (neg, mag, sr1) = spec_integer(input@)->Some_0;
            let (sf, sr2) = spec_fraction(sr1);
            let (se, sr3) = spec_exponent(sr2);
            assert(text@ =~= float_text(neg, mag, sf, se));
        }
        Ok((r3, Number::Float(text)))
    }
}

} // verus!
