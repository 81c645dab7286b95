//! The string grammar.
//!
//! ```text
//! string     = '"' characters '"'
//! characters = character*
//! character  = escape | (any character except '"')
//! escape     = "\" ( '"' | "\" | "/" | "b" | "f" | "n" | "r" | "t"
//!                  | "u" hex hex hex hex )
//! ```
//!
//! Escape sequences are recognised syntactically but never decoded: the
//! produced value holds the raw source text, backslashes included.  A
//! backslash that does not open a legal escape is accepted as an
//! ordinary character, exactly as the ordered `character` alternatives
//! demand.

use vstd::prelude::*;

use crate::ParseError;
use crate::ParseErrorKind;
use crate::number::is_digit_char;

verus! {

/// The raw text of a string literal, quotes stripped, escapes kept
/// verbatim.
#[derive(Debug, PartialEq)]
pub struct JsonString(pub String);

impl View for JsonString {
    type V = Seq<char>;

    open spec fn view(&self) -> Seq<char> {
        self.0@
    }
}

/// The characters that may follow a backslash as a one-character
/// escape.
pub open spec fn is_simple_escape(c: char) -> bool {
    c == '"' || c == '\\' || c == '/' || c == 'b' || c == 'f' || c == 'n' || c == 'r' || c == 't'
}

/// A hexadecimal digit, either case.
pub open spec fn is_hex_char(c: char) -> bool {
    is_digit_char(c) || (97 <= c as u32 && c as u32 <= 102) || (65 <= c as u32 && c as u32 <= 70)
}

/// How many characters the `escape` production consumes from the text
/// following a backslash: 1 for a simple escape, 5 for `u` plus four
/// hex digits, 0 when no escape matches.
pub open spec fn spec_escape_len(s: Seq<char>) -> int {
    if s.len() >= 1 && is_simple_escape(s[0]) {
        1
    } else if s.len() >= 5 && s[0] == 'u' && is_hex_char(s[1]) && is_hex_char(s[2]) && is_hex_char(
        s[3],
    ) && is_hex_char(s[4]) {
        5
    } else {
        0
    }
}

/// How many characters one `character` production consumes: 0 marks a
/// failure (end of input or an unescaped `"`), otherwise a whole escape
/// sequence or a single ordinary character.  A backslash that opens no
/// legal escape counts as an ordinary character.
pub open spec fn spec_character_len(s: Seq<char>) -> int {
    if s.len() == 0 || s[0] == '"' {
        0
    } else if s[0] == '\\' && spec_escape_len(s.skip(1)) > 0 {
        1 + spec_escape_len(s.skip(1))
    } else {
        1
    }
}

/// The suffix of `s` left after the longest run of `character`
/// productions.
pub open spec fn spec_characters_rest(s: Seq<char>) -> Seq<char>
    decreases s.len(),
{
    if spec_character_len(s) > 0 {
        spec_characters_rest(s.skip(spec_character_len(s)))
    } else {
        s
    }
}

/// `spec_characters_rest` returns a suffix that is either empty or
/// starts with `"`.
pub proof fn lemma_spec_characters_rest(s: Seq<char>)
    ensures
        spec_characters_rest(s).len() <= s.len(),
        spec_characters_rest(s) == s.skip(s.len() - spec_characters_rest(s).len()),
        spec_characters_rest(s).len() > 0 ==> spec_characters_rest(s)[0] == '"',
    decreases s.len(),
{
    if spec_character_len(s) > 0 {
        let k = spec_character_len(s);
        lemma_spec_characters_rest(s.skip(k));
        assert(s.skip(k).skip(s.skip(k).len() - spec_characters_rest(s.skip(k)).len()) =~= s.skip(
            s.len() - spec_characters_rest(s).len(),
        ));
    } else {
        assert(s.skip(0) =~= s);
    }
}

/// The `string` production: the content between the quotes (escapes
/// kept verbatim) and the rest of the input.
pub open spec fn spec_string(s: Seq<char>) -> Option<(Seq<char>, Seq<char>)> {
    if s.len() >= 1 && s[0] == '"' {
        let t = s.skip(1);
        let r = spec_characters_rest(t);
        if r.len() >= 1 && r[0] == '"' {
            Some((t.take(t.len() - r.len()), r.skip(1)))
        } else {
            None
        }
    } else {
        None
    }
}

/// A successful `string` consumes at least its two quotes.
pub proof fn lemma_spec_string_consumes(s: Seq<char>)
    ensures
        spec_string(s) matches Some((content, rest)) ==> rest.len() + 2 <= s.len(),
{
    if spec_string(s) is Some {
        lemma_spec_characters_rest(s.skip(1));
    }
}

/// Whitespace characters form no escape: appending them leaves the
/// escape recognition unchanged.
proof fn lemma_escape_len_append(u: Seq<char>, w: Seq<char>)
    requires
        crate::all_ws(w),
    ensures
        spec_escape_len(u + w) == spec_escape_len(u),
{
    if u.len() == 0 {
        assert(u + w =~= w);
        if w.len() >= 1 {
            assert(crate::is_ws_char(w[0]));
        }
    } else {
        assert((u + w)[0] == u[0]);
        if u.len() >= 5 {
            assert((u + w)[1] == u[1] && (u + w)[2] == u[2] && (u + w)[3] == u[3] && (u + w)[4]
                == u[4]);
        } else {
            if (u + w).len() >= 5 && u[0] == 'u' {
                let j = u.len() as int;
                assert(forall|i: int| 1 <= i < j ==> (u + w)[i] == u[i]);
                assert((u + w)[j] == w[j - u.len()]);
                assert(crate::is_ws_char((u + w)[j]));
            }
        }
    }
}

/// Whitespace runs through the `character` production one character at
/// a time, so an all-whitespace text is consumed entirely.
proof fn lemma_chars_rest_all_ws(w: Seq<char>)
    requires
        crate::all_ws(w),
    ensures
        spec_characters_rest(w).len() == 0,
    decreases w.len(),
{
    if w.len() > 0 {
        assert(crate::is_ws_char(w[0]));
        assert(spec_character_len(w) == 1);
        assert forall|i: int| 0 <= i < w.skip(1).len() implies crate::is_ws_char(
            w.skip(1)[i],
        ) by {
            assert(w.skip(1)[i] == w[i + 1]);
        }
        lemma_chars_rest_all_ws(w.skip(1));
    }
}

/// Appending whitespace never closes an open string: the character run
/// stops at the same quote, or still runs off the end.
pub proof fn lemma_chars_rest_append(t: Seq<char>, w: Seq<char>)
    requires
        crate::all_ws(w),
    ensures
        spec_characters_rest(t).len() > 0 ==> spec_characters_rest(t + w)
            == spec_characters_rest(t) + w,
        spec_characters_rest(t).len() == 0 ==> spec_characters_rest(t + w).len() == 0,
    decreases t.len(),
{
    if t.len() == 0 {
        assert(t + w =~= w);
        lemma_chars_rest_all_ws(w);
    } else if t[0] == '"' {
        assert((t + w)[0] == t[0]);
        assert(spec_character_len(t) == 0 && spec_character_len(t + w) == 0);
    } else {
        assert((t + w)[0] == t[0]);
        if t[0] == '\\' {
            assert((t + w).skip(1) =~= t.skip(1) + w);
            lemma_escape_len_append(t.skip(1), w);
        }
        let k = spec_character_len(t);
        assert(spec_character_len(t + w) == k);
        assert((t + w).skip(k) =~= t.skip(k) + w);
        lemma_chars_rest_append(t.skip(k), w);
    }
}

/// Appending whitespace changes neither the recognised string nor
/// where it stops.
pub proof fn lemma_spec_string_append(s: Seq<char>, w: Seq<char>)
    requires
        crate::all_ws(w),
    ensures
        spec_string(s) matches Some((c, r)) ==> spec_string(s + w) == Some((c, r + w)),
        spec_string(s) is None ==> spec_string(s + w) is None,
{
    if s.len() == 0 {
        assert(s + w =~= w);
        if w.len() > 0 {
            assert(crate::is_ws_char(w[0]));
        }
    } else {
        assert((s + w)[0] == s[0]);
        if s[0] == '"' {
            let t = s.skip(1);
            assert((s + w).skip(1) =~= t + w);
            lemma_chars_rest_append(t, w);
            lemma_spec_characters_rest(t);
            let r = spec_characters_rest(t);
            if r.len() >= 1 && r[0] == '"' {
                assert((t + w).take((t + w).len() - (r + w).len()) =~= t.take(t.len() - r.len()));
                assert((r + w)[0] == r[0]);
                assert((r + w).skip(1) =~= r.skip(1) + w);
            }
        }
    }
}

/// Recognises one hexadecimal digit.
pub fn hex<'a>(input: &'a str) -> (r: Result<(&'a str, &'a str), ParseError>)
    ensures
        match r {
            Ok((rest, m)) => input@.len() > 0 && is_hex_char(input@[0]) && m@ == seq![input@[0]]
                && rest@ == input@.skip(1),
            Err(e) => !(input@.len() > 0 && is_hex_char(input@[0])) && e.kind
                != ParseErrorKind::TrailingInput,
        },
{
    let n = input.unicode_len();
    if n > 0 {
        let c = input.get_char(0);
        let u = c as u32;
        if (48 <= u && u <= 57) || (97 <= u && u <= 102) || (65 <= u && u <= 70) {
            proof {
                assert(input@.subrange(0, 1) =~= seq![input@[0]]);
                assert(input@.subrange(1, n as int) =~= input@.skip(1));
            }
            return Ok((input.substring_char(1, n), input.substring_char(0, 1)));
        }
    }
    Err(ParseError { kind: ParseErrorKind::UnexpectedChar, remaining: n })
}

/// Recognises what may follow a backslash: a simple escape character
/// or `u` with four hex digits.
pub fn escape<'a>(input: &'a str) -> (r: Result<(&'a str, &'a str), ParseError>)
    ensures
        match r {
            Ok((rest, m)) => spec_escape_len(input@) > 0 && m@ == input@.take(
                spec_escape_len(input@),
            ) && rest@ == input@.skip(spec_escape_len(input@)),
            Err(e) => spec_escape_len(input@) == 0 && e.kind != ParseErrorKind::TrailingInput,
        },
{
    let n = input.unicode_len();
    if n >= 1 {
        let c0 = input.get_char(0);
        if c0 == '"' || c0 == '\\' || c0 == '/' || c0 == 'b' || c0 == 'f' || c0 == 'n' || c0 == 'r'
            || c0 == 't' {
            proof {
                assert(input@.subrange(0, 1) =~= input@.take(1));
                assert(input@.subrange(1, n as int) =~= input@.skip(1));
            }
            return Ok((input.substring_char(1, n), input.substring_char(0, 1)));
        }
        if c0 == 'u' && n >= 5 {
            let h1 = input.get_char(1);
            let h2 = input.get_char(2);
            let h3 = input.get_char(3);
            let h4 = input.get_char(4);
            if is_hex_exec(h1) && is_hex_exec(h2) && is_hex_exec(h3) && is_hex_exec(h4) {
                proof {
                    assert(input@.subrange(0, 5) =~= input@.take(5));
                    assert(input@.subrange(5, n as int) =~= input@.skip(5));
                }
                return Ok((input.substring_char(5, n), input.substring_char(0, 5)));
            }
        }
    }
    Err(ParseError { kind: ParseErrorKind::UnexpectedChar, remaining: n })
}

/// Decides [`is_hex_char`].
fn is_hex_exec(c: char) -> (r: bool)
    ensures
        r == is_hex_char(c),
{
    let u = c as u32;
    (48 <= u && u <= 57) || (97 <= u && u <= 102) || (65 <= u && u <= 70)
}

/// Recognises one `character` production: an escape sequence or any
/// single character other than `"`.
pub fn character<'a>(input: &'a str) -> (r: Result<(&'a str, &'a str), ParseError>)
    ensures
        match r {
            Ok((rest, m)) => spec_character_len(input@) > 0 && m@ == input@.take(
                spec_character_len(input@),
            ) && rest@ == input@.skip(spec_character_len(input@)),
            Err(e) => spec_character_len(input@) == 0 && e.kind != ParseErrorKind::TrailingInput,
        },
{
    let n = input.unicode_len();
    if n == 0 {
        return Err(ParseError { kind: ParseErrorKind::UnexpectedChar, remaining: n });
    }
    let c0 = input.get_char(0);
    if c0 == '"' {
        return Err(ParseError { kind: ParseErrorKind::UnexpectedChar, remaining: n });
    }
    if c0 == '\\' {
        let tail = input.substring_char(1, n);
        proof {
            assert(input@.subrange(1, n as int) =~= input@.skip(1));
        }
        match escape(tail) {
            Ok((_, em)) => {
                let el = em.unicode_len();
                proof {
                    assert(input@.subrange(0, 1 + spec_escape_len(input@.skip(1))) =~= input@.take(
                        spec_character_len(input@),
                    ));
                    assert(input@.subrange(1 + spec_escape_len(input@.skip(1)), n as int)
                        =~= input@.skip(spec_character_len(input@)));
                }
                return Ok((input.substring_char(1 + el, n), input.substring_char(0, 1 + el)));
            },
            Err(_) => {
                proof {
                    assert(input@.subrange(0, 1) =~= input@.take(1));
                    assert(input@.subrange(1, n as int) =~= input@.skip(1));
                }
                return Ok((input.substring_char(1, n), input.substring_char(0, 1)));
            },
        }
    }
    proof {
        assert(input@.subrange(0, 1) =~= input@.take(1));
        assert(input@.subrange(1, n as int) =~= input@.skip(1));
    }
    Ok((input.substring_char(1, n), input.substring_char(0, 1)))
}

/// Consumes the longest run of `character` productions.  Never fails.
pub fn characters<'a>(input: &'a str) -> (r: Result<(&'a str, &'a str), ParseError>)
    ensures
        r matches Ok((rest, m)) && rest@ == spec_characters_rest(input@) && m@ == input@.take(
            input@.len() - spec_characters_rest(input@).len(),
        ),
{
    let n = input.unicode_len();
    let mut i: usize = 0;
    let mut stop = false;
    proof {
        assert(input@.skip(0) =~= input@);
    }
    while i < n && !stop
        invariant
            0 <= i <= n,
            n == input@.len(),
            spec_characters_rest(input@) == spec_characters_rest(input@.skip(i as int)),
            input@.skip(i as int).len() == n - i,
            stop ==> i < n && input@[i as int] == '"',
        decreases n - i + (if stop { 0int } else { 1int }),
    {
        let sub = input.substring_char(i, n);
        proof {
            assert(input@.subrange(i as int, n as int) =~= input@.skip(i as int));
        }
        match character(sub) {
            Ok((rest, _)) => {
                let step = n - i - rest.unicode_len();
                proof {
                    assert(input@.skip(i as int).skip(spec_character_len(input@.skip(i as int)))
                        =~= input@.skip(i + spec_character_len(input@.skip(i as int))));
                }
                i = i + step;
            },
            Err(_) => {
                proof {
                    assert(input@.skip(i as int)[0] == input@[i as int]);
                }
                stop = true;
            },
        }
    }
    proof {
        if i == n {
            assert(input@.skip(i as int).len() == 0);
        } else {
            assert(input@.skip(i as int)[0] == input@[i as int]);
        }
        assert(spec_characters_rest(input@) == input@.skip(i as int));
        assert(input@.subrange(i as int, n as int) =~= input@.skip(i as int));
        assert(input@.subrange(0, i as int) =~= input@.take(
            input@.len() - spec_characters_rest(input@).len(),
        ));
    }
    Ok((input.substring_char(i, n), input.substring_char(0, i)))
}

/// Recognises the `string` production and keeps the quoted text
/// verbatim, escapes undecoded.
pub fn string<'a>(input: &'a str) -> (r: Result<(&'a str, JsonString), ParseError>)
    ensures
        match r {
            Ok((rest, js)) => spec_string(input@) == Some((js@, rest@)),
            Err(e) => spec_string(input@) is None && e.kind != ParseErrorKind::TrailingInput,
        },
{
    let n = input.unicode_len();
    if n == 0 || input.get_char(0) != '"' {
        return Err(ParseError { kind: ParseErrorKind::UnexpectedChar, remaining: n });
    }
    let tail = input.substring_char(1, n);
    proof {
        assert(input@.subrange(1, n as int) =~= input@.skip(1));
    }
    let (r1, content) = characters(tail)?;
    let m = r1.unicode_len();
    if m >= 1 && r1.get_char(0) == '"' {
        proof {
            assert(r1@.subrange(1, m as int) =~= r1@.skip(1));
        }
        Ok((r1.substring_char(1, m), JsonString(content.to_owned())))
    } else {
        Err(ParseError { kind: ParseErrorKind::UnexpectedChar, remaining: n })
    }
}

} // verus!
