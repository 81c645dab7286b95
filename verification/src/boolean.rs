//! Fixed-token recognisers for the literals `true` and `false`.

use vstd::prelude::*;

use crate::ParseError;
use crate::ParseErrorKind;

verus! {

/// The rest of the input after an exact `true` token, if present.
pub open spec fn spec_true_token(s: Seq<char>) -> Option<Seq<char>> {
    if s.len() >= 4 && s[0] == 't' && s[1] == 'r' && s[2] == 'u' && s[3] == 'e' {
        Some(s.skip(4))
    } else {
        None
    }
}

/// The rest of the input after an exact `false` token, if present.
pub open spec fn spec_false_token(s: Seq<char>) -> Option<Seq<char>> {
    if s.len() >= 5 && s[0] == 'f' && s[1] == 'a' && s[2] == 'l' && s[3] == 's' && s[4] == 'e' {
        Some(s.skip(5))
    } else {
        None
    }
}

/// Appending whitespace changes neither the token match nor the rest,
/// beyond carrying the appended text.
pub proof fn lemma_spec_true_append(s: Seq<char>, w: Seq<char>)
    requires
        crate::all_ws(w),
    ensures
        spec_true_token(s) matches Some(r) ==> spec_true_token(s + w) == Some(r + w),
        spec_true_token(s) is None ==> spec_true_token(s + w) is None,
{
    if s.len() >= 4 {
        assert((s + w)[0] == s[0] && (s + w)[1] == s[1] && (s + w)[2] == s[2] && (s + w)[3]
            == s[3]);
        if spec_true_token(s) is Some {
            assert((s + w).skip(4) =~= s.skip(4) + w);
        }
    } else {
        if (s + w).len() >= 4 {
            let j = s.len() as int;
            assert((s + w)[j] == w[j - s.len()]);
            assert(crate::is_ws_char((s + w)[j]));
        }
    }
}

/// Appending whitespace changes neither the token match nor the rest,
/// beyond carrying the appended text.
pub proof fn lemma_spec_false_append(s: Seq<char>, w: Seq<char>)
    requires
        crate::all_ws(w),
    ensures
        spec_false_token(s) matches Some(r) ==> spec_false_token(s + w) == Some(r + w),
        spec_false_token(s) is None ==> spec_false_token(s + w) is None,
{
    if s.len() >= 5 {
        assert((s + w)[0] == s[0] && (s + w)[1] == s[1] && (s + w)[2] == s[2] && (s + w)[3] == s[3]
            && (s + w)[4] == s[4]);
        if spec_false_token(s) is Some {
            assert((s + w).skip(5) =~= s.skip(5) + w);
        }
    } else {
        if (s + w).len() >= 5 {
            let j = s.len() as int;
            assert((s + w)[j] == w[j - s.len()]);
            assert(crate::is_ws_char((s + w)[j]));
        }
    }
}

/// Recognises the exact token `true`.
pub fn true_parser<'a>(input: &'a str) -> (r: Result<(&'a str, bool), ParseError>)
    ensures
        match r {
            Ok((rest, b)) => b && spec_true_token(input@) == Some(rest@),
            Err(e) => spec_true_token(input@) is None && e.kind != ParseErrorKind::TrailingInput,
        },
{
    let n = input.unicode_len();
    if n >= 4 && input.get_char(0) == 't' && input.get_char(1) == 'r' && input.get_char(2) == 'u'
        && input.get_char(3) == 'e' {
        proof {
            assert(input@.subrange(4, n as int) =~= input@.skip(4));
        }
        Ok((input.substring_char(4, n), true))
    } else {
        Err(ParseError { kind: ParseErrorKind::UnexpectedChar, remaining: n })
    }
}

/// Recognises the exact token `false`.
pub fn false_parser<'a>(input: &'a str) -> (r: Result<(&'a str, bool), ParseError>)
    ensures
        match r {
            Ok((rest, b)) => !b && spec_false_token(input@) == Some(rest@),
            Err(e) => spec_false_token(input@) is None && e.kind != ParseErrorKind::TrailingInput,
        },
{
    let n = input.unicode_len();
    if n >= 5 && input.get_char(0) == 'f' && input.get_char(1) == 'a' && input.get_char(2) == 'l'
        && input.get_char(3) == 's' && input.get_char(4) == 'e' {
        proof {
            assert(input@.subrange(5, n as int) =~= input@.skip(5));
        }
        Ok((input.substring_char(5, n), false))
    } else {
        Err(ParseError { kind: ParseErrorKind::UnexpectedChar, remaining: n })
    }
}

} // verus!
