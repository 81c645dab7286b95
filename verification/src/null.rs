//! Fixed-token recogniser for the literal `null`.

use vstd::prelude::*;

use crate::ParseError;
use crate::ParseErrorKind;

verus! {

/// The JSON `null` value.
#[derive(Debug, Clone, PartialEq)]
pub struct Null;

/// The rest of the input after an exact `null` token, if present.
pub open spec fn spec_null(s: Seq<char>) -> Option<Seq<char>> {
    if s.len() >= 4 && s[0] == 'n' && s[1] == 'u' && s[2] == 'l' && s[3] == 'l' {
        Some(s.skip(4))
    } else {
        None
    }
}

/// Appending whitespace changes neither the token match nor the rest,
/// beyond carrying the appended text.
pub proof fn lemma_spec_null_append(s: Seq<char>, w: Seq<char>)
    requires
        crate::all_ws(w),
    ensures
        spec_null(s) matches Some(r) ==> spec_null(s + w) == Some(r + w),
        spec_null(s) is None ==> spec_null(s + w) is None,
{
    if s.len() >= 4 {
        assert((s + w)[0] == s[0] && (s + w)[1] == s[1] && (s + w)[2] == s[2] && (s + w)[3]
            == s[3]);
        if spec_null(s) is Some {
            assert((s + w).skip(4) =~= s.skip(4) + w);
        }
    } else {
        if (s + w).len() >= 4 {
            let j = s.len() as int;
            assert((s + w)[j] == w[j - s.len()]);
            assert(crate::is_ws_char((s + w)[j]));
        }
    }
}

/// Recognises the exact token `null`.
pub fn null<'a>(input: &'a str) -> (r: Result<(&'a str, Null), ParseError>)
    ensures
        match r {
            Ok((rest, _)) => spec_null(input@) == Some(rest@),
            Err(e) => spec_null(input@) is None && e.kind != ParseErrorKind::TrailingInput,
        },
{
    let n = input.unicode_len();
    if n >= 4 && input.get_char(0) == 'n' && input.get_char(1) == 'u' && input.get_char(2) == 'l'
        && input.get_char(3) == 'l' {
        proof {
            assert(input@.subrange(4, n as int) =~= input@.skip(4));
        }
        Ok((input.substring_char(4, n), Null))
    } else {
        Err(ParseError { kind: ParseErrorKind::UnexpectedChar, remaining: n })
    }
}

} // verus!
