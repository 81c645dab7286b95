//! A JSON parser: turns a complete character sequence into a tree of
//! [`Value`] nodes, or reports a structured [`ParseError`].
//!
//! The grammar is recognised by a family of recursive-descent functions,
//! one per production.  Each executable parser is specified against a
//! spec-level parser on `Seq<char>` that defines the grammar exactly;
//! the top-level entry point is [`parse`], which demands that the whole
//! input is consumed by a single `element` production.

use vstd::prelude::*;

pub mod boolean;
pub mod null;
pub mod number;
pub mod string;

use crate::boolean::spec_false_token;
use crate::boolean::spec_true_token;
use crate::null::spec_null;
use crate::number::Number;
use crate::number::NumberModel;
use crate::number::digit_val;
use crate::number::digits_val;
use crate::number::is_digit_char;
use crate::number::lemma_skip_digits_all;
use crate::number::float_text;
use crate::number::lemma_number_of_float_parts;
use crate::number::float_literal_source;
use crate::number::exponent_model;
use crate::number::lemma_spec_number_append;
use crate::number::lemma_spec_number_consumes;
use crate::number::spec_exponent;
use crate::number::spec_fraction;
use crate::number::spec_integer;
use crate::number::spec_number;
use crate::number::spec_skip_digits;
use crate::string::lemma_spec_string_append;
use crate::string::lemma_spec_string_consumes;
use crate::string::spec_string;

verus! {

broadcast use vstd::std_specs::vec::group_vec_axioms, vstd::seq::group_seq_axioms;

/// What a parser expected when the input did not match.
#[derive(Debug, Clone, Copy, PartialEq, Eq)]
pub enum ParseErrorKind {
    /// The input at the failure point matched no grammar alternative.
    UnexpectedChar,
    /// A complete value was recognised, but characters were left over.
    TrailingInput,
    /// An integer literal was syntactically valid but its magnitude does
    /// not fit in the 64-bit integer representation.
    NumberTooLarge,
}

/// A syntax error: the failure class together with the number of
/// characters that were still unconsumed at the point of failure.
#[derive(Debug, Clone, Copy, PartialEq, Eq)]
pub struct ParseError {
    pub kind: ParseErrorKind,
    /// How many characters of the offending input remained unparsed.
    pub remaining: usize,
}

/// The whitespace characters the grammar inserts between tokens:
/// space, tab and newline.
pub open spec fn is_ws_char(c: char) -> bool {
    c == ' ' || c == '\t' || c == '\n'
}

/// The suffix of `s` that remains after consuming the longest prefix of
/// whitespace characters.
pub open spec fn spec_ws(s: Seq<char>) -> Seq<char>
    decreases s.len(),
{
    if s.len() > 0 && is_ws_char(s[0]) {
        spec_ws(s.skip(1))
    } else {
        s
    }
}

/// `spec_ws` returns a suffix of its argument whose leading character,
/// if any, is not whitespace, and everything it dropped was whitespace.
pub proof fn lemma_spec_ws(s: Seq<char>)
    ensures
        spec_ws(s).len() <= s.len(),
        spec_ws(s) == s.skip(s.len() - spec_ws(s).len()),
        spec_ws(s).len() > 0 ==> !is_ws_char(spec_ws(s)[0]),
        forall|i: int| 0 <= i < s.len() - spec_ws(s).len() ==> is_ws_char(s[i]),
    decreases s.len(),
{
    if s.len() > 0 && is_ws_char(s[0]) {
        lemma_spec_ws(s.skip(1));
        assert(s.skip(1).skip(s.skip(1).len() - spec_ws(s.skip(1)).len())
            =~= s.skip(s.len() - spec_ws(s).len()));
        assert forall|i: int| 0 <= i < s.len() - spec_ws(s).len() implies is_ws_char(s[i]) by {
            if i > 0 {
                assert(s[i] == s.skip(1)[i - 1]);
            }
        }
    } else {
        assert(s.skip(0) =~= s);
    }
}

/// Consumes the longest run of whitespace.  Never fails; returns the
/// rest of the input and the consumed prefix, in that order.
pub fn ws<'a>(input: &'a str) -> (r: Result<(&'a str, &'a str), ParseError>)
    ensures
        r matches Ok((rest, matched)) && rest@ == spec_ws(input@) && matched@ == input@.take(
            input@.len() - spec_ws(input@).len(),
        ),
{
    let n = input.unicode_len();
    let mut i: usize = 0;
    let mut stop = false;
    proof {
        assert(input@.skip(0) =~= input@);
    }
    while i < n && !stop
        invariant
            0 <= i <= n,
            n == input@.len(),
            spec_ws(input@) == spec_ws(input@.skip(i as int)),
            input@.skip(i as int).len() == n - i,
            stop ==> i < n && !is_ws_char(input@[i as int]),
        decreases n - i + (if stop { 0int } else { 1int }),
    {
        let c = input.get_char(i);
        if c == ' ' || c == '\t' || c == '\n' {
            proof {
                assert(input@.skip(i as int)[0] == input@[i as int]);
                assert(input@.skip(i as int).skip(1) =~= input@.skip(i + 1));
            }
            i = i + 1;
        } else {
            stop = true;
        }
    }
    proof {
        if i == n {
            assert(input@.skip(i as int).len() == 0);
        } else {
            assert(input@.skip(i as int)[0] == input@[i as int]);
        }
        assert(spec_ws(input@) == input@.skip(i as int));
        assert(input@.skip(i as int) =~= input@.subrange(i as int, n as int));
        assert(input@.take(n - spec_ws(input@).len()) =~= input@.subrange(0, i as int));
    }
    let rest = input.substring_char(i, n);
    let matched = input.substring_char(0, i);
    Ok((rest, matched))
}

/// A parsed JSON value: a tree node owning its children.
///
/// An object is kept as its members in source order with duplicate
/// keys already resolved (a later member overwrites an earlier one);
/// the keys of a well-formed object are unique, and their order
/// carries no meaning, as the [`Map`]-based model makes precise.
#[derive(Debug, PartialEq)]
pub enum Value {
    Object(Vec<(String, Value)>),
    Array(Vec<Value>),
    Number(Number),
    String(String),
    Null,
    True,
    False,
}

/// The mathematical content of a [`Value`]: objects become maps from
/// key text to value model, arrays become sequences, strings their
/// character sequences.
pub enum ValueModel {
    Object(Map<Seq<char>, ValueModel>),
    Array(Seq<ValueModel>),
    Number(NumberModel),
    String(Seq<char>),
    Null,
    True,
    False,
}

/// Folds a member list into a map; a later member with the same key
/// overwrites an earlier one.
pub open spec fn map_of_members(ms: Seq<(Seq<char>, ValueModel)>) -> Map<Seq<char>, ValueModel>
    decreases ms.len(),
{
    if ms.len() == 0 {
        Map::<Seq<char>, ValueModel>::empty()
    } else {
        map_of_members(ms.drop_last()).insert(ms.last().0, ms.last().1)
    }
}

/// The models of an object's members, in order.
pub open spec fn entries_model(ps: Seq<(String, Value)>) -> Seq<(Seq<char>, ValueModel)>
    decreases ps,
{
    if ps.len() == 0 {
        Seq::<(Seq<char>, ValueModel)>::empty()
    } else {
        entries_model(ps.subrange(0, ps.len() - 1)).push(
            (ps[ps.len() - 1].0@, ps[ps.len() - 1].1.model()),
        )
    }
}

/// The models of an array's elements, in order.
pub open spec fn elems_model(es: Seq<Value>) -> Seq<ValueModel>
    decreases es,
{
    if es.len() == 0 {
        Seq::<ValueModel>::empty()
    } else {
        elems_model(es.subrange(0, es.len() - 1)).push(es[es.len() - 1].model())
    }
}

/// `entries_model` maps the member list index by index.
pub proof fn lemma_entries_model(ps: Seq<(String, Value)>)
    ensures
        entries_model(ps).len() == ps.len(),
        forall|i: int|
            0 <= i < ps.len() ==> entries_model(ps)[i] == (ps[i].0@, ps[i].1.model()),
    decreases ps.len(),
{
    if ps.len() > 0 {
        lemma_entries_model(ps.subrange(0, ps.len() - 1));
    }
}

/// `elems_model` maps the element list index by index.
pub proof fn lemma_elems_model(es: Seq<Value>)
    ensures
        elems_model(es).len() == es.len(),
        forall|i: int| 0 <= i < es.len() ==> elems_model(es)[i] == es[i].model(),
    decreases es.len(),
{
    if es.len() > 0 {
        lemma_elems_model(es.subrange(0, es.len() - 1));
    }
}

/// No two members carry the same key text.
pub open spec fn keys_distinct(ps: Seq<(String, Value)>) -> bool {
    forall|i: int, j: int| 0 <= i < j < ps.len() ==> ps[i].0@ != ps[j].0@
}

impl Value {
    /// The mathematical content of this value.
    pub open spec fn model(self) -> ValueModel
        decreases self,
    {
        match self {
            Value::Object(ps) => ValueModel::Object(map_of_members(entries_model(ps@))),
            Value::Array(es) => ValueModel::Array(elems_model(es@)),
            Value::Number(n) => ValueModel::Number(n@),
            Value::String(t) => ValueModel::String(t@),
            Value::Null => ValueModel::Null,
            Value::True => ValueModel::True,
            Value::False => ValueModel::False,
        }
    }

    /// Well-formedness: every object in the tree has pairwise distinct
    /// keys.
    pub open spec fn wf(self) -> bool
        decreases self,
    {
        match self {
            Value::Object(ps) => keys_distinct(ps@) && (forall|i: int|
                0 <= i < ps@.len() ==> ps@[i].1.wf()),
            Value::Array(es) => forall|i: int| 0 <= i < es@.len() ==> es@[i].wf(),
            _ => true,
        }
    }
}

impl View for Value {
    type V = ValueModel;

    open spec fn view(&self) -> ValueModel {
        self.model()
    }
}

/// The `object` production: surrounding whitespace, `{`, either an
/// immediate `}` or a member list, `}`, trailing whitespace.  Yields
/// the member map with later duplicates overwriting earlier ones.
pub open spec fn spec_object(s: Seq<char>) -> Option<(Map<Seq<char>, ValueModel>, Seq<char>)>
    decreases s.len(), 0int,
    via spec_object_decreases
{
    let t1 = spec_ws(s);
    if t1.len() > 0 && t1[0] == '{' {
        let t2 = spec_ws(t1.skip(1));
        if t2.len() > 0 && t2[0] == '}' {
            Some((Map::<Seq<char>, ValueModel>::empty(), spec_ws(t2.skip(1))))
        } else {
            match spec_members(t2) {
                Option::None => None,
                Option::Some((ms, t3)) => {
                    let t4 = spec_ws(t3);
                    if t4.len() > 0 && t4[0] == '}' {
                        Some((map_of_members(ms), spec_ws(t4.skip(1))))
                    } else {
                        None
                    }
                },
            }
        }
    } else {
        None
    }
}

#[via_fn]
proof fn spec_object_decreases(s: Seq<char>) {
    lemma_spec_ws(s);
    let t1 = spec_ws(s);
    if t1.len() > 0 && t1[0] == '{' {
        lemma_spec_ws(t1.skip(1));
    }
}

/// The `array` production: `[`, either an immediate `]` (whitespace
/// allowed) or an element list, `]`.  No surrounding whitespace of its
/// own.
pub open spec fn spec_array(s: Seq<char>) -> Option<(Seq<ValueModel>, Seq<char>)>
    decreases s.len(), 0int,
{
    if s.len() > 0 && s[0] == '[' {
        let t = spec_ws(s.skip(1));
        if t.len() > 0 && t[0] == ']' {
            Some((Seq::<ValueModel>::empty(), t.skip(1)))
        } else {
            match spec_elements(s.skip(1)) {
                Option::None => None,
                Option::Some((es, r)) => {
                    if r.len() > 0 && r[0] == ']' {
                        Some((es, r.skip(1)))
                    } else {
                        None
                    }
                },
            }
        }
    } else {
        None
    }
}

/// The `value` production: the alternatives in their fixed order of
/// trial — object, array, number, string, `null`, `true`, `false`.
pub open spec fn spec_value(s: Seq<char>) -> Option<(ValueModel, Seq<char>)>
    decreases s.len(), 1int,
{
    match spec_object(s) {
        Option::Some((m, r)) => Some((ValueModel::Object(m), r)),
        Option::None => match spec_array(s) {
            Option::Some((a, r)) => Some((ValueModel::Array(a), r)),
            Option::None => match spec_number(s) {
                Option::Some((n, r)) => Some((ValueModel::Number(n), r)),
                Option::None => match spec_string(s) {
                    Option::Some((c, r)) => Some((ValueModel::String(c), r)),
                    Option::None => match spec_null(s) {
                        Option::Some(r) => Some((ValueModel::Null, r)),
                        Option::None => match spec_true_token(s) {
                            Option::Some(r) => Some((ValueModel::True, r)),
                            Option::None => match spec_false_token(s) {
                                Option::Some(r) => Some((ValueModel::False, r)),
                                Option::None => None,
                            },
                        },
                    },
                },
            },
        },
    }
}

/// The `element` production: a value enclosed in whitespace on both
/// sides.
pub open spec fn spec_element(s: Seq<char>) -> Option<(ValueModel, Seq<char>)>
    decreases s.len(), 2int,
    via spec_element_decreases
{
    match spec_value(spec_ws(s)) {
        Option::None => None,
        Option::Some((v, r)) => Some((v, spec_ws(r))),
    }
}

#[via_fn]
proof fn spec_element_decreases(s: Seq<char>) {
    lemma_spec_ws(s);
}

/// The `elements` production: elements chained by commas.  When a
/// comma is present but the chained tail fails, the list before the
/// comma stands on its own, mirroring the ordered alternatives.
pub open spec fn spec_elements(s: Seq<char>) -> Option<(Seq<ValueModel>, Seq<char>)>
    decreases s.len(), 3int,
{
    match spec_element(s) {
        Option::None => None,
        Option::Some((v, r)) => {
            // An element never grows its input, so the length test is
            // always true; it makes termination evident.
            if r.len() > 0 && r[0] == ',' && r.len() <= s.len() {
                match spec_elements(r.skip(1)) {
                    Option::Some((es, r2)) => Some((seq![v] + es, r2)),
                    Option::None => Some((seq![v], r)),
                }
            } else {
                Some((seq![v], r))
            }
        },
    }
}

/// The `member` production: a whitespace-enclosed key string, `:`,
/// then an element.
pub open spec fn spec_member(s: Seq<char>) -> Option<((Seq<char>, ValueModel), Seq<char>)>
    decreases s.len(), 3int,
    via spec_member_decreases
{
    let t1 = spec_ws(s);
    match spec_string(t1) {
        Option::None => None,
        Option::Some((key, r)) => {
            let t2 = spec_ws(r);
            if t2.len() > 0 && t2[0] == ':' {
                match spec_element(t2.skip(1)) {
                    Option::None => None,
                    Option::Some((v, r2)) => Some(((key, v), r2)),
                }
            } else {
                None
            }
        },
    }
}

#[via_fn]
proof fn spec_member_decreases(s: Seq<char>) {
    lemma_spec_ws(s);
    let t1 = spec_ws(s);
    lemma_spec_string_consumes(t1);
    if spec_string(t1) is Some {
        let (key, r) = spec_string(t1)->Some_0;
        lemma_spec_ws(r);
    }
}

/// The `members` production: members chained by commas, with the same
/// fallback as [`spec_elements`].
pub open spec fn spec_members(s: Seq<char>) -> Option<
    (Seq<(Seq<char>, ValueModel)>, Seq<char>),
>
    decreases s.len(), 4int,
{
    match spec_member(s) {
        Option::None => None,
        Option::Some((kv, r)) => {
            // A member never grows its input, so the length test is
            // always true; it makes termination evident.
            if r.len() > 0 && r[0] == ',' && r.len() <= s.len() {
                match spec_members(r.skip(1)) {
                    Option::Some((ms, r2)) => Some((seq![kv] + ms, r2)),
                    Option::None => Some((seq![kv], r)),
                }
            } else {
                Some((seq![kv], r))
            }
        },
    }
}

/// A successful `object` consumes at least one character.
pub proof fn lemma_spec_object_consumes(s: Seq<char>)
    ensures
        spec_object(s) matches Some((m, rest)) ==> rest.len() < s.len(),
    decreases s.len(), 0int,
{
    lemma_spec_ws(s);
    let t1 = spec_ws(s);
    if t1.len() > 0 && t1[0] == '{' {
        lemma_spec_ws(t1.skip(1));
        let t2 = spec_ws(t1.skip(1));
        if t2.len() > 0 && t2[0] == '}' {
            lemma_spec_ws(t2.skip(1));
        } else {
            lemma_spec_members_consumes(t2);
            if spec_members(t2) is Some {
                let (ms, t3) = spec_members(t2)->Some_0;
                lemma_spec_ws(t3);
                let t4 = spec_ws(t3);
                if t4.len() > 0 && t4[0] == '}' {
                    lemma_spec_ws(t4.skip(1));
                }
            }
        }
    }
}

/// A successful `array` consumes at least one character.
pub proof fn lemma_spec_array_consumes(s: Seq<char>)
    ensures
        spec_array(s) matches Some((a, rest)) ==> rest.len() < s.len(),
    decreases s.len(), 0int,
{
    if s.len() > 0 && s[0] == '[' {
        lemma_spec_ws(s.skip(1));
        lemma_spec_elements_consumes(s.skip(1));
    }
}

/// A successful `value` consumes at least one character.
pub proof fn lemma_spec_value_consumes(s: Seq<char>)
    ensures
        spec_value(s) matches Some((v, rest)) ==> rest.len() < s.len(),
    decreases s.len(), 1int,
{
    lemma_spec_object_consumes(s);
    lemma_spec_array_consumes(s);
    lemma_spec_number_consumes(s);
    lemma_spec_string_consumes(s);
}

/// A successful `element` consumes at least one character.
pub proof fn lemma_spec_element_consumes(s: Seq<char>)
    ensures
        spec_element(s) matches Some((v, rest)) ==> rest.len() < s.len(),
    decreases s.len(), 2int,
{
    lemma_spec_ws(s);
    let t = spec_ws(s);
    lemma_spec_value_consumes(t);
    if spec_value(t) is Some {
        let (v, r) = spec_value(t)->Some_0;
        lemma_spec_ws(r);
    }
}

/// A successful `elements` consumes at least one character.
pub proof fn lemma_spec_elements_consumes(s: Seq<char>)
    ensures
        spec_elements(s) matches Some((es, rest)) ==> rest.len() < s.len(),
    decreases s.len(), 3int,
{
    lemma_spec_element_consumes(s);
    if spec_element(s) is Some {
        let (v, r) = spec_element(s)->Some_0;
        if r.len() > 0 && r[0] == ',' && r.len() <= s.len() {
            lemma_spec_elements_consumes(r.skip(1));
        }
    }
}

/// A successful `member` consumes at least one character.
pub proof fn lemma_spec_member_consumes(s: Seq<char>)
    ensures
        spec_member(s) matches Some((kv, rest)) ==> rest.len() < s.len(),
    decreases s.len(), 3int,
{
    lemma_spec_ws(s);
    let t1 = spec_ws(s);
    lemma_spec_string_consumes(t1);
    if spec_string(t1) is Some {
        let (key, r) = spec_string(t1)->Some_0;
        lemma_spec_ws(r);
        let t2 = spec_ws(r);
        if t2.len() > 0 && t2[0] == ':' {
            lemma_spec_element_consumes(t2.skip(1));
        }
    }
}

/// A successful `members` consumes at least one character.
pub proof fn lemma_spec_members_consumes(s: Seq<char>)
    ensures
        spec_members(s) matches Some((ms, rest)) ==> rest.len() < s.len(),
    decreases s.len(), 4int,
{
    lemma_spec_member_consumes(s);
    if spec_member(s) is Some {
        let (kv, r) = spec_member(s)->Some_0;
        if r.len() > 0 && r[0] == ',' && r.len() <= s.len() {
            lemma_spec_members_consumes(r.skip(1));
        }
    }
}

/// No two entries carry the same key.
pub open spec fn entry_keys_distinct(es: Seq<(Seq<char>, ValueModel)>) -> bool {
    forall|i: int, j: int| 0 <= i < j < es.len() ==> es[i].0 != es[j].0
}

/// Replacing the value of a key already present folds to a plain map
/// insertion.
pub proof fn lemma_map_of_members_update(
    es: Seq<(Seq<char>, ValueModel)>,
    j: int,
    e: (Seq<char>, ValueModel),
)
    requires
        entry_keys_distinct(es),
        0 <= j < es.len(),
        es[j].0 == e.0,
    ensures
        map_of_members(es.update(j, e)) == map_of_members(es).insert(e.0, e.1),
    decreases es.len(),
{
    if j == es.len() - 1 {
        assert(es.update(j, e).drop_last() =~= es.drop_last());
        assert(map_of_members(es.drop_last()).insert(e.0, e.1) =~= map_of_members(
            es.drop_last(),
        ).insert(es.last().0, es.last().1).insert(e.0, e.1));
    } else {
        assert(entry_keys_distinct(es.drop_last()));
        lemma_map_of_members_update(es.drop_last(), j, e);
        assert(es.update(j, e).drop_last() =~= es.drop_last().update(j, e));
        assert(es.update(j, e).last() == es.last());
        assert(e.0 != es.last().0);
        assert(map_of_members(es.drop_last()).insert(e.0, e.1).insert(es.last().0, es.last().1)
            =~= map_of_members(es.drop_last()).insert(es.last().0, es.last().1).insert(e.0, e.1));
    }
}

/// Resolves duplicate keys in a parsed member list: a later member
/// overwrites the value of an earlier one with the same key, in place.
/// The resulting list folds to the same map and has distinct keys.
fn dedup_members(ms: Vec<(String, Value)>) -> (out: Vec<(String, Value)>)
    requires
        forall|i: int| 0 <= i < ms@.len() ==> (#[trigger] ms@[i]).1.wf(),
    ensures
        map_of_members(entries_model(out@)) == map_of_members(entries_model(ms@)),
        keys_distinct(out@),
        forall|i: int| 0 <= i < out@.len() ==> (#[trigger] out@[i]).1.wf(),
{
    let ghost orig = ms@;
    let mut rem = ms;
    let mut out: Vec<(String, Value)> = Vec::new();
    proof {
        assert(rem@ =~= orig.subrange(orig.len() - rem@.len(), orig.len() as int));
        assert(orig.subrange(0, 0) =~= Seq::<(String, Value)>::empty());
        assert(entries_model(out@) =~= entries_model(orig.subrange(0, 0)));
    }
    while rem.len() > 0
        invariant
            rem@.len() <= orig.len(),
            rem@ == orig.subrange(orig.len() - rem@.len(), orig.len() as int),
            forall|i: int| 0 <= i < orig.len() ==> (#[trigger] orig[i]).1.wf(),
            keys_distinct(out@),
            forall|i: int| 0 <= i < out@.len() ==> (#[trigger] out@[i]).1.wf(),
            map_of_members(entries_model(out@)) == map_of_members(
                entries_model(orig.subrange(0, orig.len() - rem@.len())),
            ),
        decreases rem@.len(),
    {
        let ghost t = orig.len() - rem@.len();
        let ghost pre = orig.subrange(0, t as int);
        let kv = rem.remove(0);
        proof {
            assert(kv == orig[t as int]);
            assert(rem@ =~= orig.subrange(orig.len() - rem@.len(), orig.len() as int));
        }
        let ghost old_out = out@;
        let mut j: usize = 0;
        let mut found = false;
        while j < out.len() && !found
            invariant
                0 <= j <= out@.len(),
                out@ == old_out,
                !found ==> forall|jj: int| 0 <= jj < j ==> (#[trigger] out@[jj]).0@ != kv.0@,
                found ==> j < out@.len() && out@[j as int].0@ == kv.0@,
            decreases out@.len() - j + (if found { 0int } else { 1int }),
        {
            if out[j].0 == kv.0 {
                found = true;
            } else {
                j = j + 1;
            }
        }
        proof {
            // One more source member folds in as one map insertion.
            let cur = orig.subrange(0, t + 1);
            assert(cur.subrange(0, cur.len() - 1) =~= pre);
            let es2 = entries_model(pre).push((kv.0@, kv.1.model()));
            assert(es2.drop_last() =~= entries_model(pre));
            assert(map_of_members(entries_model(cur)) == map_of_members(
                entries_model(pre),
            ).insert(kv.0@, kv.1.model()));
        }
        if found {
            let _replaced = out.remove(j);
            out.insert(j, kv);
            proof {
                assert(out@ =~= old_out.update(j as int, kv));
                lemma_entries_model(old_out);
                lemma_entries_model(out@);
                assert(entries_model(out@) =~= entries_model(old_out).update(
                    j as int,
                    (kv.0@, kv.1.model()),
                ));
                assert(entry_keys_distinct(entries_model(old_out)));
                lemma_map_of_members_update(
                    entries_model(old_out),
                    j as int,
                    (kv.0@, kv.1.model()),
                );
                assert forall|a: int, b: int| 0 <= a < b < out@.len() implies (#[trigger] out@[a]).0@
                    != (#[trigger] out@[b]).0@ by {
                    assert(old_out[a].0@ != old_out[b].0@);
                    assert(out@[a].0@ == old_out[a].0@ || (a == j && out@[a].0@ == kv.0@));
                    assert(out@[b].0@ == old_out[b].0@ || (b == j && out@[b].0@ == kv.0@));
                }
            }
        } else {
            out.push(kv);
            proof {
                lemma_entries_model(old_out);
                lemma_entries_model(out@);
                assert(out@.subrange(0, out@.len() - 1) =~= old_out);
                assert(entries_model(out@) =~= entries_model(old_out).push(
                    (kv.0@, kv.1.model()),
                ));
                assert(entries_model(out@).drop_last() =~= entries_model(old_out));
                assert forall|a: int, b: int| 0 <= a < b < out@.len() implies (#[trigger] out@[a]).0@
                    != (#[trigger] out@[b]).0@ by {
                    if b < out@.len() - 1 {
                        assert(old_out[a].0@ != old_out[b].0@);
                    } else {
                        assert(out@[a].0@ == old_out[a].0@);
                        assert(out@[b].0@ == kv.0@);
                    }
                }
            }
        }
    }
    proof {
        assert(orig.subrange(0, orig.len() as int) =~= orig);
    }
    out
}

/// Every character of `w` is whitespace.
pub open spec fn all_ws(w: Seq<char>) -> bool {
    forall|i: int| 0 <= i < w.len() ==> is_ws_char(w[i])
}

/// A whitespace prefix is skipped entirely.
pub proof fn lemma_spec_ws_concat(w: Seq<char>, t: Seq<char>)
    requires
        all_ws(w),
    ensures
        spec_ws(w + t) == spec_ws(t),
    decreases w.len(),
{
    if w.len() == 0 {
        assert(w + t =~= t);
    } else {
        assert((w + t)[0] == w[0]);
        assert((w + t).skip(1) =~= w.skip(1) + t);
        assert forall|i: int| 0 <= i < w.skip(1).len() implies is_ws_char(w.skip(1)[i]) by {
            assert(w.skip(1)[i] == w[i + 1]);
        }
        lemma_spec_ws_concat(w.skip(1), t);
    }
}

/// LAW: the empty object is one value however it is spelled — a `{`
/// and a `}` around any whitespace parse, as a complete input, to the
/// object with no members.
pub proof fn lemma_parse_empty_object(w: Seq<char>)
    requires
        all_ws(w),
    ensures
        spec_element(seq!['{'] + w + seq!['}']) == Some(
            (ValueModel::Object(Map::<Seq<char>, ValueModel>::empty()), Seq::<char>::empty()),
        ),
{
    let empty = Seq::<char>::empty();
    let s = seq!['{'] + w + seq!['}'];
    assert(s[0] == '{');
    assert(spec_ws(s) == s);
    assert(s.skip(1) =~= w + seq!['}']);
    lemma_spec_ws_concat(w, seq!['}']);
    assert(spec_ws(seq!['}']) == seq!['}']);
    assert(spec_ws(s.skip(1)) == seq!['}']);
    assert(seq!['}'].skip(1) =~= empty);
    assert(spec_ws(empty) == empty);
    assert(spec_object(s) == Some((Map::<Seq<char>, ValueModel>::empty(), empty)));
}

/// LAW: a member folded in later overwrites any earlier binding of the
/// same key and leaves every other key alone.
pub proof fn lemma_member_overwrites(es: Seq<(Seq<char>, ValueModel)>, e: (Seq<char>, ValueModel))
    ensures
        map_of_members(es.push(e)) == map_of_members(es).insert(e.0, e.1),
{
    assert(es.push(e).drop_last() =~= es);
}

/// A rest that may carry appended whitespace: when the original rest
/// was empty, the appended whitespace is consumed too, and nothing is
/// left.
pub open spec fn ws_app(r: Seq<char>, w: Seq<char>) -> Seq<char> {
    if r.len() > 0 {
        r + w
    } else {
        Seq::<char>::empty()
    }
}

/// Skipping whitespace distributes over an appended whitespace tail.
pub proof fn lemma_ws_append(t: Seq<char>, w: Seq<char>)
    requires
        all_ws(w),
    ensures
        spec_ws(t + w) == ws_app(spec_ws(t), w),
    decreases t.len(),
{
    if t.len() == 0 {
        assert(t + w =~= w);
        lemma_spec_ws_concat(w, Seq::<char>::empty());
        assert(w + Seq::<char>::empty() =~= w);
        assert(spec_ws(Seq::<char>::empty()) == Seq::<char>::empty());
    } else {
        assert((t + w)[0] == t[0]);
        if is_ws_char(t[0]) {
            assert((t + w).skip(1) =~= t.skip(1) + w);
            lemma_ws_append(t.skip(1), w);
        }
    }
}

/// Nothing can be recognised in an empty input.
proof fn lemma_spec_value_empty()
    ensures
        spec_value(Seq::<char>::empty()) is None,
        spec_member(Seq::<char>::empty()) is None,
        spec_members(Seq::<char>::empty()) is None,
{
    let empty = Seq::<char>::empty();
    assert(spec_ws(empty) == empty);
    assert(spec_object(empty) is None);
    assert(spec_array(empty) is None);
    assert(spec_number(empty) is None);
    assert(spec_string(empty) is None);
    assert(spec_member(empty) is None);
}

/// Appending whitespace changes neither the recognised object nor the
/// members it holds; the rest carries the appended text, or stays
/// empty when everything was consumed.
pub proof fn lemma_spec_object_append(s: Seq<char>, w: Seq<char>)
    requires
        all_ws(w),
    ensures
        spec_object(s) matches Some((m, r)) ==> spec_object(s + w) == Some((m, ws_app(r, w)))
            && spec_ws(r) == r,
        spec_object(s) is None ==> spec_object(s + w) is None,
    decreases s.len(), 0int,
{
    lemma_ws_append(s, w);
    lemma_spec_ws(s);
    let t1 = spec_ws(s);
    if t1.len() > 0 && t1[0] == '{' {
        assert((t1 + w)[0] == t1[0]);
        assert((t1 + w).skip(1) =~= t1.skip(1) + w);
        lemma_ws_append(t1.skip(1), w);
        lemma_spec_ws(t1.skip(1));
        let t2 = spec_ws(t1.skip(1));
        if t2.len() == 0 {
            lemma_spec_value_empty();
        } else {
            assert((t2 + w)[0] == t2[0]);
            if t2[0] == '}' {
                assert((t2 + w).skip(1) =~= t2.skip(1) + w);
                lemma_ws_append(t2.skip(1), w);
                lemma_spec_ws(t2.skip(1));
            } else {
                lemma_spec_members_append(t2, w);
                match spec_members(t2) {
                    Option::None => {},
                    Option::Some((ms, t3)) => {
                        lemma_spec_ws(t3);
                        let t4 = spec_ws(t3);
                        if t3.len() == 0 {
                        } else {
                            lemma_ws_append(t3, w);
                            assert(spec_ws(t3 + w) == ws_app(t4, w));
                            if t4.len() > 0 {
                                assert((t4 + w)[0] == t4[0]);
                                if t4[0] == '}' {
                                    assert((t4 + w).skip(1) =~= t4.skip(1) + w);
                                    lemma_ws_append(t4.skip(1), w);
                                    lemma_spec_ws(t4.skip(1));
                                }
                            }
                        }
                    },
                }
            }
        }
    }
}

/// Appending whitespace changes neither the recognised array nor its
/// elements; the rest just carries the appended text.
pub proof fn lemma_spec_array_append(s: Seq<char>, w: Seq<char>)
    requires
        all_ws(w),
    ensures
        spec_array(s) matches Some((a, r)) ==> spec_array(s + w) == Some((a, r + w)),
        spec_array(s) is None ==> spec_array(s + w) is None,
    decreases s.len(), 0int,
{
    if s.len() == 0 {
        assert(s + w =~= w);
        if w.len() > 0 {
            assert(is_ws_char(w[0]));
        }
    } else {
        assert((s + w)[0] == s[0]);
        if s[0] == '[' {
            assert((s + w).skip(1) =~= s.skip(1) + w);
            lemma_ws_append(s.skip(1), w);
            lemma_spec_ws(s.skip(1));
            let t = spec_ws(s.skip(1));
            if t.len() == 0 {
                lemma_spec_value_empty();
                assert(spec_ws(s.skip(1) + w) == Seq::<char>::empty());
                assert(spec_element(s.skip(1)) is None);
                assert(spec_element(s.skip(1) + w) is None);
            } else {
                assert((t + w)[0] == t[0]);
                if t[0] == ']' {
                    assert((t + w).skip(1) =~= t.skip(1) + w);
                } else {
                    lemma_spec_elements_append(s.skip(1), w);
                    match spec_elements(s.skip(1)) {
                        Option::None => {},
                        Option::Some((es, r)) => {
                            if r.len() > 0 {
                                assert((r + w)[0] == r[0]);
                                if r[0] == ']' {
                                    assert((r + w).skip(1) =~= r.skip(1) + w);
                                }
                            }
                        },
                    }
                }
            }
        }
    }
}

/// Appending whitespace changes neither the recognised value nor,
/// after skipping whitespace, where it stops.
pub proof fn lemma_spec_value_append(s: Seq<char>, w: Seq<char>)
    requires
        all_ws(w),
    ensures
        spec_value(s) matches Some((v, r)) ==> (spec_value(s + w) matches Some((v2, r2)) && v2
            == v && spec_ws(r2) == ws_app(spec_ws(r), w)),
        spec_value(s) is None ==> spec_value(s + w) is None,
    decreases s.len(), 1int,
{
    lemma_spec_object_append(s, w);
    lemma_spec_array_append(s, w);
    lemma_spec_number_append(s, w);
    lemma_spec_string_append(s, w);
    crate::null::lemma_spec_null_append(s, w);
    crate::boolean::lemma_spec_true_append(s, w);
    crate::boolean::lemma_spec_false_append(s, w);
    if spec_object(s) is Some {
        let (m, r) = spec_object(s)->Some_0;
        if r.len() > 0 {
            lemma_ws_append(r, w);
        }
    } else if spec_array(s) is Some {
        let (a, r) = spec_array(s)->Some_0;
        lemma_ws_append(r, w);
    } else if spec_number(s) is Some {
        let (n, r) = spec_number(s)->Some_0;
        lemma_ws_append(r, w);
    } else if spec_string(s) is Some {
        let (c, r) = spec_string(s)->Some_0;
        lemma_ws_append(r, w);
    } else if spec_null(s) is Some {
        lemma_ws_append(spec_null(s)->Some_0, w);
    } else if spec_true_token(s) is Some {
        lemma_ws_append(spec_true_token(s)->Some_0, w);
    } else if spec_false_token(s) is Some {
        lemma_ws_append(spec_false_token(s)->Some_0, w);
    }
}

/// Appending whitespace changes neither the recognised element nor
/// its leftover input, which never starts with whitespace.
pub proof fn lemma_spec_element_append(s: Seq<char>, w: Seq<char>)
    requires
        all_ws(w),
    ensures
        spec_element(s) matches Some((v, r)) ==> spec_element(s + w) == Some((v, ws_app(r, w)))
            && spec_ws(r) == r,
        spec_element(s) is None ==> spec_element(s + w) is None,
    decreases s.len(), 2int,
{
    lemma_ws_append(s, w);
    lemma_spec_ws(s);
    let t1 = spec_ws(s);
    if t1.len() == 0 {
        lemma_spec_value_empty();
    } else {
        lemma_spec_value_append(t1, w);
        match spec_value(t1) {
            Option::None => {},
            Option::Some((v, r1)) => {
                lemma_spec_ws(r1);
            },
        }
    }
}

/// Appending whitespace changes neither the recognised element list
/// nor its leftover input.
pub proof fn lemma_spec_elements_append(s: Seq<char>, w: Seq<char>)
    requires
        all_ws(w),
    ensures
        spec_elements(s) matches Some((es, r)) ==> spec_elements(s + w) == Some(
            (es, ws_app(r, w)),
        ) && spec_ws(r) == r,
        spec_elements(s) is None ==> spec_elements(s + w) is None,
    decreases s.len(), 3int,
{
    lemma_spec_element_append(s, w);
    lemma_spec_element_consumes(s);
    match spec_element(s) {
        Option::None => {},
        Option::Some((v, r1)) => {
            if r1.len() > 0 {
                assert((r1 + w)[0] == r1[0]);
                if r1[0] == ',' {
                    assert((r1 + w).skip(1) =~= r1.skip(1) + w);
                    lemma_spec_elements_append(r1.skip(1), w);
                }
            }
        },
    }
}

/// Appending whitespace changes neither the recognised member nor its
/// leftover input.
pub proof fn lemma_spec_member_append(s: Seq<char>, w: Seq<char>)
    requires
        all_ws(w),
    ensures
        spec_member(s) matches Some((kv, r)) ==> spec_member(s + w) == Some((kv, ws_app(r, w)))
            && spec_ws(r) == r,
        spec_member(s) is None ==> spec_member(s + w) is None,
    decreases s.len(), 3int,
{
    lemma_ws_append(s, w);
    lemma_spec_ws(s);
    let t1 = spec_ws(s);
    if t1.len() == 0 {
        lemma_spec_value_empty();
        assert(spec_string(Seq::<char>::empty()) is None);
    } else {
        lemma_spec_string_append(t1, w);
        lemma_spec_string_consumes(t1);
        match spec_string(t1) {
            Option::None => {},
            Option::Some((key, r1)) => {
                lemma_ws_append(r1, w);
                lemma_spec_ws(r1);
                let t2 = spec_ws(r1);
                if t2.len() > 0 {
                    assert((t2 + w)[0] == t2[0]);
                    if t2[0] == ':' {
                        assert((t2 + w).skip(1) =~= t2.skip(1) + w);
                        lemma_spec_element_append(t2.skip(1), w);
                    }
                }
            },
        }
    }
}

/// Appending whitespace changes neither the recognised member list
/// nor its leftover input.
pub proof fn lemma_spec_members_append(s: Seq<char>, w: Seq<char>)
    requires
        all_ws(w),
    ensures
        spec_members(s) matches Some((ms, r)) ==> spec_members(s + w) == Some(
            (ms, ws_app(r, w)),
        ) && spec_ws(r) == r,
        spec_members(s) is None ==> spec_members(s + w) is None,
    decreases s.len(), 4int,
{
    lemma_spec_member_append(s, w);
    lemma_spec_member_consumes(s);
    match spec_member(s) {
        Option::None => {},
        Option::Some((kv, r1)) => {
            if r1.len() > 0 {
                assert((r1 + w)[0] == r1[0]);
                if r1[0] == ',' {
                    assert((r1 + w).skip(1) =~= r1.skip(1) + w);
                    lemma_spec_members_append(r1.skip(1), w);
                }
            }
        },
    }
}

/// LAW: whitespace insensitivity of the entry production — wrapping
/// any input in whitespace changes neither the recognised value, nor
/// whether the input is consumed completely, nor failure.
pub proof fn lemma_element_ws_insensitive(w1: Seq<char>, s: Seq<char>, w2: Seq<char>)
    requires
        all_ws(w1),
        all_ws(w2),
    ensures
        spec_element(s) matches Some((v, r)) ==> spec_element(w1 + s + w2) == Some(
            (v, ws_app(r, w2)),
        ),
        spec_element(s) is None ==> spec_element(w1 + s + w2) is None,
{
    lemma_spec_element_append(s, w2);
    lemma_spec_ws_concat(w1, s + w2);
    assert(w1 + s + w2 =~= w1 + (s + w2));
    assert(spec_ws(w1 + (s + w2)) == spec_ws(s + w2));
}

/// A digit run with no leading zero: the magnitude of an integer
/// literal (a lone `0` is allowed).
pub open spec fn is_digit_run_literal(d: Seq<char>) -> bool {
    &&& d.len() > 0
    &&& forall|i: int| 0 <= i < d.len() ==> is_digit_char(d[i])
    &&& d[0] == '0' ==> d.len() == 1
}

/// A purely integral JSON literal: an optional `-`, then a digit run
/// with no leading zero — no fraction, no exponent.
pub open spec fn is_integer_literal(s: Seq<char>) -> bool {
    if s.len() > 0 && s[0] == '-' {
        is_digit_run_literal(s.skip(1))
    } else {
        is_digit_run_literal(s)
    }
}

/// LAW: every valid integral literal whose magnitude fits the 64-bit
/// representation parses, as a complete input, to the exact integer
/// variant — the sign matches the literal's sign and the magnitude is
/// the literal's decimal value, with no precision loss.
pub proof fn lemma_parse_integer_literal(s: Seq<char>)
    requires
        is_integer_literal(s),
        s[0] == '-' ==> digits_val(s.skip(1)) <= 0x8000_0000_0000_0000,
        s[0] != '-' ==> digits_val(s) <= u64::MAX,
    ensures
        s[0] == '-' ==> spec_element(s) == Some(
            (
                ValueModel::Number(
                    NumberModel::NegativeInteger((-(digits_val(s.skip(1)) as int)) as i64),
                ),
                Seq::<char>::empty(),
            ),
        ),
        s[0] != '-' ==> spec_element(s) == Some(
            (
                ValueModel::Number(NumberModel::PositiveInteger(digits_val(s) as u64)),
                Seq::<char>::empty(),
            ),
        ),
{
    assert(spec_ws(s) == s);
    let empty = Seq::<char>::empty();
    if s[0] == '-' {
        let t = s.skip(1);
        if t[0] == '0' {
            assert(t =~= seq!['0']);
            assert(t.skip(1) =~= empty);
            assert(seq!['0'].drop_last() =~= empty);
            assert(digits_val(empty) == 0);
            assert(digit_val('0') == 0);
            assert(digits_val(seq!['0']) == digits_val(empty) * 10 + digit_val('0'));
            assert(digits_val(t) == 0);
            assert(spec_integer(s) == Some((true, seq!['0'], empty)));
            assert(digits_val(spec_integer(s)->Some_0.1) == digits_val(t));
        } else {
            lemma_skip_digits_all(t);
            assert(spec_skip_digits(t) =~= empty);
            assert(t.take(t.len() - 0) =~= t);
            assert(spec_integer(s) == Some((true, t, empty)));
        }
    } else {
        if s[0] == '0' {
            assert(s =~= seq!['0']);
            assert(s.skip(1) =~= empty);
            assert(seq!['0'].drop_last() =~= empty);
            assert(digits_val(seq!['0']) == 0);
            assert(spec_integer(s) == Some((false, seq!['0'], empty)));
            assert(digits_val(spec_integer(s)->Some_0.1) == digits_val(s));
        } else {
            lemma_skip_digits_all(s);
            assert(spec_skip_digits(s) =~= empty);
            assert(s.take(s.len() - 0) =~= s);
            assert(spec_integer(s) == Some((false, s, empty)));
        }
    }
    assert(spec_fraction(empty) == (Option::<Seq<char>>::None, empty));
    assert(spec_exponent(empty) == (Option::<(bool, Seq<char>)>::None, empty));
    assert(spec_object(s) is None);
    assert(spec_array(s) is None);
    assert(spec_ws(empty) == empty);
}

/// LAW: every literal with a fraction and/or an exponent parses, as a
/// complete input, to the float variant carrying exactly the canonical
/// decimal text `<int>[.<frac>][E<sign><exp>]` rebuilt from the
/// literal's own parts (see [`float_literal_source`] for the source
/// shape and [`float_text`] for the canonical text).
pub proof fn lemma_parse_float_literal(
    neg: bool,
    mag: Seq<char>,
    frac: Option<Seq<char>>,
    ex: Option<(char, Option<char>, Seq<char>)>,
)
    requires
        is_digit_run_literal(mag),
        frac matches Some(f) ==> f.len() > 0 && (forall|i: int|
            0 <= i < f.len() ==> is_digit_char(f[i])),
        ex matches Some((e, sg, d)) ==> (e == 'e' || e == 'E') && (sg matches Some(c) ==> c == '+'
            || c == '-') && d.len() > 0 && (forall|i: int|
            0 <= i < d.len() ==> is_digit_char(d[i])),
        !(frac is None && ex is None),
    ensures
        spec_element(float_literal_source(neg, mag, frac, ex)) == Some(
            (
                ValueModel::Number(
                    NumberModel::Float(float_text(neg, mag, frac, exponent_model(ex))),
                ),
                Seq::<char>::empty(),
            ),
        ),
{
    let empty = Seq::<char>::empty();
    let s = float_literal_source(neg, mag, frac, ex);
    lemma_number_of_float_parts(neg, mag, frac, ex);
    assert(s.len() > 0 && (s[0] == '-' || is_digit_char(s[0]))) by {
        if neg {
            assert(s[0] == (seq!['-'] + mag)[0]);
        } else {
            assert(s[0] == mag[0]);
        }
    }
    assert(spec_ws(s) == s);
    assert(spec_object(s) is None);
    assert(spec_array(s) is None);
    assert(spec_ws(empty) == empty);
}

/// Recognises the `value` production, trying the alternatives in their
/// fixed order: object, array, number, string, `null`, `true`, `false`.
pub fn value_parser<'a>(input: &'a str) -> (r: Result<(&'a str, Value), ParseError>)
    ensures
        match r {
            Ok((rest, v)) => spec_value(input@) == Some((v@, rest@)) && v.wf(),
            Err(e) => spec_value(input@) is None && e.kind != ParseErrorKind::TrailingInput,
        },
    decreases input@.len(), 1int,
{
    match object(input) {
        Ok((rest, m)) => Ok((rest, Value::Object(m))),
        Err(_) => match array(input) {
            Ok((rest, a)) => Ok((rest, Value::Array(a))),
            Err(_) => match crate::number::number(input) {
                Ok((rest, n)) => Ok((rest, Value::Number(n))),
                Err(_) => match crate::string::string(input) {
                    Ok((rest, js)) => Ok((rest, Value::String(js.0))),
                    Err(_) => match crate::null::null(input) {
                        Ok((rest, _)) => Ok((rest, Value::Null)),
                        Err(_) => match crate::boolean::true_parser(input) {
                            Ok((rest, _)) => Ok((rest, Value::True)),
                            Err(_) => match crate::boolean::false_parser(input) {
                                Ok((rest, _)) => Ok((rest, Value::False)),
                                Err(e) => Err(e),
                            },
                        },
                    },
                },
            },
        },
    }
}

/// Recognises the `object` production and returns its members in
/// source order, duplicate keys already overwritten by their last
/// occurrence.
pub fn object<'a>(input: &'a str) -> (r: Result<(&'a str, Vec<(String, Value)>), ParseError>)
    ensures
        match r {
            Ok((rest, obj)) => spec_object(input@) matches Some((m, sr)) && sr == rest@
                && map_of_members(entries_model(obj@)) == m && keys_distinct(obj@) && (forall|
                i: int,
            | 0 <= i < obj@.len() ==> (#[trigger] obj@[i]).1.wf()),
            Err(e) => spec_object(input@) is None && e.kind != ParseErrorKind::TrailingInput,
        },
    decreases input@.len(), 0int,
{
    let (t1, _) = ws(input)?;
    proof {
        lemma_spec_ws(input@);
    }
    let n1 = t1.unicode_len();
    if n1 == 0 || t1.get_char(0) != '{' {
        return Err(ParseError { kind: ParseErrorKind::UnexpectedChar, remaining: n1 });
    }
    let t1b = t1.substring_char(1, n1);
    proof {
        assert(t1@.subrange(1, n1 as int) =~= t1@.skip(1));
        lemma_spec_ws(t1@.skip(1));
    }
    let (t2, _) = ws(t1b)?;
    let n2 = t2.unicode_len();
    if n2 > 0 && t2.get_char(0) == '}' {
        let t2b = t2.substring_char(1, n2);
        proof {
            assert(t2@.subrange(1, n2 as int) =~= t2@.skip(1));
        }
        let (t3, _) = ws(t2b)?;
        let out: Vec<(String, Value)> = Vec::new();
        proof {
            assert(entries_model(out@) =~= Seq::<(Seq<char>, ValueModel)>::empty());
        }
        return Ok((t3, out));
    }
    let (t3, ms) = members(t2)?;
    let (t4, _) = ws(t3)?;
    let n4 = t4.unicode_len();
    if n4 == 0 || t4.get_char(0) != '}' {
        return Err(ParseError { kind: ParseErrorKind::UnexpectedChar, remaining: n4 });
    }
    let t4b = t4.substring_char(1, n4);
    proof {
        assert(t4@.subrange(1, n4 as int) =~= t4@.skip(1));
    }
    let (t5, _) = ws(t4b)?;
    let out = dedup_members(ms);
    Ok((t5, out))
}

/// Recognises the `members` production: members chained by commas,
/// keeping duplicates; the object assembly resolves them afterwards.
pub fn members<'a>(input: &'a str) -> (r: Result<(&'a str, Vec<(String, Value)>), ParseError>)
    ensures
        match r {
            Ok((rest, ms)) => spec_members(input@) == Some((entries_model(ms@), rest@)) && (forall|
                i: int,
            | 0 <= i < ms@.len() ==> (#[trigger] ms@[i]).1.wf()),
            Err(e) => spec_members(input@) is None && e.kind != ParseErrorKind::TrailingInput,
        },
    decreases input@.len(), 4int,
{
    let (r1, kv) = member(input)?;
    proof {
        lemma_spec_member_consumes(input@);
    }
    let n1 = r1.unicode_len();
    if n1 > 0 && r1.get_char(0) == ',' {
        let tail = r1.substring_char(1, n1);
        proof {
            assert(r1@.subrange(1, n1 as int) =~= r1@.skip(1));
        }
        match members(tail) {
            Ok((r2, ms)) => {
                let ghost gms = ms@;
                let ghost gkv = kv;
                let mut out: Vec<(String, Value)> = Vec::new();
                out.push(kv);
                let mut ms2 = ms;
                out.append(&mut ms2);
                proof {
                    lemma_entries_model(gms);
                    lemma_entries_model(out@);
                    assert(entries_model(out@) =~= seq![(gkv.0@, gkv.1.model())] + entries_model(
                        gms,
                    ));
                }
                Ok((r2, out))
            },
            Err(_) => {
                let ghost gkv = kv;
                let mut out: Vec<(String, Value)> = Vec::new();
                out.push(kv);
                proof {
                    lemma_entries_model(out@);
                    assert(entries_model(out@) =~= seq![(gkv.0@, gkv.1.model())]);
                }
                Ok((r1, out))
            },
        }
    } else {
        let ghost gkv = kv;
        let mut out: Vec<(String, Value)> = Vec::new();
        out.push(kv);
        proof {
            lemma_entries_model(out@);
            assert(entries_model(out@) =~= seq![(gkv.0@, gkv.1.model())]);
        }
        Ok((r1, out))
    }
}

/// Recognises the `member` production: a whitespace-enclosed key
/// string, `:`, then an element.
pub fn member<'a>(input: &'a str) -> (r: Result<(&'a str, (String, Value)), ParseError>)
    ensures
        match r {
            Ok((rest, kv)) => spec_member(input@) == Some(((kv.0@, kv.1.model()), rest@))
                && kv.1.wf(),
            Err(e) => spec_member(input@) is None && e.kind != ParseErrorKind::TrailingInput,
        },
    decreases input@.len(), 3int,
{
    let (t1, _) = ws(input)?;
    proof {
        lemma_spec_ws(input@);
    }
    let (r1, key) = crate::string::string(t1)?;
    proof {
        lemma_spec_string_consumes(t1@);
        lemma_spec_ws(r1@);
    }
    let (t2, _) = ws(r1)?;
    let n2 = t2.unicode_len();
    if n2 == 0 || t2.get_char(0) != ':' {
        return Err(ParseError { kind: ParseErrorKind::UnexpectedChar, remaining: n2 });
    }
    let tail = t2.substring_char(1, n2);
    proof {
        assert(t2@.subrange(1, n2 as int) =~= t2@.skip(1));
    }
    let (r2, v) = element(tail)?;
    Ok((r2, (key.0, v)))
}

/// Recognises the `array` production.
pub fn array<'a>(input: &'a str) -> (r: Result<(&'a str, Vec<Value>), ParseError>)
    ensures
        match r {
            Ok((rest, es)) => spec_array(input@) matches Some((ms, sr)) && sr == rest@
                && elems_model(es@) == ms && (forall|i: int|
                0 <= i < es@.len() ==> (#[trigger] es@[i]).wf()),
            Err(e) => spec_array(input@) is None && e.kind != ParseErrorKind::TrailingInput,
        },
    decreases input@.len(), 0int,
{
    let n = input.unicode_len();
    if n == 0 || input.get_char(0) != '[' {
        return Err(ParseError { kind: ParseErrorKind::UnexpectedChar, remaining: n });
    }
    let tail = input.substring_char(1, n);
    proof {
        assert(input@.subrange(1, n as int) =~= input@.skip(1));
    }
    let (t, _) = ws(tail)?;
    let nt = t.unicode_len();
    if nt > 0 && t.get_char(0) == ']' {
        let out: Vec<Value> = Vec::new();
        proof {
            assert(t@.subrange(1, nt as int) =~= t@.skip(1));
            assert(elems_model(out@) =~= Seq::<ValueModel>::empty());
        }
        return Ok((t.substring_char(1, nt), out));
    }
    match elements(tail) {
        Ok((r, es)) => {
            let nr = r.unicode_len();
            if nr > 0 && r.get_char(0) == ']' {
                proof {
                    assert(r@.subrange(1, nr as int) =~= r@.skip(1));
                }
                Ok((r.substring_char(1, nr), es))
            } else {
                Err(ParseError { kind: ParseErrorKind::UnexpectedChar, remaining: nr })
            }
        },
        Err(e) => Err(e),
    }
}

/// Recognises the `elements` production: elements chained by commas.
pub fn elements<'a>(input: &'a str) -> (r: Result<(&'a str, Vec<Value>), ParseError>)
    ensures
        match r {
            Ok((rest, es)) => spec_elements(input@) == Some((elems_model(es@), rest@)) && (forall|
                i: int,
            | 0 <= i < es@.len() ==> (#[trigger] es@[i]).wf()),
            Err(e) => spec_elements(input@) is None && e.kind != ParseErrorKind::TrailingInput,
        },
    decreases input@.len(), 3int,
{
    let (r1, v) = element(input)?;
    proof {
        lemma_spec_element_consumes(input@);
    }
    let n1 = r1.unicode_len();
    if n1 > 0 && r1.get_char(0) == ',' {
        let tail = r1.substring_char(1, n1);
        proof {
            assert(r1@.subrange(1, n1 as int) =~= r1@.skip(1));
        }
        match elements(tail) {
            Ok((r2, es)) => {
                let ghost ges = es@;
                let ghost gv = v;
                let mut out: Vec<Value> = Vec::new();
                out.push(v);
                let mut es2 = es;
                out.append(&mut es2);
                proof {
                    lemma_elems_model(ges);
                    lemma_elems_model(out@);
                    assert(elems_model(out@) =~= seq![gv.model()] + elems_model(ges));
                }
                Ok((r2, out))
            },
            Err(_) => {
                let ghost gv = v;
                let mut out: Vec<Value> = Vec::new();
                out.push(v);
                proof {
                    lemma_elems_model(out@);
                    assert(elems_model(out@) =~= seq![gv.model()]);
                }
                Ok((r1, out))
            },
        }
    } else {
        let ghost gv = v;
        let mut out: Vec<Value> = Vec::new();
        out.push(v);
        proof {
            lemma_elems_model(out@);
            assert(elems_model(out@) =~= seq![gv.model()]);
        }
        Ok((r1, out))
    }
}

/// Recognises the `element` production: a value enclosed in
/// whitespace.
pub fn element<'a>(input: &'a str) -> (r: Result<(&'a str, Value), ParseError>)
    ensures
        match r {
            Ok((rest, v)) => spec_element(input@) == Some((v@, rest@)) && v.wf(),
            Err(e) => spec_element(input@) is None && e.kind != ParseErrorKind::TrailingInput,
        },
    decreases input@.len(), 2int,
{
    let (t, _) = ws(input)?;
    proof {
        lemma_spec_ws(input@);
    }
    let (r1, v) = value_parser(t)?;
    let (r2, _) = ws(r1)?;
    Ok((r2, v))
}

/// The root production: one whitespace-enclosed value.
pub fn json<'a>(input: &'a str) -> (r: Result<(&'a str, Value), ParseError>)
    ensures
        match r {
            Ok((rest, v)) => spec_element(input@) == Some((v@, rest@)) && v.wf(),
            Err(e) => spec_element(input@) is None && e.kind != ParseErrorKind::TrailingInput,
        },
{
    element(input)
}

/// Parses a complete JSON text.
///
/// Succeeds exactly when one `element` production consumes the whole
/// input, and then returns its value, which is well formed: every
/// object in the tree has distinct keys.  When a value is recognised
/// but input remains, the error is [`ParseErrorKind::TrailingInput`]
/// and reports how many characters were left; when no value is
/// recognised, the error is never `TrailingInput`.
pub fn parse(input: &str) -> (r: Result<Value, ParseError>)
    ensures
        match r {
            Ok(v) => v.wf() && (spec_element(input@) matches Some((m, rest)) && m == v@
                && rest.len() == 0),
            Err(e) => match spec_element(input@) {
                Option::Some((m, rest)) => rest.len() > 0 && e.kind
                    == ParseErrorKind::TrailingInput && e.remaining == rest.len(),
                Option::None => e.kind != ParseErrorKind::TrailingInput,
            },
        },
{
    let (rest, v) = json(input)?;
    let n = rest.unicode_len();
    if n == 0 {
        Ok(v)
    } else {
        Err(ParseError { kind: ParseErrorKind::TrailingInput, remaining: n })
    }
}

} // verus!

