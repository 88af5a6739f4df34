//! Value expressions. An expression is a command capture `$(..)`, a capture guarded by
//! `?`, a conditional `?test;yes;no`, or literal text.

use crate::error::ParseError;
use crate::part::Part;
use crate::prompt::{Prompt, PromptView};
use crate::text::{
    chars_of, count_digits, decimal, decimal_string, digit_run, expand_escapes, expand_text,
    find_char, first_true, index_of, lemma_first_true, lemma_first_true_is,
    lemma_index_of, slice_owned,
};
use vstd::prelude::*;
use vstd::string::*;

verus! {

/// What a value expression resolves to.
#[derive(Clone, Debug, PartialEq, Eq)]
pub struct ResolvedValue {
    /// The text to emit: literal text, or a reference to the slot of a captured value.
    pub rendered: String,
    /// The test that decides whether `rendered` is shown; `None` where it always is.
    pub condition: Option<String>,
    /// The text shown where the test fails; `None` where that is nothing.
    pub else_rendered: Option<String>,
}

/// What a `ResolvedValue` holds, as plain sequences of characters.
pub struct ResolvedView {
    pub rendered: Seq<char>,
    pub condition: Option<Seq<char>>,
    pub else_rendered: Option<Seq<char>>,
}

/// The characters of an optional string.
pub open spec fn optional_text(s: Option<String>) -> Option<Seq<char>> {
    match s {
        Some(t) => Some(t@),
        None => None,
    }
}

impl View for ResolvedValue {
    type V = ResolvedView;

    open spec fn view(&self) -> ResolvedView {
        ResolvedView {
            rendered: self.rendered@,
            condition: optional_text(self.condition),
            else_rendered: optional_text(self.else_rendered),
        }
    }
}

/// A resolved value together with the values that resolving it captured, in the order
/// in which they were met.
pub struct Resolution {
    pub value: ResolvedView,
    pub captures: Seq<Seq<char>>,
}

/// Whether `v` is a command capture: it opens with `$(`.
pub open spec fn is_capture(v: Seq<char>) -> bool {
    v.len() >= 2 && v[0] == '$' && v[1] == '('
}

/// For each position of `v`, whether `$(` begins there.
pub open spec fn capture_hits(v: Seq<char>) -> Seq<bool> {
    Seq::new(v.len(), |i: int| v[i] == '$' && i + 1 < v.len() && v[i + 1] == '(')
}

/// Position of the first `$(` in `v`, or the length of `v` where it has none.
pub open spec fn capture_index(v: Seq<char>) -> int {
    first_true(capture_hits(v))
}

/// Whether `v` is a guarded capture: it opens with `?` and holds `$(` before any `;`.
pub open spec fn is_guarded_capture(v: Seq<char>) -> bool {
    v.len() > 0 && v[0] == '?' && capture_index(v) < index_of(v, ';')
}

/// Whether `v` is a conditional: it opens with `?` and is no guarded capture.
pub open spec fn is_conditional(v: Seq<char>) -> bool {
    v.len() > 0 && v[0] == '?' && !is_guarded_capture(v)
}

/// Whether `v` holds a `;`.
pub open spec fn has_field_end(v: Seq<char>) -> bool {
    index_of(v, ';') < v.len()
}

/// The text of `v` before its first `;`, or all of `v` where it has none.
pub open spec fn first_field(v: Seq<char>) -> Seq<char> {
    v.take(index_of(v, ';'))
}

/// The text of `v` after its first `;`.
pub open spec fn after_field(v: Seq<char>) -> Seq<char> {
    v.skip(index_of(v, ';') + 1)
}

/// Field `k` of `v`, counted from zero, where `;` parts the fields; `None` where `v`
/// has fewer fields.
pub open spec fn field(v: Seq<char>, k: nat) -> Option<Seq<char>>
    decreases k,
{
    if k == 0 {
        Some(first_field(v))
    } else if has_field_end(v) {
        field(after_field(v), (k - 1) as nat)
    } else {
        None
    }
}

/// A field and the `k` separators before it fit into `v`.
pub proof fn lemma_field_len(v: Seq<char>, k: nat)
    ensures
        field(v, k) matches Some(f) ==> f.len() + k <= v.len(),
    decreases k,
{
    lemma_index_of(v, ';');
    if k > 0 && has_field_end(v) {
        lemma_field_len(after_field(v), (k - 1) as nat);
    }
}

/// The reference to a slot's value.
pub open spec fn placeholder(slot: nat) -> Seq<char> {
    "%"@ + decimal(slot) + "v"@
}

/// The test that holds where a slot is filled.
pub open spec fn slot_guard(slot: nat) -> Seq<char> {
    decimal(slot) + "(v"@
}

/// The test of a conditional: the digits that `test` begins with, an opening bracket,
/// and what follows the digits.
pub open spec fn numbered_guard(test: Seq<char>) -> Seq<char> {
    test.take(digit_run(test)) + "("@ + test.skip(digit_run(test))
}

/// `text` as an else-branch: the empty text counts as no branch.
pub open spec fn else_branch(text: Seq<char>) -> Option<Seq<char>> {
    if text.len() == 0 {
        None
    } else {
        Some(text)
    }
}

/// What the value expression `v` resolves to when `used` slots are taken already.
///
/// A capture takes the next slot and renders as a reference to it. A guarded capture
/// captures from its first `$` on, is shown only where the slot is filled, and has the
/// text between `?` and `$` as its else-branch. A conditional needs a numbered test and
/// a first branch; its branches are resolved in turn and contribute their rendered text
/// only; fields after the third are ignored. Anything else is literal text.
pub open spec fn resolve(v: Seq<char>, used: nat) -> Result<Resolution, ParseError>
    decreases v.len(),
    via resolve_decreases
{
    if is_capture(v) {
        Ok(
            Resolution {
                value: ResolvedView {
                    rendered: placeholder(used + 1),
                    condition: None,
                    else_rendered: None,
                },
                captures: seq![v],
            },
        )
    } else if is_guarded_capture(v) {
        Ok(
            Resolution {
                value: ResolvedView {
                    rendered: placeholder(used + 1),
                    condition: Some(slot_guard(used + 1)),
                    else_rendered: else_branch(v.subrange(1, index_of(v, '$'))),
                },
                captures: seq![v.skip(index_of(v, '$'))],
            },
        )
    } else if is_conditional(v) {
        let test = first_field(v).skip(1);
        if digit_run(test) == 0 {
            Err(ParseError::MalformedCondition)
        } else {
            match field(v, 1) {
                None => Err(ParseError::IncompleteExpression),
                Some(first) => match resolve(first, used) {
                    Err(e) => Err(e),
                    Ok(yes) => match field(v, 2) {
                        None => Ok(
                            Resolution {
                                value: ResolvedView {
                                    rendered: yes.value.rendered,
                                    condition: Some(numbered_guard(test)),
                                    else_rendered: None,
                                },
                                captures: yes.captures,
                            },
                        ),
                        Some(second) => match resolve(second, used + yes.captures.len()) {
                            Err(e) => Err(e),
                            Ok(no) => Ok(
                                Resolution {
                                    value: ResolvedView {
                                        rendered: yes.value.rendered,
                                        condition: Some(numbered_guard(test)),
                                        else_rendered: else_branch(no.value.rendered),
                                    },
                                    captures: yes.captures + no.captures,
                                },
                            ),
                        },
                    },
                },
            }
        }
    } else {
        Ok(
            Resolution {
                value: ResolvedView { rendered: v, condition: None, else_rendered: None },
                captures: Seq::empty(),
            },
        )
    }
}

#[via_fn]
proof fn resolve_decreases(v: Seq<char>, used: nat) {
    lemma_field_len(v, 1);
    lemma_field_len(v, 2);
}

/// The values that the expression `v` captures, in the order in which they are met.
pub open spec fn captured(v: Seq<char>) -> Seq<Seq<char>>
    decreases v.len(),
    via captured_decreases
{
    if is_capture(v) {
        seq![v]
    } else if is_guarded_capture(v) {
        seq![v.skip(index_of(v, '$'))]
    } else if is_conditional(v) {
        match field(v, 1) {
            None => Seq::empty(),
            Some(first) => captured(first) + match field(v, 2) {
                None => Seq::empty(),
                Some(second) => captured(second),
            },
        }
    } else {
        Seq::empty()
    }
}

#[via_fn]
proof fn captured_decreases(v: Seq<char>) {
    lemma_field_len(v, 1);
    lemma_field_len(v, 2);
}

/// What an expression captures does not depend on the slots taken before it.
pub proof fn lemma_resolve_captures(v: Seq<char>, used: nat)
    ensures
        resolve(v, used) matches Ok(res) ==> res.captures == captured(v),
    decreases v.len(),
{
    if !is_capture(v) && !is_guarded_capture(v) && is_conditional(v) {
        lemma_field_len(v, 1);
        lemma_field_len(v, 2);
        if let Some(first) = field(v, 1) {
            lemma_resolve_captures(first, used);
            if let Ok(yes) = resolve(first, used) {
                if let Some(second) = field(v, 2) {
                    lemma_resolve_captures(second, used + yes.captures.len());
                    assert(yes.captures + Seq::<Seq<char>>::empty() =~= yes.captures);
                } else {
                    assert(captured(first) + Seq::<Seq<char>>::empty() =~= captured(first));
                }
            }
        }
    }
}

/// `capture_index` of `v`, found by a scan from the left.
fn find_capture(v: &Vec<char>) -> (r: usize)
    ensures
        r == capture_index(v@),
        r <= v@.len(),
{
    let n: usize = v.len();
    let mut i: usize = 0;
    while i < n && !(v[i] == '$' && i + 1 < n && v[i + 1] == '(')
        invariant
            n == v@.len(),
            i <= n,
            forall|j: int| 0 <= j < i ==> !capture_hits(v@)[j],
        decreases n - i,
    {
        i += 1;
    }
    proof {
        lemma_first_true_is(capture_hits(v@), i as int);
    }
    i
}

/// The reference to the value of slot `slot`.
fn placeholder_text(slot: usize) -> (r: String)
    ensures
        r@ == placeholder(slot as nat),
{
    let mut r = String::from_str("%");
    r.append(decimal_string(slot).as_str());
    r.append("v");
    r
}

/// Field `k` of `value`, or `None` where it has fewer fields.
fn nth_field(value: &str, k: usize) -> (r: Option<String>)
    ensures
        optional_text(r) == field(value@, k as nat),
{
    let v = chars_of(value);
    let n: usize = v.len();
    let mut start: usize = 0;
    let mut left: usize = k;
    assert(value@.skip(0) =~= value@);
    while left > 0
        invariant
            v@ == value@,
            n == v@.len(),
            start <= n,
            field(value@, k as nat) == field(value@.skip(start as int), left as nat),
        decreases left,
    {
        let ghost rest = value@.skip(start as int);
        assert(v@.subrange(start as int, n as int) =~= rest);
        let semi = find_char(&v, start, n, ';');
        if semi == n {
            return None;
        }
        assert(after_field(rest) =~= value@.skip(semi + 1));
        start = semi + 1;
        left -= 1;
    }
    let ghost rest = value@.skip(start as int);
    assert(v@.subrange(start as int, n as int) =~= rest);
    let semi = find_char(&v, start, n, ';');
    assert(first_field(rest) =~= value@.subrange(start as int, semi as int));
    Some(slice_owned(value, start, semi))
}

/// The first field of a conditional, less the `?` that it opens with.
fn test_text(value: &str) -> (r: String)
    requires
        value@.len() > 0,
        value@[0] == '?',
    ensures
        r@ == first_field(value@).skip(1),
{
    let v = chars_of(value);
    let n: usize = v.len();
    assert(v@.subrange(0, n as int) =~= value@);
    let semi = find_char(&v, 0, n, ';');
    assert(value@.subrange(1, semi as int) =~= first_field(value@).skip(1));
    slice_owned(value, 1, semi)
}

/// The test of a conditional whose first field, less its `?`, is `test`; `None` where
/// `test` does not begin with a digit.
fn guard_text(test: &str) -> (r: Option<String>)
    ensures
        optional_text(r) == if digit_run(test@) == 0 {
            None
        } else {
            Some(numbered_guard(test@))
        },
{
    let v = chars_of(test);
    let n: usize = v.len();
    assert(v@.subrange(0, n as int) =~= test@);
    let digits = count_digits(&v, 0, n);
    if digits == 0 {
        return None;
    }
    let mut guard = slice_owned(test, 0, digits);
    guard.append("(");
    guard.append(test.substring_char(digits, n));
    proof {
        assert(test@.subrange(0, digits as int) =~= test@.take(digits as int));
        assert(test@.subrange(digits as int, n as int) =~= test@.skip(digits as int));
    }
    Some(guard)
}

/// Whether `value` is a guarded capture; where it is, the position of its first `$`.
fn guarded_capture_at(value: &str) -> (r: Option<usize>)
    ensures
        r is Some == is_guarded_capture(value@),
        r matches Some(at) ==> at == index_of(value@, '$') && 1 <= at < value@.len(),
{
    let v = chars_of(value);
    let n: usize = v.len();
    if n == 0 || v[0] != '?' {
        return None;
    }
    assert(v@.subrange(0, n as int) =~= value@);
    let semi = find_char(&v, 0, n, ';');
    let capture = find_capture(&v);
    if capture < semi {
        proof {
            lemma_first_true(capture_hits(v@));
            assert(capture_hits(v@)[capture as int]);
        }
        Some(find_char(&v, 0, n, '$'))
    } else {
        None
    }
}

/// Whether `value` is a command capture.
fn opens_capture(value: &str) -> (r: bool)
    ensures
        r == is_capture(value@),
{
    value.unicode_len() >= 2 && value.get_char(0) == '$' && value.get_char(1) == '('
}

/// Whether `after` is `before` with nothing changed but values captured at the end.
pub open spec fn only_captured(before: PromptView, after: PromptView) -> bool {
    &&& before.psvars.len() <= after.psvars.len()
    &&& before == (PromptView { psvars: after.psvars.take(before.psvars.len() as int), ..after })
}

/// Resolves `value`, handing each capture to `p`. Where it fails, it has changed nothing
/// in `p` but may have captured values that come before the failure.
fn resolve_into(value: &str, p: &mut Prompt) -> (r: Result<ResolvedValue, ParseError>)
    ensures
        only_captured(old(p)@, final(p)@),
        match resolve(value@, old(p)@.psvars.len()) {
            Ok(res) => r is Ok && r->Ok_0@ == res.value && final(p)@.psvars == old(p)@.psvars
                + res.captures,
            Err(e) => r matches Err(x) && x == e,
        },
    decreases value@.len(),
{
    let ghost before = p@.psvars;
    assert(before.take(before.len() as int) =~= before);
    if opens_capture(value) {
        let slot = p.add_psvar(String::from_str(value));
        proof {
            assert(p@.psvars =~= before + seq![value@]);
            assert(p@.psvars.take(before.len() as int) =~= before);
        }
        return Ok(
            ResolvedValue {
                rendered: placeholder_text(slot),
                condition: None,
                else_rendered: None,
            },
        );
    }
    if let Some(at) = guarded_capture_at(value) {
        let n: usize = value.unicode_len();
        let capture = slice_owned(value, at, n);
        let slot = p.add_psvar(capture);
        proof {
            assert(capture@ =~= value@.skip(at as int));
            assert(p@.psvars =~= before + seq![capture@]);
            assert(p@.psvars.take(before.len() as int) =~= before);
        }
        let mut guard = decimal_string(slot);
        guard.append("(v");
        let otherwise = slice_owned(value, 1, at);
        return Ok(
            ResolvedValue {
                rendered: placeholder_text(slot),
                condition: Some(guard),
                else_rendered: if at == 1 {
                    None
                } else {
                    Some(otherwise)
                },
            },
        );
    }
    if value.is_empty() || value.get_char(0) != '?' {
        return Ok(
            ResolvedValue {
                rendered: String::from_str(value),
                condition: None,
                else_rendered: None,
            },
        );
    }
    let test = test_text(value);
    let guard = match guard_text(test.as_str()) {
        Some(guard) => guard,
        None => {
            return Err(ParseError::MalformedCondition);
        },
    };
    let first = match nth_field(value, 1) {
        Some(first) => first,
        None => {
            return Err(ParseError::IncompleteExpression);
        },
    };
    proof {
        lemma_field_len(value@, 1);
        lemma_field_len(value@, 2);
    }
    let yes = match resolve_into(first.as_str(), p) {
        Ok(yes) => yes,
        Err(e) => {
            return Err(e);
        },
    };
    let ghost between = p@.psvars;
    let second = match nth_field(value, 2) {
        Some(second) => second,
        None => {
            return Ok(
                ResolvedValue {
                    rendered: yes.rendered,
                    condition: Some(guard),
                    else_rendered: None,
                },
            );
        },
    };
    let no = match resolve_into(second.as_str(), p) {
        Ok(no) => no,
        Err(e) => {
            proof {
                assert(p@.psvars.take(before.len() as int) =~= between.take(before.len() as int));
            }
            return Err(e);
        },
    };
    proof {
        let one = resolve(first@, before.len()).unwrap();
        let two = resolve(second@, before.len() + one.captures.len()).unwrap();
        assert(p@.psvars =~= before + (one.captures + two.captures));
        assert(p@.psvars.take(before.len() as int) =~= before);
    }
    let otherwise = if no.rendered.as_str().is_empty() {
        None
    } else {
        Some(no.rendered)
    };
    Ok(ResolvedValue { rendered: yes.rendered, condition: Some(guard), else_rendered: otherwise })
}

impl Part {
    /// Resolves the value expression `value` against the slots that `p` has handed out.
    /// Every value that the expression captures takes the next free slot of `p`, in the
    /// order in which it is met. A malformed expression leaves `p` as it was.
    pub fn get_value(value: &str, p: &mut Prompt) -> (r: Result<ResolvedValue, ParseError>)
        ensures
            match resolve(value@, old(p)@.psvars.len()) {
                Ok(res) => r is Ok && r->Ok_0@ == res.value && final(p)@ == (PromptView {
                    psvars: old(p)@.psvars + res.captures,
                    ..old(p)@
                }),
                Err(e) => (r matches Err(x) && x == e) && final(p)@ == old(p)@,
            },
    {
        let used: usize = p.psvars.len();
        let r = resolve_into(value, p);
        if r.is_err() {
            p.psvars.truncate(used);
            assert(p@.psvars =~= old(p)@.psvars);
        }
        r
    }

    /// `s` with every escape `\n` replaced by a line feed. Nothing else is an escape.
    pub fn expand(s: String) -> (r: String)
        ensures
            r@ == expand_escapes(s@),
    {
        expand_text(s.as_str())
    }
}

} // verus!
