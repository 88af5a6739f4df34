//! Rendering: a segment, rendered in the state that the segments before it left,
//! gives a piece of prompt text and the state for the segment after it.

use crate::error::ParseError;
use crate::part::{part_views, EndType, Part, PartView};
use crate::prompt::{foreground_escape, Prompt, PromptView};
use crate::text::{expand_escapes, same_text};
use crate::value::{is_capture, is_conditional, is_guarded_capture, resolve, ResolvedView};
use vstd::prelude::*;
use vstd::string::*;

verus! {

/// The outcome of rendering: the text, and the state to go on with.
pub struct Rendered {
    pub state: PromptView,
    pub text: Seq<char>,
}

/// The text of one segment, put together from its pieces: `lead` leads in from the
/// previous segment, `fore` switches to the segment's foreground, `text` is its value
/// after escape expansion, and `back` switches the foreground to the segment's
/// background for the glyph that follows.
///
/// A value that is exactly one line feed is written bare, whatever test it has.
/// Without a test the value is padded on both sides. With a test and no else-branch
/// the whole segment stands inside the conditional. With both, only the value does.
pub open spec fn compose(
    lead: Seq<char>,
    fore: Seq<char>,
    pad: Seq<char>,
    text: Seq<char>,
    value: ResolvedView,
    back: Seq<char>,
) -> Seq<char> {
    if text == seq!['\n'] {
        lead + fore + text + back
    } else {
        match value.condition {
            None => lead + fore + pad + text + pad + back,
            Some(test) => match value.else_rendered {
                None => "%"@ + test + "."@ + lead + fore + pad + text + pad + back + ".)"@,
                Some(otherwise) => lead + fore + pad + "%"@ + test + "."@ + text + "."@
                    + otherwise + ")"@ + pad + back,
            },
        }
    }
}

/// The text that leads into `part` from the segment before it.
pub open spec fn segment_lead(state: PromptView, part: PartView) -> Seq<char> {
    state.boundary(part.background)
}

/// The text that switches to the foreground of `part`, once it is entered.
pub open spec fn segment_fore(state: PromptView, part: PartView) -> Seq<char> {
    state.after_boundary(part.end, part.background).foreground_change(part.foreground)
}

/// The text that closes `part`: it switches the foreground to the background of `part`,
/// so that the glyph that follows is drawn in it.
pub open spec fn segment_back(state: PromptView, part: PartView) -> Seq<char> {
    state.after_boundary(part.end, part.background).with_foreground(
        part.foreground,
    ).foreground_change(part.background)
}

/// The colours and the glyph in force after `part`.
pub open spec fn segment_state(state: PromptView, part: PartView) -> PromptView {
    state.after_boundary(part.end, part.background).with_foreground(
        part.foreground,
    ).with_foreground(part.background)
}

/// One segment rendered in `state`. Its value is resolved and takes its slots; its text
/// is put together from the lead, the two colour switches and the resolved value, whose
/// rendered text alone has its escapes expanded. A malformed value is an error.
pub open spec fn render_part(state: PromptView, part: PartView) -> Result<Rendered, ParseError> {
    match resolve(part.value, state.psvars.len()) {
        Err(e) => Err(e),
        Ok(res) => Ok(
            Rendered {
                state: PromptView {
                    psvars: state.psvars + res.captures,
                    ..segment_state(state, part)
                },
                text: compose(
                    segment_lead(state, part),
                    segment_fore(state, part),
                    state.space_char,
                    expand_escapes(res.value.rendered),
                    res.value,
                    segment_back(state, part),
                ),
            },
        ),
    }
}

/// The segments of one descriptor rendered in order, each in the state that the one
/// before it left; their texts joined. Fails with the error of the first segment whose
/// value is malformed.
pub open spec fn render_parts(state: PromptView, parts: Seq<PartView>) -> Result<
    Rendered,
    ParseError,
>
    decreases parts.len(),
{
    if parts.len() == 0 {
        Ok(Rendered { state, text: Seq::empty() })
    } else {
        match render_parts(state, parts.drop_last()) {
            Err(e) => Err(e),
            Ok(done) => match render_part(done.state, parts.last()) {
                Err(e) => Err(e),
                Ok(last) => Ok(Rendered { state: last.state, text: done.text + last.text }),
            },
        }
    }
}

impl Part {
    /// Renders this segment in the state `s` and moves `s` on. A malformed value
    /// expression is an error and leaves `s` as it was.
    pub fn to_prompt_format(self, s: &mut Prompt) -> (r: Result<String, ParseError>)
        ensures
            match render_part(old(s)@, self@) {
                Ok(done) => (r matches Ok(text) && text@ == done.text) && final(s)@ == done.state,
                Err(e) => (r matches Err(x) && x == e) && final(s)@ == old(s)@,
            },
    {
        let resolved = match Part::get_value(self.value.as_str(), s) {
            Ok(resolved) => resolved,
            Err(e) => {
                return Err(e);
            },
        };
        let ghost value = resolved@;
        let text = Part::expand(resolved.rendered);
        let lead = s.get_last_end(self.end, self.background.clone());
        let fore = s.get_foreground_string(self.foreground);
        let back = s.get_foreground_string(self.background);
        let pad = s.get_seperator();
        proof {
            reveal_strlit("\n");
            assert("\n"@ =~= seq!['\n']);
        }
        let mut out = String::new();
        if same_text(text.as_str(), "\n") {
            out.append(lead.as_str());
            out.append(fore.as_str());
            out.append(text.as_str());
            out.append(back.as_str());
        } else {
            match resolved.condition {
                None => {
                    out.append(lead.as_str());
                    out.append(fore.as_str());
                    out.append(pad.as_str());
                    out.append(text.as_str());
                    out.append(pad.as_str());
                    out.append(back.as_str());
                },
                Some(test) => match resolved.else_rendered {
                    None => {
                        out.append("%");
                        out.append(test.as_str());
                        out.append(".");
                        out.append(lead.as_str());
                        out.append(fore.as_str());
                        out.append(pad.as_str());
                        out.append(text.as_str());
                        out.append(pad.as_str());
                        out.append(back.as_str());
                        out.append(".)");
                    },
                    Some(otherwise) => {
                        out.append(lead.as_str());
                        out.append(fore.as_str());
                        out.append(pad.as_str());
                        out.append("%");
                        out.append(test.as_str());
                        out.append(".");
                        out.append(text.as_str());
                        out.append(".");
                        out.append(otherwise.as_str());
                        out.append(")");
                        out.append(pad.as_str());
                        out.append(back.as_str());
                    },
                },
            }
        }
        assert(out@ =~= compose(lead@, fore@, pad@, text@, value, back@));
        Ok(out)
    }
}

/// Renders the segments of one descriptor in order and joins their texts. Returns the
/// text with the state to go on with, or the error of the first malformed value.
pub fn render_descriptor(parts: Vec<Part>, prompt: Prompt) -> (r: Result<
    (String, Prompt),
    ParseError,
>)
    ensures
        match render_parts(prompt@, part_views(parts@)) {
            Ok(done) => r matches Ok(pair) && pair.0@ == done.text && pair.1@ == done.state,
            Err(e) => r matches Err(x) && x == e,
        },
{
    let ghost start = prompt@;
    let ghost all = part_views(parts@);
    let mut state = prompt;
    let mut out = String::new();
    assert(all.take(0) =~= Seq::<PartView>::empty());
    for part in it: parts
        invariant
            it.seq() == parts@,
            start == prompt@,
            all == part_views(parts@),
            render_parts(start, all.take(it.index())) == Ok::<Rendered, ParseError>(
                Rendered { state: state@, text: out@ },
            ),
    {
        let ghost i = it.index();
        proof {
            assert(all.take(i + 1).drop_last() =~= all.take(i));
            assert(all.take(i + 1).last() == part@);
        }
        match part.to_prompt_format(&mut state) {
            Ok(text) => {
                out.append(text.as_str());
            },
            Err(e) => {
                proof {
                    assert(render_parts(start, all.take(i + 1)) == Err::<Rendered, ParseError>(e));
                    lemma_render_parts_prefix_error(start, all, i + 1);
                }
                return Err(e);
            },
        }
    }
    assert(all.take(all.len() as int) =~= all);
    Ok((out, state))
}

/// Where rendering a prefix of the segments fails, rendering all of them fails alike.
pub proof fn lemma_render_parts_prefix_error(state: PromptView, parts: Seq<PartView>, k: int)
    requires
        0 <= k <= parts.len(),
        render_parts(state, parts.take(k)) is Err,
    ensures
        render_parts(state, parts) == render_parts(state, parts.take(k)),
    decreases parts.len() - k,
{
    if k < parts.len() {
        assert(parts.take(k + 1).drop_last() =~= parts.take(k));
        lemma_render_parts_prefix_error(state, parts, k + 1);
    } else {
        assert(parts.take(k) =~= parts);
    }
}

/// Two segments in a row with the same background switch to it once: the second leads
/// in with the bare glyph of the first and no colour escape.
pub proof fn lemma_background_switched_once(state: PromptView, first: PartView, second: PartView)
    requires
        first.background == second.background,
        render_part(state, first) is Ok,
    ensures
        segment_lead(render_part(state, first)->Ok_0.state, second) == first.end.glyph(),
{
    let after = render_part(state, first)->Ok_0.state;
    assert(segment_lead(after, second) =~= first.end.glyph());
}

/// Whether the foreground that `first` asked for is still in force when the value of
/// `second` is about to be written: no background that differs from it has been made
/// the foreground for a glyph in between.
pub open spec fn keeps_foreground(first: PartView, second: PartView) -> bool {
    if first.end == EndType::LeftTriangle && second.background.len() > 0 {
        second.background == first.foreground
    } else {
        first.background.len() > 0 ==> first.background == first.foreground
    }
}

/// Two segments in a row with the same foreground switch to it once, unless another
/// colour became the foreground in between: the second emits no foreground escape
/// exactly if the foreground of the first is still in force.
pub proof fn lemma_foreground_switched_once(state: PromptView, first: PartView, second: PartView)
    requires
        first.foreground == second.foreground,
        first.foreground.len() > 0,
        render_part(state, first) is Ok,
    ensures
        segment_fore(render_part(state, first)->Ok_0.state, second) == Seq::<char>::empty()
            <==> keeps_foreground(first, second),
{
    assert(foreground_escape(second.foreground).len() > 0);
}

/// A segment whose value comes to exactly one line feed is written without padding,
/// whatever test and else-branch the value has: its text is the lead, the switch to its
/// foreground, the line feed, and the closing switch.
pub proof fn lemma_line_feed_unpadded(state: PromptView, part: PartView)
    requires
        resolve(part.value, state.psvars.len()) matches Ok(res) && expand_escapes(
            res.value.rendered,
        ) == seq!['\n'],
    ensures
        render_part(state, part) matches Ok(done) && done.text == segment_lead(state, part)
            + segment_fore(state, part) + seq!['\n'] + segment_back(state, part),
{
}

/// A segment whose value is `\n`, a backslash and the letter, is one line feed between
/// its colour switches in every state, and captures nothing.
pub proof fn lemma_line_feed_value(state: PromptView, part: PartView)
    requires
        part.value == seq!['\\', 'n'],
    ensures
        render_part(state, part) matches Ok(done) && done.text == segment_lead(state, part)
            + segment_fore(state, part) + seq!['\n'] + segment_back(state, part)
            && done.state.psvars == state.psvars,
{
    let v = part.value;
    assert(!is_capture(v));
    assert(!is_guarded_capture(v));
    assert(!is_conditional(v));
    assert(v.skip(2) =~= Seq::<char>::empty());
    assert(expand_escapes(v) =~= seq!['\n']) by {
        reveal_with_fuel(expand_escapes, 2);
    }
    assert(state.psvars + Seq::<Seq<char>>::empty() =~= state.psvars);
}

} // verus!
