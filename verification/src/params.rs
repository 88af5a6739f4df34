//! The argument list and the finished output: which arguments are descriptors, which
//! set the padding, and the lines that the shell evaluates.

use crate::error::ParseError;
use crate::part::{locate_descriptor, part_views, texts, Part, PartView};
use crate::prompt::{
    export_line, lemma_precmd_lines, local_line, precmd_lines, Prompt, PromptView,
};
use crate::render::{render_descriptor, render_parts};
use crate::text::same_text;
use crate::value::{captured, lemma_resolve_captures};
use vstd::prelude::*;
use vstd::string::*;

verus! {

/// A malformed descriptor: which one, where in it, and what is wrong with it.
#[derive(Clone, Copy, Debug, PartialEq, Eq, Structural)]
pub struct PromptError {
    /// The position of the descriptor among the descriptors of the argument list,
    /// counted from zero.
    pub index: usize,
    /// The byte offset, in the descriptor, of the raw part that is malformed; `None`
    /// where a value is malformed, since a segment does not record where it stood.
    pub offset: Option<usize>,
    pub error: ParseError,
}

/// What the argument list asks for.
#[derive(Clone, Debug, PartialEq, Eq)]
pub struct Params {
    /// The segments of each descriptor, in the order of the descriptors.
    pub parts: Vec<Vec<Part>>,
    /// The padding written on both sides of a value.
    pub seperator: String,
}

/// What a `Params` holds, as plain sequences.
pub struct ParamsView {
    pub parts: Seq<Seq<PartView>>,
    pub seperator: Seq<char>,
}

/// The views of the segments of each descriptor of `v`.
pub open spec fn group_views(v: Seq<Vec<Part>>) -> Seq<Seq<PartView>> {
    Seq::new(v.len(), |i: int| part_views(v[i]@))
}

impl View for Params {
    type V = ParamsView;

    open spec fn view(&self) -> ParamsView {
        ParamsView { parts: group_views(self.parts@), seperator: self.seperator@ }
    }
}

/// Where reading the argument list stands: what was asked for so far, and whether the
/// argument that comes next is the padding.
pub struct ArgState {
    pub params: ParamsView,
    pub awaits_seperator: bool,
}

/// The state before any argument is read: no descriptor, one space as padding.
pub open spec fn no_args() -> ArgState {
    ArgState {
        params: ParamsView { parts: Seq::empty(), seperator: " "@ },
        awaits_seperator: false,
    }
}

/// The state after one more argument. The argument after `--seperator` is the padding,
/// whatever it looks like. Any other argument that begins with `-` is an option: an
/// unknown one is ignored. Every other argument is a descriptor.
pub open spec fn read_arg(state: ArgState, arg: Seq<char>) -> Result<ArgState, PromptError> {
    if state.awaits_seperator {
        Ok(
            ArgState {
                params: ParamsView { seperator: arg, ..state.params },
                awaits_seperator: false,
            },
        )
    } else if arg.len() > 0 && arg[0] == '-' {
        Ok(ArgState { awaits_seperator: arg == "--seperator"@, ..state })
    } else {
        match locate_descriptor(arg) {
            Err(fault) => Err(
                PromptError {
                    index: state.params.parts.len() as usize,
                    offset: Some(fault.offset),
                    error: fault.error,
                },
            ),
            Ok(parts) => Ok(
                ArgState {
                    params: ParamsView { parts: state.params.parts.push(parts), ..state.params },
                    ..state
                },
            ),
        }
    }
}

/// The state after all of `args`, read in order, or the first malformed descriptor.
pub open spec fn read_args(args: Seq<Seq<char>>) -> Result<ArgState, PromptError>
    decreases args.len(),
{
    if args.len() == 0 {
        Ok(no_args())
    } else {
        match read_args(args.drop_last()) {
            Err(e) => Err(e),
            Ok(state) => read_arg(state, args.last()),
        }
    }
}

/// The outcome of rendering several descriptors: one text for each, and the state.
pub struct RenderedGroups {
    pub state: PromptView,
    pub texts: Seq<Seq<char>>,
}

/// The descriptors rendered in order, each in the state that the one before it left.
/// Fails at the first descriptor that holds a malformed value.
pub open spec fn render_groups(state: PromptView, groups: Seq<Seq<PartView>>) -> Result<
    RenderedGroups,
    PromptError,
>
    decreases groups.len(),
{
    if groups.len() == 0 {
        Ok(RenderedGroups { state, texts: Seq::empty() })
    } else {
        match render_groups(state, groups.drop_last()) {
            Err(e) => Err(e),
            Ok(done) => match render_parts(done.state, groups.last()) {
                Err(e) => Err(
                    PromptError { index: (groups.len() - 1) as usize, offset: None, error: e },
                ),
                Ok(last) => Ok(
                    RenderedGroups { state: last.state, texts: done.texts.push(last.text) },
                ),
            },
        }
    }
}

/// The line that appends the text of one descriptor to the prompt.
pub open spec fn append_line(text: Seq<char>) -> Seq<char> {
    "PROMPT+=$'"@ + text + "';"@
}

/// The whole output: a line that empties the prompt, one line for each descriptor that
/// appends its text, and the shell function that fills the slots.
pub open spec fn prompt_script(params: ParamsView) -> Result<Seq<Seq<char>>, PromptError> {
    match render_groups(PromptView::initial(params.seperator), params.parts) {
        Err(e) => Err(e),
        Ok(done) => Ok(
            seq!["PROMPT='';"@] + Seq::new(done.texts.len(), |i: int| append_line(done.texts[i]))
                + precmd_lines(done.state.psvars),
        ),
    }
}

impl Params {
    /// Reads the argument list, the program's own name left out.
    pub fn from_args(args: Vec<String>) -> (r: Result<Params, PromptError>)
        ensures
            match read_args(texts(args@)) {
                Ok(state) => r matches Ok(params) && params@ == state.params,
                Err(e) => r matches Err(x) && x == e,
            },
    {
        let ghost all = texts(args@);
        let mut params = Params { parts: Vec::new(), seperator: String::from_str(" ") };
        let mut awaits_seperator = false;
        proof {
            assert(all.take(0) =~= Seq::<Seq<char>>::empty());
            assert(params@.parts =~= Seq::<Seq<PartView>>::empty());
        }
        for arg in it: args
            invariant
                it.seq() == args@,
                all == texts(args@),
                read_args(all.take(it.index())) == Ok::<ArgState, PromptError>(
                    ArgState { params: params@, awaits_seperator },
                ),
        {
            let ghost i = it.index();
            let ghost before = params@;
            proof {
                assert(all.take(i + 1).drop_last() =~= all.take(i));
                assert(all.take(i + 1).last() == arg@);
            }
            if awaits_seperator {
                params.seperator = arg;
                awaits_seperator = false;
            } else if !arg.as_str().is_empty() && arg.as_str().get_char(0) == '-' {
                awaits_seperator = same_text(arg.as_str(), "--seperator");
            } else {
                match Part::read_descriptor(arg.as_str()) {
                    Ok(parts) => {
                        params.parts.push(parts);
                        assert(params@.parts =~= before.parts.push(part_views(parts@)));
                    },
                    Err(fault) => {
                        let index: usize = params.parts.len();
                        proof {
                            lemma_read_args_prefix_error(all, i + 1);
                        }
                        return Err(
                            PromptError { index, offset: Some(fault.offset), error: fault.error },
                        );
                    },
                }
            }
        }
        assert(all.take(all.len() as int) =~= all);
        Ok(params)
    }

    /// The lines to print: they set the prompt and define the shell function that fills
    /// the slots. Fails, with nothing to print, at the first malformed value.
    pub fn prompt_lines(self) -> (r: Result<Vec<String>, PromptError>)
        ensures
            match prompt_script(self@) {
                Ok(lines) => r matches Ok(v) && texts(v@) == lines,
                Err(e) => r matches Err(x) && x == e,
            },
    {
        let ghost groups = self@.parts;
        let ghost start = PromptView::initial(self.seperator@);
        let mut state = Prompt::with_seperator(self.seperator);
        let mut lines: Vec<String> = Vec::new();
        lines.push(String::from_str("PROMPT='';"));
        let ghost rendered: Seq<Seq<char>> = Seq::empty();
        proof {
            assert(groups.take(0) =~= Seq::<Seq<PartView>>::empty());
            assert(texts(lines@) =~= seq!["PROMPT='';"@] + Seq::new(
                rendered.len(),
                |i: int| append_line(rendered[i]),
            ));
        }
        for group in it: self.parts
            invariant
                it.seq() == self.parts@,
                groups == group_views(self.parts@),
                start == PromptView::initial(self@.seperator),
                lines@.len() == it.index() + 1,
                render_groups(start, groups.take(it.index())) == Ok::<RenderedGroups, PromptError>(
                    RenderedGroups { state: state@, texts: rendered },
                ),
                texts(lines@) == seq!["PROMPT='';"@] + Seq::new(
                    rendered.len(),
                    |i: int| append_line(rendered[i]),
                ),
        {
            let ghost i = it.index();
            let index: usize = lines.len() - 1;
            proof {
                assert(groups.take(i + 1).drop_last() =~= groups.take(i));
                assert(groups.take(i + 1).last() == part_views(group@));
            }
            match render_descriptor(group, state) {
                Ok((text, next)) => {
                    state = next;
                    let mut line = String::from_str("PROMPT+=$'");
                    line.append(text.as_str());
                    line.append("';");
                    let ghost before = texts(lines@);
                    lines.push(line);
                    proof {
                        let grown = rendered.push(text@);
                        assert(texts(lines@) =~= before.push(append_line(text@)));
                        assert(texts(lines@) =~= seq!["PROMPT='';"@] + Seq::new(
                            grown.len(),
                            |i: int| append_line(grown[i]),
                        ));
                        rendered = grown;
                    }
                },
                Err(e) => {
                    proof {
                        assert(render_groups(start, groups.take(i + 1)) == Err::<
                            RenderedGroups,
                            PromptError,
                        >(PromptError { index, offset: None, error: e }));
                        lemma_render_groups_prefix_error(start, groups, i + 1);
                    }
                    return Err(PromptError { index, offset: None, error: e });
                },
            }
        }
        proof {
            assert(groups.take(groups.len() as int) =~= groups);
        }
        let mut trailer = state.precmd();
        let ghost before = texts(lines@);
        let ghost after = texts(trailer@);
        lines.append(&mut trailer);
        assert(texts(lines@) =~= before + after);
        Ok(lines)
    }
}

/// Where a prefix of the argument list holds a malformed descriptor, reading the whole
/// list fails alike.
pub proof fn lemma_read_args_prefix_error(args: Seq<Seq<char>>, k: int)
    requires
        0 <= k <= args.len(),
        read_args(args.take(k)) is Err,
    ensures
        read_args(args) == read_args(args.take(k)),
    decreases args.len() - k,
{
    if k < args.len() {
        assert(args.take(k + 1).drop_last() =~= args.take(k));
        lemma_read_args_prefix_error(args, k + 1);
    } else {
        assert(args.take(k) =~= args);
    }
}

/// Where rendering a prefix of the descriptors fails, rendering all of them fails alike.
pub proof fn lemma_render_groups_prefix_error(
    state: PromptView,
    groups: Seq<Seq<PartView>>,
    k: int,
)
    requires
        0 <= k <= groups.len(),
        render_groups(state, groups.take(k)) is Err,
    ensures
        render_groups(state, groups) == render_groups(state, groups.take(k)),
    decreases groups.len() - k,
{
    if k < groups.len() {
        assert(groups.take(k + 1).drop_last() =~= groups.take(k));
        lemma_render_groups_prefix_error(state, groups, k + 1);
    } else {
        assert(groups.take(k) =~= groups);
    }
}

/// The values that the segments of one descriptor capture, in order.
pub open spec fn captured_by_parts(parts: Seq<PartView>) -> Seq<Seq<char>>
    decreases parts.len(),
{
    if parts.len() == 0 {
        Seq::empty()
    } else {
        captured_by_parts(parts.drop_last()) + captured(parts.last().value)
    }
}

/// The values that the descriptors capture, in order.
pub open spec fn captured_by_groups(groups: Seq<Seq<PartView>>) -> Seq<Seq<char>>
    decreases groups.len(),
{
    if groups.len() == 0 {
        Seq::empty()
    } else {
        captured_by_groups(groups.drop_last()) + captured_by_parts(groups.last())
    }
}

/// Rendering one descriptor appends what its segments capture, from left to right, to
/// the captured values: the entries that were there keep their slots.
pub proof fn lemma_parts_fill_slots_in_order(state: PromptView, parts: Seq<PartView>)
    requires
        render_parts(state, parts) is Ok,
    ensures
        render_parts(state, parts)->Ok_0.state.psvars == state.psvars + captured_by_parts(parts),
    decreases parts.len(),
{
    if parts.len() == 0 {
        assert(state.psvars + captured_by_parts(parts) =~= state.psvars);
    } else {
        let done = render_parts(state, parts.drop_last())->Ok_0;
        lemma_parts_fill_slots_in_order(state, parts.drop_last());
        lemma_resolve_captures(parts.last().value, done.state.psvars.len());
        assert(render_parts(state, parts)->Ok_0.state.psvars =~= state.psvars + captured_by_parts(
            parts,
        ));
    }
}

/// Rendering the descriptors appends what they capture, from left to right.
pub proof fn lemma_groups_fill_slots_in_order(state: PromptView, groups: Seq<Seq<PartView>>)
    requires
        render_groups(state, groups) is Ok,
    ensures
        render_groups(state, groups)->Ok_0.state.psvars == state.psvars + captured_by_groups(
            groups,
        ),
    decreases groups.len(),
{
    if groups.len() == 0 {
        assert(state.psvars + captured_by_groups(groups) =~= state.psvars);
    } else {
        let done = render_groups(state, groups.drop_last())->Ok_0;
        lemma_groups_fill_slots_in_order(state, groups.drop_last());
        lemma_parts_fill_slots_in_order(done.state, groups.last());
        assert(render_groups(state, groups)->Ok_0.state.psvars =~= state.psvars
            + captured_by_groups(groups));
    }
}

/// The output declares one slot for each value that the descriptors capture, in the
/// order in which they are met from left to right: after one line for each descriptor,
/// line `i` of the shell function binds value `i` to the name `a` with the number `i`,
/// and the export lists those names in the same order, so that value `i` fills slot
/// `i + 1`.
pub proof fn lemma_slots_follow_captures(params: ParamsView)
    requires
        prompt_script(params) is Ok,
    ensures
        ({
            let lines = prompt_script(params)->Ok_0;
            let values = captured_by_groups(params.parts);
            let groups = params.parts.len() as int;
            &&& lines.len() == groups + values.len() + 4
            &&& forall|i: int|
                0 <= i < values.len() ==> #[trigger] lines[groups + 2 + i] == local_line(
                    i as nat,
                    values[i],
                )
            &&& lines[groups + 2 + values.len() as int] == export_line(values.len())
        }),
{
    let start = PromptView::initial(params.seperator);
    let done = render_groups(start, params.parts)->Ok_0;
    lemma_groups_fill_slots_in_order(start, params.parts);
    lemma_render_groups_len(start, params.parts);
    assert(start.psvars + captured_by_groups(params.parts) =~= captured_by_groups(params.parts));
    lemma_precmd_lines(done.state.psvars);
    let lines = prompt_script(params)->Ok_0;
    let values = captured_by_groups(params.parts);
    let groups = params.parts.len() as int;
    assert forall|i: int| 0 <= i < values.len() implies #[trigger] lines[groups + 2 + i]
        == local_line(i as nat, values[i]) by {
        assert(lines[groups + 2 + i] == precmd_lines(values)[i + 1]);
    }
    let count = values.len() as int;
    assert(lines[groups + 2 + count] == precmd_lines(values)[count + 1]);
}

/// Rendering gives one text for each descriptor.
pub proof fn lemma_render_groups_len(state: PromptView, groups: Seq<Seq<PartView>>)
    requires
        render_groups(state, groups) is Ok,
    ensures
        render_groups(state, groups)->Ok_0.texts.len() == groups.len(),
    decreases groups.len(),
{
    if groups.len() > 0 {
        lemma_render_groups_len(state, groups.drop_last());
    }
}

} // verus!
