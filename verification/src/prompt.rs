//! The state that rendering threads from one segment to the next: the colours in
//! force, the glyph that the last segment asked for, and the values captured so far.

use crate::part::{texts, EndType};
use crate::text::{decimal, decimal_string};
use vstd::prelude::*;
use vstd::string::*;

verus! {

/// Rendering state, owned by one pass over the segments.
#[derive(Clone, Debug, PartialEq, Eq)]
pub struct Prompt {
    /// The background colour last switched to; empty before the first switch.
    pub background: String,
    /// The foreground colour last switched to; empty before the first switch.
    pub foreground: String,
    /// The padding written on both sides of a value.
    pub space_char: String,
    /// The glyph that the segment rendered last asked to be closed with.
    pub last_end: EndType,
    /// The captured values in slot order: entry `i` fills slot `i + 1`.
    pub psvars: Vec<String>,
}

/// What a `Prompt` holds, as plain sequences.
pub struct PromptView {
    pub background: Seq<char>,
    pub foreground: Seq<char>,
    pub space_char: Seq<char>,
    pub last_end: EndType,
    pub psvars: Seq<Seq<char>>,
}

impl View for Prompt {
    type V = PromptView;

    open spec fn view(&self) -> PromptView {
        PromptView {
            background: self.background@,
            foreground: self.foreground@,
            space_char: self.space_char@,
            last_end: self.last_end,
            psvars: texts(self.psvars@),
        }
    }
}

/// The escape that switches the foreground to `color`.
pub open spec fn foreground_escape(color: Seq<char>) -> Seq<char> {
    "%F{"@ + color + "}"@
}

/// The escape that switches the background to `color`.
pub open spec fn background_escape(color: Seq<char>) -> Seq<char> {
    "%K{"@ + color + "}"@
}

/// Whether asking for `color` while `current` is in force changes anything: the empty
/// colour asks for nothing, and so does the colour already in force.
pub open spec fn changes_color(current: Seq<char>, color: Seq<char>) -> bool {
    color.len() > 0 && color != current
}

impl PromptView {
    /// The state before anything is rendered, with `separator` as padding.
    pub open spec fn initial(separator: Seq<char>) -> PromptView {
        PromptView {
            background: Seq::empty(),
            foreground: Seq::empty(),
            space_char: separator,
            last_end: EndType::Blank,
            psvars: Seq::empty(),
        }
    }

    /// The text emitted when the foreground `color` is asked for.
    pub open spec fn foreground_change(self, color: Seq<char>) -> Seq<char> {
        if changes_color(self.foreground, color) {
            foreground_escape(color)
        } else {
            Seq::empty()
        }
    }

    /// The state after the foreground `color` was asked for.
    pub open spec fn with_foreground(self, color: Seq<char>) -> PromptView {
        if changes_color(self.foreground, color) {
            PromptView { foreground: color, ..self }
        } else {
            self
        }
    }

    /// The text emitted when the background `color` is asked for.
    pub open spec fn background_change(self, color: Seq<char>) -> Seq<char> {
        if changes_color(self.background, color) {
            background_escape(color)
        } else {
            Seq::empty()
        }
    }

    /// The state after the background `color` was asked for.
    pub open spec fn with_background(self, color: Seq<char>) -> PromptView {
        if changes_color(self.background, color) {
            PromptView { background: color, ..self }
        } else {
            self
        }
    }

    /// The text that leads from the previous segment into one with the given background.
    /// After a left triangle the foreground takes the new colour first, so that the glyph
    /// is drawn in it on the old background. Otherwise the background changes first, and
    /// the glyph is drawn on it in whatever foreground is in force.
    pub open spec fn boundary(self, background: Seq<char>) -> Seq<char> {
        if self.last_end == EndType::LeftTriangle {
            self.foreground_change(background) + self.last_end.glyph() + self.with_foreground(
                background,
            ).background_change(background)
        } else {
            self.background_change(background) + self.last_end.glyph()
        }
    }

    /// The state after `boundary`, with `next_end` noted for the following boundary.
    pub open spec fn after_boundary(self, next_end: EndType, background: Seq<char>) -> PromptView {
        let entered = if self.last_end == EndType::LeftTriangle {
            self.with_foreground(background).with_background(background)
        } else {
            self.with_background(background)
        };
        PromptView { last_end: next_end, ..entered }
    }
}

/// The line that binds entry `i` of the captured values to a shell variable.
pub open spec fn local_line(i: nat, value: Seq<char>) -> Seq<char> {
    "local a"@ + decimal(i) + "="@ + value + ";"@
}

/// The names of the first `n` shell variables, `$a0` onwards, with one space between them.
pub open spec fn slot_names(n: nat) -> Seq<char>
    decreases n,
{
    if n == 0 {
        Seq::empty()
    } else if n == 1 {
        "$a"@ + decimal(0)
    } else {
        slot_names((n - 1) as nat) + " "@ + "$a"@ + decimal((n - 1) as nat)
    }
}

/// The line that exports the first `n` shell variables as the slots 1 to `n`, in order.
pub open spec fn export_line(n: nat) -> Seq<char> {
    "export psvar=("@ + slot_names(n) + ");"@
}

/// The shell function that evaluates every captured value before each prompt and
/// exports them in slot order: a header, one binding per value, the export, a footer.
pub open spec fn precmd_lines(psvars: Seq<Seq<char>>) -> Seq<Seq<char>> {
    seq!["precmd() {"@] + Seq::new(psvars.len(), |i: int| local_line(i as nat, psvars[i]))
        + seq![export_line(psvars.len()), "}"@]
}

impl Prompt {
    /// The state before anything is rendered, with one space as padding.
    pub fn default() -> (r: Prompt)
        ensures
            r@ == PromptView::initial(" "@),
    {
        Prompt::with_seperator(String::from_str(" "))
    }

    /// The state before anything is rendered, with `seperator` as padding.
    pub fn with_seperator(seperator: String) -> (r: Prompt)
        ensures
            r@ == PromptView::initial(seperator@),
    {
        let r = Prompt {
            background: String::new(),
            foreground: String::new(),
            space_char: seperator,
            last_end: EndType::Blank,
            psvars: Vec::new(),
        };
        assert(texts(r.psvars@) =~= Seq::<Seq<char>>::empty());
        r
    }

    /// The padding written on both sides of a value.
    pub fn get_seperator(&self) -> (r: String)
        ensures
            r@ == self@.space_char,
    {
        self.space_char.clone()
    }

    /// Asks for the foreground `color`. Emits the escape and records the colour, unless
    /// the colour is empty or already in force: then nothing is emitted or changed.
    pub fn get_foreground_string(&mut self, color: String) -> (r: String)
        ensures
            r@ == old(self)@.foreground_change(color@),
            final(self)@ == old(self)@.with_foreground(color@),
    {
        if self.foreground == color || color.as_str().is_empty() {
            String::new()
        } else {
            self.foreground = color;
            let mut r = String::from_str("%F{");
            r.append(self.foreground.as_str());
            r.append("}");
            r
        }
    }

    /// Asks for the background `color`. Emits the escape and records the colour, unless
    /// the colour is empty or already in force: then nothing is emitted or changed.
    pub fn get_background_string(&mut self, color: String) -> (r: String)
        ensures
            r@ == old(self)@.background_change(color@),
            final(self)@ == old(self)@.with_background(color@),
    {
        if self.background == color || color.as_str().is_empty() {
            String::new()
        } else {
            self.background = color;
            let mut r = String::from_str("%K{");
            r.append(self.background.as_str());
            r.append("}");
            r
        }
    }

    /// Leads from the previous segment into one with the given background, draws the
    /// glyph that the previous segment asked for, and notes `next_end` for the next call.
    pub fn get_last_end(&mut self, next_end: EndType, background: String) -> (r: String)
        ensures
            r@ == old(self)@.boundary(background@),
            final(self)@ == old(self)@.after_boundary(next_end, background@),
    {
        let mut r: String;
        if self.last_end == EndType::LeftTriangle {
            r = self.get_foreground_string(background.clone());
            r.append(self.last_end.as_str());
            let back = self.get_background_string(background);
            r.append(back.as_str());
        } else {
            r = self.get_background_string(background);
            r.append(self.last_end.as_str());
        }
        self.last_end = next_end;
        r
    }

    /// Appends a captured value and returns the number of the slot that it fills.
    pub fn add_psvar(&mut self, psvar: String) -> (r: usize)
        ensures
            final(self)@ == (PromptView { psvars: old(self)@.psvars.push(psvar@), ..old(self)@ }),
            r == old(self)@.psvars.len() + 1,
    {
        self.psvars.push(psvar);
        assert(texts(self.psvars@) =~= texts(old(self).psvars@).push(psvar@));
        self.psvars.len()
    }

    /// The lines of the shell function that evaluates and exports the captured values.
    pub fn precmd(&self) -> (r: Vec<String>)
        ensures
            texts(r@) == precmd_lines(self@.psvars),
    {
        let n: usize = self.psvars.len();
        let mut lines: Vec<String> = Vec::new();
        lines.push(String::from_str("precmd() {"));
        let mut names = String::new();
        let mut i: usize = 0;
        let ghost bindings = Seq::new(n as nat, |k: int| local_line(k as nat, self@.psvars[k]));
        assert(texts(lines@) =~= seq!["precmd() {"@] + bindings.take(0));
        while i < n
            invariant
                n == self.psvars@.len(),
                i <= n,
                bindings == Seq::new(n as nat, |k: int| local_line(k as nat, self@.psvars[k])),
                texts(lines@) == seq!["precmd() {"@] + bindings.take(i as int),
                names@ == slot_names(i as nat),
            decreases n - i,
        {
            let number = decimal_string(i);
            let mut line = String::from_str("local a");
            line.append(number.as_str());
            line.append("=");
            line.append(self.psvars[i].as_str());
            line.append(";");
            let ghost before = texts(lines@);
            lines.push(line);
            proof {
                assert(line@ == bindings[i as int]);
                assert(texts(lines@) =~= before.push(line@));
                assert(bindings.take(i + 1) =~= bindings.take(i as int).push(bindings[i as int]));
                assert(texts(lines@) =~= seq!["precmd() {"@] + bindings.take(i + 1));
            }
            if i > 0 {
                names.append(" ");
            }
            names.append("$a");
            names.append(number.as_str());
            proof {
                if i == 0 {
                    assert(names@ =~= "$a"@ + decimal(0));
                }
            }
            i += 1;
        }
        let mut export = String::from_str("export psvar=(");
        export.append(names.as_str());
        export.append(");");
        let ghost before = texts(lines@);
        lines.push(export);
        assert(texts(lines@) =~= before.push(export@));
        let ghost before = texts(lines@);
        lines.push(String::from_str("}"));
        proof {
            assert(texts(lines@) =~= before.push("}"@));
            assert(bindings.take(n as int) =~= bindings);
            assert(texts(lines@) =~= precmd_lines(self@.psvars));
        }
        lines
    }
}

/// A colour asked for twice in a row is switched to once: the second request emits
/// nothing and leaves the state as the first left it. So does any request for the
/// empty colour.
pub proof fn lemma_color_change_idempotent(state: PromptView, color: Seq<char>)
    ensures
        state.with_foreground(color).foreground_change(color) == Seq::<char>::empty(),
        state.with_foreground(color).with_foreground(color) == state.with_foreground(color),
        state.with_background(color).background_change(color) == Seq::<char>::empty(),
        state.with_background(color).with_background(color) == state.with_background(color),
        state.foreground_change(Seq::empty()) == Seq::<char>::empty(),
        state.with_foreground(Seq::empty()) == state,
        state.background_change(Seq::empty()) == Seq::<char>::empty(),
        state.with_background(Seq::empty()) == state,
{
}

/// The shell function binds each captured value once, in slot order: after the header
/// comes one line for each value, then the export of as many names, then the footer.
pub proof fn lemma_precmd_lines(psvars: Seq<Seq<char>>)
    ensures
        precmd_lines(psvars).len() == psvars.len() + 3,
        precmd_lines(psvars)[0] == "precmd() {"@,
        forall|i: int|
            0 <= i < psvars.len() ==> #[trigger] precmd_lines(psvars)[i + 1] == local_line(
                i as nat,
                psvars[i],
            ),
        precmd_lines(psvars)[psvars.len() as int + 1] == export_line(psvars.len()),
        precmd_lines(psvars)[psvars.len() as int + 2] == "}"@,
{
}

} // verus!
