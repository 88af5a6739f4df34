//! Segments and the descriptor grammar: a descriptor is cut into raw parts at its
//! delimiter characters, and each raw part is read as an optional colour group, a
//! value expression and a closing glyph.

use crate::error::{Fault, ParseError};
use crate::text::{
    byte_len, chars_of, find_char, first_true, index_of, lemma_first_true, lemma_first_true_is,
    slice_owned,
};
use vstd::seq_lib::lemma_flatten_concat;
use vstd::prelude::*;
use vstd::string::*;

verus! {

/// The shape drawn between a segment and the one that follows it.
#[derive(Clone, Copy, Debug, PartialEq, Eq, Structural)]
pub enum EndType {
    /// A solid triangle that points right, written `>` in a descriptor.
    RightTriangle,
    /// A solid triangle that points left, written `<` in a descriptor.
    LeftTriangle,
    /// No shape, written `|` in a descriptor or left out at its end.
    Blank,
}

impl EndType {
    /// The text that draws this shape: one private-use glyph, or nothing.
    pub open spec fn glyph(self) -> Seq<char> {
        match self {
            EndType::RightTriangle => seq!['\u{e0b0}'],
            EndType::LeftTriangle => seq!['\u{e0b2}'],
            EndType::Blank => Seq::empty(),
        }
    }

    /// The shape that the character `c` stands for at the end of a raw part.
    pub open spec fn spec_from_char(c: char) -> EndType {
        if c == '<' {
            EndType::LeftTriangle
        } else if c == '>' {
            EndType::RightTriangle
        } else {
            EndType::Blank
        }
    }

    /// The shape that the character `c` stands for at the end of a raw part.
    pub fn from_char(c: char) -> (r: EndType)
        ensures
            r == EndType::spec_from_char(c),
    {
        if c == '<' {
            EndType::LeftTriangle
        } else if c == '>' {
            EndType::RightTriangle
        } else {
            EndType::Blank
        }
    }

    /// The text that draws this shape.
    pub fn as_str(&self) -> (r: &'static str)
        ensures
            r@ == self.glyph(),
    {
        proof {
            reveal_strlit("\u{e0b0}");
            reveal_strlit("\u{e0b2}");
            reveal_strlit("");
        }
        let r = match self {
            EndType::RightTriangle => "\u{e0b0}",
            EndType::LeftTriangle => "\u{e0b2}",
            EndType::Blank => "",
        };
        assert(r@ =~= self.glyph());
        r
    }
}

/// One coloured unit of the prompt, closed by a glyph.
#[derive(Clone, Debug, PartialEq, Eq)]
pub struct Part {
    /// Colour behind the text; empty where the segment names none.
    pub background: String,
    /// Colour of the text; empty where the segment names none.
    pub foreground: String,
    /// The value expression, not yet resolved.
    pub value: String,
    /// The shape that closes the segment.
    pub end: EndType,
}

/// What a `Part` holds, as plain sequences of characters.
pub struct PartView {
    pub background: Seq<char>,
    pub foreground: Seq<char>,
    pub value: Seq<char>,
    pub end: EndType,
}

impl View for Part {
    type V = PartView;

    open spec fn view(&self) -> PartView {
        PartView {
            background: self.background@,
            foreground: self.foreground@,
            value: self.value@,
            end: self.end,
        }
    }
}

/// Whether `c` closes a raw part: one of `<`, `>` and `|`.
pub open spec fn is_delimiter(c: char) -> bool {
    c == '<' || c == '>' || c == '|'
}

/// For each position of `s`, whether a delimiter stands there.
pub open spec fn delimiter_hits(s: Seq<char>) -> Seq<bool> {
    Seq::new(s.len(), |i: int| is_delimiter(s[i]))
}

/// Position of the first delimiter in `s`, or the length of `s` where it has none.
pub open spec fn delimiter_index(s: Seq<char>) -> int {
    first_true(delimiter_hits(s))
}

/// `delimiter_index` lies within bounds, no delimiter comes before it, and one stands at it
/// unless it is the length.
pub proof fn lemma_delimiter_index(s: Seq<char>)
    ensures
        0 <= delimiter_index(s) <= s.len(),
        forall|j: int| 0 <= j < delimiter_index(s) ==> !is_delimiter(s[j]),
        delimiter_index(s) < s.len() ==> is_delimiter(s[delimiter_index(s)]),
{
    let hits = delimiter_hits(s);
    lemma_first_true(hits);
    assert forall|j: int| 0 <= j < delimiter_index(s) implies !is_delimiter(s[j]) by {
        assert(!hits[j]);
    }
    if delimiter_index(s) < s.len() {
        assert(hits[delimiter_index(s)]);
    }
}

/// A position with no delimiter before it, and which holds one or is the length, is
/// `delimiter_index`.
pub proof fn lemma_delimiter_index_is(s: Seq<char>, i: int)
    requires
        0 <= i <= s.len(),
        forall|j: int| 0 <= j < i ==> !is_delimiter(s[j]),
        i < s.len() ==> is_delimiter(s[i]),
    ensures
        delimiter_index(s) == i,
{
    let hits = delimiter_hits(s);
    assert forall|j: int| 0 <= j < i implies !hits[j] by {
        assert(!is_delimiter(s[j]));
    }
    lemma_first_true_is(hits, i);
}

/// Length of the raw part that `s` begins with: up to and including its first delimiter,
/// or all of `s` where it has none.
pub open spec fn first_part_len(s: Seq<char>) -> int {
    if delimiter_index(s) < s.len() {
        delimiter_index(s) + 1
    } else {
        s.len() as int
    }
}

/// The raw parts of a descriptor, in order. Each keeps the delimiter that closes it.
pub open spec fn split_parts(s: Seq<char>) -> Seq<Seq<char>>
    decreases s.len(),
    via split_parts_decreases
{
    if s.len() == 0 {
        Seq::empty()
    } else {
        seq![s.take(first_part_len(s))] + split_parts(s.skip(first_part_len(s)))
    }
}

#[via_fn]
proof fn split_parts_decreases(s: Seq<char>) {
    lemma_delimiter_index(s);
}

/// The value and glyph of a raw part whose colours are already known; `rest` is what
/// follows the colour group.
pub open spec fn parse_tail(
    foreground: Seq<char>,
    background: Seq<char>,
    rest: Seq<char>,
) -> Result<PartView, ParseError> {
    if rest.len() == 0 {
        Err(ParseError::EmptySegment)
    } else {
        Ok(
            PartView {
                background,
                foreground,
                value: if is_delimiter(rest.last()) {
                    rest.drop_last()
                } else {
                    rest
                },
                end: EndType::spec_from_char(rest.last()),
            },
        )
    }
}

/// What one raw part means. A part that opens with `(` names its colours up to the first
/// `)`: the foreground, then after `;` the background. The rest is the value expression,
/// less a closing delimiter, which picks the glyph.
pub open spec fn parse_part(s: Seq<char>) -> Result<PartView, ParseError> {
    if s.len() > 0 && s[0] == '(' {
        let close = index_of(s, ')');
        if close >= s.len() {
            Err(ParseError::UnterminatedColorGroup)
        } else {
            let group = s.subrange(1, close);
            let semi = index_of(group, ';');
            parse_tail(
                group.take(semi),
                if semi < group.len() {
                    group.skip(semi + 1)
                } else {
                    Seq::empty()
                },
                s.skip(close + 1),
            )
        }
    } else {
        parse_tail(Seq::empty(), Seq::empty(), s)
    }
}

/// What a list of raw parts means: the segments in order, or the error of the first part
/// that is malformed.
pub open spec fn parse_parts(raw: Seq<Seq<char>>) -> Result<Seq<PartView>, ParseError>
    decreases raw.len(),
{
    if raw.len() == 0 {
        Ok(Seq::empty())
    } else {
        match parse_parts(raw.drop_last()) {
            Err(e) => Err(e),
            Ok(parts) => match parse_part(raw.last()) {
                Err(e) => Err(e),
                Ok(part) => Ok(parts.push(part)),
            },
        }
    }
}

/// What a descriptor means: its segments in order. The empty descriptor is malformed.
pub open spec fn parse_descriptor(s: Seq<char>) -> Result<Seq<PartView>, ParseError> {
    if s.len() == 0 {
        Err(ParseError::MalformedDescriptor)
    } else {
        parse_parts(split_parts(s))
    }
}

/// For each raw part, whether it is malformed.
pub open spec fn fault_hits(raw: Seq<Seq<char>>) -> Seq<bool> {
    Seq::new(raw.len(), |i: int| parse_part(raw[i]) is Err)
}

/// Position of the first malformed raw part, or the number of parts where none is.
pub open spec fn first_fault(raw: Seq<Seq<char>>) -> int {
    first_true(fault_hits(raw))
}

/// Number of characters in the raw parts that come before part `k`.
pub open spec fn part_start(raw: Seq<Seq<char>>, k: int) -> int {
    raw.take(k).flatten().len() as int
}

/// The byte offset, in the descriptor `s`, of its first malformed raw part; zero for
/// the empty descriptor.
pub open spec fn fault_offset(s: Seq<char>) -> nat {
    byte_len(s.take(part_start(split_parts(s), first_fault(split_parts(s)))))
}

/// What a descriptor means, with the place of the failure where it is malformed.
pub open spec fn locate_descriptor(s: Seq<char>) -> Result<Seq<PartView>, Fault> {
    match parse_descriptor(s) {
        Ok(parts) => Ok(parts),
        Err(e) => Err(Fault { error: e, offset: fault_offset(s) as usize }),
    }
}

/// The characters of each string of `v`.
pub open spec fn texts(v: Seq<String>) -> Seq<Seq<char>> {
    Seq::new(v.len(), |i: int| v[i]@)
}

/// The views of the segments of `v`.
pub open spec fn part_views(v: Seq<Part>) -> Seq<PartView> {
    Seq::new(v.len(), |i: int| v[i]@)
}

/// A parse result with its segment replaced by the segment's view.
pub open spec fn part_result_view(r: Result<Part, ParseError>) -> Result<PartView, ParseError> {
    match r {
        Ok(p) => Ok(p@),
        Err(e) => Err(e),
    }
}

/// A parse result with its segments replaced by their views.
pub open spec fn parts_result_view(r: Result<Vec<Part>, ParseError>) -> Result<
    Seq<PartView>,
    ParseError,
> {
    match r {
        Ok(v) => Ok(part_views(v@)),
        Err(e) => Err(e),
    }
}

/// Where the raw part that begins at `start` ends: the position after its delimiter,
/// or the end of `v` where no delimiter follows.
fn part_end(v: &Vec<char>, start: usize) -> (stop: usize)
    requires
        start < v@.len(),
    ensures
        start < stop <= v@.len(),
        stop - start == first_part_len(v@.skip(start as int)),
{
    let n: usize = v.len();
    let mut i: usize = start;
    while i < n && !(v[i] == '<' || v[i] == '>' || v[i] == '|')
        invariant
            n == v@.len(),
            start <= i <= n,
            forall|j: int| start <= j < i ==> !is_delimiter(v@[j]),
        decreases n - i,
    {
        i += 1;
    }
    proof {
        lemma_delimiter_index_is(v@.skip(start as int), i - start);
    }
    if i < n {
        i + 1
    } else {
        n
    }
}

/// Cuts a descriptor into its raw parts. Each part ends with the delimiter that closes
/// it; only the last may lack one. The empty descriptor is rejected.
pub fn split_descriptor(s: &str) -> (r: Result<Vec<String>, ParseError>)
    ensures
        s@.len() == 0 ==> r == Err::<Vec<String>, ParseError>(ParseError::MalformedDescriptor),
        s@.len() > 0 ==> r is Ok && texts(r->Ok_0@) == split_parts(s@),
{
    let v = chars_of(s);
    let n: usize = v.len();
    if n == 0 {
        return Err(ParseError::MalformedDescriptor);
    }
    let mut parts: Vec<String> = Vec::new();
    let mut start: usize = 0;
    proof {
        assert(s@.skip(0) =~= s@);
        assert(texts(parts@) + split_parts(s@) =~= split_parts(s@));
    }
    while start < n
        invariant
            v@ == s@,
            n == v@.len(),
            start <= n,
            texts(parts@) + split_parts(s@.skip(start as int)) == split_parts(s@),
        decreases n - start,
    {
        let ghost rest = s@.skip(start as int);
        let ghost before = texts(parts@);
        let stop = part_end(&v, start);
        parts.push(slice_owned(s, start, stop));
        proof {
            assert(rest.take(stop - start) =~= s@.subrange(start as int, stop as int));
            assert(rest.skip(stop - start) =~= s@.skip(stop as int));
            assert(texts(parts@) =~= before.push(s@.subrange(start as int, stop as int)));
            assert(texts(parts@) + split_parts(s@.skip(stop as int)) =~= before + split_parts(
                rest,
            ));
        }
        start = stop;
    }
    proof {
        assert(split_parts(s@.skip(n as int)) =~= Seq::<Seq<char>>::empty());
        assert(texts(parts@) + Seq::<Seq<char>>::empty() =~= texts(parts@));
    }
    Ok(parts)
}

/// The segment with the given colours whose value and glyph are what `s` holds from
/// position `start` on; `v` holds the characters of `s`.
fn read_tail(foreground: String, background: String, s: &str, v: &Vec<char>, start: usize) -> (r:
    Result<Part, ParseError>)
    requires
        v@ == s@,
        start <= s@.len(),
    ensures
        part_result_view(r) == parse_tail(foreground@, background@, s@.skip(start as int)),
{
    let n: usize = v.len();
    if start == n {
        return Err(ParseError::EmptySegment);
    }
    let ghost rest = s@.skip(start as int);
    let last = v[n - 1];
    let stop: usize = if last == '<' || last == '>' || last == '|' {
        n - 1
    } else {
        n
    };
    let value = slice_owned(s, start, stop);
    proof {
        assert(rest.last() == last);
        assert(value@ =~= if is_delimiter(last) {
            rest.drop_last()
        } else {
            rest
        });
    }
    Ok(Part { background, foreground, value, end: EndType::from_char(last) })
}

impl Part {
    /// A segment with no colours, no value and no glyph.
    pub fn new() -> (r: Part)
        ensures
            r@ == (PartView {
                background: Seq::empty(),
                foreground: Seq::empty(),
                value: Seq::empty(),
                end: EndType::Blank,
            }),
    {
        Part {
            background: String::new(),
            foreground: String::new(),
            value: String::new(),
            end: EndType::Blank,
        }
    }

    /// Reads one raw part: an optional colour group, the value expression, and the glyph
    /// that a closing delimiter picks.
    pub fn from_string_int(s: &str) -> (r: Result<Part, ParseError>)
        ensures
            part_result_view(r) == parse_part(s@),
    {
        let v = chars_of(s);
        let n: usize = v.len();
        if n > 0 && v[0] == '(' {
            assert(v@.subrange(0, n as int) =~= s@);
            let close = find_char(&v, 0, n, ')');
            if close == n {
                return Err(ParseError::UnterminatedColorGroup);
            }
            let semi = find_char(&v, 1, close, ';');
            let foreground = slice_owned(s, 1, semi);
            let background = if semi < close {
                slice_owned(s, semi + 1, close)
            } else {
                String::new()
            };
            proof {
                let group = s@.subrange(1, close as int);
                assert(foreground@ =~= group.take(semi - 1));
                assert(semi < close ==> background@ =~= group.skip(semi - 1 + 1));
            }
            read_tail(foreground, background, s, &v, close + 1)
        } else {
            assert(s@.skip(0) =~= s@);
            read_tail(String::new(), String::new(), s, &v, 0)
        }
    }

    /// Reads a descriptor: every raw part of it, in order. Fails at the first malformed
    /// part, with its error and the byte offset at which the part begins, and on the
    /// empty descriptor.
    pub fn read_descriptor(s: &str) -> (r: Result<Vec<Part>, Fault>)
        ensures
            match locate_descriptor(s@) {
                Ok(parts) => r matches Ok(v) && part_views(v@) == parts,
                Err(f) => r matches Err(x) && x == f,
            },
    {
        let v = chars_of(s);
        let n: usize = v.len();
        let ghost pieces = split_parts(s@);
        if n == 0 {
            proof {
                assert(pieces.take(0).flatten() =~= Seq::<char>::empty());
                assert(s@.take(0) =~= Seq::<char>::empty());
            }
            return Err(Fault { error: ParseError::MalformedDescriptor, offset: 0 });
        }
        let mut parts: Vec<Part> = Vec::new();
        let mut start: usize = 0;
        let ghost mut i: int = 0;
        proof {
            assert(pieces.take(0) =~= Seq::<Seq<char>>::empty());
            assert(pieces.skip(0) =~= pieces);
            assert(s@.skip(0) =~= s@);
            assert(part_views(parts@) =~= Seq::<PartView>::empty());
        }
        while start < n
            invariant
                v@ == s@,
                n == v@.len(),
                n > 0,
                pieces == split_parts(s@),
                0 <= i <= pieces.len(),
                start <= n,
                start == part_start(pieces, i),
                split_parts(s@.skip(start as int)) == pieces.skip(i),
                forall|j: int| 0 <= j < i ==> parse_part(#[trigger] pieces[j]) is Ok,
                parse_parts(pieces.take(i)) == Ok::<Seq<PartView>, ParseError>(part_views(parts@)),
            decreases n - start,
        {
            let ghost rest = s@.skip(start as int);
            let ghost before = part_views(parts@);
            let stop = part_end(&v, start);
            let raw = s.substring_char(start, stop);
            proof {
                let head = rest.take(stop - start);
                let tail = split_parts(rest.skip(stop - start));
                assert(pieces.skip(i) =~= seq![head] + tail);
                assert(pieces[i] == pieces.skip(i)[0]);
                assert(raw@ =~= head);
                assert(rest.skip(stop - start) =~= s@.skip(stop as int));
                assert(pieces.skip(i + 1) =~= (seq![head] + tail).skip(1));
                assert((seq![head] + tail).skip(1) =~= tail);
                assert(pieces.take(i + 1).drop_last() =~= pieces.take(i));
                lemma_part_start(s@, i);
            }
            match Part::from_string_int(raw) {
                Ok(part) => {
                    parts.push(part);
                    assert(part_views(parts@) =~= before.push(part@));
                },
                Err(e) => {
                    proof {
                        assert(parse_parts(pieces.take(i + 1)) == Err::<Seq<PartView>, ParseError>(
                            e,
                        ));
                        lemma_parse_parts_prefix_error(pieces, i + 1);
                        assert forall|j: int| 0 <= j < i implies !fault_hits(pieces)[j] by {
                            assert(parse_part(pieces[j]) is Ok);
                        }
                        lemma_first_true_is(fault_hits(pieces), i);
                        assert(s@.subrange(0, start as int) =~= s@.take(start as int));
                    }
                    return Err(Fault { error: e, offset: s.substring_char(0, start).len() });
                },
            }
            start = stop;
            proof {
                i = i + 1;
            }
        }
        proof {
            assert(split_parts(s@.skip(n as int)) =~= Seq::<Seq<char>>::empty());
            assert(pieces.take(i) =~= pieces);
        }
        Ok(parts)
    }

    /// Reads a descriptor: every raw part of it, in order. Fails with the error of the
    /// first malformed part, and on the empty descriptor.
    pub fn from_string(s: String) -> (r: Result<Vec<Part>, ParseError>)
        ensures
            parts_result_view(r) == parse_descriptor(s@),
    {
        match Part::read_descriptor(s.as_str()) {
            Ok(parts) => Ok(parts),
            Err(fault) => Err(fault.error),
        }
    }
}

/// Raw part `k` of a descriptor begins where the parts before it end, and ends within
/// the descriptor.
pub proof fn lemma_part_start(s: Seq<char>, k: int)
    requires
        0 <= k < split_parts(s).len(),
    ensures
        part_start(split_parts(s), k + 1) == part_start(split_parts(s), k) + split_parts(
            s,
        )[k].len(),
        part_start(split_parts(s), k + 1) <= s.len(),
{
    let raw = split_parts(s);
    let front = raw.take(k + 1);
    assert(front =~= raw.take(k).push(raw[k]));
    raw.take(k).lemma_flatten_push(raw[k]);
    assert(raw =~= front + raw.skip(k + 1));
    lemma_flatten_concat(front, raw.skip(k + 1));
    lemma_split_parts(s);
}

/// Where a prefix of the raw parts is malformed, the whole list fails with the same error.
pub proof fn lemma_parse_parts_prefix_error(raw: Seq<Seq<char>>, k: int)
    requires
        0 <= k <= raw.len(),
        parse_parts(raw.take(k)) is Err,
    ensures
        parse_parts(raw) == parse_parts(raw.take(k)),
    decreases raw.len() - k,
{
    if k < raw.len() {
        assert(raw.take(k + 1).drop_last() =~= raw.take(k));
        lemma_parse_parts_prefix_error(raw, k + 1);
    } else {
        assert(raw.take(k) =~= raw);
    }
}

/// A list of raw parts is read part by part: it gives one segment for each part, or the
/// error of the first part that is malformed.
pub proof fn lemma_parse_parts(raw: Seq<Seq<char>>)
    ensures
        match parse_parts(raw) {
            Ok(parts) => parts.len() == raw.len() && forall|i: int|
                0 <= i < raw.len() ==> parse_part(#[trigger] raw[i]) == Ok::<PartView, ParseError>(
                    parts[i],
                ),
            Err(e) => exists|k: int|
                0 <= k < raw.len() && parse_part(#[trigger] raw[k]) == Err::<
                    PartView,
                    ParseError,
                >(e) && forall|i: int| 0 <= i < k ==> parse_part(#[trigger] raw[i]) is Ok,
        },
    decreases raw.len(),
{
    if raw.len() > 0 {
        let front = raw.drop_last();
        lemma_parse_parts(front);
        match parse_parts(front) {
            Ok(parts) => {
                assert forall|i: int| 0 <= i < front.len() implies parse_part(#[trigger] raw[i])
                    is Ok by {
                    assert(raw[i] == front[i]);
                }
                match parse_part(raw.last()) {
                    Ok(part) => {
                        let all = parts.push(part);
                        assert forall|i: int| 0 <= i < raw.len() implies parse_part(
                            #[trigger] raw[i],
                        ) == Ok::<PartView, ParseError>(all[i]) by {
                            if i < front.len() {
                                assert(raw[i] == front[i]);
                            }
                        }
                    },
                    Err(e) => {
                        assert(parse_part(raw[raw.len() - 1]) == Err::<PartView, ParseError>(e));
                    },
                }
            },
            Err(e) => {
                let k = choose|k: int|
                    0 <= k < front.len() && parse_part(#[trigger] front[k]) == Err::<
                        PartView,
                        ParseError,
                    >(e) && forall|i: int| 0 <= i < k ==> parse_part(#[trigger] front[i]) is Ok;
                assert(raw[k] == front[k]);
                assert forall|i: int| 0 <= i < k implies parse_part(#[trigger] raw[i]) is Ok by {
                    assert(raw[i] == front[i]);
                }
            },
        }
    }
}

/// The raw parts of a descriptor, joined in order, give the descriptor back. A descriptor
/// that is not empty has a part, and no part is empty. A part holds a delimiter at its
/// end and nowhere else, and only the last part may end without one.
pub proof fn lemma_split_parts(s: Seq<char>)
    ensures
        split_parts(s).flatten() == s,
        s.len() > 0 ==> split_parts(s).len() > 0,
        forall|i: int| 0 <= i < split_parts(s).len() ==> (#[trigger] split_parts(s)[i]).len() > 0,
        forall|i: int, j: int|
            0 <= i < split_parts(s).len() && 0 <= j < split_parts(s)[i].len() - 1
                ==> !is_delimiter(#[trigger] split_parts(s)[i][j]),
        forall|i: int|
            0 <= i < split_parts(s).len() - 1 ==> is_delimiter(
                (#[trigger] split_parts(s)[i]).last(),
            ),
    decreases s.len(),
{
    let parts = split_parts(s);
    if s.len() == 0 {
        assert(parts.flatten() =~= s);
    } else {
        lemma_delimiter_index(s);
        let n = first_part_len(s);
        let head = s.take(n);
        let rest = s.skip(n);
        let tail = split_parts(rest);
        lemma_split_parts(rest);
        assert(parts =~= seq![head] + tail);
        assert(parts.first() == head);
        assert(parts.drop_first() =~= tail);
        assert(parts.flatten() =~= s);
        assert forall|i: int| 0 <= i < parts.len() implies (#[trigger] parts[i]).len() > 0 by {
            if i > 0 {
                assert(parts[i] == tail[i - 1]);
            }
        }
        assert forall|i: int, j: int| 0 <= i < parts.len() && 0 <= j < parts[i].len() - 1
            implies !is_delimiter(#[trigger] parts[i][j]) by {
            if i > 0 {
                assert(parts[i] == tail[i - 1]);
                assert(!is_delimiter(tail[i - 1][j]));
            } else {
                assert(head[j] == s[j]);
            }
        }
        assert forall|i: int| 0 <= i < parts.len() - 1 implies is_delimiter(
            (#[trigger] parts[i]).last(),
        ) by {
            if i > 0 {
                assert(parts[i] == tail[i - 1]);
            } else {
                assert(tail.len() > 0);
                assert(rest.len() > 0);
                assert(head.last() == s[delimiter_index(s)]);
            }
        }
    }
}

/// A raw part that opens no colour group and ends with no delimiter is a segment with no
/// colours and no glyph, and the whole part is its value.
pub proof fn lemma_plain_part(s: Seq<char>)
    requires
        s.len() > 0,
        s[0] != '(',
        !is_delimiter(s.last()),
    ensures
        parse_part(s) == Ok::<PartView, ParseError>(
            PartView {
                background: Seq::empty(),
                foreground: Seq::empty(),
                value: s,
                end: EndType::Blank,
            },
        ),
{
}

/// A descriptor that holds no delimiter and opens no colour group is read as exactly one
/// segment: it has no colours and no glyph, and the whole descriptor is its value.
pub proof fn lemma_plain_descriptor(s: Seq<char>)
    requires
        s.len() > 0,
        s[0] != '(',
        forall|i: int| 0 <= i < s.len() ==> !is_delimiter(s[i]),
    ensures
        parse_descriptor(s) == Ok::<Seq<PartView>, ParseError>(
            seq![
                PartView {
                    background: Seq::empty(),
                    foreground: Seq::empty(),
                    value: s,
                    end: EndType::Blank,
                },
            ],
        ),
{
    lemma_delimiter_index_is(s, s.len() as int);
    assert(s.take(s.len() as int) =~= s);
    assert(s.skip(s.len() as int) =~= Seq::<char>::empty());
    assert(split_parts(s.skip(s.len() as int)) =~= Seq::<Seq<char>>::empty());
    let parts = split_parts(s);
    assert(parts =~= seq![s]);
    assert(parts.drop_last() =~= Seq::<Seq<char>>::empty());
    assert(parts.last() == s);
    lemma_plain_part(s);
    let part = parse_part(s)->Ok_0;
    assert(parse_parts(parts.drop_last()) == Ok::<Seq<PartView>, ParseError>(Seq::empty()));
    assert(Seq::<PartView>::empty().push(part) =~= seq![part]);
}

} // verus!
