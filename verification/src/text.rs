//! Character-level helpers shared by the parser and the renderer: searching,
//! slicing, comparing, and writing numbers in decimal.

use vstd::prelude::*;
use vstd::string::*;

verus! {

/// Position of the first `true` in `hits`, or the length of `hits` where there is none.
pub open spec fn first_true(hits: Seq<bool>) -> int
    decreases hits.len(),
{
    if hits.len() == 0 || hits[0] {
        0
    } else {
        1 + first_true(hits.drop_first())
    }
}

/// `first_true` lies within bounds, nothing before it is set, and it is set unless it is
/// the length.
pub proof fn lemma_first_true(hits: Seq<bool>)
    ensures
        0 <= first_true(hits) <= hits.len(),
        forall|j: int| 0 <= j < first_true(hits) ==> !hits[j],
        first_true(hits) < hits.len() ==> hits[first_true(hits)],
    decreases hits.len(),
{
    if hits.len() == 0 || hits[0] {
    } else {
        let rest = hits.drop_first();
        lemma_first_true(rest);
        assert forall|j: int| 0 <= j < first_true(hits) implies !hits[j] by {
            if j > 0 {
                assert(hits[j] == rest[j - 1]);
            }
        }
        if first_true(hits) < hits.len() {
            assert(hits[first_true(hits)] == rest[first_true(rest)]);
        }
    }
}

/// A position with nothing set before it, and which is set or is the length, is `first_true`.
pub proof fn lemma_first_true_is(hits: Seq<bool>, i: int)
    requires
        0 <= i <= hits.len(),
        forall|j: int| 0 <= j < i ==> !hits[j],
        i < hits.len() ==> hits[i],
    ensures
        first_true(hits) == i,
{
    lemma_first_true(hits);
    let f = first_true(hits);
    if f < i {
        assert(!hits[f]);
    } else if i < f {
        assert(!hits[i]);
    }
}

/// For each position of `s`, whether `c` stands there.
pub open spec fn char_hits(s: Seq<char>, c: char) -> Seq<bool> {
    Seq::new(s.len(), |i: int| s[i] == c)
}

/// Position of the first `c` in `s`, or the length of `s` where `c` does not occur.
pub open spec fn index_of(s: Seq<char>, c: char) -> int {
    first_true(char_hits(s, c))
}

/// `index_of` lies within bounds, `c` does not occur before it, and it holds `c` unless
/// it is the length.
pub proof fn lemma_index_of(s: Seq<char>, c: char)
    ensures
        0 <= index_of(s, c) <= s.len(),
        forall|j: int| 0 <= j < index_of(s, c) ==> s[j] != c,
        index_of(s, c) < s.len() ==> s[index_of(s, c)] == c,
{
    let hits = char_hits(s, c);
    lemma_first_true(hits);
    assert forall|j: int| 0 <= j < index_of(s, c) implies s[j] != c by {
        assert(!hits[j]);
    }
    if index_of(s, c) < s.len() {
        assert(hits[index_of(s, c)]);
    }
}

/// A position that `c` does not occur before, and which holds `c` or is the length, is `index_of`.
pub proof fn lemma_index_of_is(s: Seq<char>, c: char, i: int)
    requires
        0 <= i <= s.len(),
        forall|j: int| 0 <= j < i ==> s[j] != c,
        i < s.len() ==> s[i] == c,
    ensures
        index_of(s, c) == i,
{
    let hits = char_hits(s, c);
    assert forall|j: int| 0 <= j < i implies !hits[j] by {
        assert(s[j] != c);
    }
    lemma_first_true_is(hits, i);
}

/// Whether `c` is one of the decimal digits `0` to `9`.
pub open spec fn is_digit(c: char) -> bool {
    '0' <= c && c <= '9'
}

/// For each position of `s`, whether something other than a digit stands there.
pub open spec fn non_digit_hits(s: Seq<char>) -> Seq<bool> {
    Seq::new(s.len(), |i: int| !is_digit(s[i]))
}

/// Length of the run of decimal digits that `s` begins with.
pub open spec fn digit_run(s: Seq<char>) -> int {
    first_true(non_digit_hits(s))
}

/// A position with only digits before it, and which holds no digit or is the length, is
/// `digit_run`.
pub proof fn lemma_digit_run_is(s: Seq<char>, i: int)
    requires
        0 <= i <= s.len(),
        forall|j: int| 0 <= j < i ==> is_digit(s[j]),
        i < s.len() ==> !is_digit(s[i]),
    ensures
        digit_run(s) == i,
{
    let hits = non_digit_hits(s);
    assert forall|j: int| 0 <= j < i implies !hits[j] by {
        assert(is_digit(s[j]));
    }
    lemma_first_true_is(hits, i);
}

/// The decimal digit for `d`, which lies below ten.
pub open spec fn digit_char(d: nat) -> char {
    if d == 0 {
        '0'
    } else if d == 1 {
        '1'
    } else if d == 2 {
        '2'
    } else if d == 3 {
        '3'
    } else if d == 4 {
        '4'
    } else if d == 5 {
        '5'
    } else if d == 6 {
        '6'
    } else if d == 7 {
        '7'
    } else if d == 8 {
        '8'
    } else {
        '9'
    }
}

/// `n` written in decimal, most significant digit first, without leading zeros.
pub open spec fn decimal(n: nat) -> Seq<char>
    decreases n,
{
    if n < 10 {
        seq![digit_char(n)]
    } else {
        decimal(n / 10).push(digit_char(n % 10))
    }
}

/// The two-character escape `\n` replaced, left to right, by a line feed; all else kept.
pub open spec fn expand_escapes(s: Seq<char>) -> Seq<char>
    decreases s.len(),
{
    if s.len() == 0 {
        s
    } else if s.len() >= 2 && s[0] == '\\' && s[1] == 'n' {
        seq!['\n'] + expand_escapes(s.skip(2))
    } else {
        seq![s[0]] + expand_escapes(s.skip(1))
    }
}

/// Number of bytes that `text` takes when it is written in UTF-8.
pub open spec fn byte_len(text: Seq<char>) -> nat {
    vstd::utf8::encode_utf8(text).len()
}

/// The characters of `s`, in order.
pub fn chars_of(s: &str) -> (v: Vec<char>)
    ensures
        v@ == s@,
{
    broadcast use vstd::string::group_string_axioms;

    let mut v: Vec<char> = Vec::new();
    let chars = s.chars();
    for c in it: chars
        invariant
            it.seq() == s@,
            v@ == it.seq().take(it.index()),
    {
        v.push(c);
        assert(it.seq().take(it.index() + 1) =~= it.seq().take(it.index()).push(c));
    }
    assert(v@ =~= s@);
    v
}

/// The characters of `s` from position `from` up to, not including, `to`, as an owned string.
pub(crate) fn slice_owned(s: &str, from: usize, to: usize) -> (r: String)
    requires
        from <= to <= s@.len(),
    ensures
        r@ == s@.subrange(from as int, to as int),
{
    String::from_str(s.substring_char(from, to))
}

/// Whether two strings hold the same characters.
pub fn same_text(a: &str, b: &str) -> (r: bool)
    ensures
        r == (a@ == b@),
{
    let x = chars_of(a);
    let y = chars_of(b);
    let n: usize = x.len();
    if n != y.len() {
        return false;
    }
    let mut i: usize = 0;
    while i < n
        invariant
            x@ == a@,
            y@ == b@,
            n == x@.len(),
            n == y@.len(),
            i <= n,
            forall|j: int| 0 <= j < i ==> x@[j] == y@[j],
        decreases n - i,
    {
        if x[i] != y[i] {
            assert(a@[i as int] != b@[i as int]);
            return false;
        }
        i += 1;
    }
    assert(x@ =~= y@);
    true
}

/// First position of `c` in `v` between `from` and `to`, or `to` where there is none.
pub(crate) fn find_char(v: &Vec<char>, from: usize, to: usize, c: char) -> (r: usize)
    requires
        from <= to <= v@.len(),
    ensures
        r == from + index_of(v@.subrange(from as int, to as int), c),
        from <= r <= to,
        r < to ==> v@[r as int] == c,
        forall|j: int| from <= j < r ==> v@[j] != c,
{
    let mut i: usize = from;
    while i < to && v[i] != c
        invariant
            from <= i <= to <= v@.len(),
            forall|j: int| from <= j < i ==> v@[j] != c,
        decreases to - i,
    {
        i += 1;
    }
    proof {
        lemma_index_of_is(v@.subrange(from as int, to as int), c, i - from);
    }
    i
}

/// Length of the run of decimal digits in `v` that starts at `from` and ends before `to`.
pub(crate) fn count_digits(v: &Vec<char>, from: usize, to: usize) -> (r: usize)
    requires
        from <= to <= v@.len(),
    ensures
        r == digit_run(v@.subrange(from as int, to as int)),
        r <= to - from,
{
    let mut i: usize = from;
    while i < to && '0' <= v[i] && v[i] <= '9'
        invariant
            from <= i <= to <= v@.len(),
            forall|j: int| from <= j < i ==> is_digit(v@[j]),
        decreases to - i,
    {
        i += 1;
    }
    proof {
        lemma_digit_run_is(v@.subrange(from as int, to as int), i - from);
    }
    i - from
}

/// The one-character text of the decimal digit `d`.
fn digit_text(d: usize) -> (r: &'static str)
    requires
        d < 10,
    ensures
        r@ == seq![digit_char(d as nat)],
{
    let r = if d == 0 {
        "0"
    } else if d == 1 {
        "1"
    } else if d == 2 {
        "2"
    } else if d == 3 {
        "3"
    } else if d == 4 {
        "4"
    } else if d == 5 {
        "5"
    } else if d == 6 {
        "6"
    } else if d == 7 {
        "7"
    } else if d == 8 {
        "8"
    } else {
        "9"
    };
    proof {
        reveal_strlit("0");
        reveal_strlit("1");
        reveal_strlit("2");
        reveal_strlit("3");
        reveal_strlit("4");
        reveal_strlit("5");
        reveal_strlit("6");
        reveal_strlit("7");
        reveal_strlit("8");
        reveal_strlit("9");
        assert(r@ =~= seq![digit_char(d as nat)]);
    }
    r
}

/// `n` written in decimal.
pub fn decimal_string(n: usize) -> (r: String)
    ensures
        r@ == decimal(n as nat),
    decreases n,
{
    if n < 10 {
        String::from_str(digit_text(n))
    } else {
        let mut r = decimal_string(n / 10);
        r.append(digit_text(n % 10));
        r
    }
}

/// `s` with every escape `\n` replaced by a line feed.
pub fn expand_text(s: &str) -> (r: String)
    ensures
        r@ == expand_escapes(s@),
{
    let v = chars_of(s);
    let n: usize = v.len();
    let mut out = String::new();
    let mut start: usize = 0;
    let mut i: usize = 0;
    proof {
        assert(s@.skip(0) =~= s@);
        assert(out@ + expand_escapes(s@) =~= expand_escapes(s@));
        assert(s@.subrange(0, 0) + expand_escapes(s@) =~= expand_escapes(s@));
    }
    while i < n
        invariant
            n == v@.len(),
            v@ == s@,
            start <= i <= n,
            out@ + expand_escapes(s@.skip(start as int)) == expand_escapes(s@),
            expand_escapes(s@.skip(start as int)) == s@.subrange(start as int, i as int)
                + expand_escapes(s@.skip(i as int)),
        decreases n - i,
    {
        let ghost rest = s@.skip(i as int);
        if v[i] == '\\' && i + 1 < n && v[i + 1] == 'n' {
            out.append(s.substring_char(start, i));
            proof {
                reveal_strlit("\n");
                assert("\n"@ =~= seq!['\n']);
                assert(rest[0] == '\\' && rest[1] == 'n');
                assert(rest.skip(2) =~= s@.skip(i + 2));
            }
            out.append("\n");
            i += 2;
            start = i;
            proof {
                assert(s@.subrange(start as int, i as int) =~= Seq::<char>::empty());
                assert(out@ + expand_escapes(s@.skip(start as int)) =~= expand_escapes(s@));
            }
        } else {
            proof {
                assert(rest[0] == v@[i as int]);
                assert(rest.len() >= 2 ==> rest[1] == v@[i + 1]);
                assert(rest.skip(1) =~= s@.skip(i + 1));
                assert(s@.subrange(start as int, i + 1) =~= s@.subrange(start as int, i as int)
                    + seq![rest[0]]);
            }
            i += 1;
        }
    }
    proof {
        assert(s@.skip(n as int) =~= Seq::<char>::empty());
        assert(s@.subrange(start as int, n as int) + Seq::<char>::empty() =~= s@.subrange(
            start as int,
            n as int,
        ));
    }
    out.append(s.substring_char(start, n));
    out
}

} // verus!
