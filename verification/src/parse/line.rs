//! Line scanning: cut the input into lines and work out each line's indentation,
//! blankness and position in the source text.
//!
//! This layer is purely lexical; block splitting is built on top of it.

use vstd::prelude::*;
use crate::text::{
    byte_len, char_width, copy_range, is_whitespace, lemma_byte_len_concat, lemma_byte_len_ge_len, lemma_byte_len_prefix,
    lemma_byte_len_push, spec_char_width, spec_is_whitespace,
};

verus! {

/// The value of a scanned line: its text and where it stands in the source text.
pub struct LineV {
    pub text: Seq<char>,
    pub line_no: int,
    pub start: int,
    pub end: int,
}

/// Number of leading ASCII spaces (tabs do not count as indentation).
pub open spec fn spec_indent(t: Seq<char>) -> nat
    decreases t.len(),
{
    if t.len() > 0 && t[0] == ' ' {
        1 + spec_indent(t.drop_first())
    } else {
        0
    }
}

/// A line is blank when it holds nothing but white space.
pub open spec fn spec_blank(t: Seq<char>) -> bool {
    forall|i: int| 0 <= i < t.len() ==> spec_is_whitespace(#[trigger] t[i])
}

/// The text after the indentation.
pub open spec fn spec_content(t: Seq<char>) -> Seq<char> {
    t.skip(spec_indent(t) as int)
}

/// A call header line: not blank, and its content starts with `::`.
pub open spec fn spec_is_call(t: Seq<char>) -> bool {
    &&& !spec_blank(t)
    &&& spec_content(t).len() >= 2
    &&& spec_content(t)[0] == ':'
    &&& spec_content(t)[1] == ':'
}

/// Index of the first `\n`, or the length when there is none.
pub open spec fn first_nl(s: Seq<char>) -> nat
    decreases s.len(),
{
    if s.len() == 0 {
        0
    } else if s[0] == '\n' {
        0
    } else {
        1 + first_nl(s.drop_first())
    }
}

/// A line without its trailing `\r`, if it has one.
pub open spec fn strip_cr(raw: Seq<char>) -> Seq<char> {
    if raw.len() > 0 && raw.last() == '\r' {
        raw.drop_last()
    } else {
        raw
    }
}

/// The lines of `rest`, the first of which starts at byte `byte` and is line `no`.
///
/// Lines are separated by `\n`; a trailing `\r` is not part of a line; a final
/// `\n` does not start an extra empty line.
pub open spec fn lines_at(rest: Seq<char>, byte: int, no: int) -> Seq<LineV>
    decreases rest.len(),
{
    if rest.len() == 0 {
        Seq::empty()
    } else {
        let i = first_nl(rest) as int;
        let text = strip_cr(rest.take(i));
        let line = LineV { text, line_no: no, start: byte, end: byte + byte_len(text) };
        if i < rest.len() {
            seq![line] + lines_at(rest.skip(i + 1), byte + byte_len(rest.take(i)) + 1, no + 1)
        } else {
            seq![line]
        }
    }
}

/// The lines of a whole input.
pub open spec fn spec_scan_lines(s: Seq<char>) -> Seq<LineV> {
    lines_at(s, 0, 1)
}

/// A scanned line.
///
/// `text` may have been dedented, but `indent` and `blank` always describe `text`;
/// `line_no`, `start` and `end` always refer to the source text.
#[derive(Debug, Clone)]
pub struct SrcLine {
    pub text: Vec<char>,
    pub indent: usize,
    pub blank: bool,
    /// Line number in the source text (1-based).
    pub line_no: usize,
    /// Byte offset of the line start in the source text.
    pub start: usize,
    /// Byte offset of the line end in the source text (line break excluded).
    pub end: usize,
}

impl View for SrcLine {
    type V = LineV;

    open spec fn view(&self) -> LineV {
        LineV {
            text: self.text@,
            line_no: self.line_no as int,
            start: self.start as int,
            end: self.end as int,
        }
    }
}

impl SrcLine {
    /// `indent` and `blank` describe `text`.
    pub open spec fn wf(&self) -> bool {
        &&& self.indent == spec_indent(self.text@)
        &&& self.blank == spec_blank(self.text@)
    }

    /// A line with the given text and position.
    pub fn new(text: Vec<char>, line_no: usize, start: usize, end: usize) -> (r: Self)
        ensures
            r.wf(),
            r@ == (LineV {
                text: text@,
                line_no: line_no as int,
                start: start as int,
                end: end as int,
            }),
    {
        let indent = count_indent(&text);
        let blank = is_blank(&text);
        SrcLine { text, indent, blank, line_no, start, end }
    }

    /// Whether this line is a call header line.
    pub fn is_call(&self) -> (r: bool)
        requires
            self.wf(),
        ensures
            r == spec_is_call(self.text@),
    {
        proof {
            lemma_indent_bounds(self.text@);
        }
        !self.blank && self.text.len() - self.indent >= 2 && self.text[self.indent] == ':'
            && self.text[self.indent + 1] == ':'
    }
}

/// The indentation never exceeds the length, and everything before it is a space.
pub proof fn lemma_indent_bounds(t: Seq<char>)
    ensures
        spec_indent(t) <= t.len(),
        forall|j: int| 0 <= j < spec_indent(t) ==> t[j] == ' ',
        spec_indent(t) < t.len() ==> t[spec_indent(t) as int] != ' ',
    decreases t.len(),
{
    if t.len() > 0 && t[0] == ' ' {
        lemma_indent_bounds(t.drop_first());
        assert forall|j: int| 0 <= j < spec_indent(t) implies t[j] == ' ' by {
            if j > 0 {
                assert(t[j] == t.drop_first()[j - 1]);
            }
        }
    }
}

/// Counts the leading ASCII spaces.
pub fn count_indent(text: &[char]) -> (r: usize)
    ensures
        r == spec_indent(text@),
{
    let mut i: usize = 0;
    assert(text@.skip(0) =~= text@);
    while i < text.len() && text[i] == ' '
        invariant
            i <= text.len(),
            spec_indent(text@) == i + spec_indent(text@.skip(i as int)),
        decreases text.len() - i,
    {
        assert(text@.skip(i as int).drop_first() =~= text@.skip(i + 1));
        i += 1;
    }
    i
}

/// Whether every character is white space.
pub fn is_blank(text: &[char]) -> (r: bool)
    ensures
        r == spec_blank(text@),
{
    let mut i: usize = 0;
    while i < text.len()
        invariant
            i <= text.len(),
            forall|j: int| 0 <= j < i ==> spec_is_whitespace(#[trigger] text@[j]),
        decreases text.len() - i,
    {
        if !is_whitespace(text[i]) {
            return false;
        }
        i += 1;
    }
    true
}

/// If the first `k` characters are not `\n` and position `k` is the end or a `\n`,
/// then `k` is the first newline.
pub proof fn lemma_first_nl(s: Seq<char>, k: int)
    requires
        0 <= k <= s.len(),
        forall|j: int| 0 <= j < k ==> s[j] != '\n',
        k < s.len() ==> s[k] == '\n',
    ensures
        first_nl(s) == k,
    decreases k,
{
    if k > 0 {
        lemma_first_nl(s.drop_first(), k - 1);
    }
}

/// Splits the input into lines (`\n` separated, `\r\n` tolerated).
#[verifier::rlimit(60)]
pub fn scan_lines(input: &[char]) -> (r: Vec<SrcLine>)
    requires
        byte_len(input@) < usize::MAX,
    ensures
        r@.map_values(|l: SrcLine| l@) == spec_scan_lines(input@),
        forall|i: int| 0 <= i < r@.len() ==> (#[trigger] r@[i]).wf(),
{
    let n = input.len();
    let mut lines: Vec<SrcLine> = Vec::new();
    let mut start: usize = 0;
    let mut byte: usize = 0;
    let mut no: usize = 1;
    proof {
        lemma_byte_len_ge_len(input@);
        assert(input@.skip(0) =~= input@);
        assert(input@.take(0) =~= Seq::<char>::empty());
        assert(lines@.map_values(|l: SrcLine| l@) =~= Seq::<LineV>::empty());
    }
    while start < n
        invariant
            n == input@.len(),
            start <= n,
            byte == byte_len(input@.take(start as int)),
            byte_len(input@) < usize::MAX,
            n <= byte_len(input@),
            start < n ==> no == lines@.len() + 1,
            lines@.len() <= start,
            lines@.map_values(|l: SrcLine| l@) + lines_at(
                input@.skip(start as int),
                byte as int,
                no as int,
            ) == spec_scan_lines(input@),
            forall|i: int| 0 <= i < lines@.len() ==> (#[trigger] lines@[i]).wf(),
        decreases n - start,
    {
        let ghost rest = input@.skip(start as int);
        // Find the end of this line, counting its bytes on the way.
        let mut i: usize = start;
        let mut width: usize = 0;
        proof {
            lemma_byte_len_prefix(input@, start as int);
            assert(input@.subrange(start as int, start as int) =~= Seq::<char>::empty());
        }
        while i < n && input[i] != '\n'
            invariant
                n == input@.len(),
                start <= i <= n,
                byte == byte_len(input@.take(start as int)),
                width == byte_len(input@.subrange(start as int, i as int)),
                byte + width <= byte_len(input@),
                byte_len(input@) <= usize::MAX,
                forall|j: int| start <= j < i ==> input@[j] != '\n',
            decreases n - i,
        {
            proof {
                assert(input@.subrange(start as int, i + 1) =~= input@.subrange(
                    start as int,
                    i as int,
                ).push(input@[i as int]));
                lemma_byte_len_push(input@.subrange(start as int, i as int), input@[i as int]);
                lemma_byte_len_prefix(input@, i + 1);
                assert(input@.take(i + 1) =~= input@.take(start as int) + input@.subrange(
                    start as int,
                    i + 1,
                ));
                lemma_byte_len_concat(
                    input@.take(start as int),
                    input@.subrange(start as int, i + 1),
                );
            }
            width = width + char_width(input[i]);
            i += 1;
        }
        proof {
            lemma_first_nl(rest, i - start);
            assert(rest.take(i - start) =~= input@.subrange(start as int, i as int));
        }
        // Drop a trailing `\r`.
        let mut end = i;
        let mut text_width = width;
        if end > start && input[end - 1] == '\r' {
            proof {
                assert(input@.subrange(start as int, i as int) =~= input@.subrange(
                    start as int,
                    i - 1,
                ).push('\r'));
                lemma_byte_len_push(input@.subrange(start as int, i - 1), '\r');
            }
            end = end - 1;
            text_width = text_width - 1;
        }
        let text = copy_range(input, start, end);
        proof {
            assert(text@ == strip_cr(rest.take(i - start)));
        }
        let line = SrcLine::new(text, no, byte, byte + text_width);
        let ghost old_lines = lines@;
        lines.push(line);
        proof {
            assert(lines@.map_values(|l: SrcLine| l@) =~= old_lines.map_values(|l: SrcLine| l@)
                .push(line@));
        }
        if i < n {
            proof {
                assert(rest.skip(i - start + 1) =~= input@.skip(i + 1));
                assert(input@.take(i + 1) =~= input@.take(start as int) + input@.subrange(
                    start as int,
                    i as int,
                ).push('\n'));
                lemma_byte_len_push(input@.subrange(start as int, i as int), '\n');
                lemma_byte_len_concat(
                    input@.take(start as int),
                    input@.subrange(start as int, i as int).push('\n'),
                );
                lemma_byte_len_prefix(input@, i + 1);
                assert(spec_char_width('\n') == 1);
                assert(no + 1 <= usize::MAX);
            }
            byte = byte + width + 1;
            start = i + 1;
            no = no + 1;
        } else {
            proof {
                assert(input@.skip(n as int) =~= Seq::<char>::empty());
                assert(input@.take(n as int) =~= input@.take(start as int) + input@.subrange(
                    start as int,
                    n as int,
                ));
                lemma_byte_len_concat(
                    input@.take(start as int),
                    input@.subrange(start as int, n as int),
                );
            }
            byte = byte + width;
            start = n;
        }
    }
    proof {
        assert(input@.skip(start as int) =~= Seq::<char>::empty());
        assert(lines@.map_values(|l: SrcLine| l@) + Seq::<LineV>::empty() =~= lines@.map_values(
            |l: SrcLine| l@,
        ));
    }
    lines
}

/// The number of line breaks in a text.
pub open spec fn count_nl(s: Seq<char>) -> nat
    decreases s.len(),
{
    if s.len() == 0 {
        0
    } else {
        (if s[0] == '\n' {
            1nat
        } else {
            0nat
        }) + count_nl(s.drop_first())
    }
}

/// `l` is a line of `s`: its text is a longest run of characters between line
/// breaks (or the ends of `s`), without the `\r` before its `\n`; `start` is the
/// byte offset of the run, counted from `base`, and `end` the byte offset where its
/// text ends.
pub open spec fn line_of(s: Seq<char>, l: LineV, base: int) -> bool {
    exists|a: int, b: int|
        #![trigger s.subrange(a, b)]
        0 <= a <= b <= s.len() && l.text == strip_cr(s.subrange(a, b)) && (a == 0 || s[a - 1] == '\n')
            && (b == s.len() || s[b] == '\n') && (forall|j: int| a <= j < b ==> s[j] != '\n') && l.start
            == base + byte_len(s.take(a)) && l.end == l.start + byte_len(l.text)
}

/// The first newline stands where it says, with no newline before it.
proof fn lemma_first_nl_facts(s: Seq<char>)
    ensures
        first_nl(s) <= s.len(),
        forall|j: int| 0 <= j < first_nl(s) ==> s[j] != '\n',
        first_nl(s) < s.len() ==> s[first_nl(s) as int] == '\n',
    decreases s.len(),
{
    if s.len() > 0 && s[0] != '\n' {
        lemma_first_nl_facts(s.drop_first());
        assert forall|j: int| 0 <= j < first_nl(s) implies s[j] != '\n' by {
            if j > 0 {
                assert(s[j] == s.drop_first()[j - 1]);
            }
        }
    }
}

/// Line breaks count apart before and after a cut.
proof fn lemma_count_split(s: Seq<char>, i: int)
    requires
        0 <= i <= s.len(),
    ensures
        count_nl(s) == count_nl(s.take(i)) + count_nl(s.skip(i)),
    decreases i,
{
    if i == 0 {
        assert(s.skip(0) =~= s);
        assert(count_nl(s.take(0)) == 0);
    } else {
        let d = s.drop_first();
        lemma_count_split(d, i - 1);
        assert(d.skip(i - 1) =~= s.skip(i));
        assert(s.take(i).drop_first() =~= d.take(i - 1));
        assert(s.take(i)[0] == s[0]);
    }
}

/// A text without line breaks counts none.
proof fn lemma_count_none(s: Seq<char>)
    requires
        forall|j: int| 0 <= j < s.len() ==> s[j] != '\n',
    ensures
        count_nl(s) == 0,
    decreases s.len(),
{
    if s.len() > 0 {
        assert forall|j: int| 0 <= j < s.drop_first().len() implies s.drop_first()[j] != '\n' by {
            assert(s.drop_first()[j] == s[j + 1]);
        }
        lemma_count_none(s.drop_first());
    }
}

/// The lines of `rest`: one per line break, plus one for what follows the last;
/// numbered on from `no`; each a line of `rest`.
proof fn lemma_lines_at(rest: Seq<char>, byte: int, no: int)
    ensures
        lines_at(rest, byte, no).len() == count_nl(rest) + (if rest.len() == 0 || rest.last() == '\n' {
            0nat
        } else {
            1nat
        }),
        forall|k: int|
            0 <= k < lines_at(rest, byte, no).len() ==> (#[trigger] lines_at(rest, byte, no)[k]).line_no
                == no + k && line_of(rest, lines_at(rest, byte, no)[k], byte),
    decreases rest.len(),
{
    let ls = lines_at(rest, byte, no);
    if rest.len() > 0 {
        lemma_first_nl_facts(rest);
        let i = first_nl(rest) as int;
        assert(rest.subrange(0, i) =~= rest.take(i));
        assert(line_of(rest, ls[0], byte)) by {
            assert(ls[0].text == strip_cr(rest.subrange(0, i)));
            assert(rest.take(0) =~= Seq::<char>::empty());
            assert(byte_len(rest.take(0)) == 0);
        }
        lemma_count_split(rest, i);
        lemma_count_none(rest.take(i));
        if i < rest.len() {
            let tail = rest.skip(i + 1);
            let b2 = byte + crate::text::byte_len(rest.take(i)) + 1;
            lemma_lines_at(tail, b2, no + 1);
            let lt = lines_at(tail, b2, no + 1);
            assert(ls =~= seq![ls[0]] + lt);
            assert(rest.skip(i).drop_first() =~= tail);
            assert(count_nl(rest.skip(i)) == 1 + count_nl(tail));
            if tail.len() > 0 {
                assert(tail.last() == rest.last());
            }
            assert forall|k: int| 0 <= k < ls.len() implies (#[trigger] ls[k]).line_no == no + k
                && line_of(rest, ls[k], byte) by {
                if k > 0 {
                    assert(ls[k] == lt[k - 1]);
                    let l = lt[k - 1];
                    let t = l.text;
                    assert(line_of(tail, l, b2));
                    let (a, b) = choose|a: int, b: int|
                        #![trigger tail.subrange(a, b)]
                        0 <= a <= b <= tail.len() && t == strip_cr(tail.subrange(a, b)) && (a == 0
                            || tail[a - 1] == '\n') && (b == tail.len() || tail[b] == '\n')
                            && (forall|j: int| a <= j < b ==> tail[j] != '\n') && l.start == b2
                            + byte_len(tail.take(a)) && l.end == l.start + byte_len(t);
                    let a2 = a + i + 1;
                    let b2x = b + i + 1;
                    assert(rest.subrange(a2, b2x) =~= tail.subrange(a, b));
                    assert(a2 == 0 || rest[a2 - 1] == '\n') by {
                        if a > 0 {
                            assert(rest[a2 - 1] == tail[a - 1]);
                        }
                    }
                    assert(b2x == rest.len() || rest[b2x] == '\n') by {
                        if b < tail.len() {
                            assert(rest[b2x] == tail[b]);
                        }
                    }
                    assert forall|j: int| a2 <= j < b2x implies rest[j] != '\n' by {
                        assert(rest[j] == tail[j - i - 1]);
                    }
                    assert(byte_len(rest.take(a2)) == byte_len(rest.take(i)) + 1 + byte_len(tail.take(a))) by {
                        assert(rest.take(a2) =~= rest.take(i).push('\n') + tail.take(a));
                        crate::text::lemma_byte_len_concat(rest.take(i).push('\n'), tail.take(a));
                        crate::text::lemma_byte_len_push(rest.take(i), '\n');
                    }
                }
            }
        } else {
            assert(rest.skip(i) =~= Seq::<char>::empty());
            assert(rest.last() != '\n') by {
                assert(rest[rest.len() - 1] != '\n');
            }
        }
    }
}

/// The lines a text is cut into: one per line break, plus one for text after the
/// last; numbered from 1; each a longest run between line breaks, without the
/// `\r` of a `\r\n` ending, so that no line holds a line break, and each with the
/// byte offsets of its text in the input.
pub proof fn scanned_lines_are_the_lines(s: Seq<char>)
    ensures
        spec_scan_lines(s).len() == count_nl(s) + (if s.len() == 0 || s.last() == '\n' {
            0nat
        } else {
            1nat
        }),
        forall|k: int|
            0 <= k < spec_scan_lines(s).len() ==> (#[trigger] spec_scan_lines(s)[k]).line_no == k + 1
                && line_of(s, spec_scan_lines(s)[k], 0) && !spec_scan_lines(s)[k].text.contains(
                '\n',
            ),
{
    lemma_lines_at(s, 0, 1);
    assert forall|k: int| 0 <= k < spec_scan_lines(s).len() implies !(
    #[trigger] spec_scan_lines(s)[k]).text.contains('\n') by {
        let t = spec_scan_lines(s)[k].text;
        let (a, b) = choose|a: int, b: int|
            #![trigger s.subrange(a, b)]
            0 <= a <= b <= s.len() && t == strip_cr(s.subrange(a, b)) && (a == 0 || s[a - 1] == '\n')
                && (b == s.len() || s[b] == '\n') && forall|j: int| a <= j < b ==> s[j] != '\n';
        if t.contains('\n') {
            let j = choose|j: int| 0 <= j < t.len() && t[j] == '\n';
            assert(s.subrange(a, b)[j] == t[j]);
            assert(s[a + j] == '\n');
        }
    }
}

} // verus!
