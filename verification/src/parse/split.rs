//! Splitting into blocks, and recursion into call bodies.
//!
//! * Natural blocks are separated by blank lines; call blocks by indentation.
//! * Any line whose content (after its indentation) starts with `::` is a call
//!   header, even without a blank line before it.
//! * After a header, lines indented strictly deeper than the header belong to its
//!   body; the first line that is not starts the next block, blank line or not.
//! * Blank lines inside a body do not end it; trailing blank lines are not part of
//!   it.
//! * The body is dedented by its common indentation and parsed again, so call
//!   blocks nest. Text after the separator colon of the header is the first line
//!   of the body.

use vstd::prelude::*;
use crate::ast::block::{Block, BlockV, CallBlock, NaturalBlock, block_view, blocks_view};
use crate::ast::span::Span;
use crate::parse::header::{lemma_header_content, parse_call_header_chars, spec_parse_call_header};
use crate::parse::line::{
    first_nl, lines_at, strip_cr, LineV, SrcLine, lemma_indent_bounds, scan_lines, spec_blank, spec_content, spec_indent,
    spec_is_call, spec_scan_lines,
};
use crate::text::{
    byte_len, char_width, chars_to_string, copy_range, lemma_byte_len_concat,
    lemma_byte_len_encode, lemma_byte_len_prefix, str_chars,
};
use vstd::string::StringSliceAdditionalSpecFns;

verus! {

// ── specification ─────────────────────────────────────────────────────────

/// Where the natural block starting at `ls[i]` ends: at a blank line, a call
/// header or the end.
pub open spec fn natural_end(ls: Seq<LineV>, i: int) -> int
    decreases ls.len() - i,
{
    if 0 <= i < ls.len() && !spec_blank(ls[i].text) && !spec_is_call(ls[i].text) {
        natural_end(ls, i + 1)
    } else {
        i
    }
}

/// Scans a call body: blank lines are skipped without ending it, lines indented
/// deeper than `hi` extend it. Returns (where the next block starts, one past the
/// last body line).
pub open spec fn body_scan(ls: Seq<LineV>, cursor: int, body_end: int, hi: nat) -> (int, int)
    decreases ls.len() - cursor,
{
    if cursor < 0 || cursor >= ls.len() {
        (cursor, body_end)
    } else if spec_blank(ls[cursor].text) {
        body_scan(ls, cursor + 1, body_end, hi)
    } else if spec_indent(ls[cursor].text) > hi {
        body_scan(ls, cursor + 1, cursor + 1, hi)
    } else {
        (cursor, body_end)
    }
}

/// The first non-blank line in `ls[a..b]`, or `b`.
pub open spec fn first_nonblank(ls: Seq<LineV>, a: int, b: int) -> int
    decreases b - a,
{
    if 0 <= a < b && a < ls.len() && spec_blank(ls[a].text) {
        first_nonblank(ls, a + 1, b)
    } else {
        a
    }
}

/// The smallest indentation of the non-blank lines, if there is one.
pub open spec fn min_indent(ls: Seq<LineV>) -> Option<nat>
    decreases ls.len(),
{
    if ls.len() == 0 {
        None
    } else {
        let rest = min_indent(ls.drop_first());
        if spec_blank(ls[0].text) {
            rest
        } else {
            let d = spec_indent(ls[0].text);
            match rest {
                Some(m) => Some(if d <= m {
                    d
                } else {
                    m
                }),
                None => Some(d),
            }
        }
    }
}

/// A line dedented by `m`: blank lines become empty.
pub open spec fn dedent_line(l: LineV, m: nat) -> LineV {
    if spec_blank(l.text) {
        LineV { text: Seq::empty(), ..l }
    } else {
        let d = spec_indent(l.text);
        LineV { text: l.text.skip(if m <= d { m as int } else { d as int }), ..l }
    }
}

/// Lines dedented by the common indentation of the non-blank ones.
pub open spec fn dedent(ls: Seq<LineV>) -> Seq<LineV> {
    let m = match min_indent(ls) {
        Some(m) => m,
        None => 0,
    };
    ls.map_values(|l: LineV| dedent_line(l, m))
}

/// The texts of the lines joined with `\n`.
pub open spec fn join_texts(ls: Seq<LineV>) -> Seq<char>
    decreases ls.len(),
{
    if ls.len() == 0 {
        Seq::empty()
    } else if ls.len() == 1 {
        ls[0].text
    } else {
        join_texts(ls.drop_last()) + seq!['\n'] + ls.last().text
    }
}

/// The first body line that a header carries after its separator colon; it ends
/// where the header line ends.
pub open spec fn content_line(l: LineV, c: Seq<char>) -> LineV {
    LineV { text: c, line_no: l.line_no, start: l.end - byte_len(c), end: l.end }
}

/// The header of the call at `ls[i]`.
pub open spec fn header_at(ls: Seq<LineV>, i: int) -> crate::parse::header::HeaderV {
    spec_parse_call_header(spec_content(ls[i].text))
}

/// The body scan of the call at `ls[i]`.
pub open spec fn scan_at(ls: Seq<LineV>, i: int) -> (int, int) {
    body_scan(ls, i + 1, i + 1, spec_indent(ls[i].text))
}

/// The body lines of the call at `ls[i]`: the header's first line (if any) and the
/// indented lines, dedented. Without a first line, leading blank lines are dropped.
pub open spec fn call_body_lines(ls: Seq<LineV>, i: int) -> Seq<LineV> {
    let be = scan_at(ls, i).1;
    match header_at(ls, i).content {
        Some(c) => seq![content_line(ls[i], c)] + dedent(ls.subrange(i + 1, be)),
        None => dedent(ls.subrange(first_nonblank(ls, i + 1, be), be)),
    }
}

/// The span from line `a` to line `b`.
pub open spec fn span_of(a: LineV, b: LineV) -> Span {
    Span {
        start_line: a.line_no as usize,
        end_line: b.line_no as usize,
        start_byte: a.start as usize,
        end_byte: b.end as usize,
    }
}

/// Measure for the recursion: the number of lines left, then the length of the
/// first of them.
pub open spec fn head_len(ls: Seq<LineV>, i: int) -> nat {
    if 0 <= i < ls.len() {
        ls[i].text.len()
    } else {
        0
    }
}

/// The blocks of `ls[i..]`.
pub open spec fn spec_seq_from(ls: Seq<LineV>, i: int) -> Seq<BlockV>
    decreases ls.len() - i, head_len(ls, i),
{
    if i < 0 || i >= ls.len() {
        Seq::empty()
    } else if spec_blank(ls[i].text) {
        spec_seq_from(ls, i + 1)
    } else if spec_is_call(ls[i].text) {
        let h = header_at(ls, i);
        let (cursor, be) = scan_at(ls, i);
        let body = call_body_lines(ls, i);
        let last = if be > i + 1 {
            ls[be - 1]
        } else {
            ls[i]
        };
        proof {
            lemma_call_measure(ls, i);
        }
        seq![
            BlockV::Call {
                name: h.name,
                params: h.params,
                body: spec_seq_from(body, 0),
                raw_body: join_texts(body),
                span: span_of(ls[i], last),
            },
        ] + spec_seq_from(ls, cursor)
    } else {
        let e = natural_end(ls, i);
        proof {
            lemma_natural_end(ls, i);
        }
        seq![
            BlockV::Natural {
                text: join_texts(ls.subrange(i, e)),
                span: span_of(ls[i], ls[e - 1]),
            },
        ] + spec_seq_from(ls, e)
    }
}

/// The blocks of a whole input.
pub open spec fn spec_parse_blocks(s: Seq<char>) -> Seq<BlockV> {
    spec_seq_from(spec_scan_lines(s), 0)
}

// ── lemmas ─────────────────────────────────────────────────────────────────

/// Where a natural block ends, and that its lines are neither blank nor call headers.
pub proof fn lemma_natural_end(ls: Seq<LineV>, i: int)
    requires
        0 <= i <= ls.len(),
    ensures
        i <= natural_end(ls, i) <= ls.len(),
        i < ls.len() && !spec_blank(ls[i].text) && !spec_is_call(ls[i].text) ==> i < natural_end(
            ls,
            i,
        ),
        forall|j: int|
            i <= j < natural_end(ls, i) ==> !spec_blank(#[trigger] ls[j].text) && !spec_is_call(
                ls[j].text,
            ),
    decreases ls.len() - i,
{
    if i < ls.len() && !spec_blank(ls[i].text) && !spec_is_call(ls[i].text) {
        lemma_natural_end(ls, i + 1);
    }
}

/// What the scan of a call body returns lies between where it started and the end.
pub proof fn lemma_body_scan(ls: Seq<LineV>, cursor: int, body_end: int, hi: nat)
    requires
        0 <= cursor <= ls.len(),
        body_end <= cursor,
    ensures
        cursor <= body_scan(ls, cursor, body_end, hi).0 <= ls.len(),
        body_end <= body_scan(ls, cursor, body_end, hi).1 <= body_scan(
            ls,
            cursor,
            body_end,
            hi,
        ).0,
        body_scan(ls, cursor, body_end, hi).1 > body_end ==> body_scan(
            ls,
            cursor,
            body_end,
            hi,
        ).1 > cursor,
    decreases ls.len() - cursor,
{
    if cursor < ls.len() {
        if spec_blank(ls[cursor].text) {
            lemma_body_scan(ls, cursor + 1, body_end, hi);
        } else if spec_indent(ls[cursor].text) > hi {
            lemma_body_scan(ls, cursor + 1, cursor + 1, hi);
        }
    }
}

/// The first line that is not blank lies within the range searched.
pub proof fn lemma_first_nonblank(ls: Seq<LineV>, a: int, b: int)
    requires
        0 <= a <= b <= ls.len(),
    ensures
        a <= first_nonblank(ls, a, b) <= b,
    decreases b - a,
{
    if a < b && spec_blank(ls[a].text) {
        lemma_first_nonblank(ls, a + 1, b);
    }
}

/// The recursion into a call body and past it makes progress.
pub proof fn lemma_call_measure(ls: Seq<LineV>, i: int)
    requires
        0 <= i < ls.len(),
        spec_is_call(ls[i].text),
    ensures
        i + 1 <= scan_at(ls, i).0 <= ls.len(),
        i + 1 <= scan_at(ls, i).1 <= scan_at(ls, i).0,
        call_body_lines(ls, i).len() <= ls.len() - i,
        call_body_lines(ls, i).len() < ls.len() - i || head_len(call_body_lines(ls, i), 0)
            < head_len(ls, i),
{
    let l = ls[i];
    lemma_body_scan(ls, i + 1, i + 1, spec_indent(l.text));
    let be = scan_at(ls, i).1;
    lemma_indent_bounds(l.text);
    lemma_header_content(spec_content(l.text));
    match header_at(ls, i).content {
        Some(c) => {
            assert(call_body_lines(ls, i).len() == 1 + (be - i - 1));
            assert(call_body_lines(ls, i)[0].text == c);
        },
        None => {
            lemma_first_nonblank(ls, i + 1, be);
        },
    }
}

/// Positions of a line are consistent: its text fits between its start and end.
pub open spec fn line_ok(l: LineV) -> bool {
    &&& 0 <= l.start
    &&& l.start + byte_len(l.text) <= l.end
    &&& l.end <= usize::MAX
    &&& 0 <= l.line_no <= usize::MAX
}

/// All lines are well formed and well positioned.
pub open spec fn lines_ok(ls: Seq<SrcLine>) -> bool {
    forall|j: int| 0 <= j < ls.len() ==> (#[trigger] ls[j]).wf() && line_ok(ls[j]@)
}

/// The values of some lines.
pub open spec fn views(ls: Seq<SrcLine>) -> Seq<LineV> {
    ls.map_values(|l: SrcLine| l@)
}

/// The value of blocks with one more block has one more value.
pub proof fn lemma_blocks_view_push(s: Seq<Block>, b: Block)
    ensures
        blocks_view(s.push(b)) == blocks_view(s) + seq![block_view(b)],
    decreases s.len(),
{
    if s.len() == 0 {
        assert(s.push(b).subrange(1, 1) =~= s);
        assert(s.push(b)[0] == b);
        assert(blocks_view(s) == Seq::<BlockV>::empty());
        assert(blocks_view(s.push(b)) == seq![block_view(b)] + blocks_view(s));
        assert(blocks_view(s.push(b)) =~= blocks_view(s) + seq![block_view(b)]);
    } else {
        let t = s.subrange(1, s.len() as int);
        assert(s.push(b).subrange(1, s.len() + 1 as int) =~= t.push(b));
        lemma_blocks_view_push(t, b);
        assert(blocks_view(s.push(b)) =~= blocks_view(s) + seq![block_view(b)]);
    }
}

/// Joining one more line adds a newline and the line.
pub proof fn lemma_join_push(ls: Seq<LineV>, l: LineV)
    ensures
        join_texts(ls.push(l)) == if ls.len() == 0 {
            l.text
        } else {
            join_texts(ls) + seq!['\n'] + l.text
        },
{
    assert(ls.push(l).drop_last() =~= ls);
}

/// A suffix of a text takes no more bytes than the text.
pub proof fn lemma_suffix_bytes(t: Seq<char>, k: int)
    requires
        0 <= k <= t.len(),
    ensures
        byte_len(t.skip(k)) <= byte_len(t),
{
    lemma_byte_len_prefix(t, k);
}

// ── execution ──────────────────────────────────────────────────────────────

/// Joins the texts of some lines with `\n`.
fn join_lines(ls: &[SrcLine], a: usize, b: usize) -> (r: Vec<char>)
    requires
        a <= b <= ls.len(),
    ensures
        r@ == join_texts(views(ls@).subrange(a as int, b as int)),
{
    let mut out: Vec<char> = Vec::new();
    let mut j = a;
    proof {
        assert(views(ls@).subrange(a as int, a as int) =~= Seq::<LineV>::empty());
    }
    while j < b
        invariant
            a <= j <= b <= ls.len(),
            out@ == join_texts(views(ls@).subrange(a as int, j as int)),
        decreases b - j,
    {
        let ghost prev = views(ls@).subrange(a as int, j as int);
        proof {
            assert(views(ls@).subrange(a as int, j + 1) =~= prev.push(ls@[j as int]@));
            lemma_join_push(prev, ls@[j as int]@);
        }
        if j > a {
            out.push('\n');
        }
        let t = &ls[j].text;
        let mut k: usize = 0;
        let ghost before = out@;
        while k < t.len()
            invariant
                k <= t.len(),
                out@ == before + t@.take(k as int),
            decreases t.len() - k,
        {
            out.push(t[k]);
            assert(before + t@.take(k + 1) =~= (before + t@.take(k as int)).push(t@[k as int]));
            k += 1;
        }
        proof {
            assert(t@.take(t.len() as int) =~= t@);
            if j > a {
                assert(out@ =~= join_texts(prev) + seq!['\n'] + ls@[j as int].text@);
            } else {
                assert(out@ =~= ls@[j as int].text@);
            }
        }
        j += 1;
    }
    out
}

/// The smallest indentation of the non-blank lines of `ls[a..b]`, or 0.
fn min_indent_of(ls: &[SrcLine], a: usize, b: usize) -> (r: usize)
    requires
        a <= b <= ls.len(),
        lines_ok(ls@),
    ensures
        r as nat == match min_indent(views(ls@).subrange(a as int, b as int)) {
            Some(m) => m,
            None => 0,
        },
{
    let mut j = b;
    let mut cur: Option<usize> = None;
    proof {
        assert(views(ls@).subrange(b as int, b as int) =~= Seq::<LineV>::empty());
    }
    while j > a
        invariant
            a <= j <= b <= ls.len(),
            lines_ok(ls@),
            match cur {
                Some(c) => min_indent(views(ls@).subrange(j as int, b as int)) == Some(c as nat),
                None => min_indent(views(ls@).subrange(j as int, b as int)) is None,
            },
        decreases j,
    {
        j -= 1;
        proof {
            assert(views(ls@).subrange(j as int, b as int).drop_first() =~= views(ls@).subrange(
                j + 1,
                b as int,
            ));
            assert(ls@[j as int].wf());
            assert(views(ls@).subrange(j as int, b as int)[0] == ls@[j as int]@);
        }
        if !ls[j].blank {
            let d = ls[j].indent;
            cur = match cur {
                Some(m) => Some(
                    if d <= m {
                        d
                    } else {
                        m
                    },
                ),
                None => Some(d),
            };
        }
    }
    match cur {
        Some(m) => m,
        None => 0,
    }
}

/// `ls[a..b]` dedented by their common indentation.
fn dedent_lines(ls: &[SrcLine], a: usize, b: usize, out: &mut Vec<SrcLine>)
    requires
        a <= b <= ls.len(),
        lines_ok(ls@),
        lines_ok(old(out)@),
    ensures
        lines_ok(final(out)@),
        views(final(out)@) == views(old(out)@) + dedent(views(ls@).subrange(a as int, b as int)),
{
    let m = min_indent_of(ls, a, b);
    let ghost sub = views(ls@).subrange(a as int, b as int);
    let ghost mm: nat = m as nat;
    assert(mm == match min_indent(sub) {
        Some(x) => x,
        None => 0,
    });
    let mut j = a;
    let ghost start_out = views(out@);
    while j < b
        invariant
            a <= j <= b <= ls.len(),
            lines_ok(ls@),
            lines_ok(out@),
            sub == views(ls@).subrange(a as int, b as int),
            mm == m as nat,
            views(out@) == start_out + sub.take(j - a).map_values(
                |l: LineV| dedent_line(l, mm),
            ),
        decreases b - j,
    {
        let l = &ls[j];
        proof {
            assert(ls@[j as int].wf() && line_ok(ls@[j as int]@));
            lemma_indent_bounds(l.text@);
        }
        let line = if l.blank {
            let e: Vec<char> = Vec::new();
            proof {
                assert(e@ =~= Seq::<char>::empty());
            }
            let r = SrcLine::new(e, l.line_no, l.start, l.end);
            proof {
                assert(r@.text == Seq::<char>::empty());
                assert(spec_blank(ls@[j as int]@.text));
                assert(r@ == dedent_line(ls@[j as int]@, mm));
            }
            r
        } else {
            let strip = if m <= l.indent {
                m
            } else {
                l.indent
            };
            let t = copy_range(l.text.as_slice(), strip, l.text.len());
            proof {
                assert(t@ =~= l.text@.skip(strip as int));
                lemma_suffix_bytes(l.text@, strip as int);
            }
            let ghost tt = t@;
            let r = SrcLine::new(t, l.line_no, l.start, l.end);
            proof {
                let lv = ls@[j as int]@;
                assert(r@.text == tt);
                assert(tt == lv.text.skip(strip as int));
                assert(strip as int == if mm <= spec_indent(lv.text) {
                    mm as int
                } else {
                    spec_indent(lv.text) as int
                });
                assert(!spec_blank(lv.text));
                assert(l.indent == spec_indent(lv.text));
                assert(r@.text == lv.text.skip(
                    if mm <= spec_indent(lv.text) {
                        mm as int
                    } else {
                        spec_indent(lv.text) as int
                    },
                ));
                assert(r@ == dedent_line(lv, mm));
            }
            r
        };
        proof {
            assert(l.text@ == ls@[j as int]@.text);
            assert(line@ =~= dedent_line(ls@[j as int]@, mm));
            assert(byte_len(Seq::<char>::empty()) == 0);
        }
        let ghost prev = out@;
        out.push(line);
        proof {
            assert(sub.take(j + 1 - a) =~= sub.take(j - a).push(sub[j - a]));
            assert(views(out@) =~= views(prev).push(line@));
            assert(views(out@) =~= start_out + sub.take(j + 1 - a).map_values(
                |l: LineV| dedent_line(l, mm),
            ));
        }
        j += 1;
    }
    proof {
        assert(sub.take(b - a) =~= sub);
    }
}

/// What a call block at `ls[i]` is made of.
struct CallParts {
    header: crate::parse::header::CallHeader,
    cursor: usize,
    body_end: usize,
    body: Vec<SrcLine>,
}

/// Recognises the call block at `ls[i]`: its header, its extent and its body lines.
fn call_parts(ls: &Vec<SrcLine>, i: usize) -> (r: CallParts)
    requires
        i < ls.len(),
        lines_ok(ls@),
        spec_is_call(ls@[i as int].text@),
    ensures
        r.header@ == header_at(views(ls@), i as int),
        (r.cursor as int, r.body_end as int) == scan_at(views(ls@), i as int),
        views(r.body@) == call_body_lines(views(ls@), i as int),
        lines_ok(r.body@),
{
    let ghost vs = views(ls@);
    let l = &ls[i];
    proof {
        assert(ls@[i as int].wf() && line_ok(ls@[i as int]@));
        lemma_indent_bounds(l.text@);
        lemma_call_measure(vs, i as int);
    }
    // The header.
    let content = copy_range(l.text.as_slice(), l.indent, l.text.len());
    assert(content@ =~= spec_content(l.text@));
    let header = parse_call_header_chars(content.as_slice());
    // The extent of the body.
    let hi = l.indent;
    let mut cursor = i + 1;
    let mut body_end = i + 1;
    while cursor < ls.len() && (ls[cursor].blank || ls[cursor].indent > hi)
        invariant
            i + 1 <= body_end <= cursor <= ls.len(),
            lines_ok(ls@),
            vs == views(ls@),
            hi == spec_indent(vs[i as int].text),
            body_scan(vs, cursor as int, body_end as int, hi as nat) == scan_at(vs, i as int),
        decreases ls.len() - cursor,
    {
        proof {
            assert(ls@[cursor as int].wf());
        }
        if ls[cursor].blank {
            cursor += 1;
        } else {
            body_end = cursor + 1;
            cursor += 1;
        }
    }
    proof {
        if cursor < ls.len() {
            assert(ls@[cursor as int].wf());
        }
    }
    // The body lines.
    let mut body: Vec<SrcLine> = Vec::new();
    proof {
        assert(views(body@) =~= Seq::<LineV>::empty());
    }
    match &header.content {
        Some(c) => {
            let cc = str_chars(c.as_str());
            let mut w: usize = 0;
            let mut k: usize = 0;
            proof {
                lemma_header_content(content@);
                let t = spec_content(l.text@);
                assert(cc@ =~= l.text@.skip(l.text@.len() - cc@.len()));
                lemma_suffix_bytes(l.text@, l.text@.len() - cc@.len());
                lemma_byte_len_prefix(cc@, 0);
                assert(cc@.take(0) =~= Seq::<char>::empty());
            }
            while k < cc.len()
                invariant
                    k <= cc.len(),
                    w == byte_len(cc@.take(k as int)),
                    byte_len(cc@) <= l.end,
                decreases cc.len() - k,
            {
                proof {
                    assert(cc@.take(k + 1) =~= cc@.take(k as int) + seq![cc@[k as int]]);
                    lemma_byte_len_concat(cc@.take(k as int), seq![cc@[k as int]]);
                    assert(seq![cc@[k as int]].drop_first() =~= Seq::<char>::empty());
                    assert(byte_len(seq![cc@[k as int]]) == crate::text::spec_char_width(
                        cc@[k as int],
                    ) + byte_len(Seq::<char>::empty()));
                    lemma_byte_len_prefix(cc@, k + 1);
                }
                w = w + char_width(cc[k]);
                k += 1;
            }
            proof {
                assert(cc@.take(cc@.len() as int) =~= cc@);
            }
            let first = SrcLine::new(cc, l.line_no, l.end - w, l.end);
            proof {
                assert(first@ == crate::parse::split::content_line(vs[i as int], c@));
            }
            body.push(first);
            dedent_lines(ls.as_slice(), i + 1, body_end, &mut body);
            proof {
                assert(views(body@) =~= seq![first@] + dedent(
                    vs.subrange(i + 1, body_end as int),
                ));
            }
        },
        None => {
            let mut a = i + 1;
            while a < body_end && ls[a].blank
                invariant
                    i + 1 <= a <= body_end <= ls.len(),
                    lines_ok(ls@),
                    vs == views(ls@),
                    first_nonblank(vs, a as int, body_end as int) == first_nonblank(
                        vs,
                        i + 1,
                        body_end as int,
                    ),
                decreases body_end - a,
            {
                proof {
                    assert(ls@[a as int].wf());
                }
                a += 1;
            }
            proof {
                if a < body_end {
                    assert(ls@[a as int].wf());
                }
            }
            dedent_lines(ls.as_slice(), a, body_end, &mut body);
            proof {
                assert(views(body@) =~= dedent(vs.subrange(a as int, body_end as int)));
            }
        },
    }
    CallParts { header, cursor, body_end, body }
}

/// Parses a sequence of lines into blocks.
fn parse_sequence(ls: &Vec<SrcLine>) -> (r: Vec<Block>)
    requires
        lines_ok(ls@),
    ensures
        blocks_view(r@) == spec_seq_from(views(ls@), 0),
    decreases ls@.len(), head_len(views(ls@), 0),
{
    let ghost vs = views(ls@);
    let mut blocks: Vec<Block> = Vec::new();
    let mut i: usize = 0;
    while i < ls.len()
        invariant
            i <= ls.len(),
            lines_ok(ls@),
            vs == views(ls@),
            blocks_view(blocks@) + spec_seq_from(vs, i as int) == spec_seq_from(vs, 0),
        decreases ls.len() - i,
    {
        proof {
            assert(ls@[i as int].wf() && line_ok(ls@[i as int]@));
        }
        if ls[i].blank {
            i += 1;
        } else if ls[i].is_call() {
            let parts = call_parts(ls, i);
            proof {
                lemma_call_measure(vs, i as int);
            }
            let body = parse_sequence(&parts.body);
            let raw = join_lines(parts.body.as_slice(), 0, parts.body.len());
            proof {
                assert(views(parts.body@).subrange(0, parts.body@.len() as int) =~= views(
                    parts.body@,
                ));
            }
            let last = if parts.body_end > i + 1 {
                parts.body_end - 1
            } else {
                i
            };
            proof {
                assert(ls@[last as int].wf() && line_ok(ls@[last as int]@));
            }
            let span = Span {
                start_line: ls[i].line_no,
                end_line: ls[last].line_no,
                start_byte: ls[i].start,
                end_byte: ls[last].end,
            };
            let header = parts.header;
            let block = Block::Call(
                CallBlock {
                    name: header.name,
                    params: header.params,
                    body,
                    raw_body: chars_to_string(raw.as_slice()),
                    span,
                },
            );
            let ghost prev = blocks@;
            blocks.push(block);
            proof {
                lemma_blocks_view_push(prev, block);
                assert(block_view(block) == spec_seq_from(vs, i as int)[0]);
                assert(spec_seq_from(vs, i as int) =~= seq![block_view(block)] + spec_seq_from(
                    vs,
                    parts.cursor as int,
                ));
            }
            i = parts.cursor;
        } else {
            let mut e = i;
            while e < ls.len() && !ls[e].blank && !ls[e].is_call()
                invariant
                    i <= e <= ls.len(),
                    lines_ok(ls@),
                    vs == views(ls@),
                    natural_end(vs, e as int) == natural_end(vs, i as int),
                decreases ls.len() - e,
            {
                proof {
                    assert(ls@[e as int].wf());
                }
                e += 1;
            }
            proof {
                if e < ls.len() {
                    assert(ls@[e as int].wf());
                }
                lemma_natural_end(vs, i as int);
                assert(ls@[e - 1].wf() && line_ok(ls@[e - 1]@));
            }
            let text = join_lines(ls.as_slice(), i, e);
            let span = Span {
                start_line: ls[i].line_no,
                end_line: ls[e - 1].line_no,
                start_byte: ls[i].start,
                end_byte: ls[e - 1].end,
            };
            let block = Block::Natural(
                NaturalBlock { text: chars_to_string(text.as_slice()), span },
            );
            let ghost prev = blocks@;
            blocks.push(block);
            proof {
                lemma_blocks_view_push(prev, block);
                assert(spec_seq_from(vs, i as int) =~= seq![block_view(block)] + spec_seq_from(
                    vs,
                    e as int,
                ));
            }
            i = e;
        }
    }
    proof {
        assert(blocks_view(blocks@) + Seq::<BlockV>::empty() =~= blocks_view(blocks@));
    }
    blocks
}

/// Splits and parses a neomark text into blocks; call bodies are parsed again.
///
/// ```text
/// 你好。
///
/// ::notice type=warning:
///   小心！
/// ```
/// gives a natural block `你好。` and a `notice` call with `type=warning` whose body
/// is the natural block `小心！`.
pub fn parse_blocks(input: &str) -> (r: Vec<Block>)
    requires
        input.spec_bytes().len() < usize::MAX,
    ensures
        blocks_view(r@) == spec_parse_blocks(input@),
{
    let chars = str_chars(input);
    proof {
        lemma_byte_len_encode(input@);
    }
    let lines = scan_lines(chars.as_slice());
    proof {
        assert(views(lines@) == spec_scan_lines(input@));
        lemma_scanned_lines_ok(input@);
        assert forall|j: int| 0 <= j < lines@.len() implies (#[trigger] lines@[j]).wf()
            && line_ok(lines@[j]@) by {
            assert(lines@[j]@ == spec_scan_lines(input@)[j]);
        }
    }
    parse_sequence(&lines)
}

/// Scanned lines are well positioned.
pub proof fn lemma_scanned_lines_ok(s: Seq<char>)
    requires
        byte_len(s) < usize::MAX,
    ensures
        forall|j: int|
            0 <= j < spec_scan_lines(s).len() ==> line_ok(#[trigger] spec_scan_lines(s)[j]),
{
    crate::text::lemma_byte_len_ge_len(s);
    lemma_lines_at_ok(s, 0, 1, s);
}

/// Every line cut from the text has positions that fit in `usize`.
pub proof fn lemma_lines_at_ok(rest: Seq<char>, byte: int, no: int, whole: Seq<char>)
    requires
        0 <= byte,
        byte + byte_len(rest) <= usize::MAX,
        1 <= no,
        no + rest.len() <= usize::MAX,
    ensures
        forall|j: int|
            0 <= j < lines_at(rest, byte, no).len() ==> line_ok(
                #[trigger] lines_at(rest, byte, no)[j],
            ),
    decreases rest.len(),
{
    if rest.len() > 0 {
        let i = first_nl(rest) as int;
        lemma_first_nl_bound(rest);
        let raw = rest.take(i);
        let text = strip_cr(raw);
        lemma_byte_len_prefix(rest, i);
        if raw.len() > 0 && raw.last() == '\r' {
            lemma_byte_len_prefix(raw, raw.len() - 1);
            assert(raw.take(raw.len() - 1) =~= raw.drop_last());
        }
        if i < rest.len() {
            let tail = rest.skip(i + 1);
            lemma_byte_len_prefix(rest.skip(i), 1);
            assert(rest.skip(i).skip(1) =~= tail);
            crate::text::lemma_byte_len_ge_len(rest.skip(i).take(1));
            lemma_lines_at_ok(tail, byte + byte_len(raw) + 1, no + 1, whole);
            let ls = lines_at(rest, byte, no);
            assert forall|j: int| 0 <= j < ls.len() implies line_ok(#[trigger] ls[j]) by {
                if j > 0 {
                    assert(ls[j] == lines_at(tail, byte + byte_len(raw) + 1, no + 1)[j - 1]);
                }
            }
        }
    }
}

/// The first newline lies within the text.
pub proof fn lemma_first_nl_bound(s: Seq<char>)
    ensures
        first_nl(s) <= s.len(),
    decreases s.len(),
{
    if s.len() > 0 && s[0] != '\n' {
        lemma_first_nl_bound(s.drop_first());
    }
}

} // verus!
