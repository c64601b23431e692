//! Where blocks stand: every position the parser records falls between two
//! characters of the input, so cutting the input there never splits a character.
//!
//! Lines start after a line break and end before one; a call's first body line
//! ends where its header line ends; dedenting shortens a line's text but keeps its
//! position. So each recorded line ends at a character boundary, its text is the
//! input just before that boundary, and it starts at a boundary no later than its
//! text.

use vstd::prelude::*;
use vstd::utf8::{encode_utf8, is_char_boundary};
use vstd::string::StringSliceAdditionalSpecFns;
use crate::ast::block::BlockV;
use crate::ast::span::Span;
use crate::parse::header::lemma_header_content;
use crate::parse::line::{
    LineV, first_nl, lemma_indent_bounds, lines_at, spec_blank, spec_content, spec_indent,
    spec_is_call, spec_scan_lines, strip_cr,
};
use crate::parse::split::{
    call_body_lines, content_line, dedent, dedent_line, first_nonblank, head_len, header_at,
    lemma_call_measure, lemma_first_nonblank, lemma_natural_end, min_indent, natural_end,
    scan_at, span_of, spec_parse_blocks, spec_seq_from,
};
use crate::text::{byte_len, lemma_byte_len_concat, lemma_byte_len_encode, lemma_byte_len_prefix};

verus! {

/// `byte` is the byte offset of a character position of `whole`.
pub open spec fn at_boundary(whole: Seq<char>, byte: int) -> bool {
    exists|k: int| 0 <= k <= whole.len() && #[trigger] byte_len(whole.take(k)) == byte
}

/// The byte offset of a character position is a character boundary of the UTF-8
/// encoding.
pub proof fn lemma_char_boundary(t: Seq<char>, k: int)
    requires
        0 <= k <= t.len(),
    ensures
        is_char_boundary(encode_utf8(t), byte_len(t.take(k)) as int),
        byte_len(t.take(k)) <= encode_utf8(t).len(),
    decreases k,
{
    lemma_byte_len_prefix(t, k);
    lemma_byte_len_encode(t);
    if k > 0 {
        let rest = t.drop_first();
        lemma_char_boundary(rest, k - 1);
        vstd::utf8::encode_utf8_valid_utf8(t);
        vstd::utf8::encode_utf8_first_scalar(t);
        let bytes = encode_utf8(t);
        let w = vstd::utf8::length_of_first_scalar(bytes);
        assert(t.take(k).drop_first() =~= rest.take(k - 1));
        assert(byte_len(t.take(k)) == byte_len(t.take(1)) + byte_len(rest.take(k - 1))) by {
            lemma_byte_len_concat(t.take(1), rest.take(k - 1));
            assert(t.take(1) + rest.take(k - 1) =~= t.take(k));
        }
        lemma_byte_len_encode(t.take(1));
        assert(encode_utf8(t.take(1)) =~= vstd::utf8::encode_scalar(t[0] as u32)) by {
            assert(t.take(1).drop_first() =~= Seq::<char>::empty());
        }
        assert(vstd::utf8::pop_first_scalar(bytes) =~= encode_utf8(rest));
        let idx = byte_len(t.take(k)) as int;
        assert(vstd::utf8::valid_utf8(bytes));
        assert(w == byte_len(t.take(1)));
        assert(0 < idx <= bytes.len());
        assert(is_char_boundary(vstd::utf8::pop_first_scalar(bytes), idx - w));
        assert(is_char_boundary(bytes, idx));
    } else {
        vstd::utf8::encode_utf8_valid_utf8(t);
        assert(t.take(0) =~= Seq::<char>::empty());
        assert(byte_len(t.take(0)) == 0);
    }
}

/// A line break found by [`first_nl`] is one.
proof fn lemma_first_nl_at(s: Seq<char>)
    ensures
        first_nl(s) <= s.len(),
        first_nl(s) < s.len() ==> s[first_nl(s) as int] == '\n',
    decreases s.len(),
{
    if s.len() > 0 && s[0] != '\n' {
        lemma_first_nl_at(s.drop_first());
    }
}

/// A recorded line: it ends at a boundary, its text is the input just before that
/// boundary, and it starts at a boundary no later than its text.
pub open spec fn line_in(whole: Seq<char>, l: LineV) -> bool {
    &&& at_boundary(whole, l.start)
    &&& exists|k: int|
        0 <= k <= whole.len() && #[trigger] byte_len(whole.take(k)) == l.end && l.text.len() <= k
            && l.text == whole.subrange(k - l.text.len(), k)
    &&& l.start + byte_len(l.text) <= l.end
}

/// Recorded lines, each after the ones before it.
pub open spec fn lines_in(whole: Seq<char>, ls: Seq<LineV>) -> bool {
    &&& forall|i: int| 0 <= i < ls.len() ==> line_in(whole, #[trigger] ls[i])
    &&& forall|i: int, j: int| 0 <= i < j < ls.len() ==> #[trigger] ls[i].end <= #[trigger] ls[j].start
}

/// The lines of the input from character position `p` on are recorded lines.
proof fn lemma_lines_at_in(whole: Seq<char>, p: int, no: int)
    requires
        0 <= p <= whole.len(),
    ensures
        lines_in(whole, lines_at(whole.skip(p), byte_len(whole.take(p)) as int, no)),
        forall|i: int|
            0 <= i < lines_at(whole.skip(p), byte_len(whole.take(p)) as int, no).len()
                ==> #[trigger] lines_at(whole.skip(p), byte_len(whole.take(p)) as int, no)[i].start
                >= byte_len(whole.take(p)),
    decreases whole.len() - p,
{
    let rest = whole.skip(p);
    let byte = byte_len(whole.take(p)) as int;
    let ls = lines_at(rest, byte, no);
    if rest.len() > 0 {
        lemma_first_nl_at(rest);
        let i = first_nl(rest) as int;
        let text = strip_cr(rest.take(i));
        let q = p + text.len();
        assert(rest.take(i) =~= whole.subrange(p, p + i));
        assert(text =~= whole.subrange(p, q));
        assert(byte_len(whole.take(q)) == byte + byte_len(text)) by {
            lemma_byte_len_concat(whole.take(p), text);
            assert(whole.take(p) + text =~= whole.take(q));
        }
        let line = ls[0];
        assert(line == LineV { text, line_no: no, start: byte, end: byte + byte_len(text) });
        assert(byte_len(whole.take(p)) == line.start);
        assert(byte_len(whole.take(q)) == line.end);
        assert(text == whole.subrange(q - text.len(), q));
        assert(line_in(whole, line));
        if i < rest.len() {
            let p2 = p + i + 1;
            assert(byte_len(whole.take(p2)) == byte + byte_len(rest.take(i)) + 1) by {
                lemma_byte_len_concat(whole.take(p), whole.subrange(p, p2));
                assert(whole.take(p) + whole.subrange(p, p2) =~= whole.take(p2));
                lemma_byte_len_concat(rest.take(i), seq!['\n']);
                assert(rest[i] == '\n');
                assert(whole.subrange(p, p2) =~= rest.take(i) + seq!['\n']);
                assert(seq!['\n'].drop_first() =~= Seq::<char>::empty());
                assert(byte_len(Seq::<char>::empty()) == 0);
                assert(crate::text::spec_char_width('\n') == 1);
                assert(byte_len(seq!['\n']) == 1);
            }
            assert(whole.skip(p2) =~= rest.skip(i + 1));
            lemma_lines_at_in(whole, p2, no + 1);
            let tail = lines_at(rest.skip(i + 1), byte + byte_len(rest.take(i)) + 1, no + 1);
            assert(ls == seq![line] + tail);
            assert(byte_len(text) <= byte_len(rest.take(i))) by {
                if text.len() < i {
                    lemma_byte_len_concat(text, seq![rest[i - 1]]);
                    assert(text + seq![rest[i - 1]] =~= rest.take(i));
                }
            }
            assert forall|a: int| 0 <= a < ls.len() implies line_in(whole, #[trigger] ls[a]) by {
                if a > 0 {
                    assert(ls[a] == tail[a - 1]);
                }
            }
            assert forall|a: int, b: int| 0 <= a < b < ls.len() implies #[trigger] ls[a].end
                <= #[trigger] ls[b].start by {
                assert(ls[b] == tail[b - 1]);
                if a > 0 {
                    assert(ls[a] == tail[a - 1]);
                }
            }
            assert forall|a: int| 0 <= a < ls.len() implies #[trigger] ls[a].start >= byte by {
                if a > 0 {
                    assert(ls[a] == tail[a - 1]);
                }
            }
        } else {
            assert(ls == seq![line]);
        }
    }
}

/// The lines of an input are recorded lines.
pub proof fn lemma_scan_lines_in(whole: Seq<char>)
    ensures
        lines_in(whole, spec_scan_lines(whole)),
{
    assert(whole.skip(0) =~= whole);
    assert(whole.take(0) =~= Seq::<char>::empty());
    lemma_lines_at_in(whole, 0, 1);
}

/// Part of a run of recorded lines is one.
proof fn lemma_sub_in(whole: Seq<char>, ls: Seq<LineV>, a: int, b: int)
    requires
        lines_in(whole, ls),
        0 <= a <= b <= ls.len(),
    ensures
        lines_in(whole, ls.subrange(a, b)),
{
    let s = ls.subrange(a, b);
    assert forall|i: int| 0 <= i < s.len() implies line_in(whole, #[trigger] s[i]) by {
        assert(s[i] == ls[a + i]);
    }
    assert forall|i: int, j: int| 0 <= i < j < s.len() implies #[trigger] s[i].end
        <= #[trigger] s[j].start by {
        assert(s[i] == ls[a + i] && s[j] == ls[a + j]);
    }
}

/// A recorded line with its text cut to a suffix is one.
proof fn lemma_suffix_in(whole: Seq<char>, l: LineV, d: int)
    requires
        line_in(whole, l),
        0 <= d <= l.text.len(),
    ensures
        line_in(whole, LineV { text: l.text.skip(d), ..l }),
{
    let k = choose|k: int|
        0 <= k <= whole.len() && #[trigger] byte_len(whole.take(k)) == l.end && l.text.len() <= k
            && l.text == whole.subrange(k - l.text.len(), k);
    let t2 = l.text.skip(d);
    assert(t2 =~= whole.subrange(k - t2.len(), k));
    assert(byte_len(whole.take(k)) == l.end);
    lemma_byte_len_prefix(l.text, d);
}

/// Dedenting keeps recorded lines recorded.
proof fn lemma_dedent_in(whole: Seq<char>, ls: Seq<LineV>)
    requires
        lines_in(whole, ls),
    ensures
        lines_in(whole, dedent(ls)),
{
    let m = match min_indent(ls) {
        Some(m) => m,
        None => 0,
    };
    let ds = dedent(ls);
    assert forall|i: int| 0 <= i < ds.len() implies line_in(whole, #[trigger] ds[i]) by {
        let l = ls[i];
        assert(ds[i] == dedent_line(l, m));
        assert(line_in(whole, l));
        if spec_blank(l.text) {
            lemma_suffix_in(whole, l, l.text.len() as int);
            assert(l.text.skip(l.text.len() as int) =~= Seq::<char>::empty());
        } else {
            lemma_indent_bounds(l.text);
            let dd = spec_indent(l.text);
            let cut = if m <= dd {
                m as int
            } else {
                dd as int
            };
            lemma_suffix_in(whole, l, cut);
        }
    }
    assert forall|i: int, j: int| 0 <= i < j < ds.len() implies #[trigger] ds[i].end
        <= #[trigger] ds[j].start by {
        assert(ds[i] == dedent_line(ls[i], m) && ds[j] == dedent_line(ls[j], m));
    }
}

/// A call's first body line, cut from the end of its header line, is recorded.
proof fn lemma_content_in(whole: Seq<char>, l: LineV, c: Seq<char>)
    requires
        line_in(whole, l),
        c.len() <= l.text.len(),
        c == l.text.skip(l.text.len() - c.len()),
    ensures
        line_in(whole, content_line(l, c)),
        content_line(l, c).start >= l.start,
        content_line(l, c).end == l.end,
{
    let k = choose|k: int|
        0 <= k <= whole.len() && #[trigger] byte_len(whole.take(k)) == l.end && l.text.len() <= k
            && l.text == whole.subrange(k - l.text.len(), k);
    let k2 = k - c.len();
    assert(c =~= whole.subrange(k2, k));
    assert(byte_len(whole.take(k)) == byte_len(whole.take(k2)) + byte_len(c)) by {
        lemma_byte_len_concat(whole.take(k2), c);
        assert(whole.take(k2) + c =~= whole.take(k));
    }
    assert(byte_len(whole.take(k2)) == content_line(l, c).start);
    lemma_byte_len_prefix(l.text, l.text.len() - c.len());
    assert(c == whole.subrange(k - c.len(), k));
}

/// The body lines of a call are recorded lines.
proof fn lemma_body_in(whole: Seq<char>, ls: Seq<LineV>, i: int)
    requires
        lines_in(whole, ls),
        0 <= i < ls.len(),
        spec_is_call(ls[i].text),
    ensures
        lines_in(whole, call_body_lines(ls, i)),
{
    lemma_call_measure(ls, i);
    let be = scan_at(ls, i).1;
    match header_at(ls, i).content {
        Some(c) => {
            let l = ls[i];
            lemma_indent_bounds(l.text);
            lemma_header_content(spec_content(l.text));
            assert(c =~= l.text.skip(l.text.len() - c.len()));
            lemma_content_in(whole, l, c);
            lemma_sub_in(whole, ls, i + 1, be);
            lemma_dedent_in(whole, ls.subrange(i + 1, be));
            let rest = dedent(ls.subrange(i + 1, be));
            let body = call_body_lines(ls, i);
            let first = content_line(l, c);
            assert(body == seq![first] + rest);
            assert forall|a: int| 0 <= a < body.len() implies line_in(whole, #[trigger] body[a]) by {
                if a > 0 {
                    assert(body[a] == rest[a - 1]);
                }
            }
            assert forall|a: int, b: int| 0 <= a < b < body.len() implies #[trigger] body[a].end
                <= #[trigger] body[b].start by {
                assert(body[b] == rest[b - 1]);
                assert(rest[b - 1].start == ls[i + b].start);
                if a > 0 {
                    assert(body[a] == rest[a - 1]);
                    assert(rest[a - 1].end == ls[i + a].end);
                }
            }
        },
        None => {
            lemma_first_nonblank(ls, i + 1, be);
            let f = first_nonblank(ls, i + 1, be);
            lemma_sub_in(whole, ls, f, be);
            lemma_dedent_in(whole, ls.subrange(f, be));
        },
    }
}

/// A block and every block nested in it cut the input on character boundaries.
pub open spec fn block_fits(source: &str, b: BlockV) -> bool
    decreases b,
{
    match b {
        BlockV::Natural { span, .. } => span.fits(source),
        BlockV::Call { span, body, .. } => span.fits(source) && forall|i: int|
            0 <= i < body.len() ==> block_fits(source, #[trigger] body[i]),
    }
}

/// The span from one recorded line to a later one cuts the input on character
/// boundaries.
proof fn lemma_span_fits(source: &str, a: LineV, b: LineV)
    requires
        line_in(source@, a),
        line_in(source@, b),
        a.start <= b.end,
        byte_len(source@) < usize::MAX,
    ensures
        span_of(a, b).fits(source),
{
    let whole = source@;
    let ka = choose|k: int| 0 <= k <= whole.len() && #[trigger] byte_len(whole.take(k)) == a.start;
    let kb = choose|k: int|
        0 <= k <= whole.len() && #[trigger] byte_len(whole.take(k)) == b.end && b.text.len() <= k
            && b.text == whole.subrange(k - b.text.len(), k);
    lemma_char_boundary(whole, ka);
    lemma_char_boundary(whole, kb);
    lemma_byte_len_encode(whole);
}

/// The blocks of recorded lines, and the blocks nested in them, cut the input on
/// character boundaries.
proof fn lemma_seq_fits(source: &str, ls: Seq<LineV>, i: int)
    requires
        lines_in(source@, ls),
        byte_len(source@) < usize::MAX,
    ensures
        forall|j: int|
            0 <= j < spec_seq_from(ls, i).len() ==> block_fits(source, #[trigger] spec_seq_from(
                ls,
                i,
            )[j]),
    decreases ls.len() - i, head_len(ls, i),
{
    let whole = source@;
    if 0 <= i < ls.len() {
        if spec_blank(ls[i].text) {
            lemma_seq_fits(source, ls, i + 1);
            assert(spec_seq_from(ls, i) == spec_seq_from(ls, i + 1));
        } else if spec_is_call(ls[i].text) {
            lemma_call_measure(ls, i);
            let (cursor, be) = scan_at(ls, i);
            let body = call_body_lines(ls, i);
            lemma_body_in(whole, ls, i);
            lemma_seq_fits(source, body, 0);
            lemma_seq_fits(source, ls, cursor);
            let last = if be > i + 1 {
                ls[be - 1]
            } else {
                ls[i]
            };
            assert(line_in(whole, ls[i]));
            assert(line_in(whole, last));
            lemma_span_fits(source, ls[i], last);
            let all = spec_seq_from(ls, i);
            let tail = spec_seq_from(ls, cursor);
            let nested = spec_seq_from(body, 0);
            assert(all[0] is Call);
            assert(all[0]->Call_span == span_of(ls[i], last));
            assert(all[0]->Call_body == nested);
            assert(forall|j: int| 0 <= j < nested.len() ==> block_fits(source, #[trigger] nested[j]));
            assert(block_fits(source, all[0]));
            assert forall|j: int| 0 <= j < all.len() implies block_fits(source, #[trigger] all[j]) by {
                if j > 0 {
                    assert(all[j] == tail[j - 1]);
                }
            }
        } else {
            lemma_natural_end(ls, i);
            let e = natural_end(ls, i);
            lemma_seq_fits(source, ls, e);
            assert(line_in(whole, ls[i]));
            assert(line_in(whole, ls[e - 1]));
            if e - 1 > i {
                assert(ls[i].end <= ls[e - 1].start);
            }
            lemma_span_fits(source, ls[i], ls[e - 1]);
            let all = spec_seq_from(ls, i);
            let tail = spec_seq_from(ls, e);
            assert forall|j: int| 0 <= j < all.len() implies block_fits(source, #[trigger] all[j]) by {
                if j > 0 {
                    assert(all[j] == tail[j - 1]);
                }
            }
        }
    }
}

/// Every block the parser finds, nested ones included, cuts the input on character
/// boundaries: slicing the input by a block's span never splits a character.
pub proof fn parsed_spans_fit(source: &str)
    requires
        source.spec_bytes().len() < usize::MAX,
    ensures
        forall|j: int|
            0 <= j < spec_parse_blocks(source@).len() ==> block_fits(source, #[trigger] spec_parse_blocks(source@)[j]),
{
    lemma_byte_len_encode(source@);
    lemma_scan_lines_in(source@);
    lemma_seq_fits(source, spec_scan_lines(source@), 0);
}

} // verus!
