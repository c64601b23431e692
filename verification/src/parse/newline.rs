//! Line breaks written `\r\n` cut a text into the same lines as `\n`.

use vstd::prelude::*;
use crate::ast::block::BlockV;
use crate::parse::line::{LineV, first_nl, lines_at, spec_blank, spec_indent, spec_scan_lines, strip_cr};
use crate::parse::split::{
    body_scan, call_body_lines, dedent, first_nonblank, head_len,
    header_at, join_texts, lemma_call_measure, lemma_natural_end, min_indent, natural_end,
    scan_at, spec_parse_blocks, spec_seq_from,
};

verus! {

/// A text with every `\n` written `\r\n`.
pub open spec fn with_crlf(s: Seq<char>) -> Seq<char>
    decreases s.len(),
{
    if s.len() == 0 {
        Seq::empty()
    } else if s[0] == '\n' {
        seq!['\r', '\n'] + with_crlf(s.drop_first())
    } else {
        seq![s[0]] + with_crlf(s.drop_first())
    }
}

/// What a line is, its position aside: its text and its number.
pub open spec fn line_texts(ls: Seq<LineV>) -> Seq<(Seq<char>, int)> {
    ls.map_values(|l: LineV| (l.text, l.line_no))
}

/// Writing the breaks of two texts one after the other is writing them in each.
proof fn lemma_with_crlf_concat(a: Seq<char>, b: Seq<char>)
    ensures
        with_crlf(a + b) == with_crlf(a) + with_crlf(b),
    decreases a.len(),
{
    if a.len() == 0 {
        assert(a + b =~= b);
    } else {
        assert((a + b).drop_first() =~= a.drop_first() + b);
        lemma_with_crlf_concat(a.drop_first(), b);
        if a[0] == '\n' {
            assert(seq!['\r', '\n'] + (with_crlf(a.drop_first()) + with_crlf(b)) =~= (seq![
                '\r',
                '\n',
            ] + with_crlf(a.drop_first())) + with_crlf(b));
        } else {
            assert(seq![a[0]] + (with_crlf(a.drop_first()) + with_crlf(b)) =~= (seq![a[0]]
                + with_crlf(a.drop_first())) + with_crlf(b));
        }
    }
}

/// A text without line breaks is written as it is.
proof fn lemma_with_crlf_plain(a: Seq<char>)
    requires
        !a.contains('\n'),
    ensures
        with_crlf(a) == a,
    decreases a.len(),
{
    if a.len() > 0 {
        assert(a[0] != '\n');
        assert(!a.drop_first().contains('\n')) by {
            if a.drop_first().contains('\n') {
                let k = choose|k: int| 0 <= k < a.drop_first().len() && a.drop_first()[k] == '\n';
                assert(a[k + 1] == '\n');
            }
        }
        lemma_with_crlf_plain(a.drop_first());
        assert(seq![a[0]] + a.drop_first() =~= a);
    }
}

/// Where the first line break stands, and that none comes before it.
proof fn lemma_first_nl(s: Seq<char>)
    ensures
        first_nl(s) <= s.len(),
        first_nl(s) < s.len() ==> s[first_nl(s) as int] == '\n',
        !s.take(first_nl(s) as int).contains('\n'),
    decreases s.len(),
{
    if s.len() > 0 && s[0] != '\n' {
        lemma_first_nl(s.drop_first());
        let n = first_nl(s) as int;
        assert(!s.take(n).contains('\n')) by {
            if s.take(n).contains('\n') {
                let k = choose|k: int| 0 <= k < n && s.take(n)[k] == '\n';
                if k > 0 {
                    assert(s.drop_first().take(n - 1)[k - 1] == '\n');
                }
            }
        }
    } else {
        assert(s.take(0) =~= Seq::<char>::empty());
    }
}

/// A text that starts with `a`, which has no line break, has its first line break
/// right after `a`'s length in what follows.
proof fn lemma_first_nl_after(a: Seq<char>, b: Seq<char>)
    requires
        !a.contains('\n'),
    ensures
        first_nl(a + b) == a.len() + first_nl(b),
    decreases a.len(),
{
    if a.len() > 0 {
        assert(a[0] != '\n');
        assert((a + b).drop_first() =~= a.drop_first() + b);
        assert(!a.drop_first().contains('\n')) by {
            if a.drop_first().contains('\n') {
                let k = choose|k: int| 0 <= k < a.drop_first().len() && a.drop_first()[k] == '\n';
                assert(a[k + 1] == '\n');
            }
        }
        lemma_first_nl_after(a.drop_first(), b);
    } else {
        assert(a + b =~= b);
    }
}

/// The lines of a text without `\r` and of the same text written with `\r\n` are
/// the same lines, wherever each starts.
proof fn lemma_lines_crlf(r: Seq<char>, b1: int, b2: int, no: int)
    requires
        !r.contains('\r'),
    ensures
        line_texts(lines_at(with_crlf(r), b1, no)) == line_texts(lines_at(r, b2, no)),
    decreases r.len(),
{
    let w = with_crlf(r);
    if r.len() > 0 {
        lemma_first_nl(r);
        let i = first_nl(r) as int;
        let head = r.take(i);
        lemma_with_crlf_plain(head);
        assert(strip_cr(head) == head) by {
            if head.len() > 0 {
                assert(head.last() == r[i - 1]);
                assert(r[i - 1] != '\r');
            }
        }
        if i < r.len() {
            let tail = r.skip(i + 1);
            assert(r =~= head + (seq!['\n'] + tail));
            lemma_with_crlf_concat(head, seq!['\n'] + tail);
            assert(with_crlf(seq!['\n'] + tail) == seq!['\r', '\n'] + with_crlf(tail)) by {
                assert((seq!['\n'] + tail).drop_first() =~= tail);
            }
            assert(w =~= head + seq!['\r'] + (seq!['\n'] + with_crlf(tail)));
            assert(!(head + seq!['\r']).contains('\n')) by {
                if (head + seq!['\r']).contains('\n') {
                    let k = choose|k: int| 0 <= k < head.len() + 1 && (head + seq!['\r'])[k] == '\n';
                    if k < head.len() {
                        assert(head[k] == '\n');
                    }
                }
            }
            lemma_first_nl_after(head + seq!['\r'], seq!['\n'] + with_crlf(tail));
            assert(first_nl(seq!['\n'] + with_crlf(tail)) == 0);
            let j = first_nl(w) as int;
            assert(j == i + 1);
            assert(w.take(j) =~= head + seq!['\r']);
            assert(strip_cr(w.take(j)) =~= head);
            assert(w.skip(j + 1) =~= with_crlf(tail));
            assert(!tail.contains('\r')) by {
                if tail.contains('\r') {
                    let k = choose|k: int| 0 <= k < tail.len() && tail[k] == '\r';
                    assert(r[i + 1 + k] == '\r');
                }
            }
            assert(j < w.len());
            let nb1 = b1 + crate::text::byte_len(w.take(j)) + 1;
            let nb2 = b2 + crate::text::byte_len(r.take(i)) + 1;
            lemma_lines_crlf(tail, nb1, nb2, no + 1);
            let l1 = lines_at(w, b1, no);
            let l2 = lines_at(r, b2, no);
            let t1 = lines_at(w.skip(j + 1), nb1, no + 1);
            let t2 = lines_at(r.skip(i + 1), nb2, no + 1);
            assert(l1 == seq![l1[0]] + t1);
            assert(l2 == seq![l2[0]] + t2);
            assert(line_texts(l1) =~= line_texts(l2)) by {
                assert(line_texts(l1) =~= seq![(l1[0].text, l1[0].line_no)] + line_texts(t1));
                assert(line_texts(l2) =~= seq![(l2[0].text, l2[0].line_no)] + line_texts(t2));
            }
        } else {
            assert(head =~= r);
            assert(w == r);
            assert(lines_at(w, b1, no).len() == 1 && lines_at(r, b2, no).len() == 1);
            assert(line_texts(lines_at(w, b1, no)) =~= line_texts(lines_at(r, b2, no)));
        }
    } else {
        assert(line_texts(lines_at(w, b1, no)) =~= line_texts(lines_at(r, b2, no)));
    }
}

/// Line breaks written `\r\n` cut a text into the same lines, with the same
/// numbers, as `\n`: only where each line starts in the input differs.
pub proof fn crlf_lines_are_lf_lines(s: Seq<char>)
    requires
        !s.contains('\r'),
    ensures
        line_texts(spec_scan_lines(with_crlf(s))) == line_texts(spec_scan_lines(s)),
{
    lemma_lines_crlf(s, 0, 0, 1);
}

/// Two blocks that differ at most in the byte offsets of their spans, nested
/// blocks included.
pub open spec fn same_shape(a: BlockV, b: BlockV) -> bool
    decreases a,
{
    match (a, b) {
        (BlockV::Natural { text: t1, span: s1 }, BlockV::Natural { text: t2, span: s2 }) => t1
            == t2 && s1.start_line == s2.start_line && s1.end_line == s2.end_line,
        (
            BlockV::Call { name: n1, params: p1, body: b1, raw_body: r1, span: s1 },
            BlockV::Call { name: n2, params: p2, body: b2, raw_body: r2, span: s2 },
        ) => {
            &&& n1 == n2
            &&& p1 == p2
            &&& r1 == r2
            &&& s1.start_line == s2.start_line
            &&& s1.end_line == s2.end_line
            &&& b1.len() == b2.len()
            &&& forall|i: int| 0 <= i < b1.len() ==> same_shape(#[trigger] b1[i], b2[i])
        },
        _ => false,
    }
}

/// Blocks that pair up position by position with the same shape.
pub open spec fn same_shapes(a: Seq<BlockV>, b: Seq<BlockV>) -> bool {
    &&& a.len() == b.len()
    &&& forall|i: int| 0 <= i < a.len() ==> same_shape(#[trigger] a[i], b[i])
}

/// Lines with the same texts and numbers end their natural blocks alike.
proof fn lemma_natural_end_same(l1: Seq<LineV>, l2: Seq<LineV>, i: int)
    requires
        line_texts(l1) == line_texts(l2),
    ensures
        natural_end(l1, i) == natural_end(l2, i),
    decreases l1.len() - i,
{
    assert(l1.len() == line_texts(l1).len() && l2.len() == line_texts(l2).len());
    if 0 <= i < l1.len() {
        assert(line_texts(l1)[i] == line_texts(l2)[i]);
        lemma_natural_end_same(l1, l2, i + 1);
    }
}

/// Lines with the same texts and numbers scan call bodies alike.
proof fn lemma_body_scan_same(l1: Seq<LineV>, l2: Seq<LineV>, cursor: int, be: int, hi: nat)
    requires
        line_texts(l1) == line_texts(l2),
    ensures
        body_scan(l1, cursor, be, hi) == body_scan(l2, cursor, be, hi),
    decreases l1.len() - cursor,
{
    assert(l1.len() == line_texts(l1).len() && l2.len() == line_texts(l2).len());
    if 0 <= cursor < l1.len() {
        assert(line_texts(l1)[cursor] == line_texts(l2)[cursor]);
        lemma_body_scan_same(l1, l2, cursor + 1, be, hi);
        lemma_body_scan_same(l1, l2, cursor + 1, cursor + 1, hi);
    }
}

/// Lines with the same texts and numbers find the same first non-blank line.
proof fn lemma_first_nonblank_same(l1: Seq<LineV>, l2: Seq<LineV>, a: int, b: int)
    requires
        line_texts(l1) == line_texts(l2),
    ensures
        first_nonblank(l1, a, b) == first_nonblank(l2, a, b),
    decreases b - a,
{
    assert(l1.len() == line_texts(l1).len() && l2.len() == line_texts(l2).len());
    if 0 <= a < b && a < l1.len() {
        assert(line_texts(l1)[a] == line_texts(l2)[a]);
        lemma_first_nonblank_same(l1, l2, a + 1, b);
    }
}

/// Lines with the same texts and numbers have the same smallest indentation.
proof fn lemma_min_indent_same(l1: Seq<LineV>, l2: Seq<LineV>)
    requires
        line_texts(l1) == line_texts(l2),
    ensures
        min_indent(l1) == min_indent(l2),
    decreases l1.len(),
{
    assert(l1.len() == line_texts(l1).len() && l2.len() == line_texts(l2).len());
    if l1.len() > 0 {
        assert(line_texts(l1)[0] == line_texts(l2)[0]);
        assert(line_texts(l1.drop_first()) =~= line_texts(l1).drop_first());
        assert(line_texts(l2.drop_first()) =~= line_texts(l2).drop_first());
        lemma_min_indent_same(l1.drop_first(), l2.drop_first());
    }
}

/// Dedenting lines with the same texts and numbers gives lines with the same
/// texts and numbers.
proof fn lemma_dedent_same(l1: Seq<LineV>, l2: Seq<LineV>)
    requires
        line_texts(l1) == line_texts(l2),
    ensures
        line_texts(dedent(l1)) == line_texts(dedent(l2)),
{
    lemma_min_indent_same(l1, l2);
    assert(l1.len() == line_texts(l1).len() && l2.len() == line_texts(l2).len());
    assert forall|k: int| 0 <= k < l1.len() implies #[trigger] line_texts(dedent(l1))[k]
        == line_texts(dedent(l2))[k] by {
        assert(line_texts(l1)[k] == line_texts(l2)[k]);
    }
    assert(line_texts(dedent(l1)) =~= line_texts(dedent(l2)));
}

/// The join of lines depends only on their texts.
proof fn lemma_join_same(l1: Seq<LineV>, l2: Seq<LineV>)
    requires
        line_texts(l1) == line_texts(l2),
    ensures
        join_texts(l1) == join_texts(l2),
    decreases l1.len(),
{
    assert(l1.len() == line_texts(l1).len() && l2.len() == line_texts(l2).len());
    if l1.len() > 1 {
        assert(line_texts(l1.drop_last()) =~= line_texts(l1).drop_last());
        assert(line_texts(l2.drop_last()) =~= line_texts(l2).drop_last());
        lemma_join_same(l1.drop_last(), l2.drop_last());
        assert(line_texts(l1)[l1.len() - 1] == line_texts(l2)[l1.len() - 1]);
    } else if l1.len() == 1 {
        assert(line_texts(l1)[0] == line_texts(l2)[0]);
    }
}

/// The body lines of calls on lines with the same texts and numbers have the same
/// texts and numbers.
proof fn lemma_body_same(l1: Seq<LineV>, l2: Seq<LineV>, i: int)
    requires
        line_texts(l1) == line_texts(l2),
        0 <= i < l1.len(),
        spec_is_call_at(l1, i),
    ensures
        line_texts(call_body_lines(l1, i)) == line_texts(call_body_lines(l2, i)),
{
    assert(l1.len() == line_texts(l1).len() && l2.len() == line_texts(l2).len());
    assert(line_texts(l1)[i] == line_texts(l2)[i]);
    lemma_body_scan_same(l1, l2, i + 1, i + 1, spec_indent(l1[i].text));
    let be = scan_at(l1, i).1;
    assert(scan_at(l2, i).1 == be);
    lemma_call_measure(l1, i);
    assert(header_at(l1, i) == header_at(l2, i));
    let s1 = l1.subrange(i + 1, be);
    let s2 = l2.subrange(i + 1, be);
    assert(line_texts(s1) =~= line_texts(l1).subrange(i + 1, be));
    assert(line_texts(s2) =~= line_texts(l2).subrange(i + 1, be));
    match header_at(l1, i).content {
        Some(c) => {
            lemma_dedent_same(s1, s2);
            let b1 = call_body_lines(l1, i);
            let b2 = call_body_lines(l2, i);
            assert(line_texts(b1) =~= seq![(c, l1[i].line_no)] + line_texts(dedent(s1)));
            assert(line_texts(b2) =~= seq![(c, l2[i].line_no)] + line_texts(dedent(s2)));
        },
        None => {
            lemma_first_nonblank_same(l1, l2, i + 1, be);
            crate::parse::split::lemma_first_nonblank(l1, i + 1, be);
            let f = first_nonblank(l1, i + 1, be);
            let t1 = l1.subrange(f, be);
            let t2 = l2.subrange(f, be);
            assert(line_texts(t1) =~= line_texts(l1).subrange(f, be));
            assert(line_texts(t2) =~= line_texts(l2).subrange(f, be));
            lemma_dedent_same(t1, t2);
        },
    }
}

/// Whether the line at `i` is a call header.
pub open spec fn spec_is_call_at(ls: Seq<LineV>, i: int) -> bool {
    crate::parse::line::spec_is_call(ls[i].text)
}

/// Lines with the same texts and numbers give blocks of the same shape.
proof fn lemma_seq_same(l1: Seq<LineV>, l2: Seq<LineV>, i: int)
    requires
        line_texts(l1) == line_texts(l2),
    ensures
        same_shapes(spec_seq_from(l1, i), spec_seq_from(l2, i)),
    decreases l1.len() - i, head_len(l1, i),
{
    assert(l1.len() == line_texts(l1).len() && l2.len() == line_texts(l2).len());
    if 0 <= i < l1.len() {
        assert(line_texts(l1)[i] == line_texts(l2)[i]);
        let a = spec_seq_from(l1, i);
        let b = spec_seq_from(l2, i);
        if spec_blank(l1[i].text) {
            lemma_seq_same(l1, l2, i + 1);
        } else if spec_is_call_at(l1, i) {
            lemma_call_measure(l1, i);
            lemma_call_measure(l2, i);
            lemma_body_same(l1, l2, i);
            lemma_body_scan_same(l1, l2, i + 1, i + 1, spec_indent(l1[i].text));
            let (cursor, be) = scan_at(l1, i);
            let body1 = call_body_lines(l1, i);
            let body2 = call_body_lines(l2, i);
            lemma_seq_same(body1, body2, 0);
            lemma_seq_same(l1, l2, cursor);
            lemma_join_same(body1, body2);
            if be > i + 1 {
                assert(line_texts(l1)[be - 1] == line_texts(l2)[be - 1]);
            }
            assert(same_shape(a[0], b[0]));
            let ta = spec_seq_from(l1, cursor);
            let tb = spec_seq_from(l2, cursor);
            assert forall|j: int| 0 <= j < a.len() implies same_shape(#[trigger] a[j], b[j]) by {
                if j > 0 {
                    assert(a[j] == ta[j - 1] && b[j] == tb[j - 1]);
                }
            }
        } else {
            lemma_natural_end(l1, i);
            lemma_natural_end_same(l1, l2, i);
            let e = natural_end(l1, i);
            lemma_seq_same(l1, l2, e);
            assert(line_texts(l1.subrange(i, e)) =~= line_texts(l1).subrange(i, e));
            assert(line_texts(l2.subrange(i, e)) =~= line_texts(l2).subrange(i, e));
            lemma_join_same(l1.subrange(i, e), l2.subrange(i, e));
            assert(line_texts(l1)[e - 1] == line_texts(l2)[e - 1]);
            assert(same_shape(a[0], b[0]));
            let ta = spec_seq_from(l1, e);
            let tb = spec_seq_from(l2, e);
            assert forall|j: int| 0 <= j < a.len() implies same_shape(#[trigger] a[j], b[j]) by {
                if j > 0 {
                    assert(a[j] == ta[j - 1] && b[j] == tb[j - 1]);
                }
            }
        }
    }
}

/// A text written with `\r\n` parses into the same blocks as with `\n`: the same
/// names, parameters, texts, bodies and line numbers; only byte offsets differ.
pub proof fn crlf_blocks_are_lf_blocks(s: Seq<char>)
    requires
        !s.contains('\r'),
    ensures
        same_shapes(spec_parse_blocks(with_crlf(s)), spec_parse_blocks(s)),
{
    crlf_lines_are_lf_lines(s);
    lemma_seq_same(spec_scan_lines(with_crlf(s)), spec_scan_lines(s), 0);
}

/// A text with each `\r\n` written `\n`.
pub open spec fn lf_only(w: Seq<char>) -> Seq<char>
    decreases w.len(),
{
    if w.len() == 0 {
        Seq::empty()
    } else if w.len() > 1 && w[0] == '\r' && w[1] == '\n' {
        lf_only(w.drop_first())
    } else {
        seq![w[0]] + lf_only(w.drop_first())
    }
}

/// Every `\r` of a text stands right before a `\n`: its line breaks are `\n` or
/// `\r\n`, in any mix.
pub open spec fn cr_only_in_breaks(w: Seq<char>) -> bool {
    forall|j: int| 0 <= j < w.len() && #[trigger] w[j] == '\r' ==> j + 1 < w.len() && w[j + 1] == '\n'
}

/// A text without `\r` before what follows keeps its characters in front.
proof fn lemma_lf_only_prefix(a: Seq<char>, b: Seq<char>)
    requires
        !a.contains('\r'),
    ensures
        lf_only(a + b) == a + lf_only(b),
    decreases a.len(),
{
    if a.len() == 0 {
        assert(a + b =~= b);
    } else {
        assert(a[0] != '\r');
        assert((a + b).drop_first() =~= a.drop_first() + b);
        assert(!a.drop_first().contains('\r')) by {
            if a.drop_first().contains('\r') {
                let k = choose|k: int| 0 <= k < a.drop_first().len() && a.drop_first()[k] == '\r';
                assert(a[k + 1] == '\r');
            }
        }
        lemma_lf_only_prefix(a.drop_first(), b);
        assert(seq![a[0]] + (a.drop_first() + lf_only(b)) =~= a + lf_only(b));
    }
}

/// The lines of a text whose `\r` all stand in line breaks are the lines of the
/// same text with `\n` breaks only.
proof fn lemma_lines_mixed(w: Seq<char>, b1: int, b2: int, no: int)
    requires
        cr_only_in_breaks(w),
    ensures
        line_texts(lines_at(w, b1, no)) == line_texts(lines_at(lf_only(w), b2, no)),
    decreases w.len(),
{
    let r = lf_only(w);
    if w.len() > 0 {
        lemma_first_nl(w);
        let i = first_nl(w) as int;
        let head = w.take(i);
        let h = strip_cr(head);
        // Within the first line, a `\r` can only stand last.
        assert(!h.contains('\r')) by {
            if h.contains('\r') {
                let k = choose|k: int| 0 <= k < h.len() && h[k] == '\r';
                assert(w[k] == '\r');
                assert(k + 1 < w.len() && w[k + 1] == '\n');
                if k + 1 < i {
                    assert(head[k + 1] == '\n');
                } else {
                    assert(k + 1 == i);
                    assert(head.len() > 0 && head.last() == '\r');
                    assert(h.len() == i - 1);
                }
            }
        }
        assert(!h.contains('\n')) by {
            if h.contains('\n') {
                let k = choose|k: int| 0 <= k < h.len() && h[k] == '\n';
                assert(head[k] == '\n');
            }
        }
        assert(strip_cr(h) == h) by {
            if h.len() > 0 {
                assert(h[h.len() - 1] != '\r');
            }
        }
        if i < w.len() {
            let tail = w.skip(i + 1);
            let rest = w.skip(h.len() as int);
            assert(w =~= h + rest);
            assert(lf_only(rest) == seq!['\n'] + lf_only(tail)) by {
                if h.len() < i {
                    assert(rest[0] == '\r' && rest[1] == '\n');
                    assert(rest.drop_first() =~= w.skip(i));
                }
                assert(w.skip(i)[0] == '\n');
                assert(w.skip(i).drop_first() =~= tail);
                assert(lf_only(w.skip(i)) == seq!['\n'] + lf_only(tail));
            }
            lemma_lf_only_prefix(h, rest);
            assert(r =~= h + (seq!['\n'] + lf_only(tail)));
            lemma_first_nl_after(h, seq!['\n'] + lf_only(tail));
            assert(first_nl(seq!['\n'] + lf_only(tail)) == 0);
            let j = first_nl(r) as int;
            assert(j == h.len());
            assert(r.take(j) =~= h);
            assert(r.skip(j + 1) =~= lf_only(tail));
            assert(cr_only_in_breaks(tail)) by {
                assert forall|k: int| 0 <= k < tail.len() && #[trigger] tail[k] == '\r' implies k + 1 < tail.len()
                    && tail[k + 1] == '\n' by {
                    assert(w[i + 1 + k] == '\r');
                }
            }
            let nb1 = b1 + crate::text::byte_len(w.take(i)) + 1;
            let nb2 = b2 + crate::text::byte_len(r.take(j)) + 1;
            lemma_lines_mixed(tail, nb1, nb2, no + 1);
            let l1 = lines_at(w, b1, no);
            let l2 = lines_at(r, b2, no);
            let t1 = lines_at(w.skip(i + 1), nb1, no + 1);
            let t2 = lines_at(r.skip(j + 1), nb2, no + 1);
            assert(j < r.len());
            assert(l1 == seq![l1[0]] + t1);
            assert(l2 == seq![l2[0]] + t2);
            assert(line_texts(l1) =~= line_texts(l2)) by {
                assert(line_texts(l1) =~= seq![(l1[0].text, l1[0].line_no)] + line_texts(t1));
                assert(line_texts(l2) =~= seq![(l2[0].text, l2[0].line_no)] + line_texts(t2));
            }
        } else {
            assert(head =~= w);
            assert(!w.contains('\r')) by {
                if w.contains('\r') {
                    let k = choose|k: int| 0 <= k < w.len() && w[k] == '\r';
                    assert(w[k + 1] == '\n');
                }
            }
            lemma_lf_only_prefix(w, Seq::<char>::empty());
            assert(w + Seq::<char>::empty() =~= w);
            assert(r == w);
        }
    } else {
        assert(line_texts(lines_at(w, b1, no)) =~= line_texts(lines_at(r, b2, no)));
    }
}

/// A text whose line breaks mix `\n` and `\r\n` is cut into the same lines, with
/// the same numbers, as the text with `\n` breaks only.
pub proof fn mixed_lines_are_lf_lines(w: Seq<char>)
    requires
        cr_only_in_breaks(w),
    ensures
        line_texts(spec_scan_lines(w)) == line_texts(spec_scan_lines(lf_only(w))),
{
    lemma_lines_mixed(w, 0, 0, 1);
}

/// A text whose line breaks mix `\n` and `\r\n` parses into the same blocks as
/// the text with `\n` breaks only: only byte offsets differ.
pub proof fn mixed_blocks_are_lf_blocks(w: Seq<char>)
    requires
        cr_only_in_breaks(w),
    ensures
        same_shapes(spec_parse_blocks(w), spec_parse_blocks(lf_only(w))),
{
    mixed_lines_are_lf_lines(w);
    lemma_seq_same(spec_scan_lines(w), spec_scan_lines(lf_only(w)), 0);
}

} // verus!
