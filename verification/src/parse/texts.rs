//! What the blocks of a parse hold: every natural block, at every depth, is a run
//! of lines that are neither blank nor call headers, and white space alone gives
//! no block.

use vstd::prelude::*;
use crate::ast::block::BlockV;
use crate::parse::header::lemma_header_content;
use crate::parse::line::{
    LineV, scanned_lines_are_the_lines, spec_blank, spec_content, spec_is_call, spec_scan_lines,
    strip_cr,
};
use crate::parse::split::{
    call_body_lines, dedent, dedent_line, header_at, head_len, join_texts, lemma_call_measure,
    lemma_natural_end, natural_end, scan_at, spec_parse_blocks, spec_seq_from,
};

verus! {

/// `t[a..b]` is one of the lines of `t`: a longest run without `\n`.
pub open spec fn is_segment(t: Seq<char>, a: int, b: int) -> bool {
    &&& 0 <= a <= b <= t.len()
    &&& a == 0 || t[a - 1] == '\n'
    &&& b == t.len() || t[b] == '\n'
    &&& forall|j: int| a <= j < b ==> t[j] != '\n'
}

/// The text of a natural block: not empty, and each of its lines neither blank
/// nor a call header.
pub open spec fn natural_text_ok(t: Seq<char>) -> bool {
    &&& t.len() > 0
    &&& forall|a: int, b: int|
        #![trigger t.subrange(a, b)]
        is_segment(t, a, b) ==> !spec_blank(t.subrange(a, b)) && !spec_is_call(t.subrange(a, b))
}

/// Every natural block in `b`, at every depth, holds such a text.
pub open spec fn block_ok(b: BlockV) -> bool
    decreases b,
{
    match b {
        BlockV::Natural { text, .. } => natural_text_ok(text),
        BlockV::Call { body, .. } => forall|k: int| 0 <= k < body.len() ==> block_ok(#[trigger] body[k]),
    }
}

/// Every block of `bs` is [`block_ok`].
pub open spec fn blocks_ok(bs: Seq<BlockV>) -> bool {
    forall|k: int| 0 <= k < bs.len() ==> block_ok(#[trigger] bs[k])
}

/// No line holds a line break.
pub open spec fn lines_flat(ls: Seq<LineV>) -> bool {
    forall|k: int| 0 <= k < ls.len() ==> !(#[trigger] ls[k]).text.contains('\n')
}

/// A suffix of a text without line breaks has none.
proof fn lemma_skip_flat(t: Seq<char>, n: int)
    requires
        !t.contains('\n'),
        0 <= n <= t.len(),
    ensures
        !t.skip(n).contains('\n'),
{
    if t.skip(n).contains('\n') {
        let k = choose|k: int| 0 <= k < t.skip(n).len() && t.skip(n)[k] == '\n';
        assert(t[n + k] == '\n');
    }
}

/// Dedenting keeps lines free of line breaks.
proof fn lemma_dedent_flat(ls: Seq<LineV>)
    requires
        lines_flat(ls),
    ensures
        lines_flat(dedent(ls)),
{
    let d = dedent(ls);
    assert forall|k: int| 0 <= k < d.len() implies !(#[trigger] d[k]).text.contains('\n') by {
        let l = ls[k];
        assert(!l.text.contains('\n'));
        if spec_blank(l.text) {
            assert(d[k].text =~= Seq::<char>::empty());
        } else {
            let m = match crate::parse::split::min_indent(ls) {
                Some(m) => m,
                None => 0,
            };
            assert(d[k] == dedent_line(l, m));
            let di = crate::parse::line::spec_indent(l.text);
            crate::parse::line::lemma_indent_bounds(l.text);
            let sk = if m <= di {
                m as int
            } else {
                di as int
            };
            lemma_skip_flat(l.text, sk);
            assert(d[k].text == l.text.skip(sk));
        }
    }
}

/// The body lines of a call are free of line breaks when the lines are.
proof fn lemma_body_flat(ls: Seq<LineV>, i: int)
    requires
        lines_flat(ls),
        0 <= i < ls.len(),
        spec_is_call(ls[i].text),
    ensures
        lines_flat(call_body_lines(ls, i)),
{
    lemma_call_measure(ls, i);
    let be = scan_at(ls, i).1;
    let line = spec_content(ls[i].text);
    lemma_header_content(line);
    crate::parse::line::lemma_indent_bounds(ls[i].text);
    assert(!ls[i].text.contains('\n'));
    lemma_skip_flat(ls[i].text, crate::parse::line::spec_indent(ls[i].text) as int);
    match header_at(ls, i).content {
        Some(c) => {
            lemma_skip_flat(line, line.len() - c.len());
            let rest = ls.subrange(i + 1, be);
            assert(lines_flat(rest)) by {
                assert forall|k: int| 0 <= k < rest.len() implies !(#[trigger] rest[k]).text.contains('\n') by {
                    assert(rest[k] == ls[i + 1 + k]);
                }
            }
            lemma_dedent_flat(rest);
            let body = call_body_lines(ls, i);
            assert forall|k: int| 0 <= k < body.len() implies !(#[trigger] body[k]).text.contains('\n') by {
                if k > 0 {
                    assert(body[k] == dedent(rest)[k - 1]);
                }
            }
        },
        None => {
            let a = crate::parse::split::first_nonblank(ls, i + 1, be);
            crate::parse::split::lemma_first_nonblank(ls, i + 1, be);
            let rest = ls.subrange(a, be);
            assert(lines_flat(rest)) by {
                assert forall|k: int| 0 <= k < rest.len() implies !(#[trigger] rest[k]).text.contains('\n') by {
                    assert(rest[k] == ls[a + k]);
                }
            }
            lemma_dedent_flat(rest);
        },
    }
}

/// Each line of lines joined with `\n` is one of them, when none holds a `\n`.
proof fn lemma_join_segments(ls: Seq<LineV>)
    requires
        ls.len() > 0,
        lines_flat(ls),
    ensures
        join_texts(ls).len() >= ls.last().text.len(),
        forall|a: int, b: int|
            #![trigger join_texts(ls).subrange(a, b)]
            is_segment(join_texts(ls), a, b) ==> exists|k: int|
                0 <= k < ls.len() && join_texts(ls).subrange(a, b) == #[trigger] ls[k].text,
    decreases ls.len(),
{
    let t = join_texts(ls);
    let last = ls.last();
    assert(!last.text.contains('\n'));
    if ls.len() == 1 {
        assert forall|a: int, b: int| #![trigger t.subrange(a, b)] is_segment(t, a, b) implies exists|k: int|
            0 <= k < ls.len() && t.subrange(a, b) == #[trigger] ls[k].text by {
            if a > 0 {
                assert(t[a - 1] == '\n');
            }
            if b < t.len() {
                assert(t[b] == '\n');
            }
            assert(t.subrange(a, b) =~= ls[0].text);
        }
    } else {
        let init = ls.drop_last();
        assert(lines_flat(init)) by {
            assert forall|k: int| 0 <= k < init.len() implies !(#[trigger] init[k]).text.contains('\n') by {
                assert(init[k] == ls[k]);
            }
        }
        lemma_join_segments(init);
        let j = join_texts(init);
        let n = j.len() as int;
        assert(t == j + seq!['\n'] + last.text);
        assert(t[n] == '\n');
        assert forall|a: int, b: int| #![trigger t.subrange(a, b)] is_segment(t, a, b) implies exists|k: int|
            0 <= k < ls.len() && t.subrange(a, b) == #[trigger] ls[k].text by {
            if b <= n {
                assert(is_segment(j, a, b)) by {
                    if a > 0 {
                        assert(j[a - 1] == t[a - 1]);
                    }
                    if b < n {
                        assert(j[b] == t[b]);
                    }
                    assert forall|x: int| a <= x < b implies j[x] != '\n' by {
                        assert(j[x] == t[x]);
                    }
                }
                assert(t.subrange(a, b) =~= j.subrange(a, b));
                let k = choose|k: int| 0 <= k < init.len() && j.subrange(a, b) == #[trigger] init[k].text;
                assert(init[k] == ls[k]);
            } else {
                if a <= n {
                    assert(t[n] != '\n');
                }
                assert(t[a - 1] == '\n');
                if a - 1 > n {
                    assert(last.text[a - 1 - n - 1] == t[a - 1]);
                }
                assert(a == n + 1);
                if b < t.len() {
                    assert(last.text[b - n - 1] == t[b]);
                }
                assert(b == t.len());
                assert(t.subrange(a, b) =~= last.text);
                assert(ls[ls.len() - 1] == last);
            }
        }
    }
}

/// The blocks of lines free of line breaks are [`blocks_ok`].
proof fn lemma_seq_from_ok(ls: Seq<LineV>, i: int)
    requires
        lines_flat(ls),
    ensures
        blocks_ok(spec_seq_from(ls, i)),
    decreases ls.len() - i, head_len(ls, i),
{
    let bs = spec_seq_from(ls, i);
    if 0 <= i < ls.len() {
        if spec_blank(ls[i].text) {
            lemma_seq_from_ok(ls, i + 1);
        } else if spec_is_call(ls[i].text) {
            lemma_call_measure(ls, i);
            lemma_body_flat(ls, i);
            let body = call_body_lines(ls, i);
            let cursor = scan_at(ls, i).0;
            lemma_seq_from_ok(body, 0);
            lemma_seq_from_ok(ls, cursor);
            let rest = spec_seq_from(ls, cursor);
            assert forall|k: int| 0 <= k < bs.len() implies block_ok(#[trigger] bs[k]) by {
                if k > 0 {
                    assert(bs[k] == rest[k - 1]);
                } else {
                    let inner = spec_seq_from(body, 0);
                    assert(bs[0]->Call_body == inner);
                }
            }
        } else {
            lemma_natural_end(ls, i);
            let e = natural_end(ls, i);
            lemma_seq_from_ok(ls, e);
            let run = ls.subrange(i, e);
            assert(lines_flat(run)) by {
                assert forall|k: int| 0 <= k < run.len() implies !(#[trigger] run[k]).text.contains('\n') by {
                    assert(run[k] == ls[i + k]);
                }
            }
            lemma_join_segments(run);
            let t = join_texts(run);
            assert(run.last() == ls[e - 1]);
            assert(!spec_blank(ls[e - 1].text));
            assert(natural_text_ok(t)) by {
                assert forall|a: int, b: int| #![trigger t.subrange(a, b)] is_segment(t, a, b) implies !spec_blank(
                    t.subrange(a, b),
                ) && !spec_is_call(t.subrange(a, b)) by {
                    let k = choose|k: int| 0 <= k < run.len() && t.subrange(a, b) == #[trigger] run[k].text;
                    assert(run[k] == ls[i + k]);
                }
            }
            let rest = spec_seq_from(ls, e);
            assert forall|k: int| 0 <= k < bs.len() implies block_ok(#[trigger] bs[k]) by {
                if k > 0 {
                    assert(bs[k] == rest[k - 1]);
                }
            }
        }
    }
}

/// Blank lines give no block.
proof fn lemma_seq_from_blank(ls: Seq<LineV>, i: int)
    requires
        forall|k: int| 0 <= k < ls.len() ==> spec_blank(#[trigger] ls[k].text),
    ensures
        spec_seq_from(ls, i).len() == 0,
    decreases ls.len() - i,
{
    if 0 <= i < ls.len() {
        assert(spec_blank(ls[i].text));
        lemma_seq_from_blank(ls, i + 1);
    }
}

/// Every natural block a text parses into, at every depth, is a run of lines that
/// are neither blank nor call headers, and not empty.
pub proof fn natural_blocks_hold_their_lines(s: Seq<char>)
    ensures
        blocks_ok(spec_parse_blocks(s)),
{
    scanned_lines_are_the_lines(s);
    let ls = spec_scan_lines(s);
    assert(lines_flat(ls));
    lemma_seq_from_ok(ls, 0);
}

/// A text of white space alone parses into no block.
pub proof fn white_space_gives_no_block(s: Seq<char>)
    requires
        spec_blank(s),
    ensures
        spec_parse_blocks(s).len() == 0,
{
    scanned_lines_are_the_lines(s);
    let ls = spec_scan_lines(s);
    assert forall|k: int| 0 <= k < ls.len() implies spec_blank(#[trigger] ls[k].text) by {
        let l = ls[k];
        let t = l.text;
        assert(crate::parse::line::line_of(s, l, 0));
        let (a, b) = choose|a: int, b: int|
            #![trigger s.subrange(a, b)]
            0 <= a <= b <= s.len() && t == strip_cr(s.subrange(a, b)) && (a == 0 || s[a - 1] == '\n')
                && (b == s.len() || s[b] == '\n') && (forall|j: int| a <= j < b ==> s[j] != '\n')
                && l.start == 0 + crate::text::byte_len(s.take(a)) && l.end == l.start
                + crate::text::byte_len(t);
        assert forall|j: int| 0 <= j < t.len() implies crate::text::spec_is_whitespace(#[trigger] t[j]) by {
            assert(t[j] == s.subrange(a, b)[j]);
            assert(s.subrange(a, b)[j] == s[a + j]);
        }
    }
    lemma_seq_from_blank(ls, 0);
}

} // verus!
