//! Inline scanning: cut the text into finished pieces and delimiter runs not yet
//! paired.
//!
//! Everything that binds tighter is consumed here first: escapes, hard breaks,
//! code spans, math, entities, shortcodes and links. Plain characters gather into text,
//! and runs of `*` `~` `^` `=` are left for [`super::delim`] to pair. So code spans
//! and math can never trigger emphasis inside them. No rendering decision is taken
//! here: a code span is marked `Code`, math `Math`, a shortcode keeps its name,
//! a link its target and its parsed text.

use vstd::prelude::*;
use crate::ast::tree::NodeKind;
use crate::inline::{Piece, PieceV, lemma_pieces_view_push, piece_view, pieces_view};
use crate::inline::options::Options;
use crate::inline::smart::{affects, spec_affects, smart_from, Converter, QuoteState};
use crate::inline::{emoji, entities};
use crate::inline::delim::{resolve, spec_resolve};
use crate::inline::link::{find_link_close, lemma_link_close, lemma_link_text_shorter, link_parts, spec_link_at};
use crate::text::{
    chars_to_string, copy_range, extend_chars, is_ascii_punctuation, is_whitespace,
    spec_is_ascii_punctuation, spec_is_whitespace, str_chars,
};

verus! {

// ── specification ─────────────────────────────────────────────────────────

/// Whether `c` opens a delimiter run under the options.
pub open spec fn spec_is_delimiter(c: char, o: Options) -> bool {
    (c == '*' && o.emphasis) || ((c == '~' || c == '^' || c == '=') && o.styles)
}

/// One past the run of `c` that starts at `t[i]`.
pub open spec fn run_end(t: Seq<char>, i: int, c: char) -> int
    decreases t.len() - i,
{
    if 0 <= i < t.len() && t[i] == c {
        run_end(t, i + 1, c)
    } else {
        i
    }
}

/// A run of `c` from `i`: where it ends, and that it holds only `c`.
pub proof fn lemma_run_end(t: Seq<char>, i: int, c: char)
    requires
        0 <= i <= t.len(),
    ensures
        i <= run_end(t, i, c) <= t.len(),
        i < t.len() && t[i] == c ==> i < run_end(t, i, c),
        forall|k: int| i <= k < run_end(t, i, c) ==> t[k] == c,
        run_end(t, i, c) < t.len() ==> t[run_end(t, i, c)] != c,
    decreases t.len() - i,
{
    if i < t.len() && t[i] == c {
        lemma_run_end(t, i + 1, c);
    }
}

/// The next run of `c` from `t[i]` whose length is exactly `count`.
pub open spec fn closer_from(t: Seq<char>, i: int, c: char, count: int) -> Option<int>
    decreases t.len() - i,
{
    if i < 0 || i >= t.len() {
        None
    } else if t[i] == c {
        let e = run_end(t, i, c);
        proof {
            lemma_run_end(t, i, c);
        }
        if e - i == count {
            Some(i)
        } else {
            closer_from(t, e, c, count)
        }
    } else {
        closer_from(t, i + 1, c, count)
    }
}

/// A closer found from `i` is a run of exactly `count` characters `c`.
pub proof fn lemma_closer_from(t: Seq<char>, i: int, c: char, count: int)
    requires
        0 <= i <= t.len(),
    ensures
        closer_from(t, i, c, count) matches Some(k) ==> i <= k && k + count == run_end(t, k, c)
            && k < t.len() && k + count <= t.len(),
    decreases t.len() - i,
{
    if i < t.len() {
        lemma_run_end(t, i, c);
        if t[i] == c {
            let e = run_end(t, i, c);
            if e - i != count {
                lemma_closer_from(t, e, c, count);
            }
        } else {
            lemma_closer_from(t, i + 1, c, count);
        }
    }
}

/// The content of a code span or math: line breaks become spaces; when it both
/// starts and ends with a space and is not all spaces, one space is removed from
/// each end.
pub open spec fn span_text(s: Seq<char>) -> Seq<char> {
    let m = s.map_values(
        |c: char|
            if c == '\n' {
                ' '
            } else {
                c
            },
    );
    if m.len() >= 2 && m[0] == ' ' && m.last() == ' ' && exists|j: int|
        0 <= j < m.len() && m[j] != ' ' {
        m.subrange(1, m.len() - 1)
    } else {
        m
    }
}

/// CommonMark's left- and right-flanking rules, with ASCII punctuation standing in
/// for Unicode punctuation.
pub open spec fn spec_flanking(prev: Option<char>, next: Option<char>) -> (bool, bool) {
    let prev_space = match prev {
        Some(c) => spec_is_whitespace(c),
        None => true,
    };
    let next_space = match next {
        Some(c) => spec_is_whitespace(c),
        None => true,
    };
    let prev_punct = match prev {
        Some(c) => spec_is_ascii_punctuation(c),
        None => false,
    };
    let next_punct = match next {
        Some(c) => spec_is_ascii_punctuation(c),
        None => false,
    };
    (
        !next_space && (!next_punct || prev_space || prev_punct),
        !prev_space && (!prev_punct || next_space || next_punct),
    )
}

/// The character at `i`, if any.
pub open spec fn char_at(t: Seq<char>, i: int) -> Option<char> {
    if 0 <= i < t.len() {
        Some(t[i])
    } else {
        None
    }
}

/// What flushing the pending literal produces: one text piece (after smart
/// punctuation when enabled), and the quote state afterwards.
pub struct FlushV {
    pub pieces: Seq<PieceV>,
    pub state: QuoteState,
}

pub open spec fn flush_v(lit: Seq<char>, st: QuoteState, smart: bool) -> FlushV {
    if lit.len() == 0 {
        FlushV { pieces: Seq::empty(), state: st }
    } else if smart {
        let r = smart_from(lit, 0, st);
        FlushV { pieces: seq![PieceV::Text(r.out)], state: r.state }
    } else {
        FlushV { pieces: seq![PieceV::Text(lit)], state: st }
    }
}

/// `c` repeated `n` times.
pub open spec fn repeat(c: char, n: nat) -> Seq<char> {
    Seq::new(n, |k: int| c)
}

/// The pieces of `t[i..]`, given the pending literal and quote state.
pub open spec fn scan_from(t: Seq<char>, i: int, lit: Seq<char>, st: QuoteState, o: Options) -> Seq<
    PieceV,
>
    decreases t.len(), t.len() - i,
{
    let smart = o.smart_punctuation;
    if i < 0 || i >= t.len() {
        flush_v(lit, st, smart).pieces
    } else {
        let c = t[i];
        if c == '\\' && o.escapes {
            if i + 1 < t.len() && t[i + 1] == '\n' {
                let f = flush_v(lit, st, smart);
                f.pieces + seq![PieceV::LineBreak] + scan_from(t, i + 2, Seq::empty(), f.state, o)
            } else if i + 1 < t.len() && spec_is_ascii_punctuation(t[i + 1]) {
                if spec_affects(t[i + 1]) {
                    let f = flush_v(lit, st, smart);
                    f.pieces + seq![PieceV::Text(seq![t[i + 1]])] + scan_from(
                        t,
                        i + 2,
                        Seq::empty(),
                        f.state,
                        o,
                    )
                } else {
                    scan_from(t, i + 2, lit.push(t[i + 1]), st, o)
                }
            } else {
                scan_from(t, i + 1, lit.push('\\'), st, o)
            }
        } else if (c == '`' && o.code_spans) || (c == '$' && o.math) {
            let after = run_end(t, i, c);
            let count = after - i;
            proof {
                lemma_run_end(t, i, c);
                lemma_closer_from(t, after, c, count);
            }
            match closer_from(t, after, c, count) {
                Some(close) => {
                    let f = flush_v(lit, st, smart);
                    let kind = if c == '`' {
                        NodeKind::Code
                    } else {
                        NodeKind::Math
                    };
                    f.pieces + seq![
                        PieceV::Node {
                            kind,
                            children: seq![PieceV::Text(span_text(t.subrange(after, close)))],
                        },
                    ] + scan_from(t, close + count, Seq::empty(), f.state, o)
                },
                None => scan_from(t, after, lit + repeat(c, count as nat), st, o),
            }
        } else if c == '&' && o.entities {
            proof {
                entities_used_bound(t.skip(i));
            }
            match entities::spec_parse(t.skip(i)) {
                Some((v, used)) => scan_from(t, i + used, lit + v, st, o),
                None => scan_from(t, i + 1, lit.push('&'), st, o),
            }
        } else if c == ':' && o.calls {
            proof {
                emoji_used_bound(t.skip(i));
            }
            match emoji::spec_parse_name(t.skip(i)) {
                Some((name, used)) => {
                    let f = flush_v(lit, st, smart);
                    f.pieces + seq![PieceV::Emoji(name)] + scan_from(
                        t,
                        i + used,
                        Seq::empty(),
                        f.state,
                        o,
                    )
                },
                None => scan_from(t, i + 1, lit.push(':'), st, o),
            }
        } else if c == '[' && o.links {
            proof {
                lemma_link_text_shorter(t, i);
            }
            match spec_link_at(t, i) {
                Some((text, target, e)) => {
                    let f = flush_v(lit, st, smart);
                    f.pieces + seq![
                        PieceV::Link {
                            target,
                            children: spec_resolve(
                                scan_from(text, 0, Seq::empty(), initial_state(), o),
                            ),
                        },
                    ] + scan_from(t, e, Seq::empty(), f.state, o)
                },
                None => scan_from(t, i + 1, lit.push('['), st, o),
            }
        } else if spec_is_delimiter(c, o) {
            let after = run_end(t, i, c);
            let count = after - i;
            proof {
                lemma_run_end(t, i, c);
            }
            if c == '=' && count < 2 {
                scan_from(t, after, lit + repeat(c, count as nat), st, o)
            } else {
                let f = flush_v(lit, st, smart);
                let fl = spec_flanking(char_at(t, i - 1), char_at(t, after));
                f.pieces + seq![
                    PieceV::Delim { ch: c, count: count as nat, can_open: fl.0, can_close: fl.1 },
                ] + scan_from(t, after, Seq::empty(), f.state, o)
            }
        } else {
            scan_from(t, i + 1, lit.push(c), st, o)
        }
    }
}

/// The quote state a scan starts with.
pub open spec fn initial_state() -> QuoteState {
    QuoteState { double_opens: true, single_opens: true }
}

/// The pieces of a text.
pub open spec fn spec_scan(t: Seq<char>, o: Options) -> Seq<PieceV> {
    scan_from(t, 0, Seq::empty(), initial_state(), o)
}

/// An entity read at the start of a text uses at least one character and no more
/// than the text has.
pub proof fn entities_used_bound(t: Seq<char>)
    ensures
        entities::spec_parse(t) matches Some((v, used)) ==> 1 <= used <= t.len(),
{
    if t.len() > 0 && t[0] == '&' {
        crate::text::lemma_find_from(t, ';', 0);
    }
}

/// A shortcode read at the start of a text uses at least one character and no more
/// than the text has.
pub proof fn emoji_used_bound(t: Seq<char>)
    ensures
        emoji::spec_parse_name(t) matches Some((name, used)) ==> 1 <= used <= t.len(),
{
    if t.len() > 0 && t[0] == ':' {
        let w = emoji::window_len(t);
        crate::text::lemma_find_from(t.subrange(0, 1 + w), ':', 1);
    }
}

// ── execution ──────────────────────────────────────────────────────────────

/// Turns the pending literal into a text piece.
fn flush(out: &mut Vec<Piece>, lit: &mut Vec<char>, conv: &mut Converter)
    ensures
        pieces_view(final(out)@) == pieces_view(old(out)@) + flush_v(
            old(lit)@,
            old(conv).state(),
            old(conv).is_enabled(),
        ).pieces,
        final(lit)@ == Seq::<char>::empty(),
        final(conv).is_enabled() == old(conv).is_enabled(),
        final(conv).state() == flush_v(old(lit)@, old(conv).state(), old(conv).is_enabled()).state,
{
    if lit.len() > 0 {
        let text = conv.apply_chars(lit.as_slice());
        let p = Piece::Text(chars_to_string(text.as_slice()));
        let ghost prev = out@;
        out.push(p);
        proof {
            lemma_pieces_view_push(prev, p);
        }
        *lit = Vec::new();
    } else {
        assert(pieces_view(out@) + Seq::<PieceV>::empty() =~= pieces_view(out@));
    }
}

/// Pushes a piece.
fn push_piece(out: &mut Vec<Piece>, p: Piece)
    ensures
        pieces_view(final(out)@) == pieces_view(old(out)@) + seq![piece_view(p)],
{
    let ghost prev = out@;
    out.push(p);
    proof {
        lemma_pieces_view_push(prev, p);
    }
}

/// One past the run of `t[i]`.
fn run_len(t: &[char], i: usize) -> (r: usize)
    requires
        i < t.len(),
    ensures
        r == run_end(t@, i as int, t@[i as int]),
        i < r <= t.len(),
{
    proof {
        lemma_run_end(t@, i as int, t@[i as int]);
    }
    let c = t[i];
    let mut e = i;
    while e < t.len() && t[e] == c
        invariant
            i <= e <= t.len(),
            run_end(t@, e as int, c) == run_end(t@, i as int, c),
        decreases t.len() - e,
    {
        e += 1;
    }
    e
}

/// The next run of `c` from `from` whose length is exactly `count`.
fn find_closer(t: &[char], from: usize, c: char, count: usize) -> (r: Option<usize>)
    requires
        from <= t.len(),
    ensures
        match r {
            Some(k) => closer_from(t@, from as int, c, count as int) == Some(k as int),
            None => closer_from(t@, from as int, c, count as int) is None,
        },
{
    let mut i = from;
    while i < t.len()
        invariant
            from <= i <= t.len(),
            closer_from(t@, i as int, c, count as int) == closer_from(
                t@,
                from as int,
                c,
                count as int,
            ),
        decreases t.len() - i,
    {
        if t[i] == c {
            let e = run_len(t, i);
            if e - i == count {
                return Some(i);
            }
            i = e;
        } else {
            i += 1;
        }
    }
    None
}

/// The content of a code span or math.
fn span_text_of(t: &[char], a: usize, b: usize) -> (r: Vec<char>)
    requires
        a <= b <= t.len(),
    ensures
        r@ == span_text(t@.subrange(a as int, b as int)),
{
    let ghost s = t@.subrange(a as int, b as int);
    let ghost m = s.map_values(
        |c: char|
            if c == '\n' {
                ' '
            } else {
                c
            },
    );
    let mut out: Vec<char> = Vec::new();
    let mut any = false;
    let mut i = a;
    while i < b
        invariant
            a <= i <= b <= t.len(),
            s == t@.subrange(a as int, b as int),
            m == s.map_values(
                |c: char|
                    if c == '\n' {
                        ' '
                    } else {
                        c
                    },
            ),
            out@ == m.take(i - a),
            any == exists|j: int| 0 <= j < i - a && m[j] != ' ',
        decreases b - i,
    {
        let c = if t[i] == '\n' {
            ' '
        } else {
            t[i]
        };
        proof {
            assert(m[i - a] == c);
            assert(m.take(i - a + 1) =~= m.take(i - a).push(c));
            if c != ' ' {
                assert(m[i - a] != ' ');
            }
            if any {
                let j = choose|j: int| 0 <= j < i - a && m[j] != ' ';
                assert(0 <= j < i + 1 - a && m[j] != ' ');
            }
            if !any && c == ' ' {
                assert forall|j: int| 0 <= j < i + 1 - a implies m[j] == ' ' by {
                    if j < i - a {
                        assert(!(m[j] != ' '));
                    }
                }
            }
        }
        out.push(c);
        any = any || c != ' ';
        i += 1;
    }
    assert(m.take(b - a) =~= m);
    let n = out.len();
    if n >= 2 && out[0] == ' ' && out[n - 1] == ' ' && any {
        let r = copy_range(out.as_slice(), 1, n - 1);
        r
    } else {
        out
    }
}

/// The flanking rules.
fn flanking(prev: Option<char>, next: Option<char>) -> (r: (bool, bool))
    ensures
        r == spec_flanking(prev, next),
{
    let prev_space = match prev {
        Some(c) => is_whitespace(c),
        None => true,
    };
    let next_space = match next {
        Some(c) => is_whitespace(c),
        None => true,
    };
    let prev_punct = match prev {
        Some(c) => is_ascii_punctuation(c),
        None => false,
    };
    let next_punct = match next {
        Some(c) => is_ascii_punctuation(c),
        None => false,
    };
    (
        !next_space && (!next_punct || prev_space || prev_punct),
        !prev_space && (!prev_punct || next_space || next_punct),
    )
}

/// Appends `c` `n` times.
fn push_run(lit: &mut Vec<char>, c: char, n: usize)
    ensures
        final(lit)@ == old(lit)@ + repeat(c, n as nat),
{
    let mut k: usize = 0;
    while k < n
        invariant
            k <= n,
            lit@ == old(lit)@ + repeat(c, k as nat),
        decreases n - k,
    {
        lit.push(c);
        assert(old(lit)@ + repeat(c, (k + 1) as nat) =~= (old(lit)@ + repeat(c, k as nat)).push(c));
        k += 1;
    }
}

/// Scanning `t[i..]` after a step gives what scanning before the step gave.
pub open spec fn step_ok(
    t: Seq<char>,
    o: Options,
    i: int,
    out0: Seq<Piece>,
    lit0: Seq<char>,
    st0: QuoteState,
    j: int,
    out1: Seq<Piece>,
    lit1: Seq<char>,
    st1: QuoteState,
) -> bool {
    pieces_view(out1) + scan_from(t, j, lit1, st1, o) == pieces_view(out0) + scan_from(
        t,
        i,
        lit0,
        st0,
        o,
    )
}

/// A backslash: hard break, escape, or a literal backslash.
fn step_escape(
    t: &[char],
    i: usize,
    o: Options,
    out: &mut Vec<Piece>,
    lit: &mut Vec<char>,
    conv: &mut Converter,
) -> (r: usize)
    requires
        i < t.len(),
        t@[i as int] == '\\' && o.escapes,
        old(conv).is_enabled() == o.smart_punctuation,
    ensures
        i < r <= t.len(),
        final(conv).is_enabled() == o.smart_punctuation,
        step_ok(
            t@,
            o,
            i as int,
            old(out)@,
            old(lit)@,
            old(conv).state(),
            r as int,
            final(out)@,
            final(lit)@,
            final(conv).state(),
        ),
{
    let n = t.len();
    if i + 1 < n && t[i + 1] == '\n' {
        flush(out, lit, conv);
        push_piece(out, Piece::LineBreak);
        proof {
            assert(pieces_view(out@) + scan_from(t@, i + 2, lit@, conv.state(), o) =~= pieces_view(
                old(out)@,
            ) + scan_from(t@, i as int, old(lit)@, old(conv).state(), o));
        }
        i + 2
    } else if i + 1 < n && is_ascii_punctuation(t[i + 1]) {
        let next = t[i + 1];
        if affects(next) {
            flush(out, lit, conv);
            let mut one = String::new();
            crate::text::push_char(&mut one, next);
            assert(one@ =~= seq![next]);
            push_piece(out, Piece::Text(one));
            proof {
                assert(pieces_view(out@) + scan_from(t@, i + 2, lit@, conv.state(), o)
                    =~= pieces_view(old(out)@) + scan_from(
                    t@,
                    i as int,
                    old(lit)@,
                    old(conv).state(),
                    o,
                ));
            }
        } else {
            lit.push(next);
        }
        i + 2
    } else {
        lit.push('\\');
        i + 1
    }
}

/// A run of backticks or dollars: a code span or math, or literal text.
fn step_span(
    t: &[char],
    i: usize,
    o: Options,
    out: &mut Vec<Piece>,
    lit: &mut Vec<char>,
    conv: &mut Converter,
) -> (r: usize)
    requires
        i < t.len(),
        (t@[i as int] == '`' && o.code_spans) || (t@[i as int] == '$' && o.math),
        !(t@[i as int] == '\\' && o.escapes),
        old(conv).is_enabled() == o.smart_punctuation,
    ensures
        i < r <= t.len(),
        final(conv).is_enabled() == o.smart_punctuation,
        step_ok(
            t@,
            o,
            i as int,
            old(out)@,
            old(lit)@,
            old(conv).state(),
            r as int,
            final(out)@,
            final(lit)@,
            final(conv).state(),
        ),
{
    let c = t[i];
    let after = run_len(t, i);
    let count = after - i;
    proof {
        lemma_closer_from(t@, after as int, c, count as int);
    }
    match find_closer(t, after, c, count) {
        Some(close) => {
            flush(out, lit, conv);
            let content = span_text_of(t, after, close);
            let kind = if c == '`' {
                NodeKind::Code
            } else {
                NodeKind::Math
            };
            let mut children: Vec<Piece> = Vec::new();
            let child = Piece::Text(chars_to_string(content.as_slice()));
            push_piece(&mut children, child);
            proof {
                assert(pieces_view(Seq::<Piece>::empty()) == Seq::<PieceV>::empty());
                assert(pieces_view(children@) =~= seq![piece_view(child)]);
            }
            push_piece(out, Piece::Node { kind, children });
            proof {
                assert(pieces_view(out@) + scan_from(t@, close + count, lit@, conv.state(), o)
                    =~= pieces_view(old(out)@) + scan_from(
                    t@,
                    i as int,
                    old(lit)@,
                    old(conv).state(),
                    o,
                ));
            }
            close + count
        },
        None => {
            push_run(lit, c, count);
            after
        },
    }
}

/// An `&`: an entity reference, or a literal `&`.
fn step_entity(
    t: &[char],
    i: usize,
    o: Options,
    out: &mut Vec<Piece>,
    lit: &mut Vec<char>,
    conv: &mut Converter,
) -> (r: usize)
    requires
        i < t.len(),
        t@[i as int] == '&' && o.entities,
        old(conv).is_enabled() == o.smart_punctuation,
    ensures
        i < r <= t.len(),
        final(conv).is_enabled() == o.smart_punctuation,
        final(out)@ == old(out)@,
        final(conv).state() == old(conv).state(),
        step_ok(
            t@,
            o,
            i as int,
            old(out)@,
            old(lit)@,
            old(conv).state(),
            r as int,
            final(out)@,
            final(lit)@,
            final(conv).state(),
        ),
{
    let n = t.len();
    let rest = &t[i..n];
    assert(rest@ =~= t@.skip(i as int));
    proof {
        entities_used_bound(t@.skip(i as int));
    }
    match entities::parse(rest) {
        Some((v, used)) => {
            let vc = str_chars(v.as_str());
            extend_chars(lit, vc.as_slice());
            i + used
        },
        None => {
            lit.push('&');
            i + 1
        },
    }
}

/// A `:`: a shortcode, or a literal colon.
fn step_shortcode(
    t: &[char],
    i: usize,
    o: Options,
    out: &mut Vec<Piece>,
    lit: &mut Vec<char>,
    conv: &mut Converter,
) -> (r: usize)
    requires
        i < t.len(),
        t@[i as int] == ':' && o.calls,
        old(conv).is_enabled() == o.smart_punctuation,
    ensures
        i < r <= t.len(),
        final(conv).is_enabled() == o.smart_punctuation,
        step_ok(
            t@,
            o,
            i as int,
            old(out)@,
            old(lit)@,
            old(conv).state(),
            r as int,
            final(out)@,
            final(lit)@,
            final(conv).state(),
        ),
{
    let n = t.len();
    let rest = &t[i..n];
    assert(rest@ =~= t@.skip(i as int));
    proof {
        emoji_used_bound(t@.skip(i as int));
    }
    match emoji::parse_name(rest) {
        Some((name, used)) => {
            flush(out, lit, conv);
            push_piece(out, Piece::Emoji(name));
            proof {
                assert(pieces_view(out@) + scan_from(t@, i + used, lit@, conv.state(), o)
                    =~= pieces_view(old(out)@) + scan_from(
                    t@,
                    i as int,
                    old(lit)@,
                    old(conv).state(),
                    o,
                ));
            }
            i + used
        },
        None => {
            lit.push(':');
            i + 1
        },
    }
}

/// A `[`: a link, or a literal bracket.
fn step_link(
    t: &[char],
    i: usize,
    o: Options,
    out: &mut Vec<Piece>,
    lit: &mut Vec<char>,
    conv: &mut Converter,
) -> (r: usize)
    requires
        i < t.len(),
        t@[i as int] == '[' && o.links,
        old(conv).is_enabled() == o.smart_punctuation,
    ensures
        i < r <= t.len(),
        final(conv).is_enabled() == o.smart_punctuation,
        step_ok(
            t@,
            o,
            i as int,
            old(out)@,
            old(lit)@,
            old(conv).state(),
            r as int,
            final(out)@,
            final(lit)@,
            final(conv).state(),
        ),
    decreases t.len(), 0nat,
{
    proof {
        lemma_link_text_shorter(t@, i as int);
        lemma_link_close(t@, i + 2);
    }
    if i + 1 < t.len() && t[i + 1] == '[' {
        match find_link_close(t, i + 2) {
            Some(j) => {
                let inside = copy_range(t, i + 2, j);
                match link_parts(inside.as_slice()) {
                    Some((text, target)) => {
                        assert(spec_link_at(t@, i as int) == Some((text@, target@, j + 2)));
                        flush(out, lit, conv);
                        let children = resolve(scan_with(text.as_slice(), o));
                        push_piece(
                            out,
                            Piece::Link { target: chars_to_string(target.as_slice()), children },
                        );
                        proof {
                            assert(pieces_view(out@) + scan_from(t@, j + 2, lit@, conv.state(), o)
                                =~= pieces_view(old(out)@) + scan_from(
                                t@,
                                i as int,
                                old(lit)@,
                                old(conv).state(),
                                o,
                            ));
                        }
                        return j + 2;
                    },
                    None => {},
                }
            },
            None => {},
        }
    }
    assert(spec_link_at(t@, i as int) is None);
    lit.push('[');
    i + 1
}

/// A run of delimiter characters.
#[verifier::rlimit(40)]
#[verifier::spinoff_prover]
fn step_delimiter(
    t: &[char],
    i: usize,
    o: Options,
    out: &mut Vec<Piece>,
    lit: &mut Vec<char>,
    conv: &mut Converter,
) -> (r: usize)
    requires
        i < t.len(),
        spec_is_delimiter(t@[i as int], o),
        old(conv).is_enabled() == o.smart_punctuation,
    ensures
        i < r <= t.len(),
        final(conv).is_enabled() == o.smart_punctuation,
        step_ok(
            t@,
            o,
            i as int,
            old(out)@,
            old(lit)@,
            old(conv).state(),
            r as int,
            final(out)@,
            final(lit)@,
            final(conv).state(),
        ),
{
    let n = t.len();
    let c = t[i];
    let after = run_len(t, i);
    let count = after - i;
    if c == '=' && count < 2 {
        push_run(lit, c, count);
        after
    } else {
        flush(out, lit, conv);
        let prev = if i > 0 {
            Some(t[i - 1])
        } else {
            None
        };
        let next = if after < n {
            Some(t[after])
        } else {
            None
        };
        let (can_open, can_close) = flanking(prev, next);
        push_piece(out, Piece::Delim { ch: c, count, can_open, can_close });
        proof {
            assert(pieces_view(out@) + scan_from(t@, after as int, lit@, conv.state(), o)
                =~= pieces_view(old(out)@) + scan_from(
                t@,
                i as int,
                old(lit)@,
                old(conv).state(),
                o,
            ));
        }
        after
    }
}

/// Scans a text with the given options.
pub fn scan_with(t: &[char], o: Options) -> (r: Vec<Piece>)
    ensures
        pieces_view(r@) == spec_scan(t@, o),
    decreases t.len(), 1nat,
{
    let n = t.len();
    let mut out: Vec<Piece> = Vec::new();
    let mut lit: Vec<char> = Vec::new();
    let mut conv = Converter::new(o.smart_punctuation);
    let mut i: usize = 0;
    proof {
        assert(pieces_view(out@) =~= Seq::<PieceV>::empty());
        assert(lit@ =~= Seq::<char>::empty());
    }
    while i < n
        invariant
            n == t@.len(),
            i <= n,
            conv.is_enabled() == o.smart_punctuation,
            pieces_view(out@) + scan_from(t@, i as int, lit@, conv.state(), o) == spec_scan(t@, o),
        decreases n - i,
    {
        let c = t[i];
        if c == '\\' && o.escapes {
            i = step_escape(t, i, o, &mut out, &mut lit, &mut conv);
        } else if (c == '`' && o.code_spans) || (c == '$' && o.math) {
            i = step_span(t, i, o, &mut out, &mut lit, &mut conv);
        } else if c == '&' && o.entities {
            i = step_entity(t, i, o, &mut out, &mut lit, &mut conv);
        } else if c == ':' && o.calls {
            i = step_shortcode(t, i, o, &mut out, &mut lit, &mut conv);
        } else if c == '[' && o.links {
            i = step_link(t, i, o, &mut out, &mut lit, &mut conv);
        } else if (c == '*' && o.emphasis) || ((c == '~' || c == '^' || c == '=') && o.styles) {
            i = step_delimiter(t, i, o, &mut out, &mut lit, &mut conv);
        } else {
            lit.push(c);
            i += 1;
        }
    }
    flush(&mut out, &mut lit, &mut conv);
    assert(pieces_view(out@) =~= spec_scan(t@, o));
    out
}

/// Scans a text with every construct switched on.
pub fn scan(text: &str) -> (r: Vec<Piece>)
    ensures
        pieces_view(r@) == spec_scan(text@, Options::spec_all()),
{
    let chars = str_chars(text);
    scan_with(chars.as_slice(), Options::default())
}

} // verus!
