//! Recognising the header line of a call block.
//!
//! A header line looks like
//!
//! ```text
//! ::name key=value flag :
//! ::name key=value: first line of the body
//! ```
//!
//! * it starts with `::`; the **name** runs up to white space, `:` or `=`;
//! * the other white-space separated tokens are parameters: `key=value` is a pair,
//!   a lone `flag` means `flag=true`;
//! * name, keys and values may be wrapped in double quotes (which may hold spaces
//!   and `:`), with the escapes `\"` `\\` `\n` `\t` `\r`; the quoting rules live in
//!   one place, [`unquote`];
//! * the **separator colon** splits the header from the first line of the body: it
//!   is the first `:` after `::` that is outside quotes and followed by white space
//!   or the end of the line, so the colon in `url=http://x` does not count;
//! * parsing never fails: odd input (empty name, unclosed quotes, `=x`) is read
//!   leniently.

use vstd::prelude::*;
use crate::ast::params::{ParamV, Params};
use crate::text::{chars_to_string, copy_range, is_whitespace, spec_is_whitespace, str_chars};

verus! {

// ── white space ────────────────────────────────────────────────────────────

/// Number of leading white-space characters.
pub open spec fn ws_prefix(s: Seq<char>) -> nat
    decreases s.len(),
{
    if s.len() > 0 && spec_is_whitespace(s[0]) {
        1 + ws_prefix(s.drop_first())
    } else {
        0
    }
}

/// Number of trailing white-space characters.
pub open spec fn ws_suffix(s: Seq<char>) -> nat
    decreases s.len(),
{
    if s.len() > 0 && spec_is_whitespace(s.last()) {
        1 + ws_suffix(s.drop_last())
    } else {
        0
    }
}

/// `str::trim_start`.
pub open spec fn trim_start(s: Seq<char>) -> Seq<char> {
    s.skip(ws_prefix(s) as int)
}

/// `str::trim_end`.
pub open spec fn trim_end(s: Seq<char>) -> Seq<char> {
    s.take(s.len() - ws_suffix(s))
}

/// `str::trim`.
pub open spec fn trim(s: Seq<char>) -> Seq<char> {
    trim_end(trim_start(s))
}

/// The leading whitespace of a text: its length, and that it is all whitespace.
pub proof fn lemma_ws_prefix(s: Seq<char>)
    ensures
        ws_prefix(s) <= s.len(),
        forall|j: int| 0 <= j < ws_prefix(s) ==> spec_is_whitespace(#[trigger] s[j]),
        ws_prefix(s) < s.len() ==> !spec_is_whitespace(s[ws_prefix(s) as int]),
    decreases s.len(),
{
    if s.len() > 0 && spec_is_whitespace(s[0]) {
        lemma_ws_prefix(s.drop_first());
        assert forall|j: int| 0 <= j < ws_prefix(s) implies spec_is_whitespace(
            #[trigger] s[j],
        ) by {
            if j > 0 {
                assert(s[j] == s.drop_first()[j - 1]);
            }
        }
    }
}

/// The trailing whitespace is no longer than the text.
pub proof fn lemma_ws_suffix(s: Seq<char>)
    ensures
        ws_suffix(s) <= s.len(),
    decreases s.len(),
{
    if s.len() > 0 && spec_is_whitespace(s.last()) {
        lemma_ws_suffix(s.drop_last());
    }
}

/// Length of the white-space prefix of `s[from..]`.
fn count_ws_prefix(s: &[char], from: usize) -> (r: usize)
    requires
        from <= s.len(),
    ensures
        r == ws_prefix(s@.skip(from as int)),
        from + r <= s.len(),
{
    let mut i = from;
    assert(s@.skip(from as int).skip(0) =~= s@.skip(from as int));
    while i < s.len() && is_whitespace(s[i])
        invariant
            from <= i <= s.len(),
            ws_prefix(s@.skip(from as int)) == (i - from) + ws_prefix(s@.skip(i as int)),
        decreases s.len() - i,
    {
        assert(s@.skip(i as int).drop_first() =~= s@.skip(i + 1));
        i += 1;
    }
    i - from
}

/// Length of the white-space suffix of `s[..to]`.
fn count_ws_suffix(s: &[char], to: usize) -> (r: usize)
    requires
        to <= s.len(),
    ensures
        r == ws_suffix(s@.take(to as int)),
        r <= to,
{
    let mut i = to;
    while i > 0 && is_whitespace(s[i - 1])
        invariant
            i <= to <= s.len(),
            ws_suffix(s@.take(to as int)) == (to - i) + ws_suffix(s@.take(i as int)),
        decreases i,
    {
        assert(s@.take(i as int).drop_last() =~= s@.take(i - 1));
        i -= 1;
    }
    to - i
}

// ── quoting ────────────────────────────────────────────────────────────────

/// The character an escape `\c` stands for inside quotes.
pub open spec fn escaped_char(c: char) -> char {
    if c == 'n' {
        '\n'
    } else if c == 't' {
        '\t'
    } else if c == 'r' {
        '\r'
    } else {
        c
    }
}

/// What `t[i..]` contributes to the unquoted text, given whether we are inside quotes.
pub open spec fn unquote_from(t: Seq<char>, i: int, in_quote: bool) -> Seq<char>
    decreases t.len() - i,
{
    if i < 0 || i >= t.len() {
        Seq::empty()
    } else if !in_quote {
        seq![t[i]] + unquote_from(t, i + 1, false)
    } else if t[i] == '"' {
        unquote_from(t, i + 1, false)
    } else if t[i] == '\\' {
        if i + 1 < t.len() {
            seq![escaped_char(t[i + 1])] + unquote_from(t, i + 2, true)
        } else {
            seq!['\\']
        }
    } else {
        seq![t[i]] + unquote_from(t, i + 1, true)
    }
}

/// Strips surrounding double quotes and resolves escapes inside them; an unclosed
/// quote runs to the end; text that does not start with a quote is kept as it is,
/// and characters after the closing quote are kept literally.
pub open spec fn spec_unquote(t: Seq<char>) -> Seq<char> {
    if t.len() > 0 && t[0] == '"' {
        unquote_from(t, 1, true)
    } else {
        unquote_from(t, 0, false)
    }
}

/// Outside quotes every character is kept.
proof fn lemma_unquote_literal(t: Seq<char>, i: int)
    requires
        0 <= i <= t.len(),
    ensures
        unquote_from(t, i, false) == t.subrange(i, t.len() as int),
    decreases t.len() - i,
{
    if i < t.len() {
        lemma_unquote_literal(t, i + 1);
        assert(seq![t[i]] + t.subrange(i + 1, t.len() as int) =~= t.subrange(i, t.len() as int));
    } else {
        assert(t.subrange(i, t.len() as int) =~= Seq::<char>::empty());
    }
}

/// Inside quotes, a run without quotes and backslashes is kept as it is.
proof fn lemma_unquote_plain(t: Seq<char>, i: int, j: int)
    requires
        0 <= i <= j <= t.len(),
        forall|k: int| i <= k < j ==> t[k] != '"' && t[k] != '\\',
    ensures
        unquote_from(t, i, true) == t.subrange(i, j) + unquote_from(t, j, true),
    decreases j - i,
{
    if i < j {
        lemma_unquote_plain(t, i + 1, j);
        assert(seq![t[i]] + t.subrange(i + 1, j) =~= t.subrange(i, j));
        assert(seq![t[i]] + (t.subrange(i + 1, j) + unquote_from(t, j, true)) =~= t.subrange(i, j)
            + unquote_from(t, j, true));
    } else {
        assert(t.subrange(i, j) + unquote_from(t, j, true) =~= unquote_from(t, j, true));
    }
}

/// A token that does not start with a double quote is kept as it is.
pub proof fn unquoted_tokens_are_kept(t: Seq<char>)
    requires
        t.len() == 0 || t[0] != '"',
    ensures
        spec_unquote(t) == t,
{
    lemma_unquote_literal(t, 0);
    assert(t.subrange(0, t.len() as int) =~= t);
}

/// Quoted text without quotes or backslashes unquotes to itself, whether the
/// closing quote is there or the quote runs to the end.
pub proof fn quoted_plain_text_is_its_inside(s: Seq<char>)
    requires
        forall|k: int| 0 <= k < s.len() ==> s[k] != '"' && s[k] != '\\',
    ensures
        spec_unquote(seq!['"'] + s + seq!['"']) == s,
        spec_unquote(seq!['"'] + s) == s,
{
    let closed = seq!['"'] + s + seq!['"'];
    let open = seq!['"'] + s;
    let n = s.len() as int;
    lemma_unquote_plain(closed, 1, n + 1);
    lemma_unquote_literal(closed, n + 2);
    assert(closed.subrange(1, n + 1) =~= s);
    assert(closed.subrange(n + 2, closed.len() as int) =~= Seq::<char>::empty());
    assert(unquote_from(closed, n + 1, true) == unquote_from(closed, n + 2, false));
    assert(s + Seq::<char>::empty() =~= s);
    lemma_unquote_plain(open, 1, n + 1);
    assert(open.subrange(1, n + 1) =~= s);
    assert(unquote_from(open, n + 1, true) =~= Seq::<char>::empty());
    assert(s + Seq::<char>::empty() =~= s);
}

/// Removes the surrounding double quotes of a token and resolves its escapes.
/// Name, keys, values and link targets all go through this one function.
pub fn unquote(token: &[char]) -> (r: Vec<char>)
    ensures
        r@ == spec_unquote(token@),
{
    let n = token.len();
    let mut out: Vec<char> = Vec::new();
    let quoted = n > 0 && token[0] == '"';
    let mut i: usize = if quoted {
        1
    } else {
        0
    };
    let mut in_quote = quoted;
    while i < n
        invariant
            n == token@.len(),
            i <= n + 1,
            out@ + unquote_from(token@, i as int, in_quote) == spec_unquote(token@),
        decreases n - i,
    {
        let c = token[i];
        if !in_quote {
            out.push(c);
            i += 1;
        } else if c == '"' {
            in_quote = false;
            i += 1;
        } else if c == '\\' {
            if i + 1 < n {
                let e = token[i + 1];
                let x = if e == 'n' {
                    '\n'
                } else if e == 't' {
                    '\t'
                } else if e == 'r' {
                    '\r'
                } else {
                    e
                };
                out.push(x);
                i += 2;
            } else {
                out.push('\\');
                i = n;
                assert(out@ =~= spec_unquote(token@));
            }
        } else {
            out.push(c);
            i += 1;
        }
    }
    assert(out@ + Seq::<char>::empty() =~= out@);
    out
}

/// [`unquote`] on a string slice.
pub fn unquote_str(text: &str) -> (r: String)
    ensures
        r@ == spec_unquote(text@),
{
    let chars = str_chars(text);
    let out = unquote(chars.as_slice());
    chars_to_string(out.as_slice())
}

// ── the separator colon ────────────────────────────────────────────────────

/// Where the separator colon is, scanning `line[i..]` with the given quote state.
pub open spec fn separator_from(line: Seq<char>, i: int, quoted: bool, escaped: bool) -> Option<
    int,
>
    decreases line.len() - i,
{
    if i < 0 || i >= line.len() {
        None
    } else if escaped {
        separator_from(line, i + 1, quoted, false)
    } else if line[i] == '\\' && quoted {
        separator_from(line, i + 1, quoted, true)
    } else if line[i] == '"' {
        separator_from(line, i + 1, !quoted, false)
    } else if line[i] == ':' && !quoted {
        if i + 1 >= line.len() || spec_is_whitespace(line[i + 1]) {
            Some(i)
        } else {
            separator_from(line, i + 1, quoted, false)
        }
    } else {
        separator_from(line, i + 1, quoted, false)
    }
}

/// Where scanning for the separator starts: just after the leading `::`.
pub open spec fn separator_scan_start(line: Seq<char>) -> int {
    let t = ws_prefix(line) as int;
    if t + 2 <= line.len() && line[t] == ':' && line[t + 1] == ':' {
        t + 2
    } else {
        t
    }
}

/// The separator colon: the first `:` after `::` that is outside quotes and is
/// followed by white space or the end of the line.
pub open spec fn spec_find_separator(line: Seq<char>) -> Option<int> {
    separator_from(line, separator_scan_start(line), false, false)
}

/// A header separator found from `i` is a `:` inside the line.
pub proof fn lemma_separator_bounds(line: Seq<char>, i: int, quoted: bool, escaped: bool)
    ensures
        separator_from(line, i, quoted, escaped) matches Some(k) ==> i <= k < line.len()
            && line[k] == ':',
    decreases line.len() - i,
{
    if 0 <= i < line.len() {
        lemma_separator_bounds(line, i + 1, quoted, false);
        lemma_separator_bounds(line, i + 1, quoted, true);
        lemma_separator_bounds(line, i + 1, !quoted, false);
    }
}

/// Finds the separator colon.
fn find_separator(line: &[char]) -> (r: Option<usize>)
    ensures
        match r {
            Some(k) => spec_find_separator(line@) == Some(k as int),
            None => spec_find_separator(line@) is None,
        },
{
    let n = line.len();
    let t = count_ws_prefix(line, 0);
    assert(line@.skip(0) =~= line@);
    let mut i: usize = if n - t >= 2 && line[t] == ':' && line[t + 1] == ':' {
        t + 2
    } else {
        t
    };
    let mut quoted = false;
    let mut escaped = false;
    while i < n
        invariant
            n == line@.len(),
            i <= n,
            separator_from(line@, i as int, quoted, escaped) == spec_find_separator(line@),
        decreases n - i,
    {
        let c = line[i];
        if escaped {
            escaped = false;
        } else if c == '\\' && quoted {
            escaped = true;
        } else if c == '"' {
            quoted = !quoted;
        } else if c == ':' && !quoted {
            if i + 1 >= n || is_whitespace(line[i + 1]) {
                return Some(i);
            }
        }
        i += 1;
    }
    None
}

// ── names and tokens ───────────────────────────────────────────────────────

/// Where a name starting at `s[i]` ends: at white space, `:` or `=` outside quotes.
pub open spec fn name_end(s: Seq<char>, i: int, in_quote: bool, escaped: bool) -> int
    decreases s.len() - i,
{
    if i < 0 || i >= s.len() {
        i
    } else if escaped {
        name_end(s, i + 1, in_quote, false)
    } else if s[i] == '\\' && in_quote {
        name_end(s, i + 1, in_quote, true)
    } else if s[i] == '"' {
        name_end(s, i + 1, !in_quote, false)
    } else if !in_quote && (spec_is_whitespace(s[i]) || s[i] == ':' || s[i] == '=') {
        i
    } else {
        name_end(s, i + 1, in_quote, false)
    }
}

/// Where a parameter token starting at `s[i]` ends: at white space outside quotes.
pub open spec fn token_end(s: Seq<char>, i: int, in_quote: bool, escaped: bool) -> int
    decreases s.len() - i,
{
    if i < 0 || i >= s.len() {
        i
    } else if escaped {
        token_end(s, i + 1, in_quote, false)
    } else if s[i] == '\\' && in_quote {
        token_end(s, i + 1, in_quote, true)
    } else if s[i] == '"' {
        token_end(s, i + 1, !in_quote, false)
    } else if !in_quote && spec_is_whitespace(s[i]) {
        i
    } else {
        token_end(s, i + 1, in_quote, false)
    }
}

/// The end of a name lies between its start and the end of the text.
pub proof fn lemma_name_end(s: Seq<char>, i: int, q: bool, e: bool)
    requires
        0 <= i <= s.len(),
    ensures
        i <= name_end(s, i, q, e) <= s.len(),
    decreases s.len() - i,
{
    if i < s.len() {
        lemma_name_end(s, i + 1, q, false);
        lemma_name_end(s, i + 1, q, true);
        lemma_name_end(s, i + 1, !q, false);
    }
}

/// The end of a token lies between its start and the end of the text, past a plain character.
pub proof fn lemma_token_end(s: Seq<char>, i: int, q: bool, e: bool)
    requires
        0 <= i <= s.len(),
    ensures
        i <= token_end(s, i, q, e) <= s.len(),
        i < s.len() && !e && !q && !spec_is_whitespace(s[i]) ==> i < token_end(s, i, q, e),
    decreases s.len() - i,
{
    if i < s.len() {
        lemma_token_end(s, i + 1, q, false);
        lemma_token_end(s, i + 1, q, true);
        lemma_token_end(s, i + 1, !q, false);
    }
}

/// Reads a name from `s[i..]`; returns where it ends.
fn read_name(s: &[char], start: usize) -> (r: usize)
    requires
        start <= s.len(),
    ensures
        r == name_end(s@, start as int, false, false),
{
    let n = s.len();
    let mut i = start;
    let mut in_quote = false;
    let mut escaped = false;
    while i < n
        invariant
            n == s@.len(),
            start <= i <= n,
            name_end(s@, i as int, in_quote, escaped) == name_end(
                s@,
                start as int,
                false,
                false,
            ),
        decreases n - i,
    {
        let c = s[i];
        if escaped {
            escaped = false;
        } else if c == '\\' && in_quote {
            escaped = true;
        } else if c == '"' {
            in_quote = !in_quote;
        } else if !in_quote && (is_whitespace(c) || c == ':' || c == '=') {
            return i;
        }
        i += 1;
    }
    i
}

/// Reads a parameter token from `s[i..]`; returns where it ends.
fn read_token(s: &[char], start: usize) -> (r: usize)
    requires
        start <= s.len(),
    ensures
        r == token_end(s@, start as int, false, false),
{
    let n = s.len();
    let mut i = start;
    let mut in_quote = false;
    let mut escaped = false;
    while i < n
        invariant
            n == s@.len(),
            start <= i <= n,
            token_end(s@, i as int, in_quote, escaped) == token_end(
                s@,
                start as int,
                false,
                false,
            ),
        decreases n - i,
    {
        let c = s[i];
        if escaped {
            escaped = false;
        } else if c == '\\' && in_quote {
            escaped = true;
        } else if c == '"' {
            in_quote = !in_quote;
        } else if !in_quote && is_whitespace(c) {
            return i;
        }
        i += 1;
    }
    i
}

/// The first `=` outside quotes in `t[i..]`.
pub open spec fn eq_from(t: Seq<char>, i: int, in_quote: bool, escaped: bool) -> Option<int>
    decreases t.len() - i,
{
    if i < 0 || i >= t.len() {
        None
    } else if escaped {
        eq_from(t, i + 1, in_quote, false)
    } else if t[i] == '\\' && in_quote {
        eq_from(t, i + 1, in_quote, true)
    } else if t[i] == '"' {
        eq_from(t, i + 1, !in_quote, false)
    } else if t[i] == '=' && !in_quote {
        Some(i)
    } else {
        eq_from(t, i + 1, in_quote, false)
    }
}

/// An `=` found from `i` lies inside the text.
pub proof fn lemma_eq_bounds(t: Seq<char>, i: int, q: bool, e: bool)
    ensures
        eq_from(t, i, q, e) matches Some(k) ==> i <= k < t.len(),
    decreases t.len() - i,
{
    if 0 <= i < t.len() {
        lemma_eq_bounds(t, i + 1, q, false);
        lemma_eq_bounds(t, i + 1, q, true);
        lemma_eq_bounds(t, i + 1, !q, false);
    }
}

/// The text `true`, the value of a parameter written without one.
pub open spec fn true_chars() -> Seq<char> {
    seq!['t', 'r', 'u', 'e']
}

/// The parameter a token stands for: `key=value`, or `flag` meaning `flag=true`
/// (a token starting with `=` is a flag too, named by the whole token).
pub open spec fn spec_token_param(t: Seq<char>) -> ParamV {
    match eq_from(t, 0, false, false) {
        Some(k) if k > 0 => (spec_unquote(t.take(k)), spec_unquote(t.skip(k + 1))),
        _ => (spec_unquote(t), true_chars()),
    }
}

/// The parameters read from `s[i..]`.
pub open spec fn params_from(s: Seq<char>, i: int) -> Seq<ParamV>
    decreases s.len() - i,
{
    if i < 0 || i > s.len() {
        Seq::empty()
    } else {
        let p = i + ws_prefix(s.skip(i));
        if p >= s.len() {
            Seq::empty()
        } else if s[p] == ':' {
            params_from(s, p + 1)
        } else {
            let e = token_end(s, p, false, false);
            if e <= p {
                params_from(s, p + 1)
            } else {
                proof {
                    lemma_token_end(s, p, false, false);
                }
                seq![spec_token_param(s.subrange(p, e))] + params_from(s, e)
            }
        }
    }
}

/// Skips a run of `:` starting at `s[i]`.
pub open spec fn colon_run_end(s: Seq<char>, i: int) -> int
    decreases s.len() - i,
{
    if 0 <= i < s.len() && s[i] == ':' {
        colon_run_end(s, i + 1)
    } else {
        i
    }
}

// ── the header ─────────────────────────────────────────────────────────────

/// The value of a recognised header.
pub struct HeaderV {
    pub name: Seq<char>,
    pub params: Seq<ParamV>,
    pub content: Option<Seq<char>>,
}

/// The header part of a line: everything before the separator colon.
pub open spec fn header_part(line: Seq<char>) -> Seq<char> {
    match spec_find_separator(line) {
        Some(k) => line.take(k),
        None => line,
    }
}

/// The header part without leading white space, the leading `::` and surrounding
/// white space.
pub open spec fn header_rest(line: Seq<char>) -> Seq<char> {
    let r1 = trim_start(header_part(line));
    let r2 = if r1.len() >= 2 && r1[0] == ':' && r1[1] == ':' {
        r1.skip(2)
    } else {
        r1
    };
    trim(r2)
}

/// What a header line says.
pub open spec fn spec_parse_call_header(line: Seq<char>) -> HeaderV {
    let rest = header_rest(line);
    let ne = name_end(rest, 0, false, false);
    HeaderV {
        name: spec_unquote(rest.take(ne)),
        params: params_from(rest, colon_run_end(rest, ne)),
        content: match spec_find_separator(line) {
            Some(k) => {
                let c = trim_start(line.skip(k + 1));
                if c.len() == 0 {
                    None
                } else {
                    Some(c)
                }
            },
            None => None,
        },
    }
}

/// The result of recognising a header line.
#[derive(Debug, Clone, PartialEq, Eq)]
pub struct CallHeader {
    /// The call name; empty when nothing follows `::`.
    pub name: String,
    /// The parameters.
    pub params: Params,
    /// The first line of the body, after the separator colon (leading white space
    /// removed); `None` without a separator or when nothing follows it.
    pub content: Option<String>,
}

impl View for CallHeader {
    type V = HeaderV;

    open spec fn view(&self) -> HeaderV {
        HeaderV {
            name: self.name@,
            params: self.params@,
            content: match self.content {
                Some(c) => Some(c@),
                None => None,
            },
        }
    }
}

/// The first `=` outside quotes.
fn find_top_level_eq(token: &[char]) -> (r: Option<usize>)
    ensures
        match r {
            Some(k) => eq_from(token@, 0, false, false) == Some(k as int),
            None => eq_from(token@, 0, false, false) is None,
        },
{
    let n = token.len();
    let mut i: usize = 0;
    let mut in_quote = false;
    let mut escaped = false;
    while i < n
        invariant
            n == token@.len(),
            i <= n,
            eq_from(token@, i as int, in_quote, escaped) == eq_from(token@, 0, false, false),
        decreases n - i,
    {
        let c = token[i];
        if escaped {
            escaped = false;
        } else if c == '\\' && in_quote {
            escaped = true;
        } else if c == '"' {
            in_quote = !in_quote;
        } else if c == '=' && !in_quote {
            return Some(i);
        }
        i += 1;
    }
    None
}

/// Converts one token into a parameter.
fn token_param(token: &[char]) -> (r: (Vec<char>, Vec<char>))
    ensures
        (r.0@, r.1@) == spec_token_param(token@),
{
    let n = token.len();
    let eq = find_top_level_eq(token);
    proof {
        lemma_eq_bounds(token@, 0, false, false);
    }
    match eq {
        Some(k) if k > 0 => {
            let key = copy_range(token, 0, k);
            let value = copy_range(token, k + 1, n);
            assert(key@ =~= token@.take(k as int));
            assert(value@ =~= token@.skip(k + 1));
            (unquote(key.as_slice()), unquote(value.as_slice()))
        },
        _ => {
            let mut t: Vec<char> = Vec::new();
            t.push('t');
            t.push('r');
            t.push('u');
            t.push('e');
            assert(t@ =~= true_chars());
            (unquote(token), t)
        },
    }
}

/// Recognises a header line.
///
/// The line should be the content after the indentation (starting with `::`);
/// leading white space and a missing `::` are tolerated.
pub fn parse_call_header(line: &str) -> (r: CallHeader)
    ensures
        r@ == spec_parse_call_header(line@),
{
    let chars = str_chars(line);
    parse_call_header_chars(chars.as_slice())
}

/// The first line of the body: what follows the separator at `k`, if anything.
fn header_content(line: &[char], k: usize) -> (r: Option<String>)
    requires
        k < line.len(),
    ensures
        match r {
            Some(c) => {
                let t = trim_start(line@.skip(k + 1));
                t.len() != 0 && c@ == t
            },
            None => trim_start(line@.skip(k + 1)).len() == 0,
        },
{
    let n = line.len();
    let t = count_ws_prefix(line, k + 1);
    if k + 1 + t >= n {
        None
    } else {
        let c = copy_range(line, k + 1 + t, n);
        assert(c@ =~= trim_start(line@.skip(k + 1)));
        Some(chars_to_string(c.as_slice()))
    }
}

/// The header part `line[..head_end]` trimmed, without its leading `::`.
fn header_rest_chars(line: &[char], head_end: usize) -> (r: Vec<char>)
    requires
        head_end <= line.len(),
    ensures
        r@ == {
            let r1 = trim_start(line@.take(head_end as int));
            let r2 = if r1.len() >= 2 && r1[0] == ':' && r1[1] == ':' {
                r1.skip(2)
            } else {
                r1
            };
            trim(r2)
        },
{
    let head = copy_range(line, 0, head_end);
    assert(head@ =~= line@.take(head_end as int));
    let t1 = count_ws_prefix(head.as_slice(), 0);
    assert(head@.skip(0) =~= head@);
    let from = if head.len() - t1 >= 2 && head[t1] == ':' && head[t1 + 1] == ':' {
        t1 + 2
    } else {
        t1
    };
    let r2 = copy_range(head.as_slice(), from, head.len());
    let t2 = count_ws_prefix(r2.as_slice(), 0);
    assert(r2@.skip(0) =~= r2@);
    let tail = copy_range(r2.as_slice(), t2, r2.len());
    let t3 = count_ws_suffix(tail.as_slice(), tail.len());
    assert(tail@.take(tail.len() as int) =~= tail@);
    let rest = copy_range(tail.as_slice(), 0, tail.len() - t3);
    proof {
        let r1 = trim_start(head@);
        assert(r1 =~= head@.skip(t1 as int));
        if head@.len() - t1 >= 2 && head@[t1 as int] == ':' && head@[t1 + 1] == ':' {
            assert(r1.skip(2) =~= r2@);
        } else {
            assert(r1 =~= r2@);
        }
        assert(tail@ =~= trim_start(r2@));
        assert(rest@ =~= trim_end(tail@));
    }
    rest
}

/// [`parse_call_header`] on characters.
pub fn parse_call_header_chars(line: &[char]) -> (r: CallHeader)
    ensures
        r@ == spec_parse_call_header(line@),
{
    let n = line.len();
    let sep = find_separator(line);
    proof {
        lemma_separator_bounds(line@, separator_scan_start(line@), false, false);
    }
    let head_end = match sep {
        Some(k) => k,
        None => n,
    };
    assert(line@.take(head_end as int) == header_part(line@)) by {
        if sep is None {
            assert(line@.take(n as int) =~= line@);
        }
    }
    let content: Option<String> = match sep {
        Some(k) => header_content(line, k),
        None => None,
    };
    let rest = header_rest_chars(line, head_end);
    assert(rest@ == header_rest(line@));
    // The name.
    let ne = read_name(rest.as_slice(), 0);
    proof {
        lemma_name_end(rest@, 0, false, false);
    }
    let raw_name = copy_range(rest.as_slice(), 0, ne);
    assert(raw_name@ =~= rest@.take(ne as int));
    let name_chars = unquote(raw_name.as_slice());
    // Tolerate colons right after the name.
    let mut pos = ne;
    while pos < rest.len() && rest[pos] == ':'
        invariant
            ne <= pos <= rest@.len(),
            colon_run_end(rest@, pos as int) == colon_run_end(rest@, ne as int),
        decreases rest.len() - pos,
    {
        pos += 1;
    }
    // The parameters.
    let params = read_params(rest.as_slice(), pos);
    let r = CallHeader { name: chars_to_string(name_chars.as_slice()), params, content };
    assert(r@.content == spec_parse_call_header(line@).content);
    r
}

/// Reads the parameters of `s[start..]`.
fn read_params(s: &[char], start: usize) -> (r: Params)
    requires
        start <= s.len(),
    ensures
        r@ == params_from(s@, start as int),
{
    let n = s.len();
    let mut params = Params::new();
    let mut i = start;
    while i < n
        invariant
            n == s@.len(),
            start <= i <= n,
            params@ + params_from(s@, i as int) == params_from(s@, start as int),
        decreases n - i,
    {
        let w = count_ws_prefix(s, i);
        let p = i + w;
        if p >= n {
            proof {
                assert(params_from(s@, i as int) =~= Seq::<ParamV>::empty());
            }
            i = n;
        } else if s[p] == ':' {
            i = p + 1;
        } else {
            let e = read_token(s, p);
            proof {
                lemma_token_end(s@, p as int, false, false);
                lemma_ws_prefix(s@.skip(i as int));
                assert(s@[p as int] == s@.skip(i as int)[w as int]);
            }
            let token = copy_range(s, p, e);
            let (k, v) = token_param(token.as_slice());
            let ghost before = params@;
            params.push_owned(chars_to_string(k.as_slice()), chars_to_string(v.as_slice()));
            proof {
                assert(params@ + params_from(s@, e as int) =~= before + params_from(
                    s@,
                    i as int,
                ));
            }
            i = e;
        }
    }
    proof {
        assert(params_from(s@, n as int) =~= Seq::<ParamV>::empty());
        assert(params@ + Seq::<ParamV>::empty() =~= params@);
    }
    params
}

} // verus!

verus! {

/// The first line of the body is a proper suffix of the header line.
pub proof fn lemma_header_content(line: Seq<char>)
    ensures
        spec_parse_call_header(line).content matches Some(c) ==> c.len() < line.len() && c
            == line.skip(line.len() - c.len()),
{
    lemma_separator_bounds(line, separator_scan_start(line), false, false);
    if let Some(k) = spec_find_separator(line) {
        let t = line.skip(k + 1);
        lemma_ws_prefix(t);
        let c = trim_start(t);
        assert(c =~= line.skip(k + 1 + ws_prefix(t)));
        assert(c =~= line.skip(line.len() - c.len()));
    }
}

} // verus!
