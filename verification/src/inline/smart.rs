//! Smart punctuation.
//!
//! It only touches plain text: code spans, math and escaped characters never pass
//! through here. Quotes are paired by an open/close state machine rather than by
//! looking at the previous character, since in Chinese a quote directly follows a
//! character (`他说"好"`); the state alternates open, close, open... An `'` after a
//! letter or digit is an apostrophe. The state carries over between segments.

use vstd::prelude::*;
use crate::text::{chars_to_string, char_is_alphanumeric, is_alphanumeric, str_chars};

verus! {

/// Whether `c` is one of the characters smart punctuation rewrites.
pub open spec fn spec_affects(c: char) -> bool {
    c == '"' || c == '\'' || c == '-' || c == '.'
}

/// Whether `c` is one of the characters smart punctuation rewrites. Escaped
/// characters of this kind must bypass the converter.
pub fn affects(c: char) -> (r: bool)
    ensures
        r == spec_affects(c),
{
    c == '"' || c == '\'' || c == '-' || c == '.'
}

/// The quote state: whether the next `"` opens, whether the next `'` opens.
pub struct QuoteState {
    pub double_opens: bool,
    pub single_opens: bool,
}

/// What converting `t[i..]` produces, and the quote state afterwards.
pub struct SmartV {
    pub out: Seq<char>,
    pub state: QuoteState,
}

/// Whether `t[i..]` starts with `c` repeated `n` times.
pub open spec fn run_at(t: Seq<char>, i: int, c: char, n: int) -> bool {
    i + n <= t.len() && forall|k: int| i <= k < i + n ==> t[k] == c
}

/// Converts `t[i..]` from the given quote state.
pub open spec fn smart_from(t: Seq<char>, i: int, st: QuoteState) -> SmartV
    decreases t.len() - i,
{
    if i < 0 || i >= t.len() {
        SmartV { out: Seq::empty(), state: st }
    } else {
        let c = t[i];
        if c == '.' && run_at(t, i, '.', 3) {
            let r = smart_from(t, i + 3, st);
            SmartV { out: seq!['…'] + r.out, state: r.state }
        } else if c == '-' && run_at(t, i, '-', 3) {
            let r = smart_from(t, i + 3, st);
            SmartV { out: seq!['—'] + r.out, state: r.state }
        } else if c == '-' && run_at(t, i, '-', 2) {
            let r = smart_from(t, i + 2, st);
            SmartV { out: seq!['–'] + r.out, state: r.state }
        } else if c == '"' {
            let r = smart_from(
                t,
                i + 1,
                QuoteState { double_opens: !st.double_opens, single_opens: st.single_opens },
            );
            SmartV {
                out: seq![
                    if st.double_opens {
                        '“'
                    } else {
                        '”'
                    },
                ] + r.out,
                state: r.state,
            }
        } else if c == '\'' {
            if i > 0 && char_is_alphanumeric(t[i - 1]) {
                let r = smart_from(t, i + 1, st);
                SmartV { out: seq!['’'] + r.out, state: r.state }
            } else {
                let r = smart_from(
                    t,
                    i + 1,
                    QuoteState { double_opens: st.double_opens, single_opens: !st.single_opens },
                );
                SmartV {
                    out: seq![
                        if st.single_opens {
                            '‘'
                        } else {
                            '’'
                        },
                    ] + r.out,
                    state: r.state,
                }
            }
        } else {
            let r = smart_from(t, i + 1, st);
            SmartV { out: seq![c] + r.out, state: r.state }
        }
    }
}

/// Text without any of the characters smart punctuation rewrites comes out as it
/// went in, and the quote state does not change.
pub proof fn plain_text_is_untouched(t: Seq<char>, i: int, st: QuoteState)
    requires
        0 <= i <= t.len(),
        forall|k: int| i <= k < t.len() ==> !spec_affects(#[trigger] t[k]),
    ensures
        smart_from(t, i, st).out == t.subrange(i, t.len() as int),
        smart_from(t, i, st).state == st,
    decreases t.len() - i,
{
    if i < t.len() {
        plain_text_is_untouched(t, i + 1, st);
        assert(seq![t[i]] + t.subrange(i + 1, t.len() as int) =~= t.subrange(i, t.len() as int));
    } else {
        assert(t.subrange(i, t.len() as int) =~= Seq::<char>::empty());
    }
}

/// `t[k]` is an apostrophe: a `'` right after a letter or digit.
pub open spec fn is_apostrophe(t: Seq<char>, k: int) -> bool {
    t[k] == '\'' && k > 0 && char_is_alphanumeric(t[k - 1])
}

/// How many of `t[i..]` are quote marks of kind `q` (`"` or `'`); an apostrophe is
/// not a quote mark.
pub open spec fn quote_marks(t: Seq<char>, i: int, q: char) -> nat
    decreases t.len() - i,
{
    if i < 0 || i >= t.len() {
        0
    } else {
        (if t[i] == q && !is_apostrophe(t, i) {
            1nat
        } else {
            0nat
        }) + quote_marks(t, i + 1, q)
    }
}

/// A run of dots or dashes holds no quote mark.
proof fn lemma_run_no_quotes(t: Seq<char>, i: int, c: char, n: int, q: char)
    requires
        0 <= i,
        0 <= n,
        run_at(t, i, c, n),
        c != q,
    ensures
        quote_marks(t, i, q) == quote_marks(t, i + n, q),
    decreases n,
{
    if n > 0 {
        lemma_run_no_quotes(t, i + 1, c, n - 1, q);
    }
}

/// Each quote mark flips the state of its kind, and nothing else does: after
/// `t[i..]` a kind of quote opens next exactly when it did before and an even number
/// of its quote marks went by. Apostrophes (as in `don't`), dashes and ellipses
/// leave the state alone.
pub proof fn quote_state_counts_quote_marks(t: Seq<char>, i: int, st: QuoteState)
    requires
        0 <= i,
    ensures
        smart_from(t, i, st).state == (QuoteState {
            double_opens: st.double_opens == (quote_marks(t, i, '"') % 2 == 0),
            single_opens: st.single_opens == (quote_marks(t, i, '\'') % 2 == 0),
        }),
    decreases t.len() - i,
{
    if i < t.len() {
        let c = t[i];
        if c == '.' && run_at(t, i, '.', 3) {
            quote_state_counts_quote_marks(t, i + 3, st);
            lemma_run_no_quotes(t, i, '.', 3, '"');
            lemma_run_no_quotes(t, i, '.', 3, '\'');
        } else if c == '-' && run_at(t, i, '-', 3) {
            quote_state_counts_quote_marks(t, i + 3, st);
            lemma_run_no_quotes(t, i, '-', 3, '"');
            lemma_run_no_quotes(t, i, '-', 3, '\'');
        } else if c == '-' && run_at(t, i, '-', 2) {
            quote_state_counts_quote_marks(t, i + 2, st);
            lemma_run_no_quotes(t, i, '-', 2, '"');
            lemma_run_no_quotes(t, i, '-', 2, '\'');
        } else if c == '"' {
            quote_state_counts_quote_marks(
                t,
                i + 1,
                QuoteState { double_opens: !st.double_opens, single_opens: st.single_opens },
            );
        } else if c == '\'' {
            if i > 0 && char_is_alphanumeric(t[i - 1]) {
                quote_state_counts_quote_marks(t, i + 1, st);
            } else {
                quote_state_counts_quote_marks(
                    t,
                    i + 1,
                    QuoteState { double_opens: st.double_opens, single_opens: !st.single_opens },
                );
            }
        } else {
            quote_state_counts_quote_marks(t, i + 1, st);
        }
    }
}

/// An apostrophe comes out as `’` and leaves the quote state as it was, so the
/// quotes after `don't` are paired as if it were not there.
pub proof fn apostrophes_leave_quotes_alone(t: Seq<char>, i: int, st: QuoteState)
    requires
        0 < i < t.len(),
        is_apostrophe(t, i),
    ensures
        smart_from(t, i, st).out == seq!['’'] + smart_from(t, i + 1, st).out,
        smart_from(t, i, st).state == smart_from(t, i + 1, st).state,
        quote_marks(t, i, '\'') == quote_marks(t, i + 1, '\''),
{
}

/// The smart punctuation converter. Its quote state carries over between calls.
pub struct Converter {
    enabled: bool,
    next_double_opens: bool,
    next_single_opens: bool,
}

impl Converter {
    /// Whether the converter rewrites anything.
    pub closed spec fn is_enabled(&self) -> bool {
        self.enabled
    }

    /// The current quote state.
    pub closed spec fn state(&self) -> QuoteState {
        QuoteState { double_opens: self.next_double_opens, single_opens: self.next_single_opens }
    }

    /// A converter; both kinds of quote open first.
    pub fn new(enabled: bool) -> (r: Self)
        ensures
            r.is_enabled() == enabled,
            r.state() == (QuoteState { double_opens: true, single_opens: true }),
    {
        Converter { enabled, next_double_opens: true, next_single_opens: true }
    }

    /// Converts a piece of plain text.
    pub fn apply_chars(&mut self, text: &[char]) -> (r: Vec<char>)
        ensures
            final(self).is_enabled() == old(self).is_enabled(),
            old(self).is_enabled() ==> r@ == smart_from(text@, 0, old(self).state()).out
                && final(self).state() == smart_from(text@, 0, old(self).state()).state,
            !old(self).is_enabled() ==> r@ == text@ && final(self).state() == old(self).state(),
    {
        if !self.enabled {
            let mut out: Vec<char> = Vec::new();
            crate::text::extend_chars(&mut out, text);
            return out;
        }
        let n = text.len();
        let mut out: Vec<char> = Vec::new();
        let mut i: usize = 0;
        let ghost whole = smart_from(text@, 0, self.state());
        while i < n
            invariant
                n == text@.len(),
                i <= n,
                self.enabled,
                out@ + smart_from(text@, i as int, self.state()).out == whole.out,
                smart_from(text@, i as int, self.state()).state == whole.state,
            decreases n - i,
        {
            let c = text[i];
            if c == '.' && n - i >= 3 && text[i + 1] == '.' && text[i + 2] == '.' {
                assert(run_at(text@, i as int, '.', 3));
                out.push('…');
                i += 3;
            } else if c == '-' && n - i >= 3 && text[i + 1] == '-' && text[i + 2] == '-' {
                assert(run_at(text@, i as int, '-', 3));
                out.push('—');
                i += 3;
            } else if c == '-' && n - i >= 2 && text[i + 1] == '-' {
                assert(!run_at(text@, i as int, '-', 3));
                assert(run_at(text@, i as int, '-', 2));
                out.push('–');
                i += 2;
            } else if c == '"' {
                proof {
                    if c == '.' {
                        assert(!run_at(text@, i as int, '.', 3));
                    }
                }
                out.push(
                    if self.next_double_opens {
                        '“'
                    } else {
                        '”'
                    },
                );
                self.next_double_opens = !self.next_double_opens;
                i += 1;
            } else if c == '\'' {
                if i > 0 && is_alphanumeric(text[i - 1]) {
                    out.push('’');
                } else if self.next_single_opens {
                    out.push('‘');
                    self.next_single_opens = false;
                } else {
                    out.push('’');
                    self.next_single_opens = true;
                }
                i += 1;
            } else {
                proof {
                    if c == '.' {
                        assert(!run_at(text@, i as int, '.', 3));
                    }
                    if c == '-' {
                        assert(!run_at(text@, i as int, '-', 3));
                        assert(!run_at(text@, i as int, '-', 2));
                    }
                }
                out.push(c);
                i += 1;
            }
        }
        assert(out@ + Seq::<char>::empty() =~= out@);
        out
    }

    /// Converts a piece of plain text.
    pub fn apply(&mut self, text: &str) -> (r: String)
        ensures
            final(self).is_enabled() == old(self).is_enabled(),
            old(self).is_enabled() ==> r@ == smart_from(text@, 0, old(self).state()).out
                && final(self).state() == smart_from(text@, 0, old(self).state()).state,
            !old(self).is_enabled() ==> r@ == text@ && final(self).state() == old(self).state(),
    {
        let chars = str_chars(text);
        let out = self.apply_chars(chars.as_slice());
        chars_to_string(out.as_slice())
    }
}

} // verus!
