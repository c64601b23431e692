//! Links: `[[text => target]]`.
//!
//! The inside of a link runs to the first `]]`. It splits at the last `=>`, so the
//! text may hold arrows; a target in double quotes is taken as it is and may hold
//! spaces and arrows. Without an arrow the brackets stay literal text.

use vstd::prelude::*;

verus! {

// ── specification ─────────────────────────────────────────────────────────

/// The first `]]` at or after `from`: the index of its first `]`.
pub open spec fn link_close(t: Seq<char>, from: int) -> Option<int>
    decreases t.len() - from,
{
    if from < 0 || from + 1 >= t.len() {
        None
    } else if t[from] == ']' && t[from + 1] == ']' {
        Some(from)
    } else {
        link_close(t, from + 1)
    }
}

/// The last `=>` that ends at or before `k`: the index of its `=`.
pub open spec fn last_arrow(s: Seq<char>, k: int) -> Option<int>
    decreases k,
{
    if k < 2 || k > s.len() {
        None
    } else if s[k - 2] == '=' && s[k - 1] == '>' {
        Some(k - 2)
    } else {
        last_arrow(s, k - 1)
    }
}

/// The last `"` before `k`.
pub open spec fn last_quote(s: Seq<char>, k: int) -> Option<int>
    decreases k,
{
    if k <= 0 || k > s.len() {
        None
    } else if s[k - 1] == '"' {
        Some(k - 1)
    } else {
        last_quote(s, k - 1)
    }
}

/// `s` without its trailing spaces.
pub open spec fn trim_end_spaces(s: Seq<char>) -> Seq<char>
    decreases s.len(),
{
    if s.len() > 0 && s.last() == ' ' {
        trim_end_spaces(s.drop_last())
    } else {
        s
    }
}

/// `s` without its leading spaces.
pub open spec fn trim_start_spaces(s: Seq<char>) -> Seq<char>
    decreases s.len(),
{
    if s.len() > 0 && s[0] == ' ' {
        trim_start_spaces(s.drop_first())
    } else {
        s
    }
}

/// `text => "target"`: the text and the target between the quotes.
pub open spec fn quoted_link(s: Seq<char>) -> Option<(Seq<char>, Seq<char>)> {
    if s.len() >= 2 && s.last() == '"' {
        match last_quote(s, s.len() - 1) {
            Some(q) => {
                let pre = trim_end_spaces(s.take(q));
                if pre.len() >= 2 && pre[pre.len() - 2] == '=' && pre[pre.len() - 1] == '>' {
                    Some((trim_end_spaces(pre.take(pre.len() - 2)), s.subrange(q + 1, s.len() - 1)))
                } else {
                    None
                }
            },
            None => None,
        }
    } else {
        None
    }
}

/// The text and target of the inside of a link: a quoted target first, else a
/// split at the last arrow with the spaces around it dropped; nothing without an
/// arrow.
pub open spec fn split_link(inside: Seq<char>) -> Option<(Seq<char>, Seq<char>)> {
    let s = trim_end_spaces(inside);
    match quoted_link(s) {
        Some(r) => Some(r),
        None => match last_arrow(s, s.len() as int) {
            Some(a) => Some((trim_end_spaces(s.take(a)), trim_start_spaces(s.skip(a + 2)))),
            None => None,
        },
    }
}

/// A link at `t[i..]`: its text, its target and the index after its `]]`.
pub open spec fn spec_link_at(t: Seq<char>, i: int) -> Option<(Seq<char>, Seq<char>, int)> {
    if 0 <= i && i + 1 < t.len() && t[i] == '[' && t[i + 1] == '[' {
        match link_close(t, i + 2) {
            Some(j) => match split_link(t.subrange(i + 2, j)) {
                Some((text, target)) => Some((text, target, j + 2)),
                None => None,
            },
            None => None,
        }
    } else {
        None
    }
}

/// The closing `]]` lies ahead and within the text.
pub proof fn lemma_link_close(t: Seq<char>, from: int)
    ensures
        link_close(t, from) matches Some(j) ==> 0 <= from <= j && j + 1 < t.len(),
    decreases t.len() - from,
{
    if 0 <= from && from + 1 < t.len() && !(t[from] == ']' && t[from + 1] == ']') {
        lemma_link_close(t, from + 1);
    }
}

/// Trimming keeps a prefix.
pub proof fn lemma_trim_end(s: Seq<char>)
    ensures
        trim_end_spaces(s).len() <= s.len(),
        trim_end_spaces(s) == s.take(trim_end_spaces(s).len() as int),
    decreases s.len(),
{
    if s.len() > 0 && s.last() == ' ' {
        lemma_trim_end(s.drop_last());
        assert(s.drop_last().take(trim_end_spaces(s).len() as int) =~= s.take(
            trim_end_spaces(s).len() as int,
        ));
    } else {
        assert(s.take(s.len() as int) =~= s);
    }
}

/// The arrow found lies within the text.
pub proof fn lemma_last_arrow(s: Seq<char>, k: int)
    ensures
        last_arrow(s, k) matches Some(a) ==> 0 <= a && a + 2 <= k <= s.len(),
    decreases k,
{
    if 2 <= k <= s.len() && !(s[k - 2] == '=' && s[k - 1] == '>') {
        lemma_last_arrow(s, k - 1);
    }
}

/// The quote found lies before `k`.
pub proof fn lemma_last_quote(s: Seq<char>, k: int)
    ensures
        last_quote(s, k) matches Some(q) ==> 0 <= q < k <= s.len(),
    decreases k,
{
    if 0 < k <= s.len() && s[k - 1] != '"' {
        lemma_last_quote(s, k - 1);
    }
}

/// The text of a link is shorter than what holds it.
pub proof fn lemma_link_text_shorter(t: Seq<char>, i: int)
    ensures
        spec_link_at(t, i) matches Some((text, target, e)) ==> text.len() < t.len() && i + 2 <= e
            <= t.len(),
{
    if 0 <= i && i + 1 < t.len() && t[i] == '[' && t[i + 1] == '[' {
        lemma_link_close(t, i + 2);
        if let Some(j) = link_close(t, i + 2) {
            let inside = t.subrange(i + 2, j);
            let s = trim_end_spaces(inside);
            lemma_trim_end(inside);
            if let Some((text, target)) = split_link(inside) {
                if let Some(r) = quoted_link(s) {
                    lemma_last_quote(s, s.len() - 1);
                    let q = last_quote(s, s.len() - 1)->0;
                    let pre = trim_end_spaces(s.take(q));
                    lemma_trim_end(s.take(q));
                    lemma_trim_end(pre.take(pre.len() - 2));
                } else {
                    lemma_last_arrow(s, s.len() as int);
                    let a = last_arrow(s, s.len() as int)->0;
                    lemma_trim_end(s.take(a));
                }
            }
        }
    }
}

// ── execution ──────────────────────────────────────────────────────────────

/// The first `]]` at or after `from`.
pub fn find_link_close(t: &[char], from: usize) -> (r: Option<usize>)
    ensures
        match r {
            Some(j) => link_close(t@, from as int) == Some(j as int),
            None => link_close(t@, from as int) is None,
        },
{
    let mut k = from;
    while k < t.len() && t.len() - k >= 2
        invariant
            from <= k,
            link_close(t@, k as int) == link_close(t@, from as int),
        decreases t.len() - k,
    {
        if t[k] == ']' && t[k + 1] == ']' {
            return Some(k);
        }
        k += 1;
    }
    None
}

/// How many characters are left of `s[..k]` once its trailing spaces go.
fn trim_end_len(s: &[char], k: usize) -> (r: usize)
    requires
        k <= s.len(),
    ensures
        r <= k,
        s@.take(r as int) == trim_end_spaces(s@.take(k as int)),
{
    let mut e = k;
    while e > 0 && s[e - 1] == ' '
        invariant
            e <= k <= s.len(),
            trim_end_spaces(s@.take(e as int)) == trim_end_spaces(s@.take(k as int)),
        decreases e,
    {
        assert(s@.take(e as int).drop_last() =~= s@.take(e - 1));
        e -= 1;
    }
    assert(trim_end_spaces(s@.take(e as int)) == s@.take(e as int));
    e
}

/// Where `s[from..]` starts once its leading spaces go.
fn trim_start_from(s: &[char], from: usize) -> (r: usize)
    requires
        from <= s.len(),
    ensures
        from <= r <= s.len(),
        s@.skip(r as int) == trim_start_spaces(s@.skip(from as int)),
{
    let mut b = from;
    while b < s.len() && s[b] == ' '
        invariant
            from <= b <= s.len(),
            trim_start_spaces(s@.skip(b as int)) == trim_start_spaces(s@.skip(from as int)),
        decreases s.len() - b,
    {
        assert(s@.skip(b as int).drop_first() =~= s@.skip(b + 1));
        b += 1;
    }
    assert(trim_start_spaces(s@.skip(b as int)) == s@.skip(b as int));
    b
}

/// The last `=>` ending at or before `k`.
fn find_last_arrow(s: &[char], k: usize) -> (r: Option<usize>)
    requires
        k <= s.len(),
    ensures
        match r {
            Some(a) => last_arrow(s@, k as int) == Some(a as int),
            None => last_arrow(s@, k as int) is None,
        },
{
    let mut e = k;
    while e >= 2
        invariant
            e <= k <= s.len(),
            last_arrow(s@, e as int) == last_arrow(s@, k as int),
        decreases e,
    {
        if s[e - 2] == '=' && s[e - 1] == '>' {
            return Some(e - 2);
        }
        e -= 1;
    }
    None
}

/// The last `"` before `k`.
fn find_last_quote(s: &[char], k: usize) -> (r: Option<usize>)
    requires
        k <= s.len(),
    ensures
        match r {
            Some(q) => last_quote(s@, k as int) == Some(q as int),
            None => last_quote(s@, k as int) is None,
        },
{
    let mut e = k;
    while e > 0
        invariant
            e <= k <= s.len(),
            last_quote(s@, e as int) == last_quote(s@, k as int),
        decreases e,
    {
        if s[e - 1] == '"' {
            return Some(e - 1);
        }
        e -= 1;
    }
    None
}

/// The text and target of the inside of a link, if it has an arrow.
pub fn link_parts(inside: &[char]) -> (r: Option<(Vec<char>, Vec<char>)>)
    ensures
        match r {
            Some((text, target)) => split_link(inside@) == Some((text@, target@)),
            None => split_link(inside@) is None,
        },
{
    let n = trim_end_len(inside, inside.len());
    assert(inside@.take(inside.len() as int) =~= inside@);
    let s = crate::text::copy_range(inside, 0, n);
    let ghost sv = trim_end_spaces(inside@);
    assert(s@ =~= sv);
    if n >= 2 && s[n - 1] == '"' {
        match find_last_quote(s.as_slice(), n - 1) {
            Some(q) => {
                proof {
                    lemma_last_quote(sv, n - 1);
                }
                let p = trim_end_len(s.as_slice(), q);
                if p >= 2 && s[p - 2] == '=' && s[p - 1] == '>' {
                    let t = trim_end_len(s.as_slice(), p - 2);
                    let text = crate::text::copy_range(s.as_slice(), 0, t);
                    let target = crate::text::copy_range(s.as_slice(), q + 1, n - 1);
                    proof {
                        let pre = trim_end_spaces(sv.take(q as int));
                        assert(pre == sv.take(p as int));
                        assert(pre.take(pre.len() - 2) =~= sv.take(p - 2));
                        assert(text@ =~= sv.take(t as int));
                        assert(sv.take(p - 2).take(t as int) =~= sv.take(t as int));
                        assert(target@ =~= sv.subrange(q + 1, n - 1));
                    }
                    return Some((text, target));
                }
                proof {
                    let pre = trim_end_spaces(sv.take(q as int));
                    assert(pre == sv.take(p as int));
                }
            },
            None => {},
        }
    }
    match find_last_arrow(s.as_slice(), n) {
        Some(a) => {
            proof {
                lemma_last_arrow(sv, n as int);
            }
            let t = trim_end_len(s.as_slice(), a);
            let b = trim_start_from(s.as_slice(), a + 2);
            let text = crate::text::copy_range(s.as_slice(), 0, t);
            let target = crate::text::copy_range(s.as_slice(), b, n);
            proof {
                assert(text@ =~= sv.take(t as int));
                assert(target@ =~= sv.skip(b as int));
                assert(quoted_link(sv) is None);
            }
            Some((text, target))
        },
        None => {
            proof {
                assert(quoted_link(sv) is None);
            }
            None
        },
    }
}

} // verus!
