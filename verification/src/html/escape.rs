//! Escaping text and attribute values, and checking names that go into tags.

use vstd::prelude::*;
use crate::text::{extend_chars, str_chars};

verus! {

/// What a character of body text becomes: `&` `<` `>` are escaped.
pub open spec fn escape_text_char(c: char) -> Seq<char> {
    if c == '&' {
        seq!['&', 'a', 'm', 'p', ';']
    } else if c == '<' {
        seq!['&', 'l', 't', ';']
    } else if c == '>' {
        seq!['&', 'g', 't', ';']
    } else {
        seq![c]
    }
}

/// What a character of an attribute value becomes: also `"` and `'`.
pub open spec fn escape_attr_char(c: char) -> Seq<char> {
    if c == '"' {
        seq!['&', 'q', 'u', 'o', 't', ';']
    } else if c == '\'' {
        seq!['&', '#', '3', '9', ';']
    } else {
        escape_text_char(c)
    }
}

/// Escaped body text.
pub open spec fn spec_escape_text(s: Seq<char>) -> Seq<char>
    decreases s.len(),
{
    if s.len() == 0 {
        Seq::empty()
    } else {
        spec_escape_text(s.drop_last()) + escape_text_char(s.last())
    }
}

/// An escaped attribute value.
pub open spec fn spec_escape_attr(s: Seq<char>) -> Seq<char>
    decreases s.len(),
{
    if s.len() == 0 {
        Seq::empty()
    } else {
        spec_escape_attr(s.drop_last()) + escape_attr_char(s.last())
    }
}

/// Escaped body text holds no `<` and no `>`: text cannot open or close a tag.
pub proof fn escaped_text_has_no_angle_brackets(s: Seq<char>)
    ensures
        forall|i: int|
            0 <= i < spec_escape_text(s).len() ==> spec_escape_text(s)[i] != '<'
                && spec_escape_text(s)[i] != '>',
    decreases s.len(),
{
    if s.len() > 0 {
        escaped_text_has_no_angle_brackets(s.drop_last());
        let a = spec_escape_text(s.drop_last());
        let b = escape_text_char(s.last());
        assert forall|i: int| 0 <= i < spec_escape_text(s).len() implies spec_escape_text(s)[i]
            != '<' && spec_escape_text(s)[i] != '>' by {
            if i < a.len() {
                assert(spec_escape_text(s)[i] == a[i]);
            } else {
                assert(spec_escape_text(s)[i] == b[i - a.len()]);
            }
        }
    }
}

/// An escaped attribute value holds no `"`, `'`, `<` or `>`: a value cannot end its
/// attribute or its tag.
pub proof fn escaped_attr_has_no_quotes_or_angle_brackets(s: Seq<char>)
    ensures
        forall|i: int|
            0 <= i < spec_escape_attr(s).len() ==> spec_escape_attr(s)[i] != '<'
                && spec_escape_attr(s)[i] != '>' && spec_escape_attr(s)[i] != '"'
                && spec_escape_attr(s)[i] != '\'',
    decreases s.len(),
{
    if s.len() > 0 {
        escaped_attr_has_no_quotes_or_angle_brackets(s.drop_last());
        let a = spec_escape_attr(s.drop_last());
        let b = escape_attr_char(s.last());
        assert forall|i: int| 0 <= i < spec_escape_attr(s).len() implies spec_escape_attr(s)[i]
            != '<' && spec_escape_attr(s)[i] != '>' && spec_escape_attr(s)[i] != '"'
            && spec_escape_attr(s)[i] != '\'' by {
            if i < a.len() {
                assert(spec_escape_attr(s)[i] == a[i]);
            } else {
                assert(spec_escape_attr(s)[i] == b[i - a.len()]);
            }
        }
    }
}

/// Appends a literal.
pub fn push_str(out: &mut Vec<char>, s: &str)
    ensures
        final(out)@ == old(out)@ + s@,
{
    let v = str_chars(s);
    extend_chars(out, v.as_slice());
}

/// Appends body text, escaping `&`, `<` and `>`.
pub fn escape_text(text: &[char], out: &mut Vec<char>)
    ensures
        final(out)@ == old(out)@ + spec_escape_text(text@),
{
    let mut i: usize = 0;
    assert(text@.take(0) =~= Seq::<char>::empty());
    while i < text.len()
        invariant
            i <= text.len(),
            out@ == old(out)@ + spec_escape_text(text@.take(i as int)),
        decreases text.len() - i,
    {
        let c = text[i];
        let ghost before = out@;
        if c == '&' {
            out.push('&');
            out.push('a');
            out.push('m');
            out.push('p');
            out.push(';');
        } else if c == '<' {
            out.push('&');
            out.push('l');
            out.push('t');
            out.push(';');
        } else if c == '>' {
            out.push('&');
            out.push('g');
            out.push('t');
            out.push(';');
        } else {
            out.push(c);
        }
        proof {
            assert(out@ =~= before + escape_text_char(c));
            assert(text@.take(i + 1).drop_last() =~= text@.take(i as int));
            assert(text@.take(i + 1).last() == c);
        }
        i += 1;
    }
    assert(text@.take(text.len() as int) =~= text@);
}

/// Appends an attribute value, escaping `&` `<` `>` `"` `'`.
pub fn escape_attr(text: &[char], out: &mut Vec<char>)
    ensures
        final(out)@ == old(out)@ + spec_escape_attr(text@),
{
    let mut i: usize = 0;
    assert(text@.take(0) =~= Seq::<char>::empty());
    while i < text.len()
        invariant
            i <= text.len(),
            out@ == old(out)@ + spec_escape_attr(text@.take(i as int)),
        decreases text.len() - i,
    {
        let c = text[i];
        let ghost before = out@;
        if c == '&' {
            out.push('&');
            out.push('a');
            out.push('m');
            out.push('p');
            out.push(';');
        } else if c == '<' {
            out.push('&');
            out.push('l');
            out.push('t');
            out.push(';');
        } else if c == '>' {
            out.push('&');
            out.push('g');
            out.push('t');
            out.push(';');
        } else if c == '"' {
            out.push('&');
            out.push('q');
            out.push('u');
            out.push('o');
            out.push('t');
            out.push(';');
        } else if c == '\'' {
            out.push('&');
            out.push('#');
            out.push('3');
            out.push('9');
            out.push(';');
        } else {
            out.push(c);
        }
        proof {
            assert(out@ =~= before + escape_attr_char(c));
            assert(text@.take(i + 1).drop_last() =~= text@.take(i as int));
            assert(text@.take(i + 1).last() == c);
        }
        i += 1;
    }
    assert(text@.take(text.len() as int) =~= text@);
}

/// A character allowed in an attribute or tag name: `[A-Za-z0-9_:.-]`.
pub open spec fn spec_attr_name_char(c: char) -> bool {
    ('a' <= c <= 'z') || ('A' <= c <= 'Z') || ('0' <= c <= '9') || c == '-' || c == '_' || c
        == ':' || c == '.'
}

/// Attribute and tag names: non-empty, and only `[A-Za-z0-9_:.-]`. Parameter keys
/// are user input and must not be spliced into a tag otherwise.
pub open spec fn spec_is_valid_attr_name(name: Seq<char>) -> bool {
    name.len() > 0 && forall|i: int| 0 <= i < name.len() ==> spec_attr_name_char(#[trigger] name[i])
}

/// Whether `name` may be written as an attribute or tag name.
pub fn is_valid_attr_name(name: &[char]) -> (r: bool)
    ensures
        r == spec_is_valid_attr_name(name@),
{
    if name.len() == 0 {
        return false;
    }
    let mut i: usize = 0;
    while i < name.len()
        invariant
            i <= name.len(),
            forall|j: int| 0 <= j < i ==> spec_attr_name_char(#[trigger] name@[j]),
        decreases name.len() - i,
    {
        let c = name[i];
        if !(('a' <= c && c <= 'z') || ('A' <= c && c <= 'Z') || ('0' <= c && c <= '9') || c
            == '-' || c == '_' || c == ':' || c == '.') {
            assert(!spec_attr_name_char(name@[i as int]));
            return false;
        }
        i += 1;
    }
    true
}

/// ASCII lower-casing of one character.
pub open spec fn ascii_lower(c: char) -> char {
    if 'A' <= c <= 'Z' {
        ((c as u32) + 32) as char
    } else {
        c
    }
}

/// Equality ignoring ASCII case (`str::eq_ignore_ascii_case`).
pub open spec fn spec_eq_ignore_ascii_case(a: Seq<char>, b: Seq<char>) -> bool {
    a.len() == b.len() && forall|i: int| 0 <= i < a.len() ==> ascii_lower(#[trigger] a[i])
        == ascii_lower(b[i])
}

/// Equality ignoring ASCII case.
pub fn eq_ignore_ascii_case(a: &[char], b: &[char]) -> (r: bool)
    ensures
        r == spec_eq_ignore_ascii_case(a@, b@),
{
    if a.len() != b.len() {
        return false;
    }
    let mut i: usize = 0;
    while i < a.len()
        invariant
            i <= a.len(),
            a.len() == b.len(),
            forall|j: int| 0 <= j < i ==> ascii_lower(#[trigger] a@[j]) == ascii_lower(b@[j]),
        decreases a.len() - i,
    {
        let x = a[i];
        let y = b[i];
        let lx = if 'A' <= x && x <= 'Z' {
            char_from_ascii((x as u8) + 32)
        } else {
            x
        };
        let ly = if 'A' <= y && y <= 'Z' {
            char_from_ascii((y as u8) + 32)
        } else {
            y
        };
        proof {
            assert(lx == ascii_lower(x)) by {
                if 'A' <= x <= 'Z' {
                    assert(((x as u8) + 32) as char == ((x as u32) + 32) as char);
                }
            }
            assert(ly == ascii_lower(y)) by {
                if 'A' <= y <= 'Z' {
                    assert(((y as u8) + 32) as char == ((y as u32) + 32) as char);
                }
            }
        }
        if lx != ly {
            return false;
        }
        i += 1;
    }
    true
}

/// An ASCII byte as a character.
fn char_from_ascii(b: u8) -> (r: char)
    requires
        b < 128,
    ensures
        r == b as char,
{
    b as char
}

/// The HTML void elements: they have no closing tag.
pub const VOID_ELEMENTS: [&'static str; 14] = [
    "area",
    "base",
    "br",
    "col",
    "embed",
    "hr",
    "img",
    "input",
    "link",
    "meta",
    "param",
    "source",
    "track",
    "wbr",
];

/// Whether `tag` names a void element, ignoring ASCII case.
pub open spec fn spec_is_void(tag: Seq<char>) -> bool {
    exists|i: int| 0 <= i < 14 && spec_eq_ignore_ascii_case(#[trigger] VOID_ELEMENTS[i]@, tag)
}

/// Whether `tag` names a void element.
pub fn is_void(tag: &[char]) -> (r: bool)
    ensures
        r == spec_is_void(tag@),
{
    let mut i: usize = 0;
    while i < 14
        invariant
            i <= 14,
            forall|j: int| 0 <= j < i ==> !spec_eq_ignore_ascii_case(#[trigger] VOID_ELEMENTS[j]@, tag@),
        decreases 14 - i,
    {
        let v = str_chars(VOID_ELEMENTS[i]);
        if eq_ignore_ascii_case(v.as_slice(), tag) {
            return true;
        }
        i += 1;
    }
    false
}

} // verus!
