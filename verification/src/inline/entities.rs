//! HTML entity references.
//!
//! All numeric references (`&#35;`, `&#x22;`) are supported, plus a table of the
//! commonly used named ones. Unknown names are left as they are, which is also
//! what CommonMark does with invalid references.

use vstd::prelude::*;
use crate::ast::params::{ParamV, spec_get};
use crate::text::{
    char_from_u32, chars_to_string, copy_range, find_char, find_from, lemma_find_from, parse_u32,
    spec_parse_u32, str_chars, str_eq,
};

verus! {

pub const ENTITIES: [(&'static str, &'static str); 191] = [
    ("amp", "&"),
    ("lt", "<"),
    ("gt", ">"),
    ("quot", "\""),
    ("apos", "'"),
    ("nbsp", "\u{a0}"),
    ("iexcl", "¡"),
    ("cent", "¢"),
    ("pound", "£"),
    ("curren", "¤"),
    ("yen", "¥"),
    ("brvbar", "¦"),
    ("sect", "§"),
    ("uml", "¨"),
    ("copy", "©"),
    ("ordf", "ª"),
    ("laquo", "«"),
    ("not", "¬"),
    ("shy", "\u{ad}"),
    ("reg", "®"),
    ("macr", "¯"),
    ("deg", "°"),
    ("plusmn", "±"),
    ("sup2", "²"),
    ("sup3", "³"),
    ("acute", "´"),
    ("micro", "µ"),
    ("para", "¶"),
    ("middot", "·"),
    ("cedil", "¸"),
    ("sup1", "¹"),
    ("ordm", "º"),
    ("raquo", "»"),
    ("frac14", "¼"),
    ("frac12", "½"),
    ("frac34", "¾"),
    ("iquest", "¿"),
    ("times", "×"),
    ("divide", "÷"),
    ("fnof", "ƒ"),
    ("OElig", "Œ"),
    ("oelig", "œ"),
    ("Scaron", "Š"),
    ("scaron", "š"),
    ("Yuml", "Ÿ"),
    ("circ", "ˆ"),
    ("tilde", "˜"),
    ("ensp", "\u{2002}"),
    ("emsp", "\u{2003}"),
    ("thinsp", "\u{2009}"),
    ("zwnj", "\u{200c}"),
    ("zwj", "\u{200d}"),
    ("lrm", "\u{200e}"),
    ("rlm", "\u{200f}"),
    ("ndash", "–"),
    ("mdash", "—"),
    ("lsquo", "‘"),
    ("rsquo", "’"),
    ("sbquo", "‚"),
    ("ldquo", "“"),
    ("rdquo", "”"),
    ("bdquo", "„"),
    ("dagger", "†"),
    ("Dagger", "‡"),
    ("bull", "•"),
    ("hellip", "…"),
    ("permil", "‰"),
    ("prime", "′"),
    ("Prime", "″"),
    ("lsaquo", "‹"),
    ("rsaquo", "›"),
    ("oline", "‾"),
    ("frasl", "⁄"),
    ("euro", "€"),
    ("trade", "™"),
    ("Alpha", "Α"),
    ("Beta", "Β"),
    ("Gamma", "Γ"),
    ("Delta", "Δ"),
    ("Epsilon", "Ε"),
    ("Zeta", "Ζ"),
    ("Eta", "Η"),
    ("Theta", "Θ"),
    ("Iota", "Ι"),
    ("Kappa", "Κ"),
    ("Lambda", "Λ"),
    ("Mu", "Μ"),
    ("Nu", "Ν"),
    ("Xi", "Ξ"),
    ("Omicron", "Ο"),
    ("Pi", "Π"),
    ("Rho", "Ρ"),
    ("Sigma", "Σ"),
    ("Tau", "Τ"),
    ("Upsilon", "Υ"),
    ("Phi", "Φ"),
    ("Chi", "Χ"),
    ("Psi", "Ψ"),
    ("Omega", "Ω"),
    ("alpha", "α"),
    ("beta", "β"),
    ("gamma", "γ"),
    ("delta", "δ"),
    ("epsilon", "ε"),
    ("zeta", "ζ"),
    ("eta", "η"),
    ("theta", "θ"),
    ("iota", "ι"),
    ("kappa", "κ"),
    ("lambda", "λ"),
    ("mu", "μ"),
    ("nu", "ν"),
    ("xi", "ξ"),
    ("omicron", "ο"),
    ("pi", "π"),
    ("rho", "ρ"),
    ("sigmaf", "ς"),
    ("sigma", "σ"),
    ("tau", "τ"),
    ("upsilon", "υ"),
    ("phi", "φ"),
    ("chi", "χ"),
    ("psi", "ψ"),
    ("omega", "ω"),
    ("thetasym", "ϑ"),
    ("upsih", "ϒ"),
    ("piv", "ϖ"),
    ("alefsym", "ℵ"),
    ("weierp", "℘"),
    ("image", "ℑ"),
    ("real", "ℜ"),
    ("larr", "←"),
    ("uarr", "↑"),
    ("rarr", "→"),
    ("darr", "↓"),
    ("harr", "↔"),
    ("crarr", "↵"),
    ("lArr", "⇐"),
    ("uArr", "⇑"),
    ("rArr", "⇒"),
    ("dArr", "⇓"),
    ("hArr", "⇔"),
    ("forall", "∀"),
    ("part", "∂"),
    ("exist", "∃"),
    ("empty", "∅"),
    ("nabla", "∇"),
    ("isin", "∈"),
    ("notin", "∉"),
    ("ni", "∋"),
    ("prod", "∏"),
    ("sum", "∑"),
    ("minus", "−"),
    ("lowast", "∗"),
    ("radic", "√"),
    ("prop", "∝"),
    ("infin", "∞"),
    ("ang", "∠"),
    ("and", "∧"),
    ("or", "∨"),
    ("cap", "∩"),
    ("cup", "∪"),
    ("int", "∫"),
    ("there4", "∴"),
    ("sim", "∼"),
    ("cong", "≅"),
    ("asymp", "≈"),
    ("ne", "≠"),
    ("equiv", "≡"),
    ("le", "≤"),
    ("ge", "≥"),
    ("sub", "⊂"),
    ("sup", "⊃"),
    ("nsub", "⊄"),
    ("sube", "⊆"),
    ("supe", "⊇"),
    ("oplus", "⊕"),
    ("otimes", "⊗"),
    ("perp", "⊥"),
    ("sdot", "⋅"),
    ("lceil", "⌈"),
    ("rceil", "⌉"),
    ("lfloor", "⌊"),
    ("rfloor", "⌋"),
    ("lang", "⟨"),
    ("rang", "⟩"),
    ("loz", "◊"),
    ("spades", "♠"),
    ("clubs", "♣"),
    ("hearts", "♥"),
    ("diams", "♦"),
];

/// The named-entity table as character sequences.
pub open spec fn entity_table() -> Seq<ParamV> {
    ENTITIES@.map_values(|e: (&'static str, &'static str)| (e.0@, e.1@))
}

/// Looks a name up in a table of (name, text) pairs; the first match wins.
pub fn table_lookup<const N: usize>(table: &[(&'static str, &'static str); N], name: &str) -> (r:
    Option<&'static str>)
    ensures
        match r {
            Some(t) => spec_get(
                table@.map_values(|e: (&'static str, &'static str)| (e.0@, e.1@)),
                name@,
            ) == Some(t@),
            None => spec_get(
                table@.map_values(|e: (&'static str, &'static str)| (e.0@, e.1@)),
                name@,
            ) is None,
        },
{
    let ghost tv = table@.map_values(|e: (&'static str, &'static str)| (e.0@, e.1@));
    let mut i: usize = 0;
    assert(tv.skip(0) =~= tv);
    while i < N
        invariant
            i <= N,
            tv.len() == N,
            tv == table@.map_values(|e: (&'static str, &'static str)| (e.0@, e.1@)),
            spec_get(tv, name@) == spec_get(tv.skip(i as int), name@),
        decreases N - i,
    {
        assert(tv.skip(i as int).drop_first() =~= tv.skip(i + 1));
        assert(tv[i as int] == (table@[i as int].0@, table@[i as int].1@));
        if str_eq(table[i].0, name) {
            return Some(table[i].1);
        }
        i += 1;
    }
    None
}

/// The text of a named entity.
pub fn lookup(name: &str) -> (r: Option<&'static str>)
    ensures
        match r {
            Some(t) => spec_get(entity_table(), name@) == Some(t@),
            None => spec_get(entity_table(), name@) is None,
        },
{
    table_lookup(&ENTITIES, name)
}

/// The character a numeric reference stands for: U+0000 and code points that are
/// not Unicode scalars become U+FFFD.
pub open spec fn numeric_char(code: u32) -> char {
    if code == 0 || !vstd::utf8::is_scalar(code) {
        '\u{fffd}'
    } else {
        code as char
    }
}

/// What the entity at the start of `chars` stands for, and how many characters
/// it takes (the `&` and the `;` included).
pub open spec fn spec_parse(chars: Seq<char>) -> Option<(Seq<char>, int)> {
    if chars.len() == 0 || chars[0] != '&' {
        None
    } else {
        let semicolon = find_from(chars, ';', 0);
        if semicolon >= chars.len() || semicolon > 32 {
            None
        } else {
            let name = chars.subrange(1, semicolon);
            let consumed = semicolon + 1;
            if name.len() > 0 && name[0] == '#' {
                let digits = name.drop_first();
                let code = if digits.len() > 0 && (digits[0] == 'x' || digits[0] == 'X') {
                    spec_parse_u32(digits.drop_first(), 16)
                } else {
                    spec_parse_u32(digits, 10)
                };
                match code {
                    Some(c) => Some((seq![numeric_char(c)], consumed)),
                    None => None,
                }
            } else {
                match spec_get(entity_table(), name) {
                    Some(t) => Some((t, consumed)),
                    None => None,
                }
            }
        }
    }
}

/// Parses the entity reference at the start of `chars`: the replacement text and
/// the number of characters taken, `&` and `;` included.
pub fn parse(chars: &[char]) -> (r: Option<(String, usize)>)
    ensures
        match r {
            Some((t, used)) => spec_parse(chars@) == Some((t@, used as int)),
            None => spec_parse(chars@) is None,
        },
{
    if chars.len() == 0 || chars[0] != '&' {
        return None;
    }
    let semicolon = find_char(chars, ';', 0);
    proof {
        lemma_find_from(chars@, ';', 0);
    }
    if semicolon >= chars.len() || semicolon > 32 {
        return None;
    }
    let name = copy_range(chars, 1, semicolon);
    let consumed = semicolon + 1;
    if name.len() > 0 && name[0] == '#' {
        let code = if name.len() > 1 && (name[1] == 'x' || name[1] == 'X') {
            let hex = copy_range(name.as_slice(), 2, name.len());
            assert(hex@ =~= name@.drop_first().drop_first());
            parse_u32(hex.as_slice(), 16)
        } else {
            let dec = copy_range(name.as_slice(), 1, name.len());
            assert(dec@ =~= name@.drop_first());
            parse_u32(dec.as_slice(), 10)
        };
        match code {
            Some(c) => {
                let ch = if c == 0 {
                    '\u{fffd}'
                } else {
                    match char_from_u32(c) {
                        Some(ch) => ch,
                        None => '\u{fffd}',
                    }
                };
                let mut out = String::new();
                crate::text::push_char(&mut out, ch);
                assert(out@ =~= seq![numeric_char(c)]);
                Some((out, consumed))
            },
            None => None,
        }
    } else {
        let name_str = chars_to_string(name.as_slice());
        match lookup(name_str.as_str()) {
            Some(t) => Some((t.to_owned(), consumed)),
            None => None,
        }
    }
}

/// [`parse`] on a string slice.
pub fn parse_str(text: &str) -> (r: Option<(String, usize)>)
    ensures
        match r {
            Some((t, used)) => spec_parse(text@) == Some((t@, used as int)),
            None => spec_parse(text@) is None,
        },
{
    let chars = str_chars(text);
    parse(chars.as_slice())
}

/// Where the first `;` of `&#x` + `h` + `;` stands, when `h` holds none.
proof fn lemma_hex_semicolon(h: Seq<char>)
    requires
        forall|k: int| 0 <= k < h.len() ==> h[k] != ';',
    ensures
        find_from(seq!['&', '#', 'x'] + h + seq![';'], ';', 0) == h.len() + 3,
{
    let t = seq!['&', '#', 'x'] + h + seq![';'];
    lemma_find_from(t, ';', 0);
    let e = find_from(t, ';', 0);
    if e < h.len() + 3 {
        assert(t[e] == ';');
        if e >= 3 {
            assert(t[e] == h[e - 3]);
        }
    }
    assert(t[h.len() + 3 as int] == ';');
}

/// A hexadecimal character reference reads the same in either case: `&#xe9;` and
/// `&#xE9;` both stand for `é`.
pub proof fn hex_references_ignore_case(h: Seq<char>)
    requires
        forall|k: int| 0 <= k < h.len() ==> h[k] != ';',
    ensures
        spec_parse(seq!['&', '#', 'x'] + h.map_values(|c: char| crate::text::ascii_lower(c)) + seq![';'])
            == spec_parse(seq!['&', '#', 'x'] + h + seq![';']),
{
    let l = h.map_values(|c: char| crate::text::ascii_lower(c));
    assert forall|k: int| 0 <= k < l.len() implies l[k] != ';' by {
        assert(l[k] == crate::text::ascii_lower(h[k]));
    }
    lemma_hex_semicolon(h);
    lemma_hex_semicolon(l);
    crate::text::hex_digits_ignore_case(h);
    let t1 = seq!['&', '#', 'x'] + h + seq![';'];
    let t2 = seq!['&', '#', 'x'] + l + seq![';'];
    let n = h.len() as int;
    assert(t1.subrange(1, n + 3).drop_first().drop_first() =~= h);
    assert(t2.subrange(1, n + 3).drop_first().drop_first() =~= l);
    assert(t1.subrange(1, n + 3)[0] == '#' && t1.subrange(1, n + 3).drop_first()[0] == 'x');
    assert(t2.subrange(1, n + 3)[0] == '#' && t2.subrange(1, n + 3).drop_first()[0] == 'x');
}

} // verus!
