//! Character-level helpers shared by the parser, the inline layer and the renderer.
//!
//! Text is processed as a sequence of `char`s; these helpers move between `&str`,
//! `String` and `Vec<char>`, and give specifications to the character classes the
//! grammar is built on.

use vstd::prelude::*;
use vstd::utf8::encode_utf8;

verus! {

/// Unicode `White_Space`, the set that `char::is_whitespace` and `str::trim` use.
pub open spec fn spec_is_whitespace(c: char) -> bool {
    let u = c as u32;
    ||| 0x09 <= u <= 0x0D
    ||| u == 0x20
    ||| u == 0x85
    ||| u == 0xA0
    ||| u == 0x1680
    ||| 0x2000 <= u <= 0x200A
    ||| u == 0x2028
    ||| u == 0x2029
    ||| u == 0x202F
    ||| u == 0x205F
    ||| u == 0x3000
}

/// Whether `c` is a Unicode white-space character.
pub fn is_whitespace(c: char) -> (r: bool)
    ensures
        r == spec_is_whitespace(c),
{
    let u = c as u32;
    (0x09 <= u && u <= 0x0D) || u == 0x20 || u == 0x85 || u == 0xA0 || u == 0x1680 || (0x2000
        <= u && u <= 0x200A) || u == 0x2028 || u == 0x2029 || u == 0x202F || u == 0x205F || u
        == 0x3000
}

/// ASCII punctuation: ``!"#$%&'()*+,-./:;<=>?@[\]^_`{|}~``.
pub open spec fn spec_is_ascii_punctuation(c: char) -> bool {
    ||| '!' <= c <= '/'
    ||| ':' <= c <= '@'
    ||| '[' <= c <= '`'
    ||| '{' <= c <= '~'
}

/// Whether `c` is ASCII punctuation.
pub fn is_ascii_punctuation(c: char) -> (r: bool)
    ensures
        r == spec_is_ascii_punctuation(c),
{
    ('!' <= c && c <= '/') || (':' <= c && c <= '@') || ('[' <= c && c <= '`') || ('{' <= c
        && c <= '~')
}

/// ASCII letters and digits.
pub open spec fn spec_is_ascii_alphanumeric(c: char) -> bool {
    ||| 'a' <= c <= 'z'
    ||| 'A' <= c <= 'Z'
    ||| '0' <= c <= '9'
}

/// Whether `c` is an ASCII letter or digit.
pub fn is_ascii_alphanumeric(c: char) -> (r: bool)
    ensures
        r == spec_is_ascii_alphanumeric(c),
{
    ('a' <= c && c <= 'z') || ('A' <= c && c <= 'Z') || ('0' <= c && c <= '9')
}

/// What `char::is_alphanumeric` answers for `c` (Unicode `Alphabetic` or `Numeric`).
pub uninterp spec fn char_is_alphanumeric(c: char) -> bool;

/// Calls `char::is_alphanumeric`. The contract only names the answer: it is
/// `char_is_alphanumeric(c)`, a fixed function of `c` given by Unicode's tables,
/// which are not restated here.
#[verifier::external_body]
pub(crate) fn is_alphanumeric(c: char) -> (r: bool)
    ensures
        r == char_is_alphanumeric(c),
{
    c.is_alphanumeric()
}

/// Appends one character to a `String` (`String::push`).
#[verifier::external_body]
pub(crate) fn push_char(s: &mut String, c: char)
    ensures
        final(s)@ == old(s)@.push(c),
{
    s.push(c);
}

/// Compares two string slices for equality (`<str as PartialEq>::eq`).
#[verifier::external_body]
pub(crate) fn str_eq(a: &str, b: &str) -> (r: bool)
    ensures
        r == (a@ == b@),
{
    a == b
}

/// The characters of a string slice.
pub fn str_chars(s: &str) -> (r: Vec<char>)
    ensures
        r@ == s@,
{
    let mut out: Vec<char> = Vec::new();
    for c in it: s.chars()
        invariant
            out@ == it.seq().take(it.index() as int),
            it.seq() == s@,
    {
        out.push(c);
    }
    out
}

/// Builds a `String` from characters.
pub fn chars_to_string(v: &[char]) -> (r: String)
    ensures
        r@ == v@,
{
    let mut out = String::new();
    let mut i: usize = 0;
    while i < v.len()
        invariant
            i <= v.len(),
            out@ == v@.take(i as int),
        decreases v.len() - i,
    {
        push_char(&mut out, v[i]);
        assert(v@.take(i as int).push(v@[i as int]) =~= v@.take(i + 1));
        i += 1;
    }
    assert(v@.take(v.len() as int) =~= v@);
    out
}

/// Builds a `String` from a sub-range of characters.
pub fn range_to_string(v: &[char], from: usize, to: usize) -> (r: String)
    requires
        from <= to <= v.len(),
    ensures
        r@ == v@.subrange(from as int, to as int),
{
    let mut out = String::new();
    let mut i: usize = from;
    while i < to
        invariant
            from <= i <= to <= v.len(),
            out@ == v@.subrange(from as int, i as int),
        decreases to - i,
    {
        push_char(&mut out, v[i]);
        assert(v@.subrange(from as int, i as int).push(v@[i as int]) =~= v@.subrange(
            from as int,
            i + 1,
        ));
        i += 1;
    }
    out
}

/// Appends characters to a vector.
pub fn extend_chars(out: &mut Vec<char>, v: &[char])
    ensures
        final(out)@ == old(out)@ + v@,
{
    let mut i: usize = 0;
    while i < v.len()
        invariant
            i <= v.len(),
            out@ == old(out)@ + v@.take(i as int),
        decreases v.len() - i,
    {
        out.push(v[i]);
        assert(old(out)@ + v@.take(i + 1) =~= old(out)@ + v@.take(i as int) + seq![v@[i as int]]);
        i += 1;
    }
    assert(v@.take(v.len() as int) =~= v@);
}

/// Appends a string slice to a character vector.
pub fn extend_str(out: &mut Vec<char>, s: &str)
    ensures
        final(out)@ == old(out)@ + s@,
{
    let v = str_chars(s);
    extend_chars(out, v.as_slice());
}


/// The number of bytes `c` takes in UTF-8.
pub open spec fn spec_char_width(c: char) -> nat {
    let u = c as u32;
    if u <= 0x7F {
        1
    } else if u <= 0x7FF {
        2
    } else if u <= 0xFFFF {
        3
    } else {
        4
    }
}

/// The number of bytes a character sequence takes in UTF-8.
pub open spec fn byte_len(s: Seq<char>) -> nat
    decreases s.len(),
{
    if s.len() == 0 {
        0
    } else {
        spec_char_width(s[0]) + byte_len(s.drop_first())
    }
}

/// The number of bytes `c` takes in UTF-8 (`char::len_utf8`).
pub fn char_width(c: char) -> (r: usize)
    ensures
        r == spec_char_width(c),
        1 <= r <= 4,
{
    let u = c as u32;
    if u <= 0x7F {
        1
    } else if u <= 0x7FF {
        2
    } else if u <= 0xFFFF {
        3
    } else {
        4
    }
}

/// Byte lengths add up over concatenation.
pub proof fn lemma_byte_len_concat(a: Seq<char>, b: Seq<char>)
    ensures
        byte_len(a + b) == byte_len(a) + byte_len(b),
    decreases a.len(),
{
    if a.len() == 0 {
        assert(a + b =~= b);
    } else {
        assert((a + b).drop_first() =~= a.drop_first() + b);
        lemma_byte_len_concat(a.drop_first(), b);
    }
}

/// Pushing a character adds its width.
pub proof fn lemma_byte_len_push(a: Seq<char>, c: char)
    ensures
        byte_len(a.push(c)) == byte_len(a) + spec_char_width(c),
{
    lemma_byte_len_concat(a, seq![c]);
    assert(a + seq![c] =~= a.push(c));
    assert(seq![c].drop_first() =~= Seq::<char>::empty());
    assert(byte_len(Seq::<char>::empty()) == 0);
    assert(byte_len(seq![c]) == spec_char_width(c) + byte_len(seq![c].drop_first()));
}

/// A prefix takes no more bytes than the whole.
pub proof fn lemma_byte_len_prefix(s: Seq<char>, i: int)
    requires
        0 <= i <= s.len(),
    ensures
        byte_len(s.take(i)) <= byte_len(s),
        byte_len(s.take(i)) + byte_len(s.skip(i)) == byte_len(s),
{
    lemma_byte_len_concat(s.take(i), s.skip(i));
    assert(s.take(i) + s.skip(i) =~= s);
}

/// Every character takes at least one byte.
pub proof fn lemma_byte_len_ge_len(s: Seq<char>)
    ensures
        s.len() <= byte_len(s),
    decreases s.len(),
{
    if s.len() > 0 {
        lemma_byte_len_ge_len(s.drop_first());
    }
}

/// `byte_len` is the length of the UTF-8 encoding.
pub proof fn lemma_byte_len_encode(s: Seq<char>)
    ensures
        byte_len(s) == encode_utf8(s).len(),
    decreases s.len(),
{
    if s.len() > 0 {
        lemma_byte_len_encode(s.drop_first());
        let u = s[0] as u32;
        assert(vstd::utf8::is_scalar(u)) by {
            vstd::utf8::char_is_scalar(s[0]);
        }
    }
}

} // verus!

verus! {

/// Copies a sub-range of characters.
pub fn copy_range(v: &[char], from: usize, to: usize) -> (r: Vec<char>)
    requires
        from <= to <= v.len(),
    ensures
        r@ == v@.subrange(from as int, to as int),
{
    let mut out: Vec<char> = Vec::new();
    let mut i: usize = from;
    while i < to
        invariant
            from <= i <= to <= v.len(),
            out@ == v@.subrange(from as int, i as int),
        decreases to - i,
    {
        out.push(v[i]);
        assert(v@.subrange(from as int, i as int).push(v@[i as int]) =~= v@.subrange(
            from as int,
            i + 1,
        ));
        i += 1;
    }
    out
}

} // verus!

verus! {

/// The first index `j >= i` with `s[j] == c`, or the length.
pub open spec fn find_from(s: Seq<char>, c: char, i: int) -> int
    decreases s.len() - i,
{
    if i < 0 || i >= s.len() {
        s.len() as int
    } else if s[i] == c {
        i
    } else {
        find_from(s, c, i + 1)
    }
}

/// Where the search for `c` from `i` stops, and that it skips no `c`.
pub proof fn lemma_find_from(s: Seq<char>, c: char, i: int)
    requires
        0 <= i <= s.len(),
    ensures
        i <= find_from(s, c, i) <= s.len(),
        find_from(s, c, i) < s.len() ==> s[find_from(s, c, i)] == c,
        forall|j: int| i <= j < find_from(s, c, i) ==> s[j] != c,
    decreases s.len() - i,
{
    if i < s.len() && s[i] != c {
        lemma_find_from(s, c, i + 1);
    }
}

/// Finds the first `c` at or after `from`.
pub fn find_char(s: &[char], c: char, from: usize) -> (r: usize)
    requires
        from <= s.len(),
    ensures
        r == find_from(s@, c, from as int),
{
    let mut i = from;
    while i < s.len() && s[i] != c
        invariant
            from <= i <= s.len(),
            find_from(s@, c, i as int) == find_from(s@, c, from as int),
        decreases s.len() - i,
    {
        i += 1;
    }
    i
}

/// The value of a digit in the given radix (10 or 16).
pub open spec fn digit_value(c: char, radix: nat) -> Option<nat> {
    if '0' <= c <= '9' && (c as nat) - ('0' as nat) < radix {
        Some((c as nat - '0' as nat) as nat)
    } else if radix == 16 && 'a' <= c <= 'f' {
        Some((c as nat - 'a' as nat + 10) as nat)
    } else if radix == 16 && 'A' <= c <= 'F' {
        Some((c as nat - 'A' as nat + 10) as nat)
    } else {
        None
    }
}

/// Whether every character is a digit of the radix.
pub open spec fn all_digits(s: Seq<char>, radix: nat) -> bool {
    forall|i: int| 0 <= i < s.len() ==> (#[trigger] digit_value(s[i], radix)) is Some
}

/// The number written by the digits.
pub open spec fn digits_value(s: Seq<char>, radix: nat) -> nat
    decreases s.len(),
{
    if s.len() == 0 {
        0
    } else {
        digits_value(s.drop_last(), radix) * radix + match digit_value(s.last(), radix) {
            Some(d) => d,
            None => 0,
        }
    }
}

/// A character with an upper-case ASCII letter made lower case.
pub open spec fn ascii_lower(c: char) -> char {
    if 'A' <= c <= 'Z' {
        ((c as u32) + 32) as char
    } else {
        c
    }
}

/// Lower-casing a character does not change its value as a digit.
proof fn lemma_digit_lower(c: char, radix: nat)
    ensures
        digit_value(ascii_lower(c), radix) == digit_value(c, radix),
{
    if 'A' <= c <= 'Z' {
        assert(('A' as u32) == 65 && ('Z' as u32) == 90 && ('a' as u32) == 97 && ('f' as u32) == 102
            && ('F' as u32) == 70 && ('0' as u32) == 48 && ('9' as u32) == 57 && ('z' as u32) == 122);
        let l = ascii_lower(c);
        assert(l as u32 == c as u32 + 32);
    }
}

/// Lower-casing a text does not change the number its digits write.
proof fn lemma_digits_lower(s: Seq<char>, radix: nat)
    ensures
        all_digits(s.map_values(|c: char| ascii_lower(c)), radix) == all_digits(s, radix),
        digits_value(s.map_values(|c: char| ascii_lower(c)), radix) == digits_value(s, radix),
    decreases s.len(),
{
    let l = s.map_values(|c: char| ascii_lower(c));
    assert forall|i: int| 0 <= i < s.len() implies #[trigger] digit_value(l[i], radix) == digit_value(s[i], radix) by {
        lemma_digit_lower(s[i], radix);
    }
    if all_digits(s, radix) {
        assert forall|i: int| 0 <= i < l.len() implies (#[trigger] digit_value(l[i], radix)) is Some by {
            assert(digit_value(s[i], radix) is Some);
        }
    }
    if all_digits(l, radix) {
        assert forall|i: int| 0 <= i < s.len() implies (#[trigger] digit_value(s[i], radix)) is Some by {
            assert(digit_value(l[i], radix) is Some);
        }
    }
    if s.len() > 0 {
        lemma_digits_lower(s.drop_last(), radix);
        assert(l.drop_last() =~= s.drop_last().map_values(|c: char| ascii_lower(c)));
        assert(l.last() == l[s.len() - 1]);
    }
}

/// Hex digits are read alike in either case: `a`..`f` and `A`..`F` stand for 10..15,
/// so lower-casing a text changes neither whether it parses as a hexadecimal
/// number nor the number (`e9` and `E9` are both 233).
pub proof fn hex_digits_ignore_case(s: Seq<char>)
    ensures
        forall|c: char|
            'A' <= c <= 'F' ==> #[trigger] digit_value(c, 16) == Some((c as nat - 'A' as nat + 10) as nat)
                && digit_value(ascii_lower(c), 16) == digit_value(c, 16),
        spec_parse_u32(s.map_values(|c: char| ascii_lower(c)), 16) == spec_parse_u32(s, 16),
        forall|c: char|
            '0' <= c <= '9' ==> #[trigger] digit_value(c, 10) == Some((c as nat - '0' as nat) as nat)
                && digit_value(c, 16) == digit_value(c, 10),
        forall|c: char| !('0' <= c <= '9') ==> #[trigger] digit_value(c, 10) is None,
{
    assert forall|c: char| 'A' <= c <= 'F' implies #[trigger] digit_value(c, 16) == Some(
        (c as nat - 'A' as nat + 10) as nat,
    ) && digit_value(ascii_lower(c), 16) == digit_value(c, 16) by {
        lemma_digit_lower(c, 16);
    }
    let l = s.map_values(|c: char| ascii_lower(c));
    if s.len() > 0 && s[0] == '+' {
        assert(l[0] == '+');
        assert(l.drop_first() =~= s.drop_first().map_values(|c: char| ascii_lower(c)));
        lemma_digits_lower(s.drop_first(), 16);
    } else {
        if s.len() > 0 {
            assert(l[0] != '+') by {
                if 'A' <= s[0] <= 'Z' {
                    assert(('A' as u32) == 65);
                    assert(l[0] as u32 == s[0] as u32 + 32);
                }
            }
        }
        lemma_digits_lower(s, 16);
    }
}

/// `u32::from_str_radix` for radix 10 and 16: an optional `+`, then at least one
/// digit, and a value that fits.
pub open spec fn spec_parse_u32(s: Seq<char>, radix: nat) -> Option<u32> {
    let d = if s.len() > 0 && s[0] == '+' {
        s.drop_first()
    } else {
        s
    };
    if d.len() == 0 || !all_digits(d, radix) || digits_value(d, radix) > u32::MAX {
        None
    } else {
        Some(digits_value(d, radix) as u32)
    }
}

/// A prefix of a digit string has no larger value than the whole.
pub proof fn lemma_digits_value_grows(s: Seq<char>, radix: nat, k: int)
    requires
        0 <= k <= s.len(),
        radix >= 1,
    ensures
        digits_value(s.take(k), radix) <= digits_value(s, radix),
    decreases s.len() - k,
{
    if k < s.len() {
        lemma_digits_value_grows(s, radix, k + 1);
        assert(s.take(k + 1).drop_last() =~= s.take(k));
        let v = digits_value(s.take(k), radix);
        assert(v * radix >= v) by (nonlinear_arith)
            requires
                radix >= 1,
        ;
    } else {
        assert(s.take(k) =~= s);
    }
}

/// The value of `s[from..]` as digits of the radix, if they all are digits and the
/// value fits.
fn parse_digits(s: &[char], from: usize, radix: u32) -> (r: Option<u32>)
    requires
        radix == 10 || radix == 16,
        from <= s.len(),
    ensures
        r == if all_digits(s@.skip(from as int), radix as nat) && digits_value(
            s@.skip(from as int),
            radix as nat,
        ) <= u32::MAX {
            Some(digits_value(s@.skip(from as int), radix as nat) as u32)
        } else {
            None::<u32>
        },
{
    let n = s.len();
    let ghost d = s@.skip(from as int);
    let mut acc: u32 = 0;
    let mut i = from;
    assert(d.take(0) =~= Seq::<char>::empty());
    while i < n
        invariant
            from <= i <= n,
            n == s@.len(),
            d == s@.skip(from as int),
            radix == 10 || radix == 16,
            acc == digits_value(d.take(i - from), radix as nat),
            all_digits(d.take(i - from), radix as nat),
        decreases n - i,
    {
        let c = s[i];
        assert(d[i - from] == c);
        let dv: u32 = if '0' <= c && c <= '9' && (c as u32) - ('0' as u32) < radix {
            (c as u32) - ('0' as u32)
        } else if radix == 16 && 'a' <= c && c <= 'f' {
            (c as u32) - ('a' as u32) + 10
        } else if radix == 16 && 'A' <= c && c <= 'F' {
            (c as u32) - ('A' as u32) + 10
        } else {
            assert(digit_value(d[i - from], radix as nat) is None);
            assert(!all_digits(d, radix as nat));
            return None;
        };
        proof {
            assert(d.take(i - from + 1).drop_last() =~= d.take(i - from));
            assert(d.take(i - from + 1).last() == c);
            assert(digit_value(c, radix as nat) == Some(dv as nat));
        }
        let next = match acc.checked_mul(radix) {
            Some(m) => m.checked_add(dv),
            None => None,
        };
        match next {
            Some(v) => {
                acc = v;
                proof {
                    assert forall|j: int| 0 <= j < d.take(i - from + 1).len() implies (
                    #[trigger] digit_value(d.take(i - from + 1)[j], radix as nat)) is Some by {
                        if j < i - from {
                            assert(d.take(i - from + 1)[j] == d.take(i - from)[j]);
                        }
                    }
                }
            },
            None => {
                proof {
                    assert(digits_value(d.take(i - from + 1), radix as nat) == acc * radix + dv);
                    lemma_digits_value_grows(d, radix as nat, i - from + 1);
                }
                return None;
            },
        }
        i += 1;
    }
    assert(d.take(n - from) =~= d);
    Some(acc)
}

/// Parses an unsigned number in radix 10 or 16, as `u32::from_str_radix` does.
pub fn parse_u32(s: &[char], radix: u32) -> (r: Option<u32>)
    requires
        radix == 10 || radix == 16,
    ensures
        r == spec_parse_u32(s@, radix as nat),
{
    let n = s.len();
    let start: usize = if n > 0 && s[0] == '+' {
        1
    } else {
        0
    };
    assert(s@.len() > 0 && s@[0] == '+' ==> s@.drop_first() =~= s@.skip(1));
    assert(s@ =~= s@.skip(0));
    if start >= n {
        return None;
    }
    parse_digits(s, start, radix)
}

/// `char::from_u32`: the character with this code point, if it is a Unicode scalar.
#[verifier::external_body]
pub(crate) fn char_from_u32(code: u32) -> (r: Option<char>)
    ensures
        r == if vstd::utf8::is_scalar(code) {
            Some(code as char)
        } else {
            None::<char>
        },
{
    char::from_u32(code)
}

} // verus!
