//! String building blocks shared by the SVG and JSON writers.

use vstd::prelude::*;

verus! {

/// Append one character to a `String` with `String::push`; the contract
/// claims that the text afterwards is the text before followed by `c`.
#[verifier::external_body]
pub(crate) fn push_char(s: &mut String, c: char)
    ensures
        final(s)@ == old(s)@.push(c),
{
    s.push(c);
}

/// The characters of `s`, collected into a vector.
pub fn chars_of(s: &str) -> (v: Vec<char>)
    ensures
        v@ == s@,
{
    let mut v: Vec<char> = Vec::new();
    for c in it: s.chars()
        invariant
            v@ == it.seq().take(it.index() as int),
    {
        v.push(c);
    }
    v
}


/// Whether two character slices hold the same characters.
pub fn chars_equal(a: &[char], b: &[char]) -> (eq: bool)
    ensures
        eq == (a@ == b@),
{
    if a.len() != b.len() {
        return false;
    }
    let mut i: usize = 0;
    while i < a.len()
        invariant
            a@.len() == b@.len(),
            i <= a@.len(),
            forall|j: int| 0 <= j < i ==> a@[j] == b@[j],
        decreases a@.len() - i,
    {
        if a[i] != b[i] {
            return false;
        }
        i = i + 1;
    }
    assert(a@ =~= b@);
    true
}

/// Whether two strings hold the same characters.
pub fn str_equal(a: &str, b: &str) -> (eq: bool)
    ensures
        eq == (a@ == b@),
{
    let x = chars_of(a);
    let y = chars_of(b);
    chars_equal(x.as_slice(), y.as_slice())
}

/// Whether `prefix` is a prefix of `s`.
pub fn starts_with(s: &str, prefix: &str) -> (b: bool)
    ensures
        b == prefix@.is_prefix_of(s@),
{
    let x = chars_of(s);
    let p = chars_of(prefix);
    if p.len() > x.len() {
        return false;
    }
    let mut i: usize = 0;
    while i < p.len()
        invariant
            p@.len() <= x@.len(),
            x@ == s@,
            p@ == prefix@,
            i <= p@.len(),
            forall|j: int| 0 <= j < i ==> p@[j] == x@[j],
        decreases p@.len() - i,
    {
        if p[i] != x[i] {
            assert(p@[i as int] != x@.subrange(0, p@.len() as int)[i as int]);
            return false;
        }
        i = i + 1;
    }
    assert(p@ =~= x@.subrange(0, p@.len() as int));
    true
}

/// The ASCII lower-case form of one character; other characters are kept.
pub open spec fn ascii_lower(c: char) -> char {
    if 'A' <= c && c <= 'Z' {
        ((c as u32) + 32) as char
    } else {
        c
    }
}

/// `s` with ASCII upper-case letters mapped to lower case.
pub open spec fn ascii_lowercase(s: Seq<char>) -> Seq<char> {
    s.map_values(|c: char| ascii_lower(c))
}

/// Map ASCII upper-case letters to lower case, keeping every other
/// character.
pub fn to_ascii_lowercase(s: &str) -> (out: Vec<char>)
    ensures
        out@ == ascii_lowercase(s@),
{
    let x = chars_of(s);
    let mut out: Vec<char> = Vec::new();
    let mut i: usize = 0;
    while i < x.len()
        invariant
            i <= x@.len(),
            x@ == s@,
            out@ == ascii_lowercase(x@.take(i as int)),
        decreases x@.len() - i,
    {
        let c = x[i];
        if 'A' <= c && c <= 'Z' {
            let code: u32 = (c as u32) + 32;
            let lower = char_from_ascii(code);
            out.push(lower);
        } else {
            out.push(c);
        }
        assert(out@ =~= ascii_lowercase(x@.take(i + 1)));
        i = i + 1;
    }
    assert(x@.take(i as int) =~= x@);
    out
}

/// The character with an ASCII code point.
fn char_from_ascii(code: u32) -> (c: char)
    requires
        code < 128,
    ensures
        c == code as char,
{
    let b: u8 = code as u8;
    b as char
}

/// Whether a character is ASCII whitespace (space, tab, line feed, form
/// feed or carriage return).
pub open spec fn is_ascii_space(c: char) -> bool {
    c == ' ' || c == '\t' || c == '\n' || c == '\x0C' || c == '\r'
}

/// Whether a character separates fields: a comma, and a space (or, with
/// `whitespace`, any ASCII whitespace).
pub open spec fn is_field_separator(c: char, whitespace: bool) -> bool {
    c == ',' || if whitespace {
        is_ascii_space(c)
    } else {
        c == ' '
    }
}

/// The fields of a text: its maximal runs of non-separators, in order.
pub open spec fn fields(s: Seq<char>, whitespace: bool) -> Seq<Seq<char>>
    decreases s.len(),
{
    if s.len() == 0 {
        Seq::empty()
    } else {
        let t = fields(s.drop_last(), whitespace);
        let c = s.last();
        if is_field_separator(c, whitespace) {
            t
        } else if s.len() >= 2 && !is_field_separator(s[s.len() - 2], whitespace) {
            t.update(t.len() - 1, t.last().push(c))
        } else {
            t.push(seq![c])
        }
    }
}

/// The texts of a sequence of strings.
pub open spec fn texts(v: Seq<String>) -> Seq<Seq<char>> {
    v.map_values(|t: String| t@)
}

/// Split characters into fields separated by commas and spaces (or any
/// ASCII whitespace).
pub fn split_fields(s: &[char], whitespace: bool) -> (out: Vec<String>)
    ensures
        texts(out@) == fields(s@, whitespace),
{
    let mut out: Vec<String> = Vec::new();
    let mut cur = String::new();
    let mut open = false;
    let mut i: usize = 0;
    assert(texts(out@) =~= Seq::<Seq<char>>::empty());
    while i < s.len()
        invariant
            i <= s@.len(),
            open <==> cur@.len() > 0,
            cur@.len() > 0 <==> (i > 0 && !is_field_separator(s@[i - 1], whitespace)),
            fields(s@.take(i as int), whitespace) == if cur@.len() > 0 {
                texts(out@).push(cur@)
            } else {
                texts(out@)
            },
        decreases s@.len() - i,
    {
        let ghost prefix = s@.take(i as int);
        assert(s@.take(i + 1).drop_last() =~= prefix);
        let c = s[i];
        let separator = c == ',' || if whitespace {
            c == ' ' || c == '\t' || c == '\n' || c == '\x0C' || c == '\r'
        } else {
            c == ' '
        };
        if separator {
            if open {
                let ghost before = texts(out@);
                let token = cur;
                out.push(token);
                assert(texts(out@) =~= before.push(token@));
                cur = String::new();
                open = false;
            }
        } else {
            let ghost before = texts(out@);
            let ghost had = cur@;
            push_char(&mut cur, c);
            open = true;
            proof {
                if had.len() > 0 {
                    assert(before.push(had).update(before.len() as int, had.push(c)) =~= before.push(
                        cur@,
                    ));
                } else {
                    assert(cur@ =~= seq![c]);
                }
            }
        }
        i = i + 1;
    }
    assert(s@.take(s@.len() as int) =~= s@);
    if open {
        let ghost before = texts(out@);
        let token = cur;
        out.push(token);
        assert(texts(out@) =~= before.push(token@));
    }
    out
}

} // verus!
