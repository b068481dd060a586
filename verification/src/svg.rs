//! SVG output helpers: XML escaping, guide labels and an indenting writer.

use vstd::prelude::*;

use crate::text::{chars_of, push_char};

verus! {

// ---------------------------------------------------------------------------
// Escaping
// ---------------------------------------------------------------------------

/// The replacement text of one character inside an XML text node.
pub open spec fn text_escape_of(c: char) -> Seq<char> {
    if c == '&' {
        seq!['&', 'a', 'm', 'p', ';']
    } else if c == '<' {
        seq!['&', 'l', 't', ';']
    } else if c == '>' {
        seq!['&', 'g', 't', ';']
    } else {
        seq![c]
    }
}

/// The replacement text of one character inside an XML attribute value.
pub open spec fn attr_escape_of(c: char) -> Seq<char> {
    if c == '"' {
        seq!['&', 'q', 'u', 'o', 't', ';']
    } else {
        text_escape_of(c)
    }
}

/// `s` with every character replaced by its text-node escape.
pub open spec fn escaped_text(s: Seq<char>) -> Seq<char>
    decreases s.len(),
{
    if s.len() == 0 {
        Seq::empty()
    } else {
        escaped_text(s.drop_last()) + text_escape_of(s.last())
    }
}

/// `s` with every character replaced by its attribute escape.
pub open spec fn escaped_attr(s: Seq<char>) -> Seq<char>
    decreases s.len(),
{
    if s.len() == 0 {
        Seq::empty()
    } else {
        escaped_attr(s.drop_last()) + attr_escape_of(s.last())
    }
}

/// `s` with every `_` replaced by a space.
pub open spec fn underscores_to_spaces(s: Seq<char>) -> Seq<char> {
    s.map_values(|c: char| if c == '_' { ' ' } else { c })
}

/// Append the escape of `c` for a text node.
fn push_text_escape(out: &mut String, c: char)
    ensures
        final(out)@ == old(out)@ + text_escape_of(c),
{
    if c == '&' {
        push_char(out, '&');
        push_char(out, 'a');
        push_char(out, 'm');
        push_char(out, 'p');
        push_char(out, ';');
    } else if c == '<' {
        push_char(out, '&');
        push_char(out, 'l');
        push_char(out, 't');
        push_char(out, ';');
    } else if c == '>' {
        push_char(out, '&');
        push_char(out, 'g');
        push_char(out, 't');
        push_char(out, ';');
    } else {
        push_char(out, c);
    }
    assert(final(out)@ =~= old(out)@ + text_escape_of(c));
}

/// Append the escape of `c` for an attribute value.
fn push_attr_escape(out: &mut String, c: char)
    ensures
        final(out)@ == old(out)@ + attr_escape_of(c),
{
    if c == '"' {
        push_char(out, '&');
        push_char(out, 'q');
        push_char(out, 'u');
        push_char(out, 'o');
        push_char(out, 't');
        push_char(out, ';');
        assert(final(out)@ =~= old(out)@ + attr_escape_of(c));
    } else {
        push_text_escape(out, c);
    }
}

/// Append the text-node escape of `text` to `out`.
pub fn push_escaped_text(out: &mut String, text: &str)
    ensures
        final(out)@ == old(out)@ + escaped_text(text@),
{
    let ghost start = out@;
    let chars = chars_of(text);
    let mut i: usize = 0;
    while i < chars.len()
        invariant
            i <= chars@.len(),
            chars@ == text@,
            out@ == start + escaped_text(chars@.take(i as int)),
        decreases chars@.len() - i,
    {
        push_text_escape(out, chars[i]);
        proof {
            assert(chars@.take(i + 1).drop_last() =~= chars@.take(i as int));
            assert(out@ =~= start + escaped_text(chars@.take(i + 1)));
        }
        i = i + 1;
    }
    assert(chars@.take(i as int) =~= text@);
}

/// Append the attribute escape of `text` to `out`.
pub fn push_escaped_attr(out: &mut String, text: &str)
    ensures
        final(out)@ == old(out)@ + escaped_attr(text@),
{
    let ghost start = out@;
    let chars = chars_of(text);
    let mut i: usize = 0;
    while i < chars.len()
        invariant
            i <= chars@.len(),
            chars@ == text@,
            out@ == start + escaped_attr(chars@.take(i as int)),
        decreases chars@.len() - i,
    {
        push_attr_escape(out, chars[i]);
        proof {
            assert(chars@.take(i + 1).drop_last() =~= chars@.take(i as int));
            assert(out@ =~= start + escaped_attr(chars@.take(i + 1)));
        }
        i = i + 1;
    }
    assert(chars@.take(i as int) =~= text@);
}

/// Escape text content for an XML text node: `&`, `<` and `>` become
/// entity references, every other character is kept.
pub fn escape_text(text: &str) -> (out: String)
    ensures
        out@ == escaped_text(text@),
{
    let mut out = String::new();
    push_escaped_text(&mut out, text);
    out
}

/// Escape a value for an XML attribute: as for text nodes, and `"` becomes
/// `&quot;`.
pub fn escape_attr(text: &str) -> (out: String)
    ensures
        out@ == escaped_attr(text@),
{
    let mut out = String::new();
    push_escaped_attr(&mut out, text);
    out
}

/// Format an internal identifier as a human-facing guide label: every `_`
/// becomes a space.
pub fn display_label(label: &str) -> (out: String)
    ensures
        out@ == underscores_to_spaces(label@),
{
    let mut out = String::new();
    for ch in it: label.chars()
        invariant
            out@ == underscores_to_spaces(it.seq().take(it.index() as int)),
    {
        if ch == '_' {
            push_char(&mut out, ' ');
        } else {
            push_char(&mut out, ch);
        }
        assert(out@ =~= underscores_to_spaces(it.seq().take(it.index() + 1)));
    }
    out
}

// ---------------------------------------------------------------------------
// Laws of escaping
// ---------------------------------------------------------------------------

/// Escaped text never holds a raw `<` or `>`, so it cannot open or close a
/// tag.
pub proof fn lemma_escaped_text_has_no_angle_brackets(s: Seq<char>)
    ensures
        !escaped_text(s).contains('<'),
        !escaped_text(s).contains('>'),
    decreases s.len(),
{
    if s.len() > 0 {
        lemma_escaped_text_has_no_angle_brackets(s.drop_last());
        let prefix = escaped_text(s.drop_last());
        let tail = text_escape_of(s.last());
        assert(escaped_text(s) == prefix + tail);
        assert forall|i: int| 0 <= i < (prefix + tail).len() implies (prefix + tail)[i] != '<'
            && (prefix + tail)[i] != '>' by {
            if i < prefix.len() {
                assert(prefix[i] == (prefix + tail)[i]);
                assert(!prefix.contains('<'));
                assert(!prefix.contains('>'));
            }
        }
    }
}

/// An escaped attribute value holds no raw `<`, `>` or `"`, so it cannot end
/// the attribute or the tag early.
pub proof fn lemma_escaped_attr_is_inert(s: Seq<char>)
    ensures
        !escaped_attr(s).contains('<'),
        !escaped_attr(s).contains('>'),
        !escaped_attr(s).contains('"'),
    decreases s.len(),
{
    if s.len() > 0 {
        lemma_escaped_attr_is_inert(s.drop_last());
        let prefix = escaped_attr(s.drop_last());
        let tail = attr_escape_of(s.last());
        assert(escaped_attr(s) == prefix + tail);
        assert forall|i: int| 0 <= i < (prefix + tail).len() implies (prefix + tail)[i] != '<'
            && (prefix + tail)[i] != '>' && (prefix + tail)[i] != '"' by {
            if i < prefix.len() {
                assert(prefix[i] == (prefix + tail)[i]);
                assert(!prefix.contains('<'));
                assert(!prefix.contains('>'));
                assert(!prefix.contains('"'));
            }
        }
    }
}

/// Whether `s` begins with the text `p`.
pub open spec fn starts_with(s: Seq<char>, p: Seq<char>) -> bool {
    p.len() <= s.len() && s.subrange(0, p.len() as int) == p
}

/// What an XML reader makes of character data: each of the predefined
/// entities `&amp;`, `&lt;`, `&gt;`, `&quot;` and `&apos;` stands for its
/// character, read from the front; every other character stands for itself.
pub open spec fn xml_unescape(s: Seq<char>) -> Seq<char>
    decreases s.len(),
{
    if s.len() == 0 {
        Seq::empty()
    } else if starts_with(s, seq!['&', 'a', 'm', 'p', ';']) {
        seq!['&'] + xml_unescape(s.skip(5))
    } else if starts_with(s, seq!['&', 'l', 't', ';']) {
        seq!['<'] + xml_unescape(s.skip(4))
    } else if starts_with(s, seq!['&', 'g', 't', ';']) {
        seq!['>'] + xml_unescape(s.skip(4))
    } else if starts_with(s, seq!['&', 'q', 'u', 'o', 't', ';']) {
        seq!['"'] + xml_unescape(s.skip(6))
    } else if starts_with(s, seq!['&', 'a', 'p', 'o', 's', ';']) {
        seq!['\''] + xml_unescape(s.skip(6))
    } else {
        seq![s[0]] + xml_unescape(s.skip(1))
    }
}

proof fn lemma_escaped_text_concat(a: Seq<char>, b: Seq<char>)
    ensures
        escaped_text(a + b) == escaped_text(a) + escaped_text(b),
    decreases b.len(),
{
    if b.len() == 0 {
        assert(a + b =~= a);
        assert(escaped_text(a) + escaped_text(b) =~= escaped_text(a));
    } else {
        lemma_escaped_text_concat(a, b.drop_last());
        assert((a + b).drop_last() =~= a + b.drop_last());
        assert((a + b).last() == b.last());
        assert(escaped_text(a) + escaped_text(b) =~= escaped_text(a) + escaped_text(b.drop_last())
            + text_escape_of(b.last()));
    }
}

proof fn lemma_escaped_attr_concat(a: Seq<char>, b: Seq<char>)
    ensures
        escaped_attr(a + b) == escaped_attr(a) + escaped_attr(b),
    decreases b.len(),
{
    if b.len() == 0 {
        assert(a + b =~= a);
        assert(escaped_attr(a) + escaped_attr(b) =~= escaped_attr(a));
    } else {
        lemma_escaped_attr_concat(a, b.drop_last());
        assert((a + b).drop_last() =~= a + b.drop_last());
        assert((a + b).last() == b.last());
        assert(escaped_attr(a) + escaped_attr(b) =~= escaped_attr(a) + escaped_attr(b.drop_last())
            + attr_escape_of(b.last()));
    }
}

/// Reading one character's attribute escape in front of `rest` gives that
/// character in front of what `rest` reads as.
proof fn lemma_unescape_one(c: char, rest: Seq<char>)
    ensures
        xml_unescape(attr_escape_of(c) + rest) == seq![c] + xml_unescape(rest),
        xml_unescape(text_escape_of(c) + rest) == seq![c] + xml_unescape(rest),
{
    let amp = seq!['&', 'a', 'm', 'p', ';'];
    let lt = seq!['&', 'l', 't', ';'];
    let gt = seq!['&', 'g', 't', ';'];
    let quot = seq!['&', 'q', 'u', 'o', 't', ';'];
    let apos = seq!['&', 'a', 'p', 'o', 's', ';'];
    let t = text_escape_of(c) + rest;
    let a = attr_escape_of(c) + rest;
    if c == '&' {
        assert(t.subrange(0, 5) =~= amp);
        assert(t.skip(5) =~= rest);
    } else if c == '<' {
        assert(t[1] == 'l');
        assert(t.subrange(0, 4) =~= lt);
        assert(!starts_with(t, amp)) by {
            if starts_with(t, amp) {
                assert(t.subrange(0, 5)[1] == t[1]);
            }
        }
        assert(t.skip(4) =~= rest);
    } else if c == '>' {
        assert(t[1] == 'g');
        assert(t.subrange(0, 4) =~= gt);
        assert(!starts_with(t, amp)) by {
            if starts_with(t, amp) {
                assert(t.subrange(0, 5)[1] == t[1]);
            }
        }
        assert(!starts_with(t, lt)) by {
            if starts_with(t, lt) {
                assert(t.subrange(0, 4)[1] == t[1]);
            }
        }
        assert(t.skip(4) =~= rest);
    } else {
        assert(t[0] == c);
        assert(!starts_with(t, amp)) by {
            if starts_with(t, amp) {
                assert(t.subrange(0, 5)[0] == t[0]);
            }
        }
        assert(!starts_with(t, lt)) by {
            if starts_with(t, lt) {
                assert(t.subrange(0, 4)[0] == t[0]);
            }
        }
        assert(!starts_with(t, gt)) by {
            if starts_with(t, gt) {
                assert(t.subrange(0, 4)[0] == t[0]);
            }
        }
        assert(!starts_with(t, quot)) by {
            if starts_with(t, quot) {
                assert(t.subrange(0, 6)[0] == t[0]);
            }
        }
        assert(!starts_with(t, apos)) by {
            if starts_with(t, apos) {
                assert(t.subrange(0, 6)[0] == t[0]);
            }
        }
        assert(t.skip(1) =~= rest);
    }
    if c == '"' {
        assert(a[1] == 'q');
        assert(a.subrange(0, 6) =~= quot);
        assert(!starts_with(a, amp)) by {
            if starts_with(a, amp) {
                assert(a.subrange(0, 5)[1] == a[1]);
            }
        }
        assert(!starts_with(a, lt)) by {
            if starts_with(a, lt) {
                assert(a.subrange(0, 4)[1] == a[1]);
            }
        }
        assert(!starts_with(a, gt)) by {
            if starts_with(a, gt) {
                assert(a.subrange(0, 4)[1] == a[1]);
            }
        }
        assert(a.skip(6) =~= rest);
    } else {
        assert(a == t);
    }
}

/// An XML reader gives back exactly the text that was escaped into a text
/// node.
pub proof fn lemma_escaped_text_unescapes(s: Seq<char>)
    ensures
        xml_unescape(escaped_text(s)) == s,
    decreases s.len(),
{
    if s.len() > 0 {
        let rest = s.skip(1);
        assert(s =~= seq![s[0]] + rest);
        lemma_escaped_text_concat(seq![s[0]], rest);
        assert(escaped_text(seq![s[0]]) =~= text_escape_of(s[0])) by {
            let one = seq![s[0]];
            assert(one.drop_last() =~= Seq::<char>::empty());
            assert(escaped_text(one.drop_last()) == Seq::<char>::empty());
            assert(one.last() == s[0]);
            assert(Seq::<char>::empty() + text_escape_of(s[0]) =~= text_escape_of(s[0]));
        }
        lemma_unescape_one(s[0], escaped_text(rest));
        lemma_escaped_text_unescapes(rest);
    }
}

/// An XML reader gives back exactly the text that was escaped into an
/// attribute value.
pub proof fn lemma_escaped_attr_unescapes(s: Seq<char>)
    ensures
        xml_unescape(escaped_attr(s)) == s,
    decreases s.len(),
{
    if s.len() > 0 {
        let rest = s.skip(1);
        assert(s =~= seq![s[0]] + rest);
        lemma_escaped_attr_concat(seq![s[0]], rest);
        assert(escaped_attr(seq![s[0]]) =~= attr_escape_of(s[0])) by {
            let one = seq![s[0]];
            assert(one.drop_last() =~= Seq::<char>::empty());
            assert(escaped_attr(one.drop_last()) == Seq::<char>::empty());
            assert(one.last() == s[0]);
            assert(Seq::<char>::empty() + attr_escape_of(s[0]) =~= attr_escape_of(s[0]));
        }
        lemma_unescape_one(s[0], escaped_attr(rest));
        lemma_escaped_attr_unescapes(rest);
    }
}

/// A string without any of `&`, `<`, `>` is its own text escape.
pub proof fn lemma_escaped_text_identity(s: Seq<char>)
    requires
        !s.contains('&'),
        !s.contains('<'),
        !s.contains('>'),
    ensures
        escaped_text(s) == s,
    decreases s.len(),
{
    if s.len() > 0 {
        assert(s.drop_last().len() < s.len());
        assert(!s.drop_last().contains('&')) by {
            if s.drop_last().contains('&') {
                let i = choose|i: int| 0 <= i < s.drop_last().len() && s.drop_last()[i] == '&';
                assert(s[i] == '&');
            }
        }
        assert(!s.drop_last().contains('<')) by {
            if s.drop_last().contains('<') {
                let i = choose|i: int| 0 <= i < s.drop_last().len() && s.drop_last()[i] == '<';
                assert(s[i] == '<');
            }
        }
        assert(!s.drop_last().contains('>')) by {
            if s.drop_last().contains('>') {
                let i = choose|i: int| 0 <= i < s.drop_last().len() && s.drop_last()[i] == '>';
                assert(s[i] == '>');
            }
        }
        lemma_escaped_text_identity(s.drop_last());
        assert(s[s.len() - 1] == s.last());
        assert(s =~= s.drop_last() + seq![s.last()]);
    }
}

// ---------------------------------------------------------------------------
// Structured SVG emission
// ---------------------------------------------------------------------------

/// One XML attribute for structured SVG emission.
#[derive(Debug, Clone)]
pub struct SvgAttr {
    name: &'static str,
    value: String,
}

impl SvgAttr {
    /// The attribute name.
    pub closed spec fn name_of(&self) -> Seq<char> {
        self.name@
    }

    /// The (unescaped) attribute value.
    pub closed spec fn value_of(&self) -> Seq<char> {
        self.value@
    }

    pub fn new(name: &'static str, value: String) -> (attr: Self)
        ensures
            attr.name_of() == name@,
            attr.value_of() == value@,
    {
        SvgAttr { name, value }
    }
}

/// The text `name="escaped value"` (with a leading space) of one attribute.
pub open spec fn attr_text(attr: SvgAttr) -> Seq<char> {
    seq![' '] + attr.name_of() + seq!['=', '"'] + escaped_attr(attr.value_of()) + seq!['"']
}

/// The concatenated text of a list of attributes, in order.
pub open spec fn attrs_text(attrs: Seq<SvgAttr>) -> Seq<char>
    decreases attrs.len(),
{
    if attrs.len() == 0 {
        Seq::empty()
    } else {
        attrs_text(attrs.drop_last()) + attr_text(attrs.last())
    }
}

/// Two spaces per indentation level.
pub open spec fn indentation(level: nat) -> Seq<char>
    decreases level,
{
    if level == 0 {
        Seq::empty()
    } else {
        indentation((level - 1) as nat) + seq![' ', ' ']
    }
}

/// The characters of `<` followed by `name`.
pub open spec fn open_tag(name: Seq<char>) -> Seq<char> {
    seq!['<'] + name
}

/// The text of a `<g>` opening line body for the given attribute text.
pub open spec fn group_open_text(attrs: Seq<char>) -> Seq<char> {
    if attrs.len() == 0 {
        seq!['<', 'g', '>', '\n']
    } else {
        seq!['<', 'g', ' '] + attrs + seq!['>', '\n']
    }
}

/// A small incremental SVG writer that tracks indentation.
pub struct SvgWriter {
    buf: String,
    depth: usize,
}

impl SvgWriter {
    /// Everything written so far.
    pub closed spec fn output(&self) -> Seq<char> {
        self.buf@
    }

    /// The current nesting depth.
    pub closed spec fn level(&self) -> nat {
        self.depth as nat
    }

    pub fn new() -> (w: Self)
        ensures
            w.output() == Seq::<char>::empty(),
            w.level() == 0,
    {
        SvgWriter { buf: String::new(), depth: 0 }
    }

    fn indent(&mut self)
        ensures
            final(self).output() == old(self).output() + indentation(old(self).level()),
            final(self).level() == old(self).level(),
    {
        let ghost start = self.buf@;
        let mut i: usize = 0;
        while i < self.depth
            invariant
                i <= self.depth,
                self.depth == old(self).depth,
                self.buf@ == start + indentation(i as nat),
            decreases self.depth - i,
        {
            push_char(&mut self.buf, ' ');
            push_char(&mut self.buf, ' ');
            assert(self.buf@ =~= start + indentation((i + 1) as nat));
            i = i + 1;
        }
    }

    /// Write a full line at the current indent.
    pub fn line(&mut self, text: &str)
        ensures
            final(self).output() == old(self).output() + indentation(old(self).level()) + text@
                + seq!['\n'],
            final(self).level() == old(self).level(),
    {
        self.indent();
        self.buf.append(text);
        push_char(&mut self.buf, '\n');
        assert(self.buf@ =~= old(self).output() + indentation(old(self).level()) + text@
            + seq!['\n']);
    }

    /// Write an empty element with escaped attributes, preserving attribute
    /// order.
    pub fn empty_element(&mut self, name: &str, attrs: &[SvgAttr])
        ensures
            final(self).output() == old(self).output() + indentation(old(self).level())
                + open_tag(name@) + attrs_text(attrs@) + seq![' ', '/', '>', '\n'],
            final(self).level() == old(self).level(),
    {
        self.indent();
        push_char(&mut self.buf, '<');
        self.buf.append(name);
        self.write_attrs(attrs);
        push_char(&mut self.buf, ' ');
        push_char(&mut self.buf, '/');
        push_char(&mut self.buf, '>');
        push_char(&mut self.buf, '\n');
        assert(self.buf@ =~= old(self).output() + indentation(old(self).level()) + open_tag(name@)
            + attrs_text(attrs@) + seq![' ', '/', '>', '\n']);
    }

    /// Write a text element with escaped attributes and escaped text content.
    pub fn text_element(&mut self, name: &str, attrs: &[SvgAttr], text: &str)
        ensures
            final(self).output() == old(self).output() + indentation(old(self).level())
                + open_tag(name@) + attrs_text(attrs@) + seq!['>'] + escaped_text(text@)
                + seq!['<', '/'] + name@ + seq!['>', '\n'],
            final(self).level() == old(self).level(),
    {
        self.indent();
        push_char(&mut self.buf, '<');
        self.buf.append(name);
        self.write_attrs(attrs);
        push_char(&mut self.buf, '>');
        push_escaped_text(&mut self.buf, text);
        push_char(&mut self.buf, '<');
        push_char(&mut self.buf, '/');
        self.buf.append(name);
        push_char(&mut self.buf, '>');
        push_char(&mut self.buf, '\n');
        assert(self.buf@ =~= old(self).output() + indentation(old(self).level()) + open_tag(name@)
            + attrs_text(attrs@) + seq!['>'] + escaped_text(text@) + seq!['<', '/'] + name@
            + seq!['>', '\n']);
    }

    /// Open a group `<g ...>` and increase indentation.
    pub fn open_group(&mut self, attrs: &str)
        requires
            old(self).level() < usize::MAX,
        ensures
            final(self).output() == old(self).output() + indentation(old(self).level())
                + group_open_text(attrs@),
            final(self).level() == old(self).level() + 1,
    {
        self.indent();
        if attrs.is_empty() {
            push_char(&mut self.buf, '<');
            push_char(&mut self.buf, 'g');
            push_char(&mut self.buf, '>');
            push_char(&mut self.buf, '\n');
        } else {
            push_char(&mut self.buf, '<');
            push_char(&mut self.buf, 'g');
            push_char(&mut self.buf, ' ');
            self.buf.append(attrs);
            push_char(&mut self.buf, '>');
            push_char(&mut self.buf, '\n');
        }
        assert(self.buf@ =~= old(self).output() + indentation(old(self).level())
            + group_open_text(attrs@));
        self.depth = self.depth + 1;
    }

    /// Close a group `</g>` one indentation level up (never below zero).
    pub fn close_group(&mut self)
        ensures
            final(self).level() == if old(self).level() == 0 {
                0
            } else {
                (old(self).level() - 1) as nat
            },
            final(self).output() == old(self).output() + indentation(final(self).level())
                + seq!['<', '/', 'g', '>', '\n'],
    {
        self.depth = if self.depth == 0 { 0 } else { self.depth - 1 };
        let ghost mid = self.buf@;
        self.indent();
        push_char(&mut self.buf, '<');
        push_char(&mut self.buf, '/');
        push_char(&mut self.buf, 'g');
        push_char(&mut self.buf, '>');
        push_char(&mut self.buf, '\n');
        assert(self.buf@ =~= mid + indentation(self.depth as nat) + seq!['<', '/', 'g', '>', '\n']);
    }

    /// The finished document text.
    pub fn finish(self) -> (out: String)
        ensures
            out@ == self.output(),
    {
        self.buf
    }

    fn write_attrs(&mut self, attrs: &[SvgAttr])
        ensures
            final(self).output() == old(self).output() + attrs_text(attrs@),
            final(self).level() == old(self).level(),
    {
        let ghost start = self.buf@;
        let mut i: usize = 0;
        while i < attrs.len()
            invariant
                i <= attrs@.len(),
                self.depth == old(self).depth,
                self.buf@ == start + attrs_text(attrs@.take(i as int)),
            decreases attrs@.len() - i,
        {
            let attr = &attrs[i];
            push_char(&mut self.buf, ' ');
            self.buf.append(attr.name);
            push_char(&mut self.buf, '=');
            push_char(&mut self.buf, '"');
            push_escaped_attr(&mut self.buf, attr.value.as_str());
            push_char(&mut self.buf, '"');
            proof {
                assert(attrs@.take(i + 1).drop_last() =~= attrs@.take(i as int));
                assert(attrs@.take(i + 1).last() == attrs@[i as int]);
                assert(self.buf@ =~= start + attrs_text(attrs@.take(i + 1)));
            }
            i = i + 1;
        }
        assert(attrs@.take(i as int) =~= attrs@);
    }
}

/// Opening a group and then closing it (with nothing written between)
/// leaves the writer at the depth it had, with `<g ...>` and `</g>` written
/// at the same indentation.
pub proof fn lemma_group_round_trip(w0: SvgWriter, w1: SvgWriter, w2: SvgWriter, attrs: Seq<char>)
    requires
        w1.output() == w0.output() + indentation(w0.level()) + group_open_text(attrs),
        w1.level() == w0.level() + 1,
        w2.level() == if w1.level() == 0 {
            0
        } else {
            (w1.level() - 1) as nat
        },
        w2.output() == w1.output() + indentation(w2.level()) + seq!['<', '/', 'g', '>', '\n'],
    ensures
        w2.level() == w0.level(),
        w2.output() == w0.output() + indentation(w0.level()) + group_open_text(attrs)
            + indentation(w0.level()) + seq!['<', '/', 'g', '>', '\n'],
{
}

} // verus!
