//! The SVG path data the renderer emits (absolute `M`, `L`, `A` and `Z`
//! commands), split into commands and their operand texts: letters stand
//! alone, and spaces and commas separate everything else.

use vstd::prelude::*;

use crate::text::{chars_of, fields, split_fields, texts};

verus! {

/// Whether a character is an ASCII letter.
pub open spec fn is_ascii_letter(c: char) -> bool {
    ('a' <= c && c <= 'z') || ('A' <= c && c <= 'Z')
}

/// The path text with a space on each side of every letter.
pub open spec fn spaced(d: Seq<char>) -> Seq<char>
    decreases d.len(),
{
    if d.len() == 0 {
        Seq::empty()
    } else {
        spaced(d.drop_last()) + if is_ascii_letter(d.last()) {
            seq![' ', d.last(), ' ']
        } else {
            seq![d.last()]
        }
    }
}

fn spaced_chars(d: &str) -> (s: Vec<char>)
    ensures
        s@ == spaced(d@),
{
    let chars = chars_of(d);
    let mut s: Vec<char> = Vec::new();
    let mut i: usize = 0;
    while i < chars.len()
        invariant
            chars@ == d@,
            i <= chars@.len(),
            s@ == spaced(d@.take(i as int)),
        decreases chars@.len() - i,
    {
        assert(d@.take(i + 1).drop_last() =~= d@.take(i as int));
        let c = chars[i];
        if ('a' <= c && c <= 'z') || ('A' <= c && c <= 'Z') {
            s.push(' ');
            s.push(c);
            s.push(' ');
        } else {
            s.push(c);
        }
        assert(s@ =~= spaced(d@.take(i + 1)));
        i = i + 1;
    }
    assert(d@.take(chars@.len() as int) =~= d@);
    s
}

/// The tokens of a path text: after letters are set apart, the fields
/// separated by spaces and commas.
pub fn path_tokens(d: &str) -> (toks: Vec<String>)
    ensures
        texts(toks@) == fields(spaced(d@), false),
{
    let s = spaced_chars(d);
    split_fields(s.as_slice(), false)
}

// ---------------------------------------------------------------------------
// Commands
// ---------------------------------------------------------------------------

/// How many operands a path command takes: two for `M` and `L`, seven for
/// `A`, none for `Z` or `z`; other tokens are not commands.
pub open spec fn operand_count(cmd: Seq<char>) -> Option<nat> {
    if cmd == seq!['M'] || cmd == seq!['L'] {
        Some(2)
    } else if cmd == seq!['A'] {
        Some(7)
    } else if cmd == seq!['Z'] || cmd == seq!['z'] {
        Some(0)
    } else {
        None
    }
}

/// The commands of the tokens from index `i` on, each with its operand
/// tokens; none when a token where a command belongs is not one, or the
/// tokens run out before a command's operands do.
pub open spec fn command_groups(toks: Seq<Seq<char>>, i: int) -> Option<
    Seq<(char, Seq<Seq<char>>)>,
>
    decreases toks.len() - i,
{
    if i < 0 || i >= toks.len() {
        Some(Seq::empty())
    } else {
        match operand_count(toks[i]) {
            None => None,
            Some(n) => if i + 1 + n > toks.len() {
                None
            } else {
                match command_groups(toks, i + 1 + n) {
                    None => None,
                    Some(rest) => Some(
                        seq![(toks[i][0], toks.subrange(i + 1, i + 1 + n))] + rest,
                    ),
                }
            },
        }
    }
}

/// One path command and the texts of its operands.
#[derive(Debug, Clone, PartialEq, Eq)]
pub struct PathSegment {
    pub command: char,
    pub operands: Vec<String>,
}

/// The command and operand texts of a segment.
pub open spec fn segment_view(seg: PathSegment) -> (char, Seq<Seq<char>>) {
    (seg.command, texts(seg.operands@))
}

fn operand_count_of(token: &String) -> (n: Option<usize>)
    ensures
        match operand_count(token@) {
            Some(k) => n == Some(k as usize),
            None => n is None,
        },
{
    let c = chars_of(token.as_str());
    if c.len() != 1 {
        assert(token@.len() != 1);
        return None;
    }
    let ch = c[0];
    assert(token@ =~= seq![ch]);
    if ch == 'M' || ch == 'L' {
        Some(2)
    } else if ch == 'A' {
        Some(7)
    } else if ch == 'Z' || ch == 'z' {
        Some(0)
    } else {
        None
    }
}

/// Split path data into commands and operand texts; `None` when a command
/// is unknown or its operands are missing.
pub fn path_segments(d: &str) -> (segs: Option<Vec<PathSegment>>)
    ensures
        match segs {
            Some(v) => command_groups(fields(spaced(d@), false), 0) == Some(
                v@.map_values(|s: PathSegment| segment_view(s)),
            ),
            None => command_groups(fields(spaced(d@), false), 0) is None,
        },
{
    let toks = path_tokens(d);
    let ghost tv = texts(toks@);
    let mut segs: Vec<PathSegment> = Vec::new();
    let mut i: usize = 0;
    assert(segs@.map_values(|s: PathSegment| segment_view(s)) =~= Seq::<
        (char, Seq<Seq<char>>),
    >::empty());
    while i < toks.len()
        invariant
            tv == texts(toks@),
            tv == fields(spaced(d@), false),
            i <= toks@.len(),
            command_groups(tv, 0) == match command_groups(tv, i as int) {
                Some(rest) => Some(segs@.map_values(|s: PathSegment| segment_view(s)) + rest),
                None => None,
            },
        decreases toks@.len() - i,
    {
        let n = match operand_count_of(&toks[i]) {
            Some(n) => n,
            None => {
                assert(tv[i as int] == toks@[i as int]@);
                return None;
            },
        };
        assert(tv[i as int] == toks@[i as int]@);
        if n > toks.len() - i - 1 {
            return None;
        }
        let command = chars_of(toks[i].as_str())[0];
        let mut operands: Vec<String> = Vec::new();
        let mut k: usize = 0;
        let len = toks.len();
        while k < n
            invariant
                len == toks@.len(),
                tv == texts(toks@),
                i + 1 + n <= toks@.len(),
                k <= n,
                texts(operands@) == tv.subrange(i + 1, i + 1 + k),
            decreases n - k,
        {
            let ghost before = texts(operands@);
            let at = i + 1 + k;
            let token = toks[at].clone();
            assert(tv[at as int] == token@);
            operands.push(token);
            assert(texts(operands@) =~= before.push(token@));
            assert(texts(operands@) =~= tv.subrange(i + 1, i + 1 + k + 1));
            k = k + 1;
        }
        let ghost done = segs@.map_values(|s: PathSegment| segment_view(s));
        let seg = PathSegment { command, operands };
        assert(segment_view(seg) == (tv[i as int][0], tv.subrange(i + 1, i + 1 + n)));
        segs.push(seg);
        assert(segs@.map_values(|s: PathSegment| segment_view(s)) =~= done.push(segment_view(seg)));
        i = i + 1 + n;
    }
    Some(segs)
}

} // verus!
