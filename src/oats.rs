//! The step-sequence language. Each line holds one declaration: a marker
//! (`~` ordered step, `?` optional step, `|` one of, `&` any order,
//! `=` clipboard text for the step before) and its text, up to an
//! optional `//` comment. Lines that hold only a comment are skipped; a
//! run of blank lines between two declarations is a group break.
use vstd::prelude::*;
use crate::graph::opt_view;
use crate::text::{
    chars_of, copy_range, find_exec, find_pat, line_end, line_end_exec, occurs_at,
    occurs_at_exec, string_of, trim_bounds, trimmed, ParseError,
};

verus! {

/// The kind of a declaration.
#[derive(Debug, Clone, Copy, PartialEq, Eq, Structural)]
pub enum Marker {
    Unordered,
    OneOf,
    AndThen,
    Optional,
    Clipbo,
    Breaker,
}

/// One parsed declaration: its marker and its trimmed text.
pub struct Groat {
    pub marker: Option<Marker>,
    pub content: Option<String>,
}

pub struct GroatView {
    pub marker: Option<Marker>,
    pub content: Option<Seq<char>>,
}

impl View for Groat {
    type V = GroatView;

    open spec fn view(&self) -> GroatView {
        GroatView { marker: self.marker, content: opt_view(self.content) }
    }
}

pub open spec fn marker_of(c: char) -> Option<Marker> {
    if c == '&' {
        Some(Marker::Unordered)
    } else if c == '|' {
        Some(Marker::OneOf)
    } else if c == '~' {
        Some(Marker::AndThen)
    } else if c == '?' {
        Some(Marker::Optional)
    } else if c == '=' {
        Some(Marker::Clipbo)
    } else {
        None
    }
}

pub open spec fn comment_mark() -> Seq<char> {
    seq!['/', '/']
}

/// Where the text of a declaration ends: at its comment, or at the end.
pub open spec fn text_end(t: Seq<char>) -> int {
    let c = find_pat(t, 1, comment_mark());
    if c >= 0 {
        c
    } else {
        t.len() as int
    }
}

/// What a trimmed line is.
pub enum LineKind {
    Blank,
    Comment,
    Declaration(GroatView),
}

/// The kind of a trimmed line, or `None` where it breaks the grammar.
pub open spec fn line_kind(t: Seq<char>) -> Option<LineKind> {
    if t.len() == 0 {
        Some(LineKind::Blank)
    } else if occurs_at(t, 0, comment_mark()) {
        Some(LineKind::Comment)
    } else {
        match marker_of(t[0]) {
            Some(m) => Some(
                LineKind::Declaration(
                    GroatView { marker: Some(m), content: Some(trimmed(t.subrange(1, text_end(t)))) },
                ),
            ),
            None => None,
        }
    }
}

pub open spec fn breaker() -> GroatView {
    GroatView { marker: Some(Marker::Breaker), content: None }
}

/// The grains of `s` from position `i`. `gap` tells whether blank lines
/// came after the last declaration; `n` is the number of the line at `i`.
pub open spec fn grains_from(s: Seq<char>, i: int, gap: bool, seen: bool, n: nat) -> Result<Seq<GroatView>, nat>
    decreases s.len() - i, 1nat,
{
    let e = line_end(s, i);
    if !(0 <= i <= e <= s.len()) {
        Ok(Seq::empty())
    } else {
        match line_kind(trimmed(s.subrange(i, e))) {
            None => Err(n),
            Some(LineKind::Blank) => grains_rest(s, e, seen, seen, n, Seq::empty()),
            Some(LineKind::Comment) => grains_rest(s, e, gap, seen, n, Seq::empty()),
            Some(LineKind::Declaration(g)) => grains_rest(
                s,
                e,
                false,
                true,
                n,
                if gap {
                    seq![breaker(), g]
                } else {
                    seq![g]
                },
            ),
        }
    }
}

/// `out` in front of the grains after the line that ends at `e`.
pub open spec fn grains_rest(s: Seq<char>, e: int, gap: bool, seen: bool, n: nat, out: Seq<GroatView>) -> Result<
    Seq<GroatView>,
    nat,
>
    decreases s.len() - e, 0nat,
{
    if e >= s.len() || e < 0 {
        Ok(out)
    } else {
        match grains_from(s, e + 1, gap, seen, n + 1) {
            Ok(gs) => Ok(out + gs),
            Err(m) => Err(m),
        }
    }
}

/// The grains of a whole text, or the number of the first line (from 1)
/// that breaks the grammar.
pub open spec fn oats_grains(text: Seq<char>) -> Result<Seq<GroatView>, nat> {
    grains_from(text, 0, false, false, 1)
}

fn marker_of_exec(c: char) -> (r: Option<Marker>)
    ensures
        r == marker_of(c),
{
    if c == '&' {
        Some(Marker::Unordered)
    } else if c == '|' {
        Some(Marker::OneOf)
    } else if c == '~' {
        Some(Marker::AndThen)
    } else if c == '?' {
        Some(Marker::Optional)
    } else if c == '=' {
        Some(Marker::Clipbo)
    } else {
        None
    }
}

/// A classified line, with a declaration's grain.
enum ParsedLine {
    Blank,
    Comment,
    Declaration(Groat),
}

impl View for ParsedLine {
    type V = LineKind;

    closed spec fn view(&self) -> LineKind {
        match self {
            ParsedLine::Blank => LineKind::Blank,
            ParsedLine::Comment => LineKind::Comment,
            ParsedLine::Declaration(g) => LineKind::Declaration(g@),
        }
    }
}

/// The kind of a trimmed line; a declaration comes back as its grain.
fn line_kind_exec(t: &Vec<char>) -> (r: Option<ParsedLine>)
    ensures
        match r {
            Some(k) => line_kind(t@) == Some(k@),
            None => line_kind(t@) is None,
        },
{
    let cm: [char; 2] = ['/', '/'];
    assert(cm@ =~= comment_mark());
    if t.len() == 0 {
        return Some(ParsedLine::Blank);
    }
    if occurs_at_exec(t, 0, &cm) {
        return Some(ParsedLine::Comment);
    }
    match marker_of_exec(t[0]) {
        Some(m) => {
            let end = match find_exec(t, 1, &cm) {
                Some(c) => c,
                None => t.len(),
            };
            let (a, b) = trim_bounds(t, 1, end);
            let content = string_of(copy_range(t, a, b).as_slice());
            Some(ParsedLine::Declaration(Groat { marker: Some(m), content: Some(content) }))
        },
        None => None,
    }
}

/// Parses a step-sequence text into its grains, or gives the first line
/// that breaks the grammar.
pub fn parse_oats(oats_string: &str) -> (r: Result<Vec<Groat>, ParseError>)
    requires
        oats_string@.len() < usize::MAX,
    ensures
        match oats_grains(oats_string@) {
            Ok(gs) => r is Ok && r->Ok_0@.map_values(|g: Groat| g@) == gs,
            Err(n) => r is Err && r->Err_0.line == n,
        },
{
    let s = chars_of(oats_string);
    let mut out: Vec<Groat> = Vec::new();
    let mut i: usize = 0;
    let mut gap = false;
    let mut seen = false;
    let mut n: usize = 1;
    loop
        invariant
            i <= s@.len(),
            s@ == oats_string@,
            s@.len() < usize::MAX,
            1 <= n <= i + 1,
            gap ==> seen,
            oats_grains(s@) == (match grains_from(s@, i as int, gap, seen, n as nat) {
                Ok(gs) => Ok(out@.map_values(|g: Groat| g@) + gs),
                Err(m) => Err::<Seq<GroatView>, nat>(m),
            }),
        decreases s@.len() - i,
    {
        let e = line_end_exec(&s, i);
        let (a, b) = trim_bounds(&s, i, e);
        let t = copy_range(&s, a, b);
        let ghost before = out@.map_values(|g: Groat| g@);
        let ghost added: Seq<GroatView>;
        match line_kind_exec(&t) {
            None => {
                return Err(ParseError { line: n });
            },
            Some(ParsedLine::Blank) => {
                gap = seen;
                proof { added = Seq::empty(); }
            },
            Some(ParsedLine::Comment) => {
                proof { added = Seq::empty(); }
            },
            Some(ParsedLine::Declaration(g)) => {
                let ghost gv = g@;
                if gap {
                    out.push(Groat { marker: Some(Marker::Breaker), content: None });
                    proof { added = seq![breaker(), gv]; }
                } else {
                    proof { added = seq![gv]; }
                }
                out.push(g);
                gap = false;
                seen = true;
            },
        }
        proof {
            assert(out@.map_values(|g: Groat| g@) =~= before + added);
            match grains_rest(s@, e as int, gap, seen, n as nat, added) {
                Ok(gs) => {},
                Err(m) => {},
            }
            if e < s@.len() {
                match grains_from(s@, e + 1, gap, seen, n as nat + 1) {
                    Ok(gs) => {
                        assert(before + (added + gs) =~= (before + added) + gs);
                    },
                    Err(m) => {},
                }
            }
        }
        if e >= s.len() {
            assert(before + added =~= out@.map_values(|g: Groat| g@));
            return Ok(out);
        }
        i = e + 1;
        n = n + 1;
    }
}

} // verus!
