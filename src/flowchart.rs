//! The grammar of one flowchart line, stated as spec functions over the
//! line's characters, with a parser proved to compute exactly them.
//!
//! A line is a node cluster, then any number of edge and cluster pairs,
//! then an optional `;`. A cluster is `A & B & C` or `(A, B, C)`. A node
//! is an id (letters, digits, `_`) with an optional shape such as `[..]`,
//! `(..)` or `{..}` holding a label, a quoted label, a command
//! `"run[..]"` or a clipboard text `"copy[..]"`. An edge is `-->`, `---`,
//! `--text-->` or `--text---`, optionally followed by `|text|`.
use vstd::prelude::*;
use crate::graph::opt_view;
use crate::mermaid::{decl_view, edge_decl_view, DeclView, EdgeDecl, EdgeDeclView, Line, LineView, NodeDecl};
use crate::text::{chars_of, copy_range, find_exec, find_pat, line_end, line_end_exec, is_blank, is_blank_char, occurs_at, occurs_at_exec, string_of, trim_bounds, trimmed};

verus! {

pub open spec fn is_id_char(c: char) -> bool {
    ('a' <= c && c <= 'z') || ('A' <= c && c <= 'Z') || ('0' <= c && c <= '9') || c == '_'
}

/// The end of the run of id characters that starts at `i`.
pub open spec fn id_end(s: Seq<char>, i: int) -> int
    decreases s.len() - i,
{
    if 0 <= i < s.len() && is_id_char(s[i]) {
        id_end(s, i + 1)
    } else {
        i
    }
}

/// The first position at or after `i` that is not a blank.
pub open spec fn skip_blanks(s: Seq<char>, i: int) -> int
    decreases s.len() - i,
{
    if 0 <= i < s.len() && is_blank(s[i]) {
        skip_blanks(s, i + 1)
    } else {
        i
    }
}

/// The escape sequence that stands for a double quote in payload text.
pub open spec fn quot_marker() -> Seq<char> {
    seq!['#', 'q', 'u', 'o', 't', ';']
}

/// Payload text with each escape sequence replaced by a double quote.
pub open spec fn decode(t: Seq<char>) -> Seq<char>
    decreases t.len(),
{
    if t.len() == 0 {
        t
    } else if occurs_at(t, 0, quot_marker()) {
        seq!['"'] + decode(t.subrange(6, t.len() as int))
    } else {
        seq![t[0]] + decode(t.drop_first())
    }
}

/// Empty text stands for no value.
pub open spec fn non_empty(t: Seq<char>) -> Option<Seq<char>> {
    if t.len() > 0 {
        Some(t)
    } else {
        None
    }
}

/// The shape that opens at `i`: the length of its opening delimiter and
/// its closing delimiter.
pub open spec fn shape_at(s: Seq<char>, i: int) -> Option<(int, Seq<char>)> {
    if occurs_at(s, i, seq!['(', '(']) {
        Some((2, seq![')', ')']))
    } else if occurs_at(s, i, seq!['(', '[']) {
        Some((2, seq![']', ')']))
    } else if occurs_at(s, i, seq!['[', '[']) {
        Some((2, seq![']', ']']))
    } else if occurs_at(s, i, seq!['[', '(']) {
        Some((2, seq![')', ']']))
    } else if occurs_at(s, i, seq!['{', '{']) {
        Some((2, seq!['}', '}']))
    } else if occurs_at(s, i, seq!['(']) {
        Some((1, seq![')']))
    } else if occurs_at(s, i, seq!['[']) {
        Some((1, seq![']']))
    } else if occurs_at(s, i, seq!['{']) {
        Some((1, seq!['}']))
    } else {
        None
    }
}

pub open spec fn run_open() -> Seq<char> {
    seq!['"', 'r', 'u', 'n', '[']
}

pub open spec fn copy_open() -> Seq<char> {
    seq!['"', 'c', 'o', 'p', 'y', '[']
}

pub open spec fn payload_close() -> Seq<char> {
    seq![']', '"']
}

/// What a shape holds, from `p` up to its closing delimiter `close`:
/// (label, command, clipboard text, position after the shape).
pub open spec fn payload(s: Seq<char>, p: int, close: Seq<char>) -> Option<
    (Option<Seq<char>>, Option<Seq<char>>, Option<Seq<char>>, int),
> {
    if occurs_at(s, p, run_open()) {
        let e = find_pat(s, p + 5, payload_close());
        if e >= 0 && occurs_at(s, e + 2, close) {
            Some((None, non_empty(decode(s.subrange(p + 5, e))), None, e + 2 + close.len()))
        } else {
            None
        }
    } else if occurs_at(s, p, copy_open()) {
        let e = find_pat(s, p + 6, payload_close());
        if e >= 0 && occurs_at(s, e + 2, close) {
            Some((None, None, non_empty(decode(s.subrange(p + 6, e))), e + 2 + close.len()))
        } else {
            None
        }
    } else if occurs_at(s, p, seq!['"']) {
        let e = find_pat(s, p + 1, seq!['"']);
        if e >= 0 && occurs_at(s, e + 1, close) {
            Some((non_empty(s.subrange(p + 1, e)), None, None, e + 1 + close.len()))
        } else {
            None
        }
    } else {
        let e = find_pat(s, p, close);
        if e >= 0 {
            Some((non_empty(trimmed(s.subrange(p, e))), None, None, e + close.len()))
        } else {
            None
        }
    }
}

/// The node that starts at `i`, and the position after it.
pub open spec fn node_at(s: Seq<char>, i: int) -> Option<(DeclView, int)> {
    let e = id_end(s, i);
    if !(0 <= i < e) {
        None
    } else {
        let id = s.subrange(i, e);
        match shape_at(s, e) {
            None => Some(((id, None, None, None), e)),
            Some((open, close)) => match payload(s, e + open, close) {
                Some((label, cmd, cb, n)) => Some(((id, label, cmd, cb), n)),
                None => None,
            },
        }
    }
}

/// Nodes joined by `&`, from `i`.
pub open spec fn amp_nodes(s: Seq<char>, i: int) -> Option<(Seq<DeclView>, int)>
    decreases s.len() - i,
{
    match node_at(s, i) {
        None => None,
        Some((d, j)) => {
            let k = skip_blanks(s, j);
            if 0 <= k < s.len() && s[k] == '&' {
                let m = skip_blanks(s, k + 1);
                if i < m <= s.len() {
                    match amp_nodes(s, m) {
                        Some((ds, n)) => Some((seq![d] + ds, n)),
                        None => None,
                    }
                } else {
                    None
                }
            } else {
                Some((seq![d], j))
            }
        },
    }
}

/// Nodes joined by `,` up to a closing `)`, from `i`.
pub open spec fn comma_nodes(s: Seq<char>, i: int) -> Option<(Seq<DeclView>, int)>
    decreases s.len() - i,
{
    match node_at(s, i) {
        None => None,
        Some((d, j)) => {
            let k = skip_blanks(s, j);
            if 0 <= k < s.len() && s[k] == ',' {
                let m = skip_blanks(s, k + 1);
                if i < m <= s.len() {
                    match comma_nodes(s, m) {
                        Some((ds, n)) => Some((seq![d] + ds, n)),
                        None => None,
                    }
                } else {
                    None
                }
            } else if 0 <= k < s.len() && s[k] == ')' {
                Some((seq![d], k + 1))
            } else {
                None
            }
        },
    }
}

/// The node cluster that starts at `i`.
pub open spec fn cluster_at(s: Seq<char>, i: int) -> Option<(Seq<DeclView>, int)> {
    if 0 <= i < s.len() && s[i] == '(' {
        comma_nodes(s, skip_blanks(s, i + 1))
    } else {
        amp_nodes(s, i)
    }
}

pub open spec fn arrow() -> Seq<char> {
    seq!['-', '-', '>']
}

pub open spec fn plain_line() -> Seq<char> {
    seq!['-', '-', '-']
}

/// The arrow that starts at `k`: whether it is directed, its inline
/// label, and the position after it.
pub open spec fn arrow_at(s: Seq<char>, k: int) -> Option<(bool, Option<Seq<char>>, int)> {
    if occurs_at(s, k, arrow()) {
        Some((true, None, k + 3))
    } else if occurs_at(s, k, plain_line()) {
        Some((false, None, k + 3))
    } else if occurs_at(s, k, seq!['-', '-']) {
        let e1 = find_pat(s, k + 2, arrow());
        let e2 = find_pat(s, k + 2, plain_line());
        if e1 >= 0 && (e2 < 0 || e1 < e2) {
            Some((true, non_empty(trimmed(s.subrange(k + 2, e1))), e1 + 3))
        } else if e2 >= 0 {
            Some((false, non_empty(trimmed(s.subrange(k + 2, e2))), e2 + 3))
        } else {
            None
        }
    } else {
        None
    }
}

/// The edge that starts at `k`, with an optional `|label|` after the
/// arrow, which wins over an inline one.
pub open spec fn edge_at(s: Seq<char>, k: int) -> Option<(EdgeDeclView, int)> {
    match arrow_at(s, k) {
        None => None,
        Some((directed, inline, p)) => {
            let q = skip_blanks(s, p);
            if 0 <= q < s.len() && s[q] == '|' {
                let e = find_pat(s, q + 1, seq!['|']);
                if e >= 0 {
                    Some(((directed, non_empty(trimmed(s.subrange(q + 1, e)))), e + 1))
                } else {
                    None
                }
            } else {
                Some(((directed, inline), p))
            }
        },
    }
}

/// The edges and clusters that follow a cluster ending at `j`.
pub open spec fn line_rest(s: Seq<char>, j: int) -> Option<(Seq<EdgeDeclView>, Seq<Seq<DeclView>>)>
    decreases s.len() - j,
{
    let k = skip_blanks(s, j);
    if k >= s.len() {
        Some((Seq::empty(), Seq::empty()))
    } else if s[k] == ';' && skip_blanks(s, k + 1) >= s.len() {
        Some((Seq::empty(), Seq::empty()))
    } else {
        match edge_at(s, k) {
            None => None,
            Some((e, m)) => match cluster_at(s, skip_blanks(s, m)) {
                None => None,
                Some((c, n)) => if j < n <= s.len() {
                    match line_rest(s, n) {
                        Some((es, cs)) => Some((seq![e] + es, seq![c] + cs)),
                        None => None,
                    }
                } else {
                    None
                },
            },
        }
    }
}

/// One line of node clusters and edges.
pub open spec fn parse_line(s: Seq<char>) -> Option<LineView> {
    match cluster_at(s, 0) {
        None => None,
        Some((c, j)) => if 0 <= j <= s.len() {
            match line_rest(s, j) {
                Some((es, cs)) => Some(LineView { clusters: seq![c] + cs, edges: es }),
                None => None,
            }
        } else {
            None
        },
    }
}

// ---------------------------------------------------------------------
// The parser.

fn is_id_char_exec(c: char) -> (r: bool)
    ensures
        r == is_id_char(c),
{
    ('a' <= c && c <= 'z') || ('A' <= c && c <= 'Z') || ('0' <= c && c <= '9') || c == '_'
}

fn id_end_exec(s: &Vec<char>, i: usize) -> (r: usize)
    requires
        i <= s@.len(),
    ensures
        r == id_end(s@, i as int),
        i <= r <= s@.len(),
{
    let mut k = i;
    while k < s.len() && is_id_char_exec(s[k])
        invariant
            i <= k <= s@.len(),
            id_end(s@, i as int) == id_end(s@, k as int),
        decreases s.len() - k,
    {
        k = k + 1;
    }
    k
}

fn skip_blanks_exec(s: &Vec<char>, i: usize) -> (r: usize)
    requires
        i <= s@.len(),
    ensures
        r == skip_blanks(s@, i as int),
        i <= r <= s@.len(),
{
    let mut k = i;
    while k < s.len() && is_blank_char(s[k])
        invariant
            i <= k <= s@.len(),
            skip_blanks(s@, i as int) == skip_blanks(s@, k as int),
        decreases s.len() - k,
    {
        k = k + 1;
    }
    k
}

proof fn lemma_decode_step(t: Seq<char>, i: int)
    requires
        0 <= i < t.len(),
    ensures
        occurs_at(t, i, quot_marker()) ==> decode(t.subrange(i, t.len() as int)) == seq!['"'] + decode(
            t.subrange(i + 6, t.len() as int),
        ),
        !occurs_at(t, i, quot_marker()) ==> decode(t.subrange(i, t.len() as int)) == seq![t[i]]
            + decode(t.subrange(i + 1, t.len() as int)),
{
    let u = t.subrange(i, t.len() as int);
    if occurs_at(t, i, quot_marker()) {
        assert(u.subrange(0, 6) =~= t.subrange(i, i + 6));
        assert(u.subrange(6, u.len() as int) =~= t.subrange(i + 6, t.len() as int));
    } else {
        if occurs_at(u, 0, quot_marker()) {
            assert(u.subrange(0, 6) =~= t.subrange(i, i + 6));
        }
        assert(u.drop_first() =~= t.subrange(i + 1, t.len() as int));
    }
}

/// Payload text with each escape sequence replaced by a double quote.
pub fn decode_quotes(t: &Vec<char>) -> (r: Vec<char>)
    ensures
        r@ == decode(t@),
{
    let quot: [char; 6] = ['#', 'q', 'u', 'o', 't', ';'];
    assert(quot@ =~= quot_marker());
    let mut out: Vec<char> = Vec::new();
    let mut i: usize = 0;
    assert(t@.subrange(0, t@.len() as int) =~= t@);
    while i < t.len()
        invariant
            i <= t@.len(),
            quot@ == quot_marker(),
            decode(t@) == out@ + decode(t@.subrange(i as int, t@.len() as int)),
        decreases t.len() - i,
    {
        proof { lemma_decode_step(t@, i as int); }
        if occurs_at_exec(t, i, &quot) {
            out.push('"');
            i = i + 6;
        } else {
            out.push(t[i]);
            i = i + 1;
        }
        proof {
            assert(out@ + decode(t@.subrange(i as int, t@.len() as int)) =~= out@.drop_last() + (seq![out@.last()] + decode(t@.subrange(i as int, t@.len() as int))));
        }
    }
    assert(t@.subrange(i as int, t@.len() as int) =~= Seq::<char>::empty());
    assert(out@ + Seq::<char>::empty() =~= out@);
    out
}

proof fn lemma_decode_plain(s: Seq<char>, t: Seq<char>)
    requires
        !s.contains('#'),
    ensures
        decode(s + t) == s + decode(t),
    decreases s.len(),
{
    if s.len() > 0 {
        let u = s + t;
        assert(u[0] == s[0]);
        assert(!occurs_at(u, 0, quot_marker())) by {
            if occurs_at(u, 0, quot_marker()) {
                assert(u.subrange(0, 6)[0] == '#');
                assert(s[0] == '#');
            }
        }
        assert(u.drop_first() =~= s.drop_first() + t);
        assert(!s.drop_first().contains('#')) by {
            if s.drop_first().contains('#') {
                let j = choose|j: int| 0 <= j < s.drop_first().len() && s.drop_first()[j] == '#';
                assert(s[j + 1] == '#');
            }
        }
        lemma_decode_plain(s.drop_first(), t);
        assert(seq![s[0]] + (s.drop_first() + decode(t)) =~= s + decode(t));
    } else {
        assert(s + t =~= t);
        assert(s + decode(t) =~= decode(t));
    }
}

/// Quoted payload text: text without `#` between two escape sequences
/// decodes to the same text between two double quotes.
pub proof fn lemma_decode_quoted(s: Seq<char>)
    requires
        !s.contains('#'),
    ensures
        decode(quot_marker() + s + quot_marker()) == seq!['"'] + s + seq!['"'],
{
    let q = quot_marker();
    let u = q + s + q;
    assert(u.subrange(0, 6) =~= q);
    assert(u.subrange(6, u.len() as int) =~= s + q);
    lemma_decode_plain(s, q);
    assert(q.subrange(0, 6) =~= q);
    assert(q.subrange(6, 6) =~= Seq::<char>::empty());
    assert(decode(Seq::<char>::empty()) == Seq::<char>::empty());
    assert(decode(q) =~= seq!['"']);
    assert(seq!['"'] + (s + seq!['"']) =~= seq!['"'] + s + seq!['"']);
}

fn text_of(s: &Vec<char>, a: usize, b: usize) -> (r: Option<String>)
    requires
        a <= b <= s@.len(),
    ensures
        opt_view(r) == non_empty(s@.subrange(a as int, b as int)),
{
    if a == b {
        None
    } else {
        let v = copy_range(s, a, b);
        Some(string_of(v.as_slice()))
    }
}

fn trimmed_text_of(s: &Vec<char>, a: usize, b: usize) -> (r: Option<String>)
    requires
        a <= b <= s@.len(),
    ensures
        opt_view(r) == non_empty(trimmed(s@.subrange(a as int, b as int))),
{
    let (x, y) = trim_bounds(s, a, b);
    text_of(s, x, y)
}

fn decoded_text_of(s: &Vec<char>, a: usize, b: usize) -> (r: Option<String>)
    requires
        a <= b <= s@.len(),
    ensures
        opt_view(r) == non_empty(decode(s@.subrange(a as int, b as int))),
{
    let v = copy_range(s, a, b);
    let d = decode_quotes(&v);
    if d.len() == 0 {
        None
    } else {
        Some(string_of(d.as_slice()))
    }
}

fn shape_at_exec(s: &Vec<char>, i: usize) -> (r: Option<(usize, Vec<char>)>)
    ensures
        match r {
            Some((n, close)) => shape_at(s@, i as int) == Some((n as int, close@)) && i + n
                <= s@.len() && close@.len() > 0,
            None => shape_at(s@, i as int) is None,
        },
{
    let circle: [char; 2] = ['(', '('];
    let stadium: [char; 2] = ['(', '['];
    let subroutine: [char; 2] = ['[', '['];
    let cylinder: [char; 2] = ['[', '('];
    let hexagon: [char; 2] = ['{', '{'];
    let round: [char; 1] = ['('];
    let square: [char; 1] = ['['];
    let rhombus: [char; 1] = ['{'];
    assert(circle@ =~= seq!['(', '(']);
    assert(stadium@ =~= seq!['(', '[']);
    assert(subroutine@ =~= seq!['[', '[']);
    assert(cylinder@ =~= seq!['[', '(']);
    assert(hexagon@ =~= seq!['{', '{']);
    assert(round@ =~= seq!['(']);
    assert(square@ =~= seq!['[']);
    assert(rhombus@ =~= seq!['{']);
    assert(seq!['(', '('].len() == 2);
    let r = if occurs_at_exec(s, i, &circle) {
        Some((2, vec![')', ')']))
    } else if occurs_at_exec(s, i, &stadium) {
        Some((2, vec![']', ')']))
    } else if occurs_at_exec(s, i, &subroutine) {
        Some((2, vec![']', ']']))
    } else if occurs_at_exec(s, i, &cylinder) {
        Some((2, vec![')', ']']))
    } else if occurs_at_exec(s, i, &hexagon) {
        Some((2, vec!['}', '}']))
    } else if occurs_at_exec(s, i, &round) {
        Some((1, vec![')']))
    } else if occurs_at_exec(s, i, &square) {
        Some((1, vec![']']))
    } else if occurs_at_exec(s, i, &rhombus) {
        Some((1, vec!['}']))
    } else {
        None
    };
    proof {
        if r is Some {
            let (n, close) = r->0;
            let (m, expected) = shape_at(s@, i as int)->0;
            assert(close@ =~= expected);
        }
    }
    r
}


fn payload_exec(s: &Vec<char>, p: usize, close: &Vec<char>) -> (r: Option<
    (Option<String>, Option<String>, Option<String>, usize),
>)
    requires
        p <= s@.len(),
        close@.len() > 0,
    ensures
        match r {
            Some((l, c, b, n)) => payload(s@, p as int, close@) == Some(
                (opt_view(l), opt_view(c), opt_view(b), n as int),
            ) && p < n <= s@.len(),
            None => payload(s@, p as int, close@) is None,
        },
{
    let run: [char; 5] = ['"', 'r', 'u', 'n', '['];
    let copy: [char; 6] = ['"', 'c', 'o', 'p', 'y', '['];
    let end: [char; 2] = [']', '"'];
    let quote: [char; 1] = ['"'];
    assert(run@ =~= run_open());
    assert(copy@ =~= copy_open());
    assert(end@ =~= payload_close());
    assert(quote@ =~= seq!['"']);
    let slen = s.len();
    assert(run_open().len() == 5);
    assert(copy_open().len() == 6);
    assert(payload_close().len() == 2);
    if occurs_at_exec(s, p, &run) {
        match find_exec(s, p + 5, &end) {
            Some(e) => {
                if occurs_at_exec(s, e + 2, close.as_slice()) {
                    Some((None, decoded_text_of(s, p + 5, e), None, e + 2 + close.len()))
                } else {
                    None
                }
            },
            None => None,
        }
    } else if occurs_at_exec(s, p, &copy) {
        match find_exec(s, p + 6, &end) {
            Some(e) => {
                if occurs_at_exec(s, e + 2, close.as_slice()) {
                    Some((None, None, decoded_text_of(s, p + 6, e), e + 2 + close.len()))
                } else {
                    None
                }
            },
            None => None,
        }
    } else if occurs_at_exec(s, p, &quote) {
        match find_exec(s, p + 1, &quote) {
            Some(e) => {
                if occurs_at_exec(s, e + 1, close.as_slice()) {
                    Some((text_of(s, p + 1, e), None, None, e + 1 + close.len()))
                } else {
                    None
                }
            },
            None => None,
        }
    } else {
        match find_exec(s, p, close.as_slice()) {
            Some(e) => Some((trimmed_text_of(s, p, e), None, None, e + close.len())),
            None => None,
        }
    }
}

fn node_exec(s: &Vec<char>, i: usize) -> (r: Option<(NodeDecl, usize)>)
    requires
        i <= s@.len(),
    ensures
        match r {
            Some((d, n)) => node_at(s@, i as int) == Some((decl_view(d), n as int)) && i < n <= s@.len(),
            None => node_at(s@, i as int) is None,
        },
{
    let slen = s.len();
    let e = id_end_exec(s, i);
    if e == i {
        return None;
    }
    let id = string_of(copy_range(s, i, e).as_slice());
    match shape_at_exec(s, e) {
        None => Some(((id, None, None, None), e)),
        Some((open, close)) => {
            proof {
                if open == 1 {
                    assert(occurs_at(s@, e as int, seq!['(']) || occurs_at(s@, e as int, seq!['[']) || occurs_at(s@, e as int, seq!['{']));
                }
            }
            match payload_exec(s, e + open, &close) {
                Some((label, cmd, cb, n)) => Some(((id, label, cmd, cb), n)),
                None => None,
            }
        },
    }
}

fn amp_nodes_exec(s: &Vec<char>, i: usize) -> (r: Option<(Vec<NodeDecl>, usize)>)
    requires
        i <= s@.len(),
    ensures
        match r {
            Some((ds, n)) => amp_nodes(s@, i as int) == Some((ds@.map_values(|d: NodeDecl| decl_view(d)), n as int)) && n <= s@.len(),
            None => amp_nodes(s@, i as int) is None,
        },
    decreases s@.len() - i,
{
    match node_exec(s, i) {
        None => None,
        Some((d, j)) => {
            let k = skip_blanks_exec(s, j);
            if k < s.len() && s[k] == '&' {
                let m = skip_blanks_exec(s, k + 1);
                match amp_nodes_exec(s, m) {
                    Some((mut ds, n)) => {
                        let ghost dv = decl_view(d);
                        let ghost rest = ds@.map_values(|d: NodeDecl| decl_view(d));
                        ds.insert(0, d);
                        assert(ds@.map_values(|d: NodeDecl| decl_view(d)) =~= seq![dv] + rest);
                        Some((ds, n))
                    },
                    None => None,
                }
            } else {
                let ghost dv = decl_view(d);
                let ds = vec![d];
                assert(ds@.map_values(|d: NodeDecl| decl_view(d)) =~= seq![dv]);
                Some((ds, j))
            }
        },
    }
}

fn comma_nodes_exec(s: &Vec<char>, i: usize) -> (r: Option<(Vec<NodeDecl>, usize)>)
    requires
        i <= s@.len(),
    ensures
        match r {
            Some((ds, n)) => comma_nodes(s@, i as int) == Some((ds@.map_values(|d: NodeDecl| decl_view(d)), n as int)) && n <= s@.len(),
            None => comma_nodes(s@, i as int) is None,
        },
    decreases s@.len() - i,
{
    match node_exec(s, i) {
        None => None,
        Some((d, j)) => {
            let k = skip_blanks_exec(s, j);
            if k < s.len() && s[k] == ',' {
                let m = skip_blanks_exec(s, k + 1);
                match comma_nodes_exec(s, m) {
                    Some((mut ds, n)) => {
                        let ghost dv = decl_view(d);
                        let ghost rest = ds@.map_values(|d: NodeDecl| decl_view(d));
                        ds.insert(0, d);
                        assert(ds@.map_values(|d: NodeDecl| decl_view(d)) =~= seq![dv] + rest);
                        Some((ds, n))
                    },
                    None => None,
                }
            } else if k < s.len() && s[k] == ')' {
                let ghost dv = decl_view(d);
                let ds = vec![d];
                assert(ds@.map_values(|d: NodeDecl| decl_view(d)) =~= seq![dv]);
                Some((ds, k + 1))
            } else {
                None
            }
        },
    }
}

fn cluster_exec(s: &Vec<char>, i: usize) -> (r: Option<(Vec<NodeDecl>, usize)>)
    requires
        i <= s@.len(),
    ensures
        match r {
            Some((ds, n)) => cluster_at(s@, i as int) == Some((ds@.map_values(|d: NodeDecl| decl_view(d)), n as int)) && n <= s@.len(),
            None => cluster_at(s@, i as int) is None,
        },
{
    if i < s.len() && s[i] == '(' {
        let m = skip_blanks_exec(s, i + 1);
        comma_nodes_exec(s, m)
    } else {
        amp_nodes_exec(s, i)
    }
}


fn arrow_exec(s: &Vec<char>, k: usize) -> (r: Option<(bool, Option<String>, usize)>)
    requires
        k <= s@.len(),
    ensures
        match r {
            Some((d, l, p)) => arrow_at(s@, k as int) == Some((d, opt_view(l), p as int)) && k < p <= s@.len(),
            None => arrow_at(s@, k as int) is None,
        },
{
    let slen = s.len();
    let arr: [char; 3] = ['-', '-', '>'];
    let plain: [char; 3] = ['-', '-', '-'];
    let dash: [char; 2] = ['-', '-'];
    assert(arr@ =~= arrow());
    assert(plain@ =~= plain_line());
    assert(dash@ =~= seq!['-', '-']);
    assert(arrow().len() == 3 && plain_line().len() == 3);
    if occurs_at_exec(s, k, &arr) {
        Some((true, None, k + 3))
    } else if occurs_at_exec(s, k, &plain) {
        Some((false, None, k + 3))
    } else if occurs_at_exec(s, k, &dash) {
        let e1 = find_exec(s, k + 2, &arr);
        let e2 = find_exec(s, k + 2, &plain);
        match (e1, e2) {
            (Some(a), None) => Some((true, trimmed_text_of(s, k + 2, a), a + 3)),
            (Some(a), Some(b)) => {
                if a < b {
                    Some((true, trimmed_text_of(s, k + 2, a), a + 3))
                } else {
                    Some((false, trimmed_text_of(s, k + 2, b), b + 3))
                }
            },
            (None, Some(b)) => Some((false, trimmed_text_of(s, k + 2, b), b + 3)),
            (None, None) => None,
        }
    } else {
        None
    }
}

fn edge_exec(s: &Vec<char>, k: usize) -> (r: Option<(EdgeDecl, usize)>)
    requires
        k <= s@.len(),
    ensures
        match r {
            Some((e, n)) => edge_at(s@, k as int) == Some((edge_decl_view(e), n as int)) && k < n <= s@.len(),
            None => edge_at(s@, k as int) is None,
        },
{
    let pipe: [char; 1] = ['|'];
    assert(pipe@ =~= seq!['|']);
    match arrow_exec(s, k) {
        None => None,
        Some((directed, inline, p)) => {
            let q = skip_blanks_exec(s, p);
            if q < s.len() && s[q] == '|' {
                match find_exec(s, q + 1, &pipe) {
                    Some(e) => Some(((directed, trimmed_text_of(s, q + 1, e)), e + 1)),
                    None => None,
                }
            } else {
                Some(((directed, inline), p))
            }
        },
    }
}

fn line_rest_exec(s: &Vec<char>, j: usize) -> (r: Option<(Vec<EdgeDecl>, Vec<Vec<NodeDecl>>)>)
    requires
        j <= s@.len(),
    ensures
        match r {
            Some((es, cs)) => line_rest(s@, j as int) == Some((
                es@.map_values(|e: EdgeDecl| edge_decl_view(e)),
                cs@.map_values(|c: Vec<NodeDecl>| c@.map_values(|d: NodeDecl| decl_view(d))),
            )) && es@.len() == cs@.len(),
            None => line_rest(s@, j as int) is None,
        },
    decreases s@.len() - j,
{
    let k = skip_blanks_exec(s, j);
    if k >= s.len() {
        let es: Vec<EdgeDecl> = Vec::new();
        let cs: Vec<Vec<NodeDecl>> = Vec::new();
        assert(es@.map_values(|e: EdgeDecl| edge_decl_view(e)) =~= Seq::<EdgeDeclView>::empty());
        assert(cs@.map_values(|c: Vec<NodeDecl>| c@.map_values(|d: NodeDecl| decl_view(d))) =~= Seq::<Seq<DeclView>>::empty());
        return Some((es, cs));
    }
    if s[k] == ';' && skip_blanks_exec(s, k + 1) >= s.len() {
        let es: Vec<EdgeDecl> = Vec::new();
        let cs: Vec<Vec<NodeDecl>> = Vec::new();
        assert(es@.map_values(|e: EdgeDecl| edge_decl_view(e)) =~= Seq::<EdgeDeclView>::empty());
        assert(cs@.map_values(|c: Vec<NodeDecl>| c@.map_values(|d: NodeDecl| decl_view(d))) =~= Seq::<Seq<DeclView>>::empty());
        return Some((es, cs));
    }
    match edge_exec(s, k) {
        None => None,
        Some((e, m)) => {
            let m2 = skip_blanks_exec(s, m);
            match cluster_exec(s, m2) {
                None => None,
                Some((c, n)) => {
                    if j < n {
                        match line_rest_exec(s, n) {
                            Some((mut es, mut cs)) => {
                                let ghost ev = edge_decl_view(e);
                                let ghost cv = c@.map_values(|d: NodeDecl| decl_view(d));
                                let ghost esv = es@.map_values(|e: EdgeDecl| edge_decl_view(e));
                                let ghost csv = cs@.map_values(|c: Vec<NodeDecl>| c@.map_values(|d: NodeDecl| decl_view(d)));
                                es.insert(0, e);
                                cs.insert(0, c);
                                assert(es@.map_values(|e: EdgeDecl| edge_decl_view(e)) =~= seq![ev] + esv);
                                assert(cs@.map_values(|c: Vec<NodeDecl>| c@.map_values(|d: NodeDecl| decl_view(d))) =~= seq![cv] + csv);
                                Some((es, cs))
                            },
                            None => None,
                        }
                    } else {
                        None
                    }
                },
            }
        },
    }
}

/// Parses one line of node clusters and edges.
pub fn parse_line_exec(s: &Vec<char>) -> (r: Option<Line>)
    ensures
        match r {
            Some(l) => parse_line(s@) == Some(l@) && l@.well_formed(),
            None => parse_line(s@) is None,
        },
{
    match cluster_exec(s, 0) {
        None => None,
        Some((c, j)) => match line_rest_exec(s, j) {
            Some((es, mut cs)) => {
                let ghost cv = c@.map_values(|d: NodeDecl| decl_view(d));
                let ghost csv = cs@.map_values(|c: Vec<NodeDecl>| c@.map_values(|d: NodeDecl| decl_view(d)));
                cs.insert(0, c);
                let l = Line { clusters: cs, edges: es };
                assert(l@.clusters =~= seq![cv] + csv);
                Some(l)
            },
            None => None,
        },
    }
}


pub open spec fn is_comment(t: Seq<char>) -> bool {
    occurs_at(t, 0, seq!['%', '%'])
}

pub open spec fn is_direction(t: Seq<char>) -> bool {
    t == seq!['T', 'D'] || t == seq!['T', 'B'] || t == seq!['B', 'T'] || t == seq!['R', 'L'] || t
        == seq!['L', 'R']
}

pub open spec fn flowchart_keyword() -> Seq<char> {
    seq!['f', 'l', 'o', 'w', 'c', 'h', 'a', 'r', 't']
}

pub open spec fn graph_keyword() -> Seq<char> {
    seq!['g', 'r', 'a', 'p', 'h']
}

/// The header: `flowchart` or `graph`, optionally followed by a direction.
pub open spec fn is_header(t: Seq<char>) -> bool {
    let rest = if occurs_at(t, 0, flowchart_keyword()) {
        Some(t.subrange(9, t.len() as int))
    } else if occurs_at(t, 0, graph_keyword()) {
        Some(t.subrange(5, t.len() as int))
    } else {
        None
    };
    match rest {
        None => false,
        Some(r) => r.len() == 0 || (is_blank(r[0]) && is_direction(trimmed(r))),
    }
}

/// What one trimmed line contributes, given whether the header was seen:
/// maybe a line of the graph, and whether the header has been seen after
/// it. `None` is a syntax error. Blank lines and `%%` comments are skipped;
/// the first other line must be the header.
pub open spec fn line_step(t: Seq<char>, header_seen: bool) -> Option<(Option<LineView>, bool)> {
    if t.len() == 0 || is_comment(t) {
        Some((None, header_seen))
    } else if !header_seen {
        if is_header(t) {
            Some((None, true))
        } else {
            None
        }
    } else {
        match parse_line(t) {
            Some(l) => Some((Some(l), true)),
            None => None,
        }
    }
}

/// What follows the line that ends at `e`.
pub open spec fn rest_from(s: Seq<char>, e: int, header_seen: bool, n: nat) -> Result<Seq<LineView>, nat>
    decreases s.len() - e, 0nat,
{
    if e >= s.len() || e < 0 {
        Ok(Seq::empty())
    } else {
        doc_from(s, e + 1, header_seen, n + 1)
    }
}

/// `r` with the line `l`, if any, in front.
pub open spec fn with_line(l: Option<LineView>, r: Result<Seq<LineView>, nat>) -> Result<Seq<LineView>, nat> {
    match r {
        Err(m) => Err(m),
        Ok(ls) => Ok(
            match l {
                Some(x) => seq![x] + ls,
                None => ls,
            },
        ),
    }
}

/// The lines of `s` from position `i`, where `n` is the number of the
/// line that starts there; `Err` holds the number of the first line in error.
pub open spec fn doc_from(s: Seq<char>, i: int, header_seen: bool, n: nat) -> Result<Seq<LineView>, nat>
    decreases s.len() - i, 1nat,
{
    let e = line_end(s, i);
    if !(0 <= i <= e <= s.len()) {
        Ok(Seq::empty())
    } else {
        match line_step(trimmed(s.subrange(i, e)), header_seen) {
            None => Err(n),
            Some((l, h)) => with_line(l, rest_from(s, e, h, n)),
        }
    }
}

/// The lines of a whole flowchart text, or the number of the first line
/// (counted from 1) that breaks the grammar.
pub open spec fn flowchart_lines(text: Seq<char>) -> Result<Seq<LineView>, nat> {
    doc_from(text, 0, false, 1)
}

fn is_direction_exec(t: &Vec<char>, a: usize, b: usize) -> (r: bool)
    requires
        a <= b <= t@.len(),
    ensures
        r == is_direction(t@.subrange(a as int, b as int)),
{
    let ghost u = t@.subrange(a as int, b as int);
    assert(seq!['T', 'D'].len() == 2 && seq!['T', 'B'].len() == 2 && seq!['B', 'T'].len() == 2);
    assert(seq!['R', 'L'].len() == 2 && seq!['L', 'R'].len() == 2);
    if b - a != 2 {
        return false;
    }
    let x = t[a];
    let y = t[a + 1];
    assert(u[0] == x && u[1] == y);
    let r = (x == 'T' && y == 'D') || (x == 'T' && y == 'B') || (x == 'B' && y == 'T') || (x == 'R' && y == 'L') || (x == 'L' && y == 'R');
    assert(r ==> (u =~= seq![x, y]));
    r
}

fn is_header_exec(t: &Vec<char>) -> (r: bool)
    ensures
        r == is_header(t@),
{
    let fc: [char; 9] = ['f', 'l', 'o', 'w', 'c', 'h', 'a', 'r', 't'];
    let gr: [char; 5] = ['g', 'r', 'a', 'p', 'h'];
    assert(fc@ =~= flowchart_keyword());
    assert(gr@ =~= graph_keyword());
    let start: usize = if occurs_at_exec(t, 0, &fc) {
        9
    } else if occurs_at_exec(t, 0, &gr) {
        5
    } else {
        return false;
    };
    let ghost rest = t@.subrange(start as int, t@.len() as int);
    if start == t.len() {
        assert(rest.len() == 0);
        return true;
    }
    assert(rest[0] == t@[start as int]);
    if !is_blank_char(t[start]) {
        return false;
    }
    let (a, b) = trim_bounds(t, start, t.len());
    is_direction_exec(t, a, b)
}

fn is_comment_exec(t: &Vec<char>) -> (r: bool)
    ensures
        r == is_comment(t@),
{
    let pc: [char; 2] = ['%', '%'];
    assert(pc@ =~= seq!['%', '%']);
    occurs_at_exec(t, 0, &pc)
}

/// One trimmed line's contribution; see [`line_step`].
fn line_step_exec(t: &Vec<char>, header_seen: bool) -> (r: Option<(Option<Line>, bool)>)
    ensures
        match r {
            Some((Some(l), h)) => line_step(t@, header_seen) == Some((Some(l@), h)) && l@.well_formed(),
            Some((None, h)) => line_step(t@, header_seen) == Some((None::<LineView>, h)),
            None => line_step(t@, header_seen) is None,
        },
{
    if t.len() == 0 || is_comment_exec(t) {
        Some((None, header_seen))
    } else if !header_seen {
        if is_header_exec(t) {
            Some((None, true))
        } else {
            None
        }
    } else {
        match parse_line_exec(t) {
            Some(l) => Some((Some(l), true)),
            None => None,
        }
    }
}

pub open spec fn prepend_lines(acc: Seq<LineView>, r: Result<Seq<LineView>, nat>) -> Result<Seq<LineView>, nat> {
    match r {
        Ok(ls) => Ok(acc + ls),
        Err(m) => Err(m),
    }
}

proof fn lemma_prepend_line(acc: Seq<LineView>, l: Option<LineView>, r: Result<Seq<LineView>, nat>)
    ensures
        prepend_lines(acc, with_line(l, r)) == prepend_lines(
            match l {
                Some(x) => acc.push(x),
                None => acc,
            },
            r,
        ),
{
    match (l, r) {
        (Some(x), Ok(ls)) => {
            assert(acc + (seq![x] + ls) =~= acc.push(x) + ls);
        },
        _ => {},
    }
}

/// Splits a flowchart text into its graph lines, or gives the number of
/// the first line that breaks the grammar.
pub fn parse_flowchart(text: &str) -> (r: Result<Vec<Line>, usize>)
    requires
        text@.len() < usize::MAX,
    ensures
        match r {
            Ok(lines) => flowchart_lines(text@) == Ok::<Seq<LineView>, nat>(lines@.map_values(|l: Line| l@))
                && forall|i: int| 0 <= i < lines@.len() ==> (#[trigger] lines@[i])@.well_formed(),
            Err(n) => flowchart_lines(text@) == Err::<Seq<LineView>, nat>(n as nat),
        },
{
    let s = chars_of(text);
    let mut lines: Vec<Line> = Vec::new();
    let mut i: usize = 0;
    let mut header = false;
    let mut n: usize = 1;
    loop
        invariant
            i <= s@.len(),
            s@ == text@,
            s@.len() < usize::MAX,
            1 <= n <= i + 1,
            forall|m: int| 0 <= m < lines@.len() ==> (#[trigger] lines@[m])@.well_formed(),
            flowchart_lines(s@) == prepend_lines(lines@.map_values(|l: Line| l@), doc_from(s@, i as int, header, n as nat)),
        decreases s@.len() - i,
    {
        let e = line_end_exec(&s, i);
        let (a, b) = trim_bounds(&s, i, e);
        let t = copy_range(&s, a, b);
        let ghost before = lines@.map_values(|l: Line| l@);
        match line_step_exec(&t, header) {
            None => {
                return Err(n);
            },
            Some((l, h)) => {
                let ghost lv: Option<LineView> = if l is Some {
                    Some(l->0@)
                } else {
                    None
                };
                proof {
                    lemma_prepend_line(before, lv, rest_from(s@, e as int, h, n as nat));
                }
                match l {
                    Some(x) => {
                        lines.push(x);
                        assert(lines@.map_values(|l: Line| l@) =~= before.push(lv->0));
                    },
                    None => {},
                }
                header = h;
                if e >= s.len() {
                    assert(lines@.map_values(|l: Line| l@) + Seq::<LineView>::empty() =~= lines@.map_values(|l: Line| l@));
                    return Ok(lines);
                }
                i = e + 1;
                n = n + 1;
            },
        }
    }
}

} // verus!
