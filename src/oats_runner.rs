//! The step-sequence engine: grains folded into oatlets, oatlets grouped
//! into runs, and a state machine that walks the runs, telling its caller
//! what to ask the operator and what to copy to the clipboard.
use vstd::prelude::*;
use crate::graph::{copy_text, opt_view};
use crate::oats::{Groat, GroatView, Marker};

verus! {

/// A step to take, with the clipboard text folded in from the
/// declaration after it; `done` is used by any-order runs.
pub struct Oatlet {
    pub marker: Marker,
    pub content: Option<String>,
    pub clipboard: Option<String>,
    pub done: bool,
}

pub struct OatletView {
    pub marker: Marker,
    pub content: Option<Seq<char>>,
    pub clipboard: Option<Seq<char>>,
    pub done: bool,
}

impl View for Oatlet {
    type V = OatletView;

    open spec fn view(&self) -> OatletView {
        OatletView {
            marker: self.marker,
            content: opt_view(self.content),
            clipboard: opt_view(self.clipboard),
            done: self.done,
        }
    }
}

/// Grains folded left to right: a clipboard grain sets the clipboard text
/// of the oatlet made just before it and is dropped when there is none;
/// every other grain with a marker makes an oatlet of its own.
pub open spec fn fold_oatlets(gs: Seq<GroatView>) -> Seq<OatletView>
    decreases gs.len(),
{
    if gs.len() == 0 {
        Seq::empty()
    } else {
        let acc = fold_oatlets(gs.drop_last());
        let g = gs.last();
        match g.marker {
            None => acc,
            Some(Marker::Clipbo) => if acc.len() > 0 {
                acc.update(acc.len() - 1, OatletView { clipboard: g.content, ..acc.last() })
            } else {
                acc
            },
            Some(m) => acc.push(OatletView { marker: m, content: g.content, clipboard: None, done: false }),
        }
    }
}

pub open spec fn groat_views(gs: Seq<Groat>) -> Seq<GroatView> {
    gs.map_values(|g: Groat| g@)
}

pub open spec fn oatlet_views(os: Seq<Oatlet>) -> Seq<OatletView> {
    os.map_values(|o: Oatlet| o@)
}

/// Folds grains into oatlets.
pub fn groats_to_oatlets(groats: &Vec<Groat>) -> (r: Vec<Oatlet>)
    ensures
        oatlet_views(r@) == fold_oatlets(groat_views(groats@)),
{
    let mut oatlets: Vec<Oatlet> = Vec::new();
    let mut i: usize = 0;
    while i < groats.len()
        invariant
            i <= groats@.len(),
            oatlet_views(oatlets@) == fold_oatlets(groat_views(groats@).take(i as int)),
        decreases groats.len() - i,
    {
        let g = &groats[i];
        let ghost before = oatlet_views(oatlets@);
        proof {
            assert(groat_views(groats@).take(i + 1).drop_last() =~= groat_views(groats@).take(i as int));
            assert(groat_views(groats@).take(i + 1).last() == g@);
        }
        match g.marker {
            None => {},
            Some(Marker::Clipbo) => {
                if oatlets.len() > 0 {
                    let mut last = oatlets.pop().unwrap();
                    last.clipboard = copy_text(&g.content);
                    oatlets.push(last);
                    assert(oatlet_views(oatlets@) =~= before.update(before.len() - 1, OatletView { clipboard: g@.content, ..before.last() }));
                }
            },
            Some(m) => {
                oatlets.push(Oatlet { marker: m, content: copy_text(&g.content), clipboard: None, done: false });
                assert(oatlet_views(oatlets@) =~= before.push(OatletView { marker: m, content: g@.content, clipboard: None, done: false }));
            },
        }
        i = i + 1;
    }
    assert(groat_views(groats@).take(i as int) =~= groat_views(groats@));
    oatlets
}

pub open spec fn markers(os: Seq<OatletView>) -> Seq<Marker> {
    os.map_values(|o: OatletView| o.marker)
}

/// The end of the run that starts at `i`, scanning from `j`: a run is a
/// maximal stretch of one marker, and a group break is a run alone.
pub open spec fn run_end_from(ms: Seq<Marker>, i: int, j: int) -> int
    decreases ms.len() - j,
{
    if 0 <= i < j < ms.len() && ms[j] == ms[i] && ms[i] != Marker::Breaker {
        run_end_from(ms, i, j + 1)
    } else {
        j
    }
}

pub open spec fn run_end(ms: Seq<Marker>, i: int) -> int {
    run_end_from(ms, i, i + 1)
}

/// The runs from position `i`, as (start, end) pairs.
pub open spec fn runs_from(ms: Seq<Marker>, i: int) -> Seq<(int, int)>
    decreases ms.len() - i,
{
    if i < 0 || i >= ms.len() {
        Seq::empty()
    } else {
        let e = run_end(ms, i);
        if i < e <= ms.len() {
            seq![(i, e)] + runs_from(ms, e)
        } else {
            Seq::empty()
        }
    }
}

proof fn lemma_run_end_from(ms: Seq<Marker>, i: int, j: int)
    requires
        0 <= i < j <= ms.len(),
        forall|k: int| i <= k < j ==> ms[k] == ms[i],
        ms[i] == Marker::Breaker ==> j == i + 1,
    ensures
        ({
            let e = run_end_from(ms, i, j);
            &&& j <= e <= ms.len()
            &&& forall|k: int| i <= k < e ==> ms[k] == ms[i]
            &&& ms[i] == Marker::Breaker ==> e == i + 1
            &&& e < ms.len() ==> ms[e] != ms[i] || ms[i] == Marker::Breaker
        }),
    decreases ms.len() - j,
{
    if j < ms.len() && ms[j] == ms[i] && ms[i] != Marker::Breaker {
        lemma_run_end_from(ms, i, j + 1);
    }
}

/// The bounds of a run: it is non-empty, holds one marker, is maximal,
/// and is a single oatlet when it is a group break.
pub proof fn lemma_run_end(ms: Seq<Marker>, i: int)
    requires
        0 <= i < ms.len(),
    ensures
        ({
            let e = run_end(ms, i);
            &&& i < e <= ms.len()
            &&& forall|k: int| i <= k < e ==> ms[k] == ms[i]
            &&& ms[i] == Marker::Breaker ==> e == i + 1
            &&& e < ms.len() ==> ms[e] != ms[i] || ms[i] == Marker::Breaker
        }),
{
    lemma_run_end_from(ms, i, i + 1);
}

/// Grouping: the runs cover the oatlets in order, one after another; each
/// is a non-empty stretch of one marker; two neighbouring runs have
/// different markers unless they are group breaks; a group break is
/// always a run of its own.
pub proof fn lemma_runs(ms: Seq<Marker>, i: int)
    requires
        0 <= i <= ms.len(),
    ensures
        ({
            let r = runs_from(ms, i);
            &&& i < ms.len() ==> r.len() > 0 && r[0].0 == i && r.last().1 == ms.len()
            &&& i == ms.len() ==> r.len() == 0
            &&& forall|k: int| 0 <= k < r.len() ==> i <= (#[trigger] r[k]).0 < r[k].1 <= ms.len()
            &&& forall|k: int| 0 <= k < r.len() - 1 ==> (#[trigger] r[k]).1 == r[k + 1].0
            &&& forall|k: int, m: int| 0 <= k < r.len() && r[k].0 <= m < r[k].1 ==> #[trigger] ms[m] == ms[(#[trigger] r[k]).0]
            &&& forall|k: int| 0 <= k < r.len() && ms[(#[trigger] r[k]).0] == Marker::Breaker ==> r[k].1 == r[k].0 + 1
            &&& forall|k: int| 0 <= k < r.len() - 1 ==> ms[(#[trigger] r[k]).0] != ms[r[k + 1].0] || ms[r[k].0] == Marker::Breaker
        }),
    decreases ms.len() - i,
{
    if i < ms.len() {
        lemma_run_end(ms, i);
        let e = run_end(ms, i);
        lemma_runs(ms, e);
        let rest = runs_from(ms, e);
        let r = runs_from(ms, i);
        assert(r == seq![(i, e)] + rest);
        assert forall|k: int| 0 <= k < r.len() implies i <= (#[trigger] r[k]).0 < r[k].1 <= ms.len() by {
            if k > 0 {
                assert(r[k] == rest[k - 1]);
            }
        }
        assert forall|k: int| 0 <= k < r.len() - 1 implies (#[trigger] r[k]).1 == r[k + 1].0 by {
            if k > 0 {
                assert(r[k] == rest[k - 1]);
                assert(r[k + 1] == rest[k]);
            } else {
                assert(r[1] == rest[0]);
            }
        }
        assert forall|k: int, m: int| 0 <= k < r.len() && r[k].0 <= m < r[k].1 implies #[trigger] ms[m] == ms[(#[trigger] r[k]).0] by {
            if k > 0 {
                assert(r[k] == rest[k - 1]);
            }
        }
        assert forall|k: int| 0 <= k < r.len() && ms[(#[trigger] r[k]).0] == Marker::Breaker implies r[k].1 == r[k].0 + 1 by {
            if k > 0 {
                assert(r[k] == rest[k - 1]);
            }
        }
        assert forall|k: int| 0 <= k < r.len() - 1 implies ms[(#[trigger] r[k]).0] != ms[r[k + 1].0] || ms[r[k].0] == Marker::Breaker by {
            if k > 0 {
                assert(r[k] == rest[k - 1]);
                assert(r[k + 1] == rest[k]);
            } else {
                assert(r[1] == rest[0]);
            }
        }
        if e < ms.len() {
            assert(r.last() == rest.last());
        }
    }
}

fn run_end_exec(os: &Vec<Oatlet>, i: usize) -> (r: usize)
    requires
        i < os@.len(),
    ensures
        r == run_end(markers(oatlet_views(os@)), i as int),
        i < r <= os@.len(),
{
    let ghost ms = markers(oatlet_views(os@));
    proof { lemma_run_end(ms, i as int); }
    let m = os[i].marker;
    let n = os.len();
    let mut j = i + 1;
    while j < os.len() && os[j].marker == m && m != Marker::Breaker
        invariant
            i < j <= os@.len(),
            ms == markers(oatlet_views(os@)),
            m == ms[i as int],
            run_end(ms, i as int) == run_end_from(ms, i as int, j as int),
        decreases os.len() - j,
    {
        j = j + 1;
    }
    j
}

/// The runs of the oatlets, as (start, end) pairs in order.
pub fn oatlet_runs(oatlets: &Vec<Oatlet>) -> (r: Vec<(usize, usize)>)
    ensures
        r@.map_values(|p: (usize, usize)| (p.0 as int, p.1 as int)) == runs_from(markers(oatlet_views(oatlets@)), 0),
{
    let ghost ms = markers(oatlet_views(oatlets@));
    let mut out: Vec<(usize, usize)> = Vec::new();
    let mut i: usize = 0;
    while i < oatlets.len()
        invariant
            i <= oatlets@.len(),
            ms == markers(oatlet_views(oatlets@)),
            runs_from(ms, 0) == out@.map_values(|p: (usize, usize)| (p.0 as int, p.1 as int)) + runs_from(ms, i as int),
        decreases oatlets.len() - i,
    {
        let e = run_end_exec(oatlets, i);
        let ghost before = out@.map_values(|p: (usize, usize)| (p.0 as int, p.1 as int));
        out.push((i, e));
        assert(out@.map_values(|p: (usize, usize)| (p.0 as int, p.1 as int)) =~= before.push((i as int, e as int)));
        assert(before + runs_from(ms, i as int) =~= before.push((i as int, e as int)) + runs_from(ms, e as int));
        i = e;
    }
    assert(runs_from(ms, i as int) =~= Seq::<(int, int)>::empty());
    assert(out@.map_values(|p: (usize, usize)| (p.0 as int, p.1 as int)) + Seq::<(int, int)>::empty() =~= out@.map_values(|p: (usize, usize)| (p.0 as int, p.1 as int)));
    out
}


pub open spec fn clip_grain(c: Option<Seq<char>>) -> GroatView {
    GroatView { marker: Some(Marker::Clipbo), content: c }
}

/// A clipboard grain right after an oatlet sets that oatlet's clipboard
/// text and makes no oatlet of its own.
pub proof fn lemma_clipboard_attaches(gs: Seq<GroatView>, c: Option<Seq<char>>)
    requires
        fold_oatlets(gs).len() > 0,
    ensures
        ({
            let before = fold_oatlets(gs);
            let after = fold_oatlets(gs.push(clip_grain(c)));
            &&& after.len() == before.len()
            &&& after.last() == OatletView { clipboard: c, ..before.last() }
            &&& forall|k: int| 0 <= k < before.len() - 1 ==> after[k] == before[k]
        }),
{
    assert(gs.push(clip_grain(c)).drop_last() =~= gs);
}

/// A clipboard grain with nothing before it is dropped.
pub proof fn lemma_leading_clipboard_dropped(c: Option<Seq<char>>, gs: Seq<GroatView>)
    ensures
        fold_oatlets(seq![clip_grain(c)] + gs) == fold_oatlets(gs),
    decreases gs.len(),
{
    let all = seq![clip_grain(c)] + gs;
    if gs.len() == 0 {
        assert(all.drop_last() =~= Seq::<GroatView>::empty());
        assert(fold_oatlets(all.drop_last()) == Seq::<OatletView>::empty());
        assert(all.last() == clip_grain(c));
    } else {
        assert(all.drop_last() =~= seq![clip_grain(c)] + gs.drop_last());
        assert(all.last() == gs.last());
        lemma_leading_clipboard_dropped(c, gs.drop_last());
    }
}

// ---------------------------------------------------------------------
// The engine.

/// What to ask the operator: a header, the options to choose among, and
/// clipboard text to copy as the prompt is shown.
pub struct Prompt {
    pub header: String,
    pub options: Vec<String>,
    pub clipboard: Option<String>,
}

pub struct PromptView {
    pub header: Seq<char>,
    pub options: Seq<Seq<char>>,
    pub clipboard: Option<Seq<char>>,
}

impl View for Prompt {
    type V = PromptView;

    open spec fn view(&self) -> PromptView {
        PromptView {
            header: self.header@,
            options: self.options@.map_values(|o: String| o@),
            clipboard: opt_view(self.clipboard),
        }
    }
}

pub open spec fn prompt_view(p: Option<Prompt>) -> Option<PromptView> {
    match p {
        Some(x) => Some(x@),
        None => None,
    }
}

/// The engine's state: whether the opening confirmation was answered, the
/// position reached, and the oatlets with their completion flags.
pub struct OatsState {
    pub started: bool,
    pub pos: int,
    pub oatlets: Seq<OatletView>,
}

/// The members of `[a, b)` not yet completed, in order.
pub open spec fn pending_from(os: Seq<OatletView>, a: int, b: int) -> Seq<int>
    decreases b - a,
{
    if a >= b {
        Seq::empty()
    } else {
        let rest = pending_from(os, a + 1, b);
        if !os[a].done {
            seq![a] + rest
        } else {
            rest
        }
    }
}

proof fn lemma_pending_bounds(os: Seq<OatletView>, a: int, b: int)
    ensures
        forall|m: int| 0 <= m < pending_from(os, a, b).len() ==> a <= #[trigger] pending_from(os, a, b)[m] < b,
        forall|m: int| 0 <= m < pending_from(os, a, b).len() ==> !os[#[trigger] pending_from(os, a, b)[m]].done,
    decreases b - a,
{
    if a < b {
        lemma_pending_bounds(os, a + 1, b);
        let rest = pending_from(os, a + 1, b);
        if !os[a].done {
            assert forall|m: int| 0 <= m < pending_from(os, a, b).len() implies a <= #[trigger] pending_from(os, a, b)[m] < b by {
                if m > 0 {
                    assert(pending_from(os, a, b)[m] == rest[m - 1]);
                }
            }
            assert forall|m: int| 0 <= m < pending_from(os, a, b).len() implies !os[#[trigger] pending_from(os, a, b)[m]].done by {
                if m > 0 {
                    assert(pending_from(os, a, b)[m] == rest[m - 1]);
                }
            }
        }
    }
}

/// The first position at or after `p` where the operator has something to
/// do: an ordered or optional step with text, a one-of run, or an
/// any-order run with members left. Group breaks are passed over.
pub open spec fn settle(os: Seq<OatletView>, p: int) -> int
    decreases os.len() - p,
{
    if p < 0 || p >= os.len() {
        os.len() as int
    } else {
        match os[p].marker {
            Marker::AndThen | Marker::Optional => if os[p].content is Some {
                p
            } else {
                settle(os, p + 1)
            },
            Marker::OneOf => p,
            Marker::Unordered => {
                let e = run_end(markers(os), p);
                if pending_from(os, p, e).len() > 0 {
                    p
                } else if p < e <= os.len() {
                    settle(os, e)
                } else {
                    os.len() as int
                }
            },
            _ => settle(os, p + 1),
        }
    }
}

pub open spec fn content_text(o: OatletView) -> Seq<char> {
    match o.content {
        Some(t) => t,
        None => Seq::empty(),
    }
}

/// The note that tells which text was copied with a step.
pub open spec fn copied_note(o: OatletView) -> Seq<char> {
    match o.clipboard {
        Some(c) => "\nCopied to Clipboard: "@ + c,
        None => Seq::empty(),
    }
}

/// A member as an option of a choice: its text and its clipboard text.
pub open spec fn render(o: OatletView) -> Seq<char> {
    content_text(o) + match o.clipboard {
        Some(c) => ", Clipboard: "@ + c,
        None => Seq::empty(),
    }
}

pub open spec fn start_prompt() -> PromptView {
    PromptView {
        header: "Warning: Your clipboard may be overwritten. Start?"@,
        options: seq!["Okay"@],
        clipboard: None,
    }
}

/// What the operator is asked in state `st`; `None` once the sequence is over.
pub open spec fn prompt_of(st: OatsState) -> Option<PromptView> {
    let os = st.oatlets;
    if !st.started {
        Some(start_prompt())
    } else {
        let q = settle(os, st.pos);
        if q >= os.len() {
            None
        } else {
            let o = os[q];
            let e = run_end(markers(os), q);
            match o.marker {
                Marker::AndThen => Some(
                    PromptView {
                        header: content_text(o) + copied_note(o),
                        options: seq!["Done"@],
                        clipboard: o.clipboard,
                    },
                ),
                Marker::Optional => Some(
                    PromptView {
                        header: content_text(o) + " (Optional)"@ + copied_note(o),
                        options: seq!["Completed"@, "Skipping"@],
                        clipboard: o.clipboard,
                    },
                ),
                Marker::OneOf => Some(
                    PromptView {
                        header: "Complete one of"@,
                        options: os.subrange(q, e).map_values(|m: OatletView| render(m)),
                        clipboard: None,
                    },
                ),
                Marker::Unordered => Some(
                    PromptView {
                        header: "Complete all in any order"@,
                        options: pending_from(os, q, e).map_values(|k: int| render(os[k])),
                        clipboard: None,
                    },
                ),
                _ => None,
            }
        }
    }
}

/// The state after the operator picks option `sel` in state `st`, and the
/// clipboard text to copy for that pick. Any pick of an ordered or optional
/// step moves on; a pick out of range changes nothing.
pub open spec fn step(st: OatsState, sel: int) -> (OatsState, Option<Seq<char>>) {
    let os = st.oatlets;
    if !st.started {
        (OatsState { started: true, ..st }, None)
    } else {
        let q = settle(os, st.pos);
        if q >= os.len() {
            (st, None)
        } else {
            let e = run_end(markers(os), q);
            match os[q].marker {
                Marker::AndThen | Marker::Optional => (OatsState { pos: q + 1, ..st }, None),
                Marker::OneOf => if 0 <= sel < e - q {
                    (OatsState { pos: e, ..st }, os[q + sel].clipboard)
                } else {
                    (st, None)
                },
                Marker::Unordered => {
                    let pd = pending_from(os, q, e);
                    if 0 <= sel < pd.len() {
                        let k = pd[sel];
                        (
                            OatsState { pos: q, oatlets: os.update(k, OatletView { done: true, ..os[k] }), ..st },
                            os[k].clipboard,
                        )
                    } else {
                        (st, None)
                    }
                },
                _ => (st, None),
            }
        }
    }
}


/// Walks a compiled sequence. The caller shows each prompt, copies its
/// clipboard text if any, and hands back the operator's pick; the engine
/// says what to copy after the pick and what comes next.
pub struct OatsMachine {
    groats: Vec<Groat>,
    oatlets: Vec<Oatlet>,
    started: bool,
    pos: usize,
}

impl View for OatsMachine {
    type V = OatsState;

    closed spec fn view(&self) -> OatsState {
        OatsState { started: self.started, pos: self.pos as int, oatlets: oatlet_views(self.oatlets@) }
    }
}

fn pending_exec(os: &Vec<Oatlet>, a: usize, b: usize) -> (r: Vec<usize>)
    requires
        a <= b <= os@.len(),
    ensures
        r@.map_values(|k: usize| k as int) == pending_from(oatlet_views(os@), a as int, b as int),
{
    let ghost v = oatlet_views(os@);
    let mut out: Vec<usize> = Vec::new();
    let mut k = a;
    while k < b
        invariant
            a <= k <= b <= os@.len(),
            v == oatlet_views(os@),
            pending_from(v, a as int, b as int) == out@.map_values(|k: usize| k as int) + pending_from(v, k as int, b as int),
        decreases b - k,
    {
        let ghost before = out@.map_values(|k: usize| k as int);
        if !os[k].done {
            out.push(k);
            assert(out@.map_values(|k: usize| k as int) =~= before.push(k as int));
            assert(before + (seq![k as int] + pending_from(v, k + 1, b as int)) =~= before.push(k as int) + pending_from(v, k + 1, b as int));
        }
        k = k + 1;
    }
    assert(out@.map_values(|k: usize| k as int) + Seq::<int>::empty() =~= out@.map_values(|k: usize| k as int));
    out
}

fn text_or_empty(t: &Option<String>) -> (r: String)
    ensures
        r@ == match opt_view(*t) {
            Some(x) => x,
            None => Seq::empty(),
        },
{
    match t {
        Some(x) => x.clone(),
        None => String::new(),
    }
}

/// A member as an option of a choice.
pub fn render_exec(o: &Oatlet) -> (r: String)
    ensures
        r@ == render(o@),
{
    let mut s = text_or_empty(&o.content);
    let ghost base = s@;
    match &o.clipboard {
        Some(c) => {
            s.append(", Clipboard: ");
            s.append(c.as_str());
            assert(s@ =~= base + (", Clipboard: "@ + c@));
        },
        None => {
            assert(s@ =~= base + Seq::<char>::empty());
        },
    }
    s
}

fn step_header(o: &Oatlet, optional: bool) -> (r: String)
    ensures
        r@ == if optional {
            content_text(o@) + " (Optional)"@ + copied_note(o@)
        } else {
            content_text(o@) + copied_note(o@)
        },
{
    let mut s = text_or_empty(&o.content);
    let ghost base = s@;
    if optional {
        s.append(" (Optional)");
    }
    let ghost mid = s@;
    match &o.clipboard {
        Some(c) => {
            s.append("\nCopied to Clipboard: ");
            s.append(c.as_str());
            assert(s@ =~= mid + ("\nCopied to Clipboard: "@ + c@));
        },
        None => {
            assert(s@ =~= mid + Seq::<char>::empty());
        },
    }
    s
}

impl OatsMachine {
    /// A machine over the oatlets folded from `list`, before its opening
    /// confirmation.
    pub fn new(list: Vec<Groat>) -> (r: OatsMachine)
        ensures
            r@ == (OatsState { started: false, pos: 0, oatlets: fold_oatlets(groat_views(list@)) }),
    {
        let oatlets = groats_to_oatlets(&list);
        OatsMachine { groats: list, oatlets, started: false, pos: 0 }
    }

    /// The oatlets with their completion flags.
    pub fn oatlets(&self) -> (r: &Vec<Oatlet>)
        ensures
            oatlet_views(r@) == self@.oatlets,
    {
        &self.oatlets
    }

    fn settle_exec(&self) -> (r: usize)
        ensures
            r == settle(self@.oatlets, self@.pos),
            r <= self@.oatlets.len(),
    {
        let ghost os = self@.oatlets;
        let n = self.oatlets.len();
        let mut p = self.pos;
        loop
            invariant
                os == oatlet_views(self.oatlets@),
                n == os.len(),
                settle(os, self@.pos) == settle(os, p as int),
            decreases n - p,
        {
            if p >= n {
                return n;
            }
            let o = &self.oatlets[p];
            match o.marker {
                Marker::AndThen | Marker::Optional => {
                    if o.content.is_some() {
                        return p;
                    }
                    p = p + 1;
                },
                Marker::OneOf => {
                    return p;
                },
                Marker::Unordered => {
                    let e = run_end_exec(&self.oatlets, p);
                    let pd = pending_exec(&self.oatlets, p, e);
                    if pd.len() > 0 {
                        return p;
                    }
                    p = e;
                },
                _ => {
                    p = p + 1;
                },
            }
        }
    }

    /// What to ask the operator now; `None` once the sequence is over.
    pub fn next_prompt(&self) -> (r: Option<Prompt>)
        ensures
            prompt_view(r) == prompt_of(self@),
    {
        if !self.started {
            let options = vec![String::from_str("Okay")];
            let r = Prompt {
                header: String::from_str("Warning: Your clipboard may be overwritten. Start?"),
                options,
                clipboard: None,
            };
            assert(r@.options =~= seq!["Okay"@]);
            return Some(r);
        }
        let ghost os = self@.oatlets;
        let q = self.settle_exec();
        if q >= self.oatlets.len() {
            return None;
        }
        let o = &self.oatlets[q];
        let e = run_end_exec(&self.oatlets, q);
        match o.marker {
            Marker::AndThen => {
                let r = Prompt {
                    header: step_header(o, false),
                    options: vec![String::from_str("Done")],
                    clipboard: copy_text(&o.clipboard),
                };
                assert(r@.options =~= seq!["Done"@]);
                Some(r)
            },
            Marker::Optional => {
                let r = Prompt {
                    header: step_header(o, true),
                    options: vec![String::from_str("Completed"), String::from_str("Skipping")],
                    clipboard: copy_text(&o.clipboard),
                };
                assert(r@.options =~= seq!["Completed"@, "Skipping"@]);
                Some(r)
            },
            Marker::OneOf => {
                let mut options: Vec<String> = Vec::new();
                let mut k = q;
                while k < e
                    invariant
                        q <= k <= e <= os.len(),
                        os == oatlet_views(self.oatlets@),
                        options@.map_values(|s: String| s@) =~= os.subrange(q as int, k as int).map_values(|m: OatletView| render(m)),
                    decreases e - k,
                {
                    let ghost before = options@.map_values(|s: String| s@);
                    options.push(render_exec(&self.oatlets[k]));
                    assert(os.subrange(q as int, k + 1) =~= os.subrange(q as int, k as int).push(os[k as int]));
                    assert(options@.map_values(|s: String| s@) =~= before.push(render(os[k as int])));
                    k = k + 1;
                }
                Some(Prompt { header: String::from_str("Complete one of"), options, clipboard: None })
            },
            Marker::Unordered => {
                let pd = pending_exec(&self.oatlets, q, e);
                let ghost pv = pending_from(os, q as int, e as int);
                proof { lemma_pending_bounds(os, q as int, e as int); }
                let mut options: Vec<String> = Vec::new();
                let mut k: usize = 0;
                while k < pd.len()
                    invariant
                        k <= pd@.len(),
                        os == oatlet_views(self.oatlets@),
                        pv == pd@.map_values(|k: usize| k as int),
                        pv == pending_from(os, q as int, e as int),
                        forall|m: int| 0 <= m < pv.len() ==> 0 <= #[trigger] pv[m] < os.len(),
                        options@.map_values(|s: String| s@) =~= pv.take(k as int).map_values(|j: int| render(os[j])),
                    decreases pd.len() - k,
                {
                    assert(pv[k as int] == pd@[k as int] as int);
                    let ghost before = options@.map_values(|s: String| s@);
                    options.push(render_exec(&self.oatlets[pd[k]]));
                    assert(pv.take(k + 1) =~= pv.take(k as int).push(pv[k as int]));
                    assert(options@.map_values(|s: String| s@) =~= before.push(render(os[pv[k as int]])));
                    k = k + 1;
                }
                assert(pv.take(k as int) =~= pv);
                Some(Prompt { header: String::from_str("Complete all in any order"), options, clipboard: None })
            },
            _ => None,
        }
    }

    /// Takes the operator's pick of option `selection` of the current
    /// prompt; returns the clipboard text to copy for that pick.
    pub fn answer(&mut self, selection: usize) -> (r: Option<String>)
        ensures
            (final(self)@, opt_view(r)) == step(old(self)@, selection as int),
    {
        if !self.started {
            self.started = true;
            return None;
        }
        let ghost os = self@.oatlets;
        let q = self.settle_exec();
        if q >= self.oatlets.len() {
            return None;
        }
        let e = run_end_exec(&self.oatlets, q);
        match self.oatlets[q].marker {
            Marker::AndThen | Marker::Optional => {
                self.pos = q + 1;
                None
            },
            Marker::OneOf => {
                if selection < e - q {
                    self.pos = e;
                    copy_text(&self.oatlets[q + selection].clipboard)
                } else {
                    None
                }
            },
            Marker::Unordered => {
                let pd = pending_exec(&self.oatlets, q, e);
                proof { lemma_pending_bounds(os, q as int, e as int); }
                if selection < pd.len() {
                    let k = pd[selection];
                    assert(pending_from(os, q as int, e as int)[selection as int] == k as int);
                    let o = &self.oatlets[k];
                    let c = copy_text(&o.clipboard);
                    let done = Oatlet {
                        marker: o.marker,
                        content: copy_text(&o.content),
                        clipboard: copy_text(&o.clipboard),
                        done: true,
                    };
                    self.oatlets.set(k, done);
                    self.pos = q;
                    assert(oatlet_views(self.oatlets@) =~= os.update(k as int, OatletView { done: true, ..os[k as int] }));
                    c
                } else {
                    None
                }
            },
            _ => None,
        }
    }
}


/// The state after the picks `sels`, in order.
pub open spec fn run_picks(st: OatsState, sels: Seq<int>) -> OatsState
    decreases sels.len(),
{
    if sels.len() == 0 {
        st
    } else {
        step(run_picks(st, sels.drop_last()), sels.last()).0
    }
}

proof fn lemma_settle_bounds(os: Seq<OatletView>, p: int)
    requires
        0 <= p,
    ensures
        p <= settle(os, p) <= os.len() || (p > os.len() && settle(os, p) == os.len()),
    decreases os.len() - p,
{
    if p < os.len() {
        match os[p].marker {
            Marker::AndThen | Marker::Optional => {
                if os[p].content is None {
                    lemma_settle_bounds(os, p + 1);
                }
            },
            Marker::Unordered => {
                let e = run_end(markers(os), p);
                if pending_from(os, p, e).len() == 0 && p < e <= os.len() {
                    lemma_settle_bounds(os, e);
                }
            },
            Marker::OneOf => {},
            _ => {
                lemma_settle_bounds(os, p + 1);
            },
        }
    }
}

proof fn lemma_pending_all(os: Seq<OatletView>, a: int, b: int)
    requires
        a <= b,
        forall|j: int| a <= j < b ==> !#[trigger] os[j].done,
    ensures
        pending_from(os, a, b).len() == b - a,
    decreases b - a,
{
    if a < b {
        lemma_pending_all(os, a + 1, b);
    }
}

proof fn lemma_pending_mark(os: Seq<OatletView>, a: int, b: int, j: int)
    requires
        0 <= a <= j < b <= os.len(),
        !os[j].done,
    ensures
        pending_from(os.update(j, OatletView { done: true, ..os[j] }), a, b).len() == pending_from(os, a, b).len() - 1,
    decreases b - a,
{
    let os2 = os.update(j, OatletView { done: true, ..os[j] });
    if a < j {
        lemma_pending_mark(os, a + 1, b, j);
        assert(os2[a] == os[a]);
    } else {
        assert forall|m: int| a + 1 <= m < b implies os[m].done == #[trigger] os2[m].done by {
            assert(os2[m] == os[m]);
        }
        lemma_pending_same(os, os2, a + 1, b);
    }
}

proof fn lemma_pending_same(os: Seq<OatletView>, os2: Seq<OatletView>, a: int, b: int)
    requires
        forall|m: int| a <= m < b ==> os[m].done == os2[m].done,
    ensures
        pending_from(os2, a, b) == pending_from(os, a, b),
    decreases b - a,
{
    if a < b {
        lemma_pending_same(os, os2, a + 1, b);
    }
}

/// An any-order run of N members, none completed yet, takes exactly N
/// picks, whatever they are: after k < N picks the operator is asked to
/// choose among the N - k members still open, and after N picks the run
/// is over.
pub proof fn lemma_any_order_run(st: OatsState, sels: Seq<int>)
    requires
        st.started,
        0 <= st.pos,
        0 <= settle(st.oatlets, st.pos) < st.oatlets.len(),
        st.oatlets[settle(st.oatlets, st.pos)].marker == Marker::Unordered,
        forall|j: int|
            settle(st.oatlets, st.pos) <= j < run_end(markers(st.oatlets), settle(st.oatlets, st.pos))
                ==> !#[trigger] st.oatlets[j].done,
        sels.len() <= run_end(markers(st.oatlets), settle(st.oatlets, st.pos)) - settle(st.oatlets, st.pos),
        forall|k: int|
            0 <= k < sels.len() ==> 0 <= #[trigger] sels[k] < run_end(markers(st.oatlets), settle(st.oatlets, st.pos))
                - settle(st.oatlets, st.pos) - k,
    ensures
        ({
            let a = settle(st.oatlets, st.pos);
            let b = run_end(markers(st.oatlets), a);
            let st2 = run_picks(st, sels);
            &&& pending_from(st2.oatlets, a, b).len() == (b - a) - sels.len()
            &&& sels.len() < b - a ==> prompt_of(st2) == Some(
                PromptView {
                    header: "Complete all in any order"@,
                    options: pending_from(st2.oatlets, a, b).map_values(|k: int| render(st2.oatlets[k])),
                    clipboard: None,
                },
            )
            &&& sels.len() == b - a ==> settle(st2.oatlets, st2.pos) >= b
        }),
    decreases sels.len(),
{
    let os = st.oatlets;
    let a = settle(os, st.pos);
    let b = run_end(markers(os), a);
    lemma_run_end(markers(os), a);
    lemma_any_order_inner(st, sels);
    let st2 = run_picks(st, sels);
    let os2 = st2.oatlets;
    assert(markers(os2) =~= markers(os));
    if sels.len() > 0 {
        assert(st2.pos == a);
    }
    if sels.len() < b - a {
        assert(settle(os2, st2.pos) == a);
    } else {
        assert(pending_from(os2, a, b).len() == 0);
        assert(settle(os2, a) == settle(os2, b));
        lemma_settle_bounds(os2, b);
    }
}

proof fn lemma_any_order_inner(st: OatsState, sels: Seq<int>)
    requires
        st.started,
        0 <= st.pos,
        0 <= settle(st.oatlets, st.pos) < st.oatlets.len(),
        st.oatlets[settle(st.oatlets, st.pos)].marker == Marker::Unordered,
        forall|j: int|
            settle(st.oatlets, st.pos) <= j < run_end(markers(st.oatlets), settle(st.oatlets, st.pos))
                ==> !#[trigger] st.oatlets[j].done,
        sels.len() <= run_end(markers(st.oatlets), settle(st.oatlets, st.pos)) - settle(st.oatlets, st.pos),
        forall|k: int|
            0 <= k < sels.len() ==> 0 <= #[trigger] sels[k] < run_end(markers(st.oatlets), settle(st.oatlets, st.pos))
                - settle(st.oatlets, st.pos) - k,
    ensures
        ({
            let a = settle(st.oatlets, st.pos);
            let b = run_end(markers(st.oatlets), a);
            let st2 = run_picks(st, sels);
            &&& st2.started
            &&& st2.oatlets.len() == st.oatlets.len()
            &&& markers(st2.oatlets) == markers(st.oatlets)
            &&& sels.len() > 0 ==> st2.pos == a
            &&& sels.len() == 0 ==> st2 == st
            &&& pending_from(st2.oatlets, a, b).len() == (b - a) - sels.len()
        }),
    decreases sels.len(),
{
    let os = st.oatlets;
    let a = settle(os, st.pos);
    let b = run_end(markers(os), a);
    lemma_run_end(markers(os), a);
    if sels.len() == 0 {
        lemma_pending_all(os, a, b);
    } else {
        let init = sels.drop_last();
        assert forall|k: int| 0 <= k < init.len() implies 0 <= #[trigger] init[k] < b - a - k by {
            assert(init[k] == sels[k]);
        }
        lemma_any_order_inner(st, init);
        let s1 = run_picks(st, init);
        let o1 = s1.oatlets;
        assert(markers(o1) == markers(os));
        let n = init.len() as int;
        assert(pending_from(o1, a, b).len() == (b - a) - n);
        assert(settle(o1, s1.pos) == a) by {
            if n > 0 {
                assert(s1.pos == a);
            }
            assert(o1[a].marker == markers(o1)[a]);
        }
        assert(run_end(markers(o1), a) == b);
        let sel = sels.last();
        assert(sels[n] == sel);
        let pd = pending_from(o1, a, b);
        lemma_pending_bounds(o1, a, b);
        let k = pd[sel];
        let o2 = o1.update(k, OatletView { done: true, ..o1[k] });
        assert(run_picks(st, sels) == step(s1, sel).0);
        assert(step(s1, sel).0 == OatsState { pos: a, oatlets: o2, ..s1 });
        lemma_pending_mark(o1, a, b, k);
        assert(markers(o2) =~= markers(o1));
    }
}

} // verus!
