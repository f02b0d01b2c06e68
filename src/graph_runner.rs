//! The flowchart engine: a state machine over a compiled [`Graph`] that
//! tells its caller what to ask the operator at the current node and
//! where to go next. It never performs a side effect itself: it names the
//! text to copy or the command to run, and the caller does it.
use vstd::prelude::*;
use crate::graph::{edge_text, Edge, EdgeView, Graph, Node, NodeView};

verus! {

/// Which attribute a node's prompt text comes from.
#[derive(Debug, Clone, Copy, PartialEq, Eq, Structural)]
pub enum NodeTextType {
    Cmd,
    Cb,
    Label,
    Id,
}

/// The current node is not in the graph.
#[derive(Debug)]
pub struct MissingNode {
    pub id: String,
}

/// What to present at the current node.
pub enum Step {
    /// One way on: confirm the node's side effect, then go to `destination`.
    Gate { kind: NodeTextType, text: String, destination: String },
    /// Several ways on: pick one of the edges.
    Branch { text: String, options: Vec<String> },
    /// A dead end: confirm the node's side effect once more, then stop.
    End { kind: NodeTextType, text: String },
}

/// A side effect for the caller to perform.
pub enum Action {
    Copy(String),
    Run(String),
}

pub struct GraphState {
    pub current: Seq<char>,
    pub graph: Map<Seq<char>, NodeView>,
}

pub enum StepView {
    Gate { kind: NodeTextType, text: Seq<char>, destination: Seq<char> },
    Branch { text: Seq<char>, options: Seq<Seq<char>> },
    End { kind: NodeTextType, text: Seq<char> },
}

pub enum ActionView {
    Copy(Seq<char>),
    Run(Seq<char>),
}

impl View for Step {
    type V = StepView;

    open spec fn view(&self) -> StepView {
        match self {
            Step::Gate { kind, text, destination } => StepView::Gate {
                kind: *kind,
                text: text@,
                destination: destination@,
            },
            Step::Branch { text, options } => StepView::Branch {
                text: text@,
                options: options@.map_values(|o: String| o@),
            },
            Step::End { kind, text } => StepView::End { kind: *kind, text: text@ },
        }
    }
}

impl View for Action {
    type V = ActionView;

    open spec fn view(&self) -> ActionView {
        match self {
            Action::Copy(t) => ActionView::Copy(t@),
            Action::Run(t) => ActionView::Run(t@),
        }
    }
}

pub open spec fn action_view(a: Option<Action>) -> Option<ActionView> {
    match a {
        Some(x) => Some(x@),
        None => None,
    }
}

/// The prompt text of a node: clipboard text, else command, else label,
/// else its id.
pub open spec fn display_of(n: NodeView, id: Seq<char>) -> (NodeTextType, Seq<char>) {
    match n.cb {
        Some(t) => (NodeTextType::Cb, t),
        None => match n.cmd {
            Some(t) => (NodeTextType::Cmd, t),
            None => match n.label {
                Some(t) => (NodeTextType::Label, t),
                None => (NodeTextType::Id, id),
            },
        },
    }
}

/// What to present in state `st`; `None` when the current node is missing.
pub open spec fn step_of(st: GraphState) -> Option<StepView> {
    if !st.graph.contains_key(st.current) {
        None
    } else {
        let n = st.graph[st.current];
        let (kind, text) = display_of(n, st.current);
        if n.outputs.len() == 0 {
            Some(StepView::End { kind, text })
        } else if n.outputs.len() == 1 {
            Some(StepView::Gate { kind, text, destination: n.outputs[0].destination })
        } else {
            Some(StepView::Branch { text, options: n.outputs.map_values(|e: EdgeView| edge_text(e)) })
        }
    }
}

/// The side effect that confirming a node of this kind asks for.
pub open spec fn action_for(kind: NodeTextType, text: Seq<char>) -> Option<ActionView> {
    match kind {
        NodeTextType::Cb => Some(ActionView::Copy(text)),
        NodeTextType::Cmd => Some(ActionView::Run(text)),
        _ => None,
    }
}

/// The answer to a confirmation: the next state, the side effect to
/// perform, and whether the walk is over. Confirming a gate moves on and
/// declining it stops; a dead end stops either way. Anywhere else a
/// confirmation changes nothing.
pub open spec fn confirm_spec(st: GraphState, yes: bool) -> (GraphState, Option<ActionView>, bool) {
    match step_of(st) {
        Some(StepView::Gate { kind, text, destination }) => if yes {
            (GraphState { current: destination, ..st }, action_for(kind, text), false)
        } else {
            (st, None, true)
        },
        Some(StepView::End { kind, text }) => (st, if yes {
            action_for(kind, text)
        } else {
            None
        }, true),
        _ => (st, None, false),
    }
}

/// The answer to a choice at a branch: the chosen edge's destination
/// becomes current. Anywhere else, or out of range, nothing changes.
pub open spec fn pick_spec(st: GraphState, index: int) -> GraphState {
    match step_of(st) {
        Some(StepView::Branch { .. }) => if 0 <= index < st.graph[st.current].outputs.len() {
            GraphState { current: st.graph[st.current].outputs[index].destination, ..st }
        } else {
            st
        },
        _ => st,
    }
}

/// A dead end halts the walk: its step is the end, and answering it,
/// either way, stops with the state unchanged.
pub proof fn lemma_dead_end_halts(st: GraphState, yes: bool)
    requires
        st.graph.contains_key(st.current),
        st.graph[st.current].outputs.len() == 0,
    ensures
        step_of(st) matches Some(StepView::End { .. }),
        confirm_spec(st, yes).0 == st,
        confirm_spec(st, yes).2,
{
}

/// Every node has a way on, and every edge leads to a node.
pub open spec fn no_dead_end(g: Map<Seq<char>, NodeView>) -> bool {
    forall|id: Seq<char>|
        #[trigger] g.contains_key(id) ==> g[id].outputs.len() > 0 && forall|k: int|
            0 <= k < g[id].outputs.len() ==> g.contains_key(#[trigger] g[id].outputs[k].destination)
}

/// One move of an operator who never declines: confirm a gate, or take
/// edge `pick` at a branch.
pub open spec fn advance(st: GraphState, pick: int) -> GraphState {
    match step_of(st) {
        Some(StepView::Gate { .. }) => confirm_spec(st, true).0,
        Some(StepView::Branch { .. }) => pick_spec(st, pick),
        _ => st,
    }
}

/// The state after the moves `picks`, in order.
pub open spec fn walk(st: GraphState, picks: Seq<int>) -> GraphState
    decreases picks.len(),
{
    if picks.len() == 0 {
        st
    } else {
        advance(walk(st, picks.drop_last()), picks.last())
    }
}

/// In a graph with no dead end, a walk from a node by an operator who
/// never declines never stops: whatever the moves, the current node is in
/// the graph, it is a gate or a branch, and confirming it goes on.
pub proof fn lemma_no_dead_end_never_halts(st: GraphState, picks: Seq<int>)
    requires
        no_dead_end(st.graph),
        st.graph.contains_key(st.current),
    ensures
        ({
            let s2 = walk(st, picks);
            &&& s2.graph == st.graph
            &&& s2.graph.contains_key(s2.current)
            &&& (step_of(s2) matches Some(StepView::Gate { .. }) || step_of(s2) matches Some(
                StepView::Branch { .. },
            ))
            &&& !confirm_spec(s2, true).2
        }),
    decreases picks.len(),
{
    if picks.len() > 0 {
        lemma_no_dead_end_never_halts(st, picks.drop_last());
        let s1 = walk(st, picks.drop_last());
        let n = s1.graph[s1.current];
        assert(s1.graph.contains_key(s1.current));
        assert(n.outputs.len() > 0);
        assert(s1.graph.contains_key(n.outputs[0].destination));
        let pick = picks.last();
        if 0 <= pick < n.outputs.len() {
            assert(s1.graph.contains_key(n.outputs[pick].destination));
        }
        let s2 = walk(st, picks);
        assert(s2 == advance(s1, pick));
        assert(s2.graph.contains_key(s2.current));
        assert(s2.graph[s2.current].outputs.len() > 0);
    } else {
        assert(st.graph[st.current].outputs.len() > 0);
    }
}

/// Walks a flowchart from a start node.
pub struct GraphMachine {
    current_node: String,
    graph: Graph,
}

impl View for GraphMachine {
    type V = GraphState;

    closed spec fn view(&self) -> GraphState {
        GraphState { current: self.current_node@, graph: self.graph@ }
    }
}

impl GraphMachine {
    pub fn new(current_node: String, graph: Graph) -> (r: GraphMachine)
        ensures
            r@ == (GraphState { current: current_node@, graph: graph@ }),
    {
        GraphMachine { current_node, graph }
    }

    /// The id of the current node.
    pub fn current(&self) -> (r: &String)
        ensures
            r@ == self@.current,
    {
        &self.current_node
    }

    fn node(&self) -> (r: Option<&Node>)
        ensures
            r is Some <==> self@.graph.contains_key(self@.current),
            r is Some ==> r->0@ == self@.graph[self@.current],
    {
        self.graph.get(self.current_node.as_str())
    }

    /// The current node's outgoing edges, when it has any.
    pub fn choices(&self) -> (r: Option<&Vec<Edge>>)
        ensures
            r is Some <==> self@.graph.contains_key(self@.current) && self@.graph[self@.current].outputs.len() > 0,
            r is Some ==> r->0@.map_values(|e: Edge| e@) == self@.graph[self@.current].outputs,
    {
        match self.node() {
            Some(n) => {
                if n.outputs.len() == 0 {
                    None
                } else {
                    Some(&n.outputs)
                }
            },
            None => None,
        }
    }

    /// Makes `destination` the current node.
    pub fn traverse(&mut self, destination: String)
        ensures
            final(self)@ == (GraphState { current: destination@, ..old(self)@ }),
    {
        self.current_node = destination;
    }

    /// The current node's prompt text and where it comes from.
    pub fn get_node_type(&self) -> (r: Result<(NodeTextType, &str), MissingNode>)
        ensures
            match r {
                Ok((kind, text)) => self@.graph.contains_key(self@.current) && display_of(
                    self@.graph[self@.current],
                    self@.current,
                ) == (kind, text@),
                Err(_) => !self@.graph.contains_key(self@.current),
            },
    {
        match self.node() {
            Some(n) => {
                match &n.cb {
                    Some(t) => return Ok((NodeTextType::Cb, t.as_str())),
                    None => {},
                }
                match &n.cmd {
                    Some(t) => return Ok((NodeTextType::Cmd, t.as_str())),
                    None => {},
                }
                match &n.label {
                    Some(t) => return Ok((NodeTextType::Label, t.as_str())),
                    None => {},
                }
                Ok((NodeTextType::Id, self.current_node.as_str()))
            },
            None => Err(MissingNode { id: self.current_node.clone() }),
        }
    }

    /// The current node's label.
    pub fn get_node_label(&self) -> (r: Option<&str>)
        ensures
            match r {
                Some(t) => self@.graph.contains_key(self@.current) && self@.graph[self@.current].label == Some(t@),
                None => !self@.graph.contains_key(self@.current) || self@.graph[self@.current].label is None,
            },
    {
        match self.node() {
            Some(n) => match &n.label {
                Some(t) => Some(t.as_str()),
                None => None,
            },
            None => None,
        }
    }

    /// The current node's command text.
    pub fn get_command(&self) -> (r: Option<&str>)
        ensures
            match r {
                Some(t) => self@.graph.contains_key(self@.current) && self@.graph[self@.current].cmd == Some(t@),
                None => !self@.graph.contains_key(self@.current) || self@.graph[self@.current].cmd is None,
            },
    {
        match self.node() {
            Some(n) => match &n.cmd {
                Some(t) => Some(t.as_str()),
                None => None,
            },
            None => None,
        }
    }

    /// The current node's clipboard text.
    pub fn get_clipboard(&self) -> (r: Option<&str>)
        ensures
            match r {
                Some(t) => self@.graph.contains_key(self@.current) && self@.graph[self@.current].cb == Some(t@),
                None => !self@.graph.contains_key(self@.current) || self@.graph[self@.current].cb is None,
            },
    {
        match self.node() {
            Some(n) => match &n.cb {
                Some(t) => Some(t.as_str()),
                None => None,
            },
            None => None,
        }
    }

    /// What to present at the current node.
    pub fn next_step(&self) -> (r: Result<Step, MissingNode>)
        ensures
            match r {
                Ok(s) => step_of(self@) == Some(s@),
                Err(_) => step_of(self@) is None,
            },
    {
        let (kind, text) = match self.get_node_type() {
            Ok((k, t)) => (k, String::from_str(t)),
            Err(e) => return Err(e),
        };
        let n = match self.node() {
            Some(n) => n,
            None => return Err(MissingNode { id: self.current_node.clone() }),
        };
        let ghost nv = n@;
        if n.outputs.len() == 0 {
            Ok(Step::End { kind, text })
        } else if n.outputs.len() == 1 {
            assert(n.outputs@[0]@ == nv.outputs[0]);
            Ok(Step::Gate { kind, text, destination: n.outputs[0].destination.clone() })
        } else {
            let mut options: Vec<String> = Vec::new();
            let mut k: usize = 0;
            while k < n.outputs.len()
                invariant
                    k <= n.outputs@.len(),
                    nv == n@,
                    options@.map_values(|o: String| o@) =~= nv.outputs.take(k as int).map_values(|e: EdgeView| edge_text(e)),
                decreases n.outputs.len() - k,
            {
                let ghost before = options@.map_values(|o: String| o@);
                options.push(n.outputs[k].to_text());
                assert(nv.outputs.take(k + 1) =~= nv.outputs.take(k as int).push(nv.outputs[k as int]));
                assert(options@.map_values(|o: String| o@) =~= before.push(edge_text(nv.outputs[k as int])));
                k = k + 1;
            }
            assert(nv.outputs.take(k as int) =~= nv.outputs);
            Ok(Step::Branch { text, options })
        }
    }

    /// Takes the operator's answer to a gate or a dead end: returns the
    /// side effect to perform and whether the walk is over.
    pub fn confirm(&mut self, affirmative: bool) -> (r: (Option<Action>, bool))
        ensures
            (final(self)@, action_view(r.0), r.1) == confirm_spec(old(self)@, affirmative),
    {
        let step = match self.next_step() {
            Ok(s) => s,
            Err(_) => return (None, false),
        };
        match step {
            Step::Gate { kind, text, destination } => {
                if affirmative {
                    self.traverse(destination);
                    (Self::action(kind, text), false)
                } else {
                    (None, true)
                }
            },
            Step::End { kind, text } => {
                if affirmative {
                    (Self::action(kind, text), true)
                } else {
                    (None, true)
                }
            },
            Step::Branch { .. } => (None, false),
        }
    }

    fn action(kind: NodeTextType, text: String) -> (r: Option<Action>)
        ensures
            action_view(r) == action_for(kind, text@),
    {
        match kind {
            NodeTextType::Cb => Some(Action::Copy(text)),
            NodeTextType::Cmd => Some(Action::Run(text)),
            _ => None,
        }
    }

    /// Takes the operator's choice of edge `index` at a branch.
    pub fn pick(&mut self, index: usize)
        ensures
            final(self)@ == pick_spec(old(self)@, index as int),
    {
        let dest = match self.next_step() {
            Ok(Step::Branch { .. }) => match self.choices() {
                Some(edges) => {
                    if index < edges.len() {
                        proof { assert(edges@[index as int]@ == self@.graph[self@.current].outputs[index as int]); }
                        Some(edges[index].destination.clone())
                    } else {
                        None
                    }
                },
                None => None,
            },
            _ => None,
        };
        match dest {
            Some(d) => self.traverse(d),
            None => {},
        }
    }
}

} // verus!
