//! The compiled flowchart: nodes keyed by id, each with its attributes and
//! its outgoing edges in the order they were declared.
use vstd::prelude::*;

verus! {

/// An outgoing edge: where it leads and its optional label.
pub struct Edge {
    pub destination: String,
    pub label: Option<String>,
}

/// A node's attributes and outgoing edges.
pub struct Node {
    pub outputs: Vec<Edge>,
    pub label: Option<String>,
    pub cmd: Option<String>,
    pub cb: Option<String>,
}

pub struct EdgeView {
    pub destination: Seq<char>,
    pub label: Option<Seq<char>>,
}

pub struct NodeView {
    pub outputs: Seq<EdgeView>,
    pub label: Option<Seq<char>>,
    pub cmd: Option<Seq<char>>,
    pub cb: Option<Seq<char>>,
}

pub open spec fn opt_view(o: Option<String>) -> Option<Seq<char>> {
    match o {
        Some(s) => Some(s@),
        None => None,
    }
}

impl View for Edge {
    type V = EdgeView;

    open spec fn view(&self) -> EdgeView {
        EdgeView { destination: self.destination@, label: opt_view(self.label) }
    }
}

impl View for Node {
    type V = NodeView;

    open spec fn view(&self) -> NodeView {
        NodeView {
            outputs: self.outputs@.map_values(|e: Edge| e@),
            label: opt_view(self.label),
            cmd: opt_view(self.cmd),
            cb: opt_view(self.cb),
        }
    }
}

/// A node with no attributes and no edges.
pub open spec fn empty_node() -> NodeView {
    NodeView { outputs: Seq::empty(), label: None, cmd: None, cb: None }
}

/// The merge rule for one attribute: an incoming non-empty value replaces
/// the stored one; an absent or empty one leaves it as it was.
pub open spec fn merge_attr(existing: Option<Seq<char>>, incoming: Option<Seq<char>>) -> Option<
    Seq<char>,
> {
    match incoming {
        Some(v) => if v.len() > 0 {
            Some(v)
        } else {
            existing
        },
        None => existing,
    }
}

/// `n` with the attributes of one occurrence of its id merged in.
pub open spec fn absorb(
    n: NodeView,
    label: Option<Seq<char>>,
    cmd: Option<Seq<char>>,
    cb: Option<Seq<char>>,
) -> NodeView {
    NodeView {
        outputs: n.outputs,
        label: merge_attr(n.label, label),
        cmd: merge_attr(n.cmd, cmd),
        cb: merge_attr(n.cb, cb),
    }
}

pub fn copy_text(o: &Option<String>) -> (r: Option<String>)
    ensures
        opt_view(r) == opt_view(*o),
{
    match o {
        Some(s) => Some(s.clone()),
        None => None,
    }
}

/// Merges one incoming attribute value into a stored one.
pub fn merge_text(existing: &mut Option<String>, incoming: Option<String>)
    ensures
        opt_view(*final(existing)) == merge_attr(opt_view(*old(existing)), opt_view(incoming)),
{
    match incoming {
        Some(v) => {
            if !v.as_str().is_empty() {
                *existing = Some(v);
            }
        },
        None => {},
    }
}

/// An edge as text: `label -> destination`, or `to destination` when it
/// has no label.
pub open spec fn edge_text(e: EdgeView) -> Seq<char> {
    match e.label {
        Some(l) => l + " -> "@ + e.destination,
        None => "to "@ + e.destination,
    }
}

impl Edge {
    /// The edge as text; see [`edge_text`].
    pub fn to_text(&self) -> (r: String)
        ensures
            r@ == edge_text(self@),
    {
        match &self.label {
            Some(l) => {
                let mut s = l.clone();
                s.append(" -> ");
                s.append(self.destination.as_str());
                s
            },
            None => {
                let mut s = String::from_str("to ");
                s.append(self.destination.as_str());
                s
            },
        }
    }

    pub fn copy(&self) -> (r: Edge)
        ensures
            r@ == self@,
    {
        Edge { destination: self.destination.clone(), label: copy_text(&self.label) }
    }
}

impl Node {
    pub fn empty() -> (r: Node)
        ensures
            r@ == empty_node(),
    {
        let r = Node { outputs: Vec::new(), label: None, cmd: None, cb: None };
        assert(r@.outputs =~= Seq::<EdgeView>::empty());
        r
    }

    pub fn copy(&self) -> (r: Node)
        ensures
            r@ == self@,
    {
        let mut outputs: Vec<Edge> = Vec::new();
        let mut k: usize = 0;
        while k < self.outputs.len()
            invariant
                k <= self.outputs.len(),
                outputs@.len() == k,
                forall|m: int| 0 <= m < k ==> #[trigger] outputs@[m]@ == self.outputs@[m]@,
            decreases self.outputs.len() - k,
        {
            outputs.push(self.outputs[k].copy());
            k = k + 1;
        }
        assert(outputs@.map_values(|e: Edge| e@) =~= self.outputs@.map_values(|e: Edge| e@));
        Node {
            outputs,
            label: copy_text(&self.label),
            cmd: copy_text(&self.cmd),
            cb: copy_text(&self.cb),
        }
    }
}

/// Nodes keyed by id; each id occurs once.
pub struct Graph {
    entries: Vec<(String, Node)>,
}

impl Graph {
    #[verifier::type_invariant]
    spec fn ids_unique(&self) -> bool {
        forall|i: int, j: int|
            0 <= i < j < self.entries@.len() ==> #[trigger] self.entries@[i].0@
                != #[trigger] self.entries@[j].0@
    }

    pub closed spec fn has(&self, id: Seq<char>) -> bool {
        exists|i: int| 0 <= i < self.entries@.len() && #[trigger] self.entries@[i].0@ == id
    }

    spec fn index_of(&self, id: Seq<char>) -> int {
        choose|i: int| 0 <= i < self.entries@.len() && #[trigger] self.entries@[i].0@ == id
    }
}

impl View for Graph {
    type V = Map<Seq<char>, NodeView>;

    closed spec fn view(&self) -> Map<Seq<char>, NodeView> {
        Map::new(|id: Seq<char>| self.has(id), |id: Seq<char>| self.entries@[self.index_of(id)].1@)
    }
}

impl Graph {
    /// A graph with no nodes.
    pub fn new() -> (r: Graph)
        ensures
            r@ == Map::<Seq<char>, NodeView>::empty(),
    {
        let r = Graph { entries: Vec::new() };
        assert(r@ =~= Map::<Seq<char>, NodeView>::empty());
        r
    }

    proof fn lemma_index(&self, i: int)
        requires
            self.ids_unique(),
            0 <= i < self.entries@.len(),
        ensures
            self.has(self.entries@[i].0@),
            self.index_of(self.entries@[i].0@) == i,
            self@.contains_key(self.entries@[i].0@),
            self@[self.entries@[i].0@] == self.entries@[i].1@,
    {
        let id = self.entries@[i].0@;
        assert(self.has(id));
        let j = self.index_of(id);
        assert(self.entries@[j].0@ == id);
        if j < i {
            assert(self.entries@[j].0@ != self.entries@[i].0@);
        } else if i < j {
            assert(self.entries@[i].0@ != self.entries@[j].0@);
        }
    }

    /// The number of nodes.
    pub fn len(&self) -> (r: usize)
        ensures
            r == self@.len(),
    {
        proof {
            use_type_invariant(self);
            self.lemma_len();
        }
        self.entries.len()
    }

    proof fn lemma_len(&self)
        requires
            self.ids_unique(),
        ensures
            self@.dom().finite(),
            self@.len() == self.entries@.len(),
    {
        let keys = Seq::new(self.entries@.len(), |i: int| self.entries@[i].0@);
        assert forall|k: Seq<char>| self@.dom().contains(k) <==> keys.contains(k) by {
            if self@.dom().contains(k) {
                let i = self.index_of(k);
                assert(keys[i] == k);
            }
            if keys.contains(k) {
                let i = choose|i: int| 0 <= i < keys.len() && keys[i] == k;
                assert(self.entries@[i].0@ == k);
            }
        }
        assert(self@.dom() =~= keys.to_set());
        assert(keys.no_duplicates()) by {
            assert forall|i: int, j: int| 0 <= i < keys.len() && 0 <= j < keys.len() && i != j implies keys[i] != keys[j] by {
                if i < j {
                    assert(self.entries@[i].0@ != self.entries@[j].0@);
                } else {
                    assert(self.entries@[j].0@ != self.entries@[i].0@);
                }
            }
        }
        keys.unique_seq_to_set();
    }

    /// The position of `id` among the entries, if it is there.
    fn find(&self, id: &String) -> (r: Option<usize>)
        ensures
            match r {
                Some(i) => i < self.entries@.len() && self.entries@[i as int].0@ == id@,
                None => !self@.contains_key(id@),
            },
    {
        let mut k: usize = 0;
        while k < self.entries.len()
            invariant
                k <= self.entries@.len(),
                forall|m: int| 0 <= m < k ==> #[trigger] self.entries@[m].0@ != id@,
            decreases self.entries.len() - k,
        {
            if self.entries[k].0 == *id {
                return Some(k);
            }
            k = k + 1;
        }
        proof {
            if self.has(id@) {
                let i = self.index_of(id@);
                assert(self.entries@[i].0@ == id@);
            }
        }
        None
    }

    /// The node stored under `id`, if there is one.
    pub fn get(&self, id: &str) -> (r: Option<&Node>)
        ensures
            r is Some <==> self@.contains_key(id@),
            r is Some ==> r->0@ == self@[id@],
    {
        let key = String::from_str(id);
        match self.find(&key) {
            Some(i) => {
                proof {
                    use_type_invariant(self);
                    self.lemma_index(i as int);
                }
                Some(&self.entries[i].1)
            },
            None => None,
        }
    }

    /// Stores `node` under `id`, replacing what was stored there.
    pub fn put(&mut self, id: String, node: Node)
        ensures
            final(self)@ == old(self)@.insert(id@, node@),
    {
        let found = self.find(&id);
        let mut taken = Graph::new();
        std::mem::swap(self, &mut taken);
        proof { use_type_invariant(&taken); }
        let ghost before = taken;
        let Graph { entries: mut entries } = taken;
        match found {
            Some(i) => {
                entries.set(i, (id, node));
                proof {
                    assert forall|a: int, b: int| 0 <= a < b < entries@.len() implies #[trigger] entries@[a].0@ != #[trigger] entries@[b].0@ by {
                        assert(before.entries@[a].0@ != before.entries@[b].0@);
                    }
                }
            },
            None => {
                entries.push((id, node));
                proof {
                    assert forall|a: int, b: int| 0 <= a < b < entries@.len() implies #[trigger] entries@[a].0@ != #[trigger] entries@[b].0@ by {
                        if b < before.entries@.len() {
                            assert(before.entries@[a].0@ != before.entries@[b].0@);
                        } else {
                            before.lemma_index(a);
                        }
                    }
                }
            },
        }
        *self = Graph { entries };
        proof {
            match found {
                Some(i) => {
                    assert(self.entries@ == before.entries@.update(i as int, (id, node)));
                    self.lemma_view_after_set(before, i as int, id@, node@);
                },
                None => {
                    assert(self.entries@ == before.entries@.push((id, node)));
                    self.lemma_view_after_push(before, id@, node@);
                },
            }
        }
    }

    proof fn lemma_view_after_set(&self, before: Graph, i: int, id: Seq<char>, n: NodeView)
        requires
            self.ids_unique(),
            before.ids_unique(),
            0 <= i < before.entries@.len(),
            self.entries@.len() == before.entries@.len(),
            before.entries@[i].0@ == id,
            self.entries@[i].0@ == id,
            self.entries@[i].1@ == n,
            forall|j: int| 0 <= j < before.entries@.len() && j != i ==> self.entries@[j] == before.entries@[j],
        ensures
            self@ == before@.insert(id, n),
    {
        assert forall|k: Seq<char>| #[trigger] self.has(k) <==> before.has(k) by {
            if self.has(k) {
                let j = self.index_of(k);
                if j != i {
                    assert(before.entries@[j].0@ == k);
                }
            }
            if before.has(k) {
                let j = before.index_of(k);
                if j != i {
                    assert(self.entries@[j].0@ == k);
                }
            }
        }
        self.lemma_index(i);
        before.lemma_index(i);
        assert forall|k: Seq<char>| #[trigger] self.has(k) && k != id implies self@[k] == before@[k] by {
            let j = self.index_of(k);
            self.lemma_index(j);
            before.lemma_index(j);
        }
        assert(self@ =~= before@.insert(id, n));
    }

    proof fn lemma_view_after_push(&self, before: Graph, id: Seq<char>, n: NodeView)
        requires
            self.ids_unique(),
            before.ids_unique(),
            !before@.contains_key(id),
            self.entries@.len() == before.entries@.len() + 1,
            self.entries@.last().0@ == id,
            self.entries@.last().1@ == n,
            forall|j: int| 0 <= j < before.entries@.len() ==> self.entries@[j] == before.entries@[j],
        ensures
            self@ == before@.insert(id, n),
    {
        let last = before.entries@.len() as int;
        assert forall|k: Seq<char>| #[trigger] self.has(k) <==> (before.has(k) || k == id) by {
            if self.has(k) {
                let j = self.index_of(k);
                if j != last {
                    assert(before.entries@[j].0@ == k);
                }
            }
            if before.has(k) {
                let j = before.index_of(k);
                assert(self.entries@[j].0@ == k);
            }
            if k == id {
                assert(self.entries@[last].0@ == k);
            }
        }
        self.lemma_index(last);
        assert forall|k: Seq<char>| #[trigger] before.has(k) implies self@[k] == before@[k] by {
            let j = before.index_of(k);
            before.lemma_index(j);
            self.lemma_index(j);
        }
        assert(self@ =~= before@.insert(id, n));
    }
}

} // verus!
