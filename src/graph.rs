use vstd::prelude::*;

verus! {

/// The primitive operators of the engine. Subtraction and division are not
/// primitive: they are composed from these.
#[derive(Clone, Copy, Debug, PartialEq, Eq, Structural)]
pub enum OpKind {
    Add,
    Multiply,
    Power,
    Tanh,
    Exponential,
}

/// Number of operands a node produced by `op` has (none for a leaf).
pub open spec fn arity_of(op: Option<OpKind>) -> nat {
    match op {
        Some(OpKind::Add) => 2,
        Some(OpKind::Multiply) => 2,
        Some(_) => 1,
        None => 0,
    }
}

impl OpKind {
    /// Number of operands of this operator.
    pub fn arity(&self) -> (r: usize)
        ensures
            r == arity_of(Some(*self)),
    {
        match self {
            OpKind::Add => 2,
            OpKind::Multiply => 2,
            _ => 1,
        }
    }
}

/// What the graph knows of one node, as mathematical values.
pub struct NodeView {
    pub label: Seq<char>,
    pub op: Option<OpKind>,
    pub parents: Seq<usize>,
}

/// One node: a diagnostic label, the operator that produced it (absent for a
/// leaf) and its operands, left to right.
pub struct GraphNode {
    pub label: String,
    pub op: Option<OpKind>,
    pub parents: Vec<usize>,
}

impl View for GraphNode {
    type V = NodeView;

    open spec fn view(&self) -> NodeView {
        NodeView { label: self.label@, op: self.op, parents: self.parents@ }
    }
}

/// Every node has as many operands as its operator takes, and each operand
/// is an older node.
pub open spec fn well_formed(s: Seq<NodeView>) -> bool {
    forall|i: int|
        0 <= i < s.len() ==> {
            &&& #[trigger] s[i].parents.len() == arity_of(s[i].op)
            &&& forall|k: int| 0 <= k < s[i].parents.len() ==> (#[trigger] s[i].parents[k]) < i
        }
}

/// The computation graph: an arena of nodes, each named by its index.
pub struct Graph {
    nodes: Vec<GraphNode>,
}

impl View for Graph {
    type V = Seq<NodeView>;

    closed spec fn view(&self) -> Seq<NodeView> {
        self.nodes@.map_values(|n: GraphNode| n@)
    }
}

impl Graph {
    pub open spec fn wf(&self) -> bool {
        well_formed(self@)
    }

    /// An empty graph.
    pub fn new() -> (g: Graph)
        ensures
            g.wf(),
            g@ == Seq::<NodeView>::empty(),
    {
        let g = Graph { nodes: Vec::new() };
        assert(g@ =~= Seq::<NodeView>::empty());
        g
    }

    /// Number of nodes created so far.
    pub fn len(&self) -> (r: usize)
        ensures
            r == self@.len(),
    {
        self.nodes.len()
    }

    fn push_node(&mut self, node: GraphNode) -> (id: usize)
        requires
            old(self).wf(),
            old(self)@.len() < usize::MAX,
            node@.parents.len() == arity_of(node@.op),
            forall|k: int| 0 <= k < node@.parents.len() ==> node@.parents[k] < old(self)@.len(),
        ensures
            final(self).wf(),
            id == old(self)@.len(),
            final(self)@ == old(self)@.push(node@),
    {
        let ghost v = node@;
        let id = self.nodes.len();
        self.nodes.push(node);
        assert(self@ =~= old(self)@.push(v));
        id
    }

    /// Adds a leaf node (no operator, no operands) and returns its index.
    pub fn leaf(&mut self, label: String) -> (id: usize)
        requires
            old(self).wf(),
            old(self)@.len() < usize::MAX,
        ensures
            final(self).wf(),
            id == old(self)@.len(),
            final(self)@ == old(self)@.push(NodeView { label: label@, op: None, parents: seq![] }),
    {
        let node = GraphNode { label, op: None, parents: Vec::new() };
        proof {
            assert(node@.parents =~= seq![]);
        }
        self.push_node(node)
    }

    /// Adds the node `a + b` and returns its index.
    pub fn add(&mut self, a: usize, b: usize) -> (id: usize)
        requires
            old(self).wf(),
            old(self)@.len() < usize::MAX,
            a < old(self)@.len(),
            b < old(self)@.len(),
        ensures
            final(self).wf(),
            id == old(self)@.len(),
            final(self)@ == old(self)@.push(
                NodeView { label: seq!['+'], op: Some(OpKind::Add), parents: seq![a, b] },
            ),
    {
        let mut parents: Vec<usize> = Vec::new();
        parents.push(a);
        parents.push(b);
        let node = GraphNode { label: String::from_str("+"), op: Some(OpKind::Add), parents };
        proof {
            reveal_strlit("+");
            assert(node@.label =~= seq!['+']);
            assert(node@.parents =~= seq![a, b]);
        }
        self.push_node(node)
    }

    /// Adds the node `a * b` and returns its index.
    pub fn mul(&mut self, a: usize, b: usize) -> (id: usize)
        requires
            old(self).wf(),
            old(self)@.len() < usize::MAX,
            a < old(self)@.len(),
            b < old(self)@.len(),
        ensures
            final(self).wf(),
            id == old(self)@.len(),
            final(self)@ == old(self)@.push(
                NodeView { label: seq!['*'], op: Some(OpKind::Multiply), parents: seq![a, b] },
            ),
    {
        let mut parents: Vec<usize> = Vec::new();
        parents.push(a);
        parents.push(b);
        let node = GraphNode { label: String::from_str("*"), op: Some(OpKind::Multiply), parents };
        proof {
            reveal_strlit("*");
            assert(node@.label =~= seq!['*']);
            assert(node@.parents =~= seq![a, b]);
        }
        self.push_node(node)
    }

    fn unary(&mut self, op: OpKind, a: usize, label: String) -> (id: usize)
        requires
            old(self).wf(),
            old(self)@.len() < usize::MAX,
            a < old(self)@.len(),
            arity_of(Some(op)) == 1,
        ensures
            final(self).wf(),
            id == old(self)@.len(),
            final(self)@ == old(self)@.push(NodeView { label: label@, op: Some(op), parents: seq![a] }),
    {
        let mut parents: Vec<usize> = Vec::new();
        parents.push(a);
        let node = GraphNode { label, op: Some(op), parents };
        proof {
            assert(node@.parents =~= seq![a]);
        }
        self.push_node(node)
    }

    /// Adds the node `a ^ k` and returns its index. The exponent `k` is a
    /// constant, not a node: the caller keeps it with the node's value.
    pub fn powop(&mut self, a: usize) -> (id: usize)
        requires
            old(self).wf(),
            old(self)@.len() < usize::MAX,
            a < old(self)@.len(),
        ensures
            final(self).wf(),
            id == old(self)@.len(),
            final(self)@ == old(self)@.push(
                NodeView { label: seq!['p', 'o', 'w'], op: Some(OpKind::Power), parents: seq![a] },
            ),
    {
        let label = String::from_str("pow");
        proof {
            reveal_strlit("pow");
            assert(label@ =~= seq!['p', 'o', 'w']);
        }
        self.unary(OpKind::Power, a, label)
    }

    /// Adds the node `tanh(a)` and returns its index.
    pub fn tanh(&mut self, a: usize) -> (id: usize)
        requires
            old(self).wf(),
            old(self)@.len() < usize::MAX,
            a < old(self)@.len(),
        ensures
            final(self).wf(),
            id == old(self)@.len(),
            final(self)@ == old(self)@.push(
                NodeView { label: seq!['t', 'a', 'n', 'h'], op: Some(OpKind::Tanh), parents: seq![a] },
            ),
    {
        let label = String::from_str("tanh");
        proof {
            reveal_strlit("tanh");
            assert(label@ =~= seq!['t', 'a', 'n', 'h']);
        }
        self.unary(OpKind::Tanh, a, label)
    }

    /// Adds the node `e ^ a` and returns its index.
    pub fn exp(&mut self, a: usize) -> (id: usize)
        requires
            old(self).wf(),
            old(self)@.len() < usize::MAX,
            a < old(self)@.len(),
        ensures
            final(self).wf(),
            id == old(self)@.len(),
            final(self)@ == old(self)@.push(
                NodeView {
                    label: seq!['e', 'x', 'p'],
                    op: Some(OpKind::Exponential),
                    parents: seq![a],
                },
            ),
    {
        let label = String::from_str("exp");
        proof {
            reveal_strlit("exp");
            assert(label@ =~= seq!['e', 'x', 'p']);
        }
        self.unary(OpKind::Exponential, a, label)
    }

    /// Replaces the label of node `id`; nothing else changes.
    pub fn label(&mut self, id: usize, label: String)
        requires
            old(self).wf(),
            id < old(self)@.len(),
        ensures
            final(self).wf(),
            final(self)@ == old(self)@.update(
                id as int,
                NodeView { label: label@, ..old(self)@[id as int] },
            ),
    {
        let ghost l = label@;
        let mut node = GraphNode { label: String::new(), op: None, parents: Vec::new() };
        std::mem::swap(&mut node, &mut self.nodes[id]);
        node.label = label;
        std::mem::swap(&mut node, &mut self.nodes[id]);
        assert(self@ =~= old(self)@.update(id as int, NodeView { label: l, ..old(self)@[id as int] }));
    }

    /// The node at index `id`.
    pub fn node(&self, id: usize) -> (r: &GraphNode)
        requires
            id < self@.len(),
        ensures
            r@ == self@[id as int],
    {
        &self.nodes[id]
    }
}

} // verus!
