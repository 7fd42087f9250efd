//! The computation graph: an arena of nodes, and the operators that record
//! new nodes in it.
//!
//! A node may only name operands that were recorded before it, so the graph
//! is acyclic by construction. A [`Value`] is the position of a node in the
//! arena: two handles are equal exactly when they name the same node, and a
//! handle may be copied and used as an operand any number of times.
use crate::scalar::lemma_wrapping_add;
use crate::scalar::lemma_wrapping_mul;
use crate::scalar::lemma_wrapping_sub;
use crate::scalar::wrap;
use crate::scalar::wrapping_powi;
use vstd::arithmetic::power::pow;
use vstd::prelude::*;

verus! {

/// A handle to one node of a [`Graph`].
#[derive(Clone, Copy, Debug, PartialEq, Eq, Hash, Structural)]
pub struct Value {
    pub index: usize,
}

impl View for Value {
    type V = int;

    /// The position of the node in its graph.
    open spec fn view(&self) -> int {
        self.index as int
    }
}

/// How a node was computed from earlier nodes.
#[derive(Clone, Copy, Debug, PartialEq, Eq, Structural)]
pub enum Operation {
    Addition(Value, Value),
    Subtraction(Value, Value),
    Multiplication(Value, Value),
    Exponentiation(Value, u32),
    Negation(Value),
}

/// One node: its value, the gradient accumulated so far, and the operation
/// that produced it (`None` for a leaf).
#[derive(Clone, Copy, Debug)]
pub struct Node {
    pub data: i64,
    pub grad: i64,
    pub operation: Option<Operation>,
}

/// The arena that owns every node of an expression.
pub struct Graph {
    nodes: Vec<Node>,
}

/// The operands of a node, in the order in which they are visited.
pub open spec fn operands(operation: Option<Operation>) -> Seq<int> {
    match operation {
        Some(Operation::Addition(lhs, rhs)) => seq![lhs@, rhs@],
        Some(Operation::Subtraction(lhs, rhs)) => seq![lhs@, rhs@],
        Some(Operation::Multiplication(lhs, rhs)) => seq![lhs@, rhs@],
        Some(Operation::Exponentiation(base, _)) => seq![base@],
        Some(Operation::Negation(operand)) => seq![operand@],
        None => seq![],
    }
}

/// The positions that a list of handles names.
pub open spec fn ids(handles: Seq<Value>) -> Seq<int> {
    Seq::new(handles.len(), |i: int| handles[i]@)
}

/// Every operand of `operation` is a position below `bound`.
pub open spec fn operands_below(operation: Option<Operation>, bound: int) -> bool {
    forall|k: int|
        0 <= k < operands(operation).len() ==> 0 <= (#[trigger] operands(operation)[k]) < bound
}

/// Every operand of every node was recorded before the node itself.
pub open spec fn well_formed(nodes: Seq<Node>) -> bool {
    forall|n: int, k: int|
        0 <= n < nodes.len() && 0 <= k < operands(nodes[n].operation).len() ==> 0 <= (
        #[trigger] operands(nodes[n].operation)[k]) < n
}

/// The integer that `operation` computes from the values of its operands,
/// before it is reduced to a scalar.
pub open spec fn result_of(nodes: Seq<Node>, operation: Operation) -> int {
    match operation {
        Operation::Addition(lhs, rhs) => nodes[lhs@].data + nodes[rhs@].data,
        Operation::Subtraction(lhs, rhs) => nodes[lhs@].data - nodes[rhs@].data,
        Operation::Multiplication(lhs, rhs) => nodes[lhs@].data * nodes[rhs@].data,
        Operation::Exponentiation(base, exponent) => pow(nodes[base@].data as int, exponent as nat),
        Operation::Negation(operand) => -nodes[operand@].data,
    }
}

/// A leaf that holds `value`, with no gradient yet.
pub open spec fn leaf(value: i64) -> Node {
    Node { data: value, grad: 0, operation: None }
}

/// The node that applying `operation` records, with no gradient yet.
pub open spec fn applied(nodes: Seq<Node>, operation: Operation) -> Node {
    Node { data: wrap(result_of(nodes, operation)), grad: 0, operation: Some(operation) }
}

/// `node` with its gradient replaced by `grad`.
pub open spec fn with_grad(node: Node, grad: i64) -> Node {
    Node { data: node.data, grad, operation: node.operation }
}

/// A well-formed graph stays well-formed when a node is appended whose
/// operands are all present.
pub proof fn lemma_push_well_formed(nodes: Seq<Node>, node: Node)
    requires
        well_formed(nodes),
        operands_below(node.operation, nodes.len() as int),
    ensures
        well_formed(nodes.push(node)),
{
    let grown = nodes.push(node);
    assert forall|n: int, k: int|
        0 <= n < grown.len() && 0 <= k < operands(grown[n].operation).len() implies 0 <= (
    #[trigger] operands(grown[n].operation)[k]) < n by {
        if n < nodes.len() {
            assert(grown[n] == nodes[n]);
        }
    }
}

/// A change of gradients alone keeps a graph well-formed.
pub proof fn lemma_same_shape_well_formed(before: Seq<Node>, after: Seq<Node>)
    requires
        well_formed(before),
        same_shape(before, after),
    ensures
        well_formed(after),
{
    assert forall|n: int, k: int|
        0 <= n < after.len() && 0 <= k < operands(after[n].operation).len() implies 0 <= (
    #[trigger] operands(after[n].operation)[k]) < n by {
        assert(after[n].operation == before[n].operation);
        assert(0 <= operands(before[n].operation)[k] < n);
    }
}

/// Two graphs that differ in gradients at most: the same nodes, with the same
/// values and operations.
pub open spec fn same_shape(before: Seq<Node>, after: Seq<Node>) -> bool {
    &&& after.len() == before.len()
    &&& forall|n: int|
        0 <= n < before.len() ==> (#[trigger] after[n]).data == before[n].data && after[n].operation
            == before[n].operation
}

impl View for Graph {
    type V = Seq<Node>;

    /// The nodes in the order in which they were recorded.
    closed spec fn view(&self) -> Seq<Node> {
        self.nodes@
    }
}

impl Graph {
    /// The graph's invariant: operands precede the nodes that use them.
    pub open spec fn wf(&self) -> bool {
        well_formed(self@)
    }

    /// `value` names a node of this graph.
    pub open spec fn owns(&self, value: Value) -> bool {
        value@ < self@.len()
    }

    /// A graph without nodes.
    pub fn new() -> (graph: Graph)
        ensures
            graph@ == Seq::<Node>::empty(),
            graph.wf(),
    {
        Graph { nodes: Vec::new() }
    }

    /// The number of nodes recorded so far.
    pub fn len(&self) -> (count: usize)
        ensures
            count == self@.len(),
    {
        self.nodes.len()
    }

    /// Whether `value` names a node of this graph.
    pub fn contains(&self, value: Value) -> (found: bool)
        ensures
            found == self.owns(value),
    {
        value.index < self.nodes.len()
    }

    /// The operation that produced `value`, or `None` for a leaf.
    pub fn operation(&self, value: Value) -> (operation: Option<Operation>)
        requires
            self.owns(value),
        ensures
            operation == self@[value@].operation,
    {
        self.nodes[value.index].operation
    }

    /// Overwrites the gradient of the node at `index`.
    pub(crate) fn store_grad(&mut self, index: usize, grad: i64)
        requires
            index < old(self)@.len(),
        ensures
            final(self)@ == old(self)@.update(index as int, with_grad(old(self)@[index as int], grad)),
    {
        let node = self.nodes[index];
        self.nodes.set(index, Node { data: node.data, grad, operation: node.operation });
    }
}

impl Operation {
    /// The left or only operand, and the right operand where there is one.
    pub fn inputs(&self) -> (pair: (Value, Option<Value>))
        ensures
            operands(Some(*self)) == match pair.1 {
                Some(rhs) => seq![pair.0@, rhs@],
                None => seq![pair.0@],
            },
    {
        match *self {
            Operation::Addition(lhs, rhs) => (lhs, Some(rhs)),
            Operation::Subtraction(lhs, rhs) => (lhs, Some(rhs)),
            Operation::Multiplication(lhs, rhs) => (lhs, Some(rhs)),
            Operation::Exponentiation(base, _) => (base, None),
            Operation::Negation(operand) => (operand, None),
        }
    }
}

impl Value {
    /// Records a leaf that holds `val` and returns its handle.
    pub fn from_val(graph: &mut Graph, val: i64) -> (value: Value)
        requires
            old(graph).wf(),
        ensures
            value@ == old(graph)@.len(),
            final(graph)@ == old(graph)@.push(leaf(val)),
            final(graph).wf(),
    {
        Value::new(graph, val, None)
    }

    /// Appends a node with the given value and operation, gradient zero.
    fn new(graph: &mut Graph, data: i64, operation: Option<Operation>) -> (value: Value)
        requires
            old(graph).wf(),
            operands_below(operation, old(graph)@.len() as int),
        ensures
            value@ == old(graph)@.len(),
            final(graph)@ == old(graph)@.push(Node { data, grad: 0, operation }),
            final(graph).wf(),
    {
        let index = graph.nodes.len();
        proof {
            lemma_push_well_formed(graph@, Node { data, grad: 0, operation });
        }
        graph.nodes.push(Node { data, grad: 0, operation });
        Value { index }
    }

    /// The value of the node. Reading changes nothing, so two reads with no
    /// mutation between them agree.
    pub fn data(&self, graph: &Graph) -> (data: i64)
        requires
            graph.owns(*self),
        ensures
            data == graph@[self@].data,
    {
        graph.nodes[self.index].data
    }

    /// The gradient that the node has accumulated so far. Reading changes
    /// nothing, so two reads with no mutation between them agree.
    pub fn grad(&self, graph: &Graph) -> (grad: i64)
        requires
            graph.owns(*self),
        ensures
            grad == graph@[self@].grad,
    {
        graph.nodes[self.index].grad
    }

    /// Overwrites the gradient of the node; every handle to the node sees the
    /// new gradient.
    pub fn set_grad(&self, graph: &mut Graph, grad: i64)
        requires
            old(graph).owns(*self),
        ensures
            final(graph)@ == old(graph)@.update(self@, with_grad(old(graph)@[self@], grad)),
            final(graph).wf() == old(graph).wf(),
    {
        proof {
            let before = graph@;
            let after = before.update(self@, with_grad(before[self@], grad));
            assert(same_shape(before, after));
            assert(same_shape(after, before));
            if well_formed(before) {
                lemma_same_shape_well_formed(before, after);
            }
            if well_formed(after) {
                lemma_same_shape_well_formed(after, before);
            }
        }
        graph.store_grad(self.index, grad);
    }

    /// Records the sum of two nodes.
    pub fn add(self, graph: &mut Graph, other: Value) -> (value: Value)
        requires
            old(graph).wf(),
            old(graph).owns(self),
            old(graph).owns(other),
        ensures
            value@ == old(graph)@.len(),
            final(graph)@ == old(graph)@.push(
                applied(old(graph)@, Operation::Addition(self, other)),
            ),
            final(graph).wf(),
    {
        let lhs = graph.nodes[self.index].data;
        let rhs = graph.nodes[other.index].data;
        proof {
            lemma_wrapping_add(lhs, rhs);
        }
        Value::new(graph, lhs.wrapping_add(rhs), Some(Operation::Addition(self, other)))
    }

    /// Records the difference of two nodes, `self` minus `other`.
    pub fn sub(self, graph: &mut Graph, other: Value) -> (value: Value)
        requires
            old(graph).wf(),
            old(graph).owns(self),
            old(graph).owns(other),
        ensures
            value@ == old(graph)@.len(),
            final(graph)@ == old(graph)@.push(
                applied(old(graph)@, Operation::Subtraction(self, other)),
            ),
            final(graph).wf(),
    {
        let lhs = graph.nodes[self.index].data;
        let rhs = graph.nodes[other.index].data;
        proof {
            lemma_wrapping_sub(lhs, rhs);
        }
        Value::new(graph, lhs.wrapping_sub(rhs), Some(Operation::Subtraction(self, other)))
    }

    /// Records the product of two nodes.
    pub fn mul(self, graph: &mut Graph, other: Value) -> (value: Value)
        requires
            old(graph).wf(),
            old(graph).owns(self),
            old(graph).owns(other),
        ensures
            value@ == old(graph)@.len(),
            final(graph)@ == old(graph)@.push(
                applied(old(graph)@, Operation::Multiplication(self, other)),
            ),
            final(graph).wf(),
    {
        let lhs = graph.nodes[self.index].data;
        let rhs = graph.nodes[other.index].data;
        proof {
            lemma_wrapping_mul(lhs, rhs);
        }
        Value::new(graph, lhs.wrapping_mul(rhs), Some(Operation::Multiplication(self, other)))
    }

    /// Records the node raised to the fixed power `exp`. The exponent is no
    /// node of the graph and receives no gradient.
    pub fn powi(self, graph: &mut Graph, exp: u32) -> (value: Value)
        requires
            old(graph).wf(),
            old(graph).owns(self),
        ensures
            value@ == old(graph)@.len(),
            final(graph)@ == old(graph)@.push(
                applied(old(graph)@, Operation::Exponentiation(self, exp)),
            ),
            final(graph).wf(),
    {
        let base = graph.nodes[self.index].data;
        Value::new(graph, wrapping_powi(base, exp), Some(Operation::Exponentiation(self, exp)))
    }

    /// Records the negation of the node.
    pub fn neg(self, graph: &mut Graph) -> (value: Value)
        requires
            old(graph).wf(),
            old(graph).owns(self),
        ensures
            value@ == old(graph)@.len(),
            final(graph)@ == old(graph)@.push(applied(old(graph)@, Operation::Negation(self))),
            final(graph).wf(),
    {
        let operand = graph.nodes[self.index].data;
        proof {
            lemma_wrapping_sub(0, operand);
        }
        Value::new(graph, 0i64.wrapping_sub(operand), Some(Operation::Negation(self)))
    }
}

} // verus!
