use crate::basic_fn::{BasicFn, FnInput, FnKind};
use crate::scalar::Scalar;
use vstd::prelude::*;

verus! {

/// One position in a computation graph: a *leaf* supplied by the caller
/// (no operation, no parents), or an *internal* node carrying the operation
/// that produced it together with the parents it was applied to.
///
/// Nodes are immutable once created: the value is computed at construction
/// and never changes, and neither do the operation or the parent list.
#[derive(Clone, Debug)]
pub struct Node<V> {
    /// The operation that produced this node; `None` exactly for leaves.
    pub func: Option<BasicFn>,
    /// The scalar carried by this node, computed once at construction.
    pub value: V,
    /// Arena indices of the parents, in their original relative order.
    pub parents: Vec<usize>,
    /// The parents' values, recorded at construction (values never change).
    pub parent_values: Vec<V>,
    /// The node's identity: its own index in the arena.
    pub id: usize,
}

/// An immutable DAG of nodes held in an arena. A node's parents always
/// precede it in the arena, so the graph is acyclic by construction, and
/// node identity is simply the arena index.
#[derive(Debug)]
pub struct Graph<V> {
    pub nodes: Vec<Node<V>>,
}

/// A node paired with the running sum of its gradient contributions.
#[derive(Clone, Copy, Debug)]
pub struct NodeGradPair<V> {
    pub node_id: usize,
    pub grad: V,
}

impl<V> NodeGradPair<V> {
    pub fn new(node_id: usize, grad: V) -> (r: Self)
        ensures
            r.node_id == node_id,
            r.grad == grad,
    {
        NodeGradPair { node_id, grad }
    }

    /// The identity of the node this entry belongs to.
    pub fn node(&self) -> (r: usize)
        ensures
            r == self.node_id,
    {
        self.node_id
    }
}

impl<V: Copy> NodeGradPair<V> {
    /// The accumulated gradient.
    pub fn grad(&self) -> (r: V)
        ensures
            r == self.grad,
    {
        self.grad
    }
}

impl<V> Node<V> {
    /// The operation kind of an internal node.
    pub open spec fn op_kind(self) -> crate::basic_fn::FnKind {
        match self.func {
            Some(f) => f.kind,
            None => arbitrary(),
        }
    }

    /// A leaf carries no operation and has no parents.
    pub fn is_start(&self) -> (r: bool)
        ensures
            r == (self.parents@.len() == 0 && self.func is None),
    {
        self.parents.len() == 0 && self.func.is_none()
    }

    /// The node's globally unique identity within its graph.
    pub fn id(&self) -> (r: usize)
        ensures
            r == self.id,
    {
        self.id
    }
}

impl<V> Graph<V> {
    pub open spec fn node_count(self) -> nat {
        self.nodes@.len()
    }

    /// The node at arena index `i` has no parents (and so no operation,
    /// given well-formedness).
    pub open spec fn is_leaf(self, i: int) -> bool {
        self.nodes@[i].parents@.len() == 0
    }

    /// Well-formedness of one node: its recorded identity is its index, its
    /// parents strictly precede it, it has parents iff it has an operation,
    /// and the recorded parent values are the parents' values.
    pub open spec fn wf_at(self, i: int) -> bool {
        let n = self.nodes@[i];
        &&& n.id == i
        &&& n.parent_values@.len() == n.parents@.len()
        &&& (n.func is None <==> n.parents@.len() == 0)
        &&& forall|k: int|
            0 <= k < n.parents@.len() ==> (#[trigger] n.parents@[k]) < i
        &&& forall|k: int|
            0 <= k < n.parents@.len() ==> (#[trigger] n.parent_values@[k]) == self.nodes@[n.parents@[
                k] as int].value
    }

    pub open spec fn wf(self) -> bool {
        forall|i: int| 0 <= i < self.nodes@.len() ==> #[trigger] self.wf_at(i)
    }

    /// An empty computation graph.
    pub fn new() -> (g: Self)
        ensures
            g.nodes@.len() == 0,
            g.wf(),
    {
        Graph { nodes: Vec::new() }
    }

    /// Borrow the node with identity `i`.
    pub fn node(&self, i: usize) -> (r: &Node<V>)
        requires
            i < self.nodes@.len(),
        ensures
            *r == self.nodes@[i as int],
    {
        &self.nodes[i]
    }

    /// The number of nodes in the arena.
    pub fn len(&self) -> (r: usize)
        ensures
            r == self.nodes@.len(),
    {
        self.nodes.len()
    }
}

impl<V: Copy> Node<V> {
    /// The scalar carried by this node.
    pub fn value(&self) -> (r: V)
        ensures
            r == self.value,
    {
        self.value
    }

    /// Append a node built from the given parents, value and operation.
    ///
    /// A node has parents iff it has an operation; violating that is a
    /// programming fault, excluded here by precondition.
    pub fn new(g: &mut Graph<V>, parents: Vec<usize>, value: V, func: Option<BasicFn>) -> (idx:
        usize)
        requires
            old(g).wf(),
            (parents@.len() == 0) <==> (func is None),
            forall|k: int|
                0 <= k < parents@.len() ==> (#[trigger] parents@[k]) < old(g).node_count(),
        ensures
            final(g).wf(),
            final(g).node_count() == old(g).node_count() + 1,
            idx == old(g).node_count(),
            forall|i: int|
                0 <= i < old(g).node_count() ==> #[trigger] final(g).nodes@[i] == old(g).nodes@[i],
            final(g).nodes@[idx as int].func == func,
            final(g).nodes@[idx as int].value == value,
            final(g).nodes@[idx as int].parents == parents,
            final(g).nodes@[idx as int].id == idx,
            final(g).nodes@[idx as int].parent_values@.len() == parents@.len(),
            forall|k: int|
                0 <= k < parents@.len() ==> (#[trigger] final(g).nodes@[idx as int].parent_values@[k])
                    == old(g).nodes@[parents@[k] as int].value,
    {
        let mut parent_values: Vec<V> = Vec::new();
        let mut k: usize = 0;
        while k < parents.len()
            invariant
                k <= parents@.len(),
                parent_values@.len() == k,
                forall|t: int|
                    0 <= t < parents@.len() ==> (#[trigger] parents@[t]) < g.node_count(),
                forall|t: int|
                    0 <= t < k ==> (#[trigger] parent_values@[t]) == g.nodes@[parents@[t] as int].value,
            decreases parents@.len() - k,
        {
            let p = parents[k];
            parent_values.push(g.nodes[p].value);
            k += 1;
        }
        let idx = g.nodes.len();
        let node = Node { func, value, parents, parent_values, id: idx };
        g.nodes.push(node);
        proof {
            assert forall|i: int| 0 <= i < g.nodes@.len() implies #[trigger] g.wf_at(i) by {
                if i < old(g).nodes@.len() {
                    assert(old(g).wf_at(i));
                    assert(g.nodes@[i] == old(g).nodes@[i]);
                }
            }
        }
        idx
    }

    /// A leaf node: a user-supplied constant with no parents and no
    /// operation.
    pub fn start(g: &mut Graph<V>, value: V) -> (idx: usize)
        requires
            old(g).wf(),
        ensures
            final(g).wf(),
            final(g).node_count() == old(g).node_count() + 1,
            idx == old(g).node_count(),
            forall|i: int|
                0 <= i < old(g).node_count() ==> #[trigger] final(g).nodes@[i] == old(g).nodes@[i],
            final(g).nodes@[idx as int].func is None,
            final(g).nodes@[idx as int].value == value,
            final(g).nodes@[idx as int].parents@.len() == 0,
            final(g).nodes@[idx as int].id == idx,
            final(g).is_leaf(idx as int),
    {
        Self::new(g, Vec::new(), value, None)
    }
}

impl<V: Scalar> Node<V> {
    /// The partials of this node's operation, evaluated at the parents'
    /// resolved values; `None` for a leaf. The returned vector has exactly
    /// one partial per parent.
    pub fn grad_value(&self) -> (r: Option<Vec<V>>)
        ensures
            match r {
                None => self.func is None,
                Some(gv) => {
                    &&& self.func is Some
                    &&& gv@ == V::grad_spec(self.op_kind(), self.parent_values@)
                    &&& gv@.len() == self.parent_values@.len()
                },
            },
    {
        match &self.func {
            None => None,
            Some(f) => {
                let gv = V::grad(&f.kind, &self.parent_values);
                proof {
                    V::grad_spec_arity(f.kind, self.parent_values@);
                }
                Some(gv)
            },
        }
    }
}

/// Arena indices of the node-typed inputs, in their original relative
/// order; pure-constant inputs are excluded.
pub open spec fn node_indices<V>(inputs: Seq<FnInput<V>>) -> Seq<usize>
    decreases inputs.len(),
{
    if inputs.len() == 0 {
        Seq::empty()
    } else {
        let front = node_indices(inputs.drop_last());
        match inputs.last() {
            FnInput::Node(i) => front.push(i),
            FnInput::Const(_) => front,
        }
    }
}

/// The numeric value each input contributes: constants pass through
/// unchanged, node inputs contribute their stored value.
pub open spec fn resolved_values<V>(g: Graph<V>, inputs: Seq<FnInput<V>>) -> Seq<V>
    decreases inputs.len(),
{
    if inputs.len() == 0 {
        Seq::empty()
    } else {
        let front = resolved_values(g, inputs.drop_last());
        match inputs.last() {
            FnInput::Node(i) => front.push(g.nodes@[i as int].value),
            FnInput::Const(c) => front.push(c),
        }
    }
}

/// All node-typed inputs refer to existing nodes.
pub open spec fn inputs_valid<V>(g: Graph<V>, inputs: Seq<FnInput<V>>) -> bool {
    forall|k: int|
        0 <= k < inputs.len() ==> ((#[trigger] inputs[k]) matches FnInput::Node(i) ==> i
            < g.node_count())
}

/// What applying operation `op` to `inputs` does to a graph: exactly one
/// node is appended; its parents are the node-typed inputs in order (with
/// constants excluded), and its value is the forward evaluator applied to
/// the resolved values of *all* inputs.
pub open spec fn applies<V: Scalar>(
    pre: Graph<V>,
    post: Graph<V>,
    kind: crate::basic_fn::FnKind,
    inputs: Seq<FnInput<V>>,
    idx: usize,
) -> bool {
    &&& post.wf()
    &&& post.node_count() == pre.node_count() + 1
    &&& idx == pre.node_count()
    &&& forall|i: int| 0 <= i < pre.node_count() ==> #[trigger] post.nodes@[i] == pre.nodes@[i]
    &&& post.nodes@[idx as int].func is Some
    &&& post.nodes@[idx as int].op_kind() == kind
    &&& post.nodes@[idx as int].parents@ == node_indices(inputs)
    &&& post.nodes@[idx as int].value == V::fwd_spec(kind, resolved_values(pre, inputs))
    &&& post.nodes@[idx as int].id == idx
}

impl BasicFn {
    /// The node-producing application of this operation: resolve every
    /// input's value, run the forward evaluator, and append a node whose
    /// parents are exactly the node-typed inputs, in their original order.
    /// Pure-constant inputs contribute to the value but are excluded from
    /// the parent list: there is nothing to differentiate with respect to.
    ///
    /// Applying an operation to constants alone (no node input) is a
    /// programming fault, excluded here by precondition, as is an input
    /// count that violates the operation's declared arity.
    pub fn to_gen_node_fn<V: Scalar>(&self, g: &mut Graph<V>, inputs: &Vec<FnInput<V>>) -> (idx:
        usize)
        requires
            old(g).wf(),
            self.kind.arity_ok(inputs@.len() as nat),
            inputs_valid(*old(g), inputs@),
            node_indices(inputs@).len() > 0,
        ensures
            applies(*old(g), *final(g), self.kind, inputs@, idx),
            final(g).nodes@[idx as int].func == Some(*self),
    {
        let mut parents: Vec<usize> = Vec::new();
        let mut resolved: Vec<V> = Vec::new();
        let mut k: usize = 0;
        while k < inputs.len()
            invariant
                k <= inputs@.len(),
                g == old(g),
                g.wf(),
                inputs_valid(*g, inputs@),
                parents@ == node_indices(inputs@.take(k as int)),
                resolved@ == resolved_values(*g, inputs@.take(k as int)),
            decreases inputs@.len() - k,
        {
            proof {
                assert(inputs@.take(k + 1 as int).drop_last() =~= inputs@.take(k as int));
                assert(inputs@.take(k + 1 as int).last() == inputs@[k as int]);
            }
            match inputs[k] {
                FnInput::Const(c) => {
                    resolved.push(c);
                },
                FnInput::Node(i) => {
                    parents.push(i);
                    resolved.push(g.nodes[i].value);
                },
            }
            k += 1;
        }
        proof {
            assert(inputs@.take(inputs@.len() as int) =~= inputs@);
            lemma_node_indices_bounded(*g, inputs@);
        }
        let value = V::fwd(&self.kind, &resolved);
        Node::new(g, parents, value, Some(*self))
    }
}

/// Every index that `node_indices` selects comes from a node-typed input,
/// so it refers to an existing node whenever the inputs are valid.
pub proof fn lemma_node_indices_bounded<V>(g: Graph<V>, inputs: Seq<FnInput<V>>)
    requires
        inputs_valid(g, inputs),
    ensures
        forall|t: int|
            0 <= t < node_indices(inputs).len() ==> (#[trigger] node_indices(inputs)[t])
                < g.node_count(),
    decreases inputs.len(),
{
    if inputs.len() > 0 {
        assert(inputs_valid(g, inputs.drop_last())) by {
            assert forall|k: int|
                0 <= k < inputs.drop_last().len() implies ((#[trigger] inputs.drop_last()[k]) matches FnInput::Node(
                i) ==> i < g.node_count()) by {
                assert(inputs.drop_last()[k] == inputs[k]);
            }
        }
        lemma_node_indices_bounded(g, inputs.drop_last());
        let front = node_indices(inputs.drop_last());
        match inputs.last() {
            FnInput::Node(i) => {
                assert(node_indices(inputs) == front.push(i));
                assert(inputs[inputs.len() - 1] matches FnInput::Node(n) ==> n < g.node_count());
                assert forall|t: int|
                    0 <= t < node_indices(inputs).len() implies (#[trigger] node_indices(
                    inputs,
                )[t]) < g.node_count() by {
                    if t < front.len() {
                        assert(node_indices(inputs)[t] == front[t]);
                    } else {
                        assert(node_indices(inputs)[t] == i);
                    }
                }
            },
            FnInput::Const(_) => {
                assert(node_indices(inputs) == front);
            },
        }
    }
}

/// Unfolds `node_indices` and `resolved_values` on a two-input sequence.
proof fn lemma_pair_inputs<V>(g: Graph<V>, a: FnInput<V>, b: FnInput<V>)
    ensures
        node_indices(seq![a, b]) == node_indices(seq![a]).add(node_indices(seq![b])),
        (a matches FnInput::Node(_) || b matches FnInput::Node(_)) ==> node_indices(
            seq![a, b],
        ).len() > 0,
        resolved_values(g, seq![a, b]) == seq![input_value(g, a), input_value(g, b)],
{
    reveal_with_fuel(node_indices, 4);
    reveal_with_fuel(resolved_values, 4);
    let s = seq![a, b];
    assert(s.drop_last() =~= seq![a]);
    assert(seq![a].drop_last() =~= Seq::<FnInput<V>>::empty());
    assert(seq![b].drop_last() =~= Seq::<FnInput<V>>::empty());
    assert(s.last() == b);
    assert(seq![a].last() == a);
    assert(seq![b].last() == b);
    match b {
        FnInput::Node(i) => {
            assert(node_indices(s) == node_indices(seq![a]).push(i));
            assert(node_indices(seq![b]) =~= seq![i]);
        },
        FnInput::Const(_) => {
            assert(node_indices(s) == node_indices(seq![a]));
            assert(node_indices(seq![b]) =~= Seq::<usize>::empty());
        },
    }
    assert(node_indices(s) =~= node_indices(seq![a]).add(node_indices(seq![b])));
    assert(resolved_values(g, s) =~= seq![input_value(g, a), input_value(g, b)]);
}

/// The value one input resolves to.
pub open spec fn input_value<V>(g: Graph<V>, a: FnInput<V>) -> V {
    match a {
        FnInput::Const(c) => c,
        FnInput::Node(i) => g.nodes@[i as int].value,
    }
}

impl<V: Scalar> Graph<V> {
    /// Valid operator operands: node inputs exist, and at least one operand
    /// is a node (an operation applied to constants alone is a fault).
    pub open spec fn operands_ok(self, a: FnInput<V>, b: FnInput<V>) -> bool {
        &&& (a matches FnInput::Node(i) ==> i < self.node_count())
        &&& (b matches FnInput::Node(i) ==> i < self.node_count())
        &&& (a matches FnInput::Node(_) || b matches FnInput::Node(_))
    }

    /// `a + b`, built from the `sum` operation.
    pub fn add(&mut self, a: FnInput<V>, b: FnInput<V>) -> (idx: usize)
        requires
            old(self).wf(),
            old(self).operands_ok(a, b),
        ensures
            applies(*old(self), *final(self), FnKind::Sum, seq![a, b], idx),
    {
        proof {
            lemma_pair_inputs(*self, a, b);
            assert(seq![a, b][0] == a && seq![a, b][1] == b);
        }
        let op = BasicFn::sum();
        op.to_gen_node_fn(self, &vec![a, b])
    }

    /// `a - b`, built from the `sub` operation.
    pub fn sub(&mut self, a: FnInput<V>, b: FnInput<V>) -> (idx: usize)
        requires
            old(self).wf(),
            old(self).operands_ok(a, b),
        ensures
            applies(*old(self), *final(self), FnKind::Sub, seq![a, b], idx),
    {
        proof {
            lemma_pair_inputs(*self, a, b);
            assert(seq![a, b][0] == a && seq![a, b][1] == b);
        }
        let op = BasicFn::sub();
        op.to_gen_node_fn(self, &vec![a, b])
    }

    /// `a * b`, built from the `product` operation.
    pub fn mul(&mut self, a: FnInput<V>, b: FnInput<V>) -> (idx: usize)
        requires
            old(self).wf(),
            old(self).operands_ok(a, b),
        ensures
            applies(*old(self), *final(self), FnKind::Product, seq![a, b], idx),
    {
        proof {
            lemma_pair_inputs(*self, a, b);
            assert(seq![a, b][0] == a && seq![a, b][1] == b);
        }
        let op = BasicFn::product();
        op.to_gen_node_fn(self, &vec![a, b])
    }

    /// `a / b`, built from the `div` operation.
    pub fn div(&mut self, a: FnInput<V>, b: FnInput<V>) -> (idx: usize)
        requires
            old(self).wf(),
            old(self).operands_ok(a, b),
        ensures
            applies(*old(self), *final(self), FnKind::Div, seq![a, b], idx),
    {
        proof {
            lemma_pair_inputs(*self, a, b);
            assert(seq![a, b][0] == a && seq![a, b][1] == b);
        }
        let op = BasicFn::div();
        op.to_gen_node_fn(self, &vec![a, b])
    }

    /// `-a`, built from the `neg` operation on one node.
    pub fn neg(&mut self, a: usize) -> (idx: usize)
        requires
            old(self).wf(),
            a < old(self).node_count(),
        ensures
            applies(*old(self), *final(self), FnKind::Neg, seq![FnInput::Node(a)], idx),
    {
        proof {
            reveal_with_fuel(node_indices, 3);
            reveal_with_fuel(resolved_values, 3);
            let s = seq![FnInput::<V>::Node(a)];
            assert(s.drop_last() =~= Seq::<FnInput<V>>::empty());
            assert(s.last() == FnInput::<V>::Node(a));
            assert(node_indices(s) =~= seq![a]);
            assert(s[0] == FnInput::<V>::Node(a));
        }
        let op = BasicFn::neg();
        op.to_gen_node_fn(self, &vec![FnInput::Node(a)])
    }
}

} // verus!
