use crate::backward::{
    all_leaves, backward_model, merge_many, merge_pair, run, sort_by_id, step, sweep,
};
use crate::node::{Graph, NodeGradPair};
use crate::scalar::Scalar;
use vstd::prelude::*;

verus! {

/// Idempotence of the backward pass: its report is a function of the graph
/// and the root alone, so invoking it twice on the same root (each time
/// with fresh queue state) yields identical results. The two premises are
/// exactly what `Node::auto_grad` ensures of its result.
pub proof fn lemma_auto_grad_deterministic<V: Scalar>(
    g: Graph<V>,
    root: usize,
    r1: Seq<NodeGradPair<V>>,
    r2: Seq<NodeGradPair<V>>,
)
    requires
        r1 == sort_by_id(backward_model(g, root)),
        r2 == sort_by_id(backward_model(g, root)),
    ensures
        r1 == r2,
{
}

/// An unbranched chain: node 0 is a leaf and each of nodes `1..=k` has the
/// node before it as its only parent.
pub open spec fn parent_chain<V>(g: Graph<V>, k: int) -> bool {
    &&& 0 <= k < g.node_count()
    &&& g.is_leaf(0)
    &&& forall|i: int| 1 <= i <= k ==> (#[trigger] g.nodes@[i].parents@) == seq![(i - 1) as usize]
}

/// The analytic gradient along a chain: the local partials of nodes
/// `k, k-1, ..., 1`, multiplied onto the seed from the root downward.
pub open spec fn chain_grad<V: Scalar>(g: Graph<V>, k: int, v: V) -> V
    decreases k,
{
    if k <= 0 {
        v
    } else {
        chain_grad(
            g,
            k - 1,
            V::mul_spec(
                V::grad_spec(g.nodes@[k].op_kind(), g.nodes@[k].parent_values@)[0],
                v,
            ),
        )
    }
}

proof fn lemma_chain_run<V: Scalar>(g: Graph<V>, k: usize, v: V, fuel: nat)
    requires
        g.wf(),
        parent_chain(g, k as int),
        fuel >= k,
    ensures
        run(g, seq![NodeGradPair { node_id: k, grad: v }], fuel) =~= seq![
            NodeGradPair { node_id: 0, grad: chain_grad(g, k as int, v) },
        ],
    decreases k,
{
    let q = seq![NodeGradPair { node_id: k, grad: v }];
    assert(q[0].node_id == k);
    if k == 0 {
        assert(all_leaves(g, q)) by {
            assert forall|i: int| 0 <= i < q.len() implies g.is_leaf(
                (#[trigger] q[i].node_id) as int,
            ) by {
                assert(q[i] == q[0]);
            }
        }
        assert(run(g, q, fuel) == q);
    } else {
        assert(g.wf_at(k as int));
        assert(g.nodes@[k as int].parents@ == seq![(k - 1) as usize]);
        assert(!g.is_leaf(k as int));
        assert(!all_leaves(g, q));
        let n = g.nodes@[k as int];
        let partials = V::grad_spec(n.op_kind(), n.parent_values@);
        let v2 = V::mul_spec(partials[0], v);
        let contribs = Seq::new(n.parents@.len(), |t: int| V::mul_spec(partials[t], q[0].grad));
        assert(contribs[0] == v2);
        let empty = Seq::<NodeGradPair<V>>::empty();
        assert(q.skip(1) =~= empty);
        assert(merge_many(empty, n.parents@, contribs, 0) == empty);
        assert(merge_many(empty, n.parents@, contribs, 1) == merge_pair(
            empty,
            (k - 1) as usize,
            v2,
        ));
        assert(merge_pair(empty, (k - 1) as usize, v2) =~= seq![
            NodeGradPair { node_id: (k - 1) as usize, grad: v2 },
        ]);
        assert(step(g, q) =~= seq![NodeGradPair { node_id: (k - 1) as usize, grad: v2 }]);
        assert(sweep(g, q, 1) == sweep(g, step(g, q), 0));
        assert(run(g, q, fuel) == run(g, sweep(g, q, q.len() as nat), (fuel - 1) as nat));
        assert(parent_chain(g, (k - 1) as int)) by {
            assert(g.nodes@[k as int].parents@[0] < k);
        }
        lemma_chain_run(g, (k - 1) as usize, v2, (fuel - 1) as nat);
        assert(chain_grad(g, k as int, v) == chain_grad(g, k - 1 as int, v2));
    }
}

/// The chain rule: over an unbranched chain the backward pass reports
/// exactly the leaf, with gradient equal to the product of all the local
/// partials along the chain, multiplied onto the seed gradient of one.
pub proof fn lemma_chain_rule<V: Scalar>(g: Graph<V>, k: usize)
    requires
        g.wf(),
        parent_chain(g, k as int),
    ensures
        backward_model(g, k) =~= seq![
            NodeGradPair { node_id: 0, grad: chain_grad(g, k as int, V::one_spec()) },
        ],
{
    lemma_chain_run(g, k, V::one_spec(), g.node_count());
}

/// Multi-path accumulation: when one leaf feeds the root through two
/// different intermediate nodes, the backward pass reports that leaf once,
/// with the *sum* of the two branch contributions — each branch being its
/// local partial times the contribution that flowed into it.
pub proof fn lemma_two_path_accumulation<V: Scalar>(
    g: Graph<V>,
    root: usize,
    m1: usize,
    m2: usize,
    leaf: usize,
)
    requires
        g.wf(),
        root < g.node_count(),
        g.nodes@[root as int].parents@ == seq![m1, m2],
        g.nodes@[m1 as int].parents@ == seq![leaf],
        g.nodes@[m2 as int].parents@ == seq![leaf],
        m1 != m2,
        g.is_leaf(leaf as int),
    ensures
        ({
            let proot = V::grad_spec(
                g.nodes@[root as int].op_kind(),
                g.nodes@[root as int].parent_values@,
            );
            let p1 = V::grad_spec(
                g.nodes@[m1 as int].op_kind(),
                g.nodes@[m1 as int].parent_values@,
            );
            let p2 = V::grad_spec(
                g.nodes@[m2 as int].op_kind(),
                g.nodes@[m2 as int].parent_values@,
            );
            let c1 = V::mul_spec(proot[0], V::one_spec());
            let c2 = V::mul_spec(proot[1], V::one_spec());
            backward_model(g, root) =~= seq![
                NodeGradPair {
                    node_id: leaf,
                    grad: V::add_spec(V::mul_spec(p1[0], c1), V::mul_spec(p2[0], c2)),
                },
            ]
        }),
{
    let q0 = seq![NodeGradPair { node_id: root, grad: V::one_spec() }];
    let nr = g.nodes@[root as int];
    let n1 = g.nodes@[m1 as int];
    let n2 = g.nodes@[m2 as int];
    let proot = V::grad_spec(nr.op_kind(), nr.parent_values@);
    let p1 = V::grad_spec(n1.op_kind(), n1.parent_values@);
    let p2 = V::grad_spec(n2.op_kind(), n2.parent_values@);
    let c1 = V::mul_spec(proot[0], V::one_spec());
    let c2 = V::mul_spec(proot[1], V::one_spec());
    let d1 = V::mul_spec(p1[0], c1);
    let d2 = V::mul_spec(p2[0], c2);
    let empty = Seq::<NodeGradPair<V>>::empty();
    assert(g.wf_at(root as int));
    assert(g.wf_at(m1 as int));
    assert(g.wf_at(m2 as int));
    assert(nr.parents@[0] == m1 && nr.parents@[1] == m2);
    assert(m1 < root && m2 < root);
    assert(n1.parents@[0] == leaf);
    assert(n2.parents@[0] == leaf);
    assert(leaf < m1 && leaf < m2);

    // Sweep 1: expand the root into its two parents.
    assert(q0[0].node_id == root);
    assert(!g.is_leaf(root as int));
    assert(!all_leaves(g, q0));
    let contribs0 = Seq::new(nr.parents@.len(), |k: int| V::mul_spec(proot[k], q0[0].grad));
    assert(contribs0[0] == c1 && contribs0[1] == c2);
    assert(q0.skip(1) =~= empty);
    let e1 = NodeGradPair { node_id: m1, grad: c1 };
    let e2 = NodeGradPair { node_id: m2, grad: c2 };
    assert(merge_many(empty, nr.parents@, contribs0, 0) == empty);
    assert(merge_many(empty, nr.parents@, contribs0, 1) == merge_pair(empty, m1, c1));
    assert(merge_pair(empty, m1, c1) =~= seq![e1]);
    assert(merge_many(empty, nr.parents@, contribs0, 2) == merge_pair(seq![e1], m2, c2));
    assert(seq![e1].skip(1) =~= empty);
    assert(merge_pair(seq![e1], m2, c2) =~= seq![e1].add(merge_pair(empty, m2, c2)));
    assert(merge_pair(seq![e1], m2, c2) =~= seq![e1, e2]);
    let q1 = seq![e1, e2];
    assert(step(g, q0) =~= q1);
    assert(sweep(g, q0, 1) == sweep(g, step(g, q0), 0));
    assert(sweep(g, q0, 1) =~= q1);
    assert(run(g, q0, g.node_count()) == run(g, q1, (g.node_count() - 1) as nat)) by {
        assert(sweep(g, q0, q0.len() as nat) =~= q1);
    }

    // Sweep 2, first pop: expand m1, appending the leaf's entry.
    assert(q1[0].node_id == m1);
    assert(!g.is_leaf(m1 as int));
    assert(!all_leaves(g, q1));
    let el1 = NodeGradPair { node_id: leaf, grad: d1 };
    let contribs1 = Seq::new(n1.parents@.len(), |k: int| V::mul_spec(p1[k], q1[0].grad));
    assert(contribs1[0] == d1);
    assert(q1.skip(1) =~= seq![e2]);
    assert(merge_many(seq![e2], n1.parents@, contribs1, 0) == seq![e2]);
    assert(merge_many(seq![e2], n1.parents@, contribs1, 1) == merge_pair(seq![e2], leaf, d1));
    assert(leaf != m2);
    assert(seq![e2].skip(1) =~= empty);
    assert(merge_pair(seq![e2], leaf, d1) =~= seq![e2].add(merge_pair(empty, leaf, d1)));
    assert(merge_pair(seq![e2], leaf, d1) =~= seq![e2, el1]);
    let q2 = seq![e2, el1];
    assert(step(g, q1) =~= q2);

    // Sweep 2, second pop: expand m2, merging into the leaf's entry.
    assert(q2[0].node_id == m2);
    let elsum = NodeGradPair { node_id: leaf, grad: V::add_spec(d1, d2) };
    let contribs2 = Seq::new(n2.parents@.len(), |k: int| V::mul_spec(p2[k], q2[0].grad));
    assert(contribs2[0] == d2);
    assert(q2.skip(1) =~= seq![el1]);
    assert(merge_many(seq![el1], n2.parents@, contribs2, 0) == seq![el1]);
    assert(merge_many(seq![el1], n2.parents@, contribs2, 1) == merge_pair(seq![el1], leaf, d2));
    assert(seq![el1][0].node_id == leaf);
    assert(merge_pair(seq![el1], leaf, d2) =~= seq![elsum].add(seq![el1].skip(1)));
    assert(seq![el1].skip(1) =~= empty);
    assert(merge_pair(seq![el1], leaf, d2) =~= seq![elsum]);
    let q3 = seq![elsum];
    assert(step(g, q2) =~= q3);

    assert(sweep(g, q1, 2) == sweep(g, step(g, q1), 1));
    assert(sweep(g, step(g, q1), 1) == sweep(g, step(g, step(g, q1)), 0));
    assert(sweep(g, q1, 2) =~= q3);
    assert(run(g, q1, (g.node_count() - 1) as nat) == run(
        g,
        q3,
        (g.node_count() - 2) as nat,
    )) by {
        assert(q1.len() == 2);
        assert(sweep(g, q1, q1.len() as nat) =~= q3);
        assert(root >= 3);
        assert(g.node_count() >= 4);
    }
    assert(all_leaves(g, q3)) by {
        assert forall|i: int| 0 <= i < q3.len() implies g.is_leaf(
            (#[trigger] q3[i].node_id) as int,
        ) by {
            assert(q3[i] == q3[0]);
        }
    }
    assert(run(g, q3, (g.node_count() - 2) as nat) == q3);
}

} // verus!
