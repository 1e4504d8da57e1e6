use crate::node::{Graph, Node, NodeGradPair};
use crate::scalar::Scalar;
use vstd::prelude::*;

verus! {

// ---------------------------------------------------------------------------
// Queue predicates
// ---------------------------------------------------------------------------
/// No two entries refer to the same node.
pub open spec fn ids_distinct<V>(q: Seq<NodeGradPair<V>>) -> bool {
    forall|i: int, j: int| 0 <= i < j < q.len() ==> q[i].node_id != q[j].node_id
}

/// Every entry refers to an existing node.
pub open spec fn q_valid<V>(g: Graph<V>, q: Seq<NodeGradPair<V>>) -> bool {
    forall|i: int| 0 <= i < q.len() ==> (#[trigger] q[i].node_id) < g.node_count()
}

/// Every entry refers to a leaf.
pub open spec fn all_leaves<V>(g: Graph<V>, q: Seq<NodeGradPair<V>>) -> bool {
    forall|i: int| 0 <= i < q.len() ==> g.is_leaf((#[trigger] q[i].node_id) as int)
}

/// Some entry refers to node `id`.
pub open spec fn contains_id<V>(q: Seq<NodeGradPair<V>>, id: usize) -> bool {
    exists|i: int| 0 <= i < q.len() && (#[trigger] q[i].node_id) == id
}

// ---------------------------------------------------------------------------
// Depth of a node: the longest chain of parent links below it. Parents
// always have smaller arena indices, which is what makes this (and the
// backward traversal) well founded.
// ---------------------------------------------------------------------------
pub open spec fn depth<V>(g: Graph<V>, i: int) -> nat
    decreases i, 2int, 0int,
{
    if 0 <= i < g.nodes@.len() && g.nodes@[i].parents@.len() > 0 {
        (1 + max_parent_depth(g, g.nodes@[i].parents@, g.nodes@[i].parents@.len() as int, i)) as nat
    } else {
        0
    }
}

/// The maximum depth among `ps[0..k]`, counting only parents below `bound`.
pub open spec fn max_parent_depth<V>(g: Graph<V>, ps: Seq<usize>, k: int, bound: int) -> nat
    decreases bound, 1int, k,
{
    if k <= 0 {
        0
    } else {
        let d = if 0 <= ps[k - 1] < bound {
            depth(g, ps[k - 1] as int)
        } else {
            0
        };
        let rest = max_parent_depth(g, ps, k - 1, bound);
        if d > rest {
            d
        } else {
            rest
        }
    }
}

proof fn lemma_max_parent_depth_ge<V>(g: Graph<V>, ps: Seq<usize>, k: int, bound: int, j: int)
    requires
        0 <= j < k,
        0 <= ps[j] < bound,
    ensures
        max_parent_depth(g, ps, k, bound) >= depth(g, ps[j] as int),
    decreases k,
{
    if j < k - 1 {
        lemma_max_parent_depth_ge(g, ps, k - 1, bound, j);
    }
}

/// In a well-formed graph, a parent is strictly shallower than its child.
pub proof fn lemma_parent_depth_lt<V>(g: Graph<V>, i: int, k: int)
    requires
        g.wf(),
        0 <= i < g.nodes@.len(),
        0 <= k < g.nodes@[i].parents@.len(),
    ensures
        depth(g, g.nodes@[i].parents@[k] as int) < depth(g, i),
{
    assert(g.wf_at(i));
    lemma_max_parent_depth_ge(g, g.nodes@[i].parents@, g.nodes@[i].parents@.len() as int, i, k);
}

proof fn lemma_max_parent_depth_le<V>(g: Graph<V>, ps: Seq<usize>, k: int, bound: int)
    requires
        g.wf(),
        0 <= bound <= g.nodes@.len(),
    ensures
        bound >= 1 ==> max_parent_depth(g, ps, k, bound) <= bound - 1,
        bound == 0 ==> max_parent_depth(g, ps, k, bound) == 0,
    decreases bound, 1int, k,
{
    if k > 0 {
        lemma_max_parent_depth_le(g, ps, k - 1, bound);
        if 0 <= ps[k - 1] < bound {
            lemma_depth_le_index(g, ps[k - 1] as int);
        }
    }
}

/// Depth never exceeds the arena index.
pub proof fn lemma_depth_le_index<V>(g: Graph<V>, i: int)
    requires
        g.wf(),
        0 <= i < g.nodes@.len(),
    ensures
        depth(g, i) <= i,
    decreases i, 2int, 0int,
{
    assert(g.wf_at(i));
    if g.nodes@[i].parents@.len() > 0 {
        assert(g.nodes@[i].parents@[0] < i);
        assert(i >= 1);
        lemma_max_parent_depth_le(g, g.nodes@[i].parents@, g.nodes@[i].parents@.len() as int, i);
    }
}

// ---------------------------------------------------------------------------
// The largest depth among queue entries: the outer traversal measure.
// ---------------------------------------------------------------------------
pub open spec fn q_max_depth<V>(g: Graph<V>, q: Seq<NodeGradPair<V>>) -> nat
    decreases q.len(),
{
    if q.len() == 0 {
        0
    } else {
        let rest = q_max_depth(g, q.drop_last());
        let d = depth(g, q.last().node_id as int);
        if d > rest {
            d
        } else {
            rest
        }
    }
}

proof fn lemma_q_max_depth_ge<V>(g: Graph<V>, q: Seq<NodeGradPair<V>>, t: int)
    requires
        0 <= t < q.len(),
    ensures
        depth(g, q[t].node_id as int) <= q_max_depth(g, q),
    decreases q.len(),
{
    if t < q.len() - 1 {
        lemma_q_max_depth_ge(g, q.drop_last(), t);
        assert(q.drop_last()[t] == q[t]);
    }
}

proof fn lemma_q_max_depth_le<V>(g: Graph<V>, q: Seq<NodeGradPair<V>>, m: nat)
    requires
        forall|t: int| 0 <= t < q.len() ==> depth(g, (#[trigger] q[t]).node_id as int) <= m,
    ensures
        q_max_depth(g, q) <= m,
    decreases q.len(),
{
    if q.len() > 0 {
        assert forall|t: int|
            0 <= t < q.drop_last().len() implies depth(
            g,
            (#[trigger] q.drop_last()[t]).node_id as int,
        ) <= m by {
            assert(q.drop_last()[t] == q[t]);
        }
        lemma_q_max_depth_le(g, q.drop_last(), m);
        assert(q.last() == q[q.len() - 1]);
    }
}

// ---------------------------------------------------------------------------
// Merging one gradient contribution into the queue
// ---------------------------------------------------------------------------
/// Merge one (node, contribution) pair into the queue: the first entry with
/// the same identity accumulates the contribution in place; if there is
/// none, the pair is appended at the back.
pub open spec fn merge_pair<V: Scalar>(q: Seq<NodeGradPair<V>>, id: usize, v: V) -> Seq<
    NodeGradPair<V>,
>
    decreases q.len(),
{
    if q.len() == 0 {
        seq![NodeGradPair { node_id: id, grad: v }]
    } else if q[0].node_id == id {
        seq![NodeGradPair { node_id: id, grad: V::add_spec(q[0].grad, v) }].add(q.skip(1))
    } else {
        seq![q[0]].add(merge_pair(q.skip(1), id, v))
    }
}

proof fn lemma_merge_pair_props<V: Scalar>(q: Seq<NodeGradPair<V>>, id: usize, v: V)
    ensures
        q.len() <= merge_pair(q, id, v).len() <= q.len() + 1,
        forall|t: int|
            0 <= t < q.len() ==> (#[trigger] merge_pair(q, id, v)[t]).node_id == q[t].node_id,
        forall|t: int|
            q.len() <= t < merge_pair(q, id, v).len() ==> (#[trigger] merge_pair(q, id, v)[t]).node_id
                == id,
        forall|x: usize|
            #![trigger contains_id(merge_pair(q, id, v), x)]
            contains_id(merge_pair(q, id, v), x) <==> (contains_id(q, x) || x == id),
        ids_distinct(q) ==> ids_distinct(merge_pair(q, id, v)),
    decreases q.len(),
{
    let r = merge_pair(q, id, v);
    if q.len() == 0 {
        assert(r[0].node_id == id);
        assert forall|x: usize| contains_id(r, x) <==> (contains_id(q, x) || x == id) by {
            if x == id {
                assert(r[0].node_id == id);
            }
        }
    } else if q[0].node_id == id {
        assert forall|t: int|
            0 <= t < q.len() implies (#[trigger] r[t]).node_id == q[t].node_id by {
            if t > 0 {
                assert(r[t] == q.skip(1)[t - 1]);
            }
        }
        assert forall|x: usize| contains_id(r, x) <==> (contains_id(q, x) || x == id) by {
            if contains_id(q, x) {
                let i = choose|i: int| 0 <= i < q.len() && q[i].node_id == x;
                assert(r[i].node_id == x);
            }
            if contains_id(r, x) {
                let i = choose|i: int| 0 <= i < r.len() && r[i].node_id == x;
                assert(q[i].node_id == x);
            }
            if x == id {
                assert(r[0].node_id == x);
            }
        }
    } else {
        lemma_merge_pair_props(q.skip(1), id, v);
        let rr = merge_pair(q.skip(1), id, v);
        assert forall|t: int|
            0 <= t < q.len() implies (#[trigger] r[t]).node_id == q[t].node_id by {
            if t > 0 {
                assert(r[t] == rr[t - 1]);
                assert(q.skip(1)[t - 1] == q[t]);
            }
        }
        assert forall|t: int|
            q.len() <= t < r.len() implies (#[trigger] r[t]).node_id == id by {
            assert(r[t] == rr[t - 1]);
        }
        assert forall|x: usize| contains_id(r, x) <==> (contains_id(q, x) || x == id) by {
            if contains_id(q, x) {
                let i = choose|i: int| 0 <= i < q.len() && q[i].node_id == x;
                assert(r[i].node_id == x);
            }
            if x == id {
                assert(contains_id(rr, x));
                let i = choose|i: int| 0 <= i < rr.len() && (#[trigger] rr[i].node_id) == x;
                assert(r[i + 1].node_id == x);
            }
            if contains_id(r, x) {
                let i = choose|i: int| 0 <= i < r.len() && r[i].node_id == x;
                if i == 0 {
                    assert(q[0].node_id == x);
                } else {
                    assert(rr[i - 1].node_id == x);
                    if contains_id(q.skip(1), x) {
                        let s = choose|s: int| 0 <= s < q.skip(1).len() && q.skip(1)[s].node_id
                            == x;
                        assert(q[s + 1].node_id == x);
                    }
                }
            }
        }
        if ids_distinct(q) {
            assert forall|i: int, j: int|
                0 <= i < j < r.len() implies r[i].node_id != r[j].node_id by {
                if i == 0 {
                    assert(r[0].node_id == q[0].node_id);
                    assert(r[j] == rr[j - 1]);
                    if j - 1 < q.skip(1).len() {
                        assert(rr[j - 1].node_id == q.skip(1)[j - 1].node_id);
                        assert(q.skip(1)[j - 1] == q[j]);
                    } else {
                        assert(rr[j - 1].node_id == id);
                    }
                } else {
                    assert(ids_distinct(q.skip(1))) by {
                        assert forall|a: int, b: int|
                            0 <= a < b < q.skip(1).len() implies q.skip(1)[a].node_id != q.skip(
                            1,
                        )[b].node_id by {
                            assert(q.skip(1)[a] == q[a + 1]);
                            assert(q.skip(1)[b] == q[b + 1]);
                        }
                    }
                    assert(r[i] == rr[i - 1]);
                    assert(r[j] == rr[j - 1]);
                }
            }
        }
    }
}

/// When an entry for `id` sits at position `j` (and nowhere earlier),
/// merging updates exactly that entry.
proof fn lemma_merge_pair_found<V: Scalar>(q: Seq<NodeGradPair<V>>, id: usize, v: V, j: int)
    requires
        0 <= j < q.len(),
        q[j].node_id == id,
        forall|t: int| 0 <= t < j ==> q[t].node_id != id,
    ensures
        merge_pair(q, id, v) =~= q.update(
            j,
            NodeGradPair { node_id: id, grad: V::add_spec(q[j].grad, v) },
        ),
    decreases j,
{
    if j == 0 {
        assert(merge_pair(q, id, v) =~= q.update(
            0,
            NodeGradPair { node_id: id, grad: V::add_spec(q[0].grad, v) },
        ));
    } else {
        assert(q.skip(1)[j - 1] == q[j]);
        assert forall|t: int| 0 <= t < j - 1 implies q.skip(1)[t].node_id != id by {
            assert(q.skip(1)[t] == q[t + 1]);
        }
        lemma_merge_pair_found(q.skip(1), id, v, j - 1);
    }
}

/// When no entry for `id` exists, merging appends the pair at the back.
proof fn lemma_merge_pair_absent<V: Scalar>(q: Seq<NodeGradPair<V>>, id: usize, v: V)
    requires
        forall|t: int| 0 <= t < q.len() ==> q[t].node_id != id,
    ensures
        merge_pair(q, id, v) =~= q.push(NodeGradPair { node_id: id, grad: v }),
    decreases q.len(),
{
    if q.len() > 0 {
        assert forall|t: int| 0 <= t < q.skip(1).len() implies q.skip(1)[t].node_id != id by {
            assert(q.skip(1)[t] == q[t + 1]);
        }
        lemma_merge_pair_absent(q.skip(1), id, v);
    }
}

// ---------------------------------------------------------------------------
// Merging all of one node's contributions, in parent order
// ---------------------------------------------------------------------------
pub open spec fn merge_many<V: Scalar>(
    q: Seq<NodeGradPair<V>>,
    ids: Seq<usize>,
    vs: Seq<V>,
    k: int,
) -> Seq<NodeGradPair<V>>
    decreases k,
{
    if k <= 0 {
        q
    } else {
        merge_pair(merge_many(q, ids, vs, k - 1), ids[k - 1], vs[k - 1])
    }
}

proof fn lemma_merge_many_props<V: Scalar>(q: Seq<NodeGradPair<V>>, ids: Seq<usize>, vs: Seq<V>, k: int)
    requires
        0 <= k,
    ensures
        q.len() <= merge_many(q, ids, vs, k).len(),
        k >= 1 ==> merge_many(q, ids, vs, k).len() >= 1,
        forall|t: int|
            0 <= t < q.len() ==> (#[trigger] merge_many(q, ids, vs, k)[t]).node_id == q[t].node_id,
        forall|t: int|
            q.len() <= t < merge_many(q, ids, vs, k).len() ==> exists|s: int|
                0 <= s < k && (#[trigger] merge_many(q, ids, vs, k)[t]).node_id == ids[s],
        forall|x: usize|
            #![trigger contains_id(merge_many(q, ids, vs, k), x)]
            contains_id(merge_many(q, ids, vs, k), x) <==> (contains_id(q, x) || exists|s: int|
                0 <= s < k && (#[trigger] ids[s]) == x),
        ids_distinct(q) ==> ids_distinct(merge_many(q, ids, vs, k)),
    decreases k,
{
    if k > 0 {
        lemma_merge_many_props(q, ids, vs, k - 1);
        let prev = merge_many(q, ids, vs, k - 1);
        lemma_merge_pair_props(prev, ids[k - 1], vs[k - 1]);
        let r = merge_many(q, ids, vs, k);
        assert forall|t: int|
            q.len() <= t < r.len() implies exists|s: int|
                0 <= s < k && (#[trigger] r[t]).node_id == ids[s] by {
            if t < prev.len() {
                assert(r[t].node_id == prev[t].node_id);
                let s = choose|s: int| 0 <= s < k - 1 && prev[t].node_id == ids[s];
                assert(0 <= s < k && r[t].node_id == ids[s]);
            } else {
                assert(r[t].node_id == ids[k - 1]);
            }
        }
        assert forall|x: usize|
            contains_id(r, x) <==> (contains_id(q, x) || exists|s: int|
                0 <= s < k && ids[s] == x) by {
            if contains_id(r, x) {
                if !contains_id(q, x) {
                    if contains_id(prev, x) {
                        let s = choose|s: int| 0 <= s < k - 1 && ids[s] == x;
                        assert(0 <= s < k && ids[s] == x);
                    } else {
                        assert(x == ids[k - 1]);
                    }
                }
            }
            if contains_id(q, x) {
                assert(contains_id(prev, x));
            }
            if exists|s: int| 0 <= s < k && ids[s] == x {
                let s = choose|s: int| 0 <= s < k && ids[s] == x;
                if s < k - 1 {
                    assert(contains_id(prev, x));
                }
            }
        }
    }
}

// ---------------------------------------------------------------------------
// One step of the backward sweep
// ---------------------------------------------------------------------------
/// Pop the front entry. A leaf is parked at the back unchanged. For an
/// internal node, evaluate its local partials at the parents' values,
/// multiply each by the entry's incoming gradient, and merge the
/// (parent, contribution) pairs into the queue in parent order.
pub open spec fn step<V: Scalar>(g: Graph<V>, q: Seq<NodeGradPair<V>>) -> Seq<NodeGradPair<V>> {
    if q.len() == 0 {
        q
    } else {
        let e = q[0];
        let rest = q.skip(1);
        let n = g.nodes@[e.node_id as int];
        if n.parents@.len() == 0 {
            rest.push(e)
        } else {
            let partials = V::grad_spec(n.op_kind(), n.parent_values@);
            let contribs = Seq::new(
                n.parents@.len(),
                |k: int| V::mul_spec(partials[k], e.grad),
            );
            merge_many(rest, n.parents@, contribs, n.parents@.len() as int)
        }
    }
}

proof fn lemma_step_props<V: Scalar>(g: Graph<V>, q: Seq<NodeGradPair<V>>)
    requires
        g.wf(),
        q.len() >= 1,
        q_valid(g, q),
        ids_distinct(q),
    ensures
        step(g, q).len() >= q.len() - 1,
        step(g, q).len() >= 1,
        q_valid(g, step(g, q)),
        ids_distinct(step(g, q)),
        forall|t: int|
            0 <= t < q.len() - 1 ==> (#[trigger] step(g, q)[t]).node_id == q[t + 1].node_id,
        forall|t: int|
            q.len() - 1 <= t < step(g, q).len() ==> (g.is_leaf(
                (#[trigger] step(g, q)[t]).node_id as int,
            ) || depth(g, step(g, q)[t].node_id as int) < depth(g, q[0].node_id as int)),
{
    let e = q[0];
    let rest = q.skip(1);
    let n = g.nodes@[e.node_id as int];
    assert(g.wf_at(e.node_id as int));
    assert forall|t: int| 0 <= t < rest.len() implies rest[t] == q[t + 1] by {}
    assert(ids_distinct(rest)) by {
        assert forall|a: int, b: int|
            0 <= a < b < rest.len() implies rest[a].node_id != rest[b].node_id by {
            assert(rest[a] == q[a + 1]);
            assert(rest[b] == q[b + 1]);
        }
    }
    let r = step(g, q);
    if n.parents@.len() == 0 {
        assert(r == rest.push(e));
        assert forall|a: int, b: int|
            0 <= a < b < r.len() implies r[a].node_id != r[b].node_id by {
            if b == r.len() - 1 {
                assert(r[b] == e);
                assert(r[a] == q[a + 1]);
            }
        }
        assert(g.is_leaf(e.node_id as int));
    } else {
        let partials = V::grad_spec(n.op_kind(), n.parent_values@);
        let contribs = Seq::new(n.parents@.len(), |k: int| V::mul_spec(partials[k], e.grad));
        lemma_merge_many_props(rest, n.parents@, contribs, n.parents@.len() as int);
        assert forall|t: int|
            q.len() - 1 <= t < r.len() implies (g.is_leaf((#[trigger] r[t]).node_id as int)
                || depth(g, r[t].node_id as int) < depth(g, q[0].node_id as int)) by {
            let s = choose|s: int| 0 <= s < n.parents@.len() && r[t].node_id == n.parents@[s];
            lemma_parent_depth_lt(g, e.node_id as int, s);
        }
        assert forall|t: int|
            0 <= t < r.len() implies (#[trigger] r[t]).node_id < g.node_count() by {
            if t >= rest.len() {
                let s = choose|s: int| 0 <= s < n.parents@.len() && r[t].node_id == n.parents@[s];
                assert(n.parents@[s] < e.node_id);
            }
        }
    }
}

// ---------------------------------------------------------------------------
// A sweep processes a fixed number of entries; a run sweeps until only
// leaves remain.
// ---------------------------------------------------------------------------
pub open spec fn sweep<V: Scalar>(g: Graph<V>, q: Seq<NodeGradPair<V>>, k: nat) -> Seq<
    NodeGradPair<V>,
>
    decreases k,
{
    if k == 0 {
        q
    } else {
        sweep(g, step(g, q), (k - 1) as nat)
    }
}

proof fn lemma_sweep_snoc<V: Scalar>(g: Graph<V>, q: Seq<NodeGradPair<V>>, k: nat)
    ensures
        sweep(g, q, k + 1) == step(g, sweep(g, q, k)),
    decreases k,
{
    if k == 0 {
        assert(sweep(g, q, 1) == sweep(g, step(g, q), 0));
    } else {
        lemma_sweep_snoc(g, step(g, q), (k - 1) as nat);
        assert(sweep(g, q, k + 1) == sweep(g, step(g, q), k));
        assert(sweep(g, q, k) == sweep(g, step(g, q), (k - 1) as nat));
    }
}

proof fn lemma_sweep_props<V: Scalar>(g: Graph<V>, q: Seq<NodeGradPair<V>>, k: nat, d: nat)
    requires
        g.wf(),
        q_valid(g, q),
        ids_distinct(q),
        k <= q.len(),
        forall|t: int| 0 <= t < q.len() ==> depth(g, (#[trigger] q[t]).node_id as int) <= d,
    ensures
        sweep(g, q, k).len() >= q.len() - k,
        q.len() >= 1 ==> sweep(g, q, k).len() >= 1,
        q_valid(g, sweep(g, q, k)),
        ids_distinct(sweep(g, q, k)),
        forall|t: int|
            0 <= t < q.len() - k ==> (#[trigger] sweep(g, q, k)[t]).node_id == q[t + k].node_id,
        forall|t: int|
            q.len() - k <= t < sweep(g, q, k).len() ==> (g.is_leaf(
                (#[trigger] sweep(g, q, k)[t]).node_id as int,
            ) || depth(g, sweep(g, q, k)[t].node_id as int) < d),
        forall|t: int|
            0 <= t < sweep(g, q, k).len() ==> depth(
                g,
                (#[trigger] sweep(g, q, k)[t]).node_id as int,
            ) <= d,
    decreases k,
{
    if k > 0 {
        lemma_step_props(g, q);
        let q1 = step(g, q);
        assert forall|t: int|
            0 <= t < q1.len() implies depth(g, (#[trigger] q1[t]).node_id as int) <= d by {
            if t < q.len() - 1 {
                assert(q1[t].node_id == q[t + 1].node_id);
            } else {
                assert(g.is_leaf(q1[t].node_id as int) || depth(g, q1[t].node_id as int) < depth(
                    g,
                    q[0].node_id as int,
                ));
            }
        }
        lemma_sweep_props(g, q1, (k - 1) as nat, d);
        let r = sweep(g, q, k);
        assert(r == sweep(g, q1, (k - 1) as nat));
        assert forall|t: int|
            0 <= t < q.len() - k implies (#[trigger] r[t]).node_id == q[t + k].node_id by {
            assert(r[t].node_id == q1[t + k - 1].node_id);
            assert(q1[t + k - 1].node_id == q[t + k].node_id);
        }
        assert forall|t: int|
            q.len() - k <= t < r.len() implies (g.is_leaf((#[trigger] r[t]).node_id as int)
                || depth(g, r[t].node_id as int) < d) by {
            if t < q1.len() - (k - 1) {
                assert(r[t].node_id == q1[t + k - 1].node_id);
                assert(t + k - 1 >= q.len() - 1);
                assert(g.is_leaf(q1[t + k - 1].node_id as int) || depth(
                    g,
                    q1[t + k - 1].node_id as int,
                ) < depth(g, q[0].node_id as int));
                assert(depth(g, q[0].node_id as int) <= d);
            }
        }
    }
}

/// A full sweep over a queue that still holds a non-leaf strictly lowers
/// the queue's maximum depth: the backward pass terminates.
proof fn lemma_sweep_decreases<V: Scalar>(g: Graph<V>, q: Seq<NodeGradPair<V>>)
    requires
        g.wf(),
        q_valid(g, q),
        ids_distinct(q),
        q.len() >= 1,
        !all_leaves(g, q),
    ensures
        q_max_depth(g, q) >= 1,
        q_max_depth(g, sweep(g, q, q.len() as nat)) < q_max_depth(g, q),
        sweep(g, q, q.len() as nat).len() >= 1,
        q_valid(g, sweep(g, q, q.len() as nat)),
        ids_distinct(sweep(g, q, q.len() as nat)),
{
    let d = q_max_depth(g, q);
    assert forall|t: int|
        0 <= t < q.len() implies depth(g, (#[trigger] q[t]).node_id as int) <= d by {
        lemma_q_max_depth_ge(g, q, t);
    }
    let w = choose|t: int| 0 <= t < q.len() && !g.is_leaf(q[t].node_id as int);
    assert(depth(g, q[w].node_id as int) >= 1);
    lemma_q_max_depth_ge(g, q, w);
    lemma_sweep_props(g, q, q.len() as nat, d);
    let r = sweep(g, q, q.len() as nat);
    assert forall|t: int|
        0 <= t < r.len() implies depth(g, (#[trigger] r[t]).node_id as int) <= (d - 1) as nat by {
        assert(g.is_leaf(r[t].node_id as int) || depth(g, r[t].node_id as int) < d);
    }
    lemma_q_max_depth_le(g, r, (d - 1) as nat);
}

pub open spec fn run<V: Scalar>(g: Graph<V>, q: Seq<NodeGradPair<V>>, fuel: nat) -> Seq<
    NodeGradPair<V>,
>
    decreases fuel,
{
    if all_leaves(g, q) || fuel == 0 {
        q
    } else {
        run(g, sweep(g, q, q.len() as nat), (fuel - 1) as nat)
    }
}

/// The queue contents when the backward pass over `g` seeded at `root`
/// finishes: the seed entry carries gradient one, and sweeps repeat until
/// only leaves remain (the arena size over-approximates the sweeps needed).
pub open spec fn backward_model<V: Scalar>(g: Graph<V>, root: usize) -> Seq<NodeGradPair<V>> {
    run(g, seq![NodeGradPair { node_id: root, grad: V::one_spec() }], g.node_count())
}

// ---------------------------------------------------------------------------
// Reachability: which nodes the traversal can discover from the root
// ---------------------------------------------------------------------------
/// Node `to` is reachable from `from` by following parent links (every node
/// reaches itself).
pub open spec fn reaches<V>(g: Graph<V>, from: int, to: int) -> bool
    decreases from,
{
    from == to || (0 <= from < g.nodes@.len() && exists|k: int|
        0 <= k < g.nodes@[from].parents@.len() && (#[trigger] g.nodes@[from].parents@[k]) < from
            && reaches(g, g.nodes@[from].parents@[k] as int, to))
}

/// Some queue entry reaches `to`.
pub open spec fn q_reaches<V>(g: Graph<V>, q: Seq<NodeGradPair<V>>, to: int) -> bool {
    exists|i: int| 0 <= i < q.len() && reaches(g, (#[trigger] q[i]).node_id as int, to)
}

/// From a leaf, only the leaf itself is reachable.
proof fn lemma_reaches_from_leaf<V>(g: Graph<V>, from: int, to: int)
    requires
        0 <= from < g.nodes@.len() ==> g.is_leaf(from),
    ensures
        reaches(g, from, to) ==> from == to,
{
}

/// An internal node reaches a distinct target iff one of its parents does.
proof fn lemma_reaches_unfold<V>(g: Graph<V>, from: int, to: int)
    requires
        g.wf(),
        0 <= from < g.nodes@.len(),
        !g.is_leaf(from),
        from != to,
    ensures
        reaches(g, from, to) <==> exists|k: int|
            0 <= k < g.nodes@[from].parents@.len() && reaches(
                g,
                (#[trigger] g.nodes@[from].parents@[k]) as int,
                to,
            ),
{
    assert(g.wf_at(from));
    if reaches(g, from, to) {
        let k = choose|k: int|
            0 <= k < g.nodes@[from].parents@.len() && (#[trigger] g.nodes@[from].parents@[k])
                < from && reaches(g, g.nodes@[from].parents@[k] as int, to);
        assert(reaches(g, g.nodes@[from].parents@[k] as int, to));
    }
    if exists|k: int|
        0 <= k < g.nodes@[from].parents@.len() && reaches(
            g,
            (#[trigger] g.nodes@[from].parents@[k]) as int,
            to,
        ) {
        let k = choose|k: int|
            0 <= k < g.nodes@[from].parents@.len() && reaches(
                g,
                (#[trigger] g.nodes@[from].parents@[k]) as int,
                to,
            );
        assert(g.nodes@[from].parents@[k] < from);
        assert(reaches(g, from, to));
    }
}

/// One step neither discovers unreachable leaves nor loses reachable ones.
proof fn lemma_step_reaches<V: Scalar>(g: Graph<V>, q: Seq<NodeGradPair<V>>, to: int)
    requires
        g.wf(),
        q.len() >= 1,
        q_valid(g, q),
        0 <= to < g.nodes@.len(),
        g.is_leaf(to),
    ensures
        q_reaches(g, step(g, q), to) <==> q_reaches(g, q, to),
{
    let e = q[0];
    let rest = q.skip(1);
    let n = g.nodes@[e.node_id as int];
    let r = step(g, q);
    assert forall|t: int| 0 <= t < rest.len() implies rest[t] == q[t + 1] by {}
    if n.parents@.len() == 0 {
        assert(r == rest.push(e));
        if q_reaches(g, q, to) {
            let i = choose|i: int| 0 <= i < q.len() && reaches(g, (#[trigger] q[i]).node_id as int, to);
            if i == 0 {
                assert(r[r.len() - 1] == e);
                assert(q_reaches(g, r, to));
            } else {
                assert(r[i - 1] == q[i]);
                assert(q_reaches(g, r, to));
            }
        }
        if q_reaches(g, r, to) {
            let i = choose|i: int| 0 <= i < r.len() && reaches(g, (#[trigger] r[i]).node_id as int, to);
            if i == r.len() - 1 {
                assert(r[i] == e);
                assert(reaches(g, q[0].node_id as int, to));
                assert(q_reaches(g, q, to));
            } else {
                assert(r[i] == q[i + 1]);
                assert(q_reaches(g, q, to));
            }
        }
    } else {
        let partials = V::grad_spec(n.op_kind(), n.parent_values@);
        let contribs = Seq::new(n.parents@.len(), |k: int| V::mul_spec(partials[k], e.grad));
        lemma_merge_many_props(rest, n.parents@, contribs, n.parents@.len() as int);
        assert(!g.is_leaf(e.node_id as int));
        lemma_reaches_unfold(g, e.node_id as int, to);
        if q_reaches(g, q, to) {
            let i = choose|i: int| 0 <= i < q.len() && reaches(g, (#[trigger] q[i]).node_id as int, to);
            if i == 0 {
                // e reaches to, and to != e.node_id since to is a leaf and e is not
                let k = choose|k: int|
                    0 <= k < n.parents@.len() && reaches(g, (#[trigger] n.parents@[k]) as int, to);
                assert(contains_id(r, n.parents@[k])) by {
                    assert(contains_id(rest, n.parents@[k]) || exists|s: int|
                        0 <= s < n.parents@.len() && (#[trigger] n.parents@[s]) == n.parents@[k]);
                }
                let w = choose|w: int| 0 <= w < r.len() && (#[trigger] r[w].node_id) == n.parents@[k];
                assert(reaches(g, r[w].node_id as int, to));
                assert(q_reaches(g, r, to));
            } else {
                assert(rest[i - 1] == q[i]);
                assert(r[i - 1].node_id == rest[i - 1].node_id);
                assert(reaches(g, r[i - 1].node_id as int, to));
                assert(q_reaches(g, r, to));
            }
        }
        if q_reaches(g, r, to) {
            let i = choose|i: int| 0 <= i < r.len() && reaches(g, (#[trigger] r[i]).node_id as int, to);
            if i < rest.len() {
                assert(r[i].node_id == rest[i].node_id);
                assert(rest[i] == q[i + 1]);
                assert(reaches(g, q[i + 1].node_id as int, to));
                assert(q_reaches(g, q, to));
            } else {
                let s = choose|s: int|
                    0 <= s < n.parents@.len() && (#[trigger] r[i].node_id) == n.parents@[s];
                assert(reaches(g, n.parents@[s] as int, to));
                assert(reaches(g, q[0].node_id as int, to));
                assert(q_reaches(g, q, to));
            }
        }
    }
}

proof fn lemma_sweep_reaches<V: Scalar>(g: Graph<V>, q: Seq<NodeGradPair<V>>, k: nat, to: int)
    requires
        g.wf(),
        q_valid(g, q),
        ids_distinct(q),
        k <= q.len(),
        0 <= to < g.nodes@.len(),
        g.is_leaf(to),
    ensures
        q_reaches(g, sweep(g, q, k), to) <==> q_reaches(g, q, to),
    decreases k,
{
    if k > 0 {
        lemma_step_props(g, q);
        lemma_step_reaches(g, q, to);
        lemma_sweep_reaches(g, step(g, q), (k - 1) as nat, to);
    }
}

/// With enough fuel the run ends with only leaves in the queue, having
/// neither discovered unreachable leaves nor lost reachable ones.
proof fn lemma_run_props<V: Scalar>(g: Graph<V>, q: Seq<NodeGradPair<V>>, fuel: nat, to: int)
    requires
        g.wf(),
        q_valid(g, q),
        ids_distinct(q),
        q.len() >= 1,
        fuel >= q_max_depth(g, q),
        0 <= to < g.nodes@.len(),
        g.is_leaf(to),
    ensures
        all_leaves(g, run(g, q, fuel)),
        q_valid(g, run(g, q, fuel)),
        ids_distinct(run(g, q, fuel)),
        run(g, q, fuel).len() >= 1,
        q_reaches(g, run(g, q, fuel), to) <==> q_reaches(g, q, to),
    decreases fuel,
{
    if all_leaves(g, q) {
    } else {
        lemma_sweep_decreases(g, q);
        lemma_sweep_reaches(g, q, q.len() as nat, to);
        let q1 = sweep(g, q, q.len() as nat);
        lemma_run_props(g, q1, (fuel - 1) as nat, to);
    }
}

/// The backward pass reports exactly the leaves reachable from the root:
/// a node appears in the gradient report iff it is a leaf of the graph
/// that the root reaches through parent links.
pub proof fn lemma_backward_model_reaches<V: Scalar>(g: Graph<V>, root: usize, x: usize)
    requires
        g.wf(),
        root < g.node_count(),
    ensures
        contains_id(backward_model(g, root), x) <==> (x < g.node_count() && g.is_leaf(x as int)
            && reaches(g, root as int, x as int)),
{
    let q0 = seq![NodeGradPair { node_id: root, grad: V::one_spec() }];
    let m = backward_model(g, root);
    assert(q0.drop_last() =~= Seq::<NodeGradPair<V>>::empty());
    assert(q_max_depth(g, Seq::<NodeGradPair<V>>::empty()) == 0);
    assert(q_max_depth(g, q0) == depth(g, root as int));
    lemma_depth_le_index(g, root as int);
    if x < g.node_count() && g.is_leaf(x as int) {
        lemma_run_props(g, q0, g.node_count(), x as int);
        if contains_id(m, x) {
            let i = choose|i: int| 0 <= i < m.len() && (#[trigger] m[i].node_id) == x;
            assert(reaches(g, m[i].node_id as int, x as int));
            assert(q_reaches(g, m, x as int));
            assert(q_reaches(g, q0, x as int));
            let w = choose|w: int|
                0 <= w < q0.len() && reaches(g, (#[trigger] q0[w]).node_id as int, x as int);
            assert(q0[w].node_id == root);
        }
        if reaches(g, root as int, x as int) {
            assert(reaches(g, q0[0].node_id as int, x as int));
            assert(q_reaches(g, q0, x as int));
            assert(q_reaches(g, m, x as int));
            let i = choose|i: int| 0 <= i < m.len() && reaches(g, (#[trigger] m[i]).node_id as int, x as int);
            assert(g.is_leaf(m[i].node_id as int));
            lemma_reaches_from_leaf(g, m[i].node_id as int, x as int);
            assert(m[i].node_id == x);
            assert(contains_id(m, x));
        }
    } else {
        if contains_id(m, x) {
            assert(g.is_leaf(0)) by {
                assert(g.wf_at(0));
                if g.nodes@[0].parents@.len() > 0 {
                    assert(g.nodes@[0].parents@[0] < 0);
                }
            }
            lemma_run_props(g, q0, g.node_count(), 0);
            let i = choose|i: int| 0 <= i < m.len() && (#[trigger] m[i].node_id) == x;
            assert(x < g.node_count());
            assert(g.is_leaf(x as int));
        }
    }
}

// ---------------------------------------------------------------------------
// Executable backward pass
// ---------------------------------------------------------------------------
/// Merge one (node, contribution) pair into the work queue, accumulating in
/// place on identity collision and appending otherwise.
fn insert_pair<V: Scalar>(q: &mut Vec<NodeGradPair<V>>, id: usize, v: V)
    ensures
        final(q)@ == merge_pair(old(q)@, id, v),
{
    let mut j: usize = 0;
    while j < q.len()
        invariant
            j <= q@.len(),
            q@ == old(q)@,
            forall|t: int| 0 <= t < j ==> (#[trigger] q@[t]).node_id != id,
        decreases q@.len() - j,
    {
        if q[j].node_id == id {
            let merged = NodeGradPair { node_id: id, grad: V::add(q[j].grad, v) };
            q[j] = merged;
            proof {
                lemma_merge_pair_found(old(q)@, id, v, j as int);
            }
            return ;
        }
        j += 1;
    }
    q.push(NodeGradPair { node_id: id, grad: v });
    proof {
        lemma_merge_pair_absent(old(q)@, id, v);
    }
}

/// Pop and process the front entry: park a leaf at the back, or distribute
/// an internal node's gradient to its parents via the chain rule.
fn process_one<V: Scalar>(g: &Graph<V>, q: &mut Vec<NodeGradPair<V>>)
    requires
        g.wf(),
        old(q)@.len() >= 1,
        q_valid(*g, old(q)@),
    ensures
        final(q)@ == step(*g, old(q)@),
{
    let e = q.remove(0);
    proof {
        assert(q@ =~= old(q)@.skip(1));
    }
    let n = g.node(e.node_id);
    if n.parents.len() == 0 {
        q.push(e);
    } else {
        let partials = match n.grad_value() {
            Some(p) => p,
            None => {
                proof {
                    assert(g.wf_at(e.node_id as int));
                    assert(false);
                }
                Vec::new()
            },
        };
        proof {
            assert(g.wf_at(e.node_id as int));
        }
        let ghost rest0 = q@;
        let ghost contribs = Seq::new(
            n.parents@.len(),
            |k: int| V::mul_spec(partials@[k], e.grad),
        );
        let mut k: usize = 0;
        while k < n.parents.len()
            invariant
                k <= n.parents@.len(),
                partials@.len() == n.parents@.len(),
                partials@ == V::grad_spec(n.op_kind(), n.parent_values@),
                contribs == Seq::new(
                    n.parents@.len(),
                    |t: int| V::mul_spec(partials@[t], e.grad),
                ),
                q@ == merge_many(rest0, n.parents@, contribs, k as int),
            decreases n.parents@.len() - k,
        {
            let scaled = V::mul(partials[k], e.grad);
            insert_pair(q, n.parents[k], scaled);
            proof {
                assert(scaled == contribs[k as int]);
                assert(merge_many(rest0, n.parents@, contribs, k + 1 as int) == merge_pair(
                    merge_many(rest0, n.parents@, contribs, k as int),
                    n.parents@[k as int],
                    contribs[k as int],
                ));
            }
            k += 1;
        }
        proof {
            let nn = g.nodes@[e.node_id as int];
            let spartials = V::grad_spec(nn.op_kind(), nn.parent_values@);
            let scontribs = Seq::new(nn.parents@.len(), |t: int| V::mul_spec(spartials[t], old(q)@[0].grad));
            assert(scontribs =~= contribs);
            assert(step(*g, old(q)@) == merge_many(rest0, nn.parents@, scontribs, nn.parents@.len() as int));
        }
    }
}

/// Does any queue entry still refer to an internal node?
fn any_nonleaf<V: Scalar>(g: &Graph<V>, q: &Vec<NodeGradPair<V>>) -> (b: bool)
    requires
        q_valid(*g, q@),
    ensures
        b == !all_leaves(*g, q@),
{
    let mut j: usize = 0;
    while j < q.len()
        invariant
            j <= q@.len(),
            q_valid(*g, q@),
            forall|t: int| 0 <= t < j ==> g.is_leaf((#[trigger] q@[t]).node_id as int),
        decreases q@.len() - j,
    {
        let id = q[j].node_id;
        if g.node(id).parents.len() > 0 {
            proof {
                assert(!g.is_leaf(q@[j as int].node_id as int));
            }
            return true;
        }
        j += 1;
    }
    false
}

// ---------------------------------------------------------------------------
// Sorting the drained queue by node identity, for a deterministic report
// ---------------------------------------------------------------------------
/// Entries appear in strictly increasing identity order.
pub open spec fn sorted_by_id<V>(q: Seq<NodeGradPair<V>>) -> bool {
    forall|i: int, j: int| 0 <= i < j < q.len() ==> q[i].node_id < q[j].node_id
}

/// Insert an entry into an identity-sorted sequence, keeping it sorted.
pub open spec fn sorted_insert<V>(s: Seq<NodeGradPair<V>>, e: NodeGradPair<V>) -> Seq<
    NodeGradPair<V>,
>
    decreases s.len(),
{
    if s.len() == 0 {
        seq![e]
    } else if e.node_id < s[0].node_id {
        seq![e].add(s)
    } else {
        seq![s[0]].add(sorted_insert(s.skip(1), e))
    }
}

/// Sort a queue by node identity (insertion sort, front to back).
pub open spec fn sort_by_id<V>(s: Seq<NodeGradPair<V>>) -> Seq<NodeGradPair<V>>
    decreases s.len(),
{
    if s.len() == 0 {
        s
    } else {
        sorted_insert(sort_by_id(s.drop_last()), s.last())
    }
}

proof fn lemma_sorted_insert_props<V>(s: Seq<NodeGradPair<V>>, e: NodeGradPair<V>)
    ensures
        sorted_insert(s, e).len() == s.len() + 1,
        forall|t: int|
            0 <= t < sorted_insert(s, e).len() ==> ((#[trigger] sorted_insert(s, e)[t]) == e
                || s.contains(sorted_insert(s, e)[t])),
        forall|p: NodeGradPair<V>| s.contains(p) ==> sorted_insert(s, e).contains(p),
        sorted_insert(s, e).contains(e),
        forall|x: usize|
            #![trigger contains_id(sorted_insert(s, e), x)]
            contains_id(sorted_insert(s, e), x) <==> (contains_id(s, x) || x == e.node_id),
        (sorted_by_id(s) && !contains_id(s, e.node_id)) ==> sorted_by_id(sorted_insert(s, e)),
    decreases s.len(),
{
    let r = sorted_insert(s, e);
    if s.len() == 0 {
        assert(r[0] == e);
        assert(r.contains(e));
        assert forall|x: usize| contains_id(r, x) <==> (contains_id(s, x) || x == e.node_id) by {
            if x == e.node_id {
                assert(r[0].node_id == x);
            }
            if contains_id(r, x) {
                let i = choose|i: int| 0 <= i < r.len() && (#[trigger] r[i].node_id) == x;
                assert(i == 0);
            }
        }
    } else if e.node_id < s[0].node_id {
        assert(r == seq![e].add(s));
        assert(r[0] == e);
        assert(r.contains(e));
        assert forall|t: int|
            0 <= t < r.len() implies ((#[trigger] r[t]) == e || s.contains(r[t])) by {
            if t > 0 {
                assert(r[t] == s[t - 1]);
            }
        }
        assert forall|p: NodeGradPair<V>| s.contains(p) implies r.contains(p) by {
            let i = choose|i: int| 0 <= i < s.len() && s[i] == p;
            assert(r[i + 1] == p);
        }
        assert forall|x: usize| contains_id(r, x) <==> (contains_id(s, x) || x == e.node_id) by {
            if contains_id(r, x) {
                let i = choose|i: int| 0 <= i < r.len() && (#[trigger] r[i].node_id) == x;
                if i > 0 {
                    assert(s[i - 1].node_id == x);
                }
            }
            if contains_id(s, x) {
                let i = choose|i: int| 0 <= i < s.len() && (#[trigger] s[i].node_id) == x;
                assert(r[i + 1].node_id == x);
            }
            if x == e.node_id {
                assert(r[0].node_id == x);
            }
        }
        if sorted_by_id(s) && !contains_id(s, e.node_id) {
            assert forall|i: int, j: int|
                0 <= i < j < r.len() implies r[i].node_id < r[j].node_id by {
                if i == 0 {
                    assert(r[j] == s[j - 1]);
                    if j - 1 > 0 {
                        assert(s[0].node_id < s[j - 1].node_id);
                    }
                } else {
                    assert(r[i] == s[i - 1]);
                    assert(r[j] == s[j - 1]);
                }
            }
        }
    } else {
        lemma_sorted_insert_props(s.skip(1), e);
        let rr = sorted_insert(s.skip(1), e);
        assert(r == seq![s[0]].add(rr));
        assert forall|t: int|
            0 <= t < r.len() implies ((#[trigger] r[t]) == e || s.contains(r[t])) by {
            if t > 0 {
                assert(r[t] == rr[t - 1]);
                if rr[t - 1] == e {
                } else {
                    assert(s.skip(1).contains(rr[t - 1]));
                    let i = choose|i: int| 0 <= i < s.skip(1).len() && s.skip(1)[i] == rr[t - 1];
                    assert(s[i + 1] == rr[t - 1]);
                }
            } else {
                assert(r[0] == s[0]);
            }
        }
        assert forall|p: NodeGradPair<V>| s.contains(p) implies r.contains(p) by {
            let i = choose|i: int| 0 <= i < s.len() && s[i] == p;
            if i == 0 {
                assert(r[0] == p);
            } else {
                assert(s.skip(1)[i - 1] == p);
                assert(s.skip(1).contains(p));
                assert(rr.contains(p));
                let t = choose|t: int| 0 <= t < rr.len() && rr[t] == p;
                assert(r[t + 1] == p);
            }
        }
        assert(rr.contains(e));
        let te = choose|t: int| 0 <= t < rr.len() && rr[t] == e;
        assert(r[te + 1] == e);
        assert forall|x: usize| contains_id(r, x) <==> (contains_id(s, x) || x == e.node_id) by {
            if contains_id(r, x) {
                let i = choose|i: int| 0 <= i < r.len() && (#[trigger] r[i].node_id) == x;
                if i == 0 {
                    assert(s[0].node_id == x);
                } else {
                    assert(rr[i - 1].node_id == x);
                    assert(contains_id(rr, x));
                    if contains_id(s.skip(1), x) {
                        let t = choose|t: int|
                            0 <= t < s.skip(1).len() && (#[trigger] s.skip(1)[t].node_id) == x;
                        assert(s[t + 1].node_id == x);
                    }
                }
            }
            if contains_id(s, x) {
                let i = choose|i: int| 0 <= i < s.len() && (#[trigger] s[i].node_id) == x;
                if i == 0 {
                    assert(r[0].node_id == x);
                } else {
                    assert(s.skip(1)[i - 1].node_id == x);
                    assert(contains_id(s.skip(1), x));
                    assert(contains_id(rr, x));
                    let t = choose|t: int| 0 <= t < rr.len() && (#[trigger] rr[t].node_id) == x;
                    assert(r[t + 1].node_id == x);
                }
            }
            if x == e.node_id {
                assert(rr[te].node_id == x);
                assert(r[te + 1].node_id == x);
            }
        }
        if sorted_by_id(s) && !contains_id(s, e.node_id) {
            assert(sorted_by_id(s.skip(1))) by {
                assert forall|a: int, b: int|
                    0 <= a < b < s.skip(1).len() implies s.skip(1)[a].node_id < s.skip(
                    1,
                )[b].node_id by {
                    assert(s.skip(1)[a] == s[a + 1]);
                    assert(s.skip(1)[b] == s[b + 1]);
                }
            }
            assert(!contains_id(s.skip(1), e.node_id)) by {
                if contains_id(s.skip(1), e.node_id) {
                    let t = choose|t: int|
                        0 <= t < s.skip(1).len() && (#[trigger] s.skip(1)[t].node_id)
                            == e.node_id;
                    assert(s[t + 1].node_id == e.node_id);
                }
            }
            assert(s[0].node_id < e.node_id) by {
                assert(s[0].node_id != e.node_id) by {
                    if s[0].node_id == e.node_id {
                        assert(contains_id(s, e.node_id));
                    }
                }
            }
            assert forall|i: int, j: int|
                0 <= i < j < r.len() implies r[i].node_id < r[j].node_id by {
                if i == 0 {
                    assert(r[j] == rr[j - 1]);
                    assert(rr[j - 1] == e || s.skip(1).contains(rr[j - 1]));
                    if rr[j - 1] == e {
                    } else {
                        let t = choose|t: int|
                            0 <= t < s.skip(1).len() && s.skip(1)[t] == rr[j - 1];
                        assert(s.skip(1)[t] == s[t + 1]);
                        assert(s[0].node_id < s[t + 1].node_id);
                    }
                } else {
                    assert(r[i] == rr[i - 1]);
                    assert(r[j] == rr[j - 1]);
                }
            }
        }
    }
}

proof fn lemma_sort_by_id_props<V>(s: Seq<NodeGradPair<V>>)
    requires
        ids_distinct(s),
    ensures
        sort_by_id(s).len() == s.len(),
        forall|t: int|
            0 <= t < sort_by_id(s).len() ==> s.contains(#[trigger] sort_by_id(s)[t]),
        forall|x: usize|
            #![trigger contains_id(sort_by_id(s), x)]
            contains_id(sort_by_id(s), x) <==> contains_id(s, x),
        sorted_by_id(sort_by_id(s)),
    decreases s.len(),
{
    if s.len() > 0 {
        let front = s.drop_last();
        let e = s.last();
        assert(ids_distinct(front)) by {
            assert forall|a: int, b: int|
                0 <= a < b < front.len() implies front[a].node_id != front[b].node_id by {
                assert(front[a] == s[a]);
                assert(front[b] == s[b]);
            }
        }
        lemma_sort_by_id_props(front);
        let sf = sort_by_id(front);
        assert(!contains_id(sf, e.node_id)) by {
            if contains_id(sf, e.node_id) {
                assert(contains_id(front, e.node_id));
                let t = choose|t: int|
                    0 <= t < front.len() && (#[trigger] front[t].node_id) == e.node_id;
                assert(s[t].node_id == s[s.len() - 1].node_id);
            }
        }
        lemma_sorted_insert_props(sf, e);
        let r = sort_by_id(s);
        assert forall|t: int| 0 <= t < r.len() implies s.contains(#[trigger] r[t]) by {
            if r[t] == e {
                assert(s[s.len() - 1] == e);
            } else {
                assert(sf.contains(r[t]));
                let i = choose|i: int| 0 <= i < sf.len() && sf[i] == r[t];
                assert(front.contains(sf[i]));
                let w = choose|w: int| 0 <= w < front.len() && front[w] == r[t];
                assert(s[w] == r[t]);
            }
        }
        assert forall|x: usize| contains_id(r, x) <==> contains_id(s, x) by {
            if contains_id(s, x) {
                let i = choose|i: int| 0 <= i < s.len() && (#[trigger] s[i].node_id) == x;
                if i == s.len() - 1 {
                    assert(x == e.node_id);
                } else {
                    assert(front[i].node_id == x);
                    assert(contains_id(front, x));
                }
            }
            if contains_id(r, x) {
                if contains_id(front, x) {
                    let i = choose|i: int|
                        0 <= i < front.len() && (#[trigger] front[i].node_id) == x;
                    assert(s[i].node_id == x);
                } else {
                    assert(x == e.node_id);
                    assert(s[s.len() - 1].node_id == x);
                }
            }
        }
    }
}

/// Exec insertion of one entry into a sorted vector, at the first position
/// whose identity exceeds the entry's.
fn insert_sorted<V: Scalar>(out: &mut Vec<NodeGradPair<V>>, e: NodeGradPair<V>)
    ensures
        final(out)@ == sorted_insert(old(out)@, e),
{
    let mut j: usize = 0;
    while j < out.len()
        invariant_except_break
            j <= out@.len(),
            out@ == old(out)@,
            forall|t: int| 0 <= t < j ==> (#[trigger] out@[t]).node_id <= e.node_id,
        ensures
            out@ == old(out)@,
            j <= out@.len(),
            forall|t: int| 0 <= t < j ==> (#[trigger] out@[t]).node_id <= e.node_id,
            j == out@.len() || e.node_id < out@[j as int].node_id,
        decreases out@.len() - j,
    {
        if e.node_id < out[j].node_id {
            break ;
        }
        j += 1;
    }
    out.insert(j, e);
    proof {
        lemma_sorted_insert_at(old(out)@, e, j as int);
    }
}

proof fn lemma_sorted_insert_at<V>(s: Seq<NodeGradPair<V>>, e: NodeGradPair<V>, j: int)
    requires
        0 <= j <= s.len(),
        forall|t: int| 0 <= t < j ==> (#[trigger] s[t]).node_id <= e.node_id,
        j == s.len() || e.node_id < s[j].node_id,
    ensures
        sorted_insert(s, e) =~= s.insert(j, e),
    decreases j,
{
    if j == 0 {
        if s.len() == 0 {
            assert(sorted_insert(s, e) =~= s.insert(0, e));
        } else {
            assert(sorted_insert(s, e) =~= s.insert(0, e));
        }
    } else {
        assert(s[0].node_id <= e.node_id);
        assert forall|t: int| 0 <= t < j - 1 implies (#[trigger] s.skip(1)[t]).node_id
            <= e.node_id by {
            assert(s.skip(1)[t] == s[t + 1]);
        }
        assert(j - 1 == s.skip(1).len() || e.node_id < s.skip(1)[j - 1].node_id);
        lemma_sorted_insert_at(s.skip(1), e, j - 1);
        assert(sorted_insert(s, e) =~= s.insert(j, e));
    }
}

/// Sort the drained queue by node identity.
fn sort_pairs<V: Scalar>(v: &Vec<NodeGradPair<V>>) -> (out: Vec<NodeGradPair<V>>)
    ensures
        out@ == sort_by_id(v@),
{
    let mut out: Vec<NodeGradPair<V>> = Vec::new();
    let mut i: usize = 0;
    while i < v.len()
        invariant
            i <= v@.len(),
            out@ == sort_by_id(v@.take(i as int)),
        decreases v@.len() - i,
    {
        insert_sorted(&mut out, v[i]);
        proof {
            assert(v@.take(i + 1 as int).drop_last() =~= v@.take(i as int));
            assert(v@.take(i + 1 as int).last() == v@[i as int]);
        }
        i += 1;
    }
    proof {
        assert(v@.take(v@.len() as int) =~= v@);
    }
    out
}

impl<V: Scalar> Node<V> {
    /// The backward pass: starting from `root` with seed gradient one,
    /// repeatedly sweep the work queue, parking leaves at the back and
    /// distributing each internal node's gradient to its parents with the
    /// chain rule, merging contributions for the same node in place. When
    /// only leaves remain, the queue is drained sorted by node identity.
    ///
    /// The result is exactly the identity-sorted contents of
    /// [`backward_model`]: one entry per distinct leaf reached, carrying
    /// the accumulated sum of its path contributions.
    pub fn auto_grad(g: &Graph<V>, root: usize) -> (r: Vec<NodeGradPair<V>>)
        requires
            g.wf(),
            root < g.node_count(),
        ensures
            r@ == sort_by_id(backward_model(*g, root)),
            sorted_by_id(r@),
            ids_distinct(r@),
            all_leaves(*g, r@),
            q_valid(*g, r@),
            r@.len() >= 1,
            forall|x: usize|
                #![trigger contains_id(r@, x)]
                contains_id(r@, x) <==> contains_id(backward_model(*g, root), x),
            forall|x: usize|
                #![trigger reaches(*g, root as int, x as int)]
                contains_id(r@, x) <==> (x < g.node_count() && g.is_leaf(x as int) && reaches(
                    *g,
                    root as int,
                    x as int,
                )),
    {
        let mut q: Vec<NodeGradPair<V>> = Vec::new();
        q.push(NodeGradPair { node_id: root, grad: V::one() });
        let ghost q0 = q@;
        let ghost mut fuel: nat = g.node_count();
        proof {
            assert(q0 =~= seq![NodeGradPair { node_id: root, grad: V::one_spec() }]);
            lemma_depth_le_index(*g, root as int);
            assert(q0.drop_last() =~= Seq::<NodeGradPair<V>>::empty());
            assert(q_max_depth(*g, Seq::<NodeGradPair<V>>::empty()) == 0);
            assert(q0.len() == 1);
            assert(q0.last().node_id == root);
            assert(q_max_depth(*g, q0) == depth(*g, root as int));
        }
        let mut go = any_nonleaf(g, &q);
        while go
            invariant
                g.wf(),
                go == !all_leaves(*g, q@),
                q_valid(*g, q@),
                ids_distinct(q@),
                q@.len() >= 1,
                fuel >= q_max_depth(*g, q@),
                run(*g, q0, g.node_count()) == run(*g, q@, fuel),
            decreases fuel,
        {
            let l = q.len();
            let ghost qs = q@;
            let ghost d = q_max_depth(*g, qs);
            proof {
                assert forall|t: int|
                    0 <= t < qs.len() implies depth(*g, (#[trigger] qs[t]).node_id as int)
                    <= d by {
                    lemma_q_max_depth_ge(*g, qs, t);
                }
            }
            let mut p: usize = 0;
            while p < l
                invariant
                    g.wf(),
                    p <= l,
                    l == qs.len(),
                    q_valid(*g, qs),
                    ids_distinct(qs),
                    forall|t: int|
                        0 <= t < qs.len() ==> depth(*g, (#[trigger] qs[t]).node_id as int) <= d,
                    q@ == sweep(*g, qs, p as nat),
                decreases l - p,
            {
                proof {
                    lemma_sweep_props(*g, qs, p as nat, d);
                }
                process_one(g, &mut q);
                proof {
                    lemma_sweep_snoc(*g, qs, p as nat);
                }
                p += 1;
            }
            proof {
                lemma_sweep_decreases(*g, qs);
                assert(run(*g, qs, fuel) == run(*g, sweep(*g, qs, qs.len() as nat), (fuel
                    - 1) as nat));
                fuel = (fuel - 1) as nat;
            }
            go = any_nonleaf(g, &q);
        }
        proof {
            assert(run(*g, q@, fuel) == q@);
            assert(q@ == backward_model(*g, root));
            lemma_sort_by_id_props(q@);
        }
        let out = sort_pairs(&q);
        proof {
            assert forall|t: int|
                0 <= t < out@.len() implies g.is_leaf((#[trigger] out@[t]).node_id as int)
                && out@[t].node_id < g.node_count() by {
                assert(q@.contains(out@[t]));
                let i = choose|i: int| 0 <= i < q@.len() && q@[i] == out@[t];
                assert(g.is_leaf(q@[i].node_id as int));
                assert(q@[i].node_id < g.node_count());
            }
            assert(ids_distinct(out@)) by {
                assert forall|a: int, b: int|
                    0 <= a < b < out@.len() implies out@[a].node_id != out@[b].node_id by {
                    assert(out@[a].node_id < out@[b].node_id);
                }
            }
            assert(out@.len() == q@.len());
            assert forall|x: usize|
                contains_id(out@, x) <==> (x < g.node_count() && g.is_leaf(x as int) && reaches(
                    *g,
                    root as int,
                    x as int,
                )) by {
                lemma_backward_model_reaches::<V>(*g, root, x);
            }
        }
        out
    }
}

} // verus!
