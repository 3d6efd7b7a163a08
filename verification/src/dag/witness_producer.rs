//! The witness of a DAG: the signal one, then, component by component from
//! the main one, the local signals of each component in increasing order,
//! each component before its subcomponents.

use vstd::prelude::*;
use vstd::relations::sorted_by;
use crate::dag::{DAG, Node, Edge, edge_fits};

verus! {

/// The order of `usize`.
pub open spec fn usize_leq() -> spec_fn(usize, usize) -> bool {
    |a: usize, b: usize| a <= b
}

/// The numbers of the local signals of `list`, in its order, each moved by
/// `offset`.
pub open spec fn local_ids(list: Seq<(String, usize)>, locals: Set<usize>, offset: usize) -> Seq<usize>
    decreases list.len(),
{
    if list.len() == 0 {
        Seq::empty()
    } else {
        local_ids(list.drop_last(), locals, offset) + if locals.contains(list.last().1) {
            seq![(offset + list.last().1) as usize]
        } else {
            Seq::empty()
        }
    }
}

/// The local signals of `node` moved by `offset`, in increasing order.
pub open spec fn node_signals(node: Node, offset: usize) -> Seq<usize> {
    local_ids(node.spec_signal_list(), node.spec_locals(), offset).sort_by(usize_leq())
}

/// The witness of the component of node `id` whose signals are moved by
/// `offset`: its local signals, then those of its subcomponents.
pub open spec fn tree_witness(nodes: Seq<Node>, adjacency: Seq<Seq<Edge>>, id: nat, offset: usize) -> Seq<usize>
    decreases id, adjacency[id as int].len() + 1,
{
    node_signals(nodes[id as int], offset) + edges_witness(nodes, adjacency, id, adjacency[id as int], offset)
}

/// The witnesses of the subcomponents along the edges `edges` of node `id`,
/// one after the other.
pub open spec fn edges_witness(
    nodes: Seq<Node>,
    adjacency: Seq<Seq<Edge>>,
    id: nat,
    edges: Seq<Edge>,
    offset: usize,
) -> Seq<usize>
    decreases id, edges.len(),
{
    if edges.len() == 0 {
        Seq::empty()
    } else {
        let e = edges.last();
        edges_witness(nodes, adjacency, id, edges.drop_last(), offset) + if e.spec_goes_to() < id {
            tree_witness(nodes, adjacency, e.spec_goes_to() as nat, (offset + e.spec_in()) as usize)
        } else {
            Seq::empty()
        }
    }
}

proof fn lemma_sorted_unique(a: Seq<usize>, b: Seq<usize>)
    requires
        sorted_by(a, usize_leq()),
        sorted_by(b, usize_leq()),
        a.to_multiset() == b.to_multiset(),
    ensures
        a == b,
    decreases a.len(),
{
    broadcast use vstd::seq_lib::group_to_multiset_ensures;

    assert(a.len() == a.to_multiset().len());
    assert(b.len() == b.to_multiset().len());
    if a.len() > 0 {
        assert(a.contains(a[0]));
        assert(b.to_multiset().count(a[0]) > 0);
        let j = choose|j: int| 0 <= j < b.len() && b[j] == a[0];
        assert(b.contains(b[0]));
        assert(a.to_multiset().count(b[0]) > 0);
        let k = choose|k: int| 0 <= k < a.len() && a[k] == b[0];
        if j > 0 {
            assert(usize_leq()(b[0], b[j]));
        }
        if k > 0 {
            assert(usize_leq()(a[0], a[k]));
        }
        assert(a[0] == b[0]);
        assert(a.remove(0) =~= a.drop_first());
        assert(b.remove(0) =~= b.drop_first());
        assert(a.drop_first().to_multiset() =~= b.drop_first().to_multiset());
        assert forall|i: int, l: int| 0 <= i < l < a.drop_first().len() implies #[trigger] usize_leq()(
            a.drop_first()[i],
            a.drop_first()[l],
        ) by {
            assert(usize_leq()(a[i + 1], a[l + 1]));
        }
        assert forall|i: int, l: int| 0 <= i < l < b.drop_first().len() implies #[trigger] usize_leq()(
            b.drop_first()[i],
            b.drop_first()[l],
        ) by {
            assert(usize_leq()(b[i + 1], b[l + 1]));
        }
        lemma_sorted_unique(a.drop_first(), b.drop_first());
        assert(a =~= seq![a[0]] + a.drop_first());
        assert(b =~= seq![b[0]] + b.drop_first());
    }
}

proof fn lemma_usize_leq_total()
    ensures
        vstd::relations::total_ordering(usize_leq()),
{
}

/// `v` in increasing order.
fn sort_signals(v: Vec<usize>) -> (res: Vec<usize>)
    ensures
        res@ == v@.sort_by(usize_leq()),
{
    broadcast use vstd::seq_lib::group_to_multiset_ensures;

    let mut out: Vec<usize> = Vec::new();
    let mut i: usize = 0;
    proof {
        assert(v@.subrange(0, 0) =~= Seq::<usize>::empty());
    }
    while i < v.len()
        invariant
            i <= v@.len(),
            sorted_by(out@, usize_leq()),
            out@.to_multiset() == v@.subrange(0, i as int).to_multiset(),
        decreases v@.len() - i,
    {
        let x = v[i];
        let mut p: usize = 0;
        while p < out.len() && out[p] <= x
            invariant
                p <= out@.len(),
                forall|k: int| 0 <= k < p ==> out@[k] <= x,
            decreases out@.len() - p,
        {
            p = p + 1;
        }
        let ghost before = out@;
        out.insert(p, x);
        proof {
            assert(out@ == before.insert(p as int, x));
            before.insert_ensures(p as int, x);
            assert forall|a: int, b: int| 0 <= a < b < out@.len() implies #[trigger] usize_leq()(
                out@[a],
                out@[b],
            ) by {
                if b < p {
                    assert(usize_leq()(before[a], before[b]));
                } else if b == p {
                } else if a < p {
                    assert(before[b - 1] > x || b - 1 == p as int || (p < before.len() && before[p as int] > x));
                    if p < before.len() {
                        assert(before[p as int] > x);
                        if b - 1 > p {
                            assert(usize_leq()(before[p as int], before[b - 1]));
                        }
                    }
                } else if a == p {
                    if p < before.len() {
                        assert(before[p as int] > x);
                        if b - 1 > p {
                            assert(usize_leq()(before[p as int], before[b - 1]));
                        }
                    }
                } else {
                    assert(usize_leq()(before[a - 1], before[b - 1]));
                }
            }
            assert(before.insert(p as int, x).to_multiset() =~= before.to_multiset().insert(x)) by {
                broadcast use vstd::multiset::group_multiset_axioms;

                let ins = before.insert(p as int, x);
                ins.to_multiset_ensures();
                assert(ins[p as int] == x);
                assert(ins.remove(p as int) =~= before);
                assert(ins.remove(p as int).to_multiset() =~= ins.to_multiset().remove(x));
                assert(ins.contains(x));
                assert(ins.to_multiset().count(x) > 0);
            }
            assert(v@.subrange(0, i + 1) =~= v@.subrange(0, i as int).push(x));
            v@.subrange(0, i as int).to_multiset_ensures();
            assert(v@.subrange(0, i + 1).to_multiset() =~= v@.subrange(0, i as int).to_multiset().insert(x));
        }
        i = i + 1;
    }
    proof {
        assert(v@.subrange(0, v@.len() as int) =~= v@);
        lemma_usize_leq_total();
        v@.lemma_sort_by_ensures(usize_leq());
        lemma_sorted_unique(out@, v@.sort_by(usize_leq()));
    }
    out
}

/// The local signals of `node` moved by `offset`, in increasing order.
fn local_signals(node: &Node, offset: usize) -> (res: Vec<usize>)
    requires
        node.wf(),
        offset + node.spec_number_of_signals() <= usize::MAX,
    ensures
        res@ == node_signals(*node, offset),
{
    let list = node.correspondence();
    let ghost locals = node.spec_locals();
    let mut signals: Vec<usize> = Vec::new();
    let mut i: usize = 0;
    proof {
        assert(list@.subrange(0, 0) =~= Seq::<(String, usize)>::empty());
    }
    while i < list.len()
        invariant
            i <= list@.len(),
            list@ == node.spec_signal_list(),
            locals == node.spec_locals(),
            offset + node.spec_number_of_signals() <= usize::MAX,
            forall|k: int| 0 <= k < list@.len() ==> 1 <= (#[trigger] list@[k]).1 <= node.spec_number_of_signals(),
            signals@ == local_ids(list@.subrange(0, i as int), locals, offset),
        decreases list@.len() - i,
    {
        let id = list[i].1;
        proof {
            let next = list@.subrange(0, i + 1);
            assert(next.drop_last() =~= list@.subrange(0, i as int));
            assert(next.last() == list@[i as int]);
        }
        if node.is_local_signal(id) {
            signals.push(id + offset);
        }
        i = i + 1;
    }
    proof {
        assert(list@.subrange(0, list@.len() as int) =~= list@);
    }
    sort_signals(signals)
}

proof fn lemma_child_fits(dag: DAG, id: int, k: int)
    requires
        dag.wf(),
        0 <= id < dag.spec_nodes().len(),
        0 <= k < dag.spec_adjacency()[id].len(),
    ensures
        ({
            let e = dag.spec_adjacency()[id][k];
            &&& e.spec_goes_to() < id
            &&& e.spec_in() + dag.spec_nodes()[e.spec_goes_to() as int].spec_number_of_signals() == e.spec_out()
            &&& e.spec_out() <= dag.spec_nodes()[id].spec_number_of_signals()
        }),
{
    let e = dag.spec_adjacency()[id][k];
    assert(edge_fits(dag.spec_nodes(), id, e));
}

/// Appends to `witness` the witness of the component of node `node_id`
/// whose signals are moved by `offset`.
fn produce_tree_witness(dag: &DAG, node_id: usize, offset: usize, witness: &mut Vec<usize>)
    requires
        dag.wf(),
        node_id < dag.spec_nodes().len(),
        offset + dag.spec_nodes()[node_id as int].spec_number_of_signals() <= usize::MAX,
    ensures
        final(witness)@ == old(witness)@ + tree_witness(
            dag.spec_nodes(),
            dag.spec_adjacency(),
            node_id as nat,
            offset,
        ),
    decreases node_id,
{
    let node = dag.get_node(node_id).unwrap();
    let signals = local_signals(node, offset);
    let ghost start = witness@;
    let mut i: usize = 0;
    while i < signals.len()
        invariant
            i <= signals@.len(),
            witness@ == start + signals@.subrange(0, i as int),
        decreases signals@.len() - i,
    {
        witness.push(signals[i]);
        i = i + 1;
        proof {
            assert(witness@ =~= start + signals@.subrange(0, i as int));
        }
    }
    proof {
        assert(signals@.subrange(0, signals@.len() as int) =~= signals@);
    }
    let ghost nodes = dag.spec_nodes();
    let ghost adj = dag.spec_adjacency();
    let ghost mid = witness@;
    let edges = dag.get_edges(node_id).unwrap();
    let mut k: usize = 0;
    proof {
        assert(edges@.subrange(0, 0) =~= Seq::<Edge>::empty());
    }
    while k < edges.len()
        invariant
            k <= edges@.len(),
            edges@ == adj[node_id as int],
            nodes == dag.spec_nodes(),
            adj == dag.spec_adjacency(),
            dag.wf(),
            node_id < nodes.len(),
            offset + nodes[node_id as int].spec_number_of_signals() <= usize::MAX,
            witness@ == mid + edges_witness(nodes, adj, node_id as nat, edges@.subrange(0, k as int), offset),
        decreases edges@.len() - k,
    {
        let e = &edges[k];
        proof {
            lemma_child_fits(*dag, node_id as int, k as int);
            let next = edges@.subrange(0, k + 1);
            assert(next.drop_last() =~= edges@.subrange(0, k as int));
            assert(next.last() == edges@[k as int]);
        }
        let to = e.get_goes_to();
        let shift = offset + e.get_in();
        produce_tree_witness(dag, to, shift, witness);
        k = k + 1;
        proof {
            assert(witness@ =~= mid + edges_witness(nodes, adj, node_id as nat, edges@.subrange(0, k as int), offset));
        }
    }
    proof {
        assert(edges@.subrange(0, edges@.len() as int) =~= edges@);
    }
}

/// The witness of `dag`: the signal one, numbered 0, then the signals of
/// the main component and of its subcomponents.
pub fn produce_witness(dag: &DAG) -> (res: Vec<usize>)
    requires
        dag.wf(),
        dag.spec_nodes().len() > 0,
    ensures
        res@ == seq![0usize] + tree_witness(
            dag.spec_nodes(),
            dag.spec_adjacency(),
            (dag.spec_nodes().len() - 1) as nat,
            dag.spec_main().spec_entry().spec_in(),
        ),
{
    let mut witness: Vec<usize> = vec![0];
    let main = dag.main_id();
    let offset = dag.get_entry().unwrap().get_in();
    proof {
        assert(dag.spec_nodes()[main as int].wf());
        dag.spec_main().lemma_entry_spans_signals();
    }
    produce_tree_witness(dag, main, offset, &mut witness);
    witness
}

} // verus!
