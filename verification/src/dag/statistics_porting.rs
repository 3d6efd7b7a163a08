//! The statistics of each node of a DAG and the text that reports them.

use vstd::prelude::*;
use vstd::string::StringExecFns;
use crate::dag::{DAG, Edge, edge_fits};
use crate::text::{nat_text, push_u64};

verus! {

/// What a node declares and how often it is used: its constraints, its
/// intermediate, input and output signals, its subcomponents and the edges
/// that reach it.
#[derive(Clone, Copy, Debug, PartialEq, Eq, Structural)]
pub struct SlotStatistics {
    pub number_of_constraints: usize,
    pub number_of_intermediates: usize,
    pub number_of_inputs: usize,
    pub number_of_outputs: usize,
    pub number_of_components: usize,
    pub times_reached: usize,
}

/// How many of the edges `edges` go to node `j`.
pub open spec fn edges_to(edges: Seq<Edge>, j: nat) -> nat
    decreases edges.len(),
{
    if edges.len() == 0 {
        0
    } else {
        edges_to(edges.drop_last(), j) + if edges.last().spec_goes_to() == j {
            1nat
        } else {
            0nat
        }
    }
}

/// How many edges of the nodes before `i` go to node `j`.
pub open spec fn reached_before(adjacency: Seq<Seq<Edge>>, i: nat, j: nat) -> nat
    decreases i,
{
    if i == 0 {
        0
    } else {
        reached_before(adjacency, (i - 1) as nat, j) + edges_to(adjacency[i - 1], j)
    }
}

/// How many edges the nodes before `i` have.
pub open spec fn edges_before(adjacency: Seq<Seq<Edge>>, i: nat) -> nat
    decreases i,
{
    if i == 0 {
        0
    } else {
        edges_before(adjacency, (i - 1) as nat) + adjacency[i - 1].len()
    }
}

/// The statistics of node `i` of `dag`.
pub open spec fn slot_of(dag: DAG, i: int) -> SlotStatistics {
    let node = dag.spec_nodes()[i];
    SlotStatistics {
        number_of_constraints: node.spec_number_of_constraints() as usize,
        number_of_intermediates: node.spec_intermediates(),
        number_of_inputs: node.spec_inputs(),
        number_of_outputs: node.spec_outputs(),
        number_of_components: dag.spec_adjacency()[i].len() as usize,
        times_reached: reached_before(dag.spec_adjacency(), dag.spec_adjacency().len(), i as nat) as usize,
    }
}

/// The statistics of the nodes of `dag`, in their order.
pub open spec fn dag_statistics(dag: DAG) -> Seq<SlotStatistics> {
    Seq::new(dag.spec_nodes().len(), |i: int| slot_of(dag, i))
}

proof fn lemma_edges_to_bound(edges: Seq<Edge>, j: nat)
    ensures
        edges_to(edges, j) <= edges.len(),
    decreases edges.len(),
{
    if edges.len() > 0 {
        lemma_edges_to_bound(edges.drop_last(), j);
    }
}

proof fn lemma_reached_bound(adjacency: Seq<Seq<Edge>>, i: nat, j: nat)
    ensures
        reached_before(adjacency, i, j) <= edges_before(adjacency, i),
    decreases i,
{
    if i > 0 {
        lemma_reached_bound(adjacency, (i - 1) as nat, j);
        lemma_edges_to_bound(adjacency[i - 1], j);
    }
}

proof fn lemma_edges_before_mono(adjacency: Seq<Seq<Edge>>, i: nat, k: nat)
    requires
        i <= k,
    ensures
        edges_before(adjacency, i) <= edges_before(adjacency, k),
    decreases k,
{
    if i < k {
        lemma_edges_before_mono(adjacency, i, (k - 1) as nat);
    }
}

/// The statistics of each node of `dag`, in the order of the nodes.
pub fn node_statistics(dag: &DAG) -> (res: Vec<SlotStatistics>)
    requires
        dag.wf(),
        edges_before(dag.spec_adjacency(), dag.spec_adjacency().len()) <= usize::MAX,
    ensures
        res@ == dag_statistics(*dag),
{
    let n = dag.number_of_nodes();
    let ghost adj = dag.spec_adjacency();
    let mut stats: Vec<SlotStatistics> = Vec::new();
    let mut i: usize = 0;
    while i < n
        invariant
            i <= n,
            n == dag.spec_nodes().len(),
            dag.wf(),
            adj == dag.spec_adjacency(),
            stats@.len() == i,
            forall|m: int| 0 <= m < i ==> #[trigger] stats@[m] == (SlotStatistics { times_reached: 0, ..slot_of(*dag, m) }),
        decreases n - i,
    {
        let node = dag.get_node(i).unwrap();
        let edges = dag.get_edges(i).unwrap();
        proof {
            assert(edges@.len() == adj[i as int].len());
        }
        stats.push(
            SlotStatistics {
                number_of_constraints: node.constraints().len(),
                number_of_intermediates: node.number_of_intermediates(),
                number_of_inputs: node.number_of_inputs(),
                number_of_outputs: node.number_of_outputs(),
                number_of_components: edges.len(),
                times_reached: 0,
            },
        );
        i = i + 1;
    }
    let mut i: usize = 0;
    while i < n
        invariant
            i <= n,
            n == dag.spec_nodes().len(),
            n == adj.len(),
            dag.wf(),
            adj == dag.spec_adjacency(),
            edges_before(adj, n as nat) <= usize::MAX,
            stats@.len() == n,
            forall|m: int|
                0 <= m < n ==> #[trigger] stats@[m] == (SlotStatistics {
                    times_reached: reached_before(adj, i as nat, m as nat) as usize,
                    ..slot_of(*dag, m)
                }),
        decreases n - i,
    {
        let edges = dag.get_edges(i).unwrap();
        let ghost before = stats@;
        let mut k: usize = 0;
        while k < edges.len()
            invariant
                k <= edges@.len(),
                edges@ == adj[i as int],
                i < n,
                n == adj.len(),
                dag.wf(),
                adj == dag.spec_adjacency(),
                edges_before(adj, n as nat) <= usize::MAX,
                stats@.len() == n,
                forall|m: int|
                    0 <= m < n ==> #[trigger] stats@[m] == (SlotStatistics {
                        times_reached: (reached_before(adj, i as nat, m as nat) + edges_to(
                            edges@.subrange(0, k as int),
                            m as nat,
                        )) as usize,
                        ..slot_of(*dag, m)
                    }),
            decreases edges@.len() - k,
        {
            let pointer = edges[k].get_goes_to();
            proof {
                assert(edges@[k as int] == adj[i as int][k as int]);
                assert(pointer < i);
                assert(edges@.subrange(0, k + 1).drop_last() =~= edges@.subrange(0, k as int));
                lemma_reached_bound(adj, i as nat, pointer as nat);
                lemma_edges_to_bound(edges@.subrange(0, k as int), pointer as nat);
                lemma_edges_before_mono(adj, (i + 1) as nat, n as nat);
            }
            let mut slot = stats[pointer];
            slot.times_reached = slot.times_reached + 1;
            stats.set(pointer, slot);
            k = k + 1;
        }
        proof {
            assert(edges@.subrange(0, edges@.len() as int) =~= edges@);
        }
        i = i + 1;
    }
    proof {
        assert(stats@ =~= dag_statistics(*dag));
    }
    stats
}

/// A line of the report: a title, a number and a newline.
pub open spec fn report_line(title: Seq<char>, n: nat) -> Seq<char> {
    title + nat_text(n) + "\n"@
}

/// The report of the statistics `stats`, one node after the other: a
/// separator, the number of the node, then each count on a line.
pub open spec fn statistics_report(stats: Seq<SlotStatistics>) -> Seq<char>
    decreases stats.len(),
{
    if stats.len() == 0 {
        Seq::empty()
    } else {
        let s = stats.last();
        statistics_report(stats.drop_last()) + "***************************************\n"@ + report_line(
            "NODE NUMBER: "@,
            (stats.len() - 1) as nat,
        ) + report_line("Number of constraints: "@, s.number_of_constraints as nat) + report_line(
            "Number of intermediates: "@,
            s.number_of_intermediates as nat,
        ) + report_line("Number of inputs: "@, s.number_of_inputs as nat) + report_line(
            "Number of outputs: "@,
            s.number_of_outputs as nat,
        ) + report_line("Number of components: "@, s.number_of_components as nat) + report_line(
            "Times reached: "@,
            s.times_reached as nat,
        )
    }
}

fn push_line(out: &mut String, title: &str, n: usize)
    ensures
        final(out)@ == old(out)@ + report_line(title@, n as nat),
{
    out.append(title);
    push_u64(out, n as u64);
    out.append("\n");
    proof {
        assert(out@ =~= old(out)@ + report_line(title@, n as nat));
    }
}

/// The text that reports the statistics of each node of `dag`.
pub fn statistics_text(dag: &DAG) -> (res: String)
    requires
        dag.wf(),
        edges_before(dag.spec_adjacency(), dag.spec_adjacency().len()) <= usize::MAX,
    ensures
        res@ == statistics_report(dag_statistics(*dag)),
{
    let stats = node_statistics(dag);
    let mut out = String::new();
    let mut index: usize = 0;
    while index < stats.len()
        invariant
            index <= stats@.len(),
            out@ == statistics_report(stats@.subrange(0, index as int)),
        decreases stats@.len() - index,
    {
        let s = stats[index];
        let ghost before = out@;
        out.append("***************************************\n");
        push_line(&mut out, "NODE NUMBER: ", index);
        push_line(&mut out, "Number of constraints: ", s.number_of_constraints);
        push_line(&mut out, "Number of intermediates: ", s.number_of_intermediates);
        push_line(&mut out, "Number of inputs: ", s.number_of_inputs);
        push_line(&mut out, "Number of outputs: ", s.number_of_outputs);
        push_line(&mut out, "Number of components: ", s.number_of_components);
        push_line(&mut out, "Times reached: ", s.times_reached);
        proof {
            let next = stats@.subrange(0, index + 1);
            assert(next.drop_last() =~= stats@.subrange(0, index as int));
            assert(next.last() == s);
        }
        index = index + 1;
    }
    proof {
        assert(stats@.subrange(0, stats@.len() as int) =~= stats@);
        assert(stats@ =~= dag_statistics(*dag));
    }
    out
}

/// The edges from the nodes before `i` that go to the nodes before `n`.
pub open spec fn reached_total(adjacency: Seq<Seq<Edge>>, i: nat, n: nat) -> nat
    decreases n,
{
    if n == 0 {
        0
    } else {
        reached_total(adjacency, i, (n - 1) as nat) + reached_before(adjacency, i, (n - 1) as nat)
    }
}

/// The edges of `edges` that go to the nodes before `n`.
pub open spec fn column_sum(edges: Seq<Edge>, n: nat) -> nat
    decreases n,
{
    if n == 0 {
        0
    } else {
        column_sum(edges, (n - 1) as nat) + edges_to(edges, (n - 1) as nat)
    }
}

proof fn lemma_column_sum_push(edges: Seq<Edge>, e: Edge, n: nat)
    ensures
        column_sum(edges.push(e), n) == column_sum(edges, n) + if e.spec_goes_to() < n {
            1nat
        } else {
            0nat
        },
    decreases n,
{
    assert(edges.push(e).drop_last() =~= edges);
    if n > 0 {
        lemma_column_sum_push(edges, e, (n - 1) as nat);
    }
}

proof fn lemma_column_sum(edges: Seq<Edge>, n: nat)
    requires
        forall|k: int| 0 <= k < edges.len() ==> (#[trigger] edges[k]).spec_goes_to() < n,
    ensures
        column_sum(edges, n) == edges.len(),
    decreases edges.len(),
{
    if edges.len() == 0 {
        lemma_column_sum_empty(edges, n);
    } else {
        let prev = edges.drop_last();
        assert forall|k: int| 0 <= k < prev.len() implies (#[trigger] prev[k]).spec_goes_to() < n by {
            assert(prev[k] == edges[k]);
        }
        lemma_column_sum(prev, n);
        assert(prev.push(edges.last()) =~= edges);
        lemma_column_sum_push(prev, edges.last(), n);
    }
}

proof fn lemma_column_sum_empty(edges: Seq<Edge>, n: nat)
    requires
        edges.len() == 0,
    ensures
        column_sum(edges, n) == 0,
    decreases n,
{
    if n > 0 {
        lemma_column_sum_empty(edges, (n - 1) as nat);
    }
}

proof fn lemma_reached_total_step(adjacency: Seq<Seq<Edge>>, i: nat, n: nat)
    requires
        i > 0,
    ensures
        reached_total(adjacency, i, n) == reached_total(adjacency, (i - 1) as nat, n) + column_sum(
            adjacency[i - 1],
            n,
        ),
    decreases n,
{
    if n > 0 {
        lemma_reached_total_step(adjacency, i, (n - 1) as nat);
    }
}

proof fn lemma_reached_total_zero(adjacency: Seq<Seq<Edge>>, n: nat)
    ensures
        reached_total(adjacency, 0, n) == 0,
    decreases n,
{
    if n > 0 {
        lemma_reached_total_zero(adjacency, (n - 1) as nat);
    }
}

proof fn lemma_reached_total(adjacency: Seq<Seq<Edge>>, i: nat, n: nat)
    requires
        i <= adjacency.len(),
        forall|m: int, k: int|
            0 <= m < adjacency.len() && 0 <= k < adjacency[m].len() ==> (#[trigger] adjacency[m][k]).spec_goes_to()
                < n,
    ensures
        reached_total(adjacency, i, n) == edges_before(adjacency, i),
    decreases i,
{
    if i == 0 {
        lemma_reached_total_zero(adjacency, n);
    } else {
        lemma_reached_total(adjacency, (i - 1) as nat, n);
        lemma_reached_total_step(adjacency, i, n);
        let es = adjacency[i - 1];
        assert forall|k: int| 0 <= k < es.len() implies (#[trigger] es[k]).spec_goes_to() < n by {
            assert(es[k] == adjacency[i - 1][k]);
        }
        lemma_column_sum(es, n);
    }
}

/// The times the nodes `stats` are reached, added up.
pub open spec fn sum_reached(stats: Seq<SlotStatistics>) -> nat
    decreases stats.len(),
{
    if stats.len() == 0 {
        0
    } else {
        sum_reached(stats.drop_last()) + stats.last().times_reached as nat
    }
}

/// The subcomponents of the nodes `stats`, added up.
pub open spec fn sum_components(stats: Seq<SlotStatistics>) -> nat
    decreases stats.len(),
{
    if stats.len() == 0 {
        0
    } else {
        sum_components(stats.drop_last()) + stats.last().number_of_components as nat
    }
}

proof fn lemma_sums(dag: DAG, n: nat)
    requires
        dag.wf(),
        n <= dag.spec_nodes().len(),
        edges_before(dag.spec_adjacency(), dag.spec_adjacency().len()) <= usize::MAX,
    ensures
        sum_reached(dag_statistics(dag).subrange(0, n as int)) == reached_total(
            dag.spec_adjacency(),
            dag.spec_adjacency().len(),
            n,
        ),
        sum_components(dag_statistics(dag).subrange(0, n as int)) == edges_before(dag.spec_adjacency(), n),
    decreases n,
{
    let adj = dag.spec_adjacency();
    let st = dag_statistics(dag);
    if n > 0 {
        lemma_sums(dag, (n - 1) as nat);
        let pre = st.subrange(0, n as int);
        assert(pre.drop_last() =~= st.subrange(0, n - 1));
        assert(pre.last() == slot_of(dag, n - 1));
        lemma_reached_bound(adj, adj.len(), (n - 1) as nat);
        lemma_edges_before_mono(adj, n, adj.len());
    } else {
        assert(st.subrange(0, 0) =~= Seq::<SlotStatistics>::empty());
    }
}

/// Each edge of a DAG counts once as a subcomponent of its source and once
/// as a reach of its target: the times the nodes are reached add up to
/// their subcomponents.
pub proof fn law_reaches_match_components(dag: DAG)
    requires
        dag.wf(),
        edges_before(dag.spec_adjacency(), dag.spec_adjacency().len()) <= usize::MAX,
    ensures
        sum_reached(dag_statistics(dag)) == sum_components(dag_statistics(dag)),
{
    let adj = dag.spec_adjacency();
    let n = dag.spec_nodes().len();
    lemma_sums(dag, n);
    assert(dag_statistics(dag).subrange(0, n as int) =~= dag_statistics(dag));
    assert forall|m: int, k: int| 0 <= m < adj.len() && 0 <= k < adj[m].len() implies (
    #[trigger] adj[m][k]).spec_goes_to() < n by {
        assert(edge_fits(dag.spec_nodes(), m, adj[m][k]));
    }
    lemma_reached_total(adj, adj.len(), n);
}

} // verus!
