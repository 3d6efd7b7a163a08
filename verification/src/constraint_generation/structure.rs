//! The structure of the instantiated circuit, one node per component: the
//! constraints, signals and neighbours of each node, the nodes that
//! instantiate the same template instance, and the node whose constraints
//! start at each index.

use vstd::prelude::*;
use std::collections::HashMap;
use std::collections::BTreeMap;
use crate::constraint_generation::template_info::TreeConstraints;

verus! {

/// One component of the circuit: its template, its name, its number, the
/// indexes of its constraints and signals, and the numbers of the components
/// it contains and of the one that contains it.
pub struct NodeInfo {
    pub node_name: String,
    pub component_name: String,
    pub node_id: usize,
    pub constraints: Vec<usize>,
    pub input_signals: Vec<usize>,
    pub output_signals: Vec<usize>,
    pub signals: Vec<usize>,
    pub is_custom: bool,
    pub is_deterministic: bool,
    pub successors: Vec<usize>,
    pub predecessors: Vec<usize>,
}

/// A node taken by value.
pub struct NodeView {
    pub node_name: String,
    pub component_name: String,
    pub node_id: usize,
    pub constraints: Seq<usize>,
    pub input_signals: Seq<usize>,
    pub output_signals: Seq<usize>,
    pub signals: Seq<usize>,
    pub is_custom: bool,
    pub is_deterministic: bool,
    pub successors: Seq<usize>,
    pub predecessors: Seq<usize>,
}

impl View for NodeInfo {
    type V = NodeView;

    open spec fn view(&self) -> NodeView {
        NodeView {
            node_name: self.node_name,
            component_name: self.component_name,
            node_id: self.node_id,
            constraints: self.constraints@,
            input_signals: self.input_signals@,
            output_signals: self.output_signals@,
            signals: self.signals@,
            is_custom: self.is_custom,
            is_deterministic: self.is_deterministic,
            successors: self.successors@,
            predecessors: self.predecessors@,
        }
    }
}

/// The nodes of a list, taken by value.
pub open spec fn nodes_view(nodes: Seq<NodeInfo>) -> Seq<NodeView> {
    nodes.map_values(|n: NodeInfo| n@)
}

/// The classes of a map of classes, taken by value.
pub open spec fn classes_view(m: Map<usize, Vec<usize>>) -> Map<usize, Seq<usize>> {
    m.map_values(|v: Vec<usize>| v@)
}

/// The `count` integers from `start` on.
pub open spec fn run(start: nat, count: nat) -> Seq<usize> {
    Seq::new(count, |i: int| (start + i) as usize)
}

/// The components of a tree in the order they are numbered: each before the
/// components it contains, those in their order.
pub open spec fn preorder(t: TreeConstraints) -> Seq<TreeConstraints>
    decreases t,
{
    seq![t] + preorder_of(t.subcomponents@)
}

/// The components of the trees `subs`, one tree after the other.
pub open spec fn preorder_of(subs: Seq<TreeConstraints>) -> Seq<TreeConstraints>
    decreases subs,
{
    if subs.len() == 0 {
        Seq::empty()
    } else {
        preorder_of(subs.drop_last()) + preorder(subs.last())
    }
}

/// How many constraints the components `ts` declare in all.
pub open spec fn constraints_in(ts: Seq<TreeConstraints>) -> nat
    decreases ts.len(),
{
    if ts.len() == 0 {
        0
    } else {
        constraints_in(ts.drop_last()) + ts.last().number_constraints as nat
    }
}

/// The numbers given to the trees `subs` whose numbering starts at `id`:
/// each tree takes as many numbers as it has components.
pub open spec fn child_ids(subs: Seq<TreeConstraints>, id: nat) -> Seq<usize>
    decreases subs.len(),
{
    if subs.len() == 0 {
        Seq::empty()
    } else {
        child_ids(subs.drop_last(), id).push((id + preorder_of(subs.drop_last()).len()) as usize)
    }
}

/// The node of component `t`, numbered `id`, whose constraints start at
/// `c`, contained in `pred` if any.
pub open spec fn node_of(t: TreeConstraints, id: nat, c: nat, pred: Option<usize>) -> NodeView {
    NodeView {
        node_name: t.template_name,
        component_name: t.component_name,
        node_id: id as usize,
        constraints: run(c, t.number_constraints as nat),
        input_signals: run((t.initial_signal + t.number_outputs) as nat, t.number_inputs as nat),
        output_signals: run(t.initial_signal as nat, t.number_outputs as nat),
        signals: run(t.initial_signal as nat, t.number_signals as nat),
        is_custom: t.is_custom,
        is_deterministic: t.is_deterministic,
        successors: child_ids(t.subcomponents@, id + 1),
        predecessors: match pred {
            Some(p) => seq![p],
            None => Seq::empty(),
        },
    }
}

/// The nodes of the tree `t`, in the order they are numbered from `id`,
/// its constraints numbered from `c`.
pub open spec fn structure(t: TreeConstraints, id: nat, c: nat, pred: Option<usize>) -> Seq<NodeView>
    decreases t,
{
    seq![node_of(t, id, c, pred)] + structure_of(t.subcomponents@, id + 1, c + t.number_constraints as nat, id as usize)
}

/// The nodes of the trees `subs`, contained in `parent`, one tree after the
/// other.
pub open spec fn structure_of(subs: Seq<TreeConstraints>, id: nat, c: nat, parent: usize) -> Seq<NodeView>
    decreases subs,
{
    if subs.len() == 0 {
        Seq::empty()
    } else {
        structure_of(subs.drop_last(), id, c, parent) + structure(
            subs.last(),
            id + preorder_of(subs.drop_last()).len(),
            c + constraints_in(preorder_of(subs.drop_last())),
            Some(parent),
        )
    }
}

/// `id` added at the end of the class `key`.
pub open spec fn with_member(m: Map<usize, Seq<usize>>, key: usize, id: usize) -> Map<usize, Seq<usize>> {
    m.insert(
        key,
        if m.contains_key(key) {
            m[key].push(id)
        } else {
            seq![id]
        },
    )
}

/// The classes `m` with the nodes of `t`, numbered from `id`, each added to
/// the class of the template instance it instantiates.
pub open spec fn classes(m: Map<usize, Seq<usize>>, t: TreeConstraints, id: nat) -> Map<usize, Seq<usize>>
    decreases t,
{
    classes_of(with_member(m, t.node_id, id as usize), t.subcomponents@, id + 1)
}

/// The classes `m` with the nodes of the trees `subs`.
pub open spec fn classes_of(m: Map<usize, Seq<usize>>, subs: Seq<TreeConstraints>, id: nat) -> Map<
    usize,
    Seq<usize>,
>
    decreases subs,
{
    if subs.len() == 0 {
        m
    } else {
        classes(classes_of(m, subs.drop_last(), id), subs.last(), id + preorder_of(subs.drop_last()).len())
    }
}

/// The map `m` with, for each component of `t`, the index where its
/// constraints start mapped to its template; of two components whose
/// constraints start at one index, the later stands.
pub open spec fn starts(m: Map<usize, String>, t: TreeConstraints, c: nat) -> Map<usize, String>
    decreases t,
{
    starts_of(m.insert(c as usize, t.template_name), t.subcomponents@, c + t.number_constraints as nat)
}

/// The map `m` with the starts of the components of the trees `subs`.
pub open spec fn starts_of(m: Map<usize, String>, subs: Seq<TreeConstraints>, c: nat) -> Map<usize, String>
    decreases subs,
{
    if subs.len() == 0 {
        m
    } else {
        starts(starts_of(m, subs.drop_last(), c), subs.last(), c + constraints_in(preorder_of(subs.drop_last())))
    }
}

/// The signals of each component fit in `usize`.
pub open spec fn signals_fit(ts: Seq<TreeConstraints>) -> bool {
    forall|k: int|
        0 <= k < ts.len() ==> #[trigger] ts[k].initial_signal + ts[k].number_signals <= usize::MAX
            && ts[k].initial_signal + ts[k].number_outputs + ts[k].number_inputs <= usize::MAX
}

/// The numbers of the nodes of `t` from `id` on, the indexes of its
/// constraints from `c` on and those of its signals all fit in `usize`.
pub open spec fn fits(t: TreeConstraints, id: nat, c: nat) -> bool {
    &&& id + preorder(t).len() <= usize::MAX
    &&& c + constraints_in(preorder(t)) <= usize::MAX
    &&& signals_fit(preorder(t))
}

proof fn lemma_preorder_of_concat(a: Seq<TreeConstraints>, b: Seq<TreeConstraints>)
    ensures
        preorder_of(a + b) == preorder_of(a) + preorder_of(b),
    decreases b.len(),
{
    if b.len() == 0 {
        assert(a + b =~= a);
        assert(preorder_of(a) + preorder_of(b) =~= preorder_of(a));
    } else {
        assert((a + b).drop_last() =~= a + b.drop_last());
        assert((a + b).last() == b.last());
        lemma_preorder_of_concat(a, b.drop_last());
        assert(preorder_of(a) + preorder_of(b) =~= preorder_of(a) + preorder_of(b.drop_last()) + preorder(
            b.last(),
        ));
    }
}

proof fn lemma_constraints_in_concat(a: Seq<TreeConstraints>, b: Seq<TreeConstraints>)
    ensures
        constraints_in(a + b) == constraints_in(a) + constraints_in(b),
    decreases b.len(),
{
    if b.len() == 0 {
        assert(a + b =~= a);
    } else {
        assert((a + b).drop_last() =~= a + b.drop_last());
        assert((a + b).last() == b.last());
        lemma_constraints_in_concat(a, b.drop_last());
    }
}

proof fn lemma_signals_fit_split(a: Seq<TreeConstraints>, b: Seq<TreeConstraints>)
    requires
        signals_fit(a + b),
    ensures
        signals_fit(a),
        signals_fit(b),
{
    assert forall|k: int| 0 <= k < a.len() implies #[trigger] a[k].initial_signal + a[k].number_signals
        <= usize::MAX && a[k].initial_signal + a[k].number_outputs + a[k].number_inputs <= usize::MAX by {
        assert((a + b)[k] == a[k]);
    }
    assert forall|k: int| 0 <= k < b.len() implies #[trigger] b[k].initial_signal + b[k].number_signals
        <= usize::MAX && b[k].initial_signal + b[k].number_outputs + b[k].number_inputs <= usize::MAX by {
        assert((a + b)[a.len() + k] == b[k]);
    }
}

/// The `count` integers from `start` on, in a vector.
fn run_vec(start: usize, count: usize) -> (v: Vec<usize>)
    requires
        start + count <= usize::MAX,
    ensures
        v@ == run(start as nat, count as nat),
{
    let mut v: Vec<usize> = Vec::new();
    let mut i: usize = 0;
    while i < count
        invariant
            i <= count,
            start + count <= usize::MAX,
            v@ == run(start as nat, i as nat),
        decreases count - i,
    {
        v.push(start + i);
        i = i + 1;
        proof {
            assert(v@ =~= run(start as nat, i as nat));
        }
    }
    v
}

proof fn lemma_structure_len(t: TreeConstraints, id: nat, c: nat, pred: Option<usize>)
    ensures
        structure(t, id, c, pred).len() == preorder(t).len(),
    decreases t,
{
    lemma_structure_of_len(t.subcomponents@, id + 1, c + t.number_constraints as nat, id as usize);
}

proof fn lemma_structure_of_len(subs: Seq<TreeConstraints>, id: nat, c: nat, parent: usize)
    ensures
        structure_of(subs, id, c, parent).len() == preorder_of(subs).len(),
    decreases subs,
{
    if subs.len() > 0 {
        lemma_structure_of_len(subs.drop_last(), id, c, parent);
        lemma_structure_len(
            subs.last(),
            id + preorder_of(subs.drop_last()).len(),
            c + constraints_in(preorder_of(subs.drop_last())),
            Some(parent),
        );
    }
}

proof fn lemma_child_fits(t: TreeConstraints, j: int, id: nat, c: nat)
    requires
        fits(t, id, c),
        0 <= j < t.subcomponents@.len(),
    ensures
        ({
            let subs = t.subcomponents@;
            let pre = subs.subrange(0, j);
            let next = subs.subrange(0, j + 1);
            &&& preorder_of(next) == preorder_of(pre) + preorder(subs[j])
            &&& constraints_in(preorder_of(next)) == constraints_in(preorder_of(pre)) + constraints_in(
                preorder(subs[j]),
            )
            &&& fits(
                subs[j],
                id + 1 + preorder_of(pre).len(),
                c + t.number_constraints as nat + constraints_in(preorder_of(pre)),
            )
            &&& preorder(subs[j]).len() < preorder(t).len()
            &&& 1 + preorder_of(next).len() <= preorder(t).len()
            &&& t.number_constraints + constraints_in(preorder_of(next)) <= constraints_in(preorder(t))
        }),
{
    let subs = t.subcomponents@;
    let pre = subs.subrange(0, j);
    let next = subs.subrange(0, j + 1);
    let rest = subs.subrange(j + 1, subs.len() as int);
    assert(next.drop_last() =~= pre);
    assert(next.last() == subs[j]);
    assert(subs =~= next + rest);
    lemma_preorder_of_concat(next, rest);
    lemma_constraints_in_concat(preorder_of(pre), preorder(subs[j]));
    lemma_constraints_in_concat(preorder_of(next), preorder_of(rest));
    lemma_constraints_in_concat(seq![t], preorder_of(subs));
    assert(seq![t].drop_last() =~= Seq::<TreeConstraints>::empty());
    lemma_signals_fit_split(seq![t], preorder_of(subs));
    lemma_signals_fit_split(preorder_of(next), preorder_of(rest));
    lemma_signals_fit_split(preorder_of(pre), preorder(subs[j]));
}

proof fn lemma_own_fits(t: TreeConstraints, id: nat, c: nat)
    requires
        fits(t, id, c),
    ensures
        c + t.number_constraints <= usize::MAX,
        t.initial_signal + t.number_signals <= usize::MAX,
        t.initial_signal + t.number_outputs + t.number_inputs <= usize::MAX,
        id + 1 <= usize::MAX,
{
    let subs = t.subcomponents@;
    lemma_constraints_in_concat(seq![t], preorder_of(subs));
    assert(seq![t].drop_last() =~= Seq::<TreeConstraints>::empty());
    assert(preorder(t)[0] == t);
}

/// Numbers the nodes of the tree `tree_constraints` from `node_id` on and
/// its constraints from `init_c` on, appends the nodes to `node_info`, adds
/// each node to the class of the template instance it instantiates and
/// notes where the constraints of each node start; returns the number of the
/// first node.
pub fn build_structure_nodes(
    tree_constraints: &TreeConstraints,
    node_id: &mut usize,
    init_c: &mut usize,
    node_info: &mut Vec<NodeInfo>,
    equivalence_nodes: &mut HashMap<usize, Vec<usize>>,
    init_constraint_to_node: &mut BTreeMap<usize, String>,
    predecessor: Option<usize>,
) -> (res: usize)
    requires
        old(node_info)@.len() == *old(node_id),
        fits(*tree_constraints, *old(node_id) as nat, *old(init_c) as nat),
    ensures
        res == *old(node_id),
        *final(node_id) == *old(node_id) + preorder(*tree_constraints).len(),
        *final(init_c) == *old(init_c) + constraints_in(preorder(*tree_constraints)),
        nodes_view(final(node_info)@) == nodes_view(old(node_info)@) + structure(
            *tree_constraints,
            *old(node_id) as nat,
            *old(init_c) as nat,
            predecessor,
        ),
        classes_view(final(equivalence_nodes)@) == classes(
            classes_view(old(equivalence_nodes)@),
            *tree_constraints,
            *old(node_id) as nat,
        ),
        final(init_constraint_to_node)@ == starts(
            old(init_constraint_to_node)@,
            *tree_constraints,
            *old(init_c) as nat,
        ),
    decreases preorder(*tree_constraints).len(),
{
    let t = tree_constraints;
    let ghost id0 = *node_id as nat;
    let ghost c0 = *init_c as nat;
    let ghost nodes0 = node_info@;
    let ghost classes0 = classes_view(equivalence_nodes@);
    let ghost starts0 = init_constraint_to_node@;
    proof {
        lemma_own_fits(*t, id0, c0);
    }
    let my_node_id = *node_id;
    *node_id = *node_id + 1;

    let key = t.node_id;
    let mut class: Vec<usize> = match equivalence_nodes.get(&key) {
        Some(v) => v.clone(),
        None => Vec::new(),
    };
    proof {
        if classes0.contains_key(key) {
            assert(class@ =~= classes0[key]);
        }
    }
    class.push(my_node_id);
    equivalence_nodes.insert(key, class);
    proof {
        assert(classes_view(equivalence_nodes@) =~= with_member(classes0, key, my_node_id));
    }

    init_constraint_to_node.insert(*init_c, t.template_name.clone());
    let constraints = run_vec(*init_c, t.number_constraints);
    *init_c = *init_c + t.number_constraints;
    let output_signals = run_vec(t.initial_signal, t.number_outputs);
    let input_signals = run_vec(t.initial_signal + t.number_outputs, t.number_inputs);
    let signals = run_vec(t.initial_signal, t.number_signals);
    let predecessors = match predecessor {
        Some(p) => vec![p],
        None => Vec::new(),
    };
    let new_node = NodeInfo {
        node_name: t.template_name.clone(),
        component_name: t.component_name.clone(),
        node_id: my_node_id,
        constraints,
        input_signals,
        output_signals,
        signals,
        is_deterministic: t.is_deterministic,
        is_custom: t.is_custom,
        successors: Vec::new(),
        predecessors,
    };
    let ghost node0 = new_node@;
    proof {
        let expected = node_of(*t, id0, c0, predecessor);
        assert(node0.predecessors =~= expected.predecessors);
        assert(node0.node_name == expected.node_name);
        assert(node0.component_name == expected.component_name);
    }
    node_info.push(new_node);

    let ghost subs = t.subcomponents@;
    let ghost nc = t.number_constraints as nat;
    let mut successors: Vec<usize> = Vec::new();
    let mut j: usize = 0;
    proof {
        assert(subs.subrange(0, 0) =~= Seq::<TreeConstraints>::empty());
        assert(nodes_view(node_info@) =~= nodes_view(nodes0) + seq![node0]);
    }
    while j < t.subcomponents.len()
        invariant
            j <= subs.len(),
            subs == t.subcomponents@,
            *t == *tree_constraints,
            fits(*t, id0, c0),
            my_node_id == id0,
            nc == t.number_constraints,
            *node_id == id0 + 1 + preorder_of(subs.subrange(0, j as int)).len(),
            *init_c == c0 + nc + constraints_in(preorder_of(subs.subrange(0, j as int))),
            node_info@.len() == *node_id,
            nodes0.len() == id0,
            nodes_view(node_info@) == nodes_view(nodes0) + seq![node0] + structure_of(
                subs.subrange(0, j as int),
                id0 + 1,
                c0 + nc,
                my_node_id,
            ),
            successors@ == child_ids(subs.subrange(0, j as int), id0 + 1),
            classes_view(equivalence_nodes@) == classes_of(
                with_member(classes0, key, my_node_id),
                subs.subrange(0, j as int),
                id0 + 1,
            ),
            init_constraint_to_node@ == starts_of(
                starts0.insert(c0 as usize, t.template_name),
                subs.subrange(0, j as int),
                c0 + nc,
            ),
            key == t.node_id,
        decreases subs.len() - j,
    {
        let ghost pre = subs.subrange(0, j as int);
        let ghost next = subs.subrange(0, j + 1);
        let ghost before_nodes = node_info@;
        proof {
            lemma_child_fits(*t, j as int, id0, c0);
            assert(next.drop_last() =~= pre);
            assert(next.last() == subs[j as int]);
        }
        let sub = &t.subcomponents[j];
        let s = build_structure_nodes(
            sub,
            node_id,
            init_c,
            node_info,
            equivalence_nodes,
            init_constraint_to_node,
            Some(my_node_id),
        );
        successors.push(s);
        proof {
            lemma_structure_len(
                subs[j as int],
                id0 + 1 + preorder_of(pre).len(),
                c0 + nc + constraints_in(preorder_of(pre)),
                Some(my_node_id),
            );
            assert(nodes_view(node_info@) =~= nodes_view(nodes0) + seq![node0] + structure_of(
                next,
                id0 + 1,
                c0 + nc,
                my_node_id,
            ));
            assert(successors@ =~= child_ids(next, id0 + 1));
        }
        j = j + 1;
    }
    proof {
        assert(subs.subrange(0, subs.len() as int) =~= subs);
        lemma_constraints_in_concat(seq![*t], preorder_of(subs));
        assert(seq![*t].drop_last() =~= Seq::<TreeConstraints>::empty());
        assert(constraints_in(Seq::<TreeConstraints>::empty()) == 0);
        assert(constraints_in(seq![*t]) == nc);
        assert(preorder(*t) == seq![*t] + preorder_of(subs));
    }
    let mut taken = NodeInfo {
        node_name: String::new(),
        component_name: String::new(),
        node_id: 0,
        constraints: Vec::new(),
        input_signals: Vec::new(),
        output_signals: Vec::new(),
        signals: Vec::new(),
        is_deterministic: false,
        is_custom: false,
        successors: Vec::new(),
        predecessors: Vec::new(),
    };
    let ghost mid = node_info@;
    proof {
        assert(nodes_view(mid)[id0 as int] == node0);
    }
    node_info.set_and_swap(my_node_id, &mut taken);
    taken.successors = successors;
    node_info.set(my_node_id, taken);
    proof {
        let expected = node_of(*t, id0, c0, predecessor);
        assert(taken@.predecessors =~= expected.predecessors);
        assert(taken@ == expected);
        assert(nodes_view(node_info@) =~= nodes_view(mid).update(id0 as int, taken@));
        assert(nodes_view(node_info@) =~= nodes_view(nodes0) + structure(*t, id0, c0, predecessor));
    }
    my_node_id
}

/// The constraint indexes of the nodes `nodes`, one node after the other.
pub open spec fn all_constraints(nodes: Seq<NodeView>) -> Seq<usize>
    decreases nodes.len(),
{
    if nodes.len() == 0 {
        Seq::empty()
    } else {
        all_constraints(nodes.drop_last()) + nodes.last().constraints
    }
}

proof fn lemma_all_constraints_concat(a: Seq<NodeView>, b: Seq<NodeView>)
    ensures
        all_constraints(a + b) == all_constraints(a) + all_constraints(b),
    decreases b.len(),
{
    if b.len() == 0 {
        assert(a + b =~= a);
        assert(all_constraints(a) + all_constraints(b) =~= all_constraints(a));
    } else {
        assert((a + b).drop_last() =~= a + b.drop_last());
        assert((a + b).last() == b.last());
        lemma_all_constraints_concat(a, b.drop_last());
        assert(all_constraints(a) + all_constraints(b) =~= all_constraints(a) + all_constraints(b.drop_last())
            + b.last().constraints);
    }
}

proof fn lemma_run_concat(start: nat, m: nat, n: nat)
    requires
        start + m + n <= usize::MAX + 1,
    ensures
        run(start, m) + run(start + m, n) == run(start, m + n),
{
    assert(run(start, m) + run(start + m, n) =~= run(start, m + n));
}

proof fn lemma_ids_of(subs: Seq<TreeConstraints>, id: nat, c: nat, parent: usize)
    requires
        id + preorder_of(subs).len() <= usize::MAX + 1,
    ensures
        forall|k: int|
            0 <= k < structure_of(subs, id, c, parent).len() ==> #[trigger] structure_of(
                subs,
                id,
                c,
                parent,
            )[k].node_id == id + k,
    decreases subs,
{
    if subs.len() > 0 {
        let dl = subs.drop_last();
        let id2 = id + preorder_of(dl).len();
        let c2 = c + constraints_in(preorder_of(dl));
        lemma_ids_of(dl, id, c, parent);
        lemma_ids(subs.last(), id2, c2, Some(parent));
        lemma_structure_of_len(dl, id, c, parent);
        let whole = structure_of(subs, id, c, parent);
        let left = structure_of(dl, id, c, parent);
        let right = structure(subs.last(), id2, c2, Some(parent));
        assert forall|k: int| 0 <= k < whole.len() implies #[trigger] whole[k].node_id == id + k by {
            if k < left.len() {
                assert(whole[k] == left[k]);
            } else {
                assert(whole[k] == right[k - left.len()]);
            }
        }
    }
}

proof fn lemma_ids(t: TreeConstraints, id: nat, c: nat, pred: Option<usize>)
    requires
        id + preorder(t).len() <= usize::MAX + 1,
    ensures
        forall|k: int|
            0 <= k < structure(t, id, c, pred).len() ==> #[trigger] structure(t, id, c, pred)[k].node_id == id
                + k,
    decreases t,
{
    let subs = t.subcomponents@;
    let rest = structure_of(subs, id + 1, c + t.number_constraints as nat, id as usize);
    lemma_ids_of(subs, id + 1, c + t.number_constraints as nat, id as usize);
    let whole = structure(t, id, c, pred);
    assert forall|k: int| 0 <= k < whole.len() implies #[trigger] whole[k].node_id == id + k by {
        if k > 0 {
            assert(whole[k] == rest[k - 1]);
        }
    }
}

/// Each node of the structure of a tree is numbered by its position: the
/// `k`-th node built from number `id` on has number `id + k`.
pub proof fn law_nodes_numbered_in_order(t: TreeConstraints, id: nat, c: nat, pred: Option<usize>)
    requires
        id + preorder(t).len() <= usize::MAX + 1,
    ensures
        structure(t, id, c, pred).len() == preorder(t).len(),
        forall|k: int|
            0 <= k < structure(t, id, c, pred).len() ==> #[trigger] structure(t, id, c, pred)[k].node_id == id
                + k,
{
    lemma_structure_len(t, id, c, pred);
    lemma_ids(t, id, c, pred);
}

proof fn lemma_constraints_of(subs: Seq<TreeConstraints>, id: nat, c: nat, parent: usize)
    requires
        c + constraints_in(preorder_of(subs)) <= usize::MAX + 1,
    ensures
        all_constraints(structure_of(subs, id, c, parent)) == run(c, constraints_in(preorder_of(subs))),
    decreases subs,
{
    if subs.len() == 0 {
        assert(run(c, 0) =~= Seq::<usize>::empty());
    } else {
        let dl = subs.drop_last();
        let id2 = id + preorder_of(dl).len();
        let c2 = c + constraints_in(preorder_of(dl));
        lemma_constraints_in_concat(preorder_of(dl), preorder(subs.last()));
        lemma_constraints_of(dl, id, c, parent);
        lemma_constraints(subs.last(), id2, c2, Some(parent));
        lemma_all_constraints_concat(structure_of(dl, id, c, parent), structure(subs.last(), id2, c2, Some(parent)));
        lemma_run_concat(c, constraints_in(preorder_of(dl)), constraints_in(preorder(subs.last())));
    }
}

proof fn lemma_constraints(t: TreeConstraints, id: nat, c: nat, pred: Option<usize>)
    requires
        c + constraints_in(preorder(t)) <= usize::MAX + 1,
    ensures
        all_constraints(structure(t, id, c, pred)) == run(c, constraints_in(preorder(t))),
    decreases t,
{
    let subs = t.subcomponents@;
    let nc = t.number_constraints as nat;
    lemma_constraints_in_concat(seq![t], preorder_of(subs));
    assert(seq![t].drop_last() =~= Seq::<TreeConstraints>::empty());
    assert(constraints_in(Seq::<TreeConstraints>::empty()) == 0);
    assert(constraints_in(seq![t]) == nc);
    lemma_constraints_of(subs, id + 1, c + nc, id as usize);
    let first = seq![node_of(t, id, c, pred)];
    lemma_all_constraints_concat(first, structure_of(subs, id + 1, c + nc, id as usize));
    assert(first.drop_last() =~= Seq::<NodeView>::empty());
    assert(all_constraints(Seq::<NodeView>::empty()) =~= Seq::<usize>::empty());
    assert(all_constraints(first) =~= run(c, nc));
    lemma_run_concat(c, nc, constraints_in(preorder_of(subs)));
}

/// The constraints of the nodes of a tree, one node after the other, are
/// the indexes from `c` on, one for each constraint of the tree: every
/// constraint belongs to exactly one node.
pub proof fn law_constraints_partitioned(t: TreeConstraints, id: nat, c: nat, pred: Option<usize>)
    requires
        c + constraints_in(preorder(t)) <= usize::MAX + 1,
    ensures
        all_constraints(structure(t, id, c, pred)) == run(c, constraints_in(preorder(t))),
{
    lemma_constraints(t, id, c, pred);
}

/// Each successor of each node of `nodes`, numbered from `id`, is a node of
/// `nodes` whose only predecessor is that node.
pub open spec fn links_back(nodes: Seq<NodeView>, id: nat) -> bool {
    forall|k: int, i: int|
        0 <= k < nodes.len() && 0 <= i < nodes[k].successors.len() ==> id <= #[trigger] nodes[k].successors[i]
            < id + nodes.len() && nodes[nodes[k].successors[i] - id].predecessors == seq![(id + k) as usize]
}

proof fn lemma_prefix_len(subs: Seq<TreeConstraints>, i: int)
    requires
        0 <= i < subs.len(),
    ensures
        preorder_of(subs.subrange(0, i)).len() + preorder(subs[i]).len() <= preorder_of(subs).len(),
        preorder_of(subs.subrange(0, i + 1)) == preorder_of(subs.subrange(0, i)) + preorder(subs[i]),
{
    let next = subs.subrange(0, i + 1);
    let rest = subs.subrange(i + 1, subs.len() as int);
    assert(next.drop_last() =~= subs.subrange(0, i));
    assert(next.last() == subs[i]);
    assert(subs =~= next + rest);
    lemma_preorder_of_concat(next, rest);
}

proof fn lemma_child_ids(subs: Seq<TreeConstraints>, id: nat, i: int)
    requires
        0 <= i < subs.len(),
    ensures
        child_ids(subs, id).len() == subs.len(),
        child_ids(subs, id)[i] == (id + preorder_of(subs.subrange(0, i)).len()) as usize,
    decreases subs.len(),
{
    let dl = subs.drop_last();
    lemma_child_ids_len(subs, id);
    if i == subs.len() - 1 {
        assert(subs.subrange(0, i) =~= dl);
    } else {
        lemma_child_ids(dl, id, i);
        assert(dl.subrange(0, i) =~= subs.subrange(0, i));
    }
}

proof fn lemma_child_ids_len(subs: Seq<TreeConstraints>, id: nat)
    ensures
        child_ids(subs, id).len() == subs.len(),
    decreases subs.len(),
{
    if subs.len() > 0 {
        lemma_child_ids_len(subs.drop_last(), id);
    }
}

proof fn lemma_child_node(subs: Seq<TreeConstraints>, id: nat, c: nat, parent: usize, i: int)
    requires
        0 <= i < subs.len(),
    ensures
        structure_of(subs, id, c, parent)[preorder_of(subs.subrange(0, i)).len() as int].predecessors == seq![
            parent,
        ],
    decreases subs.len(),
{
    let dl = subs.drop_last();
    let id2 = id + preorder_of(dl).len();
    let c2 = c + constraints_in(preorder_of(dl));
    let left = structure_of(dl, id, c, parent);
    let right = structure(subs.last(), id2, c2, Some(parent));
    lemma_structure_of_len(dl, id, c, parent);
    if i == subs.len() - 1 {
        assert(subs.subrange(0, i) =~= dl);
        assert(structure_of(subs, id, c, parent)[left.len() as int] == right[0]);
    } else {
        lemma_child_node(dl, id, c, parent, i);
        assert(dl.subrange(0, i) =~= subs.subrange(0, i));
        lemma_prefix_len(dl, i);
        assert(structure_of(subs, id, c, parent)[preorder_of(subs.subrange(0, i)).len() as int]
            == left[preorder_of(subs.subrange(0, i)).len() as int]);
    }
}

proof fn lemma_links_of(subs: Seq<TreeConstraints>, id: nat, c: nat, parent: usize)
    requires
        id + preorder_of(subs).len() <= usize::MAX + 1,
    ensures
        links_back(structure_of(subs, id, c, parent), id),
    decreases subs,
{
    if subs.len() > 0 {
        let dl = subs.drop_last();
        let id2 = id + preorder_of(dl).len();
        let c2 = c + constraints_in(preorder_of(dl));
        let whole = structure_of(subs, id, c, parent);
        let left = structure_of(dl, id, c, parent);
        let right = structure(subs.last(), id2, c2, Some(parent));
        lemma_links_of(dl, id, c, parent);
        lemma_links(subs.last(), id2, c2, Some(parent));
        lemma_structure_of_len(dl, id, c, parent);
        lemma_structure_len(subs.last(), id2, c2, Some(parent));
        assert forall|k: int, i: int| 0 <= k < whole.len() && 0 <= i < whole[k].successors.len() implies id
            <= #[trigger] whole[k].successors[i] < id + whole.len() && whole[whole[k].successors[i]
            - id].predecessors == seq![(id + k) as usize] by {
            if k < left.len() {
                assert(whole[k] == left[k]);
                assert(left[k].successors[i] == whole[k].successors[i]);
                assert(whole[whole[k].successors[i] - id] == left[whole[k].successors[i] - id]);
            } else {
                let k2 = k - left.len();
                assert(whole[k] == right[k2]);
                assert(right[k2].successors[i] == whole[k].successors[i]);
                let sx = whole[k].successors[i];
                assert(whole[sx - id] == right[sx - id2]);
            }
        }
    }
}

proof fn lemma_links(t: TreeConstraints, id: nat, c: nat, pred: Option<usize>)
    requires
        id + preorder(t).len() <= usize::MAX + 1,
    ensures
        links_back(structure(t, id, c, pred), id),
    decreases t,
{
    let subs = t.subcomponents@;
    let nc = t.number_constraints as nat;
    let whole = structure(t, id, c, pred);
    let rest = structure_of(subs, id + 1, c + nc, id as usize);
    lemma_links_of(subs, id + 1, c + nc, id as usize);
    lemma_structure_of_len(subs, id + 1, c + nc, id as usize);
    lemma_child_ids_len(subs, id + 1);
    assert forall|k: int, i: int| 0 <= k < whole.len() && 0 <= i < whole[k].successors.len() implies id
        <= #[trigger] whole[k].successors[i] < id + whole.len() && whole[whole[k].successors[i]
        - id].predecessors == seq![(id + k) as usize] by {
        if k == 0 {
            lemma_child_ids(subs, id + 1, i);
            lemma_prefix_len(subs, i);
            lemma_child_node(subs, id + 1, c + nc, id as usize, i);
            let sx = whole[k].successors[i];
            assert(sx == id + 1 + preorder_of(subs.subrange(0, i)).len());
            assert(whole[sx - id] == rest[preorder_of(subs.subrange(0, i)).len() as int]);
        } else {
            assert(whole[k] == rest[k - 1]);
            assert(rest[k - 1].successors[i] == whole[k].successors[i]);
            let sx = whole[k].successors[i];
            assert(whole[sx - id] == rest[sx - id - 1]);
        }
    }
}

/// In the structure of a tree, each successor of a node is a node of the
/// structure whose only predecessor is that node.
pub proof fn law_successors_link_back(t: TreeConstraints, id: nat, c: nat, pred: Option<usize>)
    requires
        id + preorder(t).len() <= usize::MAX + 1,
    ensures
        links_back(structure(t, id, c, pred), id),
{
    lemma_links(t, id, c, pred);
}

/// The structure of a whole circuit: its nodes numbered from 0, its
/// constraints numbered from 0, the classes of nodes that instantiate one
/// template instance, and the node whose constraints start at each index.
pub fn tree_structure(tree_constraints: &TreeConstraints) -> (res: (
    Vec<NodeInfo>,
    HashMap<usize, Vec<usize>>,
    BTreeMap<usize, String>,
))
    requires
        fits(*tree_constraints, 0, 0),
    ensures
        nodes_view(res.0@) == structure(*tree_constraints, 0, 0, None),
        classes_view(res.1@) == classes(Map::empty(), *tree_constraints, 0),
        res.2@ == starts(Map::empty(), *tree_constraints, 0),
{
    let mut init_constraint_to_node: BTreeMap<usize, String> = BTreeMap::new();
    let mut equivalence_nodes: HashMap<usize, Vec<usize>> = HashMap::new();
    let mut node_info: Vec<NodeInfo> = Vec::new();
    let mut init_c: usize = 0;
    let mut node_id: usize = 0;
    build_structure_nodes(
        tree_constraints,
        &mut node_id,
        &mut init_c,
        &mut node_info,
        &mut equivalence_nodes,
        &mut init_constraint_to_node,
        None,
    );
    proof {
        assert(classes_view(Map::<usize, Vec<usize>>::empty()) =~= Map::<usize, Seq<usize>>::empty());
        assert(nodes_view(Seq::<NodeInfo>::empty()) =~= Seq::<NodeView>::empty());
        assert(nodes_view(node_info@) =~= structure(*tree_constraints, 0, 0, None));
    }
    (node_info, equivalence_nodes, init_constraint_to_node)
}

} // verus!
