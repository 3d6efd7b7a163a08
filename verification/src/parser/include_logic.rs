//! The graph of includes between the files of a program: which file
//! includes which, which ones use custom templates and which ones declare
//! the custom templates pragma; the paths of includes from a file that uses
//! custom templates to one that does not declare the pragma.

use vstd::prelude::*;
use vstd::string::StrSliceExecFns;
use crate::constraint_generation::assignment_utils::NameMap;
use crate::dag::last_index_of;

verus! {

/// A file of the program: its path and whether it declares the custom
/// templates pragma.
pub struct IncludesNode {
    pub path: String,
    pub custom_gates_pragma: bool,
}

/// The files of a program in the order they were read, the files that each
/// path includes, and the files that use custom templates.
pub struct IncludesGraph {
    nodes: Vec<IncludesNode>,
    adjacency: NameMap<Vec<usize>>,
    custom_gates_nodes: Vec<usize>,
}

/// An includes graph taken by value.
pub struct IncludesGraphView {
    pub nodes: Seq<(Seq<char>, bool)>,
    pub adjacency: Map<Seq<char>, Seq<usize>>,
    pub custom_gates_nodes: Seq<usize>,
}

/// Every number in the graph names a file of it.
pub open spec fn graph_wf(g: IncludesGraphView) -> bool {
    &&& forall|k: Seq<char>, i: int|
        #![trigger g.adjacency[k][i]]
        g.adjacency.contains_key(k) && 0 <= i < g.adjacency[k].len() ==> g.adjacency[k][i] < g.nodes.len()
    &&& forall|i: int| 0 <= i < g.custom_gates_nodes.len() ==> #[trigger] g.custom_gates_nodes[i] < g.nodes.len()
}

impl View for IncludesGraph {
    type V = IncludesGraphView;

    closed spec fn view(&self) -> IncludesGraphView {
        IncludesGraphView {
            nodes: self.nodes@.map_values(|n: IncludesNode| (n.path@, n.custom_gates_pragma)),
            adjacency: self.adjacency@,
            custom_gates_nodes: self.custom_gates_nodes@,
        }
    }
}

/// The files that the file `from` includes.
pub open spec fn includes_of(g: IncludesGraphView, from: int) -> Seq<usize> {
    if g.adjacency.contains_key(g.nodes[from].0) {
        g.adjacency[g.nodes[from].0]
    } else {
        Seq::empty()
    }
}

/// The paths of includes from the file `from`, reached along `path`
/// without `traversed`: `path` with `from` when `from` lacks the pragma,
/// then those along each include of `from` not taken yet. Taking an include
/// adds it to `traversed`; an include to no file, or more includes than the
/// graph can hold, ends a path (neither happens in a graph of this
/// library).
pub open spec fn traverse_spec(
    g: IncludesGraphView,
    from: nat,
    path: Seq<Seq<char>>,
    traversed: Seq<(usize, usize)>,
) -> Seq<Seq<Seq<char>>>
    decreases g.nodes.len() * g.nodes.len() - traversed.len(), 1int, 0int,
{
    let new_path = path.push(g.nodes[from as int].0);
    (if !g.nodes[from as int].1 {
        seq![new_path]
    } else {
        Seq::empty()
    }) + branches_spec(g, from, new_path, traversed, includes_of(g, from as int).len())
}

/// The paths along the first `k` includes of the file `from`.
pub open spec fn branches_spec(
    g: IncludesGraphView,
    from: nat,
    new_path: Seq<Seq<char>>,
    traversed: Seq<(usize, usize)>,
    k: nat,
) -> Seq<Seq<Seq<char>>>
    decreases g.nodes.len() * g.nodes.len() - traversed.len(), 0int, k,
{
    if k == 0 {
        Seq::empty()
    } else {
        let before = branches_spec(g, from, new_path, traversed, (k - 1) as nat);
        let to = includes_of(g, from as int)[k - 1];
        let edge = (from as usize, to);
        if traversed.contains(edge) || to >= g.nodes.len() || traversed.len() >= g.nodes.len()
            * g.nodes.len() {
            before
        } else {
            before + traverse_spec(g, to as nat, new_path, traversed.push(edge))
        }
    }
}

/// The paths of includes from each file that uses custom templates, in
/// the order of those files.
pub open spec fn problematic_spec(g: IncludesGraphView, k: nat) -> Seq<Seq<Seq<char>>>
    decreases k,
{
    if k == 0 {
        Seq::empty()
    } else {
        problematic_spec(g, (k - 1) as nat) + traverse_spec(
            g,
            g.custom_gates_nodes[k - 1] as nat,
            Seq::empty(),
            Seq::empty(),
        )
    }
}

/// A list of paths taken by value.
pub open spec fn paths_view(paths: Seq<Vec<String>>) -> Seq<Seq<Seq<char>>> {
    paths.map_values(|p: Vec<String>| p@.map_values(|s: String| s@))
}

/// The includes taken are distinct and go between files of a graph of `n`
/// files.
pub open spec fn traversed_valid(n: nat, traversed: Seq<(usize, usize)>) -> bool {
    &&& traversed.no_duplicates()
    &&& forall|i: int| 0 <= i < traversed.len() ==> (#[trigger] traversed[i]).0 < n && traversed[i].1 < n
}

proof fn lemma_code_bound(n: nat, f: nat, t: nat)
    requires
        f < n,
        t < n,
    ensures
        0 <= f * n + t < n * n,
{
    assert(f * n + t < n * n) by (nonlinear_arith)
        requires
            f < n,
            t < n,
    ;
}

proof fn lemma_traversed_bound(n: nat, traversed: Seq<(usize, usize)>)
    requires
        traversed_valid(n, traversed),
    ensures
        traversed.len() <= n * n,
{
    let codes = traversed.map_values(|e: (usize, usize)| (e.0 * n + e.1) as int);
    assert forall|i: int| 0 <= i < codes.len() implies 0 <= #[trigger] codes[i] < n * n by {
        lemma_code_bound(n, traversed[i].0 as nat, traversed[i].1 as nat);
    }
    assert(codes.no_duplicates()) by {
        assert forall|i: int, j: int| 0 <= i < codes.len() && 0 <= j < codes.len() && i != j implies codes[i]
            != codes[j] by {
            if codes[i] == codes[j] {
                let (a, b) = (traversed[i], traversed[j]);
                vstd::arithmetic::div_mod::lemma_fundamental_div_mod_converse(
                    codes[i],
                    n as int,
                    a.0 as int,
                    a.1 as int,
                );
                vstd::arithmetic::div_mod::lemma_fundamental_div_mod_converse(
                    codes[j],
                    n as int,
                    b.0 as int,
                    b.1 as int,
                );
                assert(a == b);
            }
        }
    }
    codes.unique_seq_to_set();
    vstd::set_lib::lemma_int_range(0, (n * n) as int);
    assert(codes.to_set().subset_of(vstd::set_lib::set_int_range(0, (n * n) as int)));
    vstd::set_lib::lemma_len_subset(codes.to_set(), vstd::set_lib::set_int_range(0, (n * n) as int));
}

/// A copy of a path.
fn copy_path(p: &Vec<String>) -> (res: Vec<String>)
    ensures
        res@.map_values(|s: String| s@) == p@.map_values(|s: String| s@),
{
    let mut out: Vec<String> = Vec::new();
    let mut i: usize = 0;
    while i < p.len()
        invariant
            i <= p@.len(),
            out@.len() == i,
            forall|k: int| 0 <= k < i ==> (#[trigger] out@[k])@ == p@[k]@,
        decreases p@.len() - i,
    {
        let c = p[i].clone();
        out.push(c);
        i = i + 1;
    }
    proof {
        assert(out@.map_values(|s: String| s@) =~= p@.map_values(|s: String| s@));
    }
    out
}

/// Whether `edge` was taken.
fn taken(traversed: &Vec<(usize, usize)>, edge: (usize, usize)) -> (res: bool)
    ensures
        res == traversed@.contains(edge),
{
    let mut i: usize = 0;
    while i < traversed.len()
        invariant
            i <= traversed@.len(),
            forall|j: int| 0 <= j < i ==> traversed@[j] != edge,
        decreases traversed@.len() - i,
    {
        if traversed[i].0 == edge.0 && traversed[i].1 == edge.1 {
            proof {
                assert(traversed@[i as int] == edge);
            }
            return true;
        }
        i = i + 1;
    }
    false
}

/// `traversed` with `edge` after it.
fn with_edge(traversed: &Vec<(usize, usize)>, edge: (usize, usize)) -> (res: Vec<(usize, usize)>)
    ensures
        res@ == traversed@.push(edge),
{
    let mut out: Vec<(usize, usize)> = Vec::new();
    let mut i: usize = 0;
    while i < traversed.len()
        invariant
            i <= traversed@.len(),
            out@ == traversed@.subrange(0, i as int),
        decreases traversed@.len() - i,
    {
        out.push(traversed[i]);
        i = i + 1;
        proof {
            assert(out@ =~= traversed@.subrange(0, i as int));
        }
    }
    out.push(edge);
    proof {
        assert(out@ =~= traversed@.push(edge));
    }
    out
}

impl IncludesGraph {
    /// A graph without files.
    pub fn new() -> (res: IncludesGraph)
        ensures
            graph_wf(res@),
            res@.nodes.len() == 0,
            res@.adjacency == Map::<Seq<char>, Seq<usize>>::empty(),
            res@.custom_gates_nodes.len() == 0,
    {
        let res = IncludesGraph { nodes: Vec::new(), adjacency: NameMap::new(), custom_gates_nodes: Vec::new() };
        proof {
            assert(res@.nodes =~= Seq::<(Seq<char>, bool)>::empty());
        }
        res
    }

    /// Adds the file `path`, which declares the pragma or not and uses
    /// custom templates or not.
    pub fn add_node(&mut self, path: String, custom_gates_pragma: bool, custom_gates_usage: bool)
        requires
            graph_wf(old(self)@),
        ensures
            graph_wf(final(self)@),
            final(self)@.nodes == old(self)@.nodes.push((path@, custom_gates_pragma)),
            final(self)@.adjacency == old(self)@.adjacency,
            final(self)@.custom_gates_nodes == if custom_gates_usage {
                old(self)@.custom_gates_nodes.push(old(self)@.nodes.len() as usize)
            } else {
                old(self)@.custom_gates_nodes
            },
    {
        self.nodes.push(IncludesNode { path, custom_gates_pragma });
        proof {
            assert(self@.nodes =~= old(self)@.nodes.push((path@, custom_gates_pragma)));
        }
        if custom_gates_usage {
            let index = self.nodes.len() - 1;
            self.custom_gates_nodes.push(index);
        }
        proof {
            let (g0, g1) = (old(self)@, self@);
            assert(g1.adjacency == g0.adjacency);
            assert forall|k: Seq<char>, i: int|
                g1.adjacency.contains_key(k) && 0 <= i < g1.adjacency[k].len() implies #[trigger] g1.adjacency[k][i]
                < g1.nodes.len() by {
                assert(g0.adjacency[k][i] < g0.nodes.len());
            }
            assert forall|i: int| 0 <= i < g1.custom_gates_nodes.len() implies #[trigger] g1.custom_gates_nodes[i]
                < g1.nodes.len() by {
                if i < g0.custom_gates_nodes.len() {
                    assert(g1.custom_gates_nodes[i] == g0.custom_gates_nodes[i]);
                }
            }
        }
    }

    /// Records that the file `old_path` includes the last file added.
    pub fn add_edge(&mut self, old_path: String)
        requires
            graph_wf(old(self)@),
            old(self)@.nodes.len() > 0,
        ensures
            graph_wf(final(self)@),
            final(self)@.nodes == old(self)@.nodes,
            final(self)@.custom_gates_nodes == old(self)@.custom_gates_nodes,
            final(self)@.adjacency == old(self)@.adjacency.insert(
                old_path@,
                (if old(self)@.adjacency.contains_key(old_path@) {
                    old(self)@.adjacency[old_path@]
                } else {
                    Seq::empty()
                }).push((old(self)@.nodes.len() - 1) as usize),
            ),
    {
        let last = self.nodes.len() - 1;
        let mut edges: Vec<usize> = match self.adjacency.get(&old_path) {
            Some(v) => {
                let mut copy: Vec<usize> = Vec::new();
                let mut i: usize = 0;
                while i < v.len()
                    invariant
                        i <= v@.len(),
                        copy@ == v@.subrange(0, i as int),
                    decreases v@.len() - i,
                {
                    copy.push(v[i]);
                    i = i + 1;
                    proof {
                        assert(copy@ =~= v@.subrange(0, i as int));
                    }
                }
                proof {
                    assert(copy@ =~= v@);
                    assert(v.deep_view() =~= v@);
                }
                copy
            },
            None => Vec::new(),
        };
        edges.push(last);
        proof {
            assert(edges.deep_view() =~= edges@);
            assert(edges@ =~= (if old(self)@.adjacency.contains_key(old_path@) {
                old(self)@.adjacency[old_path@]
            } else {
                Seq::<usize>::empty()
            }).push(last));
        }
        let ghost key = old_path@;
        self.adjacency.insert(old_path, edges);
        proof {
            let (g0, g1) = (old(self)@, self@);
            assert forall|k: Seq<char>, i: int|
                g1.adjacency.contains_key(k) && 0 <= i < g1.adjacency[k].len() implies #[trigger] g1.adjacency[k][i]
                < g1.nodes.len() by {
                if k != key {
                    assert(g0.adjacency[k][i] < g0.nodes.len());
                } else if i + 1 < g1.adjacency[k].len() {
                    assert(g0.adjacency.contains_key(k));
                    assert(g1.adjacency[k][i] == g0.adjacency[k][i]);
                    assert(g0.adjacency[k][i] < g0.nodes.len());
                }
            }
            assert(g1.nodes == g0.nodes);
            assert(g1.custom_gates_nodes == g0.custom_gates_nodes);
            assert forall|i: int| 0 <= i < g1.custom_gates_nodes.len() implies #[trigger] g1.custom_gates_nodes[i]
                < g1.nodes.len() by {
                assert(g0.custom_gates_nodes[i] < g0.nodes.len());
            }
        }
    }

    fn traverse(&self, from: usize, path: Vec<String>, traversed_edges: Vec<(usize, usize)>) -> (res: Vec<
        Vec<String>,
    >)
        requires
            graph_wf(self@),
            from < self@.nodes.len(),
            traversed_valid(self@.nodes.len(), traversed_edges@),
        ensures
            paths_view(res@) == traverse_spec(
                self@,
                from as nat,
                path@.map_values(|s: String| s@),
                traversed_edges@,
            ),
        decreases self@.nodes.len() * self@.nodes.len() - traversed_edges@.len(),
    {
        proof {
            lemma_traversed_bound(self@.nodes.len(), traversed_edges@);
        }
        let ghost g = self@;
        let ghost n = self@.nodes.len();
        let mut problematic_paths: Vec<Vec<String>> = Vec::new();
        let node = &self.nodes[from];
        let mut new_path = copy_path(&path);
        new_path.push(node.path.clone());
        let ghost np = new_path@.map_values(|s: String| s@);
        proof {
            assert(g.nodes[from as int] == (node.path@, node.custom_gates_pragma));
            assert(np =~= path@.map_values(|s: String| s@).push(g.nodes[from as int].0));
        }
        if !node.custom_gates_pragma {
            problematic_paths.push(copy_path(&new_path));
        }
        let ghost head = paths_view(problematic_paths@);
        proof {
            assert(head =~= (if !g.nodes[from as int].1 {
                seq![np]
            } else {
                Seq::<Seq<Seq<char>>>::empty()
            }));
        }
        let empty: Vec<usize> = Vec::new();
        let edges: &Vec<usize> = match self.adjacency.get(&node.path) {
            Some(v) => v,
            None => &empty,
        };
        proof {
            assert(edges@ == includes_of(g, from as int));
        }
        let mut k: usize = 0;
        while k < edges.len()
            invariant
                k <= edges@.len(),
                edges@ == includes_of(g, from as int),
                g == self@,
                n == g.nodes.len(),
                graph_wf(g),
                from < n,
                traversed_valid(n, traversed_edges@),
                traversed_edges@.len() <= n * n,
                new_path@.map_values(|s: String| s@) == np,
                paths_view(problematic_paths@) == head + branches_spec(g, from as nat, np, traversed_edges@, k as nat),
            decreases edges@.len() - k,
        {
            let to = edges[k];
            let edge = (from, to);
            let ghost before = paths_view(problematic_paths@);
            proof {
                assert(g.adjacency.contains_key(g.nodes[from as int].0));
                assert(to < n);
            }
            if !taken(&traversed_edges, edge) {
                let new_traversed = with_edge(&traversed_edges, edge);
                proof {
                    assert(traversed_valid(n, new_traversed@)) by {
                        let m = traversed_edges@.len() as int;
                        assert(!traversed_edges@.contains(edge));
                        assert forall|i: int, j: int|
                            0 <= i < new_traversed@.len() && 0 <= j < new_traversed@.len() && i != j implies new_traversed@[i]
                            != new_traversed@[j] by {
                            if i < m && j < m {
                                assert(new_traversed@[i] == traversed_edges@[i]);
                                assert(new_traversed@[j] == traversed_edges@[j]);
                            } else if i == m {
                                assert(new_traversed@[j] == traversed_edges@[j]);
                                if traversed_edges@[j] == edge {
                                    assert(traversed_edges@.contains(edge));
                                }
                            } else {
                                assert(new_traversed@[i] == traversed_edges@[i]);
                                if traversed_edges@[i] == edge {
                                    assert(traversed_edges@.contains(edge));
                                }
                            }
                        }
                        assert forall|i: int| 0 <= i < new_traversed@.len() implies (#[trigger] new_traversed@[i]).0 < n
                            && new_traversed@[i].1 < n by {
                            if i < m {
                                assert(new_traversed@[i] == traversed_edges@[i]);
                            }
                        }
                    }
                    lemma_traversed_bound(n, new_traversed@);
                }
                let mut sub = self.traverse(to, copy_path(&new_path), new_traversed);
                let ghost subv = paths_view(sub@);
                problematic_paths.append(&mut sub);
                proof {
                    assert(paths_view(problematic_paths@) =~= before + subv);
                }
            }
            k = k + 1;
            proof {
                assert(paths_view(problematic_paths@) =~= head + branches_spec(
                    g,
                    from as nat,
                    np,
                    traversed_edges@,
                    k as nat,
                ));
            }
        }
        problematic_paths
    }

    /// The paths of includes from each file that uses custom templates to
    /// each file, along them, that does not declare the pragma.
    pub fn get_problematic_paths(&self) -> (res: Vec<Vec<String>>)
        requires
            graph_wf(self@),
        ensures
            paths_view(res@) == problematic_spec(self@, self@.custom_gates_nodes.len()),
    {
        let mut problematic_paths: Vec<Vec<String>> = Vec::new();
        let mut i: usize = 0;
        proof {
            assert(paths_view(problematic_paths@) =~= problematic_spec(self@, 0));
        }
        while i < self.custom_gates_nodes.len()
            invariant
                i <= self@.custom_gates_nodes.len(),
                graph_wf(self@),
                paths_view(problematic_paths@) == problematic_spec(self@, i as nat),
            decreases self@.custom_gates_nodes.len() - i,
        {
            let from = self.custom_gates_nodes[i];
            proof {
                assert(from == self@.custom_gates_nodes[i as int]);
                assert(traversed_valid(self@.nodes.len(), Seq::<(usize, usize)>::empty()));
            }
            let ghost before = paths_view(problematic_paths@);
            let start: Vec<String> = Vec::new();
            proof {
                assert(start@.map_values(|s: String| s@) =~= Seq::<Seq<char>>::empty());
            }
            let mut found = self.traverse(from, start, Vec::new());
            let ghost fv = paths_view(found@);
            problematic_paths.append(&mut found);
            i = i + 1;
            proof {
                assert(paths_view(problematic_paths@) =~= before + fv);
            }
        }
        problematic_paths
    }
}

/// What a path shows of a file: its name, after the last `/`.
pub open spec fn file_name(p: Seq<char>) -> Seq<char> {
    match last_index_of(p, '/') {
        Some(i) => p.subrange(i + 1, p.len() as int),
        None => p,
    }
}

/// A path of includes as text: the names of its files joined by ` -> `.
pub open spec fn display_spec(ps: Seq<Seq<char>>) -> Seq<char>
    decreases ps.len(),
{
    if ps.len() == 0 {
        Seq::empty()
    } else if ps.len() == 1 {
        file_name(ps[0])
    } else {
        display_spec(ps.drop_last()) + " -> "@ + file_name(ps.last())
    }
}

fn push_file_name(res: &mut String, file: &String)
    ensures
        final(res)@ == old(res)@ + file_name(file@),
{
    let n = file.unicode_len();
    let mut end: usize = n;
    proof {
        assert(file@.subrange(0, n as int) =~= file@);
    }
    while end > 0 && file.as_str().get_char(end - 1) != '/'
        invariant
            end <= n,
            n == file@.len(),
            last_index_of(file@.subrange(0, end as int), '/') == last_index_of(file@, '/'),
        decreases end,
    {
        proof {
            let s = file@.subrange(0, end as int);
            assert(s.drop_last() =~= file@.subrange(0, end - 1));
        }
        end = end - 1;
    }
    if end == 0 {
        proof {
            assert(file@.subrange(0, 0) =~= Seq::<char>::empty());
        }
        res.append(file.as_str());
    } else {
        proof {
            let s = file@.subrange(0, end as int);
            assert(s.last() == '/');
        }
        res.append(file.as_str().substring_char(end, n));
    }
}

impl IncludesGraph {
    /// The names of the files of a path, joined by ` -> `.
    pub fn display_path(path: &Vec<String>) -> (res: String)
        ensures
            res@ == display_spec(path@.map_values(|s: String| s@)),
    {
        let mut res = String::new();
        let mut i: usize = 0;
        let ghost ps = path@.map_values(|s: String| s@);
        while i < path.len()
            invariant
                i <= path@.len(),
                ps == path@.map_values(|s: String| s@),
                res@ == display_spec(ps.subrange(0, i as int)),
            decreases path@.len() - i,
        {
            proof {
                let next = ps.subrange(0, i + 1);
                assert(next.drop_last() =~= ps.subrange(0, i as int));
                assert(next.last() == path@[i as int]@);
                if i == 0 {
                    assert(next[0] == path@[0]@);
                }
            }
            if i > 0 {
                res.append(" -> ");
            }
            push_file_name(&mut res, &path[i]);
            i = i + 1;
        }
        proof {
            assert(ps.subrange(0, path@.len() as int) =~= ps);
        }
        res
    }
}

/// The files `ws` follow includes of the graph, one to the next.
pub open spec fn is_walk(g: IncludesGraphView, ws: Seq<nat>) -> bool {
    &&& forall|k: int| 0 <= k < ws.len() ==> #[trigger] ws[k] < g.nodes.len()
    &&& forall|k: int|
        0 <= k < ws.len() - 1 ==> includes_of(g, #[trigger] ws[k] as int).contains(ws[k + 1] as usize)
}

/// The paths of the files `ws`.
pub open spec fn walk_paths(g: IncludesGraphView, ws: Seq<nat>) -> Seq<Seq<char>> {
    Seq::new(ws.len(), |k: int| g.nodes[ws[k] as int].0)
}

/// `q` is `path` followed by the files of a walk from `from` to a file
/// that does not declare the pragma.
pub open spec fn walk_to_unmarked(g: IncludesGraphView, path: Seq<Seq<char>>, from: nat, q: Seq<Seq<char>>) -> bool {
    exists|ws: Seq<nat>|
        #[trigger] is_walk(g, ws) && ws.len() > 0 && ws[0] == from && q == path + walk_paths(g, ws) && !g.nodes[ws.last() as int].1
}

proof fn lemma_extend_walk(g: IncludesGraphView, path: Seq<Seq<char>>, from: nat, to: nat, q: Seq<Seq<char>>)
    requires
        from < g.nodes.len(),
        includes_of(g, from as int).contains(to as usize),
        walk_to_unmarked(g, path.push(g.nodes[from as int].0), to, q),
    ensures
        walk_to_unmarked(g, path, from, q),
{
    let ws2 = choose|ws: Seq<nat>|
        #[trigger] is_walk(g, ws) && ws.len() > 0 && ws[0] == to && q == path.push(g.nodes[from as int].0) + walk_paths(
            g,
            ws,
        ) && !g.nodes[ws.last() as int].1;
    let ws = seq![from] + ws2;
    assert(is_walk(g, ws)) by {
        assert forall|k: int| 0 <= k < ws.len() implies #[trigger] ws[k] < g.nodes.len() by {
            if k > 0 {
                assert(ws[k] == ws2[k - 1]);
            }
        }
        assert forall|k: int| 0 <= k < ws.len() - 1 implies includes_of(g, #[trigger] ws[k] as int).contains(
            ws[k + 1] as usize,
        ) by {
            if k > 0 {
                assert(ws[k] == ws2[k - 1]);
                assert(ws[k + 1] == ws2[k]);
            } else {
                assert(ws[0] == from);
                assert(ws[1] == ws2[0]);
                assert(ws2[0] == to);
            }
        }
    }
    assert(ws.last() == ws2.last());
    assert(path + walk_paths(g, ws) =~= path.push(g.nodes[from as int].0) + walk_paths(g, ws2));
}

proof fn lemma_traverse_walks(
    g: IncludesGraphView,
    from: nat,
    path: Seq<Seq<char>>,
    traversed: Seq<(usize, usize)>,
)
    requires
        from < g.nodes.len(),
    ensures
        forall|i: int|
            0 <= i < traverse_spec(g, from, path, traversed).len() ==> walk_to_unmarked(
                g,
                path,
                from,
                #[trigger] traverse_spec(g, from, path, traversed)[i],
            ),
    decreases g.nodes.len() * g.nodes.len() - traversed.len(), 1int, 0int,
{
    let new_path = path.push(g.nodes[from as int].0);
    let head = if !g.nodes[from as int].1 {
        seq![new_path]
    } else {
        Seq::empty()
    };
    let k = includes_of(g, from as int).len();
    assert(new_path.drop_last() =~= path);
    lemma_branches_walks(g, from, new_path, traversed, k);
    let all = traverse_spec(g, from, path, traversed);
    assert(all == head + branches_spec(g, from, new_path, traversed, k));
    assert forall|i: int| 0 <= i < all.len() implies walk_to_unmarked(g, path, from, #[trigger] all[i]) by {
        if i < head.len() {
            let ws = seq![from];
            assert(is_walk(g, ws));
            assert(path + walk_paths(g, ws) =~= new_path);
            assert(all[i] == new_path);
            assert(ws.last() == from);
            assert(is_walk(g, ws) && ws.len() > 0 && ws[0] == from && all[i] == path + walk_paths(g, ws)
                && !g.nodes[ws.last() as int].1);
        } else {
            let b = branches_spec(g, from, new_path, traversed, k);
            assert(all[i] == b[i - head.len()]);
        }
    }
}

proof fn lemma_branches_walks(
    g: IncludesGraphView,
    from: nat,
    new_path: Seq<Seq<char>>,
    traversed: Seq<(usize, usize)>,
    k: nat,
)
    requires
        from < g.nodes.len(),
        new_path.len() > 0,
        new_path.last() == g.nodes[from as int].0,
        k <= includes_of(g, from as int).len(),
    ensures
        forall|i: int|
            0 <= i < branches_spec(g, from, new_path, traversed, k).len() ==> walk_to_unmarked(
                g,
                new_path.drop_last(),
                from,
                #[trigger] branches_spec(g, from, new_path, traversed, k)[i],
            ),
    decreases g.nodes.len() * g.nodes.len() - traversed.len(), 0int, k,
{
    if k > 0 {
        lemma_branches_walks(g, from, new_path, traversed, (k - 1) as nat);
        let before = branches_spec(g, from, new_path, traversed, (k - 1) as nat);
        let to = includes_of(g, from as int)[k - 1];
        let edge = (from as usize, to);
        let all = branches_spec(g, from, new_path, traversed, k);
        let path = new_path.drop_last();
        assert(new_path == path.push(g.nodes[from as int].0));
        if traversed.contains(edge) || to >= g.nodes.len() || traversed.len() >= g.nodes.len() * g.nodes.len() {
            assert(all == before);
        } else {
            let rest = traverse_spec(g, to as nat, new_path, traversed.push(edge));
            lemma_traverse_walks(g, to as nat, new_path, traversed.push(edge));
            assert(all == before + rest);
            assert(includes_of(g, from as int).contains(to));
            assert forall|i: int| 0 <= i < all.len() implies walk_to_unmarked(g, path, from, #[trigger] all[i]) by {
                if i < before.len() {
                    assert(all[i] == before[i]);
                } else {
                    assert(all[i] == rest[i - before.len()]);
                    lemma_extend_walk(g, path, from, to as nat, all[i]);
                }
            }
        }
    }
}

proof fn lemma_problematic_walks(g: IncludesGraphView, k: nat)
    requires
        graph_wf(g),
        k <= g.custom_gates_nodes.len(),
    ensures
        forall|i: int|
            0 <= i < problematic_spec(g, k).len() ==> exists|c: int|
                0 <= c < g.custom_gates_nodes.len() && walk_to_unmarked(
                    g,
                    Seq::empty(),
                    g.custom_gates_nodes[c] as nat,
                    #[trigger] problematic_spec(g, k)[i],
                ),
    decreases k,
{
    if k > 0 {
        lemma_problematic_walks(g, (k - 1) as nat);
        let c = k - 1;
        let from = g.custom_gates_nodes[c as int];
        lemma_traverse_walks(g, from as nat, Seq::empty(), Seq::empty());
        let before = problematic_spec(g, (k - 1) as nat);
        let rest = traverse_spec(g, from as nat, Seq::empty(), Seq::empty());
        let all = problematic_spec(g, k);
        assert forall|i: int| 0 <= i < all.len() implies exists|c: int|
            0 <= c < g.custom_gates_nodes.len() && walk_to_unmarked(
                g,
                Seq::empty(),
                g.custom_gates_nodes[c] as nat,
                #[trigger] all[i],
            ) by {
            if i < before.len() {
                assert(all[i] == before[i]);
            } else {
                assert(all[i] == rest[i - before.len()]);
                assert(walk_to_unmarked(g, Seq::empty(), g.custom_gates_nodes[c as int] as nat, all[i]));
            }
        }
    }
}

/// Each problematic path starts at a file that uses custom templates,
/// follows includes of the graph from file to file and ends at a file that
/// does not declare the custom templates pragma.
pub proof fn law_problematic_paths_are_walks(g: IncludesGraphView)
    requires
        graph_wf(g),
    ensures
        forall|i: int|
            0 <= i < problematic_spec(g, g.custom_gates_nodes.len()).len() ==> exists|c: int|
                0 <= c < g.custom_gates_nodes.len() && walk_to_unmarked(
                    g,
                    Seq::empty(),
                    g.custom_gates_nodes[c] as nat,
                    #[trigger] problematic_spec(g, g.custom_gates_nodes.len())[i],
                ),
{
    lemma_problematic_walks(g, g.custom_gates_nodes.len());
}

} // verus!
