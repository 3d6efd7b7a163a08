//! The constraint list after simplification: signals of the witness,
//! renumbered so that the signals kept take the first positions.

use vstd::prelude::*;
use std::collections::{HashMap, HashSet, VecDeque};
use vstd::std_specs::hash::spec_keys_iter;
use vstd::std_specs::iter::IteratorSpec;

pub mod r1cs_porting;
pub mod json_porting;

verus! {

/// A signal of a node: its name and its number.
pub struct SignalInfo {
    pub name: String,
    pub id: usize,
}

/// A node of the encoding of the DAG: its number, the name of its template
/// instance, its parameters (little-endian bytes), its signals, and whether
/// it is a custom template.
pub struct EncodingNode {
    pub id: usize,
    pub name: String,
    pub parameters: Vec<Vec<u8>>,
    pub signals: Vec<SignalInfo>,
    pub ordered_signals: Vec<usize>,
    pub is_custom_gate: bool,
}

/// An edge of the encoding of the DAG: the node it goes to, the path of the
/// subcomponent and where its signals start.
pub struct EncodingEdge {
    pub goes_to: usize,
    pub path: String,
    pub offset: usize,
}

/// A signal as an iteration over the encoding reports it: its name, its
/// number before simplification and its position in the witness.
pub struct IteratorSignal {
    pub name: String,
    pub original: usize,
    pub witness: usize,
}

impl IteratorSignal {
    /// The position of the signal in the witness is what `map` gives it; a
    /// signal that `map` does not hold, one that simplification removed,
    /// gets the number of signals the map holds.
    pub fn new(signal: SignalInfo, map: &HashMap<usize, usize>) -> (res: IteratorSignal)
        ensures
            res.name@ == signal.name@,
            res.original == signal.id,
            res.witness == if map@.dom().contains(signal.id) {
                map@[signal.id]
            } else {
                map@.len() as usize
            },
    {
        broadcast use vstd::std_specs::hash::group_hash_axioms;
        let original = signal.id;
        let name = signal.name;
        let witness = match map.get(&original) {
            Some(s) => *s,
            None => map.len(),
        };
        IteratorSignal { original, name, witness }
    }
}

/// The signal numbered `s` is kept: it was not deleted and, when unused
/// signals are removed, it is forbidden or takes part in a non-linear
/// constraint.
pub open spec fn kept(
    s: usize,
    deleted: Set<usize>,
    forbidden: Set<usize>,
    non_linear: Set<usize>,
    remove_unused: bool,
) -> bool {
    !deleted.contains(s) && !(remove_unused && !forbidden.contains(s) && !non_linear.contains(s))
}

/// How many of the signals below `s` are kept.
pub open spec fn kept_before(
    s: nat,
    deleted: Set<usize>,
    forbidden: Set<usize>,
    non_linear: Set<usize>,
    remove_unused: bool,
) -> nat
    decreases s,
{
    if s == 0 {
        0
    } else {
        kept_before((s - 1) as nat, deleted, forbidden, non_linear, remove_unused) + if kept(
            (s - 1) as usize,
            deleted,
            forbidden,
            non_linear,
            remove_unused,
        ) {
            1nat
        } else {
            0nat
        }
    }
}

proof fn lemma_kept_before_le(
    s: nat,
    deleted: Set<usize>,
    forbidden: Set<usize>,
    non_linear: Set<usize>,
    remove_unused: bool,
)
    ensures
        kept_before(s, deleted, forbidden, non_linear, remove_unused) <= s,
    decreases s,
{
    if s > 0 {
        lemma_kept_before_le((s - 1) as nat, deleted, forbidden, non_linear, remove_unused);
    }
}

/// Renumbers the signals below `max_signal` so that the ones kept take the
/// first positions, in their order: each kept signal goes to the number of
/// kept signals before it. Signals that are not kept are added to
/// `deleted`. The positions freed wait in a queue, first freed first taken.
pub fn rebuild_witness(
    max_signal: usize,
    deleted: &mut HashSet<usize>,
    forbidden: &HashSet<usize>,
    non_linear_map: HashMap<usize, Vec<usize>>,
    remove_unused: bool,
) -> (map: HashMap<usize, usize>)
    ensures
        forall|s: usize|
            #[trigger] map@.dom().contains(s) <==> s < max_signal && kept(
                s,
                old(deleted)@,
                forbidden@,
                non_linear_map@.dom(),
                remove_unused,
            ),
        forall|s: usize|
            #[trigger] map@.dom().contains(s) ==> map@[s] == kept_before(
                s as nat,
                old(deleted)@,
                forbidden@,
                non_linear_map@.dom(),
                remove_unused,
            ),
        forall|s: usize|
            #[trigger] final(deleted)@.contains(s) <==> old(deleted)@.contains(s) || (s < max_signal && !kept(
                s,
                old(deleted)@,
                forbidden@,
                non_linear_map@.dom(),
                remove_unused,
            )),
        map@.len() == kept_before(max_signal as nat, old(deleted)@, forbidden@, non_linear_map@.dom(), remove_unused),
{
    broadcast use vstd::std_specs::hash::group_hash_axioms;
    let ghost d0 = deleted@;
    let ghost nl = non_linear_map@.dom();
    let mut map: HashMap<usize, usize> = HashMap::new();
    let mut free: VecDeque<usize> = VecDeque::new();
    let mut signal: usize = 0;
    let ghost mut k: nat = 0;
    while signal < max_signal
        invariant
            signal <= max_signal,
            k == kept_before(signal as nat, d0, forbidden@, nl, remove_unused),
            k <= signal,
            map@.len() == k,
            free@ == Seq::new((signal - k) as nat, |j: int| (k + j) as usize),
            forall|s: usize|
                #[trigger] map@.dom().contains(s) <==> s < signal && kept(s, d0, forbidden@, nl, remove_unused),
            forall|s: usize|
                #[trigger] map@.dom().contains(s) ==> map@[s] == kept_before(
                    s as nat,
                    d0,
                    forbidden@,
                    nl,
                    remove_unused,
                ),
            forall|s: usize|
                #[trigger] deleted@.contains(s) <==> d0.contains(s) || (s < signal && !kept(
                    s,
                    d0,
                    forbidden@,
                    nl,
                    remove_unused,
                )),
            nl == non_linear_map@.dom(),
        decreases max_signal - signal,
    {
        let ghost before_free = free@;
        if deleted.contains(&signal) {
            free.push_back(signal);
            proof {
                assert(d0.contains(signal));
                assert(free@ =~= Seq::new((signal + 1 - k) as nat, |j: int| (k + j) as usize));
            }
        } else if remove_unused && !forbidden.contains(&signal) && !non_linear_map.contains_key(&signal) {
            deleted.insert(signal);
            free.push_back(signal);
            proof {
                assert(free@ =~= Seq::new((signal + 1 - k) as nat, |j: int| (k + j) as usize));
            }
        } else if let Some(new_pos) = free.pop_front() {
            proof {
                assert(new_pos == k);
            }
            map.insert(signal, new_pos);
            free.push_back(signal);
            proof {
                assert(free@ =~= Seq::new((signal + 1 - (k + 1)) as nat, |j: int| (k + 1 + j) as usize));
                k = k + 1;
            }
        } else {
            proof {
                assert(k == signal);
            }
            map.insert(signal, signal);
            proof {
                assert(free@ =~= Seq::new((signal + 1 - (k + 1)) as nat, |j: int| (k + 1 + j) as usize));
                k = k + 1;
            }
        }
        signal = signal + 1;
    }
    map
}

/// The signals of a node as the witness lists them: position `p` holds the
/// signal that `signal_map` sends to `p`.
pub fn get_witness_as_vec(signal_map: &HashMap<usize, usize>) -> (witness: Vec<usize>)
    requires
        forall|k: usize| #[trigger] signal_map@.dom().contains(k) ==> signal_map@[k] < signal_map@.len(),
    ensures
        witness@.len() == signal_map@.len(),
        forall|k: usize| #[trigger] signal_map@.dom().contains(k) ==> witness@[signal_map@[k] as int] == k
            || exists|k2: usize| signal_map@.dom().contains(k2) && k2 != k && signal_map@[k2] == signal_map@[k],
        forall|p: int|
            0 <= p < witness@.len() ==> #[trigger] witness@[p] == 0 || (signal_map@.dom().contains(witness@[p])
                && signal_map@[witness@[p]] == p),
{
    broadcast use vstd::std_specs::hash::group_hash_axioms;
    let n = signal_map.len();
    let mut witness: Vec<usize> = Vec::new();
    let mut i: usize = 0;
    while i < n
        invariant
            i <= n,
            witness@.len() == i,
            forall|p: int| 0 <= p < witness@.len() ==> #[trigger] witness@[p] == 0,
        decreases n - i,
    {
        witness.push(0);
        i = i + 1;
    }
    let ghost keys = spec_keys_iter(signal_map).remaining();
    for key in it: signal_map.keys()
        invariant
            keys == it.seq(),
            witness@.len() == n,
            n == signal_map@.len(),
            forall|k: usize| #[trigger] signal_map@.dom().contains(k) ==> signal_map@[k] < signal_map@.len(),
            forall|j: int|
                0 <= j < it.index() ==> witness@[signal_map@[*keys[j]] as int] == *keys[j] || exists|k2: usize|
                    signal_map@.dom().contains(k2) && k2 != *keys[j] && signal_map@[k2] == signal_map@[*keys[j]],
            keys.unref().to_set() == signal_map@.dom(),
            forall|p: int|
                0 <= p < witness@.len() ==> #[trigger] witness@[p] == 0 || (signal_map@.dom().contains(witness@[p])
                    && signal_map@[witness@[p]] == p),
    {
        let ghost idx = it.index();
        assert(signal_map@.dom().contains(*key)) by {
            assert(keys.unref()[idx] == *key);
            assert(keys.unref().contains(*key));
        }
        let value = *signal_map.get(key).unwrap();
        let ghost before = witness@;
        witness.set(value, *key);
        proof {
            assert forall|j: int|
                0 <= j < idx + 1 implies witness@[signal_map@[*keys[j]] as int] == *keys[j] || exists|k2: usize|
                signal_map@.dom().contains(k2) && k2 != *keys[j] && signal_map@[k2] == signal_map@[*keys[j]] by {
                if j < idx {
                    let kj = *keys[j];
                    assert(signal_map@.dom().contains(kj)) by {
                        assert(keys.unref()[j] == kj);
                        assert(keys.unref().contains(kj));
                    }
                    if signal_map@[kj] == value && kj != *key {
                    } else if signal_map@[kj] != value {
                        assert(witness@[signal_map@[kj] as int] == before[signal_map@[kj] as int]);
                    }
                }
            }
        }
    }
    proof {
        assert forall|k: usize| #[trigger] signal_map@.dom().contains(k) implies witness@[signal_map@[k] as int] == k
            || exists|k2: usize| signal_map@.dom().contains(k2) && k2 != k && signal_map@[k2] == signal_map@[k] by {
            assert(keys.unref().to_set().contains(k));
            let j = choose|j: int| 0 <= j < keys.unref().len() && keys.unref()[j] == k;
            assert(*keys[j] == k);
        }
    }
    witness
}

/// The renumbering keeps the order of the signals kept and packs them at
/// the start: of two kept signals below `max_signal`, the first gets the
/// smaller position, and every position is below the number of signals
/// kept.
pub proof fn law_witness_positions(
    max_signal: nat,
    deleted: Set<usize>,
    forbidden: Set<usize>,
    non_linear: Set<usize>,
    remove_unused: bool,
    s1: usize,
    s2: usize,
)
    requires
        s1 < s2 < max_signal,
        kept(s1, deleted, forbidden, non_linear, remove_unused),
        kept(s2, deleted, forbidden, non_linear, remove_unused),
    ensures
        kept_before(s1 as nat, deleted, forbidden, non_linear, remove_unused) < kept_before(
            s2 as nat,
            deleted,
            forbidden,
            non_linear,
            remove_unused,
        ),
        kept_before(s2 as nat, deleted, forbidden, non_linear, remove_unused) < kept_before(
            max_signal,
            deleted,
            forbidden,
            non_linear,
            remove_unused,
        ),
{
    lemma_kept_before_mono((s1 + 1) as nat, s2 as nat, deleted, forbidden, non_linear, remove_unused);
    lemma_kept_before_mono((s2 + 1) as nat, max_signal, deleted, forbidden, non_linear, remove_unused);
}

proof fn lemma_kept_before_mono(
    a: nat,
    b: nat,
    deleted: Set<usize>,
    forbidden: Set<usize>,
    non_linear: Set<usize>,
    remove_unused: bool,
)
    requires
        a <= b,
    ensures
        kept_before(a, deleted, forbidden, non_linear, remove_unused) <= kept_before(
            b,
            deleted,
            forbidden,
            non_linear,
            remove_unused,
        ),
    decreases b,
{
    if a < b {
        lemma_kept_before_mono(a, (b - 1) as nat, deleted, forbidden, non_linear, remove_unused);
    }
}

/// `map` with the constraint `id` added to the list of each of `signals`.
pub open spec fn add_signals(map: Map<usize, Seq<usize>>, id: usize, signals: Seq<usize>) -> Map<usize, Seq<usize>>
    decreases signals.len(),
{
    if signals.len() == 0 {
        map
    } else {
        let m = add_signals(map, id, signals.drop_last());
        let s = signals.last();
        m.insert(s, if m.dom().contains(s) { m[s].push(id) } else { seq![id] })
    }
}

/// For each signal, the constraints it takes part in, in the order of the
/// constraints.
pub open spec fn signal_to_constraints(constraints: Seq<(usize, Seq<usize>)>) -> Map<usize, Seq<usize>>
    decreases constraints.len(),
{
    if constraints.len() == 0 {
        Map::empty()
    } else {
        add_signals(signal_to_constraints(constraints.drop_last()), constraints.last().0, constraints.last().1)
    }
}

/// A map from signals to lists of constraints, taken by value.
pub open spec fn lists_view(m: Map<usize, Vec<usize>>) -> Map<usize, Seq<usize>> {
    m.map_values(|v: Vec<usize>| v@)
}

/// For each signal of the non-linear constraints, given by their ids and
/// their signals, the constraints it takes part in.
pub fn build_non_linear_signal_map(non_linear: &Vec<(usize, Vec<usize>)>) -> (map: HashMap<usize, Vec<usize>>)
    ensures
        lists_view(map@) == signal_to_constraints(non_linear@.map_values(|c: (usize, Vec<usize>)| (c.0, c.1@))),
{
    broadcast use vstd::std_specs::hash::group_hash_axioms;
    let ghost cs = non_linear@.map_values(|c: (usize, Vec<usize>)| (c.0, c.1@));
    let mut map: HashMap<usize, Vec<usize>> = HashMap::new();
    let mut i: usize = 0;
    proof {
        assert(lists_view(map@) =~= Map::<usize, Seq<usize>>::empty());
        assert(cs.subrange(0, 0) =~= Seq::<(usize, Seq<usize>)>::empty());
    }
    while i < non_linear.len()
        invariant
            i <= non_linear@.len(),
            cs == non_linear@.map_values(|c: (usize, Vec<usize>)| (c.0, c.1@)),
            lists_view(map@) == signal_to_constraints(cs.subrange(0, i as int)),
        decreases non_linear@.len() - i,
    {
        let c_id = non_linear[i].0;
        let signals = &non_linear[i].1;
        let ghost start = lists_view(map@);
        let mut j: usize = 0;
        proof {
            assert(signals@.subrange(0, 0) =~= Seq::<usize>::empty());
        }
        while j < signals.len()
            invariant
                j <= signals@.len(),
                lists_view(map@) == add_signals(start, c_id, signals@.subrange(0, j as int)),
            decreases signals@.len() - j,
        {
            let signal = signals[j];
            let ghost before = lists_view(map@);
            let list = match map.remove(&signal) {
                Some(mut list) => {
                    list.push(c_id);
                    list
                },
                None => {
                    let mut list: Vec<usize> = Vec::new();
                    list.push(c_id);
                    list
                },
            };
            let ghost lv = list@;
            map.insert(signal, list);
            proof {
                let pre = signals@.subrange(0, j + 1);
                assert(pre.drop_last() =~= signals@.subrange(0, j as int));
                assert(pre.last() == signal);
                assert(lv == if before.dom().contains(signal) { before[signal].push(c_id) } else { seq![c_id] });
                assert(lists_view(map@) =~= before.insert(signal, lv));
            }
            j = j + 1;
        }
        proof {
            assert(signals@.subrange(0, signals@.len() as int) =~= signals@);
            let pre = cs.subrange(0, i + 1);
            assert(pre.drop_last() =~= cs.subrange(0, i as int));
            assert(pre.last() == (c_id, signals@));
        }
        i = i + 1;
    }
    proof {
        assert(cs.subrange(0, non_linear@.len() as int) =~= cs);
    }
    map
}

} // verus!
