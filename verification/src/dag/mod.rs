//! The DAG of template instances: each node is an instance, each edge a
//! subcomponent, and signals are numbered along the edges.

use vstd::prelude::*;
use vstd::string::StringExecFns;
use std::collections::{HashMap, HashSet};
use vstd::string::StrSliceExecFns;
use crate::constraint_list::EncodingEdge;

pub mod template_info;
pub mod statistics_porting;
pub mod witness_producer;

verus! {

/// An arrow to a subcomponent: its label, the node it goes to, and where its
/// signals and components start and end in the numbering of the parent.
pub struct Edge {
    label: String,
    goes_to: usize,
    in_number: usize,
    out_number: usize,
    in_component_number: usize,
    out_component_number: usize,
}

impl Edge {
    /// A range never ends before it starts.
    #[verifier::type_invariant]
    spec fn ranges_ordered(&self) -> bool {
        &&& self.in_number <= self.out_number
        &&& self.in_component_number <= self.out_component_number
    }

    pub closed spec fn spec_label(&self) -> Seq<char> {
        self.label@
    }

    pub closed spec fn spec_goes_to(&self) -> usize {
        self.goes_to
    }

    pub closed spec fn spec_in(&self) -> usize {
        self.in_number
    }

    pub closed spec fn spec_out(&self) -> usize {
        self.out_number
    }

    pub closed spec fn spec_in_component(&self) -> usize {
        self.in_component_number
    }

    pub closed spec fn spec_out_component(&self) -> usize {
        self.out_component_number
    }

    /// The entry of the node `id`: labelled "main", with empty ranges.
    pub fn new_entry(id: usize) -> (res: Edge)
        ensures
            res.spec_label() == "main"@,
            res.spec_goes_to() == id,
            res.spec_in() == 0,
            res.spec_out() == 0,
            res.spec_in_component() == 0,
            res.spec_out_component() == 0,
    {
        Edge {
            label: String::from_str("main"),
            goes_to: id,
            in_number: 0,
            out_number: 0,
            in_component_number: 0,
            out_component_number: 0,
        }
    }

    pub fn get_goes_to(&self) -> (res: usize)
        ensures
            res == self.spec_goes_to(),
    {
        self.goes_to
    }

    /// The signals of the subcomponent, numbered from 1 in the parent:
    /// `in + 1 .. out + 1`.
    pub fn get_signal_range(&self) -> (res: std::ops::Range<usize>)
        requires
            self.spec_out() < usize::MAX,
        ensures
            res.start == self.spec_in() + 1,
            res.end == self.spec_out() + 1,
            self.spec_in() <= self.spec_out(),
    {
        proof {
            use_type_invariant(self);
        }
        (self.in_number + 1)..(self.out_number + 1)
    }

    pub fn get_in(&self) -> (res: usize)
        ensures
            res == self.spec_in(),
    {
        self.in_number
    }

    pub fn get_out(&self) -> (res: usize)
        ensures
            res == self.spec_out(),
    {
        self.out_number
    }

    pub fn get_in_component(&self) -> (res: usize)
        ensures
            res == self.spec_in_component(),
    {
        self.in_component_number
    }

    pub fn get_out_component(&self) -> (res: usize)
        ensures
            res == self.spec_out_component(),
    {
        self.out_component_number
    }

    /// Where the signals of the subcomponent start when the parent's start at
    /// `with_offset`.
    pub fn reach(&self, with_offset: usize) -> (res: usize)
        requires
            with_offset + self.spec_in() <= usize::MAX,
        ensures
            res == with_offset + self.spec_in(),
    {
        with_offset + self.in_number
    }

    pub fn get_label(&self) -> (res: &str)
        ensures
            res@ == self.spec_label(),
    {
        self.label.as_str()
    }
}

impl Clone for Edge {
    fn clone(&self) -> (res: Edge)
        ensures
            res.spec_label() == self.spec_label(),
            res.spec_goes_to() == self.spec_goes_to(),
            res.spec_in() == self.spec_in(),
            res.spec_out() == self.spec_out(),
            res.spec_in_component() == self.spec_in_component(),
            res.spec_out_component() == self.spec_out_component(),
    {
        proof {
            use_type_invariant(self);
        }
        Edge {
            label: self.label.clone(),
            goes_to: self.goes_to,
            in_number: self.in_number,
            out_number: self.out_number,
            in_component_number: self.in_component_number,
            out_component_number: self.out_component_number,
        }
    }
}

/// A constraint A * B = C of a node, each linear combination mapping a
/// signal of the node to its factor (little-endian bytes).
pub struct Constraint {
    pub a: HashMap<usize, Vec<u8>>,
    pub b: HashMap<usize, Vec<u8>>,
    pub c: HashMap<usize, Vec<u8>>,
}

/// The signal names of a node and their numbers, as a map: an entry for a
/// name replaces the one before it.
pub open spec fn correspondence_map(c: Seq<(String, usize)>) -> Map<Seq<char>, usize>
    decreases c.len(),
{
    if c.len() == 0 {
        Map::empty()
    } else {
        correspondence_map(c.drop_last()).insert(c.last().0@, c.last().1)
    }
}

/// No two entries share a name.
pub open spec fn names_distinct(c: Seq<(String, usize)>) -> bool {
    forall|i: int, j: int| 0 <= i < j < c.len() ==> c[i].0@ != c[j].0@
}

/// A template instance: its signals, numbered from 1 (inputs, outputs and
/// intermediates of its own, then those of each subcomponent along its edge),
/// its components and its constraints.
pub struct Node {
    entry: Edge,
    template_name: String,
    parameters: Vec<Vec<u8>>,
    number_of_signals: usize,
    number_of_components: usize,
    intermediates_length: usize,
    public_inputs_length: usize,
    inputs_length: usize,
    outputs_length: usize,
    signal_correspondence: Vec<(String, usize)>,
    ordered_signals: Vec<String>,
    locals: HashSet<usize>,
    reachables: HashSet<usize>,
    forbidden_if_main: HashSet<usize>,
    io_signals: Vec<usize>,
    constraints: Vec<Constraint>,
    underscored_signals: Vec<usize>,
    is_parallel: bool,
    has_parallel_subcomponent: bool,
    is_custom_gate: bool,
    number_of_subcomponents_indexes: usize,
}

impl Node {
    pub closed spec fn spec_entry(&self) -> Edge {
        self.entry
    }

    pub closed spec fn spec_template_name(&self) -> Seq<char> {
        self.template_name@
    }

    pub closed spec fn spec_number_of_signals(&self) -> usize {
        self.number_of_signals
    }

    pub closed spec fn spec_number_of_components(&self) -> usize {
        self.number_of_components
    }

    pub closed spec fn spec_inputs(&self) -> usize {
        self.inputs_length
    }

    pub closed spec fn spec_public_inputs(&self) -> usize {
        self.public_inputs_length
    }

    pub closed spec fn spec_outputs(&self) -> usize {
        self.outputs_length
    }

    pub closed spec fn spec_intermediates(&self) -> usize {
        self.intermediates_length
    }

    /// The numbers of the signals by name.
    pub closed spec fn spec_correspondence(&self) -> Map<Seq<char>, usize> {
        correspondence_map(self.signal_correspondence@)
    }

    pub closed spec fn spec_locals(&self) -> Set<usize> {
        self.locals@
    }

    pub closed spec fn spec_reachables(&self) -> Set<usize> {
        self.reachables@
    }

    pub closed spec fn spec_forbidden_if_main(&self) -> Set<usize> {
        self.forbidden_if_main@
    }

    pub closed spec fn spec_io_signals(&self) -> Seq<usize> {
        self.io_signals@
    }

    /// The names of the signals with their numbers, in the order they were
    /// added.
    pub closed spec fn spec_signal_list(&self) -> Seq<(String, usize)> {
        self.signal_correspondence@
    }

    pub closed spec fn spec_parameters(&self) -> Seq<Vec<u8>> {
        self.parameters@
    }

    pub closed spec fn spec_number_of_constraints(&self) -> nat {
        self.constraints@.len()
    }

    pub closed spec fn spec_underscored(&self) -> Seq<usize> {
        self.underscored_signals@
    }

    pub closed spec fn spec_is_parallel(&self) -> bool {
        self.is_parallel
    }

    pub closed spec fn spec_has_parallel_subcomponent(&self) -> bool {
        self.has_parallel_subcomponent
    }

    pub closed spec fn spec_is_custom_gate(&self) -> bool {
        self.is_custom_gate
    }

    pub closed spec fn spec_subcomponents_indexes(&self) -> usize {
        self.number_of_subcomponents_indexes
    }

    /// What holds of every node, whatever was added to it: its entry spans
    /// its signals and components, its own signals are counted within its
    /// signals, and its signal names are distinct and name signals that
    /// exist.
    pub closed spec fn wf(&self) -> bool {
        &&& self.entry.in_number == 0
        &&& self.entry.out_number == self.number_of_signals
        &&& self.entry.in_component_number == 0
        &&& self.entry.out_component_number + 1 == self.number_of_components
        &&& self.public_inputs_length <= self.inputs_length
        &&& self.inputs_length + self.outputs_length + self.intermediates_length <= self.number_of_signals
        &&& names_distinct(self.signal_correspondence@)
        &&& forall|i: int| 0 <= i < self.signal_correspondence@.len() ==> 1 <= (
        #[trigger] self.signal_correspondence@[i]).1 <= self.number_of_signals
    }

    /// Every name of a well formed node stands for one of its signals,
    /// numbered from 1 to its number of signals.
    pub proof fn lemma_correspondence_in_range(&self)
        requires
            self.wf(),
        ensures
            forall|k: Seq<char>| #[trigger] self.spec_correspondence().contains_key(k) ==> 1 <= self.spec_correspondence()[k]
                <= self.spec_number_of_signals(),
    {
        lemma_correspondence_values(self.signal_correspondence@, 1, self.number_of_signals as int);
    }

    /// The entry of a well formed node spans its signals from 0 on.
    pub proof fn lemma_entry_spans_signals(&self)
        requires
            self.wf(),
        ensures
            self.spec_entry().spec_in() == 0,
            self.spec_entry().spec_out() == self.spec_number_of_signals(),
    {
    }

    /// The entry of a well formed node spans its components but itself,
    /// from 0 on.
    pub proof fn lemma_entry_spans_components(&self)
        requires
            self.wf(),
        ensures
            self.spec_entry().spec_in_component() == 0,
            self.spec_entry().spec_out_component() + 1 == self.spec_number_of_components(),
    {
    }

    fn new(
        id: usize,
        template_name: String,
        parameters: Vec<Vec<u8>>,
        ordered_signals: Vec<String>,
        is_parallel: bool,
        is_custom_gate: bool,
    ) -> (res: Node)
        ensures
            res.wf(),
            res.spec_entry().spec_goes_to() == id,
            res.spec_entry().spec_label() == "main"@,
            res.spec_template_name() == template_name@,
            res.spec_number_of_signals() == 0,
            res.spec_number_of_components() == 1,
            res.spec_inputs() == 0,
            res.spec_public_inputs() == 0,
            res.spec_outputs() == 0,
            res.spec_intermediates() == 0,
            res.spec_correspondence() == Map::<Seq<char>, usize>::empty(),
            res.spec_locals() == Set::<usize>::empty(),
            res.spec_reachables() == Set::<usize>::empty(),
            res.spec_forbidden_if_main() == set![0usize],
            res.spec_io_signals() == Seq::<usize>::empty(),
            res.spec_number_of_constraints() == 0,
            res.spec_underscored() == Seq::<usize>::empty(),
            res.spec_is_parallel() == is_parallel,
            !res.spec_has_parallel_subcomponent(),
            res.spec_is_custom_gate() == is_custom_gate,
            res.spec_subcomponents_indexes() == 0,
            res.spec_parameters() == parameters@,
            res.spec_signal_list() == Seq::<(String, usize)>::empty(),
    {
        let mut forbidden_if_main: HashSet<usize> = HashSet::new();
        forbidden_if_main.insert(0);
        proof {
            assert(forbidden_if_main@ =~= set![0usize]);
        }
        let node = Node {
            entry: Edge::new_entry(id),
            template_name,
            parameters,
            number_of_signals: 0,
            number_of_components: 1,
            intermediates_length: 0,
            public_inputs_length: 0,
            inputs_length: 0,
            outputs_length: 0,
            signal_correspondence: Vec::new(),
            ordered_signals,
            locals: HashSet::new(),
            reachables: HashSet::new(),
            forbidden_if_main,
            io_signals: Vec::new(),
            constraints: Vec::new(),
            underscored_signals: Vec::new(),
            is_parallel,
            has_parallel_subcomponent: false,
            is_custom_gate,
            number_of_subcomponents_indexes: 0,
        };
        proof {
            assert(node.spec_correspondence() =~= Map::<Seq<char>, usize>::empty());
        }
        node
    }
}

/// Names `name` with the number `id`, in place of what it named before.
fn insert_correspondence(c: &mut Vec<(String, usize)>, name: String, id: usize)
    requires
        names_distinct(old(c)@),
    ensures
        names_distinct(final(c)@),
        correspondence_map(final(c)@) == correspondence_map(old(c)@).insert(name@, id),
        forall|i: int| 0 <= i < final(c)@.len() ==> (#[trigger] final(c)@[i]).1 == id || exists|j: int|
            0 <= j < old(c)@.len() && old(c)@[j].1 == final(c)@[i].1,
{
    let mut i: usize = 0;
    while i < c.len()
        invariant
            i <= c@.len(),
            c@ == old(c)@,
            names_distinct(old(c)@),
            forall|j: int| 0 <= j < i ==> (#[trigger] c@[j]).0@ != name@,
        decreases c@.len() - i,
    {
        if c[i].0 == name {
            let ghost before = c@;
            c.set(i, (name, id));
            proof {
                lemma_correspondence_replace(before, i as int, c@);
                assert forall|k: int| 0 <= k < c@.len() implies (#[trigger] c@[k]).1 == id || exists|j: int|
                    0 <= j < old(c)@.len() && old(c)@[j].1 == c@[k].1 by {
                    if k != i {
                        assert(old(c)@[k].1 == c@[k].1);
                    }
                }
            }
            return;
        }
        i = i + 1;
    }
    let ghost before = c@;
    c.push((name, id));
    proof {
        assert(c@.drop_last() =~= before);
        assert forall|k: int| 0 <= k < c@.len() implies (#[trigger] c@[k]).1 == id || exists|j: int|
            0 <= j < old(c)@.len() && old(c)@[j].1 == c@[k].1 by {
            if k < before.len() {
                assert(old(c)@[k].1 == c@[k].1);
            }
        }
    }
}

proof fn lemma_correspondence_values(c: Seq<(String, usize)>, lo: int, hi: int)
    requires
        forall|i: int| 0 <= i < c.len() ==> lo <= (#[trigger] c[i]).1 <= hi,
    ensures
        forall|k: Seq<char>| #[trigger] correspondence_map(c).contains_key(k) ==> lo <= correspondence_map(c)[k] <= hi,
    decreases c.len(),
{
    if c.len() > 0 {
        assert forall|i: int| 0 <= i < c.drop_last().len() implies lo <= (#[trigger] c.drop_last()[i]).1 <= hi by {
            assert(c.drop_last()[i] == c[i]);
        }
        lemma_correspondence_values(c.drop_last(), lo, hi);
        assert(c.last() == c[c.len() - 1]);
        assert(correspondence_map(c) == correspondence_map(c.drop_last()).insert(c.last().0@, c.last().1));
        assert forall|k: Seq<char>| #[trigger] correspondence_map(c).contains_key(k) implies lo
            <= correspondence_map(c)[k] <= hi by {
            if k != c.last().0@ {
                assert(correspondence_map(c.drop_last()).contains_key(k));
            }
        }
    } else {
        assert(correspondence_map(c) == Map::<Seq<char>, usize>::empty());
    }
}

proof fn lemma_correspondence_not_in(c: Seq<(String, usize)>, name: Seq<char>)
    requires
        forall|j: int| 0 <= j < c.len() ==> (#[trigger] c[j]).0@ != name,
    ensures
        !correspondence_map(c).dom().contains(name),
    decreases c.len(),
{
    if c.len() > 0 {
        assert forall|j: int| 0 <= j < c.drop_last().len() implies (#[trigger] c.drop_last()[j]).0@ != name by {
            assert(c.drop_last()[j] == c[j]);
        }
        lemma_correspondence_not_in(c.drop_last(), name);
        assert(c[c.len() - 1] == c.last());
    }
}

proof fn lemma_correspondence_replace(before: Seq<(String, usize)>, i: int, after: Seq<(String, usize)>)
    requires
        names_distinct(before),
        0 <= i < before.len(),
        after.len() == before.len(),
        after[i].0@ == before[i].0@,
        forall|j: int| 0 <= j < before.len() && j != i ==> after[j] == before[j],
    ensures
        names_distinct(after),
        correspondence_map(after) == correspondence_map(before).insert(after[i].0@, after[i].1),
    decreases before.len(),
{
    assert forall|a: int, b: int| 0 <= a < b < after.len() implies after[a].0@ != after[b].0@ by {
        assert(before[a].0@ != before[b].0@);
    }
    let n = before.len() - 1;
    if i == n {
        assert(after.drop_last() =~= before.drop_last());
        assert forall|j: int| 0 <= j < before.drop_last().len() implies (#[trigger] before.drop_last()[j]).0@
            != after[i].0@ by {
            assert(before.drop_last()[j] == before[j]);
        }
        lemma_correspondence_not_in(before.drop_last(), after[i].0@);
        assert(correspondence_map(after) =~= correspondence_map(before).insert(after[i].0@, after[i].1));
    } else {
        assert forall|a: int, b: int| 0 <= a < b < before.drop_last().len() implies before.drop_last()[a].0@
            != before.drop_last()[b].0@ by {
            assert(before[a].0@ != before[b].0@);
        }
        lemma_correspondence_replace(before.drop_last(), i, after.drop_last());
        assert(after.last() == before.last());
        assert(before.last().0@ != after[i].0@) by {
            assert(before[n].0@ != before[i].0@);
        }
        assert(correspondence_map(after) =~= correspondence_map(before).insert(after[i].0@, after[i].1));
    }
}

impl Node {
    /// `m` is `o` with one more signal: everything but the signals, their
    /// names and their counts is as it was, and the entry reaches one
    /// signal further.
    pub open spec fn one_more_signal(o: Node, m: Node) -> bool {
        &&& m.spec_template_name() == o.spec_template_name()
        &&& m.spec_parameters() == o.spec_parameters()
        &&& m.spec_number_of_components() == o.spec_number_of_components()
        &&& m.spec_number_of_constraints() == o.spec_number_of_constraints()
        &&& m.spec_underscored() == o.spec_underscored()
        &&& m.spec_is_parallel() == o.spec_is_parallel()
        &&& m.spec_has_parallel_subcomponent() == o.spec_has_parallel_subcomponent()
        &&& m.spec_is_custom_gate() == o.spec_is_custom_gate()
        &&& m.spec_subcomponents_indexes() == o.spec_subcomponents_indexes()
        &&& m.spec_entry().spec_label() == o.spec_entry().spec_label()
        &&& m.spec_entry().spec_goes_to() == o.spec_entry().spec_goes_to()
        &&& m.spec_entry().spec_in() == o.spec_entry().spec_in()
        &&& m.spec_entry().spec_out() == o.spec_entry().spec_out() + 1
        &&& m.spec_entry().spec_in_component() == o.spec_entry().spec_in_component()
        &&& m.spec_entry().spec_out_component() == o.spec_entry().spec_out_component()
    }
}

impl Node {
    /// A new input, numbered after the signals so far.
    fn add_input(&mut self, name: String, is_public: bool)
        requires
            old(self).wf(),
            old(self).spec_number_of_signals() < usize::MAX,
        ensures
            final(self).wf(),
            final(self).spec_number_of_signals() == old(self).spec_number_of_signals() + 1,
            final(self).spec_inputs() == old(self).spec_inputs() + 1,
            final(self).spec_public_inputs() == old(self).spec_public_inputs() + if is_public { 1int } else { 0int },
            final(self).spec_correspondence() == old(self).spec_correspondence().insert(
                name@,
                final(self).spec_number_of_signals(),
            ),
            final(self).spec_io_signals() == old(self).spec_io_signals().push(final(self).spec_number_of_signals()),
            final(self).spec_locals() == old(self).spec_locals().insert(final(self).spec_number_of_signals()),
            final(self).spec_reachables() == old(self).spec_reachables().insert(final(self).spec_number_of_signals()),
            final(self).spec_forbidden_if_main() == if is_public {
                old(self).spec_forbidden_if_main().insert(final(self).spec_number_of_signals())
            } else {
                old(self).spec_forbidden_if_main()
            },
            final(self).spec_number_of_components() == old(self).spec_number_of_components(),
            final(self).spec_outputs() == old(self).spec_outputs(),
            final(self).spec_intermediates() == old(self).spec_intermediates(),
            final(self).spec_entry().spec_goes_to() == old(self).spec_entry().spec_goes_to(),
            Node::one_more_signal(*old(self), *final(self)),
    {
        let id = self.number_of_signals + 1;
        self.io_signals.push(id);
        self.public_inputs_length = self.public_inputs_length + if is_public { 1 } else { 0 };
        insert_correspondence(&mut self.signal_correspondence, name, id);
        self.locals.insert(id);
        self.reachables.insert(id);
        self.number_of_signals = self.number_of_signals + 1;
        self.entry.out_number = self.entry.out_number + 1;
        self.inputs_length = self.inputs_length + 1;
        if is_public {
            self.forbidden_if_main.insert(id);
        }
    }

    /// A new output, numbered after the signals so far.
    fn add_output(&mut self, name: String)
        requires
            old(self).wf(),
            old(self).spec_number_of_signals() < usize::MAX,
        ensures
            final(self).wf(),
            final(self).spec_number_of_signals() == old(self).spec_number_of_signals() + 1,
            final(self).spec_outputs() == old(self).spec_outputs() + 1,
            final(self).spec_correspondence() == old(self).spec_correspondence().insert(
                name@,
                final(self).spec_number_of_signals(),
            ),
            final(self).spec_io_signals() == old(self).spec_io_signals().push(final(self).spec_number_of_signals()),
            final(self).spec_locals() == old(self).spec_locals().insert(final(self).spec_number_of_signals()),
            final(self).spec_reachables() == old(self).spec_reachables().insert(final(self).spec_number_of_signals()),
            final(self).spec_forbidden_if_main() == old(self).spec_forbidden_if_main().insert(
                final(self).spec_number_of_signals(),
            ),
            final(self).spec_number_of_components() == old(self).spec_number_of_components(),
            final(self).spec_inputs() == old(self).spec_inputs(),
            final(self).spec_public_inputs() == old(self).spec_public_inputs(),
            final(self).spec_intermediates() == old(self).spec_intermediates(),
            final(self).spec_entry().spec_goes_to() == old(self).spec_entry().spec_goes_to(),
            Node::one_more_signal(*old(self), *final(self)),
    {
        let id = self.number_of_signals + 1;
        self.io_signals.push(id);
        insert_correspondence(&mut self.signal_correspondence, name, id);
        self.forbidden_if_main.insert(id);
        self.locals.insert(id);
        self.reachables.insert(id);
        self.number_of_signals = self.number_of_signals + 1;
        self.entry.out_number = self.entry.out_number + 1;
        self.outputs_length = self.outputs_length + 1;
    }

    /// A new intermediate signal, numbered after the signals so far.
    fn add_intermediate(&mut self, name: String)
        requires
            old(self).wf(),
            old(self).spec_number_of_signals() < usize::MAX,
        ensures
            final(self).wf(),
            final(self).spec_number_of_signals() == old(self).spec_number_of_signals() + 1,
            final(self).spec_intermediates() == old(self).spec_intermediates() + 1,
            final(self).spec_correspondence() == old(self).spec_correspondence().insert(
                name@,
                final(self).spec_number_of_signals(),
            ),
            final(self).spec_io_signals() == old(self).spec_io_signals(),
            final(self).spec_locals() == old(self).spec_locals().insert(final(self).spec_number_of_signals()),
            final(self).spec_reachables() == old(self).spec_reachables().insert(final(self).spec_number_of_signals()),
            final(self).spec_forbidden_if_main() == old(self).spec_forbidden_if_main(),
            final(self).spec_number_of_components() == old(self).spec_number_of_components(),
            final(self).spec_inputs() == old(self).spec_inputs(),
            final(self).spec_public_inputs() == old(self).spec_public_inputs(),
            final(self).spec_outputs() == old(self).spec_outputs(),
            final(self).spec_entry().spec_goes_to() == old(self).spec_entry().spec_goes_to(),
            Node::one_more_signal(*old(self), *final(self)),
    {
        let id = self.number_of_signals + 1;
        insert_correspondence(&mut self.signal_correspondence, name, id);
        self.locals.insert(id);
        self.reachables.insert(id);
        self.number_of_signals = self.number_of_signals + 1;
        self.entry.out_number = self.entry.out_number + 1;
        self.intermediates_length = self.intermediates_length + 1;
    }

    pub fn parameters(&self) -> (res: &Vec<Vec<u8>>)
        ensures
            res@ == self.spec_parameters(),
    {
        &self.parameters
    }

    pub fn is_local_signal(&self, s: usize) -> (res: bool)
        ensures
            res == self.spec_locals().contains(s),
    {
        self.locals.contains(&s)
    }

    pub fn is_reachable_signal(&self, s: usize) -> (res: bool)
        ensures
            res == self.spec_reachables().contains(s),
    {
        self.reachables.contains(&s)
    }

    pub fn number_of_signals(&self) -> (res: usize)
        ensures
            res == self.spec_number_of_signals(),
    {
        self.number_of_signals
    }

    /// The names of the signals with their numbers; a name occurs once.
    pub fn correspondence(&self) -> (res: &Vec<(String, usize)>)
        requires
            self.wf(),
        ensures
            correspondence_map(res@) == self.spec_correspondence(),
            names_distinct(res@),
            res@ == self.spec_signal_list(),
            forall|i: int| 0 <= i < res@.len() ==> 1 <= (#[trigger] res@[i]).1 <= self.spec_number_of_signals(),
    {
        &self.signal_correspondence
    }

    pub fn constraints(&self) -> (res: &Vec<Constraint>)
        ensures
            res@.len() == self.spec_number_of_constraints(),
    {
        &self.constraints
    }

    pub fn io_signals(&self) -> (res: &Vec<usize>)
        ensures
            res@ == self.spec_io_signals(),
    {
        &self.io_signals
    }

    pub fn get_entry(&self) -> (res: &Edge)
        ensures
            *res == self.spec_entry(),
    {
        &self.entry
    }

    pub fn number_of_public_inputs(&self) -> (res: usize)
        ensures
            res == self.spec_public_inputs(),
    {
        self.public_inputs_length
    }

    /// The inputs that are not public.
    pub fn number_of_private_inputs(&self) -> (res: usize)
        requires
            self.wf(),
        ensures
            res == self.spec_inputs() - self.spec_public_inputs(),
    {
        self.inputs_length - self.public_inputs_length
    }

    pub fn number_of_inputs(&self) -> (res: usize)
        ensures
            res == self.spec_inputs(),
    {
        self.inputs_length
    }

    pub fn number_of_outputs(&self) -> (res: usize)
        ensures
            res == self.spec_outputs(),
    {
        self.outputs_length
    }

    pub fn number_of_intermediates(&self) -> (res: usize)
        ensures
            res == self.spec_intermediates(),
    {
        self.intermediates_length
    }

    pub fn has_parallel_sub_cmp(&self) -> (res: bool)
        ensures
            res == self.spec_has_parallel_subcomponent(),
    {
        self.has_parallel_subcomponent
    }

    pub fn is_custom_gate(&self) -> (res: bool)
        ensures
            res == self.spec_is_custom_gate(),
    {
        self.is_custom_gate
    }

    pub fn number_of_subcomponents_indexes(&self) -> (res: usize)
        ensures
            res == self.spec_subcomponents_indexes(),
    {
        self.number_of_subcomponents_indexes
    }
}

/// The names and numbers that the parent of a subcomponent gives to its
/// signals: `label.name`, numbered from `offset`, for the names in `c` whose
/// signal is local to the subcomponent.
pub open spec fn edge_entries(c: Seq<(String, usize)>, label: Seq<char>, locals: Set<usize>, offset: usize) -> Map<
    Seq<char>,
    usize,
>
    decreases c.len(),
{
    if c.len() == 0 {
        Map::empty()
    } else {
        let m = edge_entries(c.drop_last(), label, locals, offset);
        if locals.contains(c.last().1) {
            m.insert(label + seq!['.'] + c.last().0@, (offset + c.last().1) as usize)
        } else {
            m
        }
    }
}

/// The same, over the names of a map: `label.name` for each name whose
/// signal is local, numbered from `offset`.
pub open spec fn edge_names(label: Seq<char>, corr: Map<Seq<char>, usize>, locals: Set<usize>, offset: usize) -> Map<
    Seq<char>,
    usize,
> {
    Map::new(
        |k: Seq<char>|
            k.len() > label.len() && k.subrange(0, label.len() + 1int) == label + seq!['.'] && corr.dom().contains(
                k.skip(label.len() + 1int),
            ) && locals.contains(corr[k.skip(label.len() + 1int)]),
        |k: Seq<char>| (offset + corr[k.skip(label.len() + 1int)]) as usize,
    )
}

/// The names that an edge `e` to a well formed node `t` gives to the local
/// signals of `t` stand for signals in the edge's range: after `e`'s in and
/// up to its out.
pub proof fn law_edge_names_in_range(label: Seq<char>, t: Node, e: Edge)
    requires
        t.wf(),
        e.spec_out() == e.spec_in() + t.spec_number_of_signals(),
    ensures
        forall|k: Seq<char>|
            #[trigger] edge_names(label, t.spec_correspondence(), t.spec_locals(), e.spec_in()).contains_key(k)
                ==> e.spec_in() < edge_names(label, t.spec_correspondence(), t.spec_locals(), e.spec_in())[k]
                <= e.spec_out(),
{
    t.lemma_correspondence_in_range();
    assert forall|k: Seq<char>|
        #[trigger] edge_names(label, t.spec_correspondence(), t.spec_locals(), e.spec_in()).contains_key(k)
            implies e.spec_in() < edge_names(label, t.spec_correspondence(), t.spec_locals(), e.spec_in())[k]
            <= e.spec_out() by {
        let n = k.skip(label.len() + 1int);
        assert(t.spec_correspondence().contains_key(n));
    }
}

/// When an edge `e` to node `to` is added under `label` to the main node of
/// `before`, giving the main node `after_main`, the name `label.s` of each
/// local signal `s` of `to` stands in `after_main` for a signal of the
/// edge's range `in + 1 .. out + 1`.
pub proof fn law_edge_signal_range(
    before: DAG,
    after_main: Node,
    to: int,
    label: Seq<char>,
    e: Edge,
    s: Seq<char>,
)
    requires
        before.wf(),
        0 <= to < before.spec_nodes().len() - 1,
        e.spec_in() == before.spec_main().spec_number_of_signals(),
        e.spec_out() == e.spec_in() + before.spec_nodes()[to].spec_number_of_signals(),
        after_main.spec_correspondence() == before.spec_main().spec_correspondence().union_prefer_right(
            edge_names(
                label,
                before.spec_nodes()[to].spec_correspondence(),
                before.spec_nodes()[to].spec_locals(),
                before.spec_main().spec_number_of_signals(),
            ),
        ),
        before.spec_nodes()[to].spec_correspondence().contains_key(s),
        before.spec_nodes()[to].spec_locals().contains(before.spec_nodes()[to].spec_correspondence()[s]),
    ensures
        after_main.spec_correspondence().contains_key(label + seq!['.'] + s),
        e.spec_in() + 1 <= after_main.spec_correspondence()[label + seq!['.'] + s] < e.spec_out() + 1,
{
    let t = before.spec_nodes()[to];
    assert(t.wf());
    let k = label + seq!['.'] + s;
    assert(k.subrange(0, label.len() + 1int) =~= label + seq!['.']);
    assert(k.skip(label.len() + 1int) =~= s);
    let names = edge_names(label, t.spec_correspondence(), t.spec_locals(), e.spec_in());
    assert(names.contains_key(k));
    law_edge_names_in_range(label, t, e);
}

/// The numbers, from `offset`, of the local signals of `c` numbered at most
/// `bound`: the inputs and outputs of a subcomponent.
pub open spec fn edge_reachables(c: Seq<(String, usize)>, locals: Set<usize>, offset: usize, bound: nat) -> Set<
    usize,
>
    decreases c.len(),
{
    if c.len() == 0 {
        Set::empty()
    } else {
        let r = edge_reachables(c.drop_last(), locals, offset, bound);
        if locals.contains(c.last().1) && c.last().1 <= bound {
            r.insert((offset + c.last().1) as usize)
        } else {
            r
        }
    }
}

proof fn lemma_edge_entries(c: Seq<(String, usize)>, label: Seq<char>, locals: Set<usize>, offset: usize)
    requires
        names_distinct(c),
    ensures
        edge_entries(c, label, locals, offset) == edge_names(label, correspondence_map(c), locals, offset),
    decreases c.len(),
{
    let target = edge_names(label, correspondence_map(c), locals, offset);
    if c.len() == 0 {
        assert(edge_entries(c, label, locals, offset) =~= target);
    } else {
        let prev = c.drop_last();
        assert forall|a: int, b: int| 0 <= a < b < prev.len() implies prev[a].0@ != prev[b].0@ by {
            assert(prev[a] == c[a] && prev[b] == c[b]);
        }
        lemma_edge_entries(prev, label, locals, offset);
        let n = c.last().0@;
        assert forall|j: int| 0 <= j < prev.len() implies (#[trigger] prev[j]).0@ != n by {
            assert(prev[j] == c[j]);
            assert(c[c.len() - 1] == c.last());
        }
        lemma_correspondence_not_in(prev, n);
        let key = label + seq!['.'] + n;
        assert(key.subrange(0, label.len() + 1int) =~= label + seq!['.']);
        assert(key.skip(label.len() + 1int) =~= n);
        assert forall|k: Seq<char>| #[trigger] target.dom().contains(k) && k != key implies k.skip(
            label.len() + 1int,
        ) != n by {
            if k.skip(label.len() + 1int) == n {
                assert(k =~= k.subrange(0, label.len() + 1int) + k.skip(label.len() + 1int));
            }
        }
        assert(edge_entries(c, label, locals, offset) =~= target);
    }
}

proof fn lemma_edge_reachables(c: Seq<(String, usize)>, locals: Set<usize>, offset: usize, bound: nat)
    requires
        names_distinct(c),
    ensures
        edge_reachables(c, locals, offset, bound) == Set::new(
            |x: usize|
                exists|n: Seq<char>|
                    correspondence_map(c).dom().contains(n) && locals.contains(#[trigger] correspondence_map(c)[n])
                        && correspondence_map(c)[n] <= bound && x == (offset + correspondence_map(c)[n]) as usize,
        ),
    decreases c.len(),
{
    let m = correspondence_map(c);
    let target = Set::new(
        |x: usize|
            exists|n: Seq<char>|
                m.dom().contains(n) && locals.contains(#[trigger] m[n]) && m[n] <= bound && x == (offset + m[n]) as usize,
    );
    if c.len() == 0 {
        assert(edge_reachables(c, locals, offset, bound) =~= target);
    } else {
        let prev = c.drop_last();
        assert forall|a: int, b: int| 0 <= a < b < prev.len() implies prev[a].0@ != prev[b].0@ by {
            assert(prev[a] == c[a] && prev[b] == c[b]);
        }
        lemma_edge_reachables(prev, locals, offset, bound);
        let n = c.last().0@;
        assert forall|j: int| 0 <= j < prev.len() implies (#[trigger] prev[j]).0@ != n by {
            assert(prev[j] == c[j]);
            assert(c[c.len() - 1] == c.last());
        }
        lemma_correspondence_not_in(prev, n);
        let pm = correspondence_map(prev);
        assert forall|x: usize| edge_reachables(c, locals, offset, bound).contains(x) <==> target.contains(x) by {
            if edge_reachables(c, locals, offset, bound).contains(x) {
                if locals.contains(c.last().1) && c.last().1 <= bound && x == (offset + c.last().1) as usize {
                    assert(m[n] == c.last().1);
                } else {
                    assert(edge_reachables(prev, locals, offset, bound).contains(x));
                    let w = choose|w: Seq<char>|
                        pm.dom().contains(w) && locals.contains(#[trigger] pm[w]) && pm[w] <= bound && x == (offset
                            + pm[w]) as usize;
                    assert(w != n);
                    assert(m[w] == pm[w]);
                }
            }
            if target.contains(x) {
                let w = choose|w: Seq<char>|
                    m.dom().contains(w) && locals.contains(#[trigger] m[w]) && m[w] <= bound && x == (offset + m[w]) as usize;
                if w != n {
                    assert(pm[w] == m[w]);
                }
            }
        }
        assert(edge_reachables(c, locals, offset, bound) =~= target);
    }
}

/// Two edges with the same label, target and ranges.
pub open spec fn same_edge(a: Edge, b: Edge) -> bool {
    &&& a.spec_label() == b.spec_label()
    &&& a.spec_goes_to() == b.spec_goes_to()
    &&& a.spec_in() == b.spec_in()
    &&& a.spec_out() == b.spec_out()
    &&& a.spec_in_component() == b.spec_in_component()
    &&& a.spec_out_component() == b.spec_out_component()
}

/// An edge of node `i` fits the DAG: it goes to an earlier node, its
/// ranges are as wide as that node's signals and components, and they lie
/// within those of node `i`.
pub open spec fn edge_fits(nodes: Seq<Node>, i: int, e: Edge) -> bool {
    &&& e.spec_goes_to() < i
    &&& e.spec_out() - e.spec_in() == nodes[e.spec_goes_to() as int].spec_number_of_signals()
    &&& e.spec_out_component() - e.spec_in_component() == nodes[e.spec_goes_to() as int].spec_number_of_components()
    &&& e.spec_out() <= nodes[i].spec_number_of_signals()
    &&& e.spec_out_component() <= nodes[i].spec_number_of_components()
}

/// The instances of a circuit and the subcomponents of each; the last node
/// is the main component, the one that grows.
pub struct DAG {
    pub one_signal: usize,
    nodes: Vec<Node>,
    adjacency: Vec<Vec<Edge>>,
    pub prime: String,
}

impl DAG {
    pub closed spec fn spec_nodes(&self) -> Seq<Node> {
        self.nodes@
    }

    pub closed spec fn spec_prime(&self) -> Seq<char> {
        self.prime@
    }

    pub closed spec fn spec_one_signal(&self) -> usize {
        self.one_signal
    }

    pub closed spec fn spec_adjacency(&self) -> Seq<Seq<Edge>> {
        self.adjacency@.map_values(|v: Vec<Edge>| v@)
    }

    /// What every operation keeps: each node is well formed and is the node
    /// its entry names; each edge fits; the edges of a node take disjoint,
    /// increasing ranges of its signals and of its components.
    pub open spec fn wf(&self) -> bool {
        &&& self.spec_nodes().len() == self.spec_adjacency().len()
        &&& forall|i: int|
            0 <= i < self.spec_nodes().len() ==> #[trigger] self.spec_nodes()[i].wf()
                && self.spec_nodes()[i].spec_entry().spec_goes_to() == i
        &&& forall|i: int, k: int|
            0 <= i < self.spec_nodes().len() && 0 <= k < self.spec_adjacency()[i].len() ==> edge_fits(
                self.spec_nodes(),
                i,
                #[trigger] self.spec_adjacency()[i][k],
            )
        &&& forall|i: int, k: int, l: int|
            0 <= i < self.spec_nodes().len() && 0 <= k < l < self.spec_adjacency()[i].len() ==> (
            #[trigger] self.spec_adjacency()[i][k]).spec_out() <= (#[trigger] self.spec_adjacency()[i][l]).spec_in()
                && self.spec_adjacency()[i][k].spec_out_component() <= self.spec_adjacency()[i][l].spec_in_component()
    }

    /// An empty DAG over the field of `prime`.
    pub fn new(prime: &String) -> (res: DAG)
        ensures
            res.wf(),
            res.spec_nodes().len() == 0,
            res.spec_prime() == prime@,
            res.spec_one_signal() == 0,
    {
        let dag = DAG { prime: prime.clone(), one_signal: 0, nodes: Vec::new(), adjacency: Vec::new() };
        proof {
            assert(dag.spec_adjacency() =~= Seq::<Seq<Edge>>::empty());
        }
        dag
    }

    /// A new node, which becomes the main one; returns its id.
    pub fn add_node(
        &mut self,
        template_name: String,
        parameters: Vec<Vec<u8>>,
        ordered_signals: Vec<String>,
        is_parallel: bool,
        is_custom_gate: bool,
    ) -> (id: usize)
        requires
            old(self).wf(),
        ensures
            final(self).wf(),
            id == old(self).spec_nodes().len(),
            final(self).spec_nodes().len() == id + 1,
            final(self).spec_nodes().subrange(0, id as int) == old(self).spec_nodes(),
            final(self).spec_adjacency() == old(self).spec_adjacency().push(Seq::empty()),
            final(self).spec_nodes()[id as int].spec_template_name() == template_name@,
            final(self).spec_nodes()[id as int].spec_number_of_signals() == 0,
            final(self).spec_nodes()[id as int].spec_number_of_components() == 1,
            final(self).spec_nodes()[id as int].spec_correspondence() == Map::<Seq<char>, usize>::empty(),
            final(self).spec_nodes()[id as int].spec_is_parallel() == is_parallel,
            final(self).spec_nodes()[id as int].spec_is_custom_gate() == is_custom_gate,
            final(self).spec_nodes()[id as int].spec_parameters() == parameters@,
            final(self).spec_nodes()[id as int].spec_signal_list() == Seq::<(String, usize)>::empty(),
            final(self).spec_nodes()[id as int].spec_entry().spec_label() == "main"@,
            final(self).spec_nodes()[id as int].spec_entry().spec_goes_to() == id,
            final(self).spec_nodes()[id as int].spec_entry().spec_in() == 0,
            final(self).spec_nodes()[id as int].spec_entry().spec_out() == 0,
            final(self).spec_nodes()[id as int].spec_entry().spec_in_component() == 0,
            final(self).spec_nodes()[id as int].spec_entry().spec_out_component() == 0,
            final(self).spec_nodes()[id as int].spec_inputs() == 0,
            final(self).spec_nodes()[id as int].spec_public_inputs() == 0,
            final(self).spec_nodes()[id as int].spec_outputs() == 0,
            final(self).spec_nodes()[id as int].spec_intermediates() == 0,
            final(self).spec_nodes()[id as int].spec_locals() == Set::<usize>::empty(),
            final(self).spec_nodes()[id as int].spec_reachables() == Set::<usize>::empty(),
            final(self).spec_nodes()[id as int].spec_forbidden_if_main() == set![0usize],
            final(self).spec_nodes()[id as int].spec_io_signals() == Seq::<usize>::empty(),
            final(self).spec_nodes()[id as int].spec_number_of_constraints() == 0,
            final(self).spec_nodes()[id as int].spec_underscored() == Seq::<usize>::empty(),
            !final(self).spec_nodes()[id as int].spec_has_parallel_subcomponent(),
            final(self).spec_nodes()[id as int].spec_subcomponents_indexes() == 0,
            final(self).spec_prime() == old(self).spec_prime(),
    {
        let id = self.nodes.len();
        let node = Node::new(id, template_name, parameters, ordered_signals, is_parallel, is_custom_gate);
        self.nodes.push(node);
        self.adjacency.push(Vec::new());
        proof {
            assert(self.spec_adjacency() =~= old(self).spec_adjacency().push(Seq::empty()));
            assert(self.spec_nodes().subrange(0, id as int) =~= old(self).spec_nodes());
            assert forall|i: int, k: int|
                0 <= i < self.spec_nodes().len() && 0 <= k < self.spec_adjacency()[i].len() implies edge_fits(
                self.spec_nodes(),
                i,
                #[trigger] self.spec_adjacency()[i][k],
            ) by {
                assert(i < id);
                assert(self.spec_adjacency()[i] == old(self).spec_adjacency()[i]);
                assert(edge_fits(old(self).spec_nodes(), i, old(self).spec_adjacency()[i][k]));
            }
            assert forall|i: int, k: int, l: int|
                0 <= i < self.spec_nodes().len() && 0 <= k < l < self.spec_adjacency()[i].len() implies (
            #[trigger] self.spec_adjacency()[i][k]).spec_out() <= (#[trigger] self.spec_adjacency()[i][l]).spec_in()
                && self.spec_adjacency()[i][k].spec_out_component() <= self.spec_adjacency()[i][l].spec_in_component() by {
                assert(self.spec_adjacency()[i] == old(self).spec_adjacency()[i]);
            }
        }
        id
    }
}

/// Growing the main node, with the edges left as they are, keeps the DAG
/// well formed.
proof fn lemma_main_grows(before: DAG, after: DAG)
    requires
        before.wf(),
        before.spec_nodes().len() > 0,
        after.spec_nodes().len() == before.spec_nodes().len(),
        after.spec_adjacency() == before.spec_adjacency(),
        forall|i: int| 0 <= i < before.spec_nodes().len() - 1 ==> after.spec_nodes()[i] == before.spec_nodes()[i],
        after.spec_nodes().last().wf(),
        after.spec_nodes().last().spec_entry().spec_goes_to() == before.spec_nodes().len() - 1,
        after.spec_nodes().last().spec_number_of_signals() >= before.spec_nodes().last().spec_number_of_signals(),
        after.spec_nodes().last().spec_number_of_components() >= before.spec_nodes().last().spec_number_of_components(),
    ensures
        after.wf(),
{
    let n = before.spec_nodes().len();
    assert forall|i: int| 0 <= i < n implies #[trigger] after.spec_nodes()[i].wf()
        && after.spec_nodes()[i].spec_entry().spec_goes_to() == i by {
        if i < n - 1 {
            assert(before.spec_nodes()[i].wf());
        }
    }
    assert forall|i: int, k: int|
        0 <= i < n && 0 <= k < after.spec_adjacency()[i].len() implies edge_fits(
        after.spec_nodes(),
        i,
        #[trigger] after.spec_adjacency()[i][k],
    ) by {
        let e = after.spec_adjacency()[i][k];
        assert(edge_fits(before.spec_nodes(), i, e));
        assert(after.spec_nodes()[e.spec_goes_to() as int] == before.spec_nodes()[e.spec_goes_to() as int]);
        if i < n - 1 {
            assert(after.spec_nodes()[i] == before.spec_nodes()[i]);
        }
    }
}

impl DAG {
    /// The main node, the last one added.
    pub open spec fn spec_main(&self) -> Node {
        self.spec_nodes().last()
    }

    /// The main node, with every earlier node and every edge kept, after `f`
    /// changes it.
    pub open spec fn main_changed(before: DAG, after: DAG) -> bool {
        &&& after.spec_nodes().len() == before.spec_nodes().len()
        &&& after.spec_adjacency() == before.spec_adjacency()
        &&& forall|i: int| 0 <= i < before.spec_nodes().len() - 1 ==> after.spec_nodes()[i] == before.spec_nodes()[i]
        &&& after.spec_prime() == before.spec_prime()
        &&& after.spec_one_signal() == before.spec_one_signal()
    }

    /// Adds an input to the main node, numbered after its signals; does
    /// nothing when there is no node.
    pub fn add_input(&mut self, name: String, is_public: bool)
        requires
            old(self).wf(),
            old(self).spec_nodes().len() > 0 ==> old(self).spec_main().spec_number_of_signals() < usize::MAX,
        ensures
            final(self).wf(),
            old(self).spec_nodes().len() == 0 ==> *final(self) == *old(self),
            old(self).spec_nodes().len() > 0 ==> {
                let (o, m) = (old(self).spec_main(), final(self).spec_main());
                &&& DAG::main_changed(*old(self), *final(self))
                &&& Node::one_more_signal(o, m)
                &&& m.spec_reachables() == o.spec_reachables().insert(m.spec_number_of_signals())
                &&& m.spec_number_of_signals() == o.spec_number_of_signals() + 1
                &&& m.spec_inputs() == o.spec_inputs() + 1
                &&& m.spec_public_inputs() == o.spec_public_inputs() + if is_public { 1int } else { 0int }
                &&& m.spec_outputs() == o.spec_outputs()
                &&& m.spec_intermediates() == o.spec_intermediates()
                &&& m.spec_correspondence() == o.spec_correspondence().insert(name@, m.spec_number_of_signals())
                &&& m.spec_io_signals() == o.spec_io_signals().push(m.spec_number_of_signals())
                &&& m.spec_locals() == o.spec_locals().insert(m.spec_number_of_signals())
                &&& m.spec_forbidden_if_main() == if is_public {
                    o.spec_forbidden_if_main().insert(m.spec_number_of_signals())
                } else {
                    o.spec_forbidden_if_main()
                }
            },
    {
        if self.nodes.len() == 0 {
            return;
        }
        let ghost before = *self;
        proof {
            assert(before.spec_nodes()[before.spec_nodes().len() - 1].wf());
        }
        let mut main = self.nodes.pop().unwrap();
        main.add_input(name, is_public);
        self.nodes.push(main);
        proof {
            assert(self.spec_nodes().drop_last() =~= before.spec_nodes().drop_last());
            assert(self.spec_adjacency() =~= before.spec_adjacency());
            lemma_main_grows(before, *self);
        }
    }

    /// Adds an output to the main node, numbered after its signals; does
    /// nothing when there is no node.
    pub fn add_output(&mut self, name: String)
        requires
            old(self).wf(),
            old(self).spec_nodes().len() > 0 ==> old(self).spec_main().spec_number_of_signals() < usize::MAX,
        ensures
            final(self).wf(),
            old(self).spec_nodes().len() == 0 ==> *final(self) == *old(self),
            old(self).spec_nodes().len() > 0 ==> {
                let (o, m) = (old(self).spec_main(), final(self).spec_main());
                &&& DAG::main_changed(*old(self), *final(self))
                &&& Node::one_more_signal(o, m)
                &&& m.spec_reachables() == o.spec_reachables().insert(m.spec_number_of_signals())
                &&& m.spec_number_of_signals() == o.spec_number_of_signals() + 1
                &&& m.spec_outputs() == o.spec_outputs() + 1
                &&& m.spec_inputs() == o.spec_inputs()
                &&& m.spec_public_inputs() == o.spec_public_inputs()
                &&& m.spec_intermediates() == o.spec_intermediates()
                &&& m.spec_correspondence() == o.spec_correspondence().insert(name@, m.spec_number_of_signals())
                &&& m.spec_io_signals() == o.spec_io_signals().push(m.spec_number_of_signals())
                &&& m.spec_locals() == o.spec_locals().insert(m.spec_number_of_signals())
                &&& m.spec_forbidden_if_main() == o.spec_forbidden_if_main().insert(m.spec_number_of_signals())
            },
    {
        if self.nodes.len() == 0 {
            return;
        }
        let ghost before = *self;
        proof {
            assert(before.spec_nodes()[before.spec_nodes().len() - 1].wf());
        }
        let mut main = self.nodes.pop().unwrap();
        main.add_output(name);
        self.nodes.push(main);
        proof {
            assert(self.spec_nodes().drop_last() =~= before.spec_nodes().drop_last());
            assert(self.spec_adjacency() =~= before.spec_adjacency());
            lemma_main_grows(before, *self);
        }
    }

    /// Adds an intermediate signal to the main node, numbered after its
    /// signals; does nothing when there is no node.
    pub fn add_intermediate(&mut self, name: String)
        requires
            old(self).wf(),
            old(self).spec_nodes().len() > 0 ==> old(self).spec_main().spec_number_of_signals() < usize::MAX,
        ensures
            final(self).wf(),
            old(self).spec_nodes().len() == 0 ==> *final(self) == *old(self),
            old(self).spec_nodes().len() > 0 ==> {
                let (o, m) = (old(self).spec_main(), final(self).spec_main());
                &&& DAG::main_changed(*old(self), *final(self))
                &&& Node::one_more_signal(o, m)
                &&& m.spec_reachables() == o.spec_reachables().insert(m.spec_number_of_signals())
                &&& m.spec_number_of_signals() == o.spec_number_of_signals() + 1
                &&& m.spec_intermediates() == o.spec_intermediates() + 1
                &&& m.spec_inputs() == o.spec_inputs()
                &&& m.spec_public_inputs() == o.spec_public_inputs()
                &&& m.spec_outputs() == o.spec_outputs()
                &&& m.spec_correspondence() == o.spec_correspondence().insert(name@, m.spec_number_of_signals())
                &&& m.spec_io_signals() == o.spec_io_signals()
                &&& m.spec_locals() == o.spec_locals().insert(m.spec_number_of_signals())
            },
    {
        if self.nodes.len() == 0 {
            return;
        }
        let ghost before = *self;
        proof {
            assert(before.spec_nodes()[before.spec_nodes().len() - 1].wf());
        }
        let mut main = self.nodes.pop().unwrap();
        main.add_intermediate(name);
        self.nodes.push(main);
        proof {
            assert(self.spec_nodes().drop_last() =~= before.spec_nodes().drop_last());
            assert(self.spec_adjacency() =~= before.spec_adjacency());
            lemma_main_grows(before, *self);
        }
    }
}

impl DAG {
    /// The numbers, in the main node, of the inputs and outputs of the
    /// subcomponent `t` whose signals start after `offset`.
    pub open spec fn io_reached(t: Node, offset: usize) -> Set<usize> {
        Set::new(
            |x: usize|
                exists|n: Seq<char>|
                    t.spec_correspondence().dom().contains(n) && t.spec_locals().contains(
                        #[trigger] t.spec_correspondence()[n],
                    ) && t.spec_correspondence()[n] <= t.spec_inputs() + t.spec_outputs() && x == (offset
                        + t.spec_correspondence()[n]) as usize,
        )
    }

    /// Makes node `to` a subcomponent of the main node, under `label`: its
    /// signals and components are numbered after those of the main node so
    /// far, and the main node names its local signals `label.name`. Returns
    /// the new edge, or nothing when `to` is not an earlier node.
    pub fn add_edge(&mut self, to: usize, label: &str, is_parallel: bool) -> (res: Option<Edge>)
        requires
            old(self).wf(),
            old(self).spec_nodes().len() > 0,
            to < old(self).spec_nodes().len() - 1 ==> old(self).spec_main().spec_number_of_signals()
                + old(self).spec_nodes()[to as int].spec_number_of_signals() <= usize::MAX
                && old(self).spec_main().spec_number_of_components() + old(
                self,
            ).spec_nodes()[to as int].spec_number_of_components() <= usize::MAX,
        ensures
            final(self).wf(),
            to >= old(self).spec_nodes().len() - 1 ==> res is None && *final(self) == *old(self),
            to < old(self).spec_nodes().len() - 1 ==> {
                let (o, m, t) = (old(self).spec_main(), final(self).spec_main(), old(self).spec_nodes()[to as int]);
                let main = old(self).spec_nodes().len() - 1;
                &&& res matches Some(e)
                &&& e.spec_label() == label@
                &&& e.spec_goes_to() == to
                &&& e.spec_in() == o.spec_number_of_signals()
                &&& e.spec_out() == o.spec_number_of_signals() + t.spec_number_of_signals()
                &&& e.spec_in_component() == o.spec_number_of_components()
                &&& e.spec_out_component() == o.spec_number_of_components() + t.spec_number_of_components()
                &&& final(self).spec_nodes().len() == old(self).spec_nodes().len()
                &&& forall|i: int| 0 <= i < main ==> final(self).spec_nodes()[i] == old(self).spec_nodes()[i]
                &&& final(self).spec_adjacency() == old(self).spec_adjacency().update(
                    main,
                    old(self).spec_adjacency()[main].push(final(self).spec_adjacency()[main].last()),
                )
                &&& same_edge(final(self).spec_adjacency()[main].last(), e)
                &&& m.spec_number_of_signals() == o.spec_number_of_signals() + t.spec_number_of_signals()
                &&& m.spec_number_of_components() == o.spec_number_of_components() + t.spec_number_of_components()
                &&& m.spec_has_parallel_subcomponent() == (o.spec_has_parallel_subcomponent() || t.spec_is_parallel()
                    || is_parallel)
                &&& m.spec_correspondence() == o.spec_correspondence().union_prefer_right(
                    edge_names(label@, t.spec_correspondence(), t.spec_locals(), o.spec_number_of_signals()),
                )
                &&& m.spec_reachables() == o.spec_reachables().union(
                    DAG::io_reached(t, o.spec_number_of_signals()),
                )
                &&& m.spec_inputs() == o.spec_inputs()
                &&& m.spec_public_inputs() == o.spec_public_inputs()
                &&& m.spec_outputs() == o.spec_outputs()
                &&& m.spec_intermediates() == o.spec_intermediates()
                &&& m.spec_locals() == o.spec_locals()
                &&& final(self).spec_prime() == old(self).spec_prime()
                &&& m.spec_entry().spec_label() == o.spec_entry().spec_label()
                &&& m.spec_entry().spec_goes_to() == o.spec_entry().spec_goes_to()
                &&& m.spec_entry().spec_in() == o.spec_entry().spec_in()
                &&& m.spec_entry().spec_out() == o.spec_entry().spec_out() + t.spec_number_of_signals()
                &&& m.spec_entry().spec_out() == m.spec_number_of_signals()
                &&& m.spec_entry().spec_in_component() == o.spec_entry().spec_in_component()
                &&& m.spec_entry().spec_out_component() == o.spec_entry().spec_out_component()
                    + t.spec_number_of_components()
            },
    {
        let from = self.nodes.len() - 1;
        if !(to < from) {
            return None;
        }
        let ghost before = *self;
        proof {
            assert(before.spec_nodes()[from as int].wf());
            assert(before.spec_nodes()[to as int].wf());
        }
        let mut main = self.nodes.pop().unwrap();
        let target = &self.nodes[to];
        let in_num = main.number_of_signals;
        let in_component_num = main.number_of_components;
        let out_num = in_num + target.number_of_signals;
        let out_component_num = in_component_num + target.number_of_components;
        main.number_of_signals = out_num;
        main.entry.out_number = main.entry.out_number + target.number_of_signals;
        main.number_of_components = out_component_num;
        main.entry.out_component_number = main.entry.out_component_number + target.number_of_components;
        main.has_parallel_subcomponent = main.has_parallel_subcomponent || target.is_parallel || is_parallel;
        let with = Edge {
            label: String::from_str(label),
            goes_to: to,
            in_number: in_num,
            out_number: out_num,
            in_component_number: in_component_num,
            out_component_number: out_component_num,
        };
        let ghost o = before.spec_nodes()[from as int];
        let ghost t = *target;
        let ghost tc = target.signal_correspondence@;
        let io_bound = target.inputs_length + target.outputs_length;
        let mut i: usize = 0;
        proof {
            assert(tc.subrange(0, 0) =~= Seq::<(String, usize)>::empty());
            assert(o.spec_correspondence().union_prefer_right(Map::empty()) =~= o.spec_correspondence());
            assert(o.spec_reachables().union(Set::empty()) =~= o.spec_reachables());
        }
        while i < target.signal_correspondence.len()
            invariant
                i <= tc.len(),
                tc == target.signal_correspondence@,
                t == *target,
                t.wf(),
                io_bound == t.inputs_length + t.outputs_length,
                main.wf(),
                main.number_of_signals == in_num + t.number_of_signals,
                in_num + t.number_of_signals <= usize::MAX,
                correspondence_map(main.signal_correspondence@) == o.spec_correspondence().union_prefer_right(
                    edge_entries(tc.subrange(0, i as int), label@, t.locals@, in_num),
                ),
                main.reachables@ == o.spec_reachables().union(
                    edge_reachables(tc.subrange(0, i as int), t.locals@, in_num, io_bound as nat),
                ),
                main.entry == (Edge { ..main.entry }),
                main.number_of_components == out_component_num,
                main.has_parallel_subcomponent == (o.has_parallel_subcomponent || t.is_parallel || is_parallel),
                main.inputs_length == o.inputs_length,
                main.public_inputs_length == o.public_inputs_length,
                main.outputs_length == o.outputs_length,
                main.intermediates_length == o.intermediates_length,
                main.locals@ == o.locals@,
                main.entry.goes_to == o.entry.goes_to,
                main.entry.label@ == o.entry.label@,
                main.entry.in_number == o.entry.in_number,
                main.entry.out_number == o.entry.out_number + t.number_of_signals,
                main.entry.in_component_number == o.entry.in_component_number,
                main.entry.out_component_number == o.entry.out_component_number + t.number_of_components,
                main.template_name == o.template_name,
                main.is_parallel == o.is_parallel,
                main.is_custom_gate == o.is_custom_gate,
                main.constraints == o.constraints,
                main.io_signals == o.io_signals,
                main.forbidden_if_main == o.forbidden_if_main,
                main.underscored_signals == o.underscored_signals,
                main.number_of_subcomponents_indexes == o.number_of_subcomponents_indexes,
                main.parameters == o.parameters,
                main.ordered_signals == o.ordered_signals,
            decreases tc.len() - i,
        {
            let id = target.signal_correspondence[i].1;
            let ghost pre = tc.subrange(0, i + 1);
            proof {
                assert(pre.drop_last() =~= tc.subrange(0, i as int));
                assert(pre.last() == tc[i as int]);
                assert(1 <= tc[i as int].1 <= t.number_of_signals);
            }
            if target.locals.contains(&id) {
                let mut name = String::from_str(label);
                name.append(".");
                name.append(target.signal_correspondence[i].0.as_str());
                let value = in_num + id;
                let ghost before_corr = correspondence_map(main.signal_correspondence@);
                insert_correspondence(&mut main.signal_correspondence, name, value);
                proof {
                    reveal_strlit(".");
                    assert(name@ =~= label@ + seq!['.'] + tc[i as int].0@);
                    assert(correspondence_map(main.signal_correspondence@) =~= o.spec_correspondence().union_prefer_right(
                        edge_entries(pre, label@, t.locals@, in_num),
                    ));
                }
                if id <= io_bound {
                    main.reachables.insert(value);
                }
                proof {
                    assert(main.reachables@ =~= o.spec_reachables().union(
                        edge_reachables(pre, t.locals@, in_num, io_bound as nat),
                    ));
                }
            } else {
                proof {
                    assert(main.reachables@ =~= o.spec_reachables().union(
                        edge_reachables(pre, t.locals@, in_num, io_bound as nat),
                    ));
                }
            }
            i = i + 1;
        }
        proof {
            assert(tc.subrange(0, tc.len() as int) =~= tc);
            lemma_edge_entries(tc, label@, t.locals@, in_num);
            lemma_edge_reachables(tc, t.locals@, in_num, io_bound as nat);
            assert(edge_reachables(tc, t.locals@, in_num, io_bound as nat) =~= DAG::io_reached(t, in_num));
        }
        self.nodes.push(main);
        let mut edges = self.adjacency.pop().unwrap();
        let result = with.clone();
        let ghost with_view = with;
        edges.push(with);
        self.adjacency.push(edges);
        proof {
            let e = with_view;
            assert(self.spec_nodes().drop_last() =~= before.spec_nodes().drop_last());
            assert(self.spec_adjacency() =~= before.spec_adjacency().update(
                from as int,
                before.spec_adjacency()[from as int].push(e),
            ));
            let n = self.spec_nodes().len();
            assert forall|i: int| 0 <= i < n implies #[trigger] self.spec_nodes()[i].wf()
                && self.spec_nodes()[i].spec_entry().spec_goes_to() == i by {
                if i < n - 1 {
                    assert(before.spec_nodes()[i].wf());
                }
            }
            assert forall|i: int, k: int|
                0 <= i < n && 0 <= k < self.spec_adjacency()[i].len() implies edge_fits(
                self.spec_nodes(),
                i,
                #[trigger] self.spec_adjacency()[i][k],
            ) by {
                if i == n - 1 && k == self.spec_adjacency()[i].len() - 1 {
                    assert(self.spec_adjacency()[i][k] == e);
                    assert(self.spec_nodes()[to as int] == before.spec_nodes()[to as int]);
                } else {
                    let f = self.spec_adjacency()[i][k];
                    assert(f == before.spec_adjacency()[i][k]);
                    assert(edge_fits(before.spec_nodes(), i, f));
                    assert(self.spec_nodes()[f.spec_goes_to() as int] == before.spec_nodes()[f.spec_goes_to() as int]);
                    if i < n - 1 {
                        assert(self.spec_nodes()[i] == before.spec_nodes()[i]);
                    }
                }
            }
            assert forall|i: int, k: int, l: int|
                0 <= i < n && 0 <= k < l < self.spec_adjacency()[i].len() implies (
            #[trigger] self.spec_adjacency()[i][k]).spec_out() <= (#[trigger] self.spec_adjacency()[i][l]).spec_in()
                && self.spec_adjacency()[i][k].spec_out_component() <= self.spec_adjacency()[i][l].spec_in_component() by {
                let f = self.spec_adjacency()[i][k];
                assert(f == before.spec_adjacency()[i][k]);
                if i == n - 1 && l == self.spec_adjacency()[i].len() - 1 {
                    assert(edge_fits(before.spec_nodes(), i, f));
                } else {
                    assert(self.spec_adjacency()[i][l] == before.spec_adjacency()[i][l]);
                }
            }
        }
        Some(result)
    }
}

impl DAG {
    /// Adds a constraint to the main node; does nothing when there is no
    /// node.
    pub fn add_constraint(&mut self, constraint: Constraint)
        requires
            old(self).wf(),
        ensures
            final(self).wf(),
            old(self).spec_nodes().len() == 0 ==> *final(self) == *old(self),
            old(self).spec_nodes().len() > 0 ==> {
                let (o, m) = (old(self).spec_main(), final(self).spec_main());
                &&& DAG::main_changed(*old(self), *final(self))
                &&& m.spec_number_of_constraints() == o.spec_number_of_constraints() + 1
                &&& m.spec_number_of_signals() == o.spec_number_of_signals()
                &&& m.spec_correspondence() == o.spec_correspondence()
            },
    {
        if self.nodes.len() == 0 {
            return;
        }
        let ghost before = *self;
        proof {
            assert(before.spec_nodes()[before.spec_nodes().len() - 1].wf());
        }
        let mut main = self.nodes.pop().unwrap();
        main.constraints.push(constraint);
        self.nodes.push(main);
        proof {
            assert(self.spec_nodes().drop_last() =~= before.spec_nodes().drop_last());
            assert(self.spec_adjacency() =~= before.spec_adjacency());
            lemma_main_grows(before, *self);
        }
    }

    /// Notes a signal of the main node whose name starts with an underscore;
    /// does nothing when there is no node.
    pub fn add_underscored_signal(&mut self, signal: usize)
        requires
            old(self).wf(),
        ensures
            final(self).wf(),
            old(self).spec_nodes().len() == 0 ==> *final(self) == *old(self),
            old(self).spec_nodes().len() > 0 ==> {
                let (o, m) = (old(self).spec_main(), final(self).spec_main());
                &&& DAG::main_changed(*old(self), *final(self))
                &&& m.spec_underscored() == o.spec_underscored().push(signal)
                &&& m.spec_number_of_signals() == o.spec_number_of_signals()
            },
    {
        if self.nodes.len() == 0 {
            return;
        }
        let ghost before = *self;
        proof {
            assert(before.spec_nodes()[before.spec_nodes().len() - 1].wf());
        }
        let mut main = self.nodes.pop().unwrap();
        main.underscored_signals.push(signal);
        self.nodes.push(main);
        proof {
            assert(self.spec_nodes().drop_last() =~= before.spec_nodes().drop_last());
            assert(self.spec_adjacency() =~= before.spec_adjacency());
            lemma_main_grows(before, *self);
        }
    }

    /// Sets how many subcomponent indexes the main node has; does nothing
    /// when there is no node.
    pub fn set_number_of_subcomponents_indexes(&mut self, number_scmp: usize)
        requires
            old(self).wf(),
        ensures
            final(self).wf(),
            old(self).spec_nodes().len() == 0 ==> *final(self) == *old(self),
            old(self).spec_nodes().len() > 0 ==> {
                let (o, m) = (old(self).spec_main(), final(self).spec_main());
                &&& DAG::main_changed(*old(self), *final(self))
                &&& m.spec_subcomponents_indexes() == number_scmp
                &&& m.spec_number_of_signals() == o.spec_number_of_signals()
            },
    {
        if self.nodes.len() == 0 {
            return;
        }
        let ghost before = *self;
        proof {
            assert(before.spec_nodes()[before.spec_nodes().len() - 1].wf());
        }
        let mut main = self.nodes.pop().unwrap();
        main.number_of_subcomponents_indexes = number_scmp;
        self.nodes.push(main);
        proof {
            assert(self.spec_nodes().drop_last() =~= before.spec_nodes().drop_last());
            assert(self.spec_adjacency() =~= before.spec_adjacency());
            lemma_main_grows(before, *self);
        }
    }

    pub fn get_node(&self, id: usize) -> (res: Option<&Node>)
        ensures
            id < self.spec_nodes().len() ==> res == Some(&self.spec_nodes()[id as int]),
            id >= self.spec_nodes().len() ==> res is None,
    {
        if id < self.nodes.len() {
            Some(&self.nodes[id])
        } else {
            None
        }
    }

    /// The position, among the edges of `source`, of the first one that goes
    /// to `target`.
    fn raw_find_id_connexion(&self, source: usize, target: usize) -> (res: Option<usize>)
        requires
            self.wf(),
            source < self.spec_nodes().len(),
        ensures
            match res {
                Some(i) => i < self.spec_adjacency()[source as int].len()
                    && self.spec_adjacency()[source as int][i as int].spec_goes_to() == target
                    && forall|j: int| 0 <= j < i ==> (#[trigger] self.spec_adjacency()[source as int][j]).spec_goes_to() != target,
                None => forall|j: int|
                    0 <= j < self.spec_adjacency()[source as int].len() ==> (#[trigger] self.spec_adjacency()[source as int][j]).spec_goes_to() != target,
            },
    {
        let cc = &self.adjacency[source];
        proof {
            assert(cc@ == self.spec_adjacency()[source as int]);
        }
        let mut index: usize = 0;
        while index < cc.len() && cc[index].get_goes_to() != target
            invariant
                index <= cc@.len(),
                cc@ == self.spec_adjacency()[source as int],
                forall|j: int| 0 <= j < index ==> (#[trigger] cc@[j]).spec_goes_to() != target,
            decreases cc@.len() - index,
        {
            index = index + 1;
        }
        if index == cc.len() {
            None
        } else {
            Some(index)
        }
    }

    /// The first edge from `from` to `to`.
    pub fn get_connexion(&self, from: usize, to: usize) -> (res: Option<&Edge>)
        requires
            self.wf(),
            from < self.spec_nodes().len(),
        ensures
            match res {
                Some(e) => exists|i: int|
                    0 <= i < self.spec_adjacency()[from as int].len() && *e == self.spec_adjacency()[from as int][i]
                        && e.spec_goes_to() == to && forall|j: int|
                        0 <= j < i ==> (#[trigger] self.spec_adjacency()[from as int][j]).spec_goes_to() != to,
                None => forall|j: int|
                    0 <= j < self.spec_adjacency()[from as int].len() ==> (#[trigger] self.spec_adjacency()[from as int][j]).spec_goes_to() != to,
            },
    {
        let index = self.raw_find_id_connexion(from, to);
        if let Some(i) = index {
            proof {
                assert(self.adjacency@[from as int]@ == self.spec_adjacency()[from as int]);
            }
            Some(&self.adjacency[from][i])
        } else {
            None
        }
    }

    pub fn get_edges(&self, node: usize) -> (res: Option<&Vec<Edge>>)
        requires
            self.wf(),
        ensures
            node < self.spec_nodes().len() ==> (res matches Some(v) && v@ == self.spec_adjacency()[node as int]),
            node >= self.spec_nodes().len() ==> res is None,
    {
        if node < self.nodes.len() {
            Some(&self.adjacency[node])
        } else {
            None
        }
    }

    pub fn get_main(&self) -> (res: Option<&Node>)
        ensures
            self.spec_nodes().len() > 0 ==> res == Some(&self.spec_main()),
            self.spec_nodes().len() == 0 ==> res is None,
    {
        if self.nodes.len() == 0 {
            None
        } else {
            Some(&self.nodes[self.nodes.len() - 1])
        }
    }

    /// The witness of the DAG; see `witness_producer::produce_witness`.
    pub fn produce_witness(&self) -> (res: Vec<usize>)
        requires
            self.wf(),
            self.spec_nodes().len() > 0,
        ensures
            res@ == seq![0usize] + witness_producer::tree_witness(
                self.spec_nodes(),
                self.spec_adjacency(),
                (self.spec_nodes().len() - 1) as nat,
                self.spec_main().spec_entry().spec_in(),
            ),
    {
        witness_producer::produce_witness(self)
    }

    pub fn main_id(&self) -> (res: usize)
        requires
            self.spec_nodes().len() > 0,
        ensures
            res == self.spec_nodes().len() - 1,
    {
        self.nodes.len() - 1
    }

    pub fn number_of_nodes(&self) -> (res: usize)
        ensures
            res == self.spec_nodes().len(),
    {
        self.nodes.len()
    }

    pub fn get_entry(&self) -> (res: Option<&Edge>)
        ensures
            self.spec_nodes().len() > 0 ==> res == Some(&self.spec_main().spec_entry()),
            self.spec_nodes().len() == 0 ==> res is None,
    {
        match self.get_main() {
            Some(main) => Some(main.get_entry()),
            None => None,
        }
    }

    /// The public inputs of the main node, or 0 without nodes.
    pub fn public_inputs(&self) -> (res: usize)
        ensures
            res == if self.spec_nodes().len() > 0 { self.spec_main().spec_public_inputs() } else { 0 },
    {
        match self.get_main() {
            Some(main) => main.number_of_public_inputs(),
            None => 0,
        }
    }

    /// The private inputs of the main node, or 0 without nodes.
    pub fn private_inputs(&self) -> (res: usize)
        requires
            self.wf(),
        ensures
            res == if self.spec_nodes().len() > 0 {
                self.spec_main().spec_inputs() - self.spec_main().spec_public_inputs()
            } else {
                0
            },
    {
        proof {
            if self.spec_nodes().len() > 0 {
                assert(self.spec_nodes()[self.spec_nodes().len() - 1].wf());
            }
        }
        match self.get_main() {
            Some(main) => main.number_of_private_inputs(),
            None => 0,
        }
    }

    /// The outputs of the main node, or 0 without nodes.
    pub fn public_outputs(&self) -> (res: usize)
        ensures
            res == if self.spec_nodes().len() > 0 { self.spec_main().spec_outputs() } else { 0 },
    {
        match self.get_main() {
            Some(main) => main.number_of_outputs(),
            None => 0,
        }
    }
}

/// The edge of the encoding that stands for a DAG edge: the node it goes to,
/// its label as path and where its signals start.
pub fn map_edge_to_encoding(edge: Edge) -> (res: EncodingEdge)
    ensures
        res.goes_to == edge.spec_goes_to(),
        res.path@ == edge.spec_label(),
        res.offset == edge.spec_in(),
{
    EncodingEdge { goes_to: edge.goes_to, path: edge.label, offset: edge.in_number }
}

/// The position of the last `c` in `s`, if any.
pub open spec fn last_index_of(s: Seq<char>, c: char) -> Option<int>
    decreases s.len(),
{
    if s.len() == 0 {
        None
    } else if s.last() == c {
        Some(s.len() - 1)
    } else {
        last_index_of(s.drop_last(), c)
    }
}

/// The position of the first `c` in `s`, or the length of `s`.
pub open spec fn first_index_of(s: Seq<char>, c: char) -> int
    decreases s.len(),
{
    if s.len() == 0 {
        0
    } else if s[0] == c {
        0
    } else {
        1 + first_index_of(s.drop_first(), c)
    }
}

/// The name of a signal without the indexes of its last component: what
/// lies up to the last `.` is kept, and of the rest what comes before the
/// first `[`.
pub open spec fn signal_name_without_index(name: Seq<char>) -> Seq<char> {
    let start = match last_index_of(name, '.') {
        Some(i) => i + 1,
        None => 0,
    };
    let last = name.subrange(start, name.len() as int);
    name.subrange(0, start) + last.subrange(0, first_index_of(last, '['))
}

pub proof fn lemma_first_index_of(s: Seq<char>, c: char)
    ensures
        0 <= first_index_of(s, c) <= s.len(),
        first_index_of(s, c) < s.len() ==> s[first_index_of(s, c)] == c,
        forall|j: int| 0 <= j < first_index_of(s, c) ==> s[j] != c,
    decreases s.len(),
{
    if s.len() > 0 && s[0] != c {
        lemma_first_index_of(s.drop_first(), c);
        assert forall|j: int| 0 <= j < first_index_of(s, c) implies s[j] != c by {
            if j > 0 {
                assert(s[j] == s.drop_first()[j - 1]);
            }
        }
    }
}

proof fn lemma_last_index_of(s: Seq<char>, c: char)
    ensures
        last_index_of(s, c) matches Some(i) ==> 0 <= i < s.len() && s[i] == c && forall|j: int| i < j < s.len() ==> s[j] != c,
        last_index_of(s, c) is None ==> forall|j: int| 0 <= j < s.len() ==> s[j] != c,
    decreases s.len(),
{
    if s.len() > 0 && s.last() != c {
        let p = s.drop_last();
        lemma_last_index_of(p, c);
        assert forall|j: int| 0 <= j < p.len() implies s[j] == p[j] by {}
        assert(s[s.len() - 1] == s.last());
        if let Some(i) = last_index_of(p, c) {
            assert forall|j: int| i < j < s.len() implies s[j] != c by {
                if j < p.len() {
                    assert(s[j] == p[j]);
                }
            }
        } else {
            assert forall|j: int| 0 <= j < s.len() implies s[j] != c by {
                if j < p.len() {
                    assert(s[j] == p[j]);
                }
            }
        }
    } else if s.len() > 0 {
        assert(s[s.len() - 1] == s.last());
    }
}

/// `name` without the array indexes of its last component, which groups the
/// signals of one array: `a.b[2].c[3][4]` gives `a.b[2].c`.
pub fn split_signal_name_index(name: &String) -> (res: String)
    ensures
        res@ == signal_name_without_index(name@),
{
    let s = name.as_str();
    let n = s.unicode_len();
    proof {
        lemma_last_index_of(name@, '.');
    }
    let mut start: usize = n;
    while start > 0 && s.get_char(start - 1) != '.'
        invariant
            start <= n,
            n == name@.len(),
            s@ == name@,
            forall|j: int| start <= j < n ==> name@[j] != '.',
        decreases start,
    {
        start = start - 1;
    }
    proof {
        let expected = match last_index_of(name@, '.') {
            Some(i) => i + 1,
            None => 0,
        };
        if start > 0 {
            assert(name@[start - 1] == '.');
            if let Some(i) = last_index_of(name@, '.') {
                assert(i == start - 1);
            }
        } else {
            if let Some(i) = last_index_of(name@, '.') {
                assert(name@[i] == '.');
            }
        }
        assert(start == expected);
    }
    let last = s.substring_char(start, n);
    let m = last.unicode_len();
    proof {
        lemma_first_index_of(last@, '[');
    }
    let mut end: usize = 0;
    while end < m && last.get_char(end) != '['
        invariant
            end <= m,
            m == last@.len(),
            forall|j: int| 0 <= j < end ==> last@[j] != '[',
        decreases m - end,
    {
        end = end + 1;
    }
    proof {
        if end < m {
            assert(last@[end as int] == '[');
        }
        assert(end == first_index_of(last@, '['));
    }
    let mut result = String::from_str(s.substring_char(0, start));
    result.append(last.substring_char(0, end));
    result
}

} // verus!
