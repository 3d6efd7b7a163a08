//! What each template instance of the instantiated circuit costs, read from
//! the tree of components, and the text helpers of the table that shows it.

use vstd::prelude::*;
use vstd::multiset::Multiset;
use vstd::string::StringExecFns;
use vstd::string::StrSliceExecFns;
use crate::dag::template_info::sat;
use vstd::utf8::encode_utf8;
use vstd::string::StringSliceAdditionalSpecFns;
use crate::encoding::{lex_lt, lex_less, lemma_lex_irreflexive, lemma_lex_transitive, lemma_lex_total, lemma_lex_asymmetric};

verus! {

/// Number of constraints, split by shape.
#[derive(Clone, Copy, Debug, PartialEq, Eq, Structural)]
pub struct ConstraintStats {
    pub total: usize,
    pub non_linear: usize,
    pub linear: usize,
}

/// Number of signals, split by kind.
#[derive(Clone, Copy, Debug, PartialEq, Eq, Structural)]
pub struct SignalStats {
    pub total: usize,
    pub inputs: usize,
    pub outputs: usize,
    pub intermediates: usize,
}

/// What a piece of the circuit costs: its constraints, its signals and how
/// many components it contains.
#[derive(Clone, Copy, Debug, PartialEq, Eq, Structural)]
pub struct Cost {
    pub constraints: ConstraintStats,
    pub signals: SignalStats,
    pub components: usize,
}

/// The saturating sum of two costs, field by field.
pub open spec fn cost_sum(a: Cost, b: Cost) -> Cost {
    Cost {
        constraints: ConstraintStats {
            total: sat(a.constraints.total + b.constraints.total),
            non_linear: sat(a.constraints.non_linear + b.constraints.non_linear),
            linear: sat(a.constraints.linear + b.constraints.linear),
        },
        signals: SignalStats {
            total: sat(a.signals.total + b.signals.total),
            inputs: sat(a.signals.inputs + b.signals.inputs),
            outputs: sat(a.signals.outputs + b.signals.outputs),
            intermediates: sat(a.signals.intermediates + b.signals.intermediates),
        },
        components: sat(a.components + b.components),
    }
}

/// The cost of nothing.
pub open spec fn zero_cost() -> Cost {
    Cost {
        constraints: ConstraintStats { total: 0, non_linear: 0, linear: 0 },
        signals: SignalStats { total: 0, inputs: 0, outputs: 0, intermediates: 0 },
        components: 0,
    }
}

impl Default for Cost {
    fn default() -> (res: Self)
        ensures
            res == zero_cost(),
    {
        Cost {
            constraints: ConstraintStats { total: 0, non_linear: 0, linear: 0 },
            signals: SignalStats { total: 0, inputs: 0, outputs: 0, intermediates: 0 },
            components: 0,
        }
    }
}

impl Cost {
    pub fn add(&mut self, other: &Cost)
        ensures
            *final(self) == cost_sum(*old(self), *other),
    {
        self.constraints.total = self.constraints.total.saturating_add(other.constraints.total);
        self.constraints.non_linear = self.constraints.non_linear.saturating_add(other.constraints.non_linear);
        self.constraints.linear = self.constraints.linear.saturating_add(other.constraints.linear);
        self.signals.total = self.signals.total.saturating_add(other.signals.total);
        self.signals.inputs = self.signals.inputs.saturating_add(other.signals.inputs);
        self.signals.outputs = self.signals.outputs.saturating_add(other.signals.outputs);
        self.signals.intermediates = self.signals.intermediates.saturating_add(other.signals.intermediates);
        self.components = self.components.saturating_add(other.components);
    }
}

/// The name of a template instance up to its first `(`: the template's
/// name.
pub open spec fn template_name_of(name: Seq<char>) -> Seq<char> {
    name.subrange(0, crate::dag::first_index_of(name, '('))
}

pub fn template_of(name: &str) -> (res: String)
    ensures
        res@ == template_name_of(name@),
{
    let n = name.unicode_len();
    let mut i: usize = 0;
    proof {
        crate::dag::lemma_first_index_of(name@, '(');
    }
    while i < n && name.get_char(i) != '('
        invariant
            i <= n,
            n == name@.len(),
            forall|j: int| 0 <= j < i ==> name@[j] != '(',
        decreases n - i,
    {
        i = i + 1;
    }
    proof {
        if i < n {
            assert(name@[i as int] == '(');
        }
        assert(i == crate::dag::first_index_of(name@, '('));
    }
    String::from_str(name.substring_char(0, i))
}

/// `n` spaces.
pub open spec fn spaces(n: nat) -> Seq<char> {
    Seq::new(n, |i: int| ' ')
}

fn push_spaces(out: &mut String, n: usize)
    ensures
        final(out)@ == old(out)@ + spaces(n as nat),
{
    let mut i: usize = 0;
    while i < n
        invariant
            i <= n,
            out@ == old(out)@ + spaces(i as nat),
        decreases n - i,
    {
        out.append(" ");
        proof {
            reveal_strlit(" ");
            assert(out@ =~= old(out)@ + spaces((i + 1) as nat));
        }
        i = i + 1;
    }
}

/// A name cut in the middle to `limit` characters, `...` standing for what
/// was cut; names that fit, and limits below 5, leave it whole.
pub open spec fn shortened(name: Seq<char>, limit: nat) -> Seq<char> {
    if name.len() <= limit || limit < 5 {
        name
    } else {
        let kept = (limit - 3) as nat;
        let head = (kept - kept / 2) as nat;
        name.subrange(0, head as int) + "..."@ + name.subrange(name.len() - (kept - head), name.len() as int)
    }
}

pub fn shorten(name: &str, limit: usize) -> (res: String)
    ensures
        res@ == shortened(name@, limit as nat),
{
    let n = name.unicode_len();
    if n <= limit || limit < 5 {
        return String::from_str(name);
    }
    let kept = limit - 3;
    let head = kept - kept / 2;
    let mut shortened = String::from_str(name.substring_char(0, head));
    shortened.append("...");
    shortened.append(name.substring_char(n - (kept - head), n));
    shortened
}

/// `text` with spaces around it to take `width` characters, the extra one,
/// if any, on the right; text as wide or wider stays as it is.
pub open spec fn centered(text: Seq<char>, width: nat) -> Seq<char> {
    if text.len() >= width {
        text
    } else {
        let left = ((width - text.len()) / 2) as nat;
        spaces(left) + text + spaces((width - text.len() - left) as nat)
    }
}

pub fn center(text: &str, width: usize) -> (res: String)
    ensures
        res@ == centered(text@, width as nat),
{
    let length = text.unicode_len();
    if length >= width {
        return String::from_str(text);
    }
    let left = (width - length) / 2;
    let mut out = String::new();
    push_spaces(&mut out, left);
    out.append(text);
    push_spaces(&mut out, width - length - left);
    proof {
        assert(out@ =~= centered(text@, width as nat));
    }
    out
}

/// The widest a name in the table may be; longer names are cut in the
/// middle.
pub const NAME_LIMIT: usize = 46;

/// A component of the instantiated circuit, with its subcomponents: the
/// node it instantiates, its names, its counts of constraints and signals
/// and where its signals start.
pub struct TreeConstraints {
    pub node_id: usize,
    pub template_name: String,
    pub component_name: String,
    pub number_constraints: usize,
    pub number_non_linear_constraints: usize,
    pub number_linear_constraints: usize,
    pub number_signals: usize,
    pub number_inputs: usize,
    pub number_outputs: usize,
    pub initial_signal: usize,
    pub is_custom: bool,
    pub is_deterministic: bool,
    pub subcomponents: Vec<TreeConstraints>,
}

/// `a - b`, or 0 when `b` is larger.
pub open spec fn sat_sub(a: usize, b: usize) -> usize {
    if a >= b {
        (a - b) as usize
    } else {
        0
    }
}

/// What a component declares itself: its constraints, its signals (those
/// neither inputs nor outputs are intermediates) and its subcomponents.
pub open spec fn own_cost(t: TreeConstraints) -> Cost {
    Cost {
        constraints: ConstraintStats {
            total: t.number_constraints,
            non_linear: t.number_non_linear_constraints,
            linear: t.number_linear_constraints,
        },
        signals: SignalStats {
            total: t.number_signals,
            inputs: t.number_inputs,
            outputs: t.number_outputs,
            intermediates: sat_sub(sat_sub(t.number_signals, t.number_inputs), t.number_outputs),
        },
        components: t.subcomponents@.len() as usize,
    }
}

/// The cost of a component with its whole subtree: its own constraints and
/// signals, plus the subtree of each subcomponent and one component for
/// each.
pub open spec fn tree_cost(t: TreeConstraints) -> Cost
    decreases t,
{
    subtrees_cost(Cost { components: 0, ..own_cost(t) }, t.subcomponents@)
}

/// `acc` with the subtrees of `subs` added, each counting one component
/// more.
pub open spec fn subtrees_cost(acc: Cost, subs: Seq<TreeConstraints>) -> Cost
    decreases subs,
{
    if subs.len() == 0 {
        acc
    } else {
        let before = subtrees_cost(acc, subs.drop_last());
        let with = cost_sum(before, tree_cost(subs.last()));
        Cost { components: sat(with.components + 1), ..with }
    }
}

/// The components of a tree, each after its subcomponents.
pub open spec fn occurrences(t: TreeConstraints) -> Seq<TreeConstraints>
    decreases t,
{
    occurrences_of(t.subcomponents@) + seq![t]
}

/// The components of the trees `subs`, one tree after the other.
pub open spec fn occurrences_of(subs: Seq<TreeConstraints>) -> Seq<TreeConstraints>
    decreases subs,
{
    if subs.len() == 0 {
        Seq::empty()
    } else {
        occurrences_of(subs.drop_last()) + occurrences(subs.last())
    }
}

/// Cost of one template instance, that is, of one instantiation of a
/// template with concrete arguments such as `Num2Bits(254)`.
pub struct InstanceInfo {
    pub node_id: usize,
    /// Instantiation name, arguments included: `Num2Bits(254)`.
    pub name: String,
    /// Name of the template alone: `Num2Bits`.
    pub template: String,
    pub is_custom: bool,
    pub is_deterministic: bool,
    /// Times this instance appears as a component in the expanded circuit.
    pub components: usize,
    /// Cost of one component, counting only what the template body declares.
    pub own: Cost,
    /// Cost of one component, subcomponents included.
    pub tree: Cost,
    /// `own` times `components`: what this instance adds to the circuit.
    pub total_own: Cost,
    /// `tree` times `components`.
    pub total_tree: Cost,
}

/// An instance taken by value.
pub struct InstanceView {
    pub node_id: usize,
    pub name: Seq<char>,
    pub template: Seq<char>,
    pub is_custom: bool,
    pub is_deterministic: bool,
    pub components: usize,
    pub own: Cost,
    pub tree: Cost,
    pub total_own: Cost,
    pub total_tree: Cost,
}

impl View for InstanceInfo {
    type V = InstanceView;

    open spec fn view(&self) -> InstanceView {
        InstanceView {
            node_id: self.node_id,
            name: self.name@,
            template: self.template@,
            is_custom: self.is_custom,
            is_deterministic: self.is_deterministic,
            components: self.components,
            own: self.own,
            tree: self.tree,
            total_own: self.total_own,
            total_tree: self.total_tree,
        }
    }
}

pub open spec fn instances_view(v: Seq<InstanceInfo>) -> Seq<InstanceView> {
    v.map_values(|i: InstanceInfo| i@)
}

/// No two instances share a node.
pub open spec fn nodes_distinct(v: Seq<InstanceView>) -> bool {
    forall|i: int, j: int| 0 <= i < j < v.len() ==> v[i].node_id != v[j].node_id
}

/// One more component of the instance of `t`: a new instance, with the
/// costs of `t`, the first time its node is met; then its count and totals
/// grow.
pub open spec fn recorded(v: Seq<InstanceView>, t: TreeConstraints) -> Seq<InstanceView> {
    if exists|i: int| 0 <= i < v.len() && v[i].node_id == t.node_id {
        let i = choose|i: int| 0 <= i < v.len() && v[i].node_id == t.node_id;
        v.update(i, grown(v[i], t))
    } else {
        v.push(
            grown(
                InstanceView {
                    node_id: t.node_id,
                    name: t.template_name@,
                    template: template_name_of(t.template_name@),
                    is_custom: t.is_custom,
                    is_deterministic: t.is_deterministic,
                    components: 0,
                    own: own_cost(t),
                    tree: tree_cost(t),
                    total_own: zero_cost(),
                    total_tree: zero_cost(),
                },
                t,
            ),
        )
    }
}

/// The instance with one more component, of the costs of `t`.
pub open spec fn grown(i: InstanceView, t: TreeConstraints) -> InstanceView {
    InstanceView {
        components: (i.components + 1) as usize,
        total_own: cost_sum(i.total_own, own_cost(t)),
        total_tree: cost_sum(i.total_tree, tree_cost(t)),
        ..i
    }
}

/// The instances after the components `occs` are recorded in turn.
pub open spec fn recorded_all(v: Seq<InstanceView>, occs: Seq<TreeConstraints>) -> Seq<InstanceView>
    decreases occs.len(),
{
    if occs.len() == 0 {
        v
    } else {
        recorded(recorded_all(v, occs.drop_last()), occs.last())
    }
}

/// Every count of components can grow by `r` more without overflow.
pub open spec fn room_for(v: Seq<InstanceView>, r: nat) -> bool {
    &&& r <= usize::MAX
    &&& forall|k: int| 0 <= k < v.len() ==> #[trigger] v[k].components + r <= usize::MAX
}

proof fn lemma_recorded(v: Seq<InstanceView>, t: TreeConstraints, r: nat)
    requires
        nodes_distinct(v),
        room_for(v, r + 1),
    ensures
        nodes_distinct(recorded(v, t)),
        room_for(recorded(v, t), r),
{
    let w = recorded(v, t);
    if exists|i: int| 0 <= i < v.len() && v[i].node_id == t.node_id {
        let i = choose|i: int| 0 <= i < v.len() && v[i].node_id == t.node_id;
        assert forall|a: int, b: int| 0 <= a < b < w.len() implies w[a].node_id != w[b].node_id by {
            assert(w[a].node_id == v[a].node_id && w[b].node_id == v[b].node_id);
        }
        assert forall|k: int| 0 <= k < w.len() implies #[trigger] w[k].components + r <= usize::MAX by {
            assert(v[k].components + r + 1 <= usize::MAX);
        }
    } else {
        assert forall|a: int, b: int| 0 <= a < b < w.len() implies w[a].node_id != w[b].node_id by {
            if b == v.len() {
                assert(w[a] == v[a]);
            } else {
                assert(w[a] == v[a] && w[b] == v[b]);
            }
        }
        assert forall|k: int| 0 <= k < w.len() implies #[trigger] w[k].components + r <= usize::MAX by {
            if k < v.len() {
                assert(w[k] == v[k]);
                assert(v[k].components + r + 1 <= usize::MAX);
            }
        }
    }
}

proof fn lemma_recorded_all(v: Seq<InstanceView>, occs: Seq<TreeConstraints>, r: nat)
    requires
        nodes_distinct(v),
        room_for(v, r + occs.len()),
    ensures
        nodes_distinct(recorded_all(v, occs)),
        room_for(recorded_all(v, occs), r),
    decreases occs.len(),
{
    if occs.len() > 0 {
        lemma_recorded_all(v, occs.drop_last(), r + 1);
        lemma_recorded(recorded_all(v, occs.drop_last()), occs.last(), r);
    }
}

proof fn lemma_recorded_all_concat(v: Seq<InstanceView>, a: Seq<TreeConstraints>, b: Seq<TreeConstraints>)
    ensures
        recorded_all(v, a + b) == recorded_all(recorded_all(v, a), b),
    decreases b.len(),
{
    if b.len() == 0 {
        assert(a + b =~= a);
    } else {
        assert((a + b).drop_last() =~= a + b.drop_last());
        assert((a + b).last() == b.last());
        lemma_recorded_all_concat(v, a, b.drop_last());
    }
}

/// Walks the tree, adding up what every component costs into the instance it
/// comes from; returns the cost of the whole tree.
pub fn collect_template_info(tree_constraints: &TreeConstraints, instances: &mut Vec<InstanceInfo>) -> (res: Cost)
    requires
        nodes_distinct(instances_view(old(instances)@)),
        room_for(instances_view(old(instances)@), occurrences(*tree_constraints).len()),
    ensures
        res == tree_cost(*tree_constraints),
        instances_view(final(instances)@) == recorded_all(
            instances_view(old(instances)@),
            occurrences(*tree_constraints),
        ),
        nodes_distinct(instances_view(final(instances)@)),
    decreases occurrences(*tree_constraints).len(),
{
    let t = tree_constraints;
    let own = Cost {
        constraints: ConstraintStats {
            total: t.number_constraints,
            non_linear: t.number_non_linear_constraints,
            linear: t.number_linear_constraints,
        },
        signals: SignalStats {
            total: t.number_signals,
            inputs: t.number_inputs,
            outputs: t.number_outputs,
            intermediates: t.number_signals.saturating_sub(t.number_inputs).saturating_sub(t.number_outputs),
        },
        components: t.subcomponents.len(),
    };
    let mut tree = Cost { components: 0, ..own };
    let ghost start = instances_view(instances@);
    let ghost subs = t.subcomponents@;
    let mut i: usize = 0;
    proof {
        assert(subs.subrange(0, 0) =~= Seq::<TreeConstraints>::empty());
        assert(occurrences(*t) == occurrences_of(subs) + seq![*t]);
        lemma_occurrences_of_prefix(subs, 0);
    }
    while i < t.subcomponents.len()
        invariant
            i <= subs.len(),
            subs == t.subcomponents@,
            *t == *tree_constraints,
            own == own_cost(*t),
            tree == subtrees_cost(Cost { components: 0, ..own_cost(*t) }, subs.subrange(0, i as int)),
            instances_view(instances@) == recorded_all(start, occurrences_of(subs.subrange(0, i as int))),
            nodes_distinct(instances_view(instances@)),
            room_for(instances_view(instances@), (occurrences(*t).len() - occurrences_of(subs.subrange(0, i as int)).len()) as nat),
            occurrences(*t) == occurrences_of(subs) + seq![*t],
            occurrences_of(subs.subrange(0, i as int)).len() <= occurrences_of(subs).len(),
            nodes_distinct(start),
        decreases subs.len() - i,
    {
        let ghost before = instances_view(instances@);
        let ghost pre = subs.subrange(0, i as int);
        let ghost next = subs.subrange(0, i + 1);
        proof {
            assert(next.drop_last() =~= pre);
            assert(next.last() == subs[i as int]);
            lemma_occurrences_of_prefix(subs, (i + 1) as nat);
            assert(occurrences_of(next) == occurrences_of(pre) + occurrences(subs[i as int]));
            assert(room_for(before, occurrences(subs[i as int]).len())) by {
                let r = occurrences(*t).len() - occurrences_of(pre).len();
                assert(occurrences(subs[i as int]).len() <= r);
            }
        }
        let sub = &t.subcomponents[i];
        proof {
            assert(*sub == subs[i as int]);
            assert(occurrences(*sub).len() < occurrences(*t).len());
            assert(occurrences(*sub).len() < occurrences(*tree_constraints).len());
        }
        let subtree = collect_template_info(sub, instances);
        tree.add(&subtree);
        tree.components = tree.components.saturating_add(1);
        proof {
            lemma_recorded_all_concat(start, occurrences_of(pre), occurrences(subs[i as int]));
            let r = occurrences(*t).len() - occurrences_of(next).len();
            lemma_recorded_all(before, occurrences(subs[i as int]), r as nat);
        }
        i = i + 1;
    }
    proof {
        assert(subs.subrange(0, subs.len() as int) =~= subs);
        assert(tree == tree_cost(*t));
    }
    let ghost mid = instances_view(instances@);
    let mut j: usize = 0;
    while j < instances.len() && instances[j].node_id != t.node_id
        invariant
            j <= instances@.len(),
            instances_view(instances@) == mid,
            forall|k: int| 0 <= k < j ==> mid[k].node_id != t.node_id,
        decreases instances@.len() - j,
    {
        j = j + 1;
    }
    proof {
        assert(room_for(mid, 1));
        lemma_recorded(mid, *t, 0);
    }
    if j == instances.len() {
        let name = t.template_name.clone();
        let template = template_of(t.template_name.as_str());
        let mut total_own = Cost::default();
        total_own.add(&own);
        let mut total_tree = Cost::default();
        total_tree.add(&tree);
        instances.push(
            InstanceInfo {
                node_id: t.node_id,
                name,
                template,
                is_custom: t.is_custom,
                is_deterministic: t.is_deterministic,
                components: 1,
                own,
                tree,
                total_own,
                total_tree,
            },
        );
        proof {
            assert(!(exists|i: int| 0 <= i < mid.len() && mid[i].node_id == t.node_id));
            assert(instances_view(instances@) =~= recorded(mid, *t));
        }
    } else {
        let mut entry = instances.remove(j);
        proof {
            assert(entry@ == mid[j as int]);
        }
        entry.components = entry.components + 1;
        entry.total_own.add(&own);
        entry.total_tree.add(&tree);
        instances.insert(j, entry);
        proof {
            assert(mid[j as int].node_id == t.node_id);
            assert(exists|i: int| 0 <= i < mid.len() && mid[i].node_id == t.node_id);
            let c = choose|i: int| 0 <= i < mid.len() && mid[i].node_id == t.node_id;
            assert(c == j) by {
                if c != j {
                    assert(mid[c].node_id != mid[j as int].node_id);
                }
            }
            assert(instances_view(instances@) =~= recorded(mid, *t));
        }
    }
    proof {
        lemma_recorded_all_concat(start, occurrences_of(subs), seq![*t]);
        assert(recorded_all(mid, seq![*t]) == recorded(recorded_all(mid, Seq::empty()), *t)) by {
            assert(seq![*t].drop_last() =~= Seq::<TreeConstraints>::empty());
        }
    }
    tree
}

proof fn lemma_occurrences_of_prefix(subs: Seq<TreeConstraints>, k: nat)
    requires
        k <= subs.len(),
    ensures
        occurrences_of(subs.subrange(0, k as int)).len() <= occurrences_of(subs).len(),
    decreases subs.len(),
{
    if k < subs.len() {
        assert(subs.drop_last().subrange(0, k as int) =~= subs.subrange(0, k as int));
        lemma_occurrences_of_prefix(subs.drop_last(), k);
    } else {
        assert(subs.subrange(0, k as int) =~= subs);
    }
}

/// `a` comes before `b` in the table: it adds more constraints to the
/// circuit; with as many, its name comes first (names compared by their
/// UTF-8 bytes, as strings compare); with the same name, its node does.
pub open spec fn instance_before(a: InstanceView, b: InstanceView) -> bool {
    ||| a.total_own.constraints.total > b.total_own.constraints.total
    ||| a.total_own.constraints.total == b.total_own.constraints.total && lex_lt(
        encode_utf8(a.name),
        encode_utf8(b.name),
    )
    ||| a.total_own.constraints.total == b.total_own.constraints.total && a.name == b.name && a.node_id
        < b.node_id
}

proof fn lemma_utf8_injective(a: Seq<char>, b: Seq<char>)
    requires
        encode_utf8(a) == encode_utf8(b),
    ensures
        a == b,
{
    vstd::utf8::encode_utf8_decode_utf8(a);
    vstd::utf8::encode_utf8_decode_utf8(b);
}

proof fn lemma_instance_order(a: InstanceView, b: InstanceView, c: InstanceView)
    ensures
        !instance_before(a, a),
        instance_before(a, b) && instance_before(b, c) ==> instance_before(a, c),
        a.node_id != b.node_id ==> instance_before(a, b) || instance_before(b, a),
{
    lemma_lex_irreflexive(encode_utf8(a.name));
    if instance_before(a, b) && instance_before(b, c) {
        if lex_lt(encode_utf8(a.name), encode_utf8(b.name)) && lex_lt(encode_utf8(b.name), encode_utf8(c.name)) {
            lemma_lex_transitive(encode_utf8(a.name), encode_utf8(b.name), encode_utf8(c.name));
        }
    }
    if a.node_id != b.node_id && a.total_own.constraints.total == b.total_own.constraints.total {
        if encode_utf8(a.name) != encode_utf8(b.name) {
            lemma_lex_total(encode_utf8(a.name), encode_utf8(b.name));
        } else {
            lemma_utf8_injective(a.name, b.name);
        }
    }
    if lex_lt(encode_utf8(a.name), encode_utf8(b.name)) && a.name == b.name {
        lemma_lex_irreflexive(encode_utf8(a.name));
    }
}

/// Compares two instances as the table orders them.
fn instance_less(a: &InstanceInfo, b: &InstanceInfo) -> (res: bool)
    ensures
        res == instance_before(a@, b@),
{
    let ta = a.total_own.constraints.total;
    let tb = b.total_own.constraints.total;
    if ta != tb {
        return ta > tb;
    }
    let na = a.name.as_str().as_bytes();
    let nb = b.name.as_str().as_bytes();
    if lex_less(na, nb) {
        return true;
    }
    if lex_less(nb, na) {
        proof {
            lemma_lex_asymmetric(nb@, na@);
            if a.name@ == b.name@ {
                lemma_lex_irreflexive(na@);
            }
        }
        return false;
    }
    proof {
        if na@ != nb@ {
            lemma_lex_total(na@, nb@);
        }
        lemma_utf8_injective(a.name@, b.name@);
    }
    a.node_id < b.node_id
}

/// The instances in the order of the table.
pub fn sort_instances(v: Vec<InstanceInfo>) -> (res: Vec<InstanceInfo>)
    requires
        nodes_distinct(instances_view(v@)),
    ensures
        instances_view(res@).to_multiset() == instances_view(v@).to_multiset(),
        forall|i: int, j: int| 0 <= i < j < res@.len() ==> instance_before(res@[i]@, res@[j]@),
{
    broadcast use vstd::seq_lib::group_to_multiset_ensures, vstd::multiset::group_multiset_axioms;
    let ghost orig = instances_view(v@);
    let mut rem = v;
    let mut out: Vec<InstanceInfo> = Vec::new();
    proof {
        assert(instances_view(out@) =~= Seq::<InstanceView>::empty());
        assert(instances_view(out@).to_multiset().add(instances_view(rem@).to_multiset()) =~= orig.to_multiset());
    }
    while rem.len() > 0
        invariant
            nodes_distinct(instances_view(rem@)),
            instances_view(out@).to_multiset().add(instances_view(rem@).to_multiset()) == orig.to_multiset(),
            forall|i: int, j: int| 0 <= i < j < out@.len() ==> instance_before(out@[i]@, out@[j]@),
            forall|i: int, j: int| 0 <= i < out@.len() && 0 <= j < rem@.len() ==> instance_before(out@[i]@, rem@[j]@),
        decreases rem@.len(),
    {
        let mut best: usize = 0;
        let mut i: usize = 1;
        while i < rem.len()
            invariant
                1 <= i <= rem@.len(),
                best < i,
                nodes_distinct(instances_view(rem@)),
                forall|j: int| 0 <= j < i && j != best ==> instance_before(rem@[best as int]@, rem@[j]@),
            decreases rem@.len() - i,
        {
            if instance_less(&rem[i], &rem[best]) {
                proof {
                    assert forall|j: int| 0 <= j < i + 1 && j != i implies instance_before(rem@[i as int]@, rem@[j]@) by {
                        if j != best {
                            lemma_instance_order(rem@[i as int]@, rem@[best as int]@, rem@[j]@);
                        }
                    }
                }
                best = i;
            } else {
                proof {
                    assert(instances_view(rem@)[i as int].node_id != instances_view(rem@)[best as int].node_id);
                    lemma_instance_order(rem@[i as int]@, rem@[best as int]@, rem@[best as int]@);
                }
            }
            i = i + 1;
        }
        let ghost old_rem = rem@;
        let ghost old_out = out@;
        let m = rem.remove(best);
        let ghost mv = m@;
        out.push(m);
        proof {
            assert(instances_view(rem@) =~= instances_view(old_rem).remove(best as int));
            assert(instances_view(out@) =~= instances_view(old_out).push(mv));
            assert(instances_view(old_rem)[best as int] == mv);
            vstd::seq_lib::to_multiset_remove(instances_view(old_rem), best as int);
            vstd::seq_lib::to_multiset_build(instances_view(old_out), mv);
            assert(instances_view(old_rem).to_multiset().contains(mv)) by {
                vstd::seq_lib::to_multiset_contains(instances_view(old_rem), mv);
                assert(instances_view(old_rem).contains(mv));
            }
            assert(instances_view(out@).to_multiset().add(instances_view(rem@).to_multiset()) =~= orig.to_multiset());
            assert forall|a: int, b: int| 0 <= a < b < rem@.len() implies instances_view(rem@)[a].node_id
                != instances_view(rem@)[b].node_id by {
                let oa = if a < best { a } else { a + 1 };
                let ob = if b < best { b } else { b + 1 };
                assert(instances_view(old_rem)[oa].node_id != instances_view(old_rem)[ob].node_id);
                assert(rem@[a] == old_rem[oa] && rem@[b] == old_rem[ob]);
            }
            assert forall|a: int, b: int| 0 <= a < out@.len() && 0 <= b < rem@.len() implies instance_before(
                out@[a]@,
                rem@[b]@,
            ) by {
                let ob = if b < best { b } else { b + 1 };
                assert(rem@[b] == old_rem[ob]);
                if a < old_out.len() {
                    assert(out@[a] == old_out[a]);
                } else {
                    assert(out@[a]@ == mv);
                    assert(ob != best);
                }
            }
            assert forall|a: int, b: int| 0 <= a < b < out@.len() implies instance_before(out@[a]@, out@[b]@) by {
                if b < old_out.len() {
                    assert(out@[a] == old_out[a] && out@[b] == old_out[b]);
                } else {
                    assert(out@[a] == old_out[a]);
                    assert(out@[b]@ == mv);
                    assert(old_rem[best as int]@ == mv);
                }
            }
        }
    }
    proof {
        assert(instances_view(rem@) =~= Seq::<InstanceView>::empty());
        assert(instances_view(out@).to_multiset() =~= orig.to_multiset());
    }
    out
}

/// The same, aggregating every instance of a template (`Num2Bits(254)` and
/// `Num2Bits(8)` are two instances of the template `Num2Bits`).
pub struct TemplateInfo {
    pub template: String,
    pub instances: usize,
    pub components: usize,
    pub total_own: Cost,
    pub total_tree: Cost,
    pub instance_names: Vec<String>,
}

/// A template taken by value.
pub struct TemplateView {
    pub template: Seq<char>,
    pub instances: usize,
    pub components: usize,
    pub total_own: Cost,
    pub total_tree: Cost,
    pub instance_names: Seq<Seq<char>>,
}

impl View for TemplateInfo {
    type V = TemplateView;

    open spec fn view(&self) -> TemplateView {
        TemplateView {
            template: self.template@,
            instances: self.instances,
            components: self.components,
            total_own: self.total_own,
            total_tree: self.total_tree,
            instance_names: self.instance_names@.map_values(|s: String| s@),
        }
    }
}

pub open spec fn templates_view(v: Seq<TemplateInfo>) -> Seq<TemplateView> {
    v.map_values(|t: TemplateInfo| t@)
}

/// The template `g` with the instance `i` counted in it.
pub open spec fn joined(g: TemplateView, i: InstanceView) -> TemplateView {
    TemplateView {
        instances: (g.instances + 1) as usize,
        components: sat(g.components + i.components),
        total_own: cost_sum(g.total_own, i.total_own),
        total_tree: cost_sum(g.total_tree, i.total_tree),
        instance_names: g.instance_names.push(i.name),
        ..g
    }
}

/// The templates with the instance `i` counted in its own: a new template,
/// after the others, the first time it is met.
pub open spec fn grouped_with(gs: Seq<TemplateView>, i: InstanceView) -> Seq<TemplateView> {
    if exists|k: int| 0 <= k < gs.len() && gs[k].template == i.template {
        let k = choose|k: int| 0 <= k < gs.len() && gs[k].template == i.template;
        gs.update(k, joined(gs[k], i))
    } else {
        gs.push(
            joined(
                TemplateView {
                    template: i.template,
                    instances: 0,
                    components: 0,
                    total_own: zero_cost(),
                    total_tree: zero_cost(),
                    instance_names: Seq::empty(),
                },
                i,
            ),
        )
    }
}

/// The templates of a list of instances, in the order they are first met.
pub open spec fn grouped(insts: Seq<InstanceView>) -> Seq<TemplateView>
    decreases insts.len(),
{
    if insts.len() == 0 {
        Seq::empty()
    } else {
        grouped_with(grouped(insts.drop_last()), insts.last())
    }
}

/// No two templates share a name, and none has counted more instances than
/// `n`.
pub open spec fn templates_wf(gs: Seq<TemplateView>, n: nat) -> bool {
    &&& forall|a: int, b: int| 0 <= a < b < gs.len() ==> gs[a].template != gs[b].template
    &&& forall|k: int| 0 <= k < gs.len() ==> #[trigger] gs[k].instances <= n
}

/// Counts each instance in its template.
fn group_by_template(instances: &Vec<InstanceInfo>) -> (res: Vec<TemplateInfo>)
    ensures
        templates_view(res@) == grouped(instances_view(instances@)),
        templates_wf(templates_view(res@), instances@.len()),
{
    let mut groups: Vec<TemplateInfo> = Vec::new();
    let ghost insts = instances_view(instances@);
    let mut i: usize = 0;
    proof {
        assert(insts.subrange(0, 0) =~= Seq::<InstanceView>::empty());
        assert(templates_view(groups@) =~= Seq::<TemplateView>::empty());
    }
    while i < instances.len()
        invariant
            i <= instances@.len(),
            insts == instances_view(instances@),
            templates_view(groups@) == grouped(insts.subrange(0, i as int)),
            templates_wf(templates_view(groups@), i as nat),
        decreases instances@.len() - i,
    {
        let instance = &instances[i];
        let ghost gv = templates_view(groups@);
        let ghost iv = instance@;
        proof {
            let pre = insts.subrange(0, i + 1);
            assert(pre.drop_last() =~= insts.subrange(0, i as int));
            assert(pre.last() == iv);
        }
        let mut k: usize = 0;
        while k < groups.len() && groups[k].template != instance.template
            invariant
                k <= groups@.len(),
                gv == templates_view(groups@),
                iv == instance@,
                forall|j: int| 0 <= j < k ==> gv[j].template != iv.template,
            decreases groups@.len() - k,
        {
            k = k + 1;
        }
        if k == groups.len() {
            groups.push(
                TemplateInfo {
                    template: instance.template.clone(),
                    instances: 0,
                    components: 0,
                    total_own: Cost::default(),
                    total_tree: Cost::default(),
                    instance_names: Vec::new(),
                },
            );
        }
        let ghost g2 = templates_view(groups@);
        proof {
            if k < gv.len() {
                assert(g2 == gv);
                assert(gv[k as int].instances <= i);
            } else {
                assert(g2[k as int].instances == 0);
            }
        }
        let mut entry = groups.remove(k);
        let ghost ev = entry@;
        proof {
            assert(ev == g2[k as int]);
        }
        entry.instances = entry.instances + 1;
        entry.components = entry.components.saturating_add(instance.components);
        entry.total_own.add(&instance.total_own);
        entry.total_tree.add(&instance.total_tree);
        entry.instance_names.push(instance.name.clone());
        groups.insert(k, entry);
        proof {
            assert(entry@.instance_names =~= ev.instance_names.push(iv.name));
            assert(entry@ == joined(ev, iv));
            if k < gv.len() {
                assert(gv[k as int].template == iv.template);
                assert(exists|j: int| 0 <= j < gv.len() && gv[j].template == iv.template);
                let c = choose|j: int| 0 <= j < gv.len() && gv[j].template == iv.template;
                assert(c == k) by {
                    if c != k {
                        assert(gv[c].template != gv[k as int].template);
                    }
                }
                assert(ev == gv[k as int]);
                assert(templates_view(groups@) =~= gv.update(k as int, joined(gv[k as int], iv)));
                assert(grouped_with(gv, iv) == gv.update(k as int, joined(gv[k as int], iv)));
            } else {
                assert(!(exists|j: int| 0 <= j < gv.len() && gv[j].template == iv.template));
                assert(templates_view(groups@) =~= gv.push(joined(ev, iv)));
                assert(ev.instance_names =~= Seq::<Seq<char>>::empty());
                assert(ev == TemplateView {
                    template: iv.template,
                    instances: 0,
                    components: 0,
                    total_own: zero_cost(),
                    total_tree: zero_cost(),
                    instance_names: Seq::empty(),
                });
                assert(grouped_with(gv, iv) == gv.push(joined(ev, iv)));
            }
            assert(templates_view(groups@) == grouped(insts.subrange(0, i + 1)));
            assert forall|a: int, b: int| 0 <= a < b < groups@.len() implies templates_view(groups@)[a].template
                != templates_view(groups@)[b].template by {
                if b < gv.len() {
                    assert(gv[a].template != gv[b].template);
                }
            }
            assert forall|j: int| 0 <= j < groups@.len() implies #[trigger] templates_view(groups@)[j].instances
                <= i + 1 by {
                if j != k {
                    assert(templates_view(groups@)[j] == gv[j]);
                }
            }
        }
        i = i + 1;
    }
    proof {
        assert(insts.subrange(0, instances@.len() as int) =~= insts);
    }
    groups
}

/// The strings in the order strings compare, by their UTF-8 bytes.
pub fn sort_names(v: Vec<String>) -> (res: Vec<String>)
    ensures
        res@.map_values(|s: String| s@).to_multiset() == v@.map_values(|s: String| s@).to_multiset(),
        forall|i: int, j: int| 0 <= i < j < res@.len() ==> !lex_lt(encode_utf8(res@[j]@), encode_utf8(res@[i]@)),
{
    broadcast use vstd::seq_lib::group_to_multiset_ensures, vstd::multiset::group_multiset_axioms;
    let ghost orig = v@.map_values(|s: String| s@);
    let mut rem = v;
    let mut out: Vec<String> = Vec::new();
    proof {
        assert(out@.map_values(|s: String| s@) =~= Seq::<Seq<char>>::empty());
        assert(out@.map_values(|s: String| s@).to_multiset().add(rem@.map_values(|s: String| s@).to_multiset())
            =~= orig.to_multiset());
    }
    while rem.len() > 0
        invariant
            out@.map_values(|s: String| s@).to_multiset().add(rem@.map_values(|s: String| s@).to_multiset())
                == orig.to_multiset(),
            forall|i: int, j: int| 0 <= i < j < out@.len() ==> !lex_lt(encode_utf8(out@[j]@), encode_utf8(out@[i]@)),
            forall|i: int, j: int|
                0 <= i < out@.len() && 0 <= j < rem@.len() ==> !lex_lt(encode_utf8(rem@[j]@), encode_utf8(out@[i]@)),
        decreases rem@.len(),
    {
        let mut best: usize = 0;
        let mut i: usize = 1;
        proof {
            lemma_lex_irreflexive(encode_utf8(rem@[0]@));
        }
        while i < rem.len()
            invariant
                1 <= i <= rem@.len(),
                best < i,
                forall|j: int| 0 <= j < i ==> !lex_lt(encode_utf8(rem@[j]@), encode_utf8(rem@[best as int]@)),
            decreases rem@.len() - i,
        {
            if lex_less(rem[i].as_str().as_bytes(), rem[best].as_str().as_bytes()) {
                proof {
                    assert forall|j: int| 0 <= j < i + 1 implies !lex_lt(encode_utf8(rem@[j]@), encode_utf8(rem@[i as int]@)) by {
                        let (a, b, c) = (encode_utf8(rem@[j]@), encode_utf8(rem@[best as int]@), encode_utf8(rem@[i as int]@));
                        lemma_lex_irreflexive(c);
                        if j < i && lex_lt(a, c) {
                            lemma_lex_transitive(a, c, b);
                        }
                    }
                }
                best = i;
            }
            i = i + 1;
        }
        let ghost old_rem = rem@;
        let ghost old_out = out@;
        let m = rem.remove(best);
        let ghost mv = m@;
        out.push(m);
        proof {
            let orv = old_rem.map_values(|s: String| s@);
            let oov = old_out.map_values(|s: String| s@);
            assert(rem@.map_values(|s: String| s@) =~= orv.remove(best as int));
            assert(out@.map_values(|s: String| s@) =~= oov.push(mv));
            assert(orv[best as int] == mv);
            vstd::seq_lib::to_multiset_remove(orv, best as int);
            vstd::seq_lib::to_multiset_build(oov, mv);
            assert(orv.to_multiset().contains(mv)) by {
                vstd::seq_lib::to_multiset_contains(orv, mv);
                assert(orv.contains(mv));
            }
            assert(out@.map_values(|s: String| s@).to_multiset().add(rem@.map_values(|s: String| s@).to_multiset())
                =~= orig.to_multiset());
            assert forall|a: int, b: int| 0 <= a < out@.len() && 0 <= b < rem@.len() implies !lex_lt(
                encode_utf8(rem@[b]@),
                encode_utf8(out@[a]@),
            ) by {
                let ob = if b < best { b } else { b + 1 };
                assert(rem@[b] == old_rem[ob]);
                if a < old_out.len() {
                    assert(out@[a] == old_out[a]);
                }
            }
            assert forall|a: int, b: int| 0 <= a < b < out@.len() implies !lex_lt(
                encode_utf8(out@[b]@),
                encode_utf8(out@[a]@),
            ) by {
                if b < old_out.len() {
                    assert(out@[a] == old_out[a] && out@[b] == old_out[b]);
                } else {
                    assert(out@[a] == old_out[a]);
                }
            }
        }
    }
    proof {
        assert(rem@.map_values(|s: String| s@) =~= Seq::<Seq<char>>::empty());
        assert(out@.map_values(|s: String| s@).to_multiset() =~= orig.to_multiset());
    }
    out
}

/// `a` comes before `b` in the table of templates: it adds more constraints
/// to the circuit; with as many, its name comes first.
pub open spec fn template_before(a: TemplateView, b: TemplateView) -> bool {
    ||| a.total_own.constraints.total > b.total_own.constraints.total
    ||| a.total_own.constraints.total == b.total_own.constraints.total && lex_lt(
        encode_utf8(a.template),
        encode_utf8(b.template),
    )
}

proof fn lemma_template_order(a: TemplateView, b: TemplateView, c: TemplateView)
    ensures
        !template_before(a, a),
        template_before(a, b) && template_before(b, c) ==> template_before(a, c),
        a.template != b.template ==> template_before(a, b) || template_before(b, a),
{
    lemma_lex_irreflexive(encode_utf8(a.template));
    if template_before(a, b) && template_before(b, c) {
        if lex_lt(encode_utf8(a.template), encode_utf8(b.template)) && lex_lt(
            encode_utf8(b.template),
            encode_utf8(c.template),
        ) {
            lemma_lex_transitive(encode_utf8(a.template), encode_utf8(b.template), encode_utf8(c.template));
        }
    }
    if a.template != b.template && a.total_own.constraints.total == b.total_own.constraints.total {
        if encode_utf8(a.template) != encode_utf8(b.template) {
            lemma_lex_total(encode_utf8(a.template), encode_utf8(b.template));
        } else {
            lemma_utf8_injective(a.template, b.template);
        }
    }
}

fn template_less(a: &TemplateInfo, b: &TemplateInfo) -> (res: bool)
    ensures
        res == template_before(a@, b@),
{
    let ta = a.total_own.constraints.total;
    let tb = b.total_own.constraints.total;
    if ta != tb {
        return ta > tb;
    }
    lex_less(a.template.as_str().as_bytes(), b.template.as_str().as_bytes())
}

/// The templates in the order of the table.
pub fn sort_templates(v: Vec<TemplateInfo>) -> (res: Vec<TemplateInfo>)
    requires
        forall|a: int, b: int| 0 <= a < b < v@.len() ==> v@[a]@.template != v@[b]@.template,
    ensures
        templates_view(res@).to_multiset() == templates_view(v@).to_multiset(),
        forall|i: int, j: int| 0 <= i < j < res@.len() ==> template_before(res@[i]@, res@[j]@),
{
    broadcast use vstd::seq_lib::group_to_multiset_ensures, vstd::multiset::group_multiset_axioms;
    let ghost orig = templates_view(v@);
    let mut rem = v;
    let mut out: Vec<TemplateInfo> = Vec::new();
    proof {
        assert(templates_view(out@) =~= Seq::<TemplateView>::empty());
        assert(templates_view(out@).to_multiset().add(templates_view(rem@).to_multiset()) =~= orig.to_multiset());
    }
    while rem.len() > 0
        invariant
            forall|a: int, b: int| 0 <= a < b < rem@.len() ==> rem@[a]@.template != rem@[b]@.template,
            templates_view(out@).to_multiset().add(templates_view(rem@).to_multiset()) == orig.to_multiset(),
            forall|i: int, j: int| 0 <= i < j < out@.len() ==> template_before(out@[i]@, out@[j]@),
            forall|i: int, j: int| 0 <= i < out@.len() && 0 <= j < rem@.len() ==> template_before(out@[i]@, rem@[j]@),
        decreases rem@.len(),
    {
        let mut best: usize = 0;
        let mut i: usize = 1;
        while i < rem.len()
            invariant
                1 <= i <= rem@.len(),
                best < i,
                forall|a: int, b: int| 0 <= a < b < rem@.len() ==> rem@[a]@.template != rem@[b]@.template,
                forall|j: int| 0 <= j < i && j != best ==> template_before(rem@[best as int]@, rem@[j]@),
            decreases rem@.len() - i,
        {
            if template_less(&rem[i], &rem[best]) {
                proof {
                    assert forall|j: int| 0 <= j < i + 1 && j != i implies template_before(rem@[i as int]@, rem@[j]@) by {
                        if j != best {
                            lemma_template_order(rem@[i as int]@, rem@[best as int]@, rem@[j]@);
                        }
                    }
                }
                best = i;
            } else {
                proof {
                    assert(rem@[i as int]@.template != rem@[best as int]@.template);
                    lemma_template_order(rem@[i as int]@, rem@[best as int]@, rem@[best as int]@);
                }
            }
            i = i + 1;
        }
        let ghost old_rem = rem@;
        let ghost old_out = out@;
        let m = rem.remove(best);
        let ghost mv = m@;
        out.push(m);
        proof {
            assert(templates_view(rem@) =~= templates_view(old_rem).remove(best as int));
            assert(templates_view(out@) =~= templates_view(old_out).push(mv));
            assert(templates_view(old_rem)[best as int] == mv);
            vstd::seq_lib::to_multiset_remove(templates_view(old_rem), best as int);
            vstd::seq_lib::to_multiset_build(templates_view(old_out), mv);
            assert(templates_view(old_rem).to_multiset().contains(mv)) by {
                vstd::seq_lib::to_multiset_contains(templates_view(old_rem), mv);
                assert(templates_view(old_rem).contains(mv));
            }
            assert(templates_view(out@).to_multiset().add(templates_view(rem@).to_multiset()) =~= orig.to_multiset());
            assert forall|a: int, b: int| 0 <= a < b < rem@.len() implies rem@[a]@.template != rem@[b]@.template by {
                let oa = if a < best { a } else { a + 1 };
                let ob = if b < best { b } else { b + 1 };
                assert(rem@[a] == old_rem[oa] && rem@[b] == old_rem[ob]);
            }
            assert forall|a: int, b: int| 0 <= a < out@.len() && 0 <= b < rem@.len() implies template_before(
                out@[a]@,
                rem@[b]@,
            ) by {
                let ob = if b < best { b } else { b + 1 };
                assert(rem@[b] == old_rem[ob]);
                if a < old_out.len() {
                    assert(out@[a] == old_out[a]);
                } else {
                    assert(out@[a]@ == mv);
                    assert(ob != best);
                }
            }
            assert forall|a: int, b: int| 0 <= a < b < out@.len() implies template_before(out@[a]@, out@[b]@) by {
                if b < old_out.len() {
                    assert(out@[a] == old_out[a] && out@[b] == old_out[b]);
                } else {
                    assert(out@[a] == old_out[a]);
                    assert(out@[b]@ == mv);
                    assert(old_rem[best as int]@ == mv);
                }
            }
        }
    }
    proof {
        assert(templates_view(rem@) =~= Seq::<TemplateView>::empty());
        assert(templates_view(out@).to_multiset() =~= orig.to_multiset());
    }
    out
}

proof fn lemma_map_multiset<A, B>(s1: Seq<A>, s2: Seq<A>, f: spec_fn(A) -> B)
    requires
        s1.to_multiset() == s2.to_multiset(),
    ensures
        s1.map_values(f).to_multiset() == s2.map_values(f).to_multiset(),
    decreases s1.len(),
{
    broadcast use vstd::seq_lib::group_to_multiset_ensures, vstd::multiset::group_multiset_axioms;
    if s1.len() == 0 {
        assert(s2.len() == 0) by {
            vstd::seq_lib::to_multiset_len(s1);
            vstd::seq_lib::to_multiset_len(s2);
        }
        assert(s1.map_values(f) =~= Seq::<B>::empty());
        assert(s2.map_values(f) =~= Seq::<B>::empty());
    } else {
        let x = s1.last();
        let p1 = s1.drop_last();
        assert(s1 =~= p1.push(x));
        vstd::seq_lib::to_multiset_build(p1, x);
        assert(s2.to_multiset().contains(x));
        vstd::seq_lib::to_multiset_contains(s2, x);
        let k = choose|k: int| 0 <= k < s2.len() && s2[k] == x;
        let p2 = s2.remove(k);
        vstd::seq_lib::to_multiset_remove(s2, k);
        assert(p1.to_multiset() =~= p2.to_multiset());
        lemma_map_multiset(p1, p2, f);
        assert(s1.map_values(f) =~= p1.map_values(f).push(f(x)));
        vstd::seq_lib::to_multiset_build(p1.map_values(f), f(x));
        assert(s2.map_values(f).remove(k) =~= p2.map_values(f));
        vstd::seq_lib::to_multiset_remove(s2.map_values(f), k);
        assert(s2.map_values(f).to_multiset().contains(f(x))) by {
            vstd::seq_lib::to_multiset_contains(s2.map_values(f), f(x));
            assert(s2.map_values(f)[k] == f(x));
        }
        assert(s1.map_values(f).to_multiset() =~= s2.map_values(f).to_multiset());
    }
}

/// What the table says of a template, its instance names taken as a
/// multiset.
pub open spec fn template_key(g: TemplateView) -> (Seq<char>, usize, usize, Cost, Cost, Multiset<Seq<char>>) {
    (g.template, g.instances, g.components, g.total_own, g.total_tree, g.instance_names.to_multiset())
}

/// The note of the table.
pub open spec fn note_text() -> Seq<char> {
    "Constraints and signals are counted before any simplification round, on the same tree that --print_tree_info writes. A template instance is one instantiation of a template with concrete arguments, and a component is one occurrence of an instance in the expanded circuit. The 'own' figures cover only what the template body declares, the 'tree' ones include its subcomponents, and the 'total_' ones multiply them by the number of components."@
}

/// What the circuit costs, instance by instance and template by template.
pub struct CircuitTemplateInfo {
    pub main: String,
    pub prime: String,
    pub note: String,
    pub circuit: Cost,
    pub number_of_instances: usize,
    pub number_of_components: usize,
    /// One entry per template instance, sorted by the constraints they add
    /// to the circuit.
    pub instances: Vec<InstanceInfo>,
    /// The same information rolled up by template name.
    pub templates: Vec<TemplateInfo>,
}

/// The cost of the circuit of the tree `t`, instance by instance and
/// template by template: instances and templates in the order of the
/// table, each template with the names of its instances sorted.
pub fn build_template_info(tree_constraints: &TreeConstraints, prime: &String) -> (res: CircuitTemplateInfo)
    requires
        occurrences(*tree_constraints).len() <= usize::MAX,
    ensures
        res.main@ == tree_constraints.template_name@,
        res.prime@ == prime@,
        res.note@ == note_text(),
        res.number_of_components == sat(tree_cost(*tree_constraints).components + 1),
        res.circuit == (Cost { components: res.number_of_components, ..tree_cost(*tree_constraints) }),
        res.number_of_instances == res.instances@.len(),
        instances_view(res.instances@).to_multiset() == recorded_all(
            Seq::empty(),
            occurrences(*tree_constraints),
        ).to_multiset(),
        forall|i: int, j: int|
            0 <= i < j < res.instances@.len() ==> instance_before(res.instances@[i]@, res.instances@[j]@),
        templates_view(res.templates@).map_values(|g: TemplateView| template_key(g)).to_multiset() == grouped(
            instances_view(res.instances@),
        ).map_values(|g: TemplateView| template_key(g)).to_multiset(),
        forall|i: int, j: int|
            0 <= i < j < res.templates@.len() ==> template_before(res.templates@[i]@, res.templates@[j]@),
        forall|k: int, i: int, j: int|
            0 <= k < res.templates@.len() && 0 <= i < j < res.templates@[k]@.instance_names.len() ==> !lex_lt(
                encode_utf8(res.templates@[k]@.instance_names[j]),
                encode_utf8(res.templates@[k]@.instance_names[i]),
            ),
{
    let mut by_instance: Vec<InstanceInfo> = Vec::new();
    proof {
        assert(instances_view(by_instance@) =~= Seq::<InstanceView>::empty());
    }
    let circuit = collect_template_info(tree_constraints, &mut by_instance);
    let instances = sort_instances(by_instance);
    let groups = group_by_template(&instances);
    let ghost gv = templates_view(groups@);
    let mut named: Vec<TemplateInfo> = Vec::new();
    let mut rest = groups;
    let mut k: usize = 0;
    let n = rest.len();
    proof {
        assert(rest@.subrange(0, 0) =~= Seq::<TemplateInfo>::empty());
    }
    while rest.len() > 0
        invariant
            k + rest@.len() == n,
            n == gv.len(),
            templates_view(rest@) == gv.subrange(k as int, n as int),
            named@.len() == k,
            forall|a: int| 0 <= a < k ==> #[trigger] template_key(named@[a]@) == template_key(gv[a]),
            forall|a: int, i: int, j: int|
                0 <= a < k && 0 <= i < j < named@[a]@.instance_names.len() ==> !lex_lt(
                    encode_utf8(named@[a]@.instance_names[j]),
                    encode_utf8(named@[a]@.instance_names[i]),
                ),
        decreases rest@.len(),
    {
        let ghost before_rest = rest@;
        let g = rest.remove(0);
        proof {
            assert(g@ == gv[k as int]) by {
                assert(templates_view(before_rest)[0] == gv.subrange(k as int, n as int)[0]);
            }
            assert(rest@ =~= before_rest.subrange(1, before_rest.len() as int));
            assert(templates_view(rest@) =~= templates_view(before_rest).subrange(1, before_rest.len() as int));
            assert(templates_view(rest@) =~= gv.subrange(k + 1, n as int));
        }
        let TemplateInfo { template, instances, components, total_own, total_tree, instance_names } = g;
        let sorted = TemplateInfo {
            template,
            instances,
            components,
            total_own,
            total_tree,
            instance_names: sort_names(instance_names),
        };
        named.push(sorted);
        k = k + 1;
    }
    proof {
        assert(named@.len() == n);
        assert(templates_view(named@).map_values(|g: TemplateView| template_key(g)) =~= gv.map_values(
            |g: TemplateView| template_key(g),
        ));
        assert forall|a: int, b: int| 0 <= a < b < named@.len() implies named@[a]@.template != named@[b]@.template by {
            assert(template_key(named@[a]@) == template_key(gv[a]));
            assert(template_key(named@[b]@) == template_key(gv[b]));
        }
    }
    let ghost named_view = templates_view(named@);
    let templates = sort_templates(named);
    proof {
        lemma_map_multiset(templates_view(templates@), named_view, |g: TemplateView| template_key(g));
        assert forall|a: int, i: int, j: int|
            0 <= a < templates@.len() && 0 <= i < j < templates@[a]@.instance_names.len() implies !lex_lt(
            encode_utf8(templates@[a]@.instance_names[j]),
            encode_utf8(templates@[a]@.instance_names[i]),
        ) by {
            let t = templates_view(templates@)[a];
            assert(templates_view(templates@).to_multiset().contains(t)) by {
                vstd::seq_lib::to_multiset_contains(templates_view(templates@), t);
            }
            assert(named_view.to_multiset().contains(t));
            vstd::seq_lib::to_multiset_contains(named_view, t);
            let b = choose|b: int| 0 <= b < named_view.len() && named_view[b] == t;
            assert(named_view[b] == named@[b]@);
        }
    }
    let number_of_components = circuit.components.saturating_add(1);
    let number_of_instances = instances.len();
    CircuitTemplateInfo {
        main: tree_constraints.template_name.clone(),
        prime: prime.clone(),
        note: String::from_str(
            "Constraints and signals are counted before any simplification round, on the same tree that --print_tree_info writes. A template instance is one instantiation of a template with concrete arguments, and a component is one occurrence of an instance in the expanded circuit. The 'own' figures cover only what the template body declares, the 'tree' ones include its subcomponents, and the 'total_' ones multiply them by the number of components.",
        ),
        circuit: Cost { components: number_of_components, ..circuit },
        number_of_instances,
        number_of_components,
        instances,
        templates,
    }
}

} // verus!
