//! What the template instances of a DAG cost, in constraints, signals and
//! components, and how the costs add up over the circuit.

use vstd::prelude::*;

verus! {

/// `x`, or the largest `usize` when it does not fit: what saturating
/// arithmetic gives.
pub open spec fn sat(x: int) -> usize {
    if x > usize::MAX {
        usize::MAX
    } else {
        x as usize
    }
}

/// `a * b`, saturating at the largest `usize`.
pub fn saturating_mul(a: usize, b: usize) -> (res: usize)
    ensures
        res == sat(a * b),
{
    match a.checked_mul(b) {
        Some(x) => x,
        None => usize::MAX,
    }
}

/// Number of constraints, split by shape. `linear` is the number of
/// constraints whose A and B parts are empty, and `signal_equalities` /
/// `constant_equalities` are the two degenerate subcases of a linear
/// constraint (s1 === s2 and s === k), so they are already counted inside
/// `linear`.
#[derive(Clone, Copy, Debug, PartialEq, Eq, Structural)]
pub struct ConstraintStats {
    pub total: usize,
    pub non_linear: usize,
    pub linear: usize,
    pub signal_equalities: usize,
    pub constant_equalities: usize,
}

/// Field by field saturating sum.
pub open spec fn constraint_stats_sum(a: ConstraintStats, b: ConstraintStats) -> ConstraintStats {
    ConstraintStats {
        total: sat(a.total + b.total),
        non_linear: sat(a.non_linear + b.non_linear),
        linear: sat(a.linear + b.linear),
        signal_equalities: sat(a.signal_equalities + b.signal_equalities),
        constant_equalities: sat(a.constant_equalities + b.constant_equalities),
    }
}

/// Field by field saturating product.
pub open spec fn constraint_stats_times(a: ConstraintStats, k: usize) -> ConstraintStats {
    ConstraintStats {
        total: sat(a.total * k),
        non_linear: sat(a.non_linear * k),
        linear: sat(a.linear * k),
        signal_equalities: sat(a.signal_equalities * k),
        constant_equalities: sat(a.constant_equalities * k),
    }
}

impl Default for ConstraintStats {
    fn default() -> (res: Self)
        ensures
            res == (ConstraintStats { total: 0, non_linear: 0, linear: 0, signal_equalities: 0, constant_equalities: 0 }),
    {
        ConstraintStats { total: 0, non_linear: 0, linear: 0, signal_equalities: 0, constant_equalities: 0 }
    }
}

impl ConstraintStats {
    pub fn add(&mut self, other: &ConstraintStats)
        ensures
            *final(self) == constraint_stats_sum(*old(self), *other),
    {
        self.total = self.total.saturating_add(other.total);
        self.non_linear = self.non_linear.saturating_add(other.non_linear);
        self.linear = self.linear.saturating_add(other.linear);
        self.signal_equalities = self.signal_equalities.saturating_add(other.signal_equalities);
        self.constant_equalities = self.constant_equalities.saturating_add(other.constant_equalities);
    }

    pub fn scale(&self, times: usize) -> (res: ConstraintStats)
        ensures
            res == constraint_stats_times(*self, times),
    {
        ConstraintStats {
            total: saturating_mul(self.total, times),
            non_linear: saturating_mul(self.non_linear, times),
            linear: saturating_mul(self.linear, times),
            signal_equalities: saturating_mul(self.signal_equalities, times),
            constant_equalities: saturating_mul(self.constant_equalities, times),
        }
    }
}

/// Number of signals, split by kind. `public_inputs` is a subset of
/// `inputs`.
#[derive(Clone, Copy, Debug, PartialEq, Eq, Structural)]
pub struct SignalStats {
    pub total: usize,
    pub inputs: usize,
    pub public_inputs: usize,
    pub outputs: usize,
    pub intermediates: usize,
}

pub open spec fn signal_stats_sum(a: SignalStats, b: SignalStats) -> SignalStats {
    SignalStats {
        total: sat(a.total + b.total),
        inputs: sat(a.inputs + b.inputs),
        public_inputs: sat(a.public_inputs + b.public_inputs),
        outputs: sat(a.outputs + b.outputs),
        intermediates: sat(a.intermediates + b.intermediates),
    }
}

pub open spec fn signal_stats_times(a: SignalStats, k: usize) -> SignalStats {
    SignalStats {
        total: sat(a.total * k),
        inputs: sat(a.inputs * k),
        public_inputs: sat(a.public_inputs * k),
        outputs: sat(a.outputs * k),
        intermediates: sat(a.intermediates * k),
    }
}

impl Default for SignalStats {
    fn default() -> (res: Self)
        ensures
            res == (SignalStats { total: 0, inputs: 0, public_inputs: 0, outputs: 0, intermediates: 0 }),
    {
        SignalStats { total: 0, inputs: 0, public_inputs: 0, outputs: 0, intermediates: 0 }
    }
}

impl SignalStats {
    pub fn add(&mut self, other: &SignalStats)
        ensures
            *final(self) == signal_stats_sum(*old(self), *other),
    {
        self.total = self.total.saturating_add(other.total);
        self.inputs = self.inputs.saturating_add(other.inputs);
        self.public_inputs = self.public_inputs.saturating_add(other.public_inputs);
        self.outputs = self.outputs.saturating_add(other.outputs);
        self.intermediates = self.intermediates.saturating_add(other.intermediates);
    }

    pub fn scale(&self, times: usize) -> (res: SignalStats)
        ensures
            res == signal_stats_times(*self, times),
    {
        SignalStats {
            total: saturating_mul(self.total, times),
            inputs: saturating_mul(self.inputs, times),
            public_inputs: saturating_mul(self.public_inputs, times),
            outputs: saturating_mul(self.outputs, times),
            intermediates: saturating_mul(self.intermediates, times),
        }
    }
}

/// What a piece of the circuit costs: its constraints, its signals and how
/// many components it contains.
#[derive(Clone, Copy, Debug, PartialEq, Eq, Structural)]
pub struct Cost {
    pub constraints: ConstraintStats,
    pub signals: SignalStats,
    pub components: usize,
}

/// The saturating sum of two costs, field by field.
pub open spec fn cost_sum(a: Cost, b: Cost) -> Cost {
    Cost {
        constraints: constraint_stats_sum(a.constraints, b.constraints),
        signals: signal_stats_sum(a.signals, b.signals),
        components: sat(a.components + b.components),
    }
}

/// A cost taken `k` times, saturating, field by field.
pub open spec fn cost_times(a: Cost, k: usize) -> Cost {
    Cost {
        constraints: constraint_stats_times(a.constraints, k),
        signals: signal_stats_times(a.signals, k),
        components: sat(a.components * k),
    }
}

/// The cost of nothing.
pub open spec fn zero_cost() -> Cost {
    Cost {
        constraints: ConstraintStats { total: 0, non_linear: 0, linear: 0, signal_equalities: 0, constant_equalities: 0 },
        signals: SignalStats { total: 0, inputs: 0, public_inputs: 0, outputs: 0, intermediates: 0 },
        components: 0,
    }
}

impl Default for Cost {
    fn default() -> (res: Self)
        ensures
            res == zero_cost(),
    {
        Cost { constraints: ConstraintStats::default(), signals: SignalStats::default(), components: 0 }
    }
}

impl Cost {
    pub fn add(&mut self, other: &Cost)
        ensures
            *final(self) == cost_sum(*old(self), *other),
    {
        self.constraints.add(&other.constraints);
        self.signals.add(&other.signals);
        self.components = self.components.saturating_add(other.components);
    }

    pub fn scale(&self, times: usize) -> (res: Cost)
        ensures
            res == cost_times(*self, times),
    {
        Cost {
            constraints: self.constraints.scale(times),
            signals: self.signals.scale(times),
            components: saturating_mul(self.components, times),
        }
    }
}

proof fn lemma_sat_add_assoc(a: usize, b: usize, c: usize)
    ensures
        sat(sat(a + b) + c) == sat(a + sat(b + c)),
        sat(sat(a + b) + c) == sat(a + b + c),
{
}

proof fn lemma_sat_distributes(a: usize, b: usize, k: usize)
    ensures
        sat(sat(a + b) * k) == sat(sat(a * k) + sat(b * k)),
{
    if k == 0 {
        assert(sat(a + b) * k == 0) by (nonlinear_arith)
            requires
                k == 0,
        ;
        assert(a * k == 0 && b * k == 0) by (nonlinear_arith)
            requires
                k == 0,
        ;
    } else {
        assert((a + b) * k == a * k + b * k) by (nonlinear_arith);
        assert(a * k >= a && b * k >= b) by (nonlinear_arith)
            requires
                k >= 1,
        ;
        if a + b > usize::MAX {
            assert(usize::MAX * k >= usize::MAX) by (nonlinear_arith)
                requires
                    k >= 1,
            ;
        } else {
            assert(sat(a + b) * k == (a + b) * k);
        }
    }
}

/// Adding costs does not depend on their order: the saturating sum is
/// commutative and associative, and the cost of nothing adds nothing.
pub proof fn law_cost_sum_monoid(a: Cost, b: Cost, c: Cost)
    ensures
        cost_sum(a, b) == cost_sum(b, a),
        cost_sum(cost_sum(a, b), c) == cost_sum(a, cost_sum(b, c)),
        cost_sum(a, zero_cost()) == a,
{
    lemma_sat_add_assoc(a.constraints.total, b.constraints.total, c.constraints.total);
    lemma_sat_add_assoc(a.constraints.non_linear, b.constraints.non_linear, c.constraints.non_linear);
    lemma_sat_add_assoc(a.constraints.linear, b.constraints.linear, c.constraints.linear);
    lemma_sat_add_assoc(
        a.constraints.signal_equalities,
        b.constraints.signal_equalities,
        c.constraints.signal_equalities,
    );
    lemma_sat_add_assoc(
        a.constraints.constant_equalities,
        b.constraints.constant_equalities,
        c.constraints.constant_equalities,
    );
    lemma_sat_add_assoc(a.signals.total, b.signals.total, c.signals.total);
    lemma_sat_add_assoc(a.signals.inputs, b.signals.inputs, c.signals.inputs);
    lemma_sat_add_assoc(a.signals.public_inputs, b.signals.public_inputs, c.signals.public_inputs);
    lemma_sat_add_assoc(a.signals.outputs, b.signals.outputs, c.signals.outputs);
    lemma_sat_add_assoc(a.signals.intermediates, b.signals.intermediates, c.signals.intermediates);
    lemma_sat_add_assoc(a.components, b.components, c.components);
}

/// Taking a sum of costs `k` times is the sum of each taken `k` times; taking
/// a cost once leaves it as it is, and taking it no time gives nothing.
pub proof fn law_cost_times_distributes(a: Cost, b: Cost, k: usize)
    ensures
        cost_times(cost_sum(a, b), k) == cost_sum(cost_times(a, k), cost_times(b, k)),
        cost_times(a, 1) == a,
        cost_times(a, 0) == zero_cost(),
{
    lemma_sat_distributes(a.constraints.total, b.constraints.total, k);
    lemma_sat_distributes(a.constraints.non_linear, b.constraints.non_linear, k);
    lemma_sat_distributes(a.constraints.linear, b.constraints.linear, k);
    lemma_sat_distributes(a.constraints.signal_equalities, b.constraints.signal_equalities, k);
    lemma_sat_distributes(a.constraints.constant_equalities, b.constraints.constant_equalities, k);
    lemma_sat_distributes(a.signals.total, b.signals.total, k);
    lemma_sat_distributes(a.signals.inputs, b.signals.inputs, k);
    lemma_sat_distributes(a.signals.public_inputs, b.signals.public_inputs, k);
    lemma_sat_distributes(a.signals.outputs, b.signals.outputs, k);
    lemma_sat_distributes(a.signals.intermediates, b.signals.intermediates, k);
    lemma_sat_distributes(a.components, b.components, k);
}

proof fn lemma_sat_times_step(a: usize, k: usize)
    requires
        k < usize::MAX,
    ensures
        sat(a * (k + 1)) == sat(sat(a * k) + a),
{
    assert(a * (k + 1) == a * k + a) by (nonlinear_arith);
    assert(a * k >= 0) by (nonlinear_arith);
}

/// Taking constraint counts `k + 1` times is taking them `k` times and once
/// more, each count saturating; taking them no time gives none.
pub proof fn law_constraint_stats_times_step(c: ConstraintStats, k: usize)
    requires
        k < usize::MAX,
    ensures
        constraint_stats_times(c, (k + 1) as usize) == constraint_stats_sum(constraint_stats_times(c, k), c),
        constraint_stats_times(c, 0) == (ConstraintStats {
            total: 0,
            non_linear: 0,
            linear: 0,
            signal_equalities: 0,
            constant_equalities: 0,
        }),
{
    lemma_sat_times_step(c.total, k);
    lemma_sat_times_step(c.non_linear, k);
    lemma_sat_times_step(c.linear, k);
    lemma_sat_times_step(c.signal_equalities, k);
    lemma_sat_times_step(c.constant_equalities, k);
    assert(c.total * 0 == 0 && c.non_linear * 0 == 0 && c.linear * 0 == 0 && c.signal_equalities * 0 == 0
        && c.constant_equalities * 0 == 0) by (nonlinear_arith);
}

/// Taking signal counts `k + 1` times is taking them `k` times and once
/// more, each count saturating; taking them no time gives none.
pub proof fn law_signal_stats_times_step(c: SignalStats, k: usize)
    requires
        k < usize::MAX,
    ensures
        signal_stats_times(c, (k + 1) as usize) == signal_stats_sum(signal_stats_times(c, k), c),
        signal_stats_times(c, 0) == (SignalStats { total: 0, inputs: 0, public_inputs: 0, outputs: 0, intermediates: 0 }),
{
    lemma_sat_times_step(c.total, k);
    lemma_sat_times_step(c.inputs, k);
    lemma_sat_times_step(c.public_inputs, k);
    lemma_sat_times_step(c.outputs, k);
    lemma_sat_times_step(c.intermediates, k);
    assert(c.total * 0 == 0 && c.inputs * 0 == 0 && c.public_inputs * 0 == 0 && c.outputs * 0 == 0
        && c.intermediates * 0 == 0) by (nonlinear_arith);
}

/// Taking a cost `k + 1` times is taking it `k` times and adding it once
/// more: scaling is repeated saturating addition.
pub proof fn law_cost_times_step(a: Cost, k: usize)
    requires
        k < usize::MAX,
    ensures
        cost_times(a, (k + 1) as usize) == cost_sum(cost_times(a, k), a),
{
    law_constraint_stats_times_step(a.constraints, k);
    law_signal_stats_times_step(a.signals, k);
    lemma_sat_times_step(a.components, k);
}

} // verus!
