//! What the execution learns of each expression node: whether it was reached,
//! and the one value it took, if it always took the same number.
//!
//! A value is a point of a flat lattice: nothing seen yet, one number, or
//! more than one (or something that is not a number). A number is held as its
//! canonical byte encoding, so that two numbers are equal exactly when their
//! encodings are.

use vstd::prelude::*;

verus! {

/// A point of the flat lattice, as the contracts see it.
pub enum ValueSpec {
    Bottom,
    Val(Seq<u8>),
    Top,
}

/// A point of the flat lattice.
pub enum ValuePOS {
    Bottom,
    Val(Vec<u8>),
    Top,
}

impl View for ValuePOS {
    type V = ValueSpec;

    open spec fn view(&self) -> ValueSpec {
        match self {
            ValuePOS::Bottom => ValueSpec::Bottom,
            ValuePOS::Val(v) => ValueSpec::Val(v@),
            ValuePOS::Top => ValueSpec::Top,
        }
    }
}

/// The least upper bound of two points of the flat lattice.
pub open spec fn spec_lub(l: ValueSpec, r: ValueSpec) -> ValueSpec {
    match (l, r) {
        (v, ValueSpec::Bottom) => v,
        (ValueSpec::Bottom, v) => v,
        (ValueSpec::Val(a), ValueSpec::Val(b)) => if a == b {
            ValueSpec::Val(a)
        } else {
            ValueSpec::Top
        },
        _ => ValueSpec::Top,
    }
}

/// The point that a value computed for a node stands for: its number, or
/// `Top` where the value is not a number.
pub open spec fn point_of(value: Option<Seq<u8>>) -> ValueSpec {
    match value {
        Some(n) => ValueSpec::Val(n),
        None => ValueSpec::Top,
    }
}

fn copy_bytes(v: &Vec<u8>) -> (res: Vec<u8>)
    ensures
        res@ == v@,
{
    let mut res: Vec<u8> = Vec::new();
    let mut i: usize = 0;
    while i < v.len()
        invariant
            i <= v.len(),
            res@ == v@.subrange(0, i as int),
        decreases v.len() - i,
    {
        res.push(v[i]);
        i = i + 1;
        assert(res@ == v@.subrange(0, i as int));
    }
    assert(res@ == v@);
    res
}

fn bytes_equal(a: &Vec<u8>, b: &Vec<u8>) -> (res: bool)
    ensures
        res == (a@ == b@),
{
    if a.len() != b.len() {
        return false;
    }
    let mut i: usize = 0;
    while i < a.len()
        invariant
            i <= a.len(),
            a.len() == b.len(),
            a@.subrange(0, i as int) == b@.subrange(0, i as int),
        decreases a.len() - i,
    {
        if a[i] != b[i] {
            assert(a@[i as int] != b@[i as int]);
            return false;
        }
        i = i + 1;
        assert(a@.subrange(0, i as int) =~= b@.subrange(0, i as int)) by {
            assert forall|k: int| 0 <= k < i implies a@[k] == b@[k] by {
                if k < i - 1 {
                    assert(a@.subrange(0, i - 1)[k] == b@.subrange(0, i - 1)[k]);
                }
            }
        }
    }
    assert(a@ =~= a@.subrange(0, a.len() as int));
    assert(b@ =~= b@.subrange(0, b.len() as int));
    true
}

impl ValuePOS {
    /// A copy of the point.
    pub fn copy(&self) -> (res: ValuePOS)
        ensures
            res@ == self@,
    {
        match self {
            ValuePOS::Bottom => ValuePOS::Bottom,
            ValuePOS::Val(v) => ValuePOS::Val(copy_bytes(v)),
            ValuePOS::Top => ValuePOS::Top,
        }
    }

    /// The least upper bound of `l` and `r`.
    pub fn least_upper_bound(l: &ValuePOS, r: &ValuePOS) -> (res: ValuePOS)
        ensures
            res@ == spec_lub(l@, r@),
    {
        match (l, r) {
            (v, ValuePOS::Bottom) => v.copy(),
            (ValuePOS::Bottom, v) => v.copy(),
            (ValuePOS::Val(a), ValuePOS::Val(b)) => {
                if bytes_equal(a, b) {
                    ValuePOS::Val(copy_bytes(a))
                } else {
                    ValuePOS::Top
                }
            },
            _ => ValuePOS::Top,
        }
    }
}

/// The least upper bound is commutative.
pub proof fn law_lub_commutative(l: ValueSpec, r: ValueSpec)
    ensures
        spec_lub(l, r) == spec_lub(r, l),
{
}

/// The least upper bound is associative.
pub proof fn law_lub_associative(a: ValueSpec, b: ValueSpec, c: ValueSpec)
    ensures
        spec_lub(spec_lub(a, b), c) == spec_lub(a, spec_lub(b, c)),
{
}

/// Joining a point with itself gives it back.
pub proof fn law_lub_idempotent(a: ValueSpec)
    ensures
        spec_lub(a, a) == a,
{
}

/// `Bottom` is the identity of the join and `Top` absorbs every point.
pub proof fn law_lub_bottom_top(a: ValueSpec)
    ensures
        spec_lub(a, ValueSpec::Bottom) == a,
        spec_lub(ValueSpec::Bottom, a) == a,
        spec_lub(a, ValueSpec::Top) == ValueSpec::Top,
        spec_lub(ValueSpec::Top, a) == ValueSpec::Top,
{
}

/// What the execution learnt of the expression nodes, indexed by node id.
pub struct Analysis {
    reached: Vec<bool>,
    computed_values: Vec<ValuePOS>,
}

impl Analysis {
    /// Which nodes were reached.
    pub closed spec fn spec_reached(&self) -> Seq<bool> {
        self.reached@
    }

    /// The point learnt for each node.
    pub closed spec fn spec_values(&self) -> Seq<ValueSpec> {
        self.computed_values@.map_values(|v: ValuePOS| v@)
    }

    /// Both tables cover the same node ids.
    pub open spec fn wf(&self) -> bool {
        self.spec_reached().len() == self.spec_values().len()
    }

    /// The analysis of `id_max` nodes, none reached, nothing computed.
    pub fn new(id_max: usize) -> (res: Analysis)
        ensures
            res.wf(),
            res.spec_reached() == Seq::new(id_max as nat, |i: int| false),
            res.spec_values() == Seq::new(id_max as nat, |i: int| ValueSpec::Bottom),
    {
        let mut reached: Vec<bool> = Vec::new();
        let mut computed_values: Vec<ValuePOS> = Vec::new();
        let mut i: usize = 0;
        while i < id_max
            invariant
                i <= id_max,
                reached@ == Seq::new(i as nat, |k: int| false),
                computed_values@.len() == i,
                forall|k: int| 0 <= k < i ==> (#[trigger] computed_values@[k])@ == ValueSpec::Bottom,
            decreases id_max - i,
        {
            reached.push(false);
            computed_values.push(ValuePOS::Bottom);
            i = i + 1;
            assert(reached@ =~= Seq::new(i as nat, |k: int| false));
        }
        assert(computed_values@.map_values(|v: ValuePOS| v@) =~= Seq::new(
            id_max as nat,
            |k: int| ValueSpec::Bottom,
        ));
        Analysis { reached, computed_values }
    }

    /// Marks node `id` as reached.
    pub fn reached(analysis: &mut Analysis, id: usize)
        requires
            old(analysis).wf(),
            id < old(analysis).spec_reached().len(),
        ensures
            final(analysis).wf(),
            final(analysis).spec_reached() == old(analysis).spec_reached().update(id as int, true),
            final(analysis).spec_values() == old(analysis).spec_values(),
    {
        analysis.reached.set(id, true);
    }

    /// Whether node `id` was reached.
    pub fn is_reached(analysis: &Analysis, id: usize) -> (res: bool)
        requires
            id < analysis.spec_reached().len(),
        ensures
            res == analysis.spec_reached()[id as int],
    {
        analysis.reached[id]
    }

    /// Records that node `id` took `value`: its number, or `None` where the
    /// value was not a number. The node's point becomes its join with the
    /// number, or `Top`.
    pub fn computed(analysis: &mut Analysis, id: usize, value: Option<Vec<u8>>)
        requires
            old(analysis).wf(),
            id < old(analysis).spec_values().len(),
        ensures
            final(analysis).wf(),
            final(analysis).spec_reached() == old(analysis).spec_reached(),
            final(analysis).spec_values() == old(analysis).spec_values().update(
                id as int,
                match value {
                    Some(n) => spec_lub(old(analysis).spec_values()[id as int], ValueSpec::Val(n@)),
                    None => ValueSpec::Top,
                },
            ),
    {
        let ghost before = analysis.computed_values@;
        let new_point = match value {
            Some(n) => {
                let new = ValuePOS::Val(n);
                ValuePOS::least_upper_bound(&analysis.computed_values[id], &new)
            },
            None => ValuePOS::Top,
        };
        analysis.computed_values.set(id, new_point);
        assert(analysis.computed_values@.map_values(|v: ValuePOS| v@) =~= before.map_values(
            |v: ValuePOS| v@,
        ).update(
            id as int,
            match value {
                Some(n) => spec_lub(before[id as int]@, ValueSpec::Val(n@)),
                None => ValueSpec::Top,
            },
        ));
    }

    /// The number that node `id` always took, if it took exactly one.
    pub fn read_computed(analysis: &Analysis, id: usize) -> (res: Option<Vec<u8>>)
        requires
            id < analysis.spec_values().len(),
        ensures
            match analysis.spec_values()[id as int] {
                ValueSpec::Val(n) => res is Some && res->0@ == n,
                _ => res is None,
            },
    {
        match &analysis.computed_values[id] {
            ValuePOS::Val(v) => Some(copy_bytes(v)),
            _ => None,
        }
    }
}

/// Once a node's point is `Top`, no later value brings back a number.
pub proof fn law_top_stays(value: Option<Seq<u8>>)
    ensures
        match value {
            Some(n) => spec_lub(ValueSpec::Top, ValueSpec::Val(n)),
            None => ValueSpec::Top,
        } == ValueSpec::Top,
{
}

/// Recording the same number twice keeps it; recording two different
/// numbers leaves none.
pub proof fn law_two_numbers(a: Seq<u8>, b: Seq<u8>)
    ensures
        spec_lub(spec_lub(ValueSpec::Bottom, ValueSpec::Val(a)), ValueSpec::Val(b)) == (if a
            == b {
            ValueSpec::Val(a)
        } else {
            ValueSpec::Top
        }),
{
}

} // verus!
