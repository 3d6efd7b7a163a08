//! The names that instantiation gives to accessed signals, components and
//! buses: a symbol followed by its indexes and field accesses.

use vstd::prelude::*;
use vstd::string::StringExecFns;
use crate::text::{nat_text, push_u64};

verus! {

/// `[i]` for each index, in order.
pub open spec fn index_appendix(indexing: Seq<usize>) -> Seq<char>
    decreases indexing.len(),
{
    if indexing.len() == 0 {
        Seq::empty()
    } else {
        index_appendix(indexing.drop_last()) + seq!['['] + nat_text(indexing.last() as nat) + seq![']']
    }
}

/// The indexes of an access, written as `[i][j]...`.
pub fn create_index_appendix(indexing: &[usize]) -> (res: String)
    ensures
        res@ == index_appendix(indexing@),
{
    let mut appendix = String::new();
    let mut i: usize = 0;
    proof {
        reveal_strlit("[");
        reveal_strlit("]");
        assert(indexing@.subrange(0, 0) =~= Seq::<usize>::empty());
    }
    while i < indexing.len()
        invariant
            i <= indexing@.len(),
            appendix@ == index_appendix(indexing@.subrange(0, i as int)),
        decreases indexing@.len() - i,
    {
        appendix.append("[");
        push_u64(&mut appendix, indexing[i] as u64);
        appendix.append("]");
        proof {
            let pre = indexing@.subrange(0, i + 1);
            assert(pre.drop_last() =~= indexing@.subrange(0, i as int));
            assert(pre.last() == indexing@[i as int]);
            reveal_strlit("[");
            reveal_strlit("]");
            assert("["@ =~= seq!['[']);
            assert("]"@ =~= seq![']']);
        }
        i = i + 1;
    }
    proof {
        assert(indexing@.subrange(0, indexing@.len() as int) =~= indexing@);
    }
    appendix
}

/// A symbol followed by the indexes of an array access.
pub fn create_array_accessed_symbol(symbol: &str, array_access: &Vec<usize>) -> (res: String)
    ensures
        res@ == symbol@ + index_appendix(array_access@),
{
    let access = create_index_appendix(array_access.as_slice());
    let mut name = String::from_str(symbol);
    name.append(access.as_str());
    name
}

/// The name of an accessed component: as for an array.
pub fn create_component_symbol(symbol: &str, access_information: &Vec<usize>) -> (res: String)
    ensures
        res@ == symbol@ + index_appendix(access_information@),
{
    create_array_accessed_symbol(symbol, access_information)
}

/// A series of accesses over a symbol: indexes before a signal of a
/// component, the signal, indexes after it, and a tag. `undefined` is set
/// when an index could not be computed.
pub struct AccessingInformation {
    pub undefined: bool,
    pub before_signal: Vec<usize>,
    pub signal_access: Option<String>,
    pub after_signal: Vec<usize>,
    pub tag_access: Option<String>,
}

/// The name of an access: the symbol, the indexes before the signal,
/// `.signal` when a signal is accessed, and the indexes after it.
pub open spec fn symbol_text(symbol: Seq<char>, access: AccessingInformation) -> Seq<char> {
    symbol + index_appendix(access.before_signal@) + match access.signal_access {
        Some(s) => seq!['.'] + s@,
        None => Seq::empty(),
    } + index_appendix(access.after_signal@)
}

pub fn create_symbol(symbol: &str, access_information: &AccessingInformation) -> (res: String)
    ensures
        res@ == symbol_text(symbol@, *access_information),
{
    let bf_signal = create_index_appendix(access_information.before_signal.as_slice());
    let af_signal = create_index_appendix(access_information.after_signal.as_slice());
    let mut name = String::from_str(symbol);
    name.append(bf_signal.as_str());
    if let Some(signal_accessed) = &access_information.signal_access {
        proof {
            reveal_strlit(".");
        }
        name.append(".");
        name.append(signal_accessed.as_str());
    }
    name.append(af_signal.as_str());
    proof {
        assert(name@ =~= symbol_text(symbol@, *access_information));
    }
    name
}

/// A series of accesses over a bus: indexes, then a field, then possibly
/// more accesses over that field. `undefined` is set when an index could not
/// be computed.
pub struct AccessingInformationBus {
    pub undefined: bool,
    pub array_access: Vec<usize>,
    pub field_access: Option<String>,
    pub remaining_access: Option<Box<AccessingInformationBus>>,
}

/// The name of a bus access: the symbol, the indexes, `.field` when a field
/// is accessed, and so on for the remaining accesses.
pub open spec fn bus_symbol_text(symbol: Seq<char>, access: AccessingInformationBus) -> Seq<char>
    decreases access,
{
    let here = symbol + index_appendix(access.array_access@) + match access.field_access {
        Some(f) => seq!['.'] + f@,
        None => Seq::empty(),
    };
    match access.remaining_access {
        Some(rest) => bus_symbol_text(here, *rest),
        None => here,
    }
}

pub fn create_symbol_bus(symbol: &str, access_information: &AccessingInformationBus) -> (res: String)
    ensures
        res@ == bus_symbol_text(symbol@, *access_information),
    decreases access_information,
{
    let mut appendix = String::from_str(symbol);
    let bf_field = create_index_appendix(access_information.array_access.as_slice());
    appendix.append(bf_field.as_str());
    if let Some(field) = &access_information.field_access {
        proof {
            reveal_strlit(".");
        }
        appendix.append(".");
        appendix.append(field.as_str());
    }
    proof {
        assert(appendix@ =~= symbol@ + index_appendix(access_information.array_access@) + match &access_information.field_access {
            Some(f) => seq!['.'] + f@,
            None => Seq::empty(),
        });
    }
    match &access_information.remaining_access {
        Some(after_field) => create_symbol_bus(appendix.as_str(), after_field),
        None => appendix,
    }
}

/// The fields that a bus access goes through, outermost first.
pub open spec fn bus_field_names(access: AccessingInformationBus) -> Seq<Seq<char>>
    decreases access,
{
    let here: Seq<Seq<char>> = match access.field_access {
        Some(f) => seq![f@],
        None => Seq::empty(),
    };
    match access.remaining_access {
        Some(rest) => here + bus_field_names(*rest),
        None => here,
    }
}

/// Appends to `complete_bus_name` the fields that `access` goes through.
pub fn build_name(complete_bus_name: &mut Vec<String>, access: &AccessingInformationBus)
    ensures
        final(complete_bus_name)@.map_values(|s: String| s@) == old(complete_bus_name)@.map_values(
            |s: String| s@,
        ) + bus_field_names(*access),
    decreases access,
{
    let ghost start = complete_bus_name@.map_values(|s: String| s@);
    match &access.field_access {
        None => {},
        Some(name) => {
            complete_bus_name.push(name.clone());
        },
    }
    let ghost here: Seq<Seq<char>> = match &access.field_access {
        Some(f) => seq![f@],
        None => Seq::empty(),
    };
    proof {
        assert(complete_bus_name@.map_values(|s: String| s@) =~= start + here);
    }
    match &access.remaining_access {
        None => {},
        Some(remaining) => {
            build_name(complete_bus_name, remaining);
        },
    }
    proof {
        assert(complete_bus_name@.map_values(|s: String| s@) =~= start + bus_field_names(*access));
    }
}

/// The names of every signal of an array of the given lengths, from
/// dimension `dim` on, each index taking its values in increasing order.
pub open spec fn unfolded(current: Seq<char>, lengths: Seq<usize>) -> Seq<Seq<char>>
    decreases lengths.len(), 1nat, 0nat,
{
    if lengths.len() == 0 {
        seq![current]
    } else {
        unfolded_from(current, lengths, lengths[0] as nat)
    }
}

/// The names whose first index is below `bound`.
pub open spec fn unfolded_from(current: Seq<char>, lengths: Seq<usize>, bound: nat) -> Seq<Seq<char>>
    decreases lengths.len(), 0nat, bound,
{
    if lengths.len() == 0 {
        Seq::empty()
    } else if bound == 0 {
        Seq::empty()
    } else {
        unfolded_from(current, lengths, (bound - 1) as nat) + unfolded(
            current + seq!['['] + nat_text((bound - 1) as nat) + seq![']'],
            lengths.drop_first(),
        )
    }
}

/// Appends to `result` the name of every signal of an array whose
/// dimensions from `dim` on have the given lengths, starting from
/// `current`.
pub fn unfold_signals(current: String, dim: usize, lengths: &[usize], result: &mut Vec<String>)
    requires
        dim <= lengths@.len(),
    ensures
        final(result)@.map_values(|s: String| s@) == old(result)@.map_values(|s: String| s@) + unfolded(
            current@,
            lengths@.skip(dim as int),
        ),
    decreases lengths@.len() - dim,
{
    if dim == lengths.len() {
        let ghost c = current@;
        let ghost start = result@.map_values(|s: String| s@);
        result.push(current);
        proof {
            assert(lengths@.skip(dim as int) =~= Seq::<usize>::empty());
            assert(result@.map_values(|s: String| s@) =~= start + seq![c]);
        }
    } else {
        let bound = lengths[dim];
        let n = lengths.len();
        let mut i: usize = 0;
        let ghost start = result@.map_values(|s: String| s@);
        let ghost rest = lengths@.skip(dim as int);
        while i < bound
            invariant
                dim < lengths@.len(),
                n == lengths@.len(),
                bound == lengths@[dim as int],
                rest == lengths@.skip(dim as int),
                i <= bound,
                result@.map_values(|s: String| s@) == start + unfolded_from(current@, rest, i as nat),
            decreases bound - i,
        {
            let ghost before = result@.map_values(|s: String| s@);
            let mut name = String::from_str(current.as_str());
            proof {
                reveal_strlit("[");
                reveal_strlit("]");
            }
            name.append("[");
            push_u64(&mut name, i as u64);
            name.append("]");
            let ghost nv = name@;
            proof {
                assert("["@ =~= seq!['[']);
                assert("]"@ =~= seq![']']);
            }
            unfold_signals(name, dim + 1, lengths, result);
            proof {
                assert(lengths@.skip(dim + 1) =~= rest.drop_first());
                assert(nv =~= current@ + seq!['['] + nat_text(i as nat) + seq![']']);
                assert(result@.map_values(|s: String| s@) =~= start + unfolded_from(current@, rest, (i + 1) as nat));
            }
            i = i + 1;
        }
        proof {
            assert(rest[0] == bound);
        }
    }
}

/// The number of signals of an array of the given lengths.
pub open spec fn product(lengths: Seq<usize>) -> nat
    decreases lengths.len(),
{
    if lengths.len() == 0 {
        1
    } else {
        lengths[0] as nat * product(lengths.drop_first())
    }
}

proof fn lemma_unfolded_from_len(current: Seq<char>, lengths: Seq<usize>, bound: nat)
    requires
        lengths.len() > 0,
    ensures
        unfolded_from(current, lengths, bound).len() == bound * product(lengths.drop_first()),
    decreases lengths.len(), 0nat, bound,
{
    if bound > 0 {
        lemma_unfolded_from_len(current, lengths, (bound - 1) as nat);
        law_unfolded_len(current + seq!['['] + nat_text((bound - 1) as nat) + seq![']'], lengths.drop_first());
        let p = product(lengths.drop_first());
        let b1 = (bound - 1) as nat;
        assert(b1 * p + p == bound * p) by (nonlinear_arith)
            requires
                b1 + 1 == bound,
        ;
    } else {
        let p = product(lengths.drop_first());
        assert(bound * p == 0) by (nonlinear_arith)
            requires
                bound == 0,
        ;
    }
}

/// Unfolding an array gives one name per signal: as many as the product of
/// its lengths.
pub proof fn law_unfolded_len(current: Seq<char>, lengths: Seq<usize>)
    ensures
        unfolded(current, lengths).len() == product(lengths),
    decreases lengths.len(), 1nat, 0nat,
{
    if lengths.len() > 0 {
        lemma_unfolded_from_len(current, lengths, lengths[0] as nat);
    }
}

/// The note that lists the calls that led to an error: `call trace:`, then
/// one line per call, each one space further in than the one before.
pub open spec fn call_trace_text(call_trace: Seq<Seq<char>>) -> Seq<char>
    decreases call_trace.len(),
{
    if call_trace.len() == 0 {
        "call trace:\n"@
    } else {
        call_trace_text(call_trace.drop_last()) + Seq::new((call_trace.len() - 1) as nat, |i: int| ' ')
            + "->"@ + call_trace.last() + "\n"@
    }
}

/// The note that an error found at run time carries about the calls that
/// led to it.
pub fn call_trace_note(call_trace: &[String]) -> (res: String)
    ensures
        res@ == call_trace_text(call_trace@.map_values(|s: String| s@)),
{
    let mut trace = String::from_str("call trace:\n");
    let mut spacing = String::new();
    let mut i: usize = 0;
    let ghost calls = call_trace@.map_values(|s: String| s@);
    proof {
        assert(calls.subrange(0, 0) =~= Seq::<Seq<char>>::empty());
    }
    while i < call_trace.len()
        invariant
            i <= call_trace@.len(),
            calls == call_trace@.map_values(|s: String| s@),
            spacing@ == Seq::new(i as nat, |j: int| ' '),
            trace@ == call_trace_text(calls.subrange(0, i as int)),
        decreases call_trace@.len() - i,
    {
        trace.append(spacing.as_str());
        trace.append("->");
        trace.append(call_trace[i].as_str());
        trace.append("\n");
        spacing.append(" ");
        proof {
            reveal_strlit(" ");
            let pre = calls.subrange(0, i + 1);
            assert(pre.drop_last() =~= calls.subrange(0, i as int));
            assert(pre.last() == call_trace@[i as int]@);
            assert(spacing@ =~= Seq::new((i + 1) as nat, |j: int| ' '));
        }
        i = i + 1;
    }
    proof {
        assert(calls.subrange(0, call_trace@.len() as int) =~= calls);
    }
    trace
}

} // verus!
