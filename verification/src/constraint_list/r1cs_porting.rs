//! What the R1CS file of a constraint list says of custom templates: the
//! name of each custom template used and, for each application, the
//! position of its template among those used.

use vstd::prelude::*;
use vstd::string::StrSliceExecFns;
use crate::dag::last_index_of;
use crate::encoding::{le_nat, le_field};
use crate::dag::Constraint;
use crate::constraint_writers::log_writer::Log;
use crate::constraint_writers::r1cs_writer::{
    R1CSWriter, HeaderData, is_constraint_bytes, started, appended, ended, section_type, place_holder,
    signals_bytes, header_bytes, custom_gates_used_bytes, custom_gates_applied_bytes, file_start,
};
use crate::constraint_writers::r1cs_reader::{
    section_bytes, concat_all, law_section_as_written, plain_file, file_with_gates, header_fits, constraint_fits,
    spec_read_r1cs, R1CSDataView, Failure, header_read_back, constraints_read_back, law_read_written_file,
};
use crate::constraint_list::{EncodingNode, get_witness_as_vec};
use std::collections::HashMap;

verus! {

/// The name of a custom template instance without its arguments: what comes
/// before its last `(`.
pub fn custom_gate_name(instance: &str) -> (res: String)
    requires
        last_index_of(instance@, '(') is Some,
    ensures
        res@ == instance@.subrange(0, last_index_of(instance@, '(')->0),
{
    let n = instance.unicode_len();
    let mut end: usize = n;
    proof {
        assert(instance@.subrange(0, n as int) =~= instance@);
    }
    while end > 0 && instance.get_char(end - 1) != '('
        invariant
            end <= n,
            n == instance@.len(),
            last_index_of(instance@, '(') is Some,
            last_index_of(instance@.subrange(0, end as int), '(') == last_index_of(instance@, '('),
        decreases end,
    {
        proof {
            let s = instance@.subrange(0, end as int);
            assert(s.drop_last() =~= instance@.subrange(0, end - 1));
        }
        end = end - 1;
    }
    proof {
        if end == 0 {
            assert(instance@.subrange(0, 0) =~= Seq::<char>::empty());
        }
        let s = instance@.subrange(0, end as int);
        assert(s.last() == '(');
    }
    instance.substring_char(0, end - 1).to_string()
}

/// The position of the first of `order` named `name`, or the length of
/// `order`.
pub open spec fn first_named(order: Seq<String>, name: Seq<char>) -> int
    decreases order.len(),
{
    if order.len() == 0 {
        0
    } else if order[0]@ == name {
        0
    } else {
        1 + first_named(order.drop_first(), name)
    }
}

proof fn lemma_first_named(order: Seq<String>, name: Seq<char>)
    ensures
        0 <= first_named(order, name) <= order.len(),
        first_named(order, name) < order.len() ==> order[first_named(order, name)]@ == name,
        forall|j: int| 0 <= j < first_named(order, name) ==> (#[trigger] order[j])@ != name,
        (exists|j: int| 0 <= j < order.len() && (#[trigger] order[j])@ == name) ==> first_named(order, name)
            < order.len(),
    decreases order.len(),
{
    if order.len() > 0 && order[0]@ != name {
        let rest = order.drop_first();
        lemma_first_named(rest, name);
        assert forall|j: int| 0 <= j < first_named(order, name) implies (#[trigger] order[j])@ != name by {
            if j > 0 {
                assert(order[j] == rest[j - 1]);
            }
        }
        if exists|j: int| 0 <= j < order.len() && (#[trigger] order[j])@ == name {
            let j = choose|j: int| 0 <= j < order.len() && (#[trigger] order[j])@ == name;
            assert(j > 0);
            assert(rest[j - 1] == order[j]);
        }
    }
}

/// Each application names a custom template that `occurring_order` holds.
pub open spec fn applications_named(occurring_order: Seq<String>, application_data: Seq<(String, Vec<usize>)>) -> bool {
    forall|i: int|
        0 <= i < application_data.len() ==> exists|j: int|
            0 <= j < occurring_order.len() && (#[trigger] occurring_order[j])@ == (
            #[trigger] application_data[i]).0@
}

/// Replaces the name of the template of each application by the position of
/// the first custom template of that name in `occurring_order`.
pub fn find_indexes(occurring_order: Vec<String>, application_data: Vec<(String, Vec<usize>)>) -> (res: Vec<
    (usize, Vec<usize>),
>)
    requires
        applications_named(occurring_order@, application_data@),
    ensures
        res@.len() == application_data@.len(),
        forall|i: int|
            0 <= i < res@.len() ==> (#[trigger] res@[i]).0 == first_named(occurring_order@, application_data@[i].0@)
                && res@[i].1@ == application_data@[i].1@,
{
    let mut application_data_mut: Vec<(usize, Vec<usize>)> = Vec::new();
    let mut i: usize = 0;
    while i < application_data.len()
        invariant
            i <= application_data@.len(),
            applications_named(occurring_order@, application_data@),
            application_data_mut@.len() == i,
            forall|k: int|
                0 <= k < i ==> (#[trigger] application_data_mut@[k]).0 == first_named(
                    occurring_order@,
                    application_data@[k].0@,
                ) && application_data_mut@[k].1@ == application_data@[k].1@,
        decreases application_data@.len() - i,
    {
        let name = &application_data[i].0;
        proof {
            lemma_first_named(occurring_order@, name@);
            assert(exists|j: int|
                0 <= j < occurring_order@.len() && (#[trigger] occurring_order@[j])@ == application_data@[i as int].0@);
        }
        let mut index: usize = 0;
        while !(occurring_order[index] == *name)
            invariant
                index <= first_named(occurring_order@, name@),
                first_named(occurring_order@, name@) < occurring_order@.len(),
                occurring_order@[first_named(occurring_order@, name@)]@ == name@,
                forall|j: int| 0 <= j < first_named(occurring_order@, name@) ==> (#[trigger] occurring_order@[j])@ != name@,
            decreases first_named(occurring_order@, name@) - index,
        {
            assert(occurring_order@[index as int]@ != name@);
            assert(index < first_named(occurring_order@, name@));
            index = index + 1;
        }
        let constraints = application_data[i].1.clone();
        proof {
            assert(constraints@ =~= application_data@[i as int].1@);
        }
        application_data_mut.push((index, constraints));
        i = i + 1;
    }
    application_data_mut
}


/// The number of bits of `n`: none for zero.
pub open spec fn nat_bits(n: nat) -> nat
    decreases n,
{
    if n == 0 {
        0
    } else {
        1 + nat_bits(n / 2)
    }
}

/// 2 to the power `k`.
pub open spec fn pow2(k: nat) -> nat
    decreases k,
{
    if k == 0 {
        1
    } else {
        2 * pow2((k - 1) as nat)
    }
}

/// The bytes over which an R1CS file writes the numbers of a field whose
/// prime has the little-endian bytes `field`: 8 for every whole 64 bits of
/// the prime, and 8 more.
pub open spec fn r1cs_field_size(field: Seq<u8>) -> nat {
    (nat_bits(le_nat(field)) / 64 + 1) * 8
}

proof fn lemma_pow2_positive(k: nat)
    ensures
        pow2(k) >= 1,
    decreases k,
{
    if k > 0 {
        lemma_pow2_positive((k - 1) as nat);
    }
}

proof fn lemma_bits_below(n: nat, k: nat)
    requires
        n < pow2(k),
    ensures
        nat_bits(n) <= k,
    decreases k,
{
    if n > 0 {
        assert(k > 0);
        lemma_bits_below(n / 2, (k - 1) as nat);
    }
}

proof fn lemma_bits_shift(m: nat, r: nat, k: nat)
    requires
        m > 0,
        r < pow2(k),
    ensures
        nat_bits(pow2(k) * m + r) == k + nat_bits(m),
    decreases k,
{
    if k > 0 {
        let p = pow2((k - 1) as nat);
        let n = pow2(k) * m + r;
        let n2 = p * m + r / 2;
        lemma_pow2_positive((k - 1) as nat);
        assert(pow2(k) == 2 * p);
        assert(n == 2 * n2 + r % 2) by (nonlinear_arith)
            requires
                pow2(k) == 2 * p,
                n == pow2(k) * m + r,
                n2 == p * m + r / 2,
        ;
        assert(p * m >= m) by (nonlinear_arith)
            requires
                p >= 1,
                m > 0,
        ;
        assert(r / 2 < p);
        lemma_bits_shift(m, r / 2, (k - 1) as nat);
        assert(n / 2 == n2);
    } else {
        assert(pow2(0) == 1);
        assert(r == 0);
        assert(1 * m == m);
    }
}

fn byte_bits(b: u8) -> (res: u64)
    ensures
        res == nat_bits(b as nat),
        res <= 8,
{
    proof {
        reveal_with_fuel(pow2, 9);
        lemma_bits_below(b as nat, 8);
    }
    let mut x: u8 = b;
    let mut c: u64 = 0;
    while x > 0
        invariant
            c + nat_bits(x as nat) == nat_bits(b as nat),
            nat_bits(b as nat) <= 8,
        decreases x,
    {
        x = x / 2;
        c = c + 1;
    }
    c
}

/// The number of bits of the number whose little-endian bytes are `field`.
pub fn field_bits(field: &[u8]) -> (res: u64)
    requires
        field@.len() <= usize::MAX / 8,
    ensures
        res == nat_bits(le_nat(field@)),
        res <= 8 * field@.len(),
{
    let n = field.len();
    let mut i: usize = n;
    let mut acc: u64 = 0;
    proof {
        assert(field@.skip(n as int) =~= Seq::<u8>::empty());
    }
    while i > 0
        invariant
            i <= n,
            n == field@.len(),
            n <= usize::MAX / 8,
            acc == nat_bits(le_nat(field@.skip(i as int))),
            acc <= 8 * (n - i),
        decreases i,
    {
        i = i - 1;
        let b = field[i];
        proof {
            let t = field@.skip(i as int);
            assert(t.drop_first() =~= field@.skip(i + 1));
            assert(t[0] == b);
            assert(le_nat(t) == b as nat + 256 * le_nat(field@.skip(i + 1)));
            let v = le_nat(field@.skip(i + 1));
            if v > 0 {
                reveal_with_fuel(pow2, 9);
                lemma_bits_shift(v, b as nat, 8);
            } else {
                assert(nat_bits(v) == 0);
            }
        }
        if acc == 0 {
            acc = byte_bits(b);
        } else {
            acc = acc + 8;
        }
    }
    proof {
        assert(field@.skip(0) =~= field@);
    }
    acc
}

/// The bytes over which the R1CS file of a field with the prime `field`
/// writes its numbers.
pub fn field_size_of(field: &[u8]) -> (res: usize)
    requires
        field@.len() <= usize::MAX / 8,
    ensures
        res == r1cs_field_size(field@),
{
    let bits = field_bits(field);
    ((bits / 64 + 1) * 8) as usize
}


/// The three linear combinations of each constraint, as maps.
pub open spec fn constraints_view(cs: Seq<Constraint>) -> Seq<
    (Map<usize, Vec<u8>>, Map<usize, Vec<u8>>, Map<usize, Vec<u8>>),
> {
    cs.map_values(|c: Constraint| (c.a@, c.b@, c.c@))
}

/// `cbytes` holds, one by one, bytes that the writer may give of the
/// constraints `cs` (the order of the terms of a linear combination is the
/// order in which its map is walked).
pub open spec fn constraints_bytes(
    cbytes: Seq<Seq<u8>>,
    cs: Seq<(Map<usize, Vec<u8>>, Map<usize, Vec<u8>>, Map<usize, Vec<u8>>)>,
    field_size: nat,
) -> bool {
    &&& cbytes.len() == cs.len()
    &&& forall|i: int| 0 <= i < cs.len() ==> is_constraint_bytes(#[trigger] cbytes[i], cs[i].0, cs[i].1, cs[i].2, field_size)
}

/// How many of `flags` hold.
pub open spec fn count_true(flags: Seq<bool>) -> nat
    decreases flags.len(),
{
    if flags.len() == 0 {
        0
    } else {
        count_true(flags.drop_last()) + if flags.last() { 1nat } else { 0nat }
    }
}

/// Writes the section of constraints, in order, and counts those that
/// `is_linear` marks as linear and those it does not.
fn write_constraint_section(r1cs: R1CSWriter, constraints: &Vec<Constraint>, is_linear: &Vec<bool>) -> (res: (
    R1CSWriter,
    usize,
    usize,
))
    requires
        r1cs@.sections.len() == 5,
        is_linear@.len() == constraints@.len(),
    ensures
        exists|cbytes: Seq<Seq<u8>>|
            constraints_bytes(cbytes, constraints_view(constraints@), r1cs@.field_size) && res.0@.data == r1cs@.data
                + section_bytes(2, concat_all(cbytes)),
        res.0@.field_size == r1cs@.field_size,
        res.0@.sections == r1cs@.sections.update(1, true),
        res.1 == count_true(is_linear@),
        res.2 == constraints@.len() - count_true(is_linear@),
{
    let ghost w = r1cs@;
    let mut section = R1CSWriter::start_constraints_section(r1cs);
    let ghost mut cbytes: Seq<Seq<u8>> = Seq::empty();
    let mut linear: usize = 0;
    let mut non_linear: usize = 0;
    let mut i: usize = 0;
    proof {
        assert(section@.data == w.data + section_type(2) + place_holder() + concat_all(cbytes));
    }
    while i < constraints.len()
        invariant
            i <= constraints@.len(),
            is_linear@.len() == constraints@.len(),
            crate::constraint_writers::r1cs_writer::section_wf(section@),
            section@.data == w.data + section_type(2) + place_holder() + concat_all(cbytes),
            section@.go_back == w.data.len() + 4,
            section@.size == concat_all(cbytes).len(),
            section@.index == 1,
            section@.field_size == w.field_size,
            section@.sections == w.sections,
            cbytes.len() == i,
            forall|k: int|
                0 <= k < i ==> is_constraint_bytes(
                    #[trigger] cbytes[k],
                    constraints_view(constraints@)[k].0,
                    constraints_view(constraints@)[k].1,
                    constraints_view(constraints@)[k].2,
                    w.field_size,
                ),
            linear == count_true(is_linear@.subrange(0, i as int)),
            linear + non_linear == i,
        decreases constraints@.len() - i,
    {
        let ghost before = section@;
        let c = &constraints[i];
        section.write_constraint_usize(&c.a, &c.b, &c.c);
        proof {
            let bytes = choose|bytes: Seq<u8>|
                is_constraint_bytes(bytes, c.a@, c.b@, c.c@, before.field_size) && section@
                    == crate::constraint_writers::r1cs_writer::constraint_appended(before, bytes);
            let old_cbytes = cbytes;
            cbytes = cbytes.push(bytes);
            assert(cbytes.drop_last() =~= old_cbytes);
            assert(concat_all(cbytes) == concat_all(old_cbytes) + bytes);
            assert(section@.data =~= w.data + section_type(2) + place_holder() + concat_all(cbytes));
            assert(constraints_view(constraints@)[i as int] == (c.a@, c.b@, c.c@));
            assert forall|k: int|
                0 <= k < i + 1 implies is_constraint_bytes(
                    #[trigger] cbytes[k],
                    constraints_view(constraints@)[k].0,
                    constraints_view(constraints@)[k].1,
                    constraints_view(constraints@)[k].2,
                    w.field_size,
                ) by {
                if k < i {
                    assert(cbytes[k] == old_cbytes[k]);
                }
            }
            let pre = is_linear@.subrange(0, i + 1);
            assert(pre.drop_last() =~= is_linear@.subrange(0, i as int));
        }
        if is_linear[i] {
            linear = linear + 1;
        } else {
            non_linear = non_linear + 1;
        }
        i = i + 1;
    }
    let ghost content = concat_all(cbytes);
    let ghost v = section@;
    let res = section.end_section();
    proof {
        assert(is_linear@.subrange(0, i as int) =~= is_linear@);
        let v2 = appended(started(w, 2, 1, 0), content);
        assert(v2.data == v.data);
        assert(ended(v) == ended(v2));
        law_section_as_written(w, 2, 1, content);
        assert(constraints_bytes(cbytes, constraints_view(constraints@), w.field_size));
    }
    (res, linear, non_linear)
}


fn write_header_section(r1cs: R1CSWriter, data: HeaderData) -> (res: R1CSWriter)
    requires
        r1cs@.sections.len() == 5,
    ensures
        res@.data == r1cs@.data + section_bytes(1, header_bytes(r1cs@.field_size, data)),
        res@.field_size == r1cs@.field_size,
        res@.sections == r1cs@.sections.update(0, true),
{
    let ghost w = r1cs@;
    let ghost content = header_bytes(w.field_size, data);
    let mut section = R1CSWriter::start_header_section(r1cs);
    section.write_section(data);
    proof {
        law_section_as_written(w, 1, 0, content);
    }
    section.end_section()
}

fn write_signal_section(r1cs: R1CSWriter, witness: &Vec<usize>) -> (res: R1CSWriter)
    requires
        r1cs@.sections.len() == 5,
    ensures
        res@.data == r1cs@.data + section_bytes(3, signals_bytes(witness@)),
        res@.field_size == r1cs@.field_size,
        res@.sections == r1cs@.sections.update(2, true),
{
    let ghost w = r1cs@;
    let mut section = R1CSWriter::start_signal_section(r1cs);
    let mut j: usize = 0;
    proof {
        assert(witness@.subrange(0, 0) =~= Seq::<usize>::empty());
        let target = appended(started(w, 3, 2, 0), signals_bytes(witness@.subrange(0, 0)));
        assert(section@.data =~= target.data);
        assert(section@ == target);
    }
    while j < witness.len()
        invariant
            j <= witness@.len(),
            crate::constraint_writers::r1cs_writer::section_wf(section@),
            section@ == appended(started(w, 3, 2, 0), signals_bytes(witness@.subrange(0, j as int))),
        decreases witness@.len() - j,
    {
        section.write_signal_usize(witness[j]);
        proof {
            let pre = witness@.subrange(0, j + 1);
            assert(pre.drop_last() =~= witness@.subrange(0, j as int));
            let target = appended(started(w, 3, 2, 0), signals_bytes(pre));
            assert(section@.data =~= target.data);
            assert(section@ == target);
        }
        j = j + 1;
    }
    proof {
        assert(witness@.subrange(0, witness@.len() as int) =~= witness@);
        law_section_as_written(w, 3, 2, signals_bytes(witness@));
    }
    section.end_section()
}

fn write_custom_gates_used_section(r1cs: R1CSWriter, usage: Vec<(String, Vec<Vec<u8>>)>) -> (res: R1CSWriter)
    requires
        r1cs@.sections.len() == 5,
    ensures
        res@.data == r1cs@.data + section_bytes(4, custom_gates_used_bytes(usage@, r1cs@.field_size)),
        res@.field_size == r1cs@.field_size,
        res@.sections == r1cs@.sections.update(3, true),
{
    let ghost w = r1cs@;
    let ghost content = custom_gates_used_bytes(usage@, w.field_size);
    let mut section = R1CSWriter::start_custom_gates_used_section(r1cs);
    section.write_custom_gates_usages(usage);
    proof {
        law_section_as_written(w, 4, 3, content);
    }
    section.end_section()
}

fn write_custom_gates_applied_section(r1cs: R1CSWriter, applications: Vec<(usize, Vec<usize>)>) -> (res: R1CSWriter)
    requires
        r1cs@.sections.len() == 5,
    ensures
        res@.data == r1cs@.data + section_bytes(5, custom_gates_applied_bytes(applications@)),
        res@.field_size == r1cs@.field_size,
        res@.sections == r1cs@.sections.update(4, true),
{
    let ghost w = r1cs@;
    let ghost content = custom_gates_applied_bytes(applications@);
    let mut section = R1CSWriter::start_custom_gates_applied_section(r1cs);
    section.write_custom_gates_applications(applications);
    proof {
        law_section_as_written(w, 5, 4, content);
    }
    section.end_section()
}


/// The custom templates among `nodes`, in order.
pub open spec fn custom_nodes(nodes: Seq<EncodingNode>) -> Seq<EncodingNode>
    decreases nodes.len(),
{
    if nodes.len() == 0 {
        Seq::empty()
    } else {
        let r = custom_nodes(nodes.drop_last());
        if nodes.last().is_custom_gate {
            r.push(nodes.last())
        } else {
            r
        }
    }
}

/// The instance names of the custom templates among `nodes`, in order.
pub open spec fn custom_names(nodes: Seq<EncodingNode>) -> Seq<String> {
    custom_nodes(nodes).map_values(|n: EncodingNode| n.name)
}

/// Every custom template among `nodes` has a name with arguments, as
/// `name(args)`.
pub open spec fn custom_names_have_arguments(nodes: Seq<EncodingNode>) -> bool {
    forall|k: int| 0 <= k < nodes.len() && (#[trigger] nodes[k]).is_custom_gate ==> last_index_of(nodes[k].name@, '(') is Some
}

/// `gates` lists the custom templates among `nodes`, in order: each by its
/// name without arguments and with its parameters.
pub open spec fn is_usage_of(gates: Seq<(String, Vec<Vec<u8>>)>, nodes: Seq<EncodingNode>) -> bool {
    let custom = custom_nodes(nodes);
    &&& gates.len() == custom.len()
    &&& forall|i: int|
        0 <= i < gates.len() ==> (#[trigger] gates[i]).0@ == custom[i].name@.subrange(
            0,
            last_index_of(custom[i].name@, '(')->0,
        ) && gates[i].1@.len() == custom[i].parameters@.len() && forall|j: int|
            0 <= j < gates[i].1@.len() ==> (#[trigger] gates[i].1@[j])@ == custom[i].parameters@[j]@
}

/// `apps` is `applications` with the name of each template replaced by its
/// position among the custom templates of `nodes`.
pub open spec fn is_application_data_of(
    apps: Seq<(usize, Vec<usize>)>,
    nodes: Seq<EncodingNode>,
    applications: Seq<(String, Vec<usize>)>,
) -> bool {
    &&& apps.len() == applications.len()
    &&& forall|i: int|
        0 <= i < apps.len() ==> (#[trigger] apps[i]).0 == first_named(custom_names(nodes), applications[i].0@)
            && apps[i].1@ == applications[i].1@
}

fn copy_bytes(v: &Vec<u8>) -> (res: Vec<u8>)
    ensures
        res@ == v@,
{
    let mut res: Vec<u8> = Vec::new();
    let mut i: usize = 0;
    while i < v.len()
        invariant
            i <= v@.len(),
            res@ == v@.subrange(0, i as int),
        decreases v@.len() - i,
    {
        res.push(v[i]);
        i = i + 1;
        proof {
            assert(res@ =~= v@.subrange(0, i as int));
        }
    }
    proof {
        assert(v@.subrange(0, v@.len() as int) =~= v@);
    }
    res
}

fn copy_parameters(p: &Vec<Vec<u8>>) -> (res: Vec<Vec<u8>>)
    ensures
        res@.len() == p@.len(),
        forall|j: int| 0 <= j < res@.len() ==> (#[trigger] res@[j])@ == p@[j]@,
{
    let mut res: Vec<Vec<u8>> = Vec::new();
    let mut i: usize = 0;
    while i < p.len()
        invariant
            i <= p@.len(),
            res@.len() == i,
            forall|j: int| 0 <= j < i ==> (#[trigger] res@[j])@ == p@[j]@,
        decreases p@.len() - i,
    {
        res.push(copy_bytes(&p[i]));
        i = i + 1;
    }
    res
}

/// The custom templates used, in the order of `nodes`, and their instance
/// names.
fn custom_usage(nodes: &Vec<EncodingNode>) -> (res: (Vec<(String, Vec<Vec<u8>>)>, Vec<String>))
    requires
        custom_names_have_arguments(nodes@),
    ensures
        is_usage_of(res.0@, nodes@),
        res.1@ == custom_names(nodes@),
{
    let mut usage: Vec<(String, Vec<Vec<u8>>)> = Vec::new();
    let mut order: Vec<String> = Vec::new();
    let mut i: usize = 0;
    proof {
        assert(nodes@.subrange(0, 0) =~= Seq::<EncodingNode>::empty());
        assert(order@ =~= custom_names(nodes@.subrange(0, 0)));
    }
    while i < nodes.len()
        invariant
            i <= nodes@.len(),
            custom_names_have_arguments(nodes@),
            is_usage_of(usage@, nodes@.subrange(0, i as int)),
            order@ == custom_names(nodes@.subrange(0, i as int)),
        decreases nodes@.len() - i,
    {
        let ghost pre = nodes@.subrange(0, i as int);
        let ghost post = nodes@.subrange(0, i + 1);
        proof {
            assert(post.drop_last() =~= pre);
            assert(post.last() == nodes@[i as int]);
        }
        let node = &nodes[i];
        if node.is_custom_gate {
            let ghost old_usage = usage@;
            let ghost old_order = order@;
            order.push(node.name.clone());
            let name = custom_gate_name(node.name.as_str());
            usage.push((name, copy_parameters(&node.parameters)));
            proof {
                let c = custom_nodes(post);
                assert(c == custom_nodes(pre).push(nodes@[i as int]));
                assert(order@ =~= custom_names(post));
                assert forall|k: int| 0 <= k < usage@.len() implies (#[trigger] usage@[k]).0@ == c[k].name@.subrange(
                    0,
                    last_index_of(c[k].name@, '(')->0,
                ) && usage@[k].1@.len() == c[k].parameters@.len() && forall|j: int|
                    0 <= j < usage@[k].1@.len() ==> (#[trigger] usage@[k].1@[j])@ == c[k].parameters@[j]@ by {
                    if k < old_usage.len() {
                        assert(usage@[k] == old_usage[k]);
                        assert(c[k] == custom_nodes(pre)[k]);
                    }
                }
            }
        } else {
            proof {
                assert(custom_nodes(post) == custom_nodes(pre));
            }
        }
        i = i + 1;
    }
    proof {
        assert(nodes@.subrange(0, nodes@.len() as int) =~= nodes@);
    }
    (usage, order)
}


/// The counts of a constraint list that its R1CS header and its log report.
pub struct PortCounts {
    pub public_outputs: usize,
    pub public_inputs: usize,
    pub private_inputs: usize,
    pub no_labels: usize,
}

/// The header of the R1CS file of a constraint list.
pub open spec fn port_header(field: Vec<u8>, counts: PortCounts, wires: nat, number_of_constraints: nat) -> HeaderData {
    HeaderData {
        field,
        total_wires: wires as usize,
        public_outputs: counts.public_outputs,
        public_inputs: counts.public_inputs,
        private_inputs: counts.private_inputs,
        number_of_labels: counts.no_labels,
        number_of_constraints: number_of_constraints as usize,
    }
}

/// `data` is the R1CS file of a constraint list over the field of prime
/// `field`: its constraints `cs` (section 2), the header (section 1), the
/// witness (section 3) and, with custom templates, the templates used among
/// `nodes` (section 4) and where they are applied (section 5).
pub open spec fn is_r1cs_file(
    data: Seq<u8>,
    field: Vec<u8>,
    counts: PortCounts,
    cs: Seq<Constraint>,
    witness: Seq<usize>,
    custom_gates: bool,
    nodes: Seq<EncodingNode>,
    applications: Seq<(String, Vec<usize>)>,
) -> bool {
    let fs = r1cs_field_size(field@);
    let h = port_header(field, counts, witness.len(), cs.len());
    exists|cbytes: Seq<Seq<u8>>|
        {
            &&& constraints_bytes(cbytes, constraints_view(cs), fs)
            &&& if custom_gates {
                exists|gates: Seq<(String, Vec<Vec<u8>>)>, apps: Seq<(usize, Vec<usize>)>|
                    {
                        &&& is_usage_of(gates, nodes)
                        &&& is_application_data_of(apps, nodes, applications)
                        &&& data == file_with_gates(fs, h, cbytes, witness, gates, apps)
                    }
            } else {
                data == plain_file(fs, h, cbytes, witness)
            }
        }
}

/// The log of a constraint list: its counts, the number of wires, and how
/// many of its constraints are linear and how many are not.
pub open spec fn is_port_log(log: Log, counts: PortCounts, wires: nat, is_linear: Seq<bool>) -> bool {
    &&& log.no_linear == count_true(is_linear)
    &&& log.no_non_linear == is_linear.len() - count_true(is_linear)
    &&& log.no_labels == counts.no_labels
    &&& log.no_wires == wires
    &&& log.no_public_inputs == counts.public_inputs
    &&& log.no_private_inputs == counts.private_inputs
    &&& log.no_public_outputs == counts.public_outputs
    &&& log.no_private_outputs == 0
}

/// What an R1CS file may be asked to hold: prime bytes whose bit count fits,
/// a linearity mark per constraint, and, with custom templates, names with
/// arguments and applications of templates that occur.
pub open spec fn port_requires(
    field: Seq<u8>,
    constraints: Seq<Constraint>,
    is_linear: Seq<bool>,
    custom_gates: bool,
    nodes: Seq<EncodingNode>,
    applications: Seq<(String, Vec<usize>)>,
) -> bool {
    &&& field.len() <= usize::MAX / 8
    &&& is_linear.len() == constraints.len()
    &&& custom_gates ==> custom_names_have_arguments(nodes) && applications_named(custom_names(nodes), applications)
}

/// Writes the R1CS file of a constraint list whose witness is `witness`, and
/// the log of what it holds. `is_linear` tells, constraint by constraint,
/// whether the constraint algebra takes it for linear.
pub fn write_r1cs(
    field: &Vec<u8>,
    counts: &PortCounts,
    constraints: &Vec<Constraint>,
    is_linear: &Vec<bool>,
    witness: &Vec<usize>,
    custom_gates: bool,
    nodes: &Vec<EncodingNode>,
    application_data: Vec<(String, Vec<usize>)>,
) -> (res: (R1CSWriter, Log))
    requires
        port_requires(field@, constraints@, is_linear@, custom_gates, nodes@, application_data@),
    ensures
        is_r1cs_file(
            res.0@.data,
            *field,
            *counts,
            constraints@,
            witness@,
            custom_gates,
            nodes@,
            application_data@,
        ),
        is_port_log(res.1, *counts, witness@.len(), is_linear@),
{
    let field_size = field_size_of(field.as_slice());
    let ghost fs = field_size as nat;
    let r1cs = R1CSWriter::new(field_size, custom_gates);
    let ghost start = r1cs@.data;
    let (r1cs, linear, non_linear) = write_constraint_section(r1cs, constraints, is_linear);
    let ghost cbytes = choose|cbytes: Seq<Seq<u8>>|
        constraints_bytes(cbytes, constraints_view(constraints@), fs) && r1cs@.data == start + section_bytes(
            2,
            concat_all(cbytes),
        );
    let header_data = HeaderData {
        field: copy_bytes(field),
        public_outputs: counts.public_outputs,
        public_inputs: counts.public_inputs,
        private_inputs: counts.private_inputs,
        total_wires: witness.len(),
        number_of_labels: counts.no_labels,
        number_of_constraints: constraints.len(),
    };
    let ghost h = port_header(*field, *counts, witness@.len(), constraints@.len());
    proof {
        assert(header_bytes(fs, header_data) == header_bytes(fs, h));
    }
    let r1cs = write_header_section(r1cs, header_data);
    let r1cs = write_signal_section(r1cs, witness);
    let log = Log {
        no_linear: linear,
        no_non_linear: non_linear,
        no_labels: counts.no_labels,
        no_wires: witness.len(),
        no_public_inputs: counts.public_inputs,
        no_private_inputs: counts.private_inputs,
        no_public_outputs: counts.public_outputs,
        no_private_outputs: 0,
    };
    if !custom_gates {
        proof {
            assert(r1cs@.data == plain_file(fs, h, cbytes, witness@));
            assert(constraints_bytes(cbytes, constraints_view(constraints@), fs));
        }
        return (r1cs, log);
    }
    let (usage_data, occurring_order) = custom_usage(nodes);
    let r1cs = write_custom_gates_used_section(r1cs, usage_data);
    let application_data_indexed = find_indexes(occurring_order, application_data);
    let ghost apps = application_data_indexed@;
    let ghost gates = usage_data@;
    let r1cs = write_custom_gates_applied_section(r1cs, application_data_indexed);
    proof {
        assert(is_application_data_of(apps, nodes@, application_data@));
        assert(r1cs@.data == file_with_gates(fs, h, cbytes, witness@, gates, apps));
        assert(constraints_bytes(cbytes, constraints_view(constraints@), fs));
    }
    (r1cs, log)
}


/// `witness` lists, position by position, the signal that `signal_map`
/// sends there (0 where it sends none); where two signals go to one
/// position, one of them stands there.
pub open spec fn is_witness_of(signal_map: Map<usize, usize>, witness: Seq<usize>) -> bool {
    &&& witness.len() == signal_map.len()
    &&& forall|k: usize|
        #[trigger] signal_map.dom().contains(k) ==> witness[signal_map[k] as int] == k || exists|k2: usize|
            signal_map.dom().contains(k2) && k2 != k && signal_map[k2] == signal_map[k]
    &&& forall|p: int|
        0 <= p < witness.len() ==> #[trigger] witness[p] == 0 || (signal_map.dom().contains(witness[p])
            && signal_map[witness[p]] == p)
}

/// Writes the R1CS file of a constraint list whose signals after
/// simplification are numbered by `signal_map`, and the log of what it
/// holds: the witness is the list of signals by their new numbers.
pub fn port_r1cs(
    field: &Vec<u8>,
    counts: &PortCounts,
    constraints: &Vec<Constraint>,
    is_linear: &Vec<bool>,
    signal_map: &HashMap<usize, usize>,
    custom_gates: bool,
    nodes: &Vec<EncodingNode>,
    application_data: Vec<(String, Vec<usize>)>,
) -> (res: (R1CSWriter, Log))
    requires
        port_requires(field@, constraints@, is_linear@, custom_gates, nodes@, application_data@),
        forall|k: usize| #[trigger] signal_map@.dom().contains(k) ==> signal_map@[k] < signal_map@.len(),
    ensures
        exists|witness: Seq<usize>|
            {
                &&& is_witness_of(signal_map@, witness)
                &&& is_r1cs_file(
                    res.0@.data,
                    *field,
                    *counts,
                    constraints@,
                    witness,
                    custom_gates,
                    nodes@,
                    application_data@,
                )
            },
        is_port_log(res.1, *counts, signal_map@.len(), is_linear@),
{
    let witness = get_witness_as_vec(signal_map);
    let res = write_r1cs(field, counts, constraints, is_linear, &witness, custom_gates, nodes, application_data);
    proof {
        assert(is_witness_of(signal_map@, witness@));
    }
    res
}


/// Reading the R1CS file of a constraint list written without custom
/// templates gives back its header, its constraints and its witness.
pub proof fn law_read_ported_file(
    data: Seq<u8>,
    field: Vec<u8>,
    counts: PortCounts,
    cs: Seq<Constraint>,
    witness: Seq<usize>,
    nodes: Seq<EncodingNode>,
    applications: Seq<(String, Vec<usize>)>,
)
    requires
        is_r1cs_file(data, field, counts, cs, witness, false, nodes, applications),
        cs.len() <= usize::MAX,
        witness.len() <= usize::MAX,
        header_fits(r1cs_field_size(field@), port_header(field, counts, witness.len(), cs.len())),
        forall|i: int| 0 <= i < cs.len() ==> constraint_fits(#[trigger] constraints_view(cs)[i], r1cs_field_size(field@)),
        data.len() <= i64::MAX,
        data.len() <= usize::MAX,
    ensures
        spec_read_r1cs(data) == Ok::<R1CSDataView, Failure>(
            R1CSDataView {
                header: header_read_back(
                    r1cs_field_size(field@),
                    port_header(field, counts, witness.len(), cs.len()),
                ),
                constraints: constraints_read_back(constraints_view(cs), r1cs_field_size(field@)),
                signals: witness,
                custom_gates: false,
                custom_gates_used: None,
                custom_gates_applied: None,
            },
        ),
{
    let fs = r1cs_field_size(field@);
    let h = port_header(field, counts, witness.len(), cs.len());
    let cbytes = choose|cbytes: Seq<Seq<u8>>|
        constraints_bytes(cbytes, constraints_view(cs), fs) && data == plain_file(fs, h, cbytes, witness);
    law_read_written_file(fs, h, cbytes, constraints_view(cs), witness);
}

} // verus!
