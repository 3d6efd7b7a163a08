//! Writing circuits in the binary R1CS format.

use vstd::prelude::*;
use std::collections::HashMap;
use vstd::utf8::encode_utf8;
use vstd::string::StringSliceAdditionalSpecFns;
use vstd::std_specs::hash::spec_keys_iter;
use vstd::std_specs::iter::IteratorSpec;
use crate::encoding::{
    append_bytes, pad, minimal_le, minimal_le_bytes, lex_lt, lex_less, lemma_lex_total,
    lemma_lex_transitive, lemma_lex_irreflexive, lemma_minimal_le_injective, le_field,
    lemma_le_digits_len_bound, pow256,
};

verus! {

/// Pads `number` with zero bytes up to `with_bytes` bytes; returns the bytes
/// and how many there are.
pub fn into_format(number: &[u8], with_bytes: usize) -> (res: (Vec<u8>, usize))
    ensures
        res.0@ == pad(number@, with_bytes as nat),
        res.1 == res.0@.len(),
{
    let mut value: Vec<u8> = Vec::new();
    append_bytes(&mut value, number);
    while value.len() < with_bytes
        invariant
            number@.len() <= value@.len(),
            value@.subrange(0, number@.len() as int) == number@,
            forall|i: int| number@.len() <= i < value@.len() ==> value@[i] == 0u8,
            number@.len() < with_bytes ==> value@.len() <= with_bytes,
            number@.len() >= with_bytes ==> value@.len() == number@.len(),
        decreases with_bytes - value@.len(),
    {
        value.push(0u8);
    }
    let size = value.len();
    proof {
        if number@.len() < with_bytes {
            assert(value@ =~= number@ + Seq::new((with_bytes - number@.len()) as nat, |i: int| 0u8));
        } else {
            assert(value@ =~= number@);
        }
    }
    (value, size)
}


/// The order in which the signals of a linear combination are written: that
/// of their shortest little-endian encodings, compared as byte strings.
pub open spec fn key_lt(a: usize, b: usize) -> bool {
    lex_lt(minimal_le(a as nat), minimal_le(b as nat))
}

/// `keys` lists the signals of `dom`, each once, in the order they are written.
pub open spec fn is_write_order(dom: Set<usize>, keys: Seq<usize>) -> bool {
    &&& forall|x: usize| dom.contains(x) <==> keys.contains(x)
    &&& forall|i: int, j: int| 0 <= i < j < keys.len() ==> key_lt(keys[i], keys[j])
}

proof fn lemma_key_total(a: usize, b: usize)
    requires
        a != b,
    ensures
        key_lt(a, b) || key_lt(b, a),
{
    if minimal_le(a as nat) == minimal_le(b as nat) {
        lemma_minimal_le_injective(a as nat, b as nat);
    }
    lemma_lex_total(minimal_le(a as nat), minimal_le(b as nat));
}

proof fn lemma_key_transitive(a: usize, b: usize, c: usize)
    requires
        key_lt(a, b),
        key_lt(b, c),
    ensures
        key_lt(a, c),
{
    lemma_lex_transitive(minimal_le(a as nat), minimal_le(b as nat), minimal_le(c as nat));
}

proof fn lemma_key_irreflexive(a: usize)
    ensures
        !key_lt(a, a),
{
    lemma_lex_irreflexive(minimal_le(a as nat));
}

fn key_less(a: usize, b: usize) -> (res: bool)
    ensures
        res == key_lt(a, b),
{
    let x = minimal_le_bytes(a as u64);
    let y = minimal_le_bytes(b as u64);
    lex_less(x.as_slice(), y.as_slice())
}

/// Index of the first signal of `v` that comes before all the others.
fn index_of_first(v: &Vec<usize>) -> (res: usize)
    requires
        v@.len() > 0,
        v@.no_duplicates(),
    ensures
        res < v@.len(),
        forall|j: int| 0 <= j < v@.len() && j != res ==> key_lt(v@[res as int], v@[j]),
{
    let mut best: usize = 0;
    let mut i: usize = 1;
    while i < v.len()
        invariant
            1 <= i <= v@.len(),
            best < i,
            v@.no_duplicates(),
            forall|j: int| 0 <= j < i && j != best ==> key_lt(v@[best as int], v@[j]),
        decreases v@.len() - i,
    {
        if key_less(v[i], v[best]) {
            proof {
                assert forall|j: int| 0 <= j < i + 1 && j != i implies key_lt(v@[i as int], v@[j]) by {
                    if j != best {
                        lemma_key_transitive(v@[i as int], v@[best as int], v@[j]);
                    }
                }
            }
            best = i;
        } else {
            proof {
                lemma_key_total(v@[i as int], v@[best as int]);
            }
        }
        i = i + 1;
    }
    best
}

/// The signals of `v` in the order they are written.
fn sort_keys(v: Vec<usize>) -> (res: Vec<usize>)
    requires
        v@.no_duplicates(),
    ensures
        forall|x: usize| v@.contains(x) <==> res@.contains(x),
        forall|i: int, j: int| 0 <= i < j < res@.len() ==> key_lt(res@[i], res@[j]),
{
    let ghost orig = v@;
    let mut rem = v;
    let mut out: Vec<usize> = Vec::new();
    while rem.len() > 0
        invariant
            rem@.no_duplicates(),
            forall|x: usize| orig.contains(x) <==> (out@.contains(x) || rem@.contains(x)),
            forall|i: int, j: int| 0 <= i < j < out@.len() ==> key_lt(out@[i], out@[j]),
            forall|i: int, j: int|
                0 <= i < out@.len() && 0 <= j < rem@.len() ==> key_lt(out@[i], rem@[j]),
        decreases rem@.len(),
    {
        let k = index_of_first(&rem);
        let ghost old_rem = rem@;
        let ghost old_out = out@;
        let m = rem.remove(k);
        out.push(m);
        proof {
            assert(rem@ =~= old_rem.subrange(0, k as int) + old_rem.subrange(k + 1, old_rem.len() as int));
            assert forall|j: int| 0 <= j < rem@.len() implies (j < k ==> rem@[j] == old_rem[j]) && (j >= k ==> rem@[j] == old_rem[j + 1]) by {}
            assert forall|i: int, j: int| 0 <= i < j < rem@.len() implies rem@[i] != rem@[j] by {
                let oi = if i < k { i } else { i + 1 };
                let oj = if j < k { j } else { j + 1 };
                assert(old_rem[oi] != old_rem[oj]);
            }
            assert forall|x: usize| orig.contains(x) <==> (out@.contains(x) || rem@.contains(x)) by {
                if old_rem.contains(x) {
                    let idx = choose|idx: int| 0 <= idx < old_rem.len() && old_rem[idx] == x;
                    if idx == k {
                        assert(out@[out@.len() - 1] == x);
                    } else if idx < k {
                        assert(rem@[idx] == x);
                    } else {
                        assert(rem@[idx - 1] == x);
                    }
                }
                if old_out.contains(x) {
                    let idx = choose|idx: int| 0 <= idx < old_out.len() && old_out[idx] == x;
                    assert(out@[idx] == x);
                }
                if out@.contains(x) {
                    let idx = choose|idx: int| 0 <= idx < out@.len() && out@[idx] == x;
                    if idx < old_out.len() {
                        assert(old_out[idx] == x);
                    } else {
                        assert(old_rem[k as int] == x);
                    }
                }
                if rem@.contains(x) {
                    let idx = choose|idx: int| 0 <= idx < rem@.len() && rem@[idx] == x;
                    if idx < k {
                        assert(old_rem[idx] == x);
                    } else {
                        assert(old_rem[idx + 1] == x);
                    }
                }
            }
            assert forall|i: int, j: int| 0 <= i < j < out@.len() implies key_lt(out@[i], out@[j]) by {
                if j == out@.len() - 1 {
                    assert(key_lt(old_out[i], old_rem[k as int]));
                } else {
                    assert(key_lt(old_out[i], old_out[j]));
                }
            }
            assert forall|i: int, j: int|
                0 <= i < out@.len() && 0 <= j < rem@.len() implies key_lt(out@[i], rem@[j]) by {
                let oj = if j < k { j } else { j + 1 };
                if i == out@.len() - 1 {
                    assert(key_lt(old_rem[k as int], old_rem[oj]));
                } else {
                    assert(key_lt(old_out[i], old_rem[oj]));
                }
            }
        }
    }
    out
}

/// The signals of `linear_combination`, in the order they are written.
fn write_order(linear_combination: &HashMap<usize, Vec<u8>>) -> (res: Vec<usize>)
    ensures
        is_write_order(linear_combination@.dom(), res@),
{
    broadcast use vstd::std_specs::hash::group_hash_axioms;
    let mut keys: Vec<usize> = Vec::new();
    let ghost all = spec_keys_iter(linear_combination).remaining();
    for k in it: linear_combination.keys()
        invariant
            keys@.len() == it.index(),
            all == it.seq(),
            forall|i: int| 0 <= i < it.index() ==> keys@[i] == *it.seq()[i],
    {
        keys.push(*k);
    }
    proof {
        assert(keys@ =~= all.unref());
        assert forall|x: usize| linear_combination@.dom().contains(x) <==> keys@.contains(x) by {
            assert(all.unref().to_set().contains(x) <==> keys@.contains(x));
        }
    }
    sort_keys(keys)
}


/// `n` over `width` bytes, and the number of bytes.
pub fn usize_as_bytes(number: usize, with_bytes: usize) -> (res: (Vec<u8>, usize))
    ensures
        res.0@ == le_field(number as nat, with_bytes as nat),
        res.1 == res.0@.len(),
{
    let value = minimal_le_bytes(number as u64);
    into_format(value.as_slice(), with_bytes)
}

/// The shortest encoding of a number below 2^64 takes at most 8 bytes.
pub proof fn lemma_minimal_le_u64_len(n: u64)
    ensures
        minimal_le(n as nat).len() <= 8,
        le_field(n as nat, 8).len() == 8,
{
    reveal_with_fuel(pow256, 9);
    assert(pow256(8) == 0x1_0000_0000_0000_0000);
    if n > 0 {
        lemma_le_digits_len_bound(n as nat, 8);
    }
}

/// Bytes 1 to 4 of the type field of each section.
pub open spec fn section_type(t: u8) -> Seq<u8> {
    seq![t, 0u8, 0u8, 0u8]
}

/// The eight bytes that hold the place of a section's size until it is known.
pub open spec fn place_holder() -> Seq<u8> {
    seq![3u8, 3u8, 3u8, 3u8, 3u8, 3u8, 3u8, 3u8]
}

/// "r1cs", version 1 and the number of sections.
pub open spec fn file_start(num_sections: u8) -> Seq<u8> {
    seq![114u8, 49u8, 99u8, 115u8] + seq![1u8, 0u8, 0u8, 0u8] + seq![num_sections, 0u8, 0u8, 0u8]
}

/// `data` with `bytes` written over it from position `at` on.
pub open spec fn overwrite(data: Seq<u8>, at: int, bytes: Seq<u8>) -> Seq<u8> {
    data.subrange(0, at) + bytes + data.subrange(at + bytes.len(), data.len() as int)
}

/// Appends the type of a section and the place holder of its size; returns
/// where the size goes.
pub fn initialize_section(data: &mut Vec<u8>, header: &[u8]) -> (go_back: usize)
    ensures
        final(data)@ == old(data)@ + header@ + place_holder(),
        go_back == old(data)@.len() + header@.len(),
{
    append_bytes(data, header);
    let go_back = data.len();
    let holder: [u8; 8] = [3, 3, 3, 3, 3, 3, 3, 3];
    append_bytes(data, holder.as_slice());
    proof {
        assert(holder@ =~= place_holder());
    }
    go_back
}

/// Writes the size of a finished section over its place holder.
pub fn end_section(data: &mut Vec<u8>, go_back: usize, size: usize)
    requires
        go_back + 8 <= old(data)@.len(),
    ensures
        final(data)@ == overwrite(old(data)@, go_back as int, le_field(size as nat, 8)),
{
    let (stream, _) = usize_as_bytes(size, 8);
    proof {
        lemma_minimal_le_u64_len(size as u64);
    }
    let len = data.len();
    let mut i: usize = 0;
    while i < 8
        invariant
            data@.len() == len,
            stream@ == le_field(size as nat, 8),
            stream@.len() == 8,
            i <= 8,
            go_back + 8 <= data@.len(),
            data@.len() == old(data)@.len(),
            data@ == overwrite(old(data)@, go_back as int, stream@.subrange(0, i as int)),
        decreases 8 - i,
    {
        let ghost before = data@;
        let pos: usize = go_back + i;
        data.set(pos, stream[i]);
        i = i + 1;
        proof {
            let now = overwrite(old(data)@, go_back as int, stream@.subrange(0, i as int));
            assert(now.len() == data@.len());
            assert forall|j: int| 0 <= j < data@.len() implies data@[j] == now[j] by {
                if j == pos {
                } else {
                    assert(data@[j] == before[j]);
                }
            }
            assert(data@ =~= now);
        }
    }
    proof {
        assert(stream@.subrange(0, 8) =~= stream@);
    }
}

/// One signal and its factor, as a linear combination block lists them.
pub open spec fn lc_entry(id: usize, factor: Seq<u8>, field_size: nat) -> Seq<u8> {
    le_field(id as nat, 4) + pad(factor, field_size)
}

/// The entries of the signals `keys` of `lc`, in that order.
pub open spec fn lc_entries(keys: Seq<usize>, lc: Map<usize, Vec<u8>>, field_size: nat) -> Seq<u8>
    decreases keys.len(),
{
    if keys.len() == 0 {
        Seq::empty()
    } else {
        lc_entries(keys.drop_last(), lc, field_size) + lc_entry(keys.last(), lc[keys.last()]@, field_size)
    }
}

/// A linear combination block: the number of signals, then each signal with
/// its factor, in the order `keys`.
pub open spec fn lc_block(keys: Seq<usize>, lc: Map<usize, Vec<u8>>, field_size: nat) -> Seq<u8> {
    le_field(keys.len() as nat, 4) + lc_entries(keys, lc, field_size)
}

/// The block of a linear combination, as the R1CS format writes it: its number
/// of signals over 4 bytes, then each signal over 4 bytes followed by its
/// factor over `field_size` bytes, the signals in write order.
pub open spec fn is_lc_block(
    block: Seq<u8>,
    lc: Map<usize, Vec<u8>>,
    field_size: nat,
) -> bool {
    exists|keys: Seq<usize>| is_write_order(lc.dom(), keys) && block == lc_block(keys, lc, field_size)
}

pub proof fn lemma_write_order_len(dom: Set<usize>, keys: Seq<usize>)
    requires
        is_write_order(dom, keys),
        dom.finite(),
    ensures
        keys.no_duplicates(),
        keys.to_set() == dom,
        keys.len() == dom.len(),
{
    assert forall|i: int, j: int| 0 <= i < keys.len() && 0 <= j < keys.len() && i != j implies keys[i] != keys[j] by {
        if i < j {
            lemma_key_irreflexive(keys[i]);
        } else {
            lemma_key_irreflexive(keys[j]);
        }
    }
    assert(keys.to_set() =~= dom);
    keys.unique_seq_to_set();
}

/// Serializes a linear combination: see `is_lc_block`.
pub fn obtain_linear_combination_block(
    linear_combination: &HashMap<usize, Vec<u8>>,
    field_size: usize,
) -> (res: (Vec<u8>, usize))
    ensures
        is_lc_block(res.0@, linear_combination@, field_size as nat),
        res.1 == res.0@.len(),
{
    broadcast use vstd::std_specs::hash::group_hash_axioms;
    let order = write_order(linear_combination);
    proof {
        lemma_write_order_len(linear_combination@.dom(), order@);
    }
    let mut block: Vec<u8> = Vec::new();
    let (stream, _) = usize_as_bytes(linear_combination.len(), 4);
    append_bytes(&mut block, stream.as_slice());
    proof {
        assert(order@.subrange(0, 0) =~= Seq::<usize>::empty());
    }
    let mut i: usize = 0;
    while i < order.len()
        invariant
            i <= order@.len(),
            order@.len() == linear_combination@.dom().len(),
            is_write_order(linear_combination@.dom(), order@),
            block@ == le_field(order@.len() as nat, 4) + lc_entries(
                order@.subrange(0, i as int),
                linear_combination@,
                field_size as nat,
            ),
        decreases order@.len() - i,
    {
        let id = order[i];
        assert(linear_combination@.dom().contains(id)) by {
            assert(order@.contains(id));
        }
        let factor = linear_combination.get(&id).unwrap();
        let (id_stream, _) = usize_as_bytes(id, 4);
        append_bytes(&mut block, id_stream.as_slice());
        let (factor_stream, _) = into_format(factor.as_slice(), field_size);
        append_bytes(&mut block, factor_stream.as_slice());
        proof {
            let prefix = order@.subrange(0, i + 1);
            assert(prefix.drop_last() =~= order@.subrange(0, i as int));
            assert(prefix.last() == id);
        }
        i = i + 1;
    }
    proof {
        assert(order@.subrange(0, order@.len() as int) =~= order@);
    }
    let size = block.len();
    (block, size)
}


/// Serializes the three linear combinations of a constraint, one after the
/// other, onto `data`; returns how many bytes it appended.
pub fn write_constraint(
    data: &mut Vec<u8>,
    a: &HashMap<usize, Vec<u8>>,
    b: &HashMap<usize, Vec<u8>>,
    c: &HashMap<usize, Vec<u8>>,
    field_size: usize,
) -> (size: usize)
    ensures
        is_constraint_bytes(final(data)@.subrange(old(data)@.len() as int, final(data)@.len() as int), a@, b@, c@, field_size as nat),
        final(data)@.subrange(0, old(data)@.len() as int) == old(data)@,
        size == final(data)@.len() - old(data)@.len(),
{
    let (block_a, size_a) = obtain_linear_combination_block(a, field_size);
    let (block_b, size_b) = obtain_linear_combination_block(b, field_size);
    let (block_c, size_c) = obtain_linear_combination_block(c, field_size);
    let ghost start = data@;
    append_bytes(data, block_a.as_slice());
    append_bytes(data, block_b.as_slice());
    append_bytes(data, block_c.as_slice());
    proof {
        assert(data@.subrange(start.len() as int, data@.len() as int) =~= block_a@ + block_b@ + block_c@);
        assert(data@.subrange(0, start.len() as int) =~= start);
    }
    let _total = data.len();
    size_a + size_b + size_c
}

/// The bytes of a constraint A * B = C: the blocks of A, B and C in turn.
pub open spec fn is_constraint_bytes(
    bytes: Seq<u8>,
    a: Map<usize, Vec<u8>>,
    b: Map<usize, Vec<u8>>,
    c: Map<usize, Vec<u8>>,
    field_size: nat,
) -> bool {
    exists|ba: Seq<u8>, bb: Seq<u8>, bc: Seq<u8>|
        is_lc_block(ba, a, field_size) && is_lc_block(bb, b, field_size) && is_lc_block(bc, c, field_size)
            && bytes == ba + bb + bc
}

/// Writes "r1cs", the version and the number of sections.
pub fn initialize_file(data: &mut Vec<u8>, num_sections: u8)
    ensures
        final(data)@ == old(data)@ + file_start(num_sections),
{
    let magic: [u8; 4] = [114, 49, 99, 115];
    let version: [u8; 4] = [1, 0, 0, 0];
    let count: [u8; 4] = [num_sections, 0, 0, 0];
    append_bytes(data, magic.as_slice());
    append_bytes(data, version.as_slice());
    append_bytes(data, count.as_slice());
    proof {
        assert(magic@ =~= seq![114u8, 49u8, 99u8, 115u8]);
        assert(version@ =~= seq![1u8, 0u8, 0u8, 0u8]);
        assert(count@ =~= seq![num_sections, 0u8, 0u8, 0u8]);
        assert(old(data)@ + file_start(num_sections) =~= old(data)@ + magic@ + version@ + count@);
    }
}

/// What an R1CS file holds between two sections.
pub struct R1CSWriterView {
    pub data: Seq<u8>,
    pub field_size: nat,
    pub sections: Seq<bool>,
}

/// What an R1CS file holds while a section is being written.
pub struct SectionView {
    pub data: Seq<u8>,
    pub go_back: nat,
    pub size: nat,
    pub index: nat,
    pub field_size: nat,
    pub sections: Seq<bool>,
    pub written: nat,
}

/// A section is opened: its type and the place holder of its size follow.
pub open spec fn started(w: R1CSWriterView, section: u8, index: nat, written: nat) -> SectionView {
    SectionView {
        data: w.data + section_type(section) + place_holder(),
        go_back: w.data.len() + 4,
        size: 0,
        index,
        field_size: w.field_size,
        sections: w.sections,
        written,
    }
}

/// `bytes` are added to the open section.
pub open spec fn appended(v: SectionView, bytes: Seq<u8>) -> SectionView {
    SectionView { data: v.data + bytes, size: v.size + bytes.len(), ..v }
}

/// The section is closed: its size goes over the place holder and it is
/// marked as written.
pub open spec fn ended(v: SectionView) -> R1CSWriterView {
    R1CSWriterView {
        data: overwrite(v.data, v.go_back as int, le_field(v.size, 8)),
        field_size: v.field_size,
        sections: v.sections.update(v.index as int, true),
    }
}

/// `bytes` of one more constraint are added to the open section.
pub open spec fn constraint_appended(v: SectionView, bytes: Seq<u8>) -> SectionView {
    SectionView { written: v.written + 1, ..appended(v, bytes) }
}

/// An open section whose size counts the bytes after its place holder.
pub open spec fn section_wf(v: SectionView) -> bool {
    &&& v.go_back + 8 <= v.data.len()
    &&& v.size == v.data.len() - v.go_back - 8
    &&& v.index < 5
    &&& v.sections.len() == 5
    &&& v.written <= v.size
    &&& v.size <= usize::MAX
}

pub struct R1CSWriter {
    field_size: usize,
    pub data: Vec<u8>,
    sections: [bool; 5],
}

impl View for R1CSWriter {
    type V = R1CSWriterView;

    closed spec fn view(&self) -> R1CSWriterView {
        R1CSWriterView { data: self.data@, field_size: self.field_size as nat, sections: self.sections@ }
    }
}

pub struct HeaderSection {
    data: Vec<u8>,
    go_back: usize,
    size: usize,
    index: usize,
    field_size: usize,
    sections: [bool; 5],
}

pub struct ConstraintSection {
    data: Vec<u8>,
    number_of_constraints: usize,
    go_back: usize,
    size: usize,
    index: usize,
    field_size: usize,
    sections: [bool; 5],
}

pub struct SignalSection {
    data: Vec<u8>,
    go_back: usize,
    size: usize,
    index: usize,
    field_size: usize,
    sections: [bool; 5],
}

pub struct CustomGatesUsedSection {
    data: Vec<u8>,
    go_back: usize,
    size: usize,
    index: usize,
    field_size: usize,
    sections: [bool; 5],
}

pub struct CustomGatesAppliedSection {
    data: Vec<u8>,
    go_back: usize,
    size: usize,
    index: usize,
    field_size: usize,
    sections: [bool; 5],
}

impl View for HeaderSection {
    type V = SectionView;

    closed spec fn view(&self) -> SectionView {
        SectionView {
            data: self.data@,
            go_back: self.go_back as nat,
            size: self.size as nat,
            index: self.index as nat,
            field_size: self.field_size as nat,
            sections: self.sections@,
            written: 0,
        }
    }
}

impl View for ConstraintSection {
    type V = SectionView;

    closed spec fn view(&self) -> SectionView {
        SectionView {
            data: self.data@,
            go_back: self.go_back as nat,
            size: self.size as nat,
            index: self.index as nat,
            field_size: self.field_size as nat,
            sections: self.sections@,
            written: self.number_of_constraints as nat,
        }
    }
}

impl View for SignalSection {
    type V = SectionView;

    closed spec fn view(&self) -> SectionView {
        SectionView {
            data: self.data@,
            go_back: self.go_back as nat,
            size: self.size as nat,
            index: self.index as nat,
            field_size: self.field_size as nat,
            sections: self.sections@,
            written: 0,
        }
    }
}

impl View for CustomGatesUsedSection {
    type V = SectionView;

    closed spec fn view(&self) -> SectionView {
        SectionView {
            data: self.data@,
            go_back: self.go_back as nat,
            size: self.size as nat,
            index: self.index as nat,
            field_size: self.field_size as nat,
            sections: self.sections@,
            written: 0,
        }
    }
}

impl View for CustomGatesAppliedSection {
    type V = SectionView;

    closed spec fn view(&self) -> SectionView {
        SectionView {
            data: self.data@,
            go_back: self.go_back as nat,
            size: self.size as nat,
            index: self.index as nat,
            field_size: self.field_size as nat,
            sections: self.sections@,
            written: 0,
        }
    }
}

impl R1CSWriter {
    /// The bytes of the file written so far.
    pub fn bytes(&self) -> (res: &Vec<u8>)
        ensures
            res@ == self@.data,
    {
        &self.data
    }

    /// A new file: "r1cs", version 1, and 5 sections with custom gates or 3
    /// without; no section written yet.
    pub fn new(field_size: usize, custom_gates: bool) -> (res: R1CSWriter)
        ensures
            res@.data == file_start(if custom_gates { 5u8 } else { 3u8 }),
            res@.field_size == field_size,
            res@.sections == seq![false, false, false, false, false],
    {
        let sections = [false; 5];
        let num_sections: u8 = if custom_gates { 5 } else { 3 };
        let mut data = Vec::<u8>::new();
        initialize_file(&mut data, num_sections);
        proof {
            assert(sections@ =~= seq![false, false, false, false, false]);
            assert(data@ =~= file_start(num_sections));
        }
        R1CSWriter { data, sections, field_size }
    }

    pub fn start_header_section(r1cs: R1CSWriter) -> (res: HeaderSection)
        requires
            r1cs@.sections.len() == 5,
        ensures
            res@ == started(r1cs@, 1, 0, 0),
            section_wf(res@),
    {
        let R1CSWriter { field_size, mut data, sections } = r1cs;
        let header: [u8; 4] = [1, 0, 0, 0];
        let start = initialize_section(&mut data, header.as_slice());
        proof {
            assert(header@ =~= section_type(1));
        }
        HeaderSection { data, go_back: start, size: 0, index: 0, field_size, sections }
    }

    pub fn start_constraints_section(r1cs: R1CSWriter) -> (res: ConstraintSection)
        requires
            r1cs@.sections.len() == 5,
        ensures
            res@ == started(r1cs@, 2, 1, 0),
            section_wf(res@),
    {
        let R1CSWriter { field_size, mut data, sections } = r1cs;
        let header: [u8; 4] = [2, 0, 0, 0];
        let start = initialize_section(&mut data, header.as_slice());
        proof {
            assert(header@ =~= section_type(2));
        }
        ConstraintSection {
            number_of_constraints: 0,
            data,
            go_back: start,
            size: 0,
            index: 1,
            field_size,
            sections,
        }
    }

    pub fn start_signal_section(r1cs: R1CSWriter) -> (res: SignalSection)
        requires
            r1cs@.sections.len() == 5,
        ensures
            res@ == started(r1cs@, 3, 2, 0),
            section_wf(res@),
    {
        let R1CSWriter { field_size, mut data, sections } = r1cs;
        let header: [u8; 4] = [3, 0, 0, 0];
        let start = initialize_section(&mut data, header.as_slice());
        proof {
            assert(header@ =~= section_type(3));
        }
        SignalSection { data, go_back: start, size: 0, index: 2, field_size, sections }
    }

    pub fn start_custom_gates_used_section(r1cs: R1CSWriter) -> (res: CustomGatesUsedSection)
        requires
            r1cs@.sections.len() == 5,
        ensures
            res@ == started(r1cs@, 4, 3, 0),
            section_wf(res@),
    {
        let R1CSWriter { field_size, mut data, sections } = r1cs;
        let header: [u8; 4] = [4, 0, 0, 0];
        let start = initialize_section(&mut data, header.as_slice());
        proof {
            assert(header@ =~= section_type(4));
        }
        CustomGatesUsedSection { data, go_back: start, size: 0, index: 3, field_size, sections }
    }

    pub fn start_custom_gates_applied_section(r1cs: R1CSWriter) -> (res: CustomGatesAppliedSection)
        requires
            r1cs@.sections.len() == 5,
        ensures
            res@ == started(r1cs@, 5, 4, 0),
            section_wf(res@),
    {
        let R1CSWriter { field_size, mut data, sections } = r1cs;
        let header: [u8; 4] = [5, 0, 0, 0];
        let start = initialize_section(&mut data, header.as_slice());
        proof {
            assert(header@ =~= section_type(5));
        }
        CustomGatesAppliedSection { data, go_back: start, size: 0, index: 4, field_size, sections }
    }
}


/// The header of a circuit: the prime of the field, as little-endian bytes,
/// and the counts of wires, inputs, outputs, labels and constraints.
pub struct HeaderData {
    pub field: Vec<u8>,
    pub total_wires: usize,
    pub public_outputs: usize,
    pub public_inputs: usize,
    pub private_inputs: usize,
    pub number_of_labels: usize,
    pub number_of_constraints: usize,
}

/// The bytes of the header section.
pub open spec fn header_bytes(field_size: nat, h: HeaderData) -> Seq<u8> {
    le_field(field_size, 4) + pad(h.field@, field_size) + le_field(h.total_wires as nat, 4)
        + le_field(h.public_outputs as nat, 4) + le_field(h.public_inputs as nat, 4)
        + le_field(h.private_inputs as nat, 4) + le_field(h.number_of_labels as nat, 8)
        + le_field(h.number_of_constraints as nat, 4)
}

impl HeaderSection {
    pub fn write_section(&mut self, data: HeaderData)
        requires
            section_wf(old(self)@),
        ensures
            section_wf(final(self)@),
            final(self)@ == appended(old(self)@, header_bytes(old(self)@.field_size, data)),
    {
        let ghost start = self.data@;
        let (field_stream, _) = into_format(data.field.as_slice(), self.field_size);
        let (length_stream, _) = usize_as_bytes(self.field_size, 4);
        append_bytes(&mut self.data, length_stream.as_slice());
        append_bytes(&mut self.data, field_stream.as_slice());
        let (s1, _) = usize_as_bytes(data.total_wires, 4);
        append_bytes(&mut self.data, s1.as_slice());
        let (s2, _) = usize_as_bytes(data.public_outputs, 4);
        append_bytes(&mut self.data, s2.as_slice());
        let (s3, _) = usize_as_bytes(data.public_inputs, 4);
        append_bytes(&mut self.data, s3.as_slice());
        let (s4, _) = usize_as_bytes(data.private_inputs, 4);
        append_bytes(&mut self.data, s4.as_slice());
        let (s5, _) = usize_as_bytes(data.number_of_labels, 8);
        append_bytes(&mut self.data, s5.as_slice());
        let (s6, _) = usize_as_bytes(data.number_of_constraints, 4);
        append_bytes(&mut self.data, s6.as_slice());
        let total = self.data.len();
        self.size = total - self.go_back - 8;
        proof {
            assert(self.data@ =~= start + header_bytes(self.field_size as nat, data));
        }
    }

    pub fn end_section(self) -> (res: R1CSWriter)
        requires
            section_wf(self@),
        ensures
            res@ == ended(self@),
    {
        let HeaderSection { mut data, go_back, size, index, field_size, mut sections } = self;
        end_section(&mut data, go_back, size);
        sections[index] = true;
        R1CSWriter { data, field_size, sections }
    }
}

impl ConstraintSection {
    /// Writes the constraint A * B = C.
    pub fn write_constraint_usize(
        &mut self,
        a: &HashMap<usize, Vec<u8>>,
        b: &HashMap<usize, Vec<u8>>,
        c: &HashMap<usize, Vec<u8>>,
    )
        requires
            section_wf(old(self)@),
        ensures
            section_wf(final(self)@),
            exists|bytes: Seq<u8>|
                is_constraint_bytes(bytes, a@, b@, c@, old(self)@.field_size) && final(self)@
                    == constraint_appended(old(self)@, bytes),
    {
        let ghost start = self.data@;
        let field_size = self.field_size;
        let _added = write_constraint(&mut self.data, a, b, c, field_size);
        let total = self.data.len();
        let ghost bytes = self.data@.subrange(start.len() as int, self.data@.len() as int);
        proof {
            assert(self.data@ =~= start + bytes);
            lemma_constraint_bytes_not_empty(bytes, a@, b@, c@, field_size as nat);
        }
        self.size = total - self.go_back - 8;
        self.number_of_constraints = self.number_of_constraints + 1;
        proof {
            assert(self@ == constraint_appended(old(self)@, bytes));
        }
    }

    pub fn end_section(self) -> (res: R1CSWriter)
        requires
            section_wf(self@),
        ensures
            res@ == ended(self@),
    {
        let ConstraintSection {
            mut data,
            number_of_constraints: _,
            go_back,
            size,
            index,
            field_size,
            mut sections,
        } = self;
        end_section(&mut data, go_back, size);
        sections[index] = true;
        R1CSWriter { data, field_size, sections }
    }

    pub fn constraints_written(&self) -> (res: usize)
        ensures
            res == self@.written,
    {
        self.number_of_constraints
    }
}

proof fn lemma_constraint_bytes_not_empty(
    bytes: Seq<u8>,
    a: Map<usize, Vec<u8>>,
    b: Map<usize, Vec<u8>>,
    c: Map<usize, Vec<u8>>,
    field_size: nat,
)
    requires
        is_constraint_bytes(bytes, a, b, c, field_size),
    ensures
        bytes.len() >= 12,
{
    let (ba, bb, bc) = choose|ba: Seq<u8>, bb: Seq<u8>, bc: Seq<u8>|
        is_lc_block(ba, a, field_size) && is_lc_block(bb, b, field_size) && is_lc_block(bc, c, field_size)
            && bytes == ba + bb + bc;
    lemma_lc_block_len(ba, a, field_size);
    lemma_lc_block_len(bb, b, field_size);
    lemma_lc_block_len(bc, c, field_size);
}

proof fn lemma_lc_block_len(block: Seq<u8>, lc: Map<usize, Vec<u8>>, field_size: nat)
    requires
        is_lc_block(block, lc, field_size),
    ensures
        block.len() >= 4,
{
    let keys = choose|keys: Seq<usize>| is_write_order(lc.dom(), keys) && block == lc_block(keys, lc, field_size);
    lemma_pad_len(minimal_le(keys.len() as nat), 4);
}

pub proof fn lemma_pad_len(s: Seq<u8>, width: nat)
    ensures
        pad(s, width).len() == if s.len() < width { width } else { s.len() },
        pad(s, width).len() >= width,
{
}

impl SignalSection {
    /// Writes a signal given by its little-endian bytes, over 8 bytes.
    pub fn write_signal(&mut self, bytes: &[u8])
        requires
            section_wf(old(self)@),
        ensures
            section_wf(final(self)@),
            final(self)@ == appended(old(self)@, pad(bytes@, 8)),
    {
        let (bytes, _) = into_format(bytes, 8);
        append_bytes(&mut self.data, bytes.as_slice());
        let total = self.data.len();
        self.size = total - self.go_back - 8;
    }

    pub fn write_signal_usize(&mut self, signal: usize)
        requires
            section_wf(old(self)@),
        ensures
            section_wf(final(self)@),
            final(self)@ == appended(old(self)@, le_field(signal as nat, 8)),
    {
        let as_bytes = minimal_le_bytes(signal as u64);
        self.write_signal(as_bytes.as_slice());
    }

    pub fn end_section(self) -> (res: R1CSWriter)
        requires
            section_wf(self@),
        ensures
            res@ == ended(self@),
    {
        let SignalSection { mut data, go_back, size, index, field_size, mut sections } = self;
        end_section(&mut data, go_back, size);
        sections[index] = true;
        R1CSWriter { data, field_size, sections }
    }
}

/// The custom templates used: name and parameters (little-endian bytes).
pub type CustomGatesUsedData = Vec<(String, Vec<Vec<u8>>)>;

/// The parameters of a custom template, each over `field_size` bytes.
pub open spec fn parameters_bytes(parameters: Seq<Vec<u8>>, field_size: nat) -> Seq<u8>
    decreases parameters.len(),
{
    if parameters.len() == 0 {
        Seq::empty()
    } else {
        parameters_bytes(parameters.drop_last(), field_size) + pad(parameters.last()@, field_size)
    }
}

/// One custom template: its name in UTF-8 ended by a zero byte, then its
/// number of parameters over 4 bytes and the parameters.
pub open spec fn custom_gate_used_bytes(gate: (String, Vec<Vec<u8>>), field_size: nat) -> Seq<u8> {
    encode_utf8(gate.0@) + seq![0u8] + le_field(gate.1@.len() as nat, 4) + parameters_bytes(
        gate.1@,
        field_size,
    )
}

pub open spec fn custom_gates_used_entries(gates: Seq<(String, Vec<Vec<u8>>)>, field_size: nat) -> Seq<u8>
    decreases gates.len(),
{
    if gates.len() == 0 {
        Seq::empty()
    } else {
        custom_gates_used_entries(gates.drop_last(), field_size) + custom_gate_used_bytes(
            gates.last(),
            field_size,
        )
    }
}

/// The bytes of the section of custom templates used.
pub open spec fn custom_gates_used_bytes(gates: Seq<(String, Vec<Vec<u8>>)>, field_size: nat) -> Seq<u8> {
    le_field(gates.len() as nat, 4) + custom_gates_used_entries(gates, field_size)
}

impl CustomGatesUsedSection {
    pub fn write_custom_gates_usages(&mut self, data: CustomGatesUsedData)
        requires
            section_wf(old(self)@),
        ensures
            section_wf(final(self)@),
            final(self)@ == appended(old(self)@, custom_gates_used_bytes(data@, old(self)@.field_size)),
    {
        let ghost start = self.data@;
        let field_size = self.field_size;
        let mut block: Vec<u8> = Vec::new();
        let (count, _) = usize_as_bytes(data.len(), 4);
        append_bytes(&mut block, count.as_slice());
        let mut i: usize = 0;
        while i < data.len()
            invariant
                i <= data@.len(),
                block@ == le_field(data@.len() as nat, 4) + custom_gates_used_entries(
                    data@.subrange(0, i as int),
                    field_size as nat,
                ),
            decreases data@.len() - i,
        {
            let ghost before = block@;
            let name_stream = data[i].0.as_str().as_bytes();
            append_bytes(&mut block, name_stream);
            let zero: [u8; 1] = [0];
            append_bytes(&mut block, zero.as_slice());
            let parameters = &data[i].1;
            let (pcount, _) = usize_as_bytes(parameters.len(), 4);
            append_bytes(&mut block, pcount.as_slice());
            let ghost mid = block@;
            let mut j: usize = 0;
            while j < parameters.len()
                invariant
                    j <= parameters@.len(),
                    block@ == mid + parameters_bytes(parameters@.subrange(0, j as int), field_size as nat),
                decreases parameters@.len() - j,
            {
                let (p, _) = into_format(parameters[j].as_slice(), field_size);
                append_bytes(&mut block, p.as_slice());
                proof {
                    let pre = parameters@.subrange(0, j + 1);
                    assert(pre.drop_last() =~= parameters@.subrange(0, j as int));
                }
                j = j + 1;
            }
            proof {
                assert(parameters@.subrange(0, parameters@.len() as int) =~= parameters@);
                assert(zero@ =~= seq![0u8]);
                let pre = data@.subrange(0, i + 1);
                assert(pre.drop_last() =~= data@.subrange(0, i as int));
                assert(block@ =~= before + custom_gate_used_bytes(data@[i as int], field_size as nat));
            }
            i = i + 1;
        }
        append_bytes(&mut self.data, block.as_slice());
        let total = self.data.len();
        self.size = total - self.go_back - 8;
        proof {
            assert(data@.subrange(0, data@.len() as int) =~= data@);
            assert(self.data@ =~= start + custom_gates_used_bytes(data@, field_size as nat));
        }
    }

    pub fn end_section(self) -> (res: R1CSWriter)
        requires
            section_wf(self@),
        ensures
            res@ == ended(self@),
    {
        let CustomGatesUsedSection { mut data, go_back, size, index, field_size, mut sections } = self;
        end_section(&mut data, go_back, size);
        sections[index] = true;
        R1CSWriter { data, field_size, sections }
    }
}

/// Where custom templates are applied: the index of the template and the
/// signals it is applied to.
pub type CustomGatesAppliedData = Vec<(usize, Vec<usize>)>;

pub open spec fn signals_bytes(signals: Seq<usize>) -> Seq<u8>
    decreases signals.len(),
{
    if signals.len() == 0 {
        Seq::empty()
    } else {
        signals_bytes(signals.drop_last()) + le_field(signals.last() as nat, 8)
    }
}

/// One application: the index of the template over 4 bytes, the number of
/// signals over 4 bytes and each signal over 8 bytes.
pub open spec fn custom_gate_applied_bytes(application: (usize, Vec<usize>)) -> Seq<u8> {
    le_field(application.0 as nat, 4) + le_field(application.1@.len() as nat, 4) + signals_bytes(
        application.1@,
    )
}

pub open spec fn custom_gates_applied_entries(applications: Seq<(usize, Vec<usize>)>) -> Seq<u8>
    decreases applications.len(),
{
    if applications.len() == 0 {
        Seq::empty()
    } else {
        custom_gates_applied_entries(applications.drop_last()) + custom_gate_applied_bytes(
            applications.last(),
        )
    }
}

/// The bytes of the section of custom template applications.
pub open spec fn custom_gates_applied_bytes(applications: Seq<(usize, Vec<usize>)>) -> Seq<u8> {
    le_field(applications.len() as nat, 4) + custom_gates_applied_entries(applications)
}

impl CustomGatesAppliedSection {
    pub fn write_custom_gates_applications(&mut self, data: CustomGatesAppliedData)
        requires
            section_wf(old(self)@),
        ensures
            section_wf(final(self)@),
            final(self)@ == appended(old(self)@, custom_gates_applied_bytes(data@)),
    {
        let ghost start = self.data@;
        let mut block: Vec<u8> = Vec::new();
        let (count, _) = usize_as_bytes(data.len(), 4);
        append_bytes(&mut block, count.as_slice());
        let mut i: usize = 0;
        while i < data.len()
            invariant
                i <= data@.len(),
                block@ == le_field(data@.len() as nat, 4) + custom_gates_applied_entries(
                    data@.subrange(0, i as int),
                ),
            decreases data@.len() - i,
        {
            let ghost before = block@;
            let (index_stream, _) = usize_as_bytes(data[i].0, 4);
            append_bytes(&mut block, index_stream.as_slice());
            let signals = &data[i].1;
            let (scount, _) = usize_as_bytes(signals.len(), 4);
            append_bytes(&mut block, scount.as_slice());
            let ghost mid = block@;
            let mut j: usize = 0;
            while j < signals.len()
                invariant
                    j <= signals@.len(),
                    block@ == mid + signals_bytes(signals@.subrange(0, j as int)),
                decreases signals@.len() - j,
            {
                let (sig, _) = usize_as_bytes(signals[j], 8);
                append_bytes(&mut block, sig.as_slice());
                proof {
                    let pre = signals@.subrange(0, j + 1);
                    assert(pre.drop_last() =~= signals@.subrange(0, j as int));
                }
                j = j + 1;
            }
            proof {
                assert(signals@.subrange(0, signals@.len() as int) =~= signals@);
                let pre = data@.subrange(0, i + 1);
                assert(pre.drop_last() =~= data@.subrange(0, i as int));
                assert(block@ =~= before + custom_gate_applied_bytes(data@[i as int]));
            }
            i = i + 1;
        }
        append_bytes(&mut self.data, block.as_slice());
        let total = self.data.len();
        self.size = total - self.go_back - 8;
        proof {
            assert(data@.subrange(0, data@.len() as int) =~= data@);
            assert(self.data@ =~= start + custom_gates_applied_bytes(data@));
        }
    }

    pub fn end_section(self) -> (res: R1CSWriter)
        requires
            section_wf(self@),
        ensures
            res@ == ended(self@),
    {
        let CustomGatesAppliedSection { mut data, go_back, size, index, field_size, mut sections } = self;
        end_section(&mut data, go_back, size);
        sections[index] = true;
        R1CSWriter { data, field_size, sections }
    }
}

} // verus!
