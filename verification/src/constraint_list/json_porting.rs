//! The constraints of a constraint list as JSON: each constraint is the
//! array of its three linear combinations, each linear combination the
//! object from its signals, in increasing order, to their factors in
//! decimal.

use vstd::prelude::*;
use vstd::string::StringExecFns;
use std::collections::HashMap;
use vstd::std_specs::hash::spec_keys_iter;
use vstd::std_specs::iter::IteratorSpec;
use vstd::utf8::encode_utf8;
use crate::encoding::le_nat;
use crate::text::{nat_text, push_u64};
use crate::dag::Constraint;
use crate::constraint_writers::debug_writer::DebugWriter;
use crate::constraint_writers::json_writer::{ConstraintJSON, utf8};

verus! {

/// `keys` lists the numbers of `dom`, each once, in increasing order.
pub open spec fn is_increasing_order(dom: Set<usize>, keys: Seq<usize>) -> bool {
    &&& forall|x: usize| dom.contains(x) <==> keys.contains(x)
    &&& forall|i: int, j: int| 0 <= i < j < keys.len() ==> keys[i] < keys[j]
}

fn index_of_least(v: &Vec<usize>) -> (res: usize)
    requires
        v@.len() > 0,
    ensures
        res < v@.len(),
        forall|j: int| 0 <= j < v@.len() ==> v@[res as int] <= v@[j],
{
    let mut best: usize = 0;
    let mut i: usize = 1;
    while i < v.len()
        invariant
            1 <= i <= v@.len(),
            best < i,
            forall|j: int| 0 <= j < i ==> v@[best as int] <= v@[j],
        decreases v@.len() - i,
    {
        if v[i] < v[best] {
            best = i;
        }
        i = i + 1;
    }
    best
}

/// The numbers of `v`, which holds none twice, in increasing order.
fn sort_increasing(v: Vec<usize>) -> (res: Vec<usize>)
    requires
        v@.no_duplicates(),
    ensures
        forall|x: usize| v@.contains(x) <==> res@.contains(x),
        forall|i: int, j: int| 0 <= i < j < res@.len() ==> res@[i] < res@[j],
{
    let ghost orig = v@;
    let mut rem = v;
    let mut out: Vec<usize> = Vec::new();
    while rem.len() > 0
        invariant
            rem@.no_duplicates(),
            forall|x: usize| orig.contains(x) <==> (out@.contains(x) || rem@.contains(x)),
            forall|i: int, j: int| 0 <= i < j < out@.len() ==> out@[i] < out@[j],
            forall|i: int, j: int| 0 <= i < out@.len() && 0 <= j < rem@.len() ==> out@[i] < rem@[j],
        decreases rem@.len(),
    {
        let k = index_of_least(&rem);
        let ghost old_rem = rem@;
        let ghost old_out = out@;
        let m = rem.remove(k);
        out.push(m);
        proof {
            assert(rem@ =~= old_rem.subrange(0, k as int) + old_rem.subrange(k + 1, old_rem.len() as int));
            assert forall|j: int| 0 <= j < rem@.len() implies (j < k ==> rem@[j] == old_rem[j]) && (j >= k
                ==> rem@[j] == old_rem[j + 1]) by {}
            assert forall|i: int, j: int| 0 <= i < j < rem@.len() implies rem@[i] != rem@[j] by {
                let oi = if i < k { i } else { i + 1 };
                let oj = if j < k { j } else { j + 1 };
                assert(old_rem[oi] != old_rem[oj]);
            }
            assert forall|x: usize| orig.contains(x) <==> (out@.contains(x) || rem@.contains(x)) by {
                if old_rem.contains(x) {
                    let idx = choose|idx: int| 0 <= idx < old_rem.len() && old_rem[idx] == x;
                    if idx == k {
                        assert(out@[out@.len() - 1] == x);
                    } else if idx < k {
                        assert(rem@[idx] == x);
                    } else {
                        assert(rem@[idx - 1] == x);
                    }
                }
                if old_out.contains(x) {
                    let idx = choose|idx: int| 0 <= idx < old_out.len() && old_out[idx] == x;
                    assert(out@[idx] == x);
                }
                if out@.contains(x) {
                    let idx = choose|idx: int| 0 <= idx < out@.len() && out@[idx] == x;
                    if idx < old_out.len() {
                        assert(old_out[idx] == x);
                    } else {
                        assert(old_rem[k as int] == x);
                    }
                }
                if rem@.contains(x) {
                    let idx = choose|idx: int| 0 <= idx < rem@.len() && rem@[idx] == x;
                    if idx < k {
                        assert(old_rem[idx] == x);
                    } else {
                        assert(old_rem[idx + 1] == x);
                    }
                }
            }
            assert forall|i: int, j: int| 0 <= i < j < out@.len() implies out@[i] < out@[j] by {
                if j == out@.len() - 1 {
                    assert(old_out[i] < old_rem[k as int]);
                } else {
                    assert(old_out[i] < old_out[j]);
                }
            }
            assert forall|i: int, j: int| 0 <= i < out@.len() && 0 <= j < rem@.len() implies out@[i] < rem@[j] by {
                let oj = if j < k { j } else { j + 1 };
                if i == out@.len() - 1 {
                    assert(old_rem[k as int] <= old_rem[oj]);
                    assert(old_rem[k as int] != old_rem[oj]);
                } else {
                    assert(old_out[i] < old_rem[oj]);
                }
            }
        }
    }
    out
}

/// The signals of `values`, in increasing order.
fn increasing_keys(values: &HashMap<usize, Vec<u8>>) -> (res: Vec<usize>)
    ensures
        is_increasing_order(values@.dom(), res@),
{
    broadcast use vstd::std_specs::hash::group_hash_axioms;

    let mut keys: Vec<usize> = Vec::new();
    let ghost all = spec_keys_iter(values).remaining();
    for k in it: values.keys()
        invariant
            keys@.len() == it.index(),
            all == it.seq(),
            forall|i: int| 0 <= i < it.index() ==> keys@[i] == *it.seq()[i],
    {
        keys.push(*k);
    }
    proof {
        assert(keys@ =~= all.unref());
        assert forall|x: usize| values@.dom().contains(x) <==> keys@.contains(x) by {
            assert(all.unref().to_set().contains(x) <==> keys@.contains(x));
        }
    }
    sort_increasing(keys)
}

/// Whether the number of the little-endian bytes `bytes` is zero.
fn is_zero(bytes: &Vec<u8>) -> (res: bool)
    ensures
        res == (le_nat(bytes@) == 0),
{
    let n = bytes.len();
    let mut i: usize = n;
    let mut zero = true;
    proof {
        assert(bytes@.skip(n as int) =~= Seq::<u8>::empty());
    }
    while i > 0
        invariant
            i <= n,
            n == bytes@.len(),
            zero == (le_nat(bytes@.skip(i as int)) == 0),
        decreases i,
    {
        i = i - 1;
        proof {
            let t = bytes@.skip(i as int);
            assert(t.drop_first() =~= bytes@.skip(i + 1));
            assert(le_nat(t) == t[0] as nat + 256 * le_nat(bytes@.skip(i + 1)));
        }
        zero = zero && bytes[i] == 0;
    }
    proof {
        assert(bytes@.skip(0) =~= bytes@);
    }
    zero
}

/// The quotient, over as many bytes, and the remainder of the division of
/// the number of the little-endian bytes `bytes` by ten.
fn divide_by_ten(bytes: &Vec<u8>) -> (res: (Vec<u8>, u8))
    ensures
        le_nat(bytes@) == 10 * le_nat(res.0@) + res.1,
        res.1 < 10,
{
    let n = bytes.len();
    let mut q: Vec<u8> = Vec::new();
    let mut k: usize = 0;
    while k < n
        invariant
            k <= n,
            q@.len() == k,
        decreases n - k,
    {
        q.push(0);
        k = k + 1;
    }
    let mut i: usize = n;
    let mut rem: u32 = 0;
    proof {
        assert(bytes@.skip(n as int) =~= Seq::<u8>::empty());
        assert(q@.skip(n as int) =~= Seq::<u8>::empty());
    }
    while i > 0
        invariant
            i <= n,
            n == bytes@.len(),
            q@.len() == n,
            rem < 10,
            le_nat(bytes@.skip(i as int)) == 10 * le_nat(q@.skip(i as int)) + rem,
        decreases i,
    {
        i = i - 1;
        let cur: u32 = rem * 256 + bytes[i] as u32;
        let d: u8 = (cur / 10) as u8;
        let ghost old_q = q@;
        let ghost qs = le_nat(old_q.skip(i + 1));
        let ghost r0 = rem;
        q.set(i, d);
        rem = cur % 10;
        proof {
            let t = bytes@.skip(i as int);
            assert(t.drop_first() =~= bytes@.skip(i + 1));
            assert(le_nat(t) == t[0] as nat + 256 * le_nat(bytes@.skip(i + 1)));
            let u = q@.skip(i as int);
            assert(u.drop_first() =~= old_q.skip(i + 1));
            assert(u[0] == d);
            assert(le_nat(u) == d as nat + 256 * qs);
            assert(le_nat(bytes@.skip(i + 1)) == 10 * qs + r0);
            assert(cur == r0 * 256 + t[0]);
            assert(cur == 10 * d + rem);
            assert(le_nat(t) == 10 * le_nat(u) + rem) by (nonlinear_arith)
                requires
                    le_nat(t) == t[0] as nat + 256 * le_nat(bytes@.skip(i + 1)),
                    le_nat(bytes@.skip(i + 1)) == 10 * qs + r0,
                    le_nat(u) == d as nat + 256 * qs,
                    cur == r0 * 256 + t[0],
                    cur == 10 * d + rem,
            ;
        }
    }
    proof {
        assert(bytes@.skip(0) =~= bytes@);
        assert(q@.skip(0) =~= q@);
    }
    (q, rem as u8)
}

/// Appends the decimal text of the number of the little-endian bytes
/// `bytes` to `out`.
fn push_le_decimal(out: &mut String, bytes: &Vec<u8>)
    ensures
        final(out)@ == old(out)@ + nat_text(le_nat(bytes@)),
    decreases le_nat(bytes@),
{
    let (q, r) = divide_by_ten(bytes);
    if is_zero(&q) {
        push_u64(out, r as u64);
    } else {
        push_le_decimal(out, &q);
        proof {
            assert(le_nat(bytes@) >= 10);
            assert(le_nat(bytes@) / 10 == le_nat(q@));
            assert(le_nat(bytes@) % 10 == r);
        }
        let ghost mid = out@;
        push_u64(out, r as u64);
        proof {
            assert(nat_text(r as nat) == seq![crate::text::digit_char(r as nat)]);
            assert(nat_text(le_nat(bytes@)) == nat_text(le_nat(q@)).push(crate::text::digit_char(r as nat)));
            assert(out@ =~= old(out)@ + nat_text(le_nat(bytes@)));
        }
    }
}

/// The decimal text of the number of the little-endian bytes `bytes`.
pub fn le_decimal(bytes: &Vec<u8>) -> (res: String)
    ensures
        res@ == nat_text(le_nat(bytes@)),
{
    let mut s = String::new();
    push_le_decimal(&mut s, bytes);
    proof {
        assert(s@ =~= nat_text(le_nat(bytes@)));
    }
    s
}

/// The entries of a linear combination as JSON, its signals taken in the
/// order of `keys`: `"signal":"factor"`, separated by commas.
pub open spec fn json_entries(keys: Seq<usize>, values: Map<usize, Vec<u8>>) -> Seq<char>
    decreases keys.len(),
{
    if keys.len() == 0 {
        Seq::empty()
    } else {
        let k = keys.last();
        json_entries(keys.drop_last(), values) + (if keys.len() == 1 {
            Seq::empty()
        } else {
            ","@
        }) + "\""@ + nat_text(k as nat) + "\":\""@ + nat_text(le_nat(values[k]@)) + "\""@
    }
}

/// The JSON object of the linear combination `values`: its signals in
/// increasing order, each with its factor in decimal.
pub open spec fn is_lc_json(text: Seq<char>, values: Map<usize, Vec<u8>>) -> bool {
    exists|keys: Seq<usize>|
        is_increasing_order(values.dom(), keys) && text == "{"@ + json_entries(keys, values) + "}"@
}

/// The JSON object of the linear combination `values`.
pub fn hashmap_as_json(values: &HashMap<usize, Vec<u8>>) -> (res: String)
    ensures
        is_lc_json(res@, values@),
{
    broadcast use vstd::std_specs::hash::group_hash_axioms;

    let order = increasing_keys(values);
    let mut s = String::from_str("{");
    let mut i: usize = 0;
    proof {
        assert(order@.subrange(0, 0) =~= Seq::<usize>::empty());
        assert(s@ =~= "{"@ + json_entries(order@.subrange(0, 0), values@));
    }
    while i < order.len()
        invariant
            i <= order@.len(),
            is_increasing_order(values@.dom(), order@),
            s@ == "{"@ + json_entries(order@.subrange(0, i as int), values@),
        decreases order@.len() - i,
    {
        let key = order[i];
        proof {
            assert(order@.contains(key));
        }
        let value = values.get(&key).unwrap();
        let ghost before = s@;
        if i > 0 {
            s.append(",");
        }
        s.append("\"");
        push_u64(&mut s, key as u64);
        s.append("\":\"");
        push_le_decimal(&mut s, value);
        s.append("\"");
        proof {
            let pre = order@.subrange(0, i + 1);
            assert(pre.drop_last() =~= order@.subrange(0, i as int));
            assert(pre.last() == key);
            assert(s@ =~= "{"@ + json_entries(pre, values@));
        }
        i = i + 1;
    }
    s.append("}");
    proof {
        assert(order@.subrange(0, order@.len() as int) =~= order@);
    }
    s
}

/// The JSON array of the three linear combinations of `c`.
pub open spec fn is_constraint_json(text: Seq<char>, c: Constraint) -> bool {
    exists|ta: Seq<char>, tb: Seq<char>, tc: Seq<char>|
        is_lc_json(ta, c.a@) && is_lc_json(tb, c.b@) && is_lc_json(tc, c.c@) && text == "["@ + ta + ","@ + tb
            + ","@ + tc + "]"@
}

/// The JSON array of the three linear combinations of `constraint`.
pub fn transform_constraint_to_json(constraint: &Constraint) -> (res: String)
    ensures
        is_constraint_json(res@, *constraint),
{
    let ta = hashmap_as_json(&constraint.a);
    let tb = hashmap_as_json(&constraint.b);
    let tc = hashmap_as_json(&constraint.c);
    let mut s = String::from_str("[");
    s.append(ta.as_str());
    s.append(",");
    s.append(tb.as_str());
    s.append(",");
    s.append(tc.as_str());
    s.append("]");
    proof {
        assert(s@ =~= "["@ + ta@ + ","@ + tb@ + ","@ + tc@ + "]"@);
    }
    s
}

/// The list of constraints of the JSON document, given the text of each.
pub open spec fn constraints_list(texts: Seq<Seq<char>>) -> Seq<u8>
    decreases texts.len(),
{
    if texts.len() == 0 {
        Seq::empty()
    } else {
        constraints_list(texts.drop_last()) + (if texts.len() == 1 {
            utf8("\n")
        } else {
            utf8(",\n")
        }) + encode_utf8(texts.last())
    }
}

/// The JSON document of `constraints`, written in order, as the debug
/// writer builds it.
pub fn port_constraints(constraints: &Vec<Constraint>, debug: &DebugWriter) -> (res: ConstraintJSON)
    ensures
        exists|texts: Seq<Seq<char>>|
            {
                &&& texts.len() == constraints@.len()
                &&& forall|i: int| 0 <= i < texts.len() ==> is_constraint_json(#[trigger] texts[i], constraints@[i])
                &&& res@ == utf8("{") + utf8("\n\"constraints\": [") + constraints_list(texts) + utf8("\n]\n}")
            },
{
    let mut writer = debug.build_constraints_file();
    let ghost mut texts: Seq<Seq<char>> = Seq::empty();
    let mut i: usize = 0;
    proof {
        assert(writer@ =~= utf8("{") + utf8("\n\"constraints\": [") + constraints_list(texts));
    }
    while i < constraints.len()
        invariant
            i <= constraints@.len(),
            texts.len() == i,
            forall|k: int| 0 <= k < i ==> is_constraint_json(#[trigger] texts[k], constraints@[k]),
            writer@ == utf8("{") + utf8("\n\"constraints\": [") + constraints_list(texts),
            writer.has_constraints() == (i > 0),
        decreases constraints@.len() - i,
    {
        let text = transform_constraint_to_json(&constraints[i]);
        writer.write_constraint(text.as_str());
        proof {
            let old_texts = texts;
            texts = texts.push(text@);
            assert(texts.drop_last() =~= old_texts);
            assert forall|k: int| 0 <= k < i + 1 implies is_constraint_json(#[trigger] texts[k], constraints@[k]) by {
                if k < i {
                    assert(texts[k] == old_texts[k]);
                }
            }
            assert(writer@ =~= utf8("{") + utf8("\n\"constraints\": [") + constraints_list(texts));
        }
        i = i + 1;
    }
    writer.end();
    writer
}

} // verus!
