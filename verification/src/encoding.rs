//! Little-endian byte encodings of natural numbers.

use vstd::prelude::*;

verus! {

/// The number that the little-endian bytes `s` stand for.
pub open spec fn le_nat(s: Seq<u8>) -> nat
    decreases s.len(),
{
    if s.len() == 0 {
        0
    } else {
        s[0] as nat + 256 * le_nat(s.drop_first())
    }
}

/// The little-endian digits of `n` in base 256, without trailing zeros.
pub open spec fn le_digits(n: nat) -> Seq<u8>
    decreases n,
{
    if n == 0 {
        Seq::empty()
    } else {
        seq![(n % 256) as u8] + le_digits(n / 256)
    }
}

/// The shortest little-endian encoding of `n`; zero is the single byte 0.
pub open spec fn minimal_le(n: nat) -> Seq<u8> {
    if n == 0 {
        seq![0u8]
    } else {
        le_digits(n)
    }
}

/// `s` followed by as many zero bytes as it takes to reach `width` bytes.
pub open spec fn pad(s: Seq<u8>, width: nat) -> Seq<u8> {
    if s.len() < width {
        s + Seq::new((width - s.len()) as nat, |i: int| 0u8)
    } else {
        s
    }
}

/// `n` in little-endian order over `width` bytes (or more, when it needs more).
pub open spec fn le_field(n: nat, width: nat) -> Seq<u8> {
    pad(minimal_le(n), width)
}

/// Appends `src` to `dst`, byte by byte.
pub fn append_bytes(dst: &mut Vec<u8>, src: &[u8])
    ensures
        final(dst)@ == old(dst)@ + src@,
{
    let mut i: usize = 0;
    while i < src.len()
        invariant
            0 <= i <= src@.len(),
            dst@ == old(dst)@ + src@.subrange(0, i as int),
        decreases src@.len() - i,
    {
        dst.push(src[i]);
        i = i + 1;
        proof {
            assert(src@.subrange(0, i as int) == src@.subrange(0, i - 1) + seq![src@[i - 1]]);
        }
    }
    proof {
        assert(src@.subrange(0, src@.len() as int) == src@);
    }
}

pub proof fn lemma_le_digits_len_bound(n: nat, k: nat)
    requires
        n < pow256(k),
    ensures
        le_digits(n).len() <= k,
    decreases n,
{
    if n > 0 {
        assert(k > 0) by {
            if k == 0 {
                assert(pow256(0) == 1);
            }
        }
        assert(n / 256 < pow256((k - 1) as nat)) by {
            assert(pow256(k) == 256 * pow256((k - 1) as nat));
        }
        lemma_le_digits_len_bound(n / 256, (k - 1) as nat);
    }
}

/// 256 to the power `k`.
pub open spec fn pow256(k: nat) -> nat
    decreases k,
{
    if k == 0 {
        1
    } else {
        256 * pow256((k - 1) as nat)
    }
}

/// The shortest little-endian encoding of `n`, as the arbitrary-precision
/// integer `n` gives it.
pub fn minimal_le_bytes(n: u64) -> (res: Vec<u8>)
    ensures
        res@ == minimal_le(n as nat),
{
    if n == 0 {
        let mut v: Vec<u8> = Vec::new();
        v.push(0u8);
        proof {
            assert(v@ == seq![0u8]);
        }
        return v;
    }
    let mut digits: Vec<u8> = Vec::new();
    let mut rest: u64 = n;
    while rest > 0
        invariant
            le_digits(n as nat) == digits@ + le_digits(rest as nat),
        decreases rest,
    {
        let d: u8 = (rest % 256) as u8;
        proof {
            assert(le_digits(rest as nat) == seq![d] + le_digits((rest / 256) as nat));
            assert(digits@.push(d) + le_digits((rest / 256) as nat)
                == digits@ + (seq![d] + le_digits((rest / 256) as nat)));
        }
        digits.push(d);
        rest = rest / 256;
    }
    proof {
        assert(le_digits(0) == Seq::<u8>::empty());
        assert(digits@ + Seq::<u8>::empty() == digits@);
    }
    digits
}


pub proof fn lemma_le_nat_le_digits(n: nat)
    ensures
        le_nat(le_digits(n)) == n,
    decreases n,
{
    if n > 0 {
        lemma_le_nat_le_digits(n / 256);
        let s = le_digits(n);
        assert(s.drop_first() =~= le_digits(n / 256));
    }
}

/// Reading back the shortest encoding of `n` gives `n`.
pub proof fn lemma_le_nat_minimal(n: nat)
    ensures
        le_nat(minimal_le(n)) == n,
{
    if n == 0 {
        assert(seq![0u8].drop_first() =~= Seq::<u8>::empty());
        assert(le_nat(Seq::<u8>::empty()) == 0);
        assert(le_nat(seq![0u8]) == 0);
    } else {
        lemma_le_nat_le_digits(n);
    }
}

/// Trailing zero bytes do not change the number.
pub proof fn lemma_le_nat_pad(s: Seq<u8>, width: nat)
    ensures
        le_nat(pad(s, width)) == le_nat(s),
    decreases s.len(),
{
    if s.len() < width {
        lemma_le_nat_zeros_suffix(s, (width - s.len()) as nat);
    }
}

pub proof fn lemma_le_nat_zeros(k: nat)
    ensures
        le_nat(Seq::new(k, |i: int| 0u8)) == 0,
    decreases k,
{
    if k > 0 {
        assert(Seq::new(k, |i: int| 0u8).drop_first() =~= Seq::new((k - 1) as nat, |i: int| 0u8));
        lemma_le_nat_zeros((k - 1) as nat);
    }
}

pub proof fn lemma_le_nat_zeros_suffix(s: Seq<u8>, k: nat)
    ensures
        le_nat(s + Seq::new(k, |i: int| 0u8)) == le_nat(s),
    decreases s.len(),
{
    if s.len() == 0 {
        assert(s + Seq::new(k, |i: int| 0u8) =~= Seq::new(k, |i: int| 0u8));
        lemma_le_nat_zeros(k);
    } else {
        assert((s + Seq::new(k, |i: int| 0u8)).drop_first() =~= s.drop_first() + Seq::new(
            k,
            |i: int| 0u8,
        ));
        lemma_le_nat_zeros_suffix(s.drop_first(), k);
    }
}

/// The shortest encodings of two different numbers differ.
pub proof fn lemma_minimal_le_injective(a: nat, b: nat)
    requires
        minimal_le(a) == minimal_le(b),
    ensures
        a == b,
{
    lemma_le_nat_minimal(a);
    lemma_le_nat_minimal(b);
}

/// Lexicographic order on byte strings, a proper prefix coming first.
pub open spec fn lex_lt(x: Seq<u8>, y: Seq<u8>) -> bool
    decreases x.len(),
{
    if x.len() == 0 {
        y.len() > 0
    } else if y.len() == 0 {
        false
    } else if x[0] < y[0] {
        true
    } else if x[0] > y[0] {
        false
    } else {
        lex_lt(x.drop_first(), y.drop_first())
    }
}

pub proof fn lemma_lex_irreflexive(x: Seq<u8>)
    ensures
        !lex_lt(x, x),
    decreases x.len(),
{
    if x.len() > 0 {
        lemma_lex_irreflexive(x.drop_first());
    }
}

pub proof fn lemma_lex_transitive(x: Seq<u8>, y: Seq<u8>, z: Seq<u8>)
    requires
        lex_lt(x, y),
        lex_lt(y, z),
    ensures
        lex_lt(x, z),
    decreases x.len(),
{
    if x.len() > 0 && y.len() > 0 && z.len() > 0 && x[0] == y[0] && y[0] == z[0] {
        lemma_lex_transitive(x.drop_first(), y.drop_first(), z.drop_first());
    }
}

pub proof fn lemma_lex_total(x: Seq<u8>, y: Seq<u8>)
    requires
        x != y,
    ensures
        lex_lt(x, y) || lex_lt(y, x),
    decreases x.len(),
{
    if x.len() == 0 {
        assert(y.len() > 0) by {
            if y.len() == 0 {
                assert(x =~= y);
            }
        }
    } else if y.len() == 0 {
    } else if x[0] == y[0] {
        if x.drop_first() == y.drop_first() {
            assert(x =~= seq![x[0]] + x.drop_first());
            assert(y =~= seq![y[0]] + y.drop_first());
        }
        lemma_lex_total(x.drop_first(), y.drop_first());
    }
}

pub proof fn lemma_lex_asymmetric(x: Seq<u8>, y: Seq<u8>)
    requires
        lex_lt(x, y),
    ensures
        !lex_lt(y, x),
{
    if lex_lt(y, x) {
        lemma_lex_transitive(x, y, x);
        lemma_lex_irreflexive(x);
    }
}

/// Compares two byte strings lexicographically.
pub fn lex_less(x: &[u8], y: &[u8]) -> (res: bool)
    ensures
        res == lex_lt(x@, y@),
{
    let mut i: usize = 0;
    proof {
        assert(x@.skip(0) =~= x@);
        assert(y@.skip(0) =~= y@);
    }
    while i < x.len() && i < y.len()
        invariant
            i <= x@.len(),
            i <= y@.len(),
            lex_lt(x@, y@) == lex_lt(x@.skip(i as int), y@.skip(i as int)),
        decreases x@.len() - i,
    {
        if x[i] < y[i] {
            return true;
        }
        if x[i] > y[i] {
            return false;
        }
        proof {
            assert(x@.skip(i as int).drop_first() =~= x@.skip(i + 1));
            assert(y@.skip(i as int).drop_first() =~= y@.skip(i + 1));
        }
        i = i + 1;
    }
    i == x.len() && i < y.len()
}

/// The number held by up to eight little-endian bytes is below 256 to the
/// power of their count.
pub proof fn lemma_le_nat_bound(s: Seq<u8>)
    ensures
        le_nat(s) < pow256(s.len()),
    decreases s.len(),
{
    if s.len() > 0 {
        lemma_le_nat_bound(s.drop_first());
        assert(pow256(s.len()) == 256 * pow256((s.len() - 1) as nat));
    }
}

/// The number that up to eight little-endian bytes stand for.
pub fn le_u64(bytes: &[u8]) -> (res: u64)
    requires
        bytes@.len() <= 8,
    ensures
        res == le_nat(bytes@),
{
    let n = bytes.len();
    let mut acc: u64 = 0;
    let mut i: usize = n;
    proof {
        assert(bytes@.skip(n as int) =~= Seq::<u8>::empty());
        reveal_with_fuel(pow256, 9);
    }
    while i > 0
        invariant
            i <= n,
            n == bytes@.len(),
            n <= 8,
            acc == le_nat(bytes@.skip(i as int)),
        decreases i,
    {
        let ghost rest = bytes@.skip(i as int);
        proof {
            lemma_le_nat_bound(rest);
            lemma_pow256_mono(rest.len(), 7);
            reveal_with_fuel(pow256, 9);
            assert(bytes@.skip(i - 1).drop_first() =~= rest);
        }
        i = i - 1;
        acc = (bytes[i] as u64) + 256 * acc;
    }
    proof {
        assert(bytes@.skip(0) =~= bytes@);
    }
    acc
}

pub proof fn lemma_pow256_mono(a: nat, b: nat)
    requires
        a <= b,
    ensures
        pow256(a) <= pow256(b),
    decreases b,
{
    if a < b {
        lemma_pow256_mono(a, (b - 1) as nat);
    }
}

/// A number below 256 to the power `width` takes exactly `width` bytes in
/// `le_field`, and reading them back gives the number.
pub proof fn lemma_le_field_fits(n: nat, width: nat)
    requires
        width >= 1,
        n < pow256(width),
    ensures
        le_field(n, width).len() == width,
        le_nat(le_field(n, width)) == n,
{
    if n > 0 {
        lemma_le_digits_len_bound(n, width);
    }
    lemma_le_nat_pad(minimal_le(n), width);
    lemma_le_nat_minimal(n);
}

} // verus!
