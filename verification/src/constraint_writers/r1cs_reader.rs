//! Reading circuits back from the binary R1CS format.
//!
//! The reader works on the bytes of a whole file. A position may lie past the
//! end of the bytes, as a seek in a file may; reading there fails.

use vstd::prelude::*;
use std::collections::HashMap;
use vstd::string::StringExecFns;
use vstd::utf8::{valid_utf8, decode_utf8};
use crate::encoding::{le_nat, le_u64, lemma_le_nat_bound, pow256, pad, le_field, lemma_le_field_fits};
use crate::constraint_writers::r1cs_writer::{
    is_lc_block, lc_block, lc_entries, lc_entry, is_write_order, lemma_write_order_len, is_constraint_bytes,
    header_bytes, signals_bytes, HeaderData as WrittenHeader, custom_gates_applied_entries,
    custom_gate_applied_bytes, custom_gates_applied_bytes, custom_gates_used_entries, custom_gate_used_bytes,
    custom_gates_used_bytes, parameters_bytes, section_type, file_start, R1CSWriterView, started, appended, ended, overwrite,
};
use vstd::utf8::encode_utf8;

verus! {

/// What is wrong with a file that is not in the R1CS format.
#[derive(Debug, PartialEq, Eq)]
pub enum R1CSParsingError {
    InvalidMagicNumber,
    InvalidVersion,
    InvalidSectionHeader,
    InvalidSectionType,
    SectionNotPresent(String),
}

/// The text of each error.
pub open spec fn parsing_error_text(e: R1CSParsingError) -> Seq<char> {
    match e {
        R1CSParsingError::InvalidMagicNumber => "Invalid magic number"@,
        R1CSParsingError::InvalidVersion => "Invalid version"@,
        R1CSParsingError::InvalidSectionHeader => "Invalid section header"@,
        R1CSParsingError::InvalidSectionType => "Invalid section type"@,
        R1CSParsingError::SectionNotPresent(s) => "Section \""@ + s@ + "\" not present"@,
    }
}

impl R1CSParsingError {
    pub fn to_string(&self) -> (res: String)
        ensures
            res@ == parsing_error_text(*self),
    {
        match self {
            R1CSParsingError::InvalidMagicNumber => String::from_str("Invalid magic number"),
            R1CSParsingError::InvalidVersion => String::from_str("Invalid version"),
            R1CSParsingError::InvalidSectionHeader => String::from_str("Invalid section header"),
            R1CSParsingError::InvalidSectionType => String::from_str("Invalid section type"),
            R1CSParsingError::SectionNotPresent(section) => {
                let mut s = String::from_str("Section \"");
                s.append(section.as_str());
                s.append("\" not present");
                s
            },
        }
    }
}

/// The sections that a reading looks for.
#[derive(Debug, Clone, Copy, PartialEq, Eq)]
pub enum Section {
    Header,
    Constraints,
    Signals,
    CustomGatesUsed,
    CustomGatesApplied,
}

/// The name of a section in the error that says it is missing.
pub open spec fn section_name(s: Section) -> Seq<char> {
    match s {
        Section::Header => "Header"@,
        Section::Constraints => "Constraints"@,
        Section::Signals => "Signals"@,
        Section::CustomGatesUsed => "Custom Gates Used"@,
        Section::CustomGatesApplied => "Custom Gates Applied"@,
    }
}

/// Why a reading stops.
#[derive(Debug, PartialEq, Eq)]
pub enum ReadError {
    /// The bytes end before what is to be read.
    UnexpectedEof,
    /// A section size moves the position before the start of the file, or
    /// beyond the largest position a file can have.
    InvalidSeek,
    /// A number does not fit in `usize` on this machine.
    TooLarge,
    /// The name of a custom template is not UTF-8.
    InvalidUtf8,
    /// The bytes break the format.
    Parsing(R1CSParsingError),
}

/// Why a reading stops, as the specification of the format says it.
pub enum Failure {
    Eof,
    Seek,
    TooLarge,
    Utf8,
    Magic,
    Version,
    SectionHeader,
    SectionType,
    Missing(Section),
}

/// The error `e` reports the failure `f`.
pub open spec fn reports(e: ReadError, f: Failure) -> bool {
    match f {
        Failure::Eof => e == ReadError::UnexpectedEof,
        Failure::Seek => e == ReadError::InvalidSeek,
        Failure::TooLarge => e == ReadError::TooLarge,
        Failure::Utf8 => e == ReadError::InvalidUtf8,
        Failure::Magic => e == ReadError::Parsing(R1CSParsingError::InvalidMagicNumber),
        Failure::Version => e == ReadError::Parsing(R1CSParsingError::InvalidVersion),
        Failure::SectionHeader => e == ReadError::Parsing(R1CSParsingError::InvalidSectionHeader),
        Failure::SectionType => e == ReadError::Parsing(R1CSParsingError::InvalidSectionType),
        Failure::Missing(s) => e matches ReadError::Parsing(R1CSParsingError::SectionNotPresent(name))
            && name@ == section_name(s),
    }
}

/// The `n` bytes at `pos`, and the position after them.
pub open spec fn spec_take(data: Seq<u8>, pos: nat, n: nat) -> Result<(Seq<u8>, nat), Failure> {
    if pos + n <= data.len() {
        Ok((data.subrange(pos as int, (pos + n) as int), pos + n))
    } else {
        Err(Failure::Eof)
    }
}

/// The number held by the `n` little-endian bytes at `pos`.
pub open spec fn spec_read_num(data: Seq<u8>, pos: nat, n: nat) -> Result<(nat, nat), Failure> {
    match spec_take(data, pos, n) {
        Ok((b, p)) => Ok((le_nat(b), p)),
        Err(f) => Err(f),
    }
}

/// The same number, when it fits in `usize`.
pub open spec fn spec_read_usize(data: Seq<u8>, pos: nat, n: nat) -> Result<(usize, nat), Failure> {
    match spec_read_num(data, pos, n) {
        Ok((v, p)) => if v <= usize::MAX {
            Ok((v as usize, p))
        } else {
            Err(Failure::TooLarge)
        },
        Err(f) => Err(f),
    }
}

/// Reads `n` bytes at `pos`.
pub fn take(data: &[u8], pos: u64, n: u64) -> (res: Result<(Vec<u8>, u64), ReadError>)
    ensures
        match spec_take(data@, pos as nat, n as nat) {
            Ok((b, p)) => res matches Ok((v, q)) && v@ == b && q == p,
            Err(f) => res matches Err(e) && reports(e, f),
        },
{
    let len = data.len() as u64;
    if pos > len || n > len - pos {
        return Err(ReadError::UnexpectedEof);
    }
    let start = pos as usize;
    let end = (pos + n) as usize;
    let mut out: Vec<u8> = Vec::new();
    let mut i = start;
    while i < end
        invariant
            start <= i <= end,
            end <= data@.len(),
            out@ == data@.subrange(start as int, i as int),
        decreases end - i,
    {
        out.push(data[i]);
        i = i + 1;
        proof {
            assert(out@ =~= data@.subrange(start as int, i as int));
        }
    }
    Ok((out, pos + n))
}

/// Reads a number of `n` bytes, at most eight.
pub fn read_num(data: &[u8], pos: u64, n: u64) -> (res: Result<(u64, u64), ReadError>)
    requires
        n <= 8,
    ensures
        match spec_read_num(data@, pos as nat, n as nat) {
            Ok((v, p)) => res matches Ok((w, q)) && w == v && q == p,
            Err(f) => res matches Err(e) && reports(e, f),
        },
{
    match take(data, pos, n) {
        Ok((bytes, p)) => {
            let v = le_u64(bytes.as_slice());
            Ok((v, p))
        },
        Err(e) => Err(e),
    }
}

/// Reads a number of `n` bytes, at most eight, that must fit in `usize`.
pub fn read_usize(data: &[u8], pos: u64, n: u64) -> (res: Result<(usize, u64), ReadError>)
    requires
        n <= 8,
    ensures
        match spec_read_usize(data@, pos as nat, n as nat) {
            Ok((v, p)) => res matches Ok((w, q)) && w == v && q == p,
            Err(f) => res matches Err(e) && reports(e, f),
        },
{
    match read_num(data, pos, n) {
        Ok((v, p)) => {
            if v <= usize::MAX as u64 {
                Ok((v as usize, p))
            } else {
                Err(ReadError::TooLarge)
            }
        },
        Err(e) => Err(e),
    }
}

/// A number read from four bytes always fits in `usize`.
pub proof fn lemma_four_bytes_fit(data: Seq<u8>, pos: nat)
    ensures
        spec_read_num(data, pos, 4) matches Ok((v, p)) ==> v < 0x1_0000_0000 && v <= usize::MAX,
{
    if let Ok((b, p)) = spec_take(data, pos, 4) {
        lemma_le_nat_bound(b);
        reveal_with_fuel(pow256, 5);
    }
}

/// The entries of a linear combination: `count` times a signal over four
/// bytes followed by its factor over `field_size` bytes.
pub open spec fn spec_lc_entries(data: Seq<u8>, pos: nat, count: nat, field_size: nat) -> Result<
    (Seq<(usize, Seq<u8>)>, nat),
    Failure,
>
    decreases count,
{
    if count == 0 {
        Ok((Seq::empty(), pos))
    } else {
        match spec_lc_entries(data, pos, (count - 1) as nat, field_size) {
            Ok((entries, p)) => match spec_read_num(data, p, 4) {
                Ok((id, q)) => match spec_take(data, q, field_size) {
                    Ok((factor, r)) => Ok((entries.push((id as usize, factor)), r)),
                    Err(f) => Err(f),
                },
                Err(f) => Err(f),
            },
            Err(f) => Err(f),
        }
    }
}

/// The linear combination of a list of entries; of two entries of one
/// signal, the later one stands.
pub open spec fn entries_map(entries: Seq<(usize, Seq<u8>)>) -> Map<usize, Seq<u8>>
    decreases entries.len(),
{
    if entries.len() == 0 {
        Map::empty()
    } else {
        entries_map(entries.drop_last()).insert(entries.last().0, entries.last().1)
    }
}

/// A linear combination block: the number of entries over four bytes, then
/// the entries.
pub open spec fn spec_lc_block(data: Seq<u8>, pos: nat, field_size: nat) -> Result<
    (Map<usize, Seq<u8>>, nat),
    Failure,
> {
    match spec_read_num(data, pos, 4) {
        Ok((count, p)) => match spec_lc_entries(data, p, count, field_size) {
            Ok((entries, q)) => Ok((entries_map(entries), q)),
            Err(f) => Err(f),
        },
        Err(f) => Err(f),
    }
}

/// A linear combination with its factors taken by their bytes.
pub open spec fn lc_view(lc: Map<usize, Vec<u8>>) -> Map<usize, Seq<u8>> {
    lc.map_values(|v: Vec<u8>| v@)
}

proof fn lemma_lc_entries_stuck(data: Seq<u8>, pos: nat, k: nat, count: nat, field_size: nat)
    requires
        k <= count,
        spec_lc_entries(data, pos, k, field_size) is Err,
    ensures
        spec_lc_entries(data, pos, count, field_size) == spec_lc_entries(data, pos, k, field_size),
    decreases count - k,
{
    if k < count {
        lemma_lc_entries_stuck(data, pos, k, (count - 1) as nat, field_size);
    }
}

/// Reads a linear combination block at `pos`.
pub fn read_linear_combination_block(data: &[u8], pos: u64, field_size: usize) -> (res: Result<
    (HashMap<usize, Vec<u8>>, u64),
    ReadError,
>)
    ensures
        match spec_lc_block(data@, pos as nat, field_size as nat) {
            Ok((lc, p)) => res matches Ok((m, q)) && lc_view(m@) == lc && q == p,
            Err(f) => res matches Err(e) && reports(e, f),
        },
{
    let (count, start) = match read_num(data, pos, 4) {
        Ok(r) => r,
        Err(e) => return Err(e),
    };
    proof {
        lemma_four_bytes_fit(data@, pos as nat);
    }
    let mut linear_combination: HashMap<usize, Vec<u8>> = HashMap::new();
    let ghost mut entries: Seq<(usize, Seq<u8>)> = Seq::empty();
    let mut p = start;
    let mut i: u64 = 0;
    proof {
        assert(lc_view(linear_combination@) =~= Map::<usize, Seq<u8>>::empty());
    }
    while i < count
        invariant
            i <= count,
            count < 0x1_0000_0000,
            spec_read_num(data@, pos as nat, 4) == Ok::<(nat, nat), Failure>((count as nat, start as nat)),
            spec_lc_entries(data@, start as nat, i as nat, field_size as nat) == Ok::<
                (Seq<(usize, Seq<u8>)>, nat),
                Failure,
            >((entries, p as nat)),
            lc_view(linear_combination@) == entries_map(entries),
        decreases count - i,
    {
        let (id, q) = match read_num(data, p, 4) {
            Ok(r) => r,
            Err(e) => {
                proof {
                    lemma_lc_entries_stuck(data@, start as nat, (i + 1) as nat, count as nat, field_size as nat);
                }
                return Err(e);
            },
        };
        proof {
            lemma_four_bytes_fit(data@, p as nat);
        }
        let (factor, r) = match take(data, q, field_size as u64) {
            Ok(x) => x,
            Err(e) => {
                proof {
                    lemma_lc_entries_stuck(data@, start as nat, (i + 1) as nat, count as nat, field_size as nat);
                }
                return Err(e);
            },
        };
        let ghost fv = factor@;
        let ghost old_entries = entries;
        let ghost old_view = lc_view(linear_combination@);
        linear_combination.insert(id as usize, factor);
        proof {
            entries = old_entries.push((id as usize, fv));
            assert(entries.drop_last() =~= old_entries);
            assert(lc_view(linear_combination@) =~= old_view.insert(id as usize, fv));
        }
        p = r;
        i = i + 1;
    }
    Ok((linear_combination, p))
}

/// A constraint: the blocks of A, B and C in turn.
pub open spec fn spec_constraint(data: Seq<u8>, pos: nat, field_size: nat) -> Result<
    (Map<usize, Seq<u8>>, Map<usize, Seq<u8>>, Map<usize, Seq<u8>>, nat),
    Failure,
> {
    match spec_lc_block(data, pos, field_size) {
        Ok((a, p)) => match spec_lc_block(data, p, field_size) {
            Ok((b, q)) => match spec_lc_block(data, q, field_size) {
                Ok((c, r)) => Ok((a, b, c, r)),
                Err(f) => Err(f),
            },
            Err(f) => Err(f),
        },
        Err(f) => Err(f),
    }
}

/// The linear combinations A, B and C of a constraint A * B = C.
pub type Constraint = HashMap<usize, Vec<u8>>;

/// Reads a constraint at `pos`.
pub fn read_constraint(data: &[u8], pos: u64, field_size: usize) -> (res: Result<
    ((Constraint, Constraint, Constraint), u64),
    ReadError,
>)
    ensures
        match spec_constraint(data@, pos as nat, field_size as nat) {
            Ok((a, b, c, p)) => res matches Ok((k, q)) && lc_view(k.0@) == a && lc_view(k.1@) == b
                && lc_view(k.2@) == c && q == p,
            Err(f) => res matches Err(e) && reports(e, f),
        },
{
    let (a, p) = match read_linear_combination_block(data, pos, field_size) {
        Ok(r) => r,
        Err(e) => return Err(e),
    };
    let (b, q) = match read_linear_combination_block(data, p, field_size) {
        Ok(r) => r,
        Err(e) => return Err(e),
    };
    let (c, r) = match read_linear_combination_block(data, q, field_size) {
        Ok(x) => x,
        Err(e) => return Err(e),
    };
    Ok(((a, b, c), r))
}

/// Each signal of `lc` fits in four bytes and each factor in `field_size`
/// bytes.
pub open spec fn lc_fits(lc: Map<usize, Vec<u8>>, field_size: nat) -> bool {
    forall|k: usize| lc.dom().contains(k) ==> k < 0x1_0000_0000 && lc[k]@.len() <= field_size
}

/// What a reading gives of the entries `keys` of `lc`: each signal with its
/// factor over `field_size` bytes.
pub open spec fn padded_entries(keys: Seq<usize>, lc: Map<usize, Vec<u8>>, field_size: nat) -> Seq<
    (usize, Seq<u8>),
> {
    keys.map_values(|k: usize| (k, pad(lc[k]@, field_size)))
}

/// `lc` with each factor over `field_size` bytes.
pub open spec fn padded_lc(lc: Map<usize, Vec<u8>>, field_size: nat) -> Map<usize, Seq<u8>> {
    lc.map_values(|v: Vec<u8>| pad(v@, field_size))
}

proof fn lemma_lc_entry_len(k: usize, factor: Seq<u8>, field_size: nat)
    requires
        k < 0x1_0000_0000,
        factor.len() <= field_size,
    ensures
        lc_entry(k, factor, field_size).len() == 4 + field_size,
        le_field(k as nat, 4).len() == 4,
        le_nat(le_field(k as nat, 4)) == k,
        pad(factor, field_size).len() == field_size,
{
    reveal_with_fuel(pow256, 5);
    lemma_le_field_fits(k as nat, 4);
}

proof fn lemma_read_entries(
    data: Seq<u8>,
    start: nat,
    keys: Seq<usize>,
    lc: Map<usize, Vec<u8>>,
    field_size: nat,
)
    requires
        forall|i: int| 0 <= i < keys.len() ==> lc.dom().contains(#[trigger] keys[i]),
        lc_fits(lc, field_size),
        start + lc_entries(keys, lc, field_size).len() <= data.len(),
        data.subrange(start as int, (start + lc_entries(keys, lc, field_size).len()) as int)
            == lc_entries(keys, lc, field_size),
    ensures
        spec_lc_entries(data, start, keys.len(), field_size) == Ok::<(Seq<(usize, Seq<u8>)>, nat), Failure>(
            (padded_entries(keys, lc, field_size), start + lc_entries(keys, lc, field_size).len()),
        ),
    decreases keys.len(),
{
    if keys.len() > 0 {
        let prev = keys.drop_last();
        let last = keys.last();
        let before = lc_entries(prev, lc, field_size);
        let entry = lc_entry(last, lc[last]@, field_size);
        assert(lc.dom().contains(keys[keys.len() - 1]));
        lemma_lc_entry_len(last, lc[last]@, field_size);
        let all = lc_entries(keys, lc, field_size);
        assert(all == before + entry);
        assert forall|i: int| 0 <= i < prev.len() implies lc.dom().contains(#[trigger] prev[i]) by {
            assert(prev[i] == keys[i]);
        }
        assert(entry.len() == 4 + field_size);
        assert(all.len() == before.len() + 4 + field_size);
        assert(all.subrange(0, before.len() as int) =~= before);
        assert(data.subrange(start as int, (start + before.len()) as int) =~= all.subrange(0, before.len() as int));
        lemma_read_entries(data, start, prev, lc, field_size);
        let p = start + before.len();
        assert(data.subrange(p as int, (p + 4) as int) =~= le_field(last as nat, 4)) by {
            assert(data.subrange(p as int, (p + 4) as int) =~= all.subrange(before.len() as int, (before.len() + 4) as int));
        }
        assert(data.subrange((p + 4) as int, (p + 4 + field_size) as int) =~= pad(lc[last]@, field_size)) by {
            assert(data.subrange((p + 4) as int, (p + 4 + field_size) as int) =~= all.subrange(
                (before.len() + 4) as int,
                (before.len() + 4 + field_size) as int,
            ));
        }
        assert(padded_entries(keys, lc, field_size) =~= padded_entries(prev, lc, field_size).push(
            (last, pad(lc[last]@, field_size)),
        ));
        assert(prev.len() == (keys.len() - 1) as nat);
        assert(spec_read_num(data, p, 4) == Ok::<(nat, nat), Failure>((last as nat, p + 4)));
        assert(spec_take(data, p + 4, field_size) == Ok::<(Seq<u8>, nat), Failure>(
            (pad(lc[last]@, field_size), p + 4 + field_size),
        ));
    } else {
        assert(padded_entries(keys, lc, field_size) =~= Seq::<(usize, Seq<u8>)>::empty());
    }
}

proof fn lemma_entries_map_padded(keys: Seq<usize>, lc: Map<usize, Vec<u8>>, field_size: nat)
    ensures
        entries_map(padded_entries(keys, lc, field_size)) == Map::new(
            |k: usize| keys.contains(k),
            |k: usize| pad(lc[k]@, field_size),
        ),
    decreases keys.len(),
{
    let es = padded_entries(keys, lc, field_size);
    if keys.len() == 0 {
        assert(entries_map(es) =~= Map::new(|k: usize| keys.contains(k), |k: usize| pad(lc[k]@, field_size)));
    } else {
        let prev = keys.drop_last();
        assert(es.drop_last() =~= padded_entries(prev, lc, field_size));
        lemma_entries_map_padded(prev, lc, field_size);
        assert forall|k: usize| keys.contains(k) <==> (prev.contains(k) || k == keys.last()) by {
            if keys.contains(k) {
                let i = choose|i: int| 0 <= i < keys.len() && keys[i] == k;
                if i < keys.len() - 1 {
                    assert(prev[i] == k);
                }
            }
            if prev.contains(k) {
                let i = choose|i: int| 0 <= i < prev.len() && prev[i] == k;
                assert(keys[i] == k);
            }
            assert(keys[keys.len() - 1] == keys.last());
        }
        assert(entries_map(es) =~= Map::new(|k: usize| keys.contains(k), |k: usize| pad(lc[k]@, field_size)));
    }
}

/// Reading a linear combination block that the writer wrote gives back the
/// linear combination, each factor over `field_size` bytes (and so the same
/// number), and ends where the block ends.
pub proof fn lemma_read_written_lc_block(
    data: Seq<u8>,
    pos: nat,
    block: Seq<u8>,
    lc: Map<usize, Vec<u8>>,
    field_size: nat,
)
    requires
        is_lc_block(block, lc, field_size),
        lc.dom().finite(),
        lc.dom().len() < 0x1_0000_0000,
        lc_fits(lc, field_size),
        pos + block.len() <= data.len(),
        data.subrange(pos as int, (pos + block.len()) as int) == block,
    ensures
        spec_lc_block(data, pos, field_size) == Ok::<(Map<usize, Seq<u8>>, nat), Failure>(
            (padded_lc(lc, field_size), pos + block.len()),
        ),
{
    let keys = choose|keys: Seq<usize>| is_write_order(lc.dom(), keys) && block == lc_block(keys, lc, field_size);
    lemma_write_order_len(lc.dom(), keys);
    reveal_with_fuel(pow256, 5);
    lemma_le_field_fits(keys.len() as nat, 4);
    let entries = lc_entries(keys, lc, field_size);
    assert(block == le_field(keys.len() as nat, 4) + entries);
    assert(data.subrange(pos as int, (pos + 4) as int) =~= block.subrange(0, 4));
    assert(block.subrange(0, 4) =~= le_field(keys.len() as nat, 4));
    assert forall|i: int| 0 <= i < keys.len() implies lc.dom().contains(#[trigger] keys[i]) by {
        assert(keys.contains(keys[i]));
    }
    assert(block.subrange(4, block.len() as int) =~= entries);
    assert(data.subrange((pos + 4) as int, (pos + 4 + entries.len()) as int) =~= block.subrange(4, block.len() as int));
    lemma_read_entries(data, pos + 4, keys, lc, field_size);
    lemma_entries_map_padded(keys, lc, field_size);
    assert(Map::new(|k: usize| keys.contains(k), |k: usize| pad(lc[k]@, field_size)) =~= padded_lc(lc, field_size));
}

/// The header of a circuit as read back: the prime of the field as its
/// `field_size` little-endian bytes, and the counts.
pub struct HeaderData {
    pub field: Vec<u8>,
    pub field_size: usize,
    pub total_wires: usize,
    pub public_outputs: usize,
    pub public_inputs: usize,
    pub private_inputs: usize,
    pub number_of_labels: usize,
    pub number_of_constraints: usize,
}

pub struct HeaderView {
    pub field: Seq<u8>,
    pub field_size: usize,
    pub total_wires: usize,
    pub public_outputs: usize,
    pub public_inputs: usize,
    pub private_inputs: usize,
    pub number_of_labels: usize,
    pub number_of_constraints: usize,
}

impl View for HeaderData {
    type V = HeaderView;

    open spec fn view(&self) -> HeaderView {
        HeaderView {
            field: self.field@,
            field_size: self.field_size,
            total_wires: self.total_wires,
            public_outputs: self.public_outputs,
            public_inputs: self.public_inputs,
            private_inputs: self.private_inputs,
            number_of_labels: self.number_of_labels,
            number_of_constraints: self.number_of_constraints,
        }
    }
}

/// The content of the header section: the field size over four bytes, the
/// prime over that many bytes, four counts over four bytes, the number of
/// labels over eight bytes and the number of constraints over four.
pub open spec fn spec_header(data: Seq<u8>, pos: nat) -> Result<(HeaderView, nat), Failure> {
    match spec_read_usize(data, pos, 4) {
        Err(f) => Err(f),
        Ok((field_size, p1)) => match spec_take(data, p1, field_size as nat) {
            Err(f) => Err(f),
            Ok((field, p2)) => match spec_read_usize(data, p2, 4) {
                Err(f) => Err(f),
                Ok((total_wires, p3)) => match spec_read_usize(data, p3, 4) {
                    Err(f) => Err(f),
                    Ok((public_outputs, p4)) => match spec_read_usize(data, p4, 4) {
                        Err(f) => Err(f),
                        Ok((public_inputs, p5)) => match spec_read_usize(data, p5, 4) {
                            Err(f) => Err(f),
                            Ok((private_inputs, p6)) => match spec_read_usize(data, p6, 8) {
                                Err(f) => Err(f),
                                Ok((number_of_labels, p7)) => match spec_read_usize(data, p7, 4) {
                                    Err(f) => Err(f),
                                    Ok((number_of_constraints, p8)) => Ok(
                                        (
                                            HeaderView {
                                                field,
                                                field_size,
                                                total_wires,
                                                public_outputs,
                                                public_inputs,
                                                private_inputs,
                                                number_of_labels,
                                                number_of_constraints,
                                            },
                                            p8,
                                        ),
                                    ),
                                },
                            },
                        },
                    },
                },
            },
        },
    }
}

/// Reads the content of the header section at `pos`.
pub fn read_header(data: &[u8], pos: u64) -> (res: Result<(HeaderData, u64), ReadError>)
    ensures
        match spec_header(data@, pos as nat) {
            Ok((h, p)) => res matches Ok((d, q)) && d@ == h && q == p,
            Err(f) => res matches Err(e) && reports(e, f),
        },
{
    let (field_size, p1) = match read_usize(data, pos, 4) {
        Ok(r) => r,
        Err(e) => return Err(e),
    };
    let (field, p2) = match take(data, p1, field_size as u64) {
        Ok(r) => r,
        Err(e) => return Err(e),
    };
    let (total_wires, p3) = match read_usize(data, p2, 4) {
        Ok(r) => r,
        Err(e) => return Err(e),
    };
    let (public_outputs, p4) = match read_usize(data, p3, 4) {
        Ok(r) => r,
        Err(e) => return Err(e),
    };
    let (public_inputs, p5) = match read_usize(data, p4, 4) {
        Ok(r) => r,
        Err(e) => return Err(e),
    };
    let (private_inputs, p6) = match read_usize(data, p5, 4) {
        Ok(r) => r,
        Err(e) => return Err(e),
    };
    let (number_of_labels, p7) = match read_usize(data, p6, 8) {
        Ok(r) => r,
        Err(e) => return Err(e),
    };
    let (number_of_constraints, p8) = match read_usize(data, p7, 4) {
        Ok(r) => r,
        Err(e) => return Err(e),
    };
    let header = HeaderData {
        field,
        field_size,
        total_wires,
        public_outputs,
        public_inputs,
        private_inputs,
        number_of_labels,
        number_of_constraints,
    };
    Ok((header, p8))
}

/// The type of a section over four bytes, checked against `t`; the content
/// starts after the eight bytes of the size.
pub open spec fn spec_open_section(data: Seq<u8>, pos: nat, t: u8) -> Result<nat, Failure> {
    match spec_take(data, pos, 4) {
        Err(f) => Err(f),
        Ok((bytes, p)) => if bytes == seq![t, 0u8, 0u8, 0u8] {
            Ok(p + 8)
        } else {
            Err(Failure::SectionHeader)
        },
    }
}

/// Checks the type of the section at `pos`; returns where its content starts.
pub fn open_section(data: &[u8], pos: u64, t: u8) -> (res: Result<u64, ReadError>)
    requires
        data@.len() <= i64::MAX,
    ensures
        match spec_open_section(data@, pos as nat, t) {
            Ok(p) => res == Ok::<u64, ReadError>(p as u64) && p == pos + 12,
            Err(f) => res matches Err(e) && reports(e, f),
        },
{
    let (bytes, p) = match take(data, pos, 4) {
        Ok(r) => r,
        Err(e) => return Err(e),
    };
    if bytes[0] == t && bytes[1] == 0 && bytes[2] == 0 && bytes[3] == 0 {
        proof {
            assert(bytes@ =~= seq![t, 0u8, 0u8, 0u8]);
        }
        Ok(p + 8)
    } else {
        proof {
            if bytes@ == seq![t, 0u8, 0u8, 0u8] {
                assert(bytes@[0] == t);
            }
        }
        Err(ReadError::Parsing(R1CSParsingError::InvalidSectionHeader))
    }
}

/// Closing a section reads its size back from where it was written.
pub open spec fn spec_close_section(data: Seq<u8>, go_back: nat) -> Result<usize, Failure> {
    match spec_read_usize(data, go_back, 8) {
        Ok((size, p)) => Ok(size),
        Err(f) => Err(f),
    }
}

/// Reads the size of the section whose size field is at `go_back`.
pub fn close_section(data: &[u8], go_back: u64) -> (res: Result<usize, ReadError>)
    ensures
        match spec_close_section(data@, go_back as nat) {
            Ok(size) => res == Ok::<usize, ReadError>(size),
            Err(f) => res matches Err(e) && reports(e, f),
        },
{
    match read_usize(data, go_back, 8) {
        Ok((size, _)) => Ok(size),
        Err(e) => Err(e),
    }
}

/// A constraint with its linear combinations taken by value.
pub open spec fn constraint_view(c: (Constraint, Constraint, Constraint)) -> (
    Map<usize, Seq<u8>>,
    Map<usize, Seq<u8>>,
    Map<usize, Seq<u8>>,
) {
    (lc_view(c.0@), lc_view(c.1@), lc_view(c.2@))
}

/// `count` constraints, one after the other.
pub open spec fn spec_constraints(data: Seq<u8>, pos: nat, count: nat, field_size: nat) -> Result<
    (Seq<(Map<usize, Seq<u8>>, Map<usize, Seq<u8>>, Map<usize, Seq<u8>>)>, nat),
    Failure,
>
    decreases count,
{
    if count == 0 {
        Ok((Seq::empty(), pos))
    } else {
        match spec_constraints(data, pos, (count - 1) as nat, field_size) {
            Err(f) => Err(f),
            Ok((cs, p)) => match spec_constraint(data, p, field_size) {
                Err(f) => Err(f),
                Ok((a, b, c, q)) => Ok((cs.push((a, b, c)), q)),
            },
        }
    }
}

proof fn lemma_constraints_stuck(data: Seq<u8>, pos: nat, k: nat, count: nat, field_size: nat)
    requires
        k <= count,
        spec_constraints(data, pos, k, field_size) is Err,
    ensures
        spec_constraints(data, pos, count, field_size) == spec_constraints(data, pos, k, field_size),
    decreases count - k,
{
    if k < count {
        lemma_constraints_stuck(data, pos, k, (count - 1) as nat, field_size);
    }
}

/// Reads `count` constraints at `pos`.
pub fn read_constraints(data: &[u8], pos: u64, count: usize, field_size: usize) -> (res: Result<
    (Vec<(Constraint, Constraint, Constraint)>, u64),
    ReadError,
>)
    ensures
        match spec_constraints(data@, pos as nat, count as nat, field_size as nat) {
            Ok((cs, p)) => res matches Ok((v, q)) && v@.map_values(|c| constraint_view(c)) == cs && q == p,
            Err(f) => res matches Err(e) && reports(e, f),
        },
{
    let mut constraints: Vec<(Constraint, Constraint, Constraint)> = Vec::new();
    let mut p = pos;
    let mut i: usize = 0;
    proof {
        assert(constraints@.map_values(|c| constraint_view(c)) =~= Seq::empty());
    }
    while i < count
        invariant
            i <= count,
            spec_constraints(data@, pos as nat, i as nat, field_size as nat) matches Ok((cs, q))
                && constraints@.map_values(|c| constraint_view(c)) == cs && q == p,
        decreases count - i,
    {
        let ghost before = constraints@;
        let (c, q) = match read_constraint(data, p, field_size) {
            Ok(r) => r,
            Err(e) => {
                proof {
                    lemma_constraints_stuck(data@, pos as nat, (i + 1) as nat, count as nat, field_size as nat);
                }
                return Err(e);
            },
        };
        constraints.push(c);
        proof {
            assert(constraints@.map_values(|c| constraint_view(c)) =~= before.map_values(
                |c| constraint_view(c),
            ).push(constraint_view(constraints@.last())));
        }
        p = q;
        i = i + 1;
    }
    Ok((constraints, p))
}

/// `count` signals, each over eight bytes.
pub open spec fn spec_signals(data: Seq<u8>, pos: nat, count: nat) -> Result<(Seq<usize>, nat), Failure>
    decreases count,
{
    if count == 0 {
        Ok((Seq::empty(), pos))
    } else {
        match spec_signals(data, pos, (count - 1) as nat) {
            Err(f) => Err(f),
            Ok((ss, p)) => match spec_read_usize(data, p, 8) {
                Err(f) => Err(f),
                Ok((s, q)) => Ok((ss.push(s), q)),
            },
        }
    }
}

proof fn lemma_signals_stuck(data: Seq<u8>, pos: nat, k: nat, count: nat)
    requires
        k <= count,
        spec_signals(data, pos, k) is Err,
    ensures
        spec_signals(data, pos, count) == spec_signals(data, pos, k),
    decreases count - k,
{
    if k < count {
        lemma_signals_stuck(data, pos, k, (count - 1) as nat);
    }
}

/// Reads `count` signals at `pos`.
pub fn read_signals(data: &[u8], pos: u64, count: usize) -> (res: Result<(Vec<usize>, u64), ReadError>)
    ensures
        match spec_signals(data@, pos as nat, count as nat) {
            Ok((ss, p)) => res matches Ok((v, q)) && v@ == ss && q == p,
            Err(f) => res matches Err(e) && reports(e, f),
        },
{
    let mut signals: Vec<usize> = Vec::new();
    let mut p = pos;
    let mut i: usize = 0;
    while i < count
        invariant
            i <= count,
            spec_signals(data@, pos as nat, i as nat) matches Ok((ss, q)) && signals@ == ss && q == p,
        decreases count - i,
    {
        let (signal, q) = match read_usize(data, p, 8) {
            Ok(r) => r,
            Err(e) => {
                proof {
                    lemma_signals_stuck(data@, pos as nat, (i + 1) as nat, count as nat);
                }
                return Err(e);
            },
        };
        signals.push(signal);
        p = q;
        i = i + 1;
    }
    Ok((signals, p))
}

/// The first position at or after `pos` that holds a zero byte.
pub open spec fn zero_from(data: Seq<u8>, pos: nat) -> Option<nat>
    decreases data.len() - pos,
{
    if pos >= data.len() {
        None
    } else if data[pos as int] == 0 {
        Some(pos)
    } else {
        zero_from(data, pos + 1)
    }
}

/// A name: UTF-8 bytes ended by a zero byte.
pub open spec fn spec_name(data: Seq<u8>, pos: nat) -> Result<(Seq<char>, nat), Failure> {
    match zero_from(data, pos) {
        None => Err(Failure::Eof),
        Some(z) => {
            let bytes = data.subrange(pos as int, z as int);
            if valid_utf8(bytes) {
                Ok((decode_utf8(bytes), z + 1))
            } else {
                Err(Failure::Utf8)
            }
        },
    }
}

proof fn lemma_zero_from(data: Seq<u8>, pos: nat)
    ensures
        zero_from(data, pos) matches Some(z) ==> pos <= z < data.len() && data[z as int] == 0
            && forall|i: int| pos <= i < z ==> data[i] != 0,
        zero_from(data, pos) is None ==> forall|i: int| pos <= i < data.len() ==> data[i] != 0,
    decreases data.len() - pos,
{
    if pos < data.len() && data[pos as int] != 0 {
        lemma_zero_from(data, pos + 1);
    }
}

/// `String::from_utf8`: the bytes as a string when they are valid UTF-8, and
/// nothing when they are not.
#[verifier::external_body]
fn string_from_utf8(bytes: Vec<u8>) -> (res: Option<String>)
    ensures
        match res {
            Some(s) => valid_utf8(bytes@) && s@ == decode_utf8(bytes@),
            None => !valid_utf8(bytes@),
        },
{
    String::from_utf8(bytes).ok()
}

/// Reads a name ended by a zero byte at `pos`.
pub fn read_name(data: &[u8], pos: u64) -> (res: Result<(String, u64), ReadError>)
    ensures
        match spec_name(data@, pos as nat) {
            Ok((name, p)) => res matches Ok((n, q)) && n@ == name && q == p,
            Err(f) => res matches Err(e) && reports(e, f),
        },
{
    proof {
        lemma_zero_from(data@, pos as nat);
    }
    let len = data.len() as u64;
    if pos >= len {
        return Err(ReadError::UnexpectedEof);
    }
    let start = pos as usize;
    let mut i = start;
    let mut bytes: Vec<u8> = Vec::new();
    while i < data.len() && data[i] != 0
        invariant
            start <= i <= data@.len(),
            forall|j: int| start <= j < i ==> data@[j] != 0,
            bytes@ == data@.subrange(start as int, i as int),
        decreases data@.len() - i,
    {
        bytes.push(data[i]);
        i = i + 1;
        proof {
            assert(bytes@ =~= data@.subrange(start as int, i as int));
        }
    }
    if i == data.len() {
        return Err(ReadError::UnexpectedEof);
    }
    let end = i as u64;
    match string_from_utf8(bytes) {
        Some(name) => Ok((name, end + 1)),
        None => Err(ReadError::InvalidUtf8),
    }
}

/// `count` parameters, each over `field_size` bytes.
pub open spec fn spec_parameters(data: Seq<u8>, pos: nat, count: nat, field_size: nat) -> Result<
    (Seq<Seq<u8>>, nat),
    Failure,
>
    decreases count,
{
    if count == 0 {
        Ok((Seq::empty(), pos))
    } else {
        match spec_parameters(data, pos, (count - 1) as nat, field_size) {
            Err(f) => Err(f),
            Ok((ps, p)) => match spec_take(data, p, field_size) {
                Err(f) => Err(f),
                Ok((v, q)) => Ok((ps.push(v), q)),
            },
        }
    }
}

proof fn lemma_parameters_stuck(data: Seq<u8>, pos: nat, k: nat, count: nat, field_size: nat)
    requires
        k <= count,
        spec_parameters(data, pos, k, field_size) is Err,
    ensures
        spec_parameters(data, pos, count, field_size) == spec_parameters(data, pos, k, field_size),
    decreases count - k,
{
    if k < count {
        lemma_parameters_stuck(data, pos, k, (count - 1) as nat, field_size);
    }
}

/// The custom templates used, each taken by value.
pub open spec fn gates_used_view(gates: Seq<(String, Vec<Vec<u8>>)>) -> Seq<(Seq<char>, Seq<Seq<u8>>)> {
    gates.map_values(|g: (String, Vec<Vec<u8>>)| (g.0@, g.1@.map_values(|v: Vec<u8>| v@)))
}

/// One custom template used: its name, its number of parameters over four
/// bytes and its parameters.
pub open spec fn spec_gate_used(data: Seq<u8>, pos: nat, field_size: nat) -> Result<
    ((Seq<char>, Seq<Seq<u8>>), nat),
    Failure,
> {
    match spec_name(data, pos) {
        Err(f) => Err(f),
        Ok((name, p)) => match spec_read_num(data, p, 4) {
            Err(f) => Err(f),
            Ok((count, q)) => match spec_parameters(data, q, count, field_size) {
                Err(f) => Err(f),
                Ok((ps, r)) => Ok(((name, ps), r)),
            },
        },
    }
}

/// `count` custom templates used.
pub open spec fn spec_gates_used_list(data: Seq<u8>, pos: nat, count: nat, field_size: nat) -> Result<
    (Seq<(Seq<char>, Seq<Seq<u8>>)>, nat),
    Failure,
>
    decreases count,
{
    if count == 0 {
        Ok((Seq::empty(), pos))
    } else {
        match spec_gates_used_list(data, pos, (count - 1) as nat, field_size) {
            Err(f) => Err(f),
            Ok((gs, p)) => match spec_gate_used(data, p, field_size) {
                Err(f) => Err(f),
                Ok((g, q)) => Ok((gs.push(g), q)),
            },
        }
    }
}

proof fn lemma_gates_used_stuck(data: Seq<u8>, pos: nat, k: nat, count: nat, field_size: nat)
    requires
        k <= count,
        spec_gates_used_list(data, pos, k, field_size) is Err,
    ensures
        spec_gates_used_list(data, pos, count, field_size) == spec_gates_used_list(data, pos, k, field_size),
    decreases count - k,
{
    if k < count {
        lemma_gates_used_stuck(data, pos, k, (count - 1) as nat, field_size);
    }
}

/// The content of the section of custom templates used.
pub open spec fn spec_custom_gates_used(data: Seq<u8>, pos: nat, field_size: nat) -> Result<
    (Seq<(Seq<char>, Seq<Seq<u8>>)>, nat),
    Failure,
> {
    match spec_read_num(data, pos, 4) {
        Err(f) => Err(f),
        Ok((count, p)) => spec_gates_used_list(data, p, count, field_size),
    }
}

/// The custom templates used: name and parameters (little-endian bytes).
pub type CustomGatesUsedData = Vec<(String, Vec<Vec<u8>>)>;

/// Reads the content of the section of custom templates used at `pos`.
pub fn read_custom_gates_usages(data: &[u8], pos: u64, field_size: usize) -> (res: Result<
    (CustomGatesUsedData, u64),
    ReadError,
>)
    ensures
        match spec_custom_gates_used(data@, pos as nat, field_size as nat) {
            Ok((gs, p)) => res matches Ok((v, q)) && gates_used_view(v@) == gs && q == p,
            Err(f) => res matches Err(e) && reports(e, f),
        },
{
    let (count, start) = match read_num(data, pos, 4) {
        Ok(r) => r,
        Err(e) => return Err(e),
    };
    let mut gates: CustomGatesUsedData = Vec::new();
    let mut p = start;
    let mut i: u64 = 0;
    proof {
        assert(gates_used_view(gates@) =~= Seq::empty());
    }
    while i < count
        invariant
            i <= count,
            spec_read_num(data@, pos as nat, 4) == Ok::<(nat, nat), Failure>((count as nat, start as nat)),
            spec_gates_used_list(data@, start as nat, i as nat, field_size as nat) matches Ok((gs, q))
                && gates_used_view(gates@) == gs && q == p,
            p <= data@.len(),
        decreases count - i,
    {
        let ghost before = gates@;
        let (name, q) = match read_name(data, p) {
            Ok(r) => r,
            Err(e) => {
                proof {
                    lemma_gates_used_stuck(data@, start as nat, (i + 1) as nat, count as nat, field_size as nat);
                }
                return Err(e);
            },
        };
        proof {
            lemma_zero_from(data@, p as nat);
        }
        let (no_parameters, r) = match read_num(data, q, 4) {
            Ok(x) => x,
            Err(e) => {
                proof {
                    lemma_gates_used_stuck(data@, start as nat, (i + 1) as nat, count as nat, field_size as nat);
                }
                return Err(e);
            },
        };
        let mut parameters: Vec<Vec<u8>> = Vec::new();
        let mut t = r;
        let mut j: u64 = 0;
        proof {
            assert(parameters@.map_values(|v: Vec<u8>| v@) =~= Seq::empty());
        }
        while j < no_parameters
            invariant
                j <= no_parameters,
                i < count,
                p <= data@.len(),
                spec_read_num(data@, pos as nat, 4) == Ok::<(nat, nat), Failure>((count as nat, start as nat)),
                spec_gates_used_list(data@, start as nat, i as nat, field_size as nat) matches Ok((gs, pp))
                    && gates_used_view(gates@) == gs && pp == p,
                spec_name(data@, p as nat) == Ok::<(Seq<char>, nat), Failure>((name@, q as nat)),
                spec_read_num(data@, q as nat, 4) == Ok::<(nat, nat), Failure>((no_parameters as nat, r as nat)),
                spec_parameters(data@, r as nat, j as nat, field_size as nat) matches Ok((ps, u))
                    && parameters@.map_values(|v: Vec<u8>| v@) == ps && u == t,
            decreases no_parameters - j,
        {
            let ghost pbefore = parameters@;
            let (parameter, u) = match take(data, t, field_size as u64) {
                Ok(x) => x,
                Err(e) => {
                    proof {
                        lemma_parameters_stuck(
                            data@,
                            r as nat,
                            (j + 1) as nat,
                            no_parameters as nat,
                            field_size as nat,
                        );
                        lemma_gates_used_stuck(
                            data@,
                            start as nat,
                            (i + 1) as nat,
                            count as nat,
                            field_size as nat,
                        );
                    }
                    return Err(e);
                },
            };
            parameters.push(parameter);
            proof {
                assert(parameters@.map_values(|v: Vec<u8>| v@) =~= pbefore.map_values(|v: Vec<u8>| v@).push(
                    parameters@.last()@,
                ));
            }
            t = u;
            j = j + 1;
        }
        let ghost gate_view = (name@, parameters@.map_values(|v: Vec<u8>| v@));
        gates.push((name, parameters));
        proof {
            assert(gates_used_view(gates@) =~= gates_used_view(before).push(gate_view));
        }
        p = t;
        i = i + 1;
    }
    Ok((gates, p))
}

/// One application of a custom template: its index over four bytes, its
/// number of signals over four bytes and each signal over eight bytes.
pub open spec fn spec_gate_applied(data: Seq<u8>, pos: nat) -> Result<((usize, Seq<usize>), nat), Failure> {
    match spec_read_usize(data, pos, 4) {
        Err(f) => Err(f),
        Ok((index, p)) => match spec_read_num(data, p, 4) {
            Err(f) => Err(f),
            Ok((count, q)) => match spec_signals(data, q, count) {
                Err(f) => Err(f),
                Ok((ss, r)) => Ok(((index, ss), r)),
            },
        },
    }
}

/// `count` applications of custom templates.
pub open spec fn spec_gates_applied_list(data: Seq<u8>, pos: nat, count: nat) -> Result<
    (Seq<(usize, Seq<usize>)>, nat),
    Failure,
>
    decreases count,
{
    if count == 0 {
        Ok((Seq::empty(), pos))
    } else {
        match spec_gates_applied_list(data, pos, (count - 1) as nat) {
            Err(f) => Err(f),
            Ok((gs, p)) => match spec_gate_applied(data, p) {
                Err(f) => Err(f),
                Ok((g, q)) => Ok((gs.push(g), q)),
            },
        }
    }
}

proof fn lemma_gates_applied_stuck(data: Seq<u8>, pos: nat, k: nat, count: nat)
    requires
        k <= count,
        spec_gates_applied_list(data, pos, k) is Err,
    ensures
        spec_gates_applied_list(data, pos, count) == spec_gates_applied_list(data, pos, k),
    decreases count - k,
{
    if k < count {
        lemma_gates_applied_stuck(data, pos, k, (count - 1) as nat);
    }
}

/// The content of the section of custom template applications.
pub open spec fn spec_custom_gates_applied(data: Seq<u8>, pos: nat) -> Result<
    (Seq<(usize, Seq<usize>)>, nat),
    Failure,
> {
    match spec_read_num(data, pos, 4) {
        Err(f) => Err(f),
        Ok((count, p)) => spec_gates_applied_list(data, p, count),
    }
}

/// The applications of custom templates, taken by value.
pub open spec fn gates_applied_view(gates: Seq<(usize, Vec<usize>)>) -> Seq<(usize, Seq<usize>)> {
    gates.map_values(|g: (usize, Vec<usize>)| (g.0, g.1@))
}

/// Where custom templates are applied: the index of the template and the
/// signals it is applied to.
pub type CustomGatesAppliedData = Vec<(usize, Vec<usize>)>;

/// Reads the content of the section of custom template applications at `pos`.
pub fn read_custom_gates_applications(data: &[u8], pos: u64) -> (res: Result<
    (CustomGatesAppliedData, u64),
    ReadError,
>)
    ensures
        match spec_custom_gates_applied(data@, pos as nat) {
            Ok((gs, p)) => res matches Ok((v, q)) && gates_applied_view(v@) == gs && q == p,
            Err(f) => res matches Err(e) && reports(e, f),
        },
{
    let (count, start) = match read_num(data, pos, 4) {
        Ok(r) => r,
        Err(e) => return Err(e),
    };
    let mut gates: CustomGatesAppliedData = Vec::new();
    let mut p = start;
    let mut i: u64 = 0;
    proof {
        assert(gates_applied_view(gates@) =~= Seq::empty());
    }
    while i < count
        invariant
            i <= count,
            spec_read_num(data@, pos as nat, 4) == Ok::<(nat, nat), Failure>((count as nat, start as nat)),
            spec_gates_applied_list(data@, start as nat, i as nat) matches Ok((gs, q))
                && gates_applied_view(gates@) == gs && q == p,
        decreases count - i,
    {
        let ghost before = gates@;
        let (index, q) = match read_usize(data, p, 4) {
            Ok(r) => r,
            Err(e) => {
                proof {
                    lemma_gates_applied_stuck(data@, start as nat, (i + 1) as nat, count as nat);
                }
                return Err(e);
            },
        };
        let (no_signals, r) = match read_num(data, q, 4) {
            Ok(x) => x,
            Err(e) => {
                proof {
                    lemma_gates_applied_stuck(data@, start as nat, (i + 1) as nat, count as nat);
                }
                return Err(e);
            },
        };
        proof {
            lemma_four_bytes_fit(data@, q as nat);
        }
        let (signals, t) = match read_signals(data, r, no_signals as usize) {
            Ok(x) => x,
            Err(e) => {
                proof {
                    lemma_gates_applied_stuck(data@, start as nat, (i + 1) as nat, count as nat);
                }
                return Err(e);
            },
        };
        let ghost gate_view = (index, signals@);
        gates.push((index, signals));
        proof {
            assert(gates_applied_view(gates@) =~= gates_applied_view(before).push(gate_view));
        }
        p = t;
        i = i + 1;
    }
    Ok((gates, p))
}

/// The header section at `start`: its type, its content, and its size read
/// back when it is closed.
pub open spec fn spec_header_section(data: Seq<u8>, start: nat) -> Result<HeaderView, Failure> {
    match spec_open_section(data, start, 1) {
        Err(f) => Err(f),
        Ok(c) => match spec_header(data, c) {
            Err(f) => Err(f),
            Ok((h, p)) => match spec_close_section(data, start + 4) {
                Err(f) => Err(f),
                Ok(size) => Ok(h),
            },
        },
    }
}

/// The constraint section at `start`, with `count` constraints.
pub open spec fn spec_constraint_section(data: Seq<u8>, start: nat, count: nat, field_size: nat) -> Result<
    Seq<(Map<usize, Seq<u8>>, Map<usize, Seq<u8>>, Map<usize, Seq<u8>>)>,
    Failure,
> {
    match spec_open_section(data, start, 2) {
        Err(f) => Err(f),
        Ok(c) => match spec_constraints(data, c, count, field_size) {
            Err(f) => Err(f),
            Ok((cs, p)) => match spec_close_section(data, start + 4) {
                Err(f) => Err(f),
                Ok(size) => Ok(cs),
            },
        },
    }
}

/// The signal section at `start`, with `count` signals.
pub open spec fn spec_signal_section(data: Seq<u8>, start: nat, count: nat) -> Result<Seq<usize>, Failure> {
    match spec_open_section(data, start, 3) {
        Err(f) => Err(f),
        Ok(c) => match spec_signals(data, c, count) {
            Err(f) => Err(f),
            Ok((ss, p)) => match spec_close_section(data, start + 4) {
                Err(f) => Err(f),
                Ok(size) => Ok(ss),
            },
        },
    }
}

/// The section of custom templates used at `start`.
pub open spec fn spec_used_section(data: Seq<u8>, start: nat, field_size: nat) -> Result<
    Seq<(Seq<char>, Seq<Seq<u8>>)>,
    Failure,
> {
    match spec_open_section(data, start, 4) {
        Err(f) => Err(f),
        Ok(c) => match spec_custom_gates_used(data, c, field_size) {
            Err(f) => Err(f),
            Ok((gs, p)) => match spec_close_section(data, start + 4) {
                Err(f) => Err(f),
                Ok(size) => Ok(gs),
            },
        },
    }
}

/// The section of custom template applications at `start`.
pub open spec fn spec_applied_section(data: Seq<u8>, start: nat) -> Result<Seq<(usize, Seq<usize>)>, Failure> {
    match spec_open_section(data, start, 5) {
        Err(f) => Err(f),
        Ok(c) => match spec_custom_gates_applied(data, c) {
            Err(f) => Err(f),
            Ok((gs, p)) => match spec_close_section(data, start + 4) {
                Err(f) => Err(f),
                Ok(size) => Ok(gs),
            },
        },
    }
}

pub fn read_header_section(data: &[u8], start: u64) -> (res: Result<HeaderData, ReadError>)
    requires
        data@.len() <= i64::MAX,
    ensures
        match spec_header_section(data@, start as nat) {
            Ok(h) => res matches Ok(d) && d@ == h,
            Err(f) => res matches Err(e) && reports(e, f),
        },
{
    let c = match open_section(data, start, 1) {
        Ok(c) => c,
        Err(e) => return Err(e),
    };
    let (header, _) = match read_header(data, c) {
        Ok(r) => r,
        Err(e) => return Err(e),
    };
    match close_section(data, start + 4) {
        Ok(_) => Ok(header),
        Err(e) => Err(e),
    }
}

pub fn read_constraint_section(data: &[u8], start: u64, count: usize, field_size: usize) -> (res: Result<
    Vec<(Constraint, Constraint, Constraint)>,
    ReadError,
>)
    requires
        data@.len() <= i64::MAX,
    ensures
        match spec_constraint_section(data@, start as nat, count as nat, field_size as nat) {
            Ok(cs) => res matches Ok(v) && v@.map_values(|c| constraint_view(c)) == cs,
            Err(f) => res matches Err(e) && reports(e, f),
        },
{
    let c = match open_section(data, start, 2) {
        Ok(c) => c,
        Err(e) => return Err(e),
    };
    let (constraints, _) = match read_constraints(data, c, count, field_size) {
        Ok(r) => r,
        Err(e) => return Err(e),
    };
    match close_section(data, start + 4) {
        Ok(_) => Ok(constraints),
        Err(e) => Err(e),
    }
}

pub fn read_signal_section(data: &[u8], start: u64, count: usize) -> (res: Result<Vec<usize>, ReadError>)
    requires
        data@.len() <= i64::MAX,
    ensures
        match spec_signal_section(data@, start as nat, count as nat) {
            Ok(ss) => res matches Ok(v) && v@ == ss,
            Err(f) => res matches Err(e) && reports(e, f),
        },
{
    let c = match open_section(data, start, 3) {
        Ok(c) => c,
        Err(e) => return Err(e),
    };
    let (signals, _) = match read_signals(data, c, count) {
        Ok(r) => r,
        Err(e) => return Err(e),
    };
    match close_section(data, start + 4) {
        Ok(_) => Ok(signals),
        Err(e) => Err(e),
    }
}

pub fn read_used_section(data: &[u8], start: u64, field_size: usize) -> (res: Result<
    CustomGatesUsedData,
    ReadError,
>)
    requires
        data@.len() <= i64::MAX,
    ensures
        match spec_used_section(data@, start as nat, field_size as nat) {
            Ok(gs) => res matches Ok(v) && gates_used_view(v@) == gs,
            Err(f) => res matches Err(e) && reports(e, f),
        },
{
    let c = match open_section(data, start, 4) {
        Ok(c) => c,
        Err(e) => return Err(e),
    };
    let (gates, _) = match read_custom_gates_usages(data, c, field_size) {
        Ok(r) => r,
        Err(e) => return Err(e),
    };
    match close_section(data, start + 4) {
        Ok(_) => Ok(gates),
        Err(e) => Err(e),
    }
}

pub fn read_applied_section(data: &[u8], start: u64) -> (res: Result<CustomGatesAppliedData, ReadError>)
    requires
        data@.len() <= i64::MAX,
    ensures
        match spec_applied_section(data@, start as nat) {
            Ok(gs) => res matches Ok(v) && gates_applied_view(v@) == gs,
            Err(f) => res matches Err(e) && reports(e, f),
        },
{
    let c = match open_section(data, start, 5) {
        Ok(c) => c,
        Err(e) => return Err(e),
    };
    let (gates, _) = match read_custom_gates_applications(data, c) {
        Ok(r) => r,
        Err(e) => return Err(e),
    };
    match close_section(data, start + 4) {
        Ok(_) => Ok(gates),
        Err(e) => Err(e),
    }
}

/// A move of `size` bytes forward from `pos`, the size taken as a signed
/// 64-bit offset: a size of 2^63 or more moves backwards. The position must
/// stay between 0 and 2^63 - 1.
pub open spec fn spec_seek(pos: nat, size: nat) -> Result<nat, Failure> {
    if size <= i64::MAX {
        if pos + size <= i64::MAX {
            Ok(pos + size)
        } else {
            Err(Failure::Seek)
        }
    } else if 0x1_0000_0000_0000_0000 - size <= pos {
        Ok((pos - (0x1_0000_0000_0000_0000 - size)) as nat)
    } else {
        Err(Failure::Seek)
    }
}

/// Moves `size` bytes forward from `pos`; see `spec_seek`.
pub fn seek(pos: u64, size: u64) -> (res: Result<u64, ReadError>)
    requires
        pos <= i64::MAX,
    ensures
        match spec_seek(pos as nat, size as nat) {
            Ok(p) => res == Ok::<u64, ReadError>(p as u64) && p <= i64::MAX,
            Err(f) => res matches Err(e) && reports(e, f),
        },
{
    if size <= i64::MAX as u64 {
        if pos <= i64::MAX as u64 - size {
            Ok(pos + size)
        } else {
            Err(ReadError::InvalidSeek)
        }
    } else {
        let back = (u64::MAX - size) + 1;
        if back <= pos {
            Ok(pos - back)
        } else {
            Err(ReadError::InvalidSeek)
        }
    }
}

/// No section found yet, for each of the types 0 to 5.
pub open spec fn no_starts() -> Seq<Option<nat>> {
    seq![None, None, None, None, None, None]
}

/// The first `k` steps of the walk over the `n` sections from `pos`: each
/// step moves over the previous section, reads the type (its first byte
/// counts) and the size of the next, and notes where it starts. A type must
/// lie between 1 and `n`; of two sections of one type, the later stands.
/// Gives the starts of the sections of types 1 to 5, the position after the
/// last size read, and that size.
pub open spec fn spec_scan(data: Seq<u8>, pos: nat, n: u8, k: nat) -> Result<
    (Seq<Option<nat>>, nat, nat),
    Failure,
>
    decreases k,
{
    if k == 0 {
        Ok((no_starts(), pos, 0))
    } else {
        match spec_scan(data, pos, n, (k - 1) as nat) {
            Err(f) => Err(f),
            Ok((starts, p, size)) => match spec_seek(p, size) {
                Err(f) => Err(f),
                Ok(start) => match spec_take(data, start, 4) {
                    Err(f) => Err(f),
                    Ok((t, p1)) => match spec_read_usize(data, p1, 8) {
                        Err(f) => Err(f),
                        Ok((next_size, p2)) => if 1 <= t[0] && t[0] <= n {
                            Ok(
                                (
                                    if t[0] <= 5 {
                                        starts.update(t[0] as int, Some(start))
                                    } else {
                                        starts
                                    },
                                    p2,
                                    next_size as nat,
                                ),
                            )
                        } else {
                            Err(Failure::SectionType)
                        },
                    },
                },
            },
        }
    }
}

proof fn lemma_scan_stuck(data: Seq<u8>, pos: nat, n: u8, k: nat, count: nat)
    requires
        k <= count,
        spec_scan(data, pos, n, k) is Err,
    ensures
        spec_scan(data, pos, n, count) == spec_scan(data, pos, n, k),
    decreases count - k,
{
    if k < count {
        lemma_scan_stuck(data, pos, n, k, (count - 1) as nat);
    }
}

/// The starts of the sections of the file, as `Option<u64>` for the types 0
/// to 5.
fn scan_sections(data: &[u8], pos: u64, n: u8) -> (res: Result<Vec<Option<u64>>, ReadError>)
    requires
        pos <= i64::MAX,
        data@.len() <= i64::MAX,
    ensures
        match spec_scan(data@, pos as nat, n, n as nat) {
            Ok((starts, p, size)) => res matches Ok(v) && v@.len() == 6 && starts.len() == 6 && forall|i: int|
                0 <= i < 6 ==> (#[trigger] v@[i] matches Some(x) ==> starts[i] == Some(x as nat)) && (
                v@[i] is None ==> starts[i] is None),
            Err(f) => res matches Err(e) && reports(e, f),
        },
{
    let mut starts: Vec<Option<u64>> = vec![None, None, None, None, None, None];
    let mut p: u64 = pos;
    let mut size: u64 = 0;
    let mut k: u8 = 0;
    while k < n
        invariant
            k <= n,
            pos <= i64::MAX,
            data@.len() <= i64::MAX,
            p <= i64::MAX,
            spec_scan(data@, pos as nat, n, k as nat) matches Ok((ss, q, z)) && q == p && z == size
                && starts@.len() == 6 && ss.len() == 6 && forall|i: int|
                0 <= i < 6 ==> (#[trigger] starts@[i] matches Some(x) ==> ss[i] == Some(x as nat)) && (
                starts@[i] is None ==> ss[i] is None),
        decreases n - k,
    {
        let ghost prev = spec_scan(data@, pos as nat, n, k as nat);
        let start = match seek(p, size) {
            Ok(x) => x,
            Err(e) => {
                proof {
                    lemma_scan_stuck(data@, pos as nat, n, (k + 1) as nat, n as nat);
                }
                return Err(e);
            },
        };
        let (t, p1) = match take(data, start, 4) {
            Ok(x) => x,
            Err(e) => {
                proof {
                    lemma_scan_stuck(data@, pos as nat, n, (k + 1) as nat, n as nat);
                }
                return Err(e);
            },
        };
        let (next_size, p2) = match read_usize(data, p1, 8) {
            Ok(x) => x,
            Err(e) => {
                proof {
                    lemma_scan_stuck(data@, pos as nat, n, (k + 1) as nat, n as nat);
                }
                return Err(e);
            },
        };
        let section_type = t[0];
        if !(1 <= section_type && section_type <= n) {
            proof {
                lemma_scan_stuck(data@, pos as nat, n, (k + 1) as nat, n as nat);
            }
            return Err(ReadError::Parsing(R1CSParsingError::InvalidSectionType));
        }
        let ghost before = starts@;
        if section_type <= 5 {
            starts.set(section_type as usize, Some(start));
        }
        proof {
            if let Ok((ss, q, z)) = prev {
                let ss2 = if section_type <= 5 { ss.update(section_type as int, Some(start as nat)) } else { ss };
                assert(spec_scan(data@, pos as nat, n, (k + 1) as nat) == Ok::<(Seq<Option<nat>>, nat, nat), Failure>(
                    (ss2, p2 as nat, next_size as nat),
                ));
                assert forall|i: int| 0 <= i < 6 implies (#[trigger] starts@[i] matches Some(x) ==> ss2[i] == Some(x as nat)) && (
                    starts@[i] is None ==> ss2[i] is None) by {
                    if section_type <= 5 && i == section_type as int {
                    } else {
                        assert(starts@[i] == before[i]);
                    }
                }
            }
        }
        p = p2;
        size = next_size as u64;
        k = k + 1;
    }
    Ok(starts)
}

/// "r1cs", version 1 and the number of sections (its first byte counts);
/// gives that number and the position after it.
pub open spec fn spec_initialization(data: Seq<u8>) -> Result<(u8, nat), Failure> {
    match spec_take(data, 0, 4) {
        Err(f) => Err(f),
        Ok((magic, p1)) => if magic != seq![114u8, 49u8, 99u8, 115u8] {
            Err(Failure::Magic)
        } else {
            match spec_take(data, p1, 4) {
                Err(f) => Err(f),
                Ok((version, p2)) => if version != seq![1u8, 0u8, 0u8, 0u8] {
                    Err(Failure::Version)
                } else {
                    match spec_take(data, p2, 4) {
                        Err(f) => Err(f),
                        Ok((count, p3)) => Ok((count[0], p3)),
                    }
                },
            }
        },
    }
}

/// Reads the start of the file; returns the number of sections and the
/// position after it.
pub fn read_initialization(data: &[u8]) -> (res: Result<(u8, u64), ReadError>)
    ensures
        match spec_initialization(data@) {
            Ok((n, p)) => res == Ok::<(u8, u64), ReadError>((n, p as u64)),
            Err(f) => res matches Err(e) && reports(e, f),
        },
{
    let (magic, p1) = match take(data, 0, 4) {
        Ok(r) => r,
        Err(e) => return Err(e),
    };
    let is_magic = magic[0] == 114 && magic[1] == 49 && magic[2] == 99 && magic[3] == 115;
    proof {
        if is_magic {
            assert(magic@ =~= seq![114u8, 49u8, 99u8, 115u8]);
        } else if magic@ == seq![114u8, 49u8, 99u8, 115u8] {
            assert(magic@[0] == 114u8);
        }
    }
    if !is_magic {
        return Err(ReadError::Parsing(R1CSParsingError::InvalidMagicNumber));
    }
    let (version, p2) = match take(data, p1, 4) {
        Ok(r) => r,
        Err(e) => return Err(e),
    };
    let is_version = version[0] == 1 && version[1] == 0 && version[2] == 0 && version[3] == 0;
    proof {
        if is_version {
            assert(version@ =~= seq![1u8, 0u8, 0u8, 0u8]);
        } else if version@ == seq![1u8, 0u8, 0u8, 0u8] {
            assert(version@[0] == 1u8);
        }
    }
    if !is_version {
        return Err(ReadError::Parsing(R1CSParsingError::InvalidVersion));
    }
    let (count, p3) = match take(data, p2, 4) {
        Ok(r) => r,
        Err(e) => return Err(e),
    };
    Ok((count[0], p3))
}

/// Everything a file holds, taken by value.
pub struct R1CSDataView {
    pub header: HeaderView,
    pub constraints: Seq<(Map<usize, Seq<u8>>, Map<usize, Seq<u8>>, Map<usize, Seq<u8>>)>,
    pub signals: Seq<usize>,
    pub custom_gates: bool,
    pub custom_gates_used: Option<Seq<(Seq<char>, Seq<Seq<u8>>)>>,
    pub custom_gates_applied: Option<Seq<(usize, Seq<usize>)>>,
}

/// Everything a file holds: the header, the constraints, the signal of each
/// wire and, in a file of five sections, the custom templates used and
/// where they are applied.
pub struct R1CSData {
    pub header_data: HeaderData,
    pub constraints: Vec<(Constraint, Constraint, Constraint)>,
    pub signals: Vec<usize>,
    pub custom_gates: bool,
    pub custom_gates_used_data: Option<CustomGatesUsedData>,
    pub custom_gates_applied_data: Option<CustomGatesAppliedData>,
}

impl View for R1CSData {
    type V = R1CSDataView;

    open spec fn view(&self) -> R1CSDataView {
        R1CSDataView {
            header: self.header_data@,
            constraints: self.constraints@.map_values(|c| constraint_view(c)),
            signals: self.signals@,
            custom_gates: self.custom_gates,
            custom_gates_used: match self.custom_gates_used_data {
                Some(v) => Some(gates_used_view(v@)),
                None => None,
            },
            custom_gates_applied: match self.custom_gates_applied_data {
                Some(v) => Some(gates_applied_view(v@)),
                None => None,
            },
        }
    }
}

impl R1CSData {
    /// Nothing read yet: a zero header and no constraint, signal or custom
    /// template.
    pub fn new() -> (res: Self)
        ensures
            res@.header == (HeaderView {
                field: Seq::empty(),
                field_size: 0,
                total_wires: 0,
                public_outputs: 0,
                public_inputs: 0,
                private_inputs: 0,
                number_of_labels: 0,
                number_of_constraints: 0,
            }),
            res@.constraints.len() == 0,
            res@.signals.len() == 0,
            !res@.custom_gates,
            res@.custom_gates_used is None,
            res@.custom_gates_applied is None,
    {
        R1CSData {
            header_data: HeaderData {
                field: Vec::new(),
                field_size: 0,
                total_wires: 0,
                public_outputs: 0,
                public_inputs: 0,
                private_inputs: 0,
                number_of_labels: 0,
                number_of_constraints: 0,
            },
            constraints: Vec::new(),
            signals: Vec::new(),
            custom_gates: false,
            custom_gates_used_data: None,
            custom_gates_applied_data: None,
        }
    }
}

/// The sections read in turn from the starts a walk found: header,
/// constraints and signals, then, with custom templates, the two sections
/// about them. A missing section stops the reading.
pub open spec fn spec_read_sections(data: Seq<u8>, starts: Seq<Option<nat>>, custom_gates: bool) -> Result<
    R1CSDataView,
    Failure,
> {
    match starts[1] {
        None => Err(Failure::Missing(Section::Header)),
        Some(s1) => match spec_header_section(data, s1) {
            Err(f) => Err(f),
            Ok(h) => match starts[2] {
                None => Err(Failure::Missing(Section::Constraints)),
                Some(s2) => match spec_constraint_section(
                    data,
                    s2,
                    h.number_of_constraints as nat,
                    h.field_size as nat,
                ) {
                    Err(f) => Err(f),
                    Ok(cs) => match starts[3] {
                        None => Err(Failure::Missing(Section::Signals)),
                        Some(s3) => match spec_signal_section(data, s3, h.total_wires as nat) {
                            Err(f) => Err(f),
                            Ok(ss) => if !custom_gates {
                                Ok(
                                    R1CSDataView {
                                        header: h,
                                        constraints: cs,
                                        signals: ss,
                                        custom_gates,
                                        custom_gates_used: None,
                                        custom_gates_applied: None,
                                    },
                                )
                            } else {
                                match starts[4] {
                                    None => Err(Failure::Missing(Section::CustomGatesUsed)),
                                    Some(s4) => match spec_used_section(data, s4, h.field_size as nat) {
                                        Err(f) => Err(f),
                                        Ok(us) => match starts[5] {
                                            None => Err(Failure::Missing(Section::CustomGatesApplied)),
                                            Some(s5) => match spec_applied_section(data, s5) {
                                                Err(f) => Err(f),
                                                Ok(aps) => Ok(
                                                    R1CSDataView {
                                                        header: h,
                                                        constraints: cs,
                                                        signals: ss,
                                                        custom_gates,
                                                        custom_gates_used: Some(us),
                                                        custom_gates_applied: Some(aps),
                                                    },
                                                ),
                                            },
                                        },
                                    },
                                }
                            },
                        },
                    },
                },
            },
        },
    }
}

/// A whole file: its start, the walk over its sections, then the sections.
/// A file of five sections has custom templates.
pub open spec fn spec_read_r1cs(data: Seq<u8>) -> Result<R1CSDataView, Failure> {
    match spec_initialization(data) {
        Err(f) => Err(f),
        Ok((n, p)) => match spec_scan(data, p, n, n as nat) {
            Err(f) => Err(f),
            Ok((starts, q, size)) => spec_read_sections(data, starts, n == 5),
        },
    }
}

fn missing(section: Section) -> (res: ReadError)
    ensures
        reports(res, Failure::Missing(section)),
{
    let name = match section {
        Section::Header => String::from_str("Header"),
        Section::Constraints => String::from_str("Constraints"),
        Section::Signals => String::from_str("Signals"),
        Section::CustomGatesUsed => String::from_str("Custom Gates Used"),
        Section::CustomGatesApplied => String::from_str("Custom Gates Applied"),
    };
    ReadError::Parsing(R1CSParsingError::SectionNotPresent(name))
}

/// Reads the sections whose starts a walk found.
pub fn read_sections(data: &[u8], starts: &Vec<Option<u64>>, custom_gates: bool) -> (res: Result<
    R1CSData,
    ReadError,
>)
    requires
        data@.len() <= i64::MAX,
        starts@.len() == 6,
    ensures
        match spec_read_sections(
            data@,
            starts@.map_values(|o: Option<u64>| match o {
                Some(x) => Some(x as nat),
                None => None,
            }),
            custom_gates,
        ) {
            Ok(v) => res matches Ok(d) && d@ == v,
            Err(f) => res matches Err(e) && reports(e, f),
        },
{
    let ghost ss = starts@.map_values(|o: Option<u64>| match o {
        Some(x) => Some(x as nat),
        None => None,
    });
    let header_data = match starts[1] {
        None => return Err(missing(Section::Header)),
        Some(s1) => match read_header_section(data, s1) {
            Ok(h) => h,
            Err(e) => return Err(e),
        },
    };
    let constraints = match starts[2] {
        None => return Err(missing(Section::Constraints)),
        Some(s2) => match read_constraint_section(
            data,
            s2,
            header_data.number_of_constraints,
            header_data.field_size,
        ) {
            Ok(cs) => cs,
            Err(e) => return Err(e),
        },
    };
    let signals = match starts[3] {
        None => return Err(missing(Section::Signals)),
        Some(s3) => match read_signal_section(data, s3, header_data.total_wires) {
            Ok(ss) => ss,
            Err(e) => return Err(e),
        },
    };
    if !custom_gates {
        return Ok(
            R1CSData {
                header_data,
                constraints,
                signals,
                custom_gates,
                custom_gates_used_data: None,
                custom_gates_applied_data: None,
            },
        );
    }
    let used = match starts[4] {
        None => return Err(missing(Section::CustomGatesUsed)),
        Some(s4) => match read_used_section(data, s4, header_data.field_size) {
            Ok(us) => us,
            Err(e) => return Err(e),
        },
    };
    let applied = match starts[5] {
        None => return Err(missing(Section::CustomGatesApplied)),
        Some(s5) => match read_applied_section(data, s5) {
            Ok(aps) => aps,
            Err(e) => return Err(e),
        },
    };
    Ok(
        R1CSData {
            header_data,
            constraints,
            signals,
            custom_gates,
            custom_gates_used_data: Some(used),
            custom_gates_applied_data: Some(applied),
        },
    )
}

/// Reads a whole file.
pub fn read_r1cs(data: &[u8]) -> (res: Result<R1CSData, ReadError>)
    requires
        data@.len() <= i64::MAX,
    ensures
        match spec_read_r1cs(data@) {
            Ok(v) => res matches Ok(d) && d@ == v,
            Err(f) => res matches Err(e) && reports(e, f),
        },
{
    let (n_sections, p) = match read_initialization(data) {
        Ok(r) => r,
        Err(e) => return Err(e),
    };
    let starts = match scan_sections(data, p, n_sections) {
        Ok(s) => s,
        Err(e) => return Err(e),
    };
    proof {
        if let Ok((ss, q, size)) = spec_scan(data@, p as nat, n_sections, n_sections as nat) {
            assert(starts@.map_values(|o: Option<u64>| match o {
                Some(x) => Some(x as nat),
                None => None,
            }) =~= ss);
        }
    }
    read_sections(data, &starts, n_sections == 5)
}

/// `bytes` stand at `pos` in `data`.
pub open spec fn holds_at(data: Seq<u8>, pos: nat, bytes: Seq<u8>) -> bool {
    pos + bytes.len() <= data.len() && data.subrange(pos as int, (pos + bytes.len()) as int) == bytes
}

proof fn lemma_holds_split(data: Seq<u8>, pos: nat, a: Seq<u8>, b: Seq<u8>)
    requires
        holds_at(data, pos, a + b),
    ensures
        holds_at(data, pos, a),
        holds_at(data, pos + a.len(), b),
{
    let whole = data.subrange(pos as int, (pos + a.len() + b.len()) as int);
    assert(whole == a + b);
    assert(data.subrange(pos as int, (pos + a.len()) as int) =~= whole.subrange(0, a.len() as int));
    assert(whole.subrange(0, a.len() as int) =~= a);
    assert(data.subrange((pos + a.len()) as int, (pos + a.len() + b.len()) as int) =~= whole.subrange(
        a.len() as int,
        (a.len() + b.len()) as int,
    ));
    assert(whole.subrange(a.len() as int, (a.len() + b.len()) as int) =~= b);
}

proof fn lemma_read_field(data: Seq<u8>, pos: nat, n: nat, width: nat)
    requires
        width >= 1,
        n < pow256(width),
        holds_at(data, pos, le_field(n, width)),
    ensures
        le_field(n, width).len() == width,
        spec_read_num(data, pos, width) == Ok::<(nat, nat), Failure>((n, pos + width)),
{
    lemma_le_field_fits(n, width);
}

proof fn lemma_pow256_values()
    ensures
        pow256(4) == 0x1_0000_0000,
        pow256(8) == 0x1_0000_0000_0000_0000,
{
    reveal_with_fuel(pow256, 9);
}

/// Reading a constraint that the writer wrote gives back its three linear
/// combinations, each factor over `field_size` bytes.
pub proof fn lemma_read_written_constraint(
    data: Seq<u8>,
    pos: nat,
    bytes: Seq<u8>,
    a: Map<usize, Vec<u8>>,
    b: Map<usize, Vec<u8>>,
    c: Map<usize, Vec<u8>>,
    field_size: nat,
)
    requires
        is_constraint_bytes(bytes, a, b, c, field_size),
        a.dom().finite() && a.dom().len() < 0x1_0000_0000 && lc_fits(a, field_size),
        b.dom().finite() && b.dom().len() < 0x1_0000_0000 && lc_fits(b, field_size),
        c.dom().finite() && c.dom().len() < 0x1_0000_0000 && lc_fits(c, field_size),
        holds_at(data, pos, bytes),
    ensures
        spec_constraint(data, pos, field_size) == Ok::<
            (Map<usize, Seq<u8>>, Map<usize, Seq<u8>>, Map<usize, Seq<u8>>, nat),
            Failure,
        >((padded_lc(a, field_size), padded_lc(b, field_size), padded_lc(c, field_size), pos + bytes.len())),
{
    let (ba, bb, bc) = choose|ba: Seq<u8>, bb: Seq<u8>, bc: Seq<u8>|
        is_lc_block(ba, a, field_size) && is_lc_block(bb, b, field_size) && is_lc_block(bc, c, field_size)
            && bytes == ba + bb + bc;
    lemma_holds_split(data, pos, ba + bb, bc);
    lemma_holds_split(data, pos, ba, bb);
    lemma_read_written_lc_block(data, pos, ba, a, field_size);
    lemma_read_written_lc_block(data, pos + ba.len(), bb, b, field_size);
    lemma_read_written_lc_block(data, pos + ba.len() + bb.len(), bc, c, field_size);
}

/// The counts of a header fit in their fields and the prime in
/// `field_size` bytes.
pub open spec fn header_fits(field_size: nat, h: WrittenHeader) -> bool {
    &&& 1 <= field_size < 0x1_0000_0000
    &&& h.field@.len() <= field_size
    &&& h.total_wires < 0x1_0000_0000
    &&& h.public_outputs < 0x1_0000_0000
    &&& h.public_inputs < 0x1_0000_0000
    &&& h.private_inputs < 0x1_0000_0000
    &&& h.number_of_constraints < 0x1_0000_0000
}

/// What a reading gives of a header that the writer wrote.
pub open spec fn header_read_back(field_size: nat, h: WrittenHeader) -> HeaderView {
    HeaderView {
        field: pad(h.field@, field_size),
        field_size: field_size as usize,
        total_wires: h.total_wires,
        public_outputs: h.public_outputs,
        public_inputs: h.public_inputs,
        private_inputs: h.private_inputs,
        number_of_labels: h.number_of_labels,
        number_of_constraints: h.number_of_constraints,
    }
}

/// Reading a header that the writer wrote gives back its prime, over
/// `field_size` bytes, the field size and the counts.
pub proof fn lemma_read_written_header(data: Seq<u8>, pos: nat, field_size: nat, h: WrittenHeader)
    requires
        header_fits(field_size, h),
        holds_at(data, pos, header_bytes(field_size, h)),
    ensures
        spec_header(data, pos) == Ok::<(HeaderView, nat), Failure>(
            (header_read_back(field_size, h), pos + header_bytes(field_size, h).len()),
        ),
{
    lemma_pow256_values();
    let f0 = le_field(field_size, 4);
    let f1 = pad(h.field@, field_size);
    let f2 = le_field(h.total_wires as nat, 4);
    let f3 = le_field(h.public_outputs as nat, 4);
    let f4 = le_field(h.public_inputs as nat, 4);
    let f5 = le_field(h.private_inputs as nat, 4);
    let f6 = le_field(h.number_of_labels as nat, 8);
    let f7 = le_field(h.number_of_constraints as nat, 4);
    assert(header_bytes(field_size, h) == f0 + f1 + f2 + f3 + f4 + f5 + f6 + f7);
    lemma_holds_split(data, pos, f0 + f1 + f2 + f3 + f4 + f5 + f6, f7);
    lemma_holds_split(data, pos, f0 + f1 + f2 + f3 + f4 + f5, f6);
    lemma_holds_split(data, pos, f0 + f1 + f2 + f3 + f4, f5);
    lemma_holds_split(data, pos, f0 + f1 + f2 + f3, f4);
    lemma_holds_split(data, pos, f0 + f1 + f2, f3);
    lemma_holds_split(data, pos, f0 + f1, f2);
    lemma_holds_split(data, pos, f0, f1);
    lemma_read_field(data, pos, field_size, 4);
    let p1 = pos + 4;
    assert(f1.len() == field_size);
    let p2 = p1 + field_size;
    lemma_read_field(data, p2, h.total_wires as nat, 4);
    lemma_read_field(data, p2 + 4, h.public_outputs as nat, 4);
    lemma_read_field(data, p2 + 8, h.public_inputs as nat, 4);
    lemma_read_field(data, p2 + 12, h.private_inputs as nat, 4);
    lemma_read_field(data, p2 + 16, h.number_of_labels as nat, 8);
    lemma_read_field(data, p2 + 24, h.number_of_constraints as nat, 4);
}

/// Reading signals that the writer wrote, each over eight bytes, gives them
/// back.
pub proof fn lemma_read_written_signals(data: Seq<u8>, pos: nat, signals: Seq<usize>)
    requires
        holds_at(data, pos, signals_bytes(signals)),
    ensures
        spec_signals(data, pos, signals.len()) == Ok::<(Seq<usize>, nat), Failure>(
            (signals, pos + signals_bytes(signals).len()),
        ),
    decreases signals.len(),
{
    if signals.len() > 0 {
        let prev = signals.drop_last();
        lemma_holds_split(data, pos, signals_bytes(prev), le_field(signals.last() as nat, 8));
        lemma_read_written_signals(data, pos, prev);
        lemma_pow256_values();
        lemma_read_field(data, pos + signals_bytes(prev).len(), signals.last() as nat, 8);
        assert(prev.push(signals.last()) =~= signals);
    } else {
        assert(signals =~= Seq::<usize>::empty());
    }
}

/// Each application names a template index and a number of signals that fit
/// in four bytes, and there are fewer than 2^32 of them.
pub open spec fn applications_fit(apps: Seq<(usize, Vec<usize>)>) -> bool {
    &&& apps.len() < 0x1_0000_0000
    &&& forall|i: int| 0 <= i < apps.len() ==> #[trigger] apps[i].0 < 0x1_0000_0000 && apps[i].1@.len()
        < 0x1_0000_0000
}

proof fn lemma_read_written_applications(data: Seq<u8>, pos: nat, apps: Seq<(usize, Vec<usize>)>)
    requires
        applications_fit(apps),
        holds_at(data, pos, custom_gates_applied_entries(apps)),
    ensures
        spec_gates_applied_list(data, pos, apps.len()) == Ok::<(Seq<(usize, Seq<usize>)>, nat), Failure>(
            (gates_applied_view(apps), pos + custom_gates_applied_entries(apps).len()),
        ),
    decreases apps.len(),
{
    if apps.len() > 0 {
        let prev = apps.drop_last();
        let last = apps.last();
        assert(apps[apps.len() - 1] == last);
        assert forall|i: int| 0 <= i < prev.len() implies #[trigger] prev[i].0 < 0x1_0000_0000
            && prev[i].1@.len() < 0x1_0000_0000 by {
            assert(prev[i] == apps[i]);
        }
        lemma_holds_split(data, pos, custom_gates_applied_entries(prev), custom_gate_applied_bytes(last));
        lemma_read_written_applications(data, pos, prev);
        let p = pos + custom_gates_applied_entries(prev).len();
        let a0 = le_field(last.0 as nat, 4);
        let a1 = le_field(last.1@.len() as nat, 4);
        let a2 = signals_bytes(last.1@);
        lemma_holds_split(data, p, a0 + a1, a2);
        lemma_holds_split(data, p, a0, a1);
        lemma_pow256_values();
        lemma_read_field(data, p, last.0 as nat, 4);
        lemma_read_field(data, p + 4, last.1@.len() as nat, 4);
        lemma_read_written_signals(data, p + 8, last.1@);
        assert(gates_applied_view(apps) =~= gates_applied_view(prev).push((last.0, last.1@)));
    } else {
        assert(gates_applied_view(apps) =~= Seq::empty());
    }
}

/// Reading the applications of custom templates that the writer wrote gives
/// them back.
pub proof fn lemma_read_written_custom_gates_applied(data: Seq<u8>, pos: nat, apps: Seq<(usize, Vec<usize>)>)
    requires
        applications_fit(apps),
        holds_at(data, pos, custom_gates_applied_bytes(apps)),
    ensures
        spec_custom_gates_applied(data, pos) == Ok::<(Seq<(usize, Seq<usize>)>, nat), Failure>(
            (gates_applied_view(apps), pos + custom_gates_applied_bytes(apps).len()),
        ),
{
    lemma_pow256_values();
    lemma_holds_split(data, pos, le_field(apps.len() as nat, 4), custom_gates_applied_entries(apps));
    lemma_read_field(data, pos, apps.len() as nat, 4);
    lemma_read_written_applications(data, pos + 4, apps);
}

proof fn lemma_zero_after_name(data: Seq<u8>, pos: nat, name: Seq<u8>)
    requires
        !name.contains(0u8),
        holds_at(data, pos, name + seq![0u8]),
    ensures
        zero_from(data, pos) == Some(pos + name.len()),
        data.subrange(pos as int, (pos + name.len()) as int) == name,
    decreases name.len(),
{
    lemma_holds_split(data, pos, name, seq![0u8]);
    if name.len() > 0 {
        assert(name[0] != 0u8) by {
            if name[0] == 0u8 {
                assert(name.contains(0u8));
            }
        }
        let rest = name.drop_first();
        assert(!rest.contains(0u8)) by {
            if rest.contains(0u8) {
                let i = choose|i: int| 0 <= i < rest.len() && rest[i] == 0u8;
                assert(name[i + 1] == 0u8);
            }
        }
        assert(holds_at(data, pos + 1, rest + seq![0u8])) by {
            assert(data.subrange((pos + 1) as int, (pos + 1 + rest.len() + 1) as int) =~= data.subrange(
                pos as int,
                (pos + name.len() + 1) as int,
            ).drop_first());
            assert((name + seq![0u8]).drop_first() =~= rest + seq![0u8]);
        }
        assert(data[pos as int] == name[0]) by {
            assert(data.subrange(pos as int, (pos + name.len()) as int)[0] == data[pos as int]);
        }
        lemma_zero_after_name(data, pos + 1, rest);
    } else {
        assert(data[pos as int] == 0u8) by {
            assert(data.subrange(pos as int, (pos + 1) as int)[0] == data[pos as int]);
        }
    }
}

/// No custom template name holds the character of code zero, whose UTF-8
/// form would end the name early.
pub open spec fn names_fit(gates: Seq<(String, Vec<Vec<u8>>)>) -> bool {
    forall|i: int| 0 <= i < gates.len() ==> !encode_utf8(#[trigger] gates[i].0@).contains(0u8)
}

/// The custom templates used fit: fewer than 2^32 of them, fewer than 2^32
/// parameters each, each parameter in `field_size` bytes, and names without
/// a zero byte.
pub open spec fn gates_used_fit(gates: Seq<(String, Vec<Vec<u8>>)>, field_size: nat) -> bool {
    &&& gates.len() < 0x1_0000_0000
    &&& names_fit(gates)
    &&& forall|i: int| 0 <= i < gates.len() ==> #[trigger] gates[i].1@.len() < 0x1_0000_0000
    &&& forall|i: int, j: int| 0 <= i < gates.len() && 0 <= j < gates[i].1@.len() ==> #[trigger] gates[i].1@[j]@.len() <= field_size
}

/// What a reading gives of the custom templates used that the writer wrote:
/// each parameter over `field_size` bytes.
pub open spec fn gates_used_read_back(gates: Seq<(String, Vec<Vec<u8>>)>, field_size: nat) -> Seq<
    (Seq<char>, Seq<Seq<u8>>),
> {
    gates.map_values(|g: (String, Vec<Vec<u8>>)| (g.0@, g.1@.map_values(|v: Vec<u8>| pad(v@, field_size))))
}

proof fn lemma_read_written_parameters(data: Seq<u8>, pos: nat, ps: Seq<Vec<u8>>, field_size: nat)
    requires
        forall|j: int| 0 <= j < ps.len() ==> #[trigger] ps[j]@.len() <= field_size,
        holds_at(data, pos, parameters_bytes(ps, field_size)),
    ensures
        spec_parameters(data, pos, ps.len(), field_size) == Ok::<(Seq<Seq<u8>>, nat), Failure>(
            (ps.map_values(|v: Vec<u8>| pad(v@, field_size)), pos + parameters_bytes(ps, field_size).len()),
        ),
    decreases ps.len(),
{
    if ps.len() > 0 {
        let prev = ps.drop_last();
        assert(ps[ps.len() - 1] == ps.last());
        assert forall|j: int| 0 <= j < prev.len() implies #[trigger] prev[j]@.len() <= field_size by {
            assert(prev[j] == ps[j]);
        }
        lemma_holds_split(data, pos, parameters_bytes(prev, field_size), pad(ps.last()@, field_size));
        lemma_read_written_parameters(data, pos, prev, field_size);
        assert(ps.map_values(|v: Vec<u8>| pad(v@, field_size)) =~= prev.map_values(
            |v: Vec<u8>| pad(v@, field_size),
        ).push(pad(ps.last()@, field_size)));
    } else {
        assert(ps.map_values(|v: Vec<u8>| pad(v@, field_size)) =~= Seq::empty());
    }
}

proof fn lemma_read_written_gates_used(
    data: Seq<u8>,
    pos: nat,
    gates: Seq<(String, Vec<Vec<u8>>)>,
    field_size: nat,
)
    requires
        gates_used_fit(gates, field_size),
        holds_at(data, pos, custom_gates_used_entries(gates, field_size)),
    ensures
        spec_gates_used_list(data, pos, gates.len(), field_size) == Ok::<
            (Seq<(Seq<char>, Seq<Seq<u8>>)>, nat),
            Failure,
        >((gates_used_read_back(gates, field_size), pos + custom_gates_used_entries(gates, field_size).len())),
    decreases gates.len(),
{
    broadcast use vstd::utf8::group_utf8_lib;
    if gates.len() > 0 {
        let prev = gates.drop_last();
        let last = gates.last();
        assert(gates[gates.len() - 1] == last);
        assert(gates_used_fit(prev, field_size)) by {
            assert forall|i: int| 0 <= i < prev.len() implies !encode_utf8(#[trigger] prev[i].0@).contains(
                0u8,
            ) by {
                assert(prev[i] == gates[i]);
            }
            assert forall|i: int| 0 <= i < prev.len() implies #[trigger] prev[i].1@.len() < 0x1_0000_0000 by {
                assert(prev[i] == gates[i]);
            }
            assert forall|i: int, j: int| 0 <= i < prev.len() && 0 <= j < prev[i].1@.len() implies #[trigger] prev[i].1@[j]@.len()
                <= field_size by {
                assert(prev[i] == gates[i]);
            }
        }
        lemma_holds_split(data, pos, custom_gates_used_entries(prev, field_size), custom_gate_used_bytes(last, field_size));
        lemma_read_written_gates_used(data, pos, prev, field_size);
        let p = pos + custom_gates_used_entries(prev, field_size).len();
        let name = encode_utf8(last.0@);
        let n1 = le_field(last.1@.len() as nat, 4);
        let n2 = parameters_bytes(last.1@, field_size);
        assert(custom_gate_used_bytes(last, field_size) == name + seq![0u8] + n1 + n2);
        lemma_holds_split(data, p, name + seq![0u8] + n1, n2);
        lemma_holds_split(data, p, name + seq![0u8], n1);
        lemma_zero_after_name(data, p, name);
        assert(spec_name(data, p) == Ok::<(Seq<char>, nat), Failure>((last.0@, p + name.len() + 1)));
        lemma_pow256_values();
        lemma_read_field(data, p + name.len() + 1, last.1@.len() as nat, 4);
        assert forall|j: int| 0 <= j < last.1@.len() implies #[trigger] last.1@[j]@.len() <= field_size by {
            assert(gates[gates.len() - 1].1@[j]@.len() <= field_size);
        }
        lemma_read_written_parameters(data, p + name.len() + 1 + 4, last.1@, field_size);
        assert(gates_used_read_back(gates, field_size) =~= gates_used_read_back(prev, field_size).push(
            (last.0@, last.1@.map_values(|v: Vec<u8>| pad(v@, field_size))),
        ));
    } else {
        assert(gates_used_read_back(gates, field_size) =~= Seq::empty());
    }
}

/// Reading the custom templates used that the writer wrote gives back their
/// names and their parameters, each over `field_size` bytes.
pub proof fn lemma_read_written_custom_gates_used(
    data: Seq<u8>,
    pos: nat,
    gates: Seq<(String, Vec<Vec<u8>>)>,
    field_size: nat,
)
    requires
        gates_used_fit(gates, field_size),
        holds_at(data, pos, custom_gates_used_bytes(gates, field_size)),
    ensures
        spec_custom_gates_used(data, pos, field_size) == Ok::<(Seq<(Seq<char>, Seq<Seq<u8>>)>, nat), Failure>(
            (gates_used_read_back(gates, field_size), pos + custom_gates_used_bytes(gates, field_size).len()),
        ),
{
    lemma_pow256_values();
    lemma_holds_split(data, pos, le_field(gates.len() as nat, 4), custom_gates_used_entries(gates, field_size));
    lemma_read_field(data, pos, gates.len() as nat, 4);
    lemma_read_written_gates_used(data, pos + 4, gates, field_size);
}

/// A section as the writer leaves it: its type, its size over eight bytes
/// and its content.
pub open spec fn section_bytes(t: u8, content: Seq<u8>) -> Seq<u8> {
    section_type(t) + le_field(content.len(), 8) + content
}

/// A section that the writer opens, fills with `content` and closes is
/// `section_bytes(t, content)` after what the file held before.
pub proof fn law_section_as_written(w: R1CSWriterView, t: u8, index: nat, content: Seq<u8>)
    requires
        content.len() <= usize::MAX,
    ensures
        ended(appended(started(w, t, index, 0), content)).data == w.data + section_bytes(t, content),
{
    lemma_pow256_values();
    lemma_le_field_fits(content.len(), 8);
    let v = appended(started(w, t, index, 0), content);
    assert(v.size == content.len());
    assert(overwrite(v.data, v.go_back as int, le_field(v.size, 8)) =~= w.data + section_bytes(t, content));
}

/// Byte strings one after the other.
pub open spec fn concat_all(parts: Seq<Seq<u8>>) -> Seq<u8>
    decreases parts.len(),
{
    if parts.len() == 0 {
        Seq::empty()
    } else {
        concat_all(parts.drop_last()) + parts.last()
    }
}

/// Each linear combination of a constraint has fewer than 2^32 signals,
/// each below 2^32, with factors of at most `field_size` bytes.
pub open spec fn constraint_fits(c: (Map<usize, Vec<u8>>, Map<usize, Vec<u8>>, Map<usize, Vec<u8>>), field_size: nat) -> bool {
    &&& c.0.dom().finite() && c.0.dom().len() < 0x1_0000_0000 && lc_fits(c.0, field_size)
    &&& c.1.dom().finite() && c.1.dom().len() < 0x1_0000_0000 && lc_fits(c.1, field_size)
    &&& c.2.dom().finite() && c.2.dom().len() < 0x1_0000_0000 && lc_fits(c.2, field_size)
}

/// What a reading gives of constraints that the writer wrote: each factor
/// over `field_size` bytes.
pub open spec fn constraints_read_back(
    cs: Seq<(Map<usize, Vec<u8>>, Map<usize, Vec<u8>>, Map<usize, Vec<u8>>)>,
    field_size: nat,
) -> Seq<(Map<usize, Seq<u8>>, Map<usize, Seq<u8>>, Map<usize, Seq<u8>>)> {
    cs.map_values(
        |c: (Map<usize, Vec<u8>>, Map<usize, Vec<u8>>, Map<usize, Vec<u8>>)|
            (padded_lc(c.0, field_size), padded_lc(c.1, field_size), padded_lc(c.2, field_size)),
    )
}

/// The bytes `cbytes` are those the writer writes for the constraints `cs`.
pub open spec fn constraints_written(
    cbytes: Seq<Seq<u8>>,
    cs: Seq<(Map<usize, Vec<u8>>, Map<usize, Vec<u8>>, Map<usize, Vec<u8>>)>,
    field_size: nat,
) -> bool {
    &&& cbytes.len() == cs.len()
    &&& forall|i: int|
        0 <= i < cs.len() ==> is_constraint_bytes(#[trigger] cbytes[i], cs[i].0, cs[i].1, cs[i].2, field_size)
            && constraint_fits(cs[i], field_size)
}

proof fn lemma_read_written_constraints(
    data: Seq<u8>,
    pos: nat,
    cbytes: Seq<Seq<u8>>,
    cs: Seq<(Map<usize, Vec<u8>>, Map<usize, Vec<u8>>, Map<usize, Vec<u8>>)>,
    field_size: nat,
)
    requires
        constraints_written(cbytes, cs, field_size),
        holds_at(data, pos, concat_all(cbytes)),
    ensures
        spec_constraints(data, pos, cs.len(), field_size) == Ok::<
            (Seq<(Map<usize, Seq<u8>>, Map<usize, Seq<u8>>, Map<usize, Seq<u8>>)>, nat),
            Failure,
        >((constraints_read_back(cs, field_size), pos + concat_all(cbytes).len())),
    decreases cs.len(),
{
    if cs.len() == 0 {
        assert(constraints_read_back(cs, field_size) =~= Seq::empty());
    } else {
        let n = cs.len() - 1;
        let pb = cbytes.drop_last();
        let pc = cs.drop_last();
        assert(constraints_written(pb, pc, field_size)) by {
            assert forall|i: int| 0 <= i < pc.len() implies is_constraint_bytes(
                #[trigger] pb[i],
                pc[i].0,
                pc[i].1,
                pc[i].2,
                field_size,
            ) && constraint_fits(pc[i], field_size) by {
                assert(pb[i] == cbytes[i] && pc[i] == cs[i]);
            }
        }
        lemma_holds_split(data, pos, concat_all(pb), cbytes.last());
        lemma_read_written_constraints(data, pos, pb, pc, field_size);
        assert(is_constraint_bytes(cbytes[n], cs[n].0, cs[n].1, cs[n].2, field_size) && constraint_fits(cs[n], field_size));
        assert(cbytes.last() == cbytes[n]);
        lemma_read_written_constraint(
            data,
            pos + concat_all(pb).len(),
            cbytes[n],
            cs[n].0,
            cs[n].1,
            cs[n].2,
            field_size,
        );
        assert(constraints_read_back(cs, field_size) =~= constraints_read_back(pc, field_size).push(
            (padded_lc(cs[n].0, field_size), padded_lc(cs[n].1, field_size), padded_lc(cs[n].2, field_size)),
        ));
    }
}

proof fn lemma_section_at(data: Seq<u8>, pos: nat, t: u8, content: Seq<u8>)
    requires
        holds_at(data, pos, section_bytes(t, content)),
        data.len() <= usize::MAX,
    ensures
        section_bytes(t, content).len() == 12 + content.len(),
        holds_at(data, pos + 12, content),
        spec_take(data, pos, 4) == Ok::<(Seq<u8>, nat), Failure>((section_type(t), pos + 4)),
        spec_read_usize(data, pos + 4, 8) == Ok::<(usize, nat), Failure>((content.len() as usize, pos + 12)),
        spec_open_section(data, pos, t) == Ok::<nat, Failure>(pos + 12),
        spec_close_section(data, pos + 4) == Ok::<usize, Failure>(content.len() as usize),
{
    lemma_pow256_values();
    let f = le_field(content.len(), 8);
    lemma_holds_split(data, pos, section_type(t) + f, content);
    lemma_holds_split(data, pos, section_type(t), f);
    lemma_read_field(data, pos + 4, content.len(), 8);
    assert(section_type(t).len() == 4);
}

proof fn lemma_file_start(data: Seq<u8>, n: u8)
    requires
        holds_at(data, 0, file_start(n)),
    ensures
        spec_initialization(data) == Ok::<(u8, nat), Failure>((n, 12nat)),
{
    let start = file_start(n);
    assert(data.subrange(0, 12) == start);
    assert(data.subrange(0, 4) =~= seq![114u8, 49u8, 99u8, 115u8]) by {
        assert(data.subrange(0, 4) =~= start.subrange(0, 4));
    }
    assert(data.subrange(4, 8) =~= seq![1u8, 0u8, 0u8, 0u8]) by {
        assert(data.subrange(4, 8) =~= start.subrange(4, 8));
    }
    assert(data.subrange(8, 12)[0] == n) by {
        assert(data.subrange(8, 12) =~= start.subrange(8, 12));
    }
}

proof fn lemma_scan_step(
    data: Seq<u8>,
    pos: nat,
    n: u8,
    k: nat,
    starts: Seq<Option<nat>>,
    p: nat,
    size: nat,
    start: nat,
    t: u8,
    content: Seq<u8>,
)
    requires
        spec_scan(data, pos, n, k) == Ok::<(Seq<Option<nat>>, nat, nat), Failure>((starts, p, size)),
        spec_seek(p, size) == Ok::<nat, Failure>(start),
        holds_at(data, start, section_bytes(t, content)),
        data.len() <= usize::MAX,
        1 <= t <= n,
        t <= 5,
    ensures
        spec_scan(data, pos, n, k + 1) == Ok::<(Seq<Option<nat>>, nat, nat), Failure>(
            (starts.update(t as int, Some(start)), start + 12, content.len()),
        ),
{
    lemma_section_at(data, start, t, content);
    assert(section_type(t)[0] == t);
    assert(spec_scan(data, pos, n, k + 1) == Ok::<(Seq<Option<nat>>, nat, nat), Failure>(
        (starts.update(t as int, Some(start)), start + 12, content.len()),
    ));
}

proof fn lemma_three_sections_scan(data: Seq<u8>, a: Seq<u8>, b: Seq<u8>, c: Seq<u8>)
    requires
        holds_at(data, 0, file_start(3)),
        holds_at(data, 12, section_bytes(2, a)),
        holds_at(data, 24 + a.len(), section_bytes(1, b)),
        holds_at(data, 36 + a.len() + b.len(), section_bytes(3, c)),
        data.len() <= i64::MAX,
        data.len() <= usize::MAX,
    ensures
        spec_initialization(data) == Ok::<(u8, nat), Failure>((3u8, 12nat)),
        spec_scan(data, 12, 3, 3) matches Ok((st, q, z)) && st[1] == Some(24 + a.len()) && st[2] == Some(
            12nat,
        ) && st[3] == Some(36 + a.len() + b.len()),
{
    lemma_file_start(data, 3);
    let st0 = no_starts();
    let st1 = st0.update(2, Some(12nat));
    let st2 = st1.update(1, Some(24 + a.len()));
    assert(spec_scan(data, 12, 3, 0) == Ok::<(Seq<Option<nat>>, nat, nat), Failure>((st0, 12nat, 0nat)));
    lemma_scan_step(data, 12, 3, 0, st0, 12, 0, 12, 2, a);
    lemma_scan_step(data, 12, 3, 1, st1, 24, a.len(), 24 + a.len(), 1, b);
    lemma_scan_step(data, 12, 3, 2, st2, 36 + a.len(), b.len(), 36 + a.len() + b.len(), 3, c);
}

proof fn lemma_three_sections(data: Seq<u8>, a: Seq<u8>, b: Seq<u8>, c: Seq<u8>)
    requires
        data == file_start(3) + section_bytes(2, a) + section_bytes(1, b) + section_bytes(3, c),
        a.len() + b.len() + c.len() <= i64::MAX,
    ensures
        holds_at(data, 0, file_start(3)),
        holds_at(data, 12, section_bytes(2, a)),
        holds_at(data, 24 + a.len(), section_bytes(1, b)),
        holds_at(data, 36 + a.len() + b.len(), section_bytes(3, c)),
{
    let start = file_start(3);
    let sa = section_bytes(2, a);
    let sb = section_bytes(1, b);
    let sc = section_bytes(3, c);
    lemma_pow256_values();
    lemma_le_field_fits(a.len(), 8);
    lemma_le_field_fits(b.len(), 8);
    lemma_le_field_fits(c.len(), 8);
    assert(holds_at(data, 0, data)) by {
        assert(data.subrange(0, data.len() as int) =~= data);
    }
    lemma_holds_split(data, 0, start + sa + sb, sc);
    lemma_holds_split(data, 0, start + sa, sb);
    lemma_holds_split(data, 0, start, sa);
}

/// The file the writer makes without custom templates, its sections in the
/// order the ports write them: the constraints, the header, then the
/// signals.
pub open spec fn plain_file(field_size: nat, h: WrittenHeader, cbytes: Seq<Seq<u8>>, signals: Seq<usize>) -> Seq<u8> {
    file_start(3) + section_bytes(2, concat_all(cbytes)) + section_bytes(1, header_bytes(field_size, h))
        + section_bytes(3, signals_bytes(signals))
}

proof fn lemma_assemble_plain(
    data: Seq<u8>,
    s1: nat,
    s3: nat,
    hv: HeaderView,
    cv: Seq<(Map<usize, Seq<u8>>, Map<usize, Seq<u8>>, Map<usize, Seq<u8>>)>,
    signals: Seq<usize>,
)
    requires
        spec_initialization(data) == Ok::<(u8, nat), Failure>((3u8, 12nat)),
        spec_scan(data, 12, 3, 3) matches Ok((st, q, z)) && st[1] == Some(s1) && st[2] == Some(12nat) && st[3]
            == Some(s3),
        spec_header_section(data, s1) == Ok::<HeaderView, Failure>(hv),
        spec_constraint_section(data, 12, hv.number_of_constraints as nat, hv.field_size as nat) == Ok::<
            Seq<(Map<usize, Seq<u8>>, Map<usize, Seq<u8>>, Map<usize, Seq<u8>>)>,
            Failure,
        >(cv),
        spec_signal_section(data, s3, hv.total_wires as nat) == Ok::<Seq<usize>, Failure>(signals),
    ensures
        spec_read_r1cs(data) == Ok::<R1CSDataView, Failure>(
            R1CSDataView {
                header: hv,
                constraints: cv,
                signals,
                custom_gates: false,
                custom_gates_used: None,
                custom_gates_applied: None,
            },
        ),
{
}

proof fn lemma_header_section_at(data: Seq<u8>, s1: nat, field_size: nat, h: WrittenHeader)
    requires
        header_fits(field_size, h),
        holds_at(data, s1, section_bytes(1, header_bytes(field_size, h))),
        data.len() <= usize::MAX,
    ensures
        spec_header_section(data, s1) == Ok::<HeaderView, Failure>(header_read_back(field_size, h)),
{
    lemma_section_at(data, s1, 1, header_bytes(field_size, h));
    lemma_read_written_header(data, s1 + 12, field_size, h);
}

proof fn lemma_header_after(prefix: Seq<u8>, field_size: nat, h: WrittenHeader)
    requires
        header_fits(field_size, h),
        prefix.len() + 12 + header_bytes(field_size, h).len() <= usize::MAX,
    ensures
        spec_header_section(prefix + section_bytes(1, header_bytes(field_size, h)), prefix.len())
            == Ok::<HeaderView, Failure>(header_read_back(field_size, h)),
{
    let content = header_bytes(field_size, h);
    let sb = section_bytes(1, content);
    let data = prefix + sb;
    lemma_pow256_values();
    lemma_le_field_fits(content.len(), 8);
    assert(sb.len() == 12 + content.len());
    assert(data.subrange(prefix.len() as int, (prefix.len() + sb.len()) as int) =~= sb);
    lemma_header_section_at(data, prefix.len(), field_size, h);
}

/// A header section that the writer opens after the bytes of `w`, fills with
/// the header `h` and closes reads back, from where it starts, as `h`.
pub proof fn law_header_as_written(w: R1CSWriterView, h: WrittenHeader)
    requires
        header_fits(w.field_size, h),
        w.data.len() + 12 + header_bytes(w.field_size, h).len() <= usize::MAX,
    ensures
        spec_header_section(
            ended(appended(started(w, 1, 0, 0), header_bytes(w.field_size, h))).data,
            w.data.len(),
        ) == Ok::<HeaderView, Failure>(header_read_back(w.field_size, h)),
{
    let content = header_bytes(w.field_size, h);
    law_section_as_written(w, 1, 0, content);
    lemma_header_after(w.data, w.field_size, h);
}

proof fn lemma_constraint_section_at(
    data: Seq<u8>,
    cbytes: Seq<Seq<u8>>,
    cs: Seq<(Map<usize, Vec<u8>>, Map<usize, Vec<u8>>, Map<usize, Vec<u8>>)>,
    field_size: nat,
)
    requires
        constraints_written(cbytes, cs, field_size),
        holds_at(data, 12, section_bytes(2, concat_all(cbytes))),
        data.len() <= usize::MAX,
    ensures
        spec_constraint_section(data, 12, cs.len(), field_size) == Ok::<
            Seq<(Map<usize, Seq<u8>>, Map<usize, Seq<u8>>, Map<usize, Seq<u8>>)>,
            Failure,
        >(constraints_read_back(cs, field_size)),
{
    lemma_section_at(data, 12, 2, concat_all(cbytes));
    lemma_read_written_constraints(data, 24, cbytes, cs, field_size);
}

proof fn lemma_signal_section_at(data: Seq<u8>, s3: nat, signals: Seq<usize>)
    requires
        holds_at(data, s3, section_bytes(3, signals_bytes(signals))),
        data.len() <= usize::MAX,
    ensures
        spec_signal_section(data, s3, signals.len()) == Ok::<Seq<usize>, Failure>(signals),
{
    lemma_section_at(data, s3, 3, signals_bytes(signals));
    lemma_read_written_signals(data, s3 + 12, signals);
}

/// Reading a file that the writer wrote without custom templates gives back
/// the header (its prime over `field_size` bytes), each constraint (each
/// factor over `field_size` bytes) and the signals; the file has no custom
/// templates.
pub proof fn law_read_written_file(
    field_size: nat,
    h: WrittenHeader,
    cbytes: Seq<Seq<u8>>,
    cs: Seq<(Map<usize, Vec<u8>>, Map<usize, Vec<u8>>, Map<usize, Vec<u8>>)>,
    signals: Seq<usize>,
)
    requires
        header_fits(field_size, h),
        h.number_of_constraints == cs.len(),
        h.total_wires == signals.len(),
        constraints_written(cbytes, cs, field_size),
        plain_file(field_size, h, cbytes, signals).len() <= i64::MAX,
        plain_file(field_size, h, cbytes, signals).len() <= usize::MAX,
    ensures
        spec_read_r1cs(plain_file(field_size, h, cbytes, signals)) == Ok::<R1CSDataView, Failure>(
            R1CSDataView {
                header: header_read_back(field_size, h),
                constraints: constraints_read_back(cs, field_size),
                signals,
                custom_gates: false,
                custom_gates_used: None,
                custom_gates_applied: None,
            },
        ),
{
    let data = plain_file(field_size, h, cbytes, signals);
    let a = concat_all(cbytes);
    let b = header_bytes(field_size, h);
    let c = signals_bytes(signals);
    lemma_three_sections(data, a, b, c);
    lemma_three_sections_scan(data, a, b, c);
    let s1 = 24 + a.len();
    let s3 = 36 + a.len() + b.len();
    lemma_header_section_at(data, s1, field_size, h);
    lemma_constraint_section_at(data, cbytes, cs, field_size);
    lemma_signal_section_at(data, s3, signals);
    lemma_assemble_plain(data, s1, s3, header_read_back(field_size, h), constraints_read_back(cs, field_size), signals);
}

proof fn lemma_five_sections(data: Seq<u8>, a: Seq<u8>, b: Seq<u8>, c: Seq<u8>, d: Seq<u8>, e: Seq<u8>)
    requires
        data == file_start(5) + section_bytes(2, a) + section_bytes(1, b) + section_bytes(3, c) + section_bytes(
            4,
            d,
        ) + section_bytes(5, e),
        a.len() + b.len() + c.len() + d.len() + e.len() <= i64::MAX,
    ensures
        holds_at(data, 0, file_start(5)),
        holds_at(data, 12, section_bytes(2, a)),
        holds_at(data, 24 + a.len(), section_bytes(1, b)),
        holds_at(data, 36 + a.len() + b.len(), section_bytes(3, c)),
        holds_at(data, 48 + a.len() + b.len() + c.len(), section_bytes(4, d)),
        holds_at(data, 60 + a.len() + b.len() + c.len() + d.len(), section_bytes(5, e)),
{
    let start = file_start(5);
    let sa = section_bytes(2, a);
    let sb = section_bytes(1, b);
    let sc = section_bytes(3, c);
    let sd = section_bytes(4, d);
    let se = section_bytes(5, e);
    lemma_pow256_values();
    lemma_le_field_fits(a.len(), 8);
    lemma_le_field_fits(b.len(), 8);
    lemma_le_field_fits(c.len(), 8);
    lemma_le_field_fits(d.len(), 8);
    lemma_le_field_fits(e.len(), 8);
    assert(holds_at(data, 0, data)) by {
        assert(data.subrange(0, data.len() as int) =~= data);
    }
    lemma_holds_split(data, 0, start + sa + sb + sc + sd, se);
    lemma_holds_split(data, 0, start + sa + sb + sc, sd);
    lemma_holds_split(data, 0, start + sa + sb, sc);
    lemma_holds_split(data, 0, start + sa, sb);
    lemma_holds_split(data, 0, start, sa);
}

proof fn lemma_five_sections_scan(data: Seq<u8>, a: Seq<u8>, b: Seq<u8>, c: Seq<u8>, d: Seq<u8>, e: Seq<u8>)
    requires
        holds_at(data, 0, file_start(5)),
        holds_at(data, 12, section_bytes(2, a)),
        holds_at(data, 24 + a.len(), section_bytes(1, b)),
        holds_at(data, 36 + a.len() + b.len(), section_bytes(3, c)),
        holds_at(data, 48 + a.len() + b.len() + c.len(), section_bytes(4, d)),
        holds_at(data, 60 + a.len() + b.len() + c.len() + d.len(), section_bytes(5, e)),
        data.len() <= i64::MAX,
        data.len() <= usize::MAX,
    ensures
        spec_initialization(data) == Ok::<(u8, nat), Failure>((5u8, 12nat)),
        spec_scan(data, 12, 5, 5) matches Ok((st, q, z)) && st[1] == Some(24 + a.len()) && st[2] == Some(
            12nat,
        ) && st[3] == Some(36 + a.len() + b.len()) && st[4] == Some(48 + a.len() + b.len() + c.len())
            && st[5] == Some(60 + a.len() + b.len() + c.len() + d.len()),
{
    lemma_file_start(data, 5);
    let st0 = no_starts();
    let st1 = st0.update(2, Some(12nat));
    let st2 = st1.update(1, Some(24 + a.len()));
    let st3 = st2.update(3, Some(36 + a.len() + b.len()));
    let st4 = st3.update(4, Some(48 + a.len() + b.len() + c.len()));
    assert(spec_scan(data, 12, 5, 0) == Ok::<(Seq<Option<nat>>, nat, nat), Failure>((st0, 12nat, 0nat)));
    lemma_scan_step(data, 12, 5, 0, st0, 12, 0, 12, 2, a);
    lemma_scan_step(data, 12, 5, 1, st1, 24, a.len(), 24 + a.len(), 1, b);
    lemma_scan_step(data, 12, 5, 2, st2, 36 + a.len(), b.len(), 36 + a.len() + b.len(), 3, c);
    lemma_scan_step(data, 12, 5, 3, st3, 48 + a.len() + b.len(), c.len(), 48 + a.len() + b.len() + c.len(), 4, d);
    lemma_scan_step(
        data,
        12,
        5,
        4,
        st4,
        60 + a.len() + b.len() + c.len(),
        d.len(),
        60 + a.len() + b.len() + c.len() + d.len(),
        5,
        e,
    );
}

proof fn lemma_assemble_with_gates(
    data: Seq<u8>,
    s1: nat,
    s3: nat,
    s4: nat,
    s5: nat,
    hv: HeaderView,
    cv: Seq<(Map<usize, Seq<u8>>, Map<usize, Seq<u8>>, Map<usize, Seq<u8>>)>,
    signals: Seq<usize>,
    used: Seq<(Seq<char>, Seq<Seq<u8>>)>,
    applied: Seq<(usize, Seq<usize>)>,
)
    requires
        spec_initialization(data) == Ok::<(u8, nat), Failure>((5u8, 12nat)),
        spec_scan(data, 12, 5, 5) matches Ok((st, q, z)) && st[1] == Some(s1) && st[2] == Some(12nat) && st[3]
            == Some(s3) && st[4] == Some(s4) && st[5] == Some(s5),
        spec_header_section(data, s1) == Ok::<HeaderView, Failure>(hv),
        spec_constraint_section(data, 12, hv.number_of_constraints as nat, hv.field_size as nat) == Ok::<
            Seq<(Map<usize, Seq<u8>>, Map<usize, Seq<u8>>, Map<usize, Seq<u8>>)>,
            Failure,
        >(cv),
        spec_signal_section(data, s3, hv.total_wires as nat) == Ok::<Seq<usize>, Failure>(signals),
        spec_used_section(data, s4, hv.field_size as nat) == Ok::<Seq<(Seq<char>, Seq<Seq<u8>>)>, Failure>(used),
        spec_applied_section(data, s5) == Ok::<Seq<(usize, Seq<usize>)>, Failure>(applied),
    ensures
        spec_read_r1cs(data) == Ok::<R1CSDataView, Failure>(
            R1CSDataView {
                header: hv,
                constraints: cv,
                signals,
                custom_gates: true,
                custom_gates_used: Some(used),
                custom_gates_applied: Some(applied),
            },
        ),
{
}

proof fn lemma_used_section_at(data: Seq<u8>, s4: nat, gates: Seq<(String, Vec<Vec<u8>>)>, field_size: nat)
    requires
        gates_used_fit(gates, field_size),
        holds_at(data, s4, section_bytes(4, custom_gates_used_bytes(gates, field_size))),
        data.len() <= usize::MAX,
    ensures
        spec_used_section(data, s4, field_size) == Ok::<Seq<(Seq<char>, Seq<Seq<u8>>)>, Failure>(
            gates_used_read_back(gates, field_size),
        ),
{
    lemma_section_at(data, s4, 4, custom_gates_used_bytes(gates, field_size));
    lemma_read_written_custom_gates_used(data, s4 + 12, gates, field_size);
}

proof fn lemma_applied_section_at(data: Seq<u8>, s5: nat, apps: Seq<(usize, Vec<usize>)>)
    requires
        applications_fit(apps),
        holds_at(data, s5, section_bytes(5, custom_gates_applied_bytes(apps))),
        data.len() <= usize::MAX,
    ensures
        spec_applied_section(data, s5) == Ok::<Seq<(usize, Seq<usize>)>, Failure>(gates_applied_view(apps)),
{
    lemma_section_at(data, s5, 5, custom_gates_applied_bytes(apps));
    lemma_read_written_custom_gates_applied(data, s5 + 12, apps);
}

/// The file the writer makes with custom templates: the sections of the
/// file without them, then the custom templates used and where they are
/// applied.
pub open spec fn file_with_gates(
    field_size: nat,
    h: WrittenHeader,
    cbytes: Seq<Seq<u8>>,
    signals: Seq<usize>,
    gates: Seq<(String, Vec<Vec<u8>>)>,
    apps: Seq<(usize, Vec<usize>)>,
) -> Seq<u8> {
    file_start(5) + section_bytes(2, concat_all(cbytes)) + section_bytes(1, header_bytes(field_size, h))
        + section_bytes(3, signals_bytes(signals)) + section_bytes(4, custom_gates_used_bytes(gates, field_size))
        + section_bytes(5, custom_gates_applied_bytes(apps))
}

/// Reading a file that the writer wrote with custom templates gives back
/// the header, the constraints and the signals as in a file without them,
/// the custom templates used (each parameter over `field_size` bytes) and
/// where they are applied.
pub proof fn law_read_written_file_with_gates(
    field_size: nat,
    h: WrittenHeader,
    cbytes: Seq<Seq<u8>>,
    cs: Seq<(Map<usize, Vec<u8>>, Map<usize, Vec<u8>>, Map<usize, Vec<u8>>)>,
    signals: Seq<usize>,
    gates: Seq<(String, Vec<Vec<u8>>)>,
    apps: Seq<(usize, Vec<usize>)>,
)
    requires
        header_fits(field_size, h),
        h.number_of_constraints == cs.len(),
        h.total_wires == signals.len(),
        constraints_written(cbytes, cs, field_size),
        gates_used_fit(gates, field_size),
        applications_fit(apps),
        file_with_gates(field_size, h, cbytes, signals, gates, apps).len() <= i64::MAX,
        file_with_gates(field_size, h, cbytes, signals, gates, apps).len() <= usize::MAX,
    ensures
        spec_read_r1cs(file_with_gates(field_size, h, cbytes, signals, gates, apps)) == Ok::<
            R1CSDataView,
            Failure,
        >(
            R1CSDataView {
                header: header_read_back(field_size, h),
                constraints: constraints_read_back(cs, field_size),
                signals,
                custom_gates: true,
                custom_gates_used: Some(gates_used_read_back(gates, field_size)),
                custom_gates_applied: Some(gates_applied_view(apps)),
            },
        ),
{
    let data = file_with_gates(field_size, h, cbytes, signals, gates, apps);
    let a = concat_all(cbytes);
    let b = header_bytes(field_size, h);
    let c = signals_bytes(signals);
    let d = custom_gates_used_bytes(gates, field_size);
    let e = custom_gates_applied_bytes(apps);
    lemma_five_sections(data, a, b, c, d, e);
    lemma_five_sections_scan(data, a, b, c, d, e);
    let s1 = 24 + a.len();
    let s3 = 36 + a.len() + b.len();
    let s4 = 48 + a.len() + b.len() + c.len();
    let s5 = 60 + a.len() + b.len() + c.len() + d.len();
    lemma_header_section_at(data, s1, field_size, h);
    lemma_constraint_section_at(data, cbytes, cs, field_size);
    lemma_signal_section_at(data, s3, signals);
    lemma_used_section_at(data, s4, gates, field_size);
    lemma_applied_section_at(data, s5, apps);
    lemma_assemble_with_gates(
        data,
        s1,
        s3,
        s4,
        s5,
        header_read_back(field_size, h),
        constraints_read_back(cs, field_size),
        signals,
        gates_used_read_back(gates, field_size),
        gates_applied_view(apps),
    );
}

} // verus!
