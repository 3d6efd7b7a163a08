//! The version pragma of a circom file: reading it and checking it against
//! the compiler and against what custom templates need.

use vstd::prelude::*;
use vstd::string::StringExecFns;
use vstd::string::StrSliceExecFns;
use crate::text::{nat_text, push_u64};

pub mod parser_logic;
pub mod include_logic;

verus! {

/// A version: major, minor and patch numbers.
pub type Version = (usize, usize, usize);

/// The character is a decimal digit.
pub open spec fn is_digit(c: char) -> bool {
    '0' <= c && c <= '9'
}

/// The number that a string of decimal digits writes.
pub open spec fn digits_value(s: Seq<char>) -> nat
    decreases s.len(),
{
    if s.len() == 0 {
        0
    } else {
        (digits_value(s.drop_last()) * 10 + (s.last() as int - '0' as int)) as nat
    }
}

/// The digits of a number as `usize::from_str` reads them: an optional `+`,
/// then at least one digit.
pub open spec fn number_digits(s: Seq<char>) -> Seq<char> {
    if s.len() > 0 && s[0] == '+' {
        s.drop_first()
    } else {
        s
    }
}

/// `s` is a number that `usize::from_str` accepts.
pub open spec fn is_usize_text(s: Seq<char>) -> bool {
    let d = number_digits(s);
    &&& d.len() > 0
    &&& forall|i: int| 0 <= i < d.len() ==> is_digit(#[trigger] d[i])
    &&& digits_value(d) <= usize::MAX
}

/// The pieces of `s` between dots.
pub open spec fn split_dots(s: Seq<char>) -> Seq<Seq<char>>
    decreases s.len(),
{
    if s.len() == 0 {
        seq![Seq::empty()]
    } else {
        let rest = split_dots(s.drop_last());
        if s.last() == '.' {
            rest.push(Seq::empty())
        } else {
            rest.update(rest.len() - 1, rest.last().push(s.last()))
        }
    }
}

/// `version` has at least three pieces between dots, the first three
/// numbers that fit in `usize`.
pub open spec fn is_version_text(version: Seq<char>) -> bool {
    let pieces = split_dots(version);
    &&& pieces.len() >= 3
    &&& is_usize_text(pieces[0])
    &&& is_usize_text(pieces[1])
    &&& is_usize_text(pieces[2])
}

proof fn lemma_split_dots_nonempty(s: Seq<char>)
    ensures
        split_dots(s).len() >= 1,
    decreases s.len(),
{
    if s.len() > 0 {
        lemma_split_dots_nonempty(s.drop_last());
    }
}

/// Reads the number written at `piece`, which `usize::from_str` accepts.
fn parse_usize(piece: &str) -> (res: usize)
    requires
        is_usize_text(piece@),
    ensures
        res == digits_value(number_digits(piece@)),
{
    let n = piece.unicode_len();
    let mut i: usize = 0;
    if n > 0 && piece.get_char(0) == '+' {
        i = 1;
    }
    let ghost d = number_digits(piece@);
    proof {
        assert(d =~= piece@.subrange(i as int, n as int));
        assert(d.subrange(0, 0) =~= Seq::<char>::empty());
    }
    let start = i;
    let mut value: usize = 0;
    while i < n
        invariant
            start <= i <= n,
            n == piece@.len(),
            d == piece@.subrange(start as int, n as int),
            forall|j: int| 0 <= j < d.len() ==> is_digit(#[trigger] d[j]),
            digits_value(d) <= usize::MAX,
            value == digits_value(d.subrange(0, i - start)),
        decreases n - i,
    {
        let c = piece.get_char(i);
        let ghost pre = d.subrange(0, i - start + 1);
        proof {
            assert(pre.drop_last() =~= d.subrange(0, i - start));
            assert(pre.last() == c);
            assert(is_digit(d[i - start]));
            lemma_digits_prefix_le(d, (i - start + 1) as nat);
        }
        let digit = (c as u32 - '0' as u32) as usize;
        value = value * 10 + digit;
        i = i + 1;
    }
    proof {
        assert(d.subrange(0, n - start) =~= d);
    }
    value
}

proof fn lemma_digits_prefix_le(d: Seq<char>, k: nat)
    requires
        k <= d.len(),
        forall|j: int| 0 <= j < d.len() ==> is_digit(#[trigger] d[j]),
    ensures
        digits_value(d.subrange(0, k as int)) <= digits_value(d),
    decreases d.len() - k,
{
    if k < d.len() {
        lemma_digits_prefix_le(d, k + 1);
        let pre = d.subrange(0, k + 1int);
        assert(pre.drop_last() =~= d.subrange(0, k as int));
        assert(is_digit(d[k as int]));
    } else {
        assert(d.subrange(0, k as int) =~= d);
    }
}

/// Reads a version `major.minor.patch`; pieces after the third are ignored.
pub fn parse_number_version(version: &str) -> (res: Version)
    requires
        is_version_text(version@),
    ensures
        res.0 == digits_value(number_digits(split_dots(version@)[0])),
        res.1 == digits_value(number_digits(split_dots(version@)[1])),
        res.2 == digits_value(number_digits(split_dots(version@)[2])),
{
    let n = version.unicode_len();
    let mut pieces: Vec<String> = Vec::new();
    let mut current = String::new();
    let mut start: usize = 0;
    let mut i: usize = 0;
    proof {
        assert(version@.subrange(0, 0) =~= Seq::<char>::empty());
    }
    while i < n
        invariant
            start <= i <= n,
            n == version@.len(),
            pieces@.map_values(|p: String| p@).push(version@.subrange(start as int, i as int)) == split_dots(
                version@.subrange(0, i as int),
            ),
        decreases n - i,
    {
        let ghost before = version@.subrange(0, i as int);
        proof {
            assert(version@.subrange(0, i + 1).drop_last() =~= before);
            assert(version@.subrange(0, i + 1).last() == version@[i as int]);
        }
        if version.get_char(i) == '.' {
            let ghost old_pieces = pieces@.map_values(|p: String| p@);
            let ghost old_start = start;
            let piece = String::from_str(version.substring_char(start, i));
            pieces.push(piece);
            start = i + 1;
            proof {
                assert(pieces@.map_values(|p: String| p@) =~= old_pieces.push(version@.subrange(old_start as int, i as int)));
                assert(version@.subrange(start as int, (i + 1) as int) =~= Seq::<char>::empty());
                assert(split_dots(version@.subrange(0, i + 1)) == split_dots(before).push(Seq::<char>::empty()));
                assert(pieces@.map_values(|p: String| p@).push(version@.subrange(start as int, (i + 1) as int))
                    =~= split_dots(version@.subrange(0, i + 1)));
            }
        } else {
            proof {
                assert(version@.subrange(start as int, (i + 1) as int) =~= version@.subrange(start as int, i as int).push(
                    version@[i as int],
                ));
                assert(pieces@.map_values(|p: String| p@).push(version@.subrange(start as int, (i + 1) as int))
                    =~= split_dots(version@.subrange(0, i + 1)));
            }
        }
        i = i + 1;
    }
    pieces.push(String::from_str(version.substring_char(start, n)));
    proof {
        assert(version@.subrange(0, n as int) =~= version@);
        assert(pieces@.map_values(|p: String| p@) =~= split_dots(version@));
        assert(pieces@[0]@ == split_dots(version@)[0]);
        assert(pieces@[1]@ == split_dots(version@)[1]);
        assert(pieces@[2]@ == split_dots(version@)[2]);
    }
    let major = parse_usize(pieces[0].as_str());
    let minor = parse_usize(pieces[1].as_str());
    let patch = parse_usize(pieces[2].as_str());
    (major, minor, patch)
}

/// `a` comes before `b`: compared by major, then minor, then patch number.
pub open spec fn version_lt(a: Version, b: Version) -> bool {
    a.0 < b.0 || (a.0 == b.0 && a.1 < b.1) || (a.0 == b.0 && a.1 == b.1 && a.2 < b.2)
}

/// What the check of the version pragma of a file reports.
pub enum VersionReport {
    /// The file asks for `required`, which the compiler at `compiler`
    /// cannot give.
    CompilerVersion { file_path: String, required: Version, compiler: Version },
    /// The file has no version pragma; the compiler is at `compiler`.
    NoVersionPragma { file_path: String, compiler: Version },
    /// Custom templates need a version the file or the compiler does not
    /// reach; the message says which.
    CustomGatesVersion { message: String },
}

/// Checks the version a file asks for against the compiler's: the same
/// major version, and minor and patch numbers no higher. A file without
/// version pragma passes with a warning.
pub fn check_number_version(
    file_path: String,
    version_file: Option<Version>,
    version_compiler: Version,
) -> (res: Result<Vec<VersionReport>, VersionReport>)
    ensures
        match version_file {
            Some(required) => {
                let accepted = required.0 == version_compiler.0 && (required.1 < version_compiler.1 || (required.1
                    == version_compiler.1 && required.2 <= version_compiler.2));
                &&& accepted ==> (res matches Ok(warnings) && warnings@.len() == 0)
                &&& !accepted ==> (res matches Err(VersionReport::CompilerVersion { file_path: f, required: r, compiler: c })
                    && f@ == file_path@ && r == required && c == version_compiler)
            },
            None => res matches Ok(warnings) && warnings@.len() == 1 && (warnings@[0] matches VersionReport::NoVersionPragma {
                file_path: f,
                compiler: c,
            } && f@ == file_path@ && c == version_compiler),
        },
{
    if let Some(required_version) = version_file {
        if required_version.0 == version_compiler.0 && (required_version.1 < version_compiler.1 || (
        required_version.1 == version_compiler.1 && required_version.2 <= version_compiler.2)) {
            Ok(Vec::new())
        } else {
            Err(
                VersionReport::CompilerVersion {
                    file_path,
                    required: required_version,
                    compiler: version_compiler,
                },
            )
        }
    } else {
        let mut warnings = Vec::new();
        warnings.push(VersionReport::NoVersionPragma { file_path, compiler: version_compiler });
        Ok(warnings)
    }
}

/// The version from which custom templates can be used.
pub open spec fn custom_gates_version() -> Version {
    (2, 0, 6)
}

/// A version written as a tuple: `(2, 0, 6)`.
pub open spec fn version_text(v: Version) -> Seq<char> {
    seq!['('] + nat_text(v.0 as nat) + seq![',', ' '] + nat_text(v.1 as nat) + seq![',', ' '] + nat_text(
        v.2 as nat,
    ) + seq![')']
}

fn push_version(out: &mut String, v: Version)
    ensures
        final(out)@ == old(out)@ + version_text(v),
{
    proof {
        reveal_strlit("(");
        reveal_strlit(", ");
        reveal_strlit(")");
    }
    out.append("(");
    push_u64(out, v.0 as u64);
    out.append(", ");
    push_u64(out, v.1 as u64);
    out.append(", ");
    push_u64(out, v.2 as u64);
    out.append(")");
    proof {
        assert(final(out)@ =~= old(out)@ + version_text(v));
    }
}

/// Checks that custom templates can be used: the version the file asks
/// for, or without one the compiler's, must be at least 2.0.6.
pub fn check_custom_gates_version(
    file_path: String,
    version_file: Option<Version>,
    version_compiler: Version,
) -> (res: Result<(), VersionReport>)
    ensures
        match version_file {
            Some(required) => if version_lt(required, custom_gates_version()) {
                res matches Err(VersionReport::CustomGatesVersion { message }) && message@ == "File "@ + file_path@
                    + " requires at least version "@ + version_text(custom_gates_version())
                    + " to use custom templates (currently "@ + version_text(required) + ")"@
            } else {
                res is Ok
            },
            None => if version_lt(version_compiler, custom_gates_version()) {
                res matches Err(VersionReport::CustomGatesVersion { message }) && message@ == "File "@ + file_path@
                    + " does not include pragma version and the compiler version (currently "@ + version_text(
                    version_compiler,
                ) + ") should be at least "@ + version_text(custom_gates_version()) + " to use custom templates"@
            } else {
                res is Ok
            },
        },
{
    let custom_gates_version: Version = (2, 0, 6);
    if let Some(required_version) = version_file {
        if required_version.0 < custom_gates_version.0 || (required_version.0 == custom_gates_version.0
            && required_version.1 < custom_gates_version.1) || (required_version.0 == custom_gates_version.0
            && required_version.1 == custom_gates_version.1 && required_version.2 < custom_gates_version.2) {
            let mut message = String::from_str("File ");
            message.append(file_path.as_str());
            message.append(" requires at least version ");
            push_version(&mut message, custom_gates_version);
            message.append(" to use custom templates (currently ");
            push_version(&mut message, required_version);
            message.append(")");
            return Err(VersionReport::CustomGatesVersion { message });
        }
    } else if version_compiler.0 < custom_gates_version.0 || (version_compiler.0 == custom_gates_version.0
        && version_compiler.1 < custom_gates_version.1) || (version_compiler.0 == custom_gates_version.0
        && version_compiler.1 == custom_gates_version.1 && version_compiler.2 < custom_gates_version.2) {
        let mut message = String::from_str("File ");
        message.append(file_path.as_str());
        message.append(" does not include pragma version and the compiler version (currently ");
        push_version(&mut message, version_compiler);
        message.append(") should be at least ");
        push_version(&mut message, custom_gates_version);
        message.append(" to use custom templates");
        return Err(VersionReport::CustomGatesVersion { message });
    }
    Ok(())
}

} // verus!
