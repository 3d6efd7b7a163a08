//! The reports that execution files when a memory access or an assignment
//! goes wrong: which message each error gives, whether it is a warning or an
//! error, and whether execution goes on.

use vstd::prelude::*;
use vstd::string::StringExecFns;
use crate::text::{nat_text, push_u64};
use crate::constraint_generation::symbols::{call_trace_note, call_trace_text};

verus! {

/// A place in a source file: the file's number and the range of characters.
#[derive(Clone, Copy, PartialEq, Eq, Structural)]
pub struct SourceLocation {
    pub file_id: usize,
    pub start: usize,
    pub end: usize,
}

/// Whether a report stops the compilation.
#[derive(Clone, Copy, PartialEq, Eq, Structural)]
pub enum ReportKind {
    Error,
    Warning,
}

/// A message attached to a place in a source file.
pub struct Label {
    pub location: SourceLocation,
    pub message: String,
}

/// A report found at run time: its kind and message, the places it points
/// at and its notes.
pub struct RuntimeReport {
    pub kind: ReportKind,
    pub message: String,
    pub primary: Vec<Label>,
    pub secondary: Vec<Label>,
    pub notes: Vec<String>,
}

/// A report taken by value.
pub struct ReportView {
    pub kind: ReportKind,
    pub message: Seq<char>,
    pub primary: Seq<(SourceLocation, Seq<char>)>,
    pub secondary: Seq<(SourceLocation, Seq<char>)>,
    pub notes: Seq<Seq<char>>,
}

/// A label taken by value.
pub open spec fn label_view(l: Label) -> (SourceLocation, Seq<char>) {
    (l.location, l.message@)
}

/// A report taken by value.
pub open spec fn report_view(r: RuntimeReport) -> ReportView {
    ReportView {
        kind: r.kind,
        message: r.message@,
        primary: r.primary@.map_values(|l: Label| label_view(l)),
        secondary: r.secondary@.map_values(|l: Label| label_view(l)),
        notes: r.notes@.map_values(|s: String| s@),
    }
}

/// A list of reports taken by value.
pub open spec fn reports_view(rs: Seq<RuntimeReport>) -> Seq<ReportView> {
    rs.map_values(|r: RuntimeReport| report_view(r))
}

/// Why an access to a value failed.
pub enum TypeInvalidAccess {
    MissingInputs(String),
    MissingInputTags(String),
    NoInitializedComponent,
    NoInitializedSignal,
    NoInitializedBus,
}

/// Why an assignment failed; `MultipleAssignments` carries the place of the
/// earlier assignment.
pub enum TypeAssignmentError {
    MultipleAssignmentsComponent,
    MultipleAssignmentsBus,
    MultipleAssignments(SourceLocation),
    AssignmentInput(String),
    AssignmentOutput,
    NoInitializedComponent,
    DifferentBusInstances,
}

/// What can go wrong when execution reads or writes memory. The dimensions
/// are given as (given length, expected length).
pub enum MemoryError {
    InvalidAccess(TypeInvalidAccess),
    AssignmentError(TypeAssignmentError),
    OutOfBoundsError,
    AssignmentMissingTags(String, String),
    AssignmentTagAfterInit,
    AssignmentTagTwice,
    AssignmentTagInputTwice(String, String),
    AssignmentTagInput,
    MismatchedDimensions(usize, usize),
    MismatchedDimensionsWeak(usize, usize),
    MismatchedInstances,
    UnknownSizeDimension,
    TagValueNotInitializedAccess,
    MissingInputs(String),
}

/// The message of the report that `e` gives.
pub open spec fn memory_error_text(e: MemoryError) -> Seq<char> {
    match e {
        MemoryError::InvalidAccess(a) => match a {
            TypeInvalidAccess::MissingInputs(input) =>
                "Exception caused by invalid access: trying to access to an output signal of a component with not all its inputs initialized.\n Missing input: "@
                    + input@,
            TypeInvalidAccess::MissingInputTags(input) =>
                "Exception caused by invalid access: trying to access to a signal of a component with not all its inputs with tags initialized.\n Missing input (with tags): "@
                    + input@,
            TypeInvalidAccess::NoInitializedComponent =>
                "Exception caused by invalid access: trying to access to a component that is not initialized"@,
            TypeInvalidAccess::NoInitializedSignal =>
                "Exception caused by invalid access: trying to access to a signal that is not initialized"@,
            TypeInvalidAccess::NoInitializedBus =>
                "Exception caused by invalid access: trying to access to a bus whose fields have not been completely initialized"@,
        },
        MemoryError::AssignmentError(a) => match a {
            TypeAssignmentError::MultipleAssignmentsComponent =>
                "Exception caused by invalid assignment\n The component has been assigned previously"@,
            TypeAssignmentError::MultipleAssignmentsBus =>
                "Exception caused by invalid assignment\n Bus contains fields that have been previously initialized"@,
            TypeAssignmentError::MultipleAssignments(_) =>
                "Exception caused by invalid assignment\n Signal has been already assigned"@,
            TypeAssignmentError::AssignmentInput(signal) =>
                "Invalid assignment: input signals of a template already have a value when the template is executed and cannot be re-assigned. \n Problematic input signal: "@
                    + signal@,
            TypeAssignmentError::AssignmentOutput =>
                "Exception caused by invalid assignment: trying to assign a value to an output signal of a component"@,
            TypeAssignmentError::NoInitializedComponent =>
                "Exception caused by invalid assignment: trying to assign a value to a signal of a component that has not been initialized"@,
            TypeAssignmentError::DifferentBusInstances =>
                "Exception caused by invalid assignment: trying to assign a different instance of the bus. The instances of the buses should be equal"@,
        },
        MemoryError::OutOfBoundsError => "Out of bounds exception"@,
        MemoryError::AssignmentMissingTags(signal, tag) =>
            "Invalid assignment: missing tags required by input signal. \n Missing tag: input signal "@
                + signal@ + " requires tag "@ + tag@,
        MemoryError::AssignmentTagAfterInit =>
            "Invalid assignment: tags cannot be assigned to a signal already initialized"@,
        MemoryError::AssignmentTagTwice => "Invalid assignment: this tag already got a value"@,
        MemoryError::AssignmentTagInputTwice(signal, tag) =>
            "Invalid assignment: tags required by the input signal always have to have the same value. \n Problematic tag: input signal "@
                + signal@ + " already has a different value for tag "@ + tag@,
        MemoryError::AssignmentTagInput =>
            "Invalid assignment: this tag belongs to an input which already got a value"@,
        MemoryError::MismatchedDimensions(given, orig) =>
            "Typing error found: mismatched dimensions.\n Expected length: "@ + nat_text(orig as nat)
                + ", given "@ + nat_text(given as nat),
        MemoryError::MismatchedDimensionsWeak(given, orig) => if given < orig {
            "Typing warning: Mismatched dimensions, assigning to an array an expression of smaller length, the remaining positions are not modified. Initially all variables are initialized to 0.\n  Expected length: "@
                + nat_text(orig as nat) + ", given "@ + nat_text(given as nat)
        } else {
            "Typing warning: Mismatched dimensions, assigning to an array an expression of greater length, the remaining positions of the expression are not assigned to the array.\n  Expected length: "@
                + nat_text(orig as nat) + ", given "@ + nat_text(given as nat)
        },
        MemoryError::MismatchedInstances =>
            "Typing error found: mismatched instances.\n Trying to compare two different instances of a bus, the instances must be equal"@,
        MemoryError::UnknownSizeDimension => "Array dimension with unknown size"@,
        MemoryError::TagValueNotInitializedAccess => "Tag value has not been previously initialized"@,
        MemoryError::MissingInputs(name) =>
            "Component "@ + name@ + " is created but not all its inputs are initialized"@,
    }
}

/// The report that `e` gives before it is placed: a warning for a weak
/// mismatch of dimensions, an error otherwise, with the place of the earlier
/// assignment where a signal was assigned twice.
pub open spec fn memory_error_spec(e: MemoryError) -> ReportView {
    ReportView {
        kind: if e is MismatchedDimensionsWeak {
            ReportKind::Warning
        } else {
            ReportKind::Error
        },
        message: memory_error_text(e),
        primary: Seq::empty(),
        secondary: match e {
            MemoryError::AssignmentError(TypeAssignmentError::MultipleAssignments(loc)) => seq![
                (loc, "This is the previous assignment to the variable"@),
            ],
            _ => Seq::empty(),
        },
        notes: Seq::empty(),
    }
}

/// `r` placed at `meta`, with the note of the calls `call_trace`.
pub open spec fn placed(r: ReportView, meta: SourceLocation, call_trace: Seq<Seq<char>>) -> ReportView {
    ReportView {
        primary: r.primary.push((meta, "found here"@)),
        notes: r.notes.push(call_trace_text(call_trace)),
        ..r
    }
}

/// The texts of `call_trace`.
pub open spec fn trace_view(call_trace: Seq<String>) -> Seq<Seq<char>> {
    call_trace.map_values(|s: String| s@)
}

fn concat(a: &str, b: &str) -> (res: String)
    ensures
        res@ == a@ + b@,
{
    let mut s = String::from_str(a);
    s.append(b);
    s
}

fn concat4(a: &str, b: &str, c: &str, d: &str) -> (res: String)
    ensures
        res@ == a@ + b@ + c@ + d@,
{
    let mut s = String::from_str(a);
    s.append(b);
    s.append(c);
    s.append(d);
    s
}

fn dims_text(a: &str, orig: usize, b: &str, given: usize) -> (res: String)
    ensures
        res@ == a@ + nat_text(orig as nat) + b@ + nat_text(given as nat),
{
    let mut s = String::from_str(a);
    push_u64(&mut s, orig as u64);
    s.append(b);
    push_u64(&mut s, given as u64);
    s
}

fn plain(s: &str) -> (res: String)
    ensures
        res@ == s@,
{
    String::from_str(s)
}

/// The message of the report that `e` gives.
pub fn memory_error_message(e: &MemoryError) -> (res: String)
    ensures
        res@ == memory_error_text(*e),
{
    match e {
        MemoryError::InvalidAccess(a) => match a {
            TypeInvalidAccess::MissingInputs(input) => concat(
                "Exception caused by invalid access: trying to access to an output signal of a component with not all its inputs initialized.\n Missing input: ",
                input.as_str(),
            ),
            TypeInvalidAccess::MissingInputTags(input) => concat(
                "Exception caused by invalid access: trying to access to a signal of a component with not all its inputs with tags initialized.\n Missing input (with tags): ",
                input.as_str(),
            ),
            TypeInvalidAccess::NoInitializedComponent => plain(
                "Exception caused by invalid access: trying to access to a component that is not initialized",
            ),
            TypeInvalidAccess::NoInitializedSignal => plain(
                "Exception caused by invalid access: trying to access to a signal that is not initialized",
            ),
            TypeInvalidAccess::NoInitializedBus => plain(
                "Exception caused by invalid access: trying to access to a bus whose fields have not been completely initialized",
            ),
        },
        MemoryError::AssignmentError(a) => match a {
            TypeAssignmentError::MultipleAssignmentsComponent => plain(
                "Exception caused by invalid assignment\n The component has been assigned previously",
            ),
            TypeAssignmentError::MultipleAssignmentsBus => plain(
                "Exception caused by invalid assignment\n Bus contains fields that have been previously initialized",
            ),
            TypeAssignmentError::MultipleAssignments(_) => plain(
                "Exception caused by invalid assignment\n Signal has been already assigned",
            ),
            TypeAssignmentError::AssignmentInput(signal) => concat(
                "Invalid assignment: input signals of a template already have a value when the template is executed and cannot be re-assigned. \n Problematic input signal: ",
                signal.as_str(),
            ),
            TypeAssignmentError::AssignmentOutput => plain(
                "Exception caused by invalid assignment: trying to assign a value to an output signal of a component",
            ),
            TypeAssignmentError::NoInitializedComponent => plain(
                "Exception caused by invalid assignment: trying to assign a value to a signal of a component that has not been initialized",
            ),
            TypeAssignmentError::DifferentBusInstances => plain(
                "Exception caused by invalid assignment: trying to assign a different instance of the bus. The instances of the buses should be equal",
            ),
        },
        MemoryError::OutOfBoundsError => plain("Out of bounds exception"),
        MemoryError::AssignmentMissingTags(signal, tag) => concat4(
            "Invalid assignment: missing tags required by input signal. \n Missing tag: input signal ",
            signal.as_str(),
            " requires tag ",
            tag.as_str(),
        ),
        MemoryError::AssignmentTagAfterInit => plain(
            "Invalid assignment: tags cannot be assigned to a signal already initialized",
        ),
        MemoryError::AssignmentTagTwice => plain("Invalid assignment: this tag already got a value"),
        MemoryError::AssignmentTagInputTwice(signal, tag) => concat4(
            "Invalid assignment: tags required by the input signal always have to have the same value. \n Problematic tag: input signal ",
            signal.as_str(),
            " already has a different value for tag ",
            tag.as_str(),
        ),
        MemoryError::AssignmentTagInput => plain(
            "Invalid assignment: this tag belongs to an input which already got a value",
        ),
        MemoryError::MismatchedDimensions(given, orig) => dims_text(
            "Typing error found: mismatched dimensions.\n Expected length: ",
            *orig,
            ", given ",
            *given,
        ),
        MemoryError::MismatchedDimensionsWeak(given, orig) => {
            if *given < *orig {
                dims_text(
                    "Typing warning: Mismatched dimensions, assigning to an array an expression of smaller length, the remaining positions are not modified. Initially all variables are initialized to 0.\n  Expected length: ",
                    *orig,
                    ", given ",
                    *given,
                )
            } else {
                dims_text(
                    "Typing warning: Mismatched dimensions, assigning to an array an expression of greater length, the remaining positions of the expression are not assigned to the array.\n  Expected length: ",
                    *orig,
                    ", given ",
                    *given,
                )
            }
        },
        MemoryError::MismatchedInstances => plain(
            "Typing error found: mismatched instances.\n Trying to compare two different instances of a bus, the instances must be equal",
        ),
        MemoryError::UnknownSizeDimension => plain("Array dimension with unknown size"),
        MemoryError::TagValueNotInitializedAccess => plain("Tag value has not been previously initialized"),
        MemoryError::MissingInputs(name) => {
            let mut s = concat("Component ", name.as_str());
            s.append(" is created but not all its inputs are initialized");
            s
        },
    }
}

/// The report that `e` gives, not yet placed.
pub fn memory_error_report(e: &MemoryError) -> (res: RuntimeReport)
    ensures
        report_view(res) == memory_error_spec(*e),
{
    let message = memory_error_message(e);
    let kind = match e {
        MemoryError::MismatchedDimensionsWeak(..) => ReportKind::Warning,
        _ => ReportKind::Error,
    };
    let mut secondary: Vec<Label> = Vec::new();
    match e {
        MemoryError::AssignmentError(TypeAssignmentError::MultipleAssignments(loc)) => {
            secondary.push(Label { location: *loc, message: plain("This is the previous assignment to the variable") });
        },
        _ => {},
    }
    let res = RuntimeReport { kind, message, primary: Vec::new(), secondary, notes: Vec::new() };
    proof {
        assert(report_view(res).primary =~= Seq::<(SourceLocation, Seq<char>)>::empty());
        assert(report_view(res).notes =~= Seq::<Seq<char>>::empty());
        assert(report_view(res).secondary =~= memory_error_spec(*e).secondary);
    }
    res
}

/// Places `report` at `meta`, notes the calls `call_trace` that led to it,
/// and files it in `runtime_errors`.
pub fn add_report_to_runtime(
    report: RuntimeReport,
    meta: &SourceLocation,
    runtime_errors: &mut Vec<RuntimeReport>,
    call_trace: &[String],
)
    ensures
        reports_view(final(runtime_errors)@) == reports_view(old(runtime_errors)@).push(
            placed(report_view(report), *meta, trace_view(call_trace@)),
        ),
{
    let mut report = report;
    let ghost r0 = report_view(report);
    report.primary.push(Label { location: *meta, message: plain("found here") });
    report.notes.push(call_trace_note(call_trace));
    proof {
        assert(report_view(report).primary =~= r0.primary.push((*meta, "found here"@)));
        assert(report_view(report).notes =~= r0.notes.push(call_trace_text(trace_view(call_trace@))));
        assert(report_view(report) == placed(r0, *meta, trace_view(call_trace@)));
    }
    let ghost before = runtime_errors@;
    runtime_errors.push(report);
    proof {
        assert(reports_view(runtime_errors@) =~= reports_view(before).push(
            placed(r0, *meta, trace_view(call_trace@)),
        ));
    }
}

/// Handles the outcome of a memory operation that yields nothing. `Ok`
/// stays `Ok`; a weak mismatch of dimensions files a warning and goes on
/// with `Ok`; any other error files an error and gives `Err`.
pub fn treat_result_with_memory_error_void(
    memory_error: Result<(), MemoryError>,
    meta: &SourceLocation,
    runtime_errors: &mut Vec<RuntimeReport>,
    call_trace: &[String],
) -> (res: Result<(), ()>)
    ensures
        match memory_error {
            Ok(()) => res is Ok && final(runtime_errors)@ == old(runtime_errors)@,
            Err(e) => {
                &&& (res is Ok <==> e is MismatchedDimensionsWeak)
                &&& reports_view(final(runtime_errors)@) == reports_view(old(runtime_errors)@).push(
                    placed(memory_error_spec(e), *meta, trace_view(call_trace@)),
                )
            },
        },
{
    match memory_error {
        Ok(()) => Ok(()),
        Err(e) => {
            let report = memory_error_report(&e);
            add_report_to_runtime(report, meta, runtime_errors, call_trace);
            match e {
                MemoryError::MismatchedDimensionsWeak(..) => Ok(()),
                _ => Err(()),
            }
        },
    }
}

/// Handles the outcome of a memory operation. `Ok(c)` stays `Ok(c)`; an
/// error files its report and gives `Err`. A weak mismatch of dimensions is
/// never handed here.
pub fn treat_result_with_memory_error<C>(
    memory_error: Result<C, MemoryError>,
    meta: &SourceLocation,
    runtime_errors: &mut Vec<RuntimeReport>,
    call_trace: &[String],
) -> (res: Result<C, ()>)
    requires
        !(memory_error matches Err(MemoryError::MismatchedDimensionsWeak(..))),
    ensures
        match memory_error {
            Ok(c) => res == Ok::<C, ()>(c) && final(runtime_errors)@ == old(runtime_errors)@,
            Err(e) => {
                &&& res is Err
                &&& reports_view(final(runtime_errors)@) == reports_view(old(runtime_errors)@).push(
                    placed(memory_error_spec(e), *meta, trace_view(call_trace@)),
                )
            },
        },
{
    match memory_error {
        Ok(c) => Ok(c),
        Err(e) => {
            let report = memory_error_report(&e);
            add_report_to_runtime(report, meta, runtime_errors, call_trace);
            Err(())
        },
    }
}

} // verus!
