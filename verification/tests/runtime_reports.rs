use circom::constraint_generation::runtime_reports::{
    add_report_to_runtime, memory_error_message, memory_error_report, treat_result_with_memory_error,
    treat_result_with_memory_error_void, MemoryError, ReportKind, SourceLocation, TypeAssignmentError,
    TypeInvalidAccess,
};

fn here() -> SourceLocation {
    SourceLocation { file_id: 2, start: 10, end: 20 }
}

#[test]
fn messages_of_memory_errors() {
    assert_eq!(memory_error_message(&MemoryError::OutOfBoundsError), "Out of bounds exception");
    assert_eq!(
        memory_error_message(&MemoryError::MismatchedDimensions(3, 5)),
        "Typing error found: mismatched dimensions.\n Expected length: 5, given 3"
    );
    assert_eq!(
        memory_error_message(&MemoryError::InvalidAccess(TypeInvalidAccess::MissingInputs("in".to_string()))),
        "Exception caused by invalid access: trying to access to an output signal of a component with not all its inputs initialized.\n Missing input: in"
    );
    assert_eq!(
        memory_error_message(&MemoryError::AssignmentMissingTags("s".to_string(), "t".to_string())),
        "Invalid assignment: missing tags required by input signal. \n Missing tag: input signal s requires tag t"
    );
    assert_eq!(
        memory_error_message(&MemoryError::MissingInputs("c".to_string())),
        "Component c is created but not all its inputs are initialized"
    );
    assert_eq!(
        memory_error_message(&MemoryError::MismatchedDimensionsWeak(2, 4)),
        "Typing warning: Mismatched dimensions, assigning to an array an expression of smaller length, the remaining positions are not modified. Initially all variables are initialized to 0.\n  Expected length: 4, given 2"
    );
    assert_eq!(
        memory_error_message(&MemoryError::MismatchedDimensionsWeak(6, 4)),
        "Typing warning: Mismatched dimensions, assigning to an array an expression of greater length, the remaining positions of the expression are not assigned to the array.\n  Expected length: 4, given 6"
    );
}

#[test]
fn multiple_assignment_points_at_the_earlier_one() {
    let earlier = SourceLocation { file_id: 1, start: 3, end: 4 };
    let r = memory_error_report(&MemoryError::AssignmentError(TypeAssignmentError::MultipleAssignments(earlier)));
    assert!(r.kind == ReportKind::Error);
    assert_eq!(r.secondary.len(), 1);
    assert!(r.secondary[0].location == earlier);
    assert_eq!(r.secondary[0].message, "This is the previous assignment to the variable");
    assert!(r.primary.is_empty() && r.notes.is_empty());
}

#[test]
fn report_is_placed_and_traced() {
    let mut errors = vec![];
    let report = memory_error_report(&MemoryError::UnknownSizeDimension);
    add_report_to_runtime(report, &here(), &mut errors, &["main".to_string(), "f".to_string()]);
    assert_eq!(errors.len(), 1);
    assert_eq!(errors[0].primary.len(), 1);
    assert!(errors[0].primary[0].location == here());
    assert_eq!(errors[0].primary[0].message, "found here");
    assert_eq!(errors[0].notes, vec!["call trace:\n->main\n ->f\n".to_string()]);
}

#[test]
fn void_results() {
    let mut errors = vec![];
    assert_eq!(treat_result_with_memory_error_void(Ok(()), &here(), &mut errors, &[]), Ok(()));
    assert!(errors.is_empty());
    assert_eq!(
        treat_result_with_memory_error_void(Err(MemoryError::MismatchedDimensionsWeak(1, 2)), &here(), &mut errors, &[]),
        Ok(())
    );
    assert_eq!(errors.len(), 1);
    assert!(errors[0].kind == ReportKind::Warning);
    assert_eq!(
        treat_result_with_memory_error_void(Err(MemoryError::AssignmentTagTwice), &here(), &mut errors, &[]),
        Err(())
    );
    assert_eq!(errors.len(), 2);
    assert!(errors[1].kind == ReportKind::Error);
    assert_eq!(errors[1].message, "Invalid assignment: this tag already got a value");
}

#[test]
fn valued_results() {
    let mut errors = vec![];
    assert_eq!(treat_result_with_memory_error(Ok(7u32), &here(), &mut errors, &[]), Ok(7u32));
    assert!(errors.is_empty());
    assert_eq!(
        treat_result_with_memory_error::<u32>(Err(MemoryError::MismatchedInstances), &here(), &mut errors, &[]),
        Err(())
    );
    assert_eq!(errors.len(), 1);
    assert_eq!(errors[0].notes, vec!["call trace:\n".to_string()]);
}
