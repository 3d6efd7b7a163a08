use circom::constraint_generation::analysis::{Analysis, ValuePOS};

fn point_is_val(p: &ValuePOS, bytes: &[u8]) -> bool {
    match p {
        ValuePOS::Val(v) => v.as_slice() == bytes,
        _ => false,
    }
}

#[test]
fn fresh_analysis_knows_nothing() {
    let a = Analysis::new(3);
    for id in 0..3 {
        assert!(!Analysis::is_reached(&a, id));
        assert_eq!(Analysis::read_computed(&a, id), None);
    }
}

#[test]
fn reached_marks_one_node() {
    let mut a = Analysis::new(3);
    Analysis::reached(&mut a, 1);
    assert!(!Analysis::is_reached(&a, 0));
    assert!(Analysis::is_reached(&a, 1));
    assert!(!Analysis::is_reached(&a, 2));
}

#[test]
fn one_number_is_kept() {
    let mut a = Analysis::new(2);
    Analysis::computed(&mut a, 0, Some(vec![5]));
    assert_eq!(Analysis::read_computed(&a, 0), Some(vec![5]));
    Analysis::computed(&mut a, 0, Some(vec![5]));
    assert_eq!(Analysis::read_computed(&a, 0), Some(vec![5]));
    assert_eq!(Analysis::read_computed(&a, 1), None);
}

#[test]
fn two_numbers_give_none() {
    let mut a = Analysis::new(1);
    Analysis::computed(&mut a, 0, Some(vec![5]));
    Analysis::computed(&mut a, 0, Some(vec![6]));
    assert_eq!(Analysis::read_computed(&a, 0), None);
    Analysis::computed(&mut a, 0, Some(vec![5]));
    assert_eq!(Analysis::read_computed(&a, 0), None);
}

#[test]
fn non_number_gives_none() {
    let mut a = Analysis::new(1);
    Analysis::computed(&mut a, 0, Some(vec![1, 2]));
    Analysis::computed(&mut a, 0, None);
    assert_eq!(Analysis::read_computed(&a, 0), None);
}

#[test]
fn least_upper_bound_cases() {
    let b = ValuePOS::Bottom;
    let t = ValuePOS::Top;
    let v = ValuePOS::Val(vec![7, 1]);
    let w = ValuePOS::Val(vec![8]);
    assert!(matches!(ValuePOS::least_upper_bound(&b, &b), ValuePOS::Bottom));
    assert!(point_is_val(&ValuePOS::least_upper_bound(&b, &v), &[7, 1]));
    assert!(point_is_val(&ValuePOS::least_upper_bound(&v, &b), &[7, 1]));
    assert!(point_is_val(&ValuePOS::least_upper_bound(&v, &v), &[7, 1]));
    assert!(matches!(ValuePOS::least_upper_bound(&v, &w), ValuePOS::Top));
    assert!(matches!(ValuePOS::least_upper_bound(&t, &b), ValuePOS::Top));
    assert!(matches!(ValuePOS::least_upper_bound(&b, &t), ValuePOS::Top));
    assert!(matches!(ValuePOS::least_upper_bound(&v, &t), ValuePOS::Top));
}
