use bolt::autodiff::error::TensorError;
use bolt::autodiff::grad::NoGradGuard;
use bolt::autodiff::ops::{
    add_mode, check_backward, check_from_vec, check_reshape, cross_entropy_dims, matmul_dims, numel,
    records_graph, AddMode,
};

#[test]
fn numel_and_from_vec() {
    assert_eq!(numel(&[2, 3, 4]), 24);
    assert_eq!(numel(&[]), 1);
    assert_eq!(numel(&[5, 0]), 0);
    assert!(check_from_vec(&[2, 3], 6).is_ok());
    match check_from_vec(&[2, 3], 5) {
        Err(TensorError::Shape(msg)) => assert_eq!(msg, "from_vec: expected numel 6, got data.len 5"),
        _ => panic!("expected a shape error"),
    }
    assert!(check_reshape(&[3, 2], 6).is_ok());
    assert!(matches!(check_reshape(&[4], 6), Err(TensorError::Shape(_))));
}

#[test]
fn matmul_shape_rule() {
    assert_eq!(matmul_dims(&[2, 3], &[3, 4]).unwrap(), (2, 3, 4));
    assert!(matches!(matmul_dims(&[2, 3], &[4, 4]), Err(TensorError::Shape(_))));
    assert!(matches!(matmul_dims(&[6], &[6, 1]), Err(TensorError::Shape(_))));
}

#[test]
fn add_shape_rule() {
    assert_eq!(add_mode(&[2, 3], &[2, 3]).unwrap(), AddMode::Same);
    assert_eq!(add_mode(&[4, 3], &[3]).unwrap(), AddMode::RowBroadcast { m: 4, n: 3 });
    match add_mode(&[4, 3], &[4]) {
        Err(TensorError::Shape(msg)) => assert_eq!(msg, "add: unsupported shapes [4, 3] + [4]"),
        _ => panic!("expected a shape error"),
    }
}

#[test]
fn cross_entropy_shape_rule() {
    assert_eq!(cross_entropy_dims(&[2, 3], 2).unwrap(), (2, 3));
    assert!(matches!(cross_entropy_dims(&[2, 3], 3), Err(TensorError::Shape(_))));
    assert!(matches!(cross_entropy_dims(&[6], 6), Err(TensorError::Shape(_))));
}

#[test]
fn backward_start_rule() {
    assert!(check_backward(1, true).is_ok());
    assert!(matches!(check_backward(2, true), Err(TensorError::Backward(_))));
    assert!(matches!(check_backward(1, false), Err(TensorError::Backward(_))));
}

#[test]
fn no_grad_regions_restore_the_flag() {
    let (outer, flag) = NoGradGuard::enter(true);
    assert!(!flag);
    let (inner, flag2) = NoGradGuard::enter(flag);
    assert!(!flag2);
    assert!(!inner.restore());
    assert!(outer.restore());
}

#[test]
fn no_grad_region_keeps_results_out_of_the_graph() {
    let (guard, flag) = NoGradGuard::enter(true);
    assert!(!flag);
    // An addition of two tensors that require gradients, inside the region.
    let y_requires_grad = records_graph(flag, true);
    assert!(!y_requires_grad);
    // The region ends; a sum of that result still stays out of the graph.
    let enabled = guard.restore();
    assert!(enabled);
    let s_requires_grad = records_graph(enabled, y_requires_grad);
    assert!(!s_requires_grad);
    assert!(matches!(check_backward(1, s_requires_grad), Err(TensorError::Backward(_))));
    assert!(records_graph(true, true));
}

#[test]
fn add_error_writes_both_shapes() {
    match add_mode(&[2, 13], &[4]) {
        Err(TensorError::Shape(msg)) => assert_eq!(msg, "add: unsupported shapes [2, 13] + [4]"),
        _ => panic!("expected a shape error"),
    }
    match add_mode(&[], &[105]) {
        Err(TensorError::Shape(msg)) => assert_eq!(msg, "add: unsupported shapes [] + [105]"),
        _ => panic!("expected a shape error"),
    }
}
