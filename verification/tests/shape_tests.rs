use bolt::error::Error;
use bolt::shape::{broadcast_shapes, canonical_axes, reduced_shape, ConcreteShape, MAX_ELEMENTS};

#[test]
fn shape_validation() {
    let s = ConcreteShape::from_slice(&[2, 3, 4]).unwrap();
    assert_eq!(s.as_slice(), &[2, 3, 4]);
    assert_eq!(s.rank(), 3);
    assert_eq!(s.num_elements(), 24);
    assert!(matches!(ConcreteShape::from_slice(&[2, 0]), Err(Error::InvalidShape(_))));
    assert!(matches!(ConcreteShape::from_slice(&[1; 13]), Err(Error::InvalidShape(_))));
    // the size check of a dimension comes before the zero check of the next one
    assert!(matches!(
        ConcreteShape::from_slice(&[1 << 40, 1 << 30, 0]),
        Err(Error::TensorTooLarge { limit: MAX_ELEMENTS, requested: usize::MAX })
    ));
}

#[test]
fn shape_too_large_reports_product() {
    match ConcreteShape::from_slice(&[1 << 40, 1 << 30]) {
        Err(Error::TensorTooLarge { limit, requested }) => {
            assert_eq!(limit, MAX_ELEMENTS);
            assert_eq!(requested, usize::MAX);
        }
        _ => panic!("expected TensorTooLarge"),
    }
    match ConcreteShape::from_slice(&[1 << 32, 1 << 31, 7]) {
        Err(Error::TensorTooLarge { requested, .. }) => assert_eq!(requested, 1usize << 63),
        _ => panic!("expected TensorTooLarge"),
    }
}

#[test]
fn contiguous_strides_are_suffix_products() {
    let s = ConcreteShape::from_slice(&[2, 3, 4]).unwrap();
    assert_eq!(s.contiguous_strides().as_slice(), &[12, 4, 1]);
    let scalar = ConcreteShape::from_slice(&[]).unwrap();
    assert_eq!(scalar.num_elements(), 1);
    assert!(scalar.contiguous_strides().is_empty());
}

#[test]
fn broadcast_shapes_rules() {
    assert_eq!(broadcast_shapes(&[2, 1], &[3]).unwrap(), vec![2, 3]);
    assert_eq!(broadcast_shapes(&[5, 1, 4], &[3, 1]).unwrap(), vec![5, 3, 4]);
    assert_eq!(broadcast_shapes(&[], &[2]).unwrap(), vec![2]);
    match broadcast_shapes(&[2, 3], &[4, 3]) {
        Err(Error::ShapeMismatch { lhs, rhs }) => {
            assert_eq!(lhs, vec![2, 3]);
            assert_eq!(rhs, vec![4, 3]);
        }
        _ => panic!("expected a shape mismatch"),
    }
}

#[test]
fn broadcast_shapes_is_symmetric() {
    assert_eq!(broadcast_shapes(&[1, 4], &[3, 1]).unwrap(), broadcast_shapes(&[3, 1], &[1, 4]).unwrap());
}

#[test]
fn canonical_axes_rules() {
    assert_eq!(canonical_axes(&[], 3).unwrap(), vec![0, 1, 2]);
    assert_eq!(canonical_axes(&[2, 0], 3).unwrap(), vec![0, 2]);
    assert!(matches!(canonical_axes(&[3], 3), Err(Error::InvalidAxes(_))));
    assert!(matches!(canonical_axes(&[1, 1], 3), Err(Error::InvalidAxes(_))));
}

#[test]
fn reduced_shape_rules() {
    assert_eq!(reduced_shape(&[2, 3, 4], &[1]).unwrap(), vec![2, 4]);
    assert_eq!(reduced_shape(&[2, 3, 4], &[2, 0]).unwrap(), vec![3]);
    assert_eq!(reduced_shape(&[2, 3, 4], &[]).unwrap(), Vec::<usize>::new());
    assert!(matches!(reduced_shape(&[2, 3], &[2]), Err(Error::InvalidAxes(_))));
}

#[test]
fn broadcast_with_self_and_scalar() {
    assert_eq!(broadcast_shapes(&[2, 1, 3], &[2, 1, 3]).unwrap(), vec![2, 1, 3]);
    assert_eq!(broadcast_shapes(&[4, 5], &[]).unwrap(), vec![4, 5]);
    assert_eq!(broadcast_shapes(&[], &[4, 5]).unwrap(), vec![4, 5]);
}

#[test]
fn axes_errors_name_the_axis() {
    match canonical_axes(&[0, 5, 5], 3) {
        Err(Error::InvalidAxes(m)) => assert_eq!(m, "axis 5 out of bounds for rank 3"),
        _ => panic!("expected an axes error"),
    }
    match reduced_shape(&[2, 3, 4], &[2, 0, 2]) {
        Err(Error::InvalidAxes(m)) => assert_eq!(m, "axis 2 provided twice"),
        _ => panic!("expected an axes error"),
    }
}
