use bolt::dtype::DType;
use bolt::error::Error;
use bolt::layout::{Layout, LayoutKind, TensorIndexer};
use bolt::shape::ConcreteShape;

#[test]
fn test_broadcast_to_scalar() {
    let shape = ConcreteShape::from_slice(&[]).unwrap();
    let layout = Layout::contiguous(shape);
    let new_shape = ConcreteShape::from_slice(&[2, 3]).unwrap();
    let new_layout = layout.broadcast_to(&new_shape).unwrap();
    assert_eq!(new_layout.shape(), &[2, 3]);
    assert_eq!(new_layout.strides(), &[0, 0]);
}

#[test]
fn test_broadcast_to_vector() {
    let shape = ConcreteShape::from_slice(&[3]).unwrap();
    let layout = Layout::contiguous(shape);
    let new_shape = ConcreteShape::from_slice(&[2, 3]).unwrap();
    let new_layout = layout.broadcast_to(&new_shape).unwrap();
    assert_eq!(new_layout.shape(), &[2, 3]);
    assert_eq!(new_layout.strides(), &[0, 1]);
}

#[test]
fn test_broadcast_to_matrix() {
    let shape = ConcreteShape::from_slice(&[2, 1]).unwrap();
    let layout = Layout::contiguous(shape);
    let new_shape = ConcreteShape::from_slice(&[2, 3]).unwrap();
    let new_layout = layout.broadcast_to(&new_shape).unwrap();
    assert_eq!(new_layout.shape(), &[2, 3]);
    assert_eq!(new_layout.strides(), &[1, 0]);
}

#[test]
fn test_broadcast_binary() {
    let shape1 = ConcreteShape::from_slice(&[2, 1]).unwrap();
    let layout1 = Layout::contiguous(shape1);
    let shape2 = ConcreteShape::from_slice(&[3]).unwrap();
    let layout2 = Layout::contiguous(shape2);
    let (new_layout1, new_layout2) = Layout::broadcast_binary(&layout1, &layout2).unwrap();
    assert_eq!(new_layout1.shape(), &[2, 3]);
    assert_eq!(new_layout1.strides(), &[1, 0]);
    assert_eq!(new_layout2.shape(), &[2, 3]);
    assert_eq!(new_layout2.strides(), &[0, 1]);
}

#[test]
fn test_iter_offsets_contiguous() {
    let shape = ConcreteShape::from_slice(&[2, 3]).unwrap();
    let layout = Layout::contiguous(shape);
    let offsets: Vec<usize> = layout.iter_offsets(DType::F32);
    assert_eq!(offsets, vec![0, 4, 8, 12, 16, 20]);
}

#[test]
fn test_iter_offsets_broadcasted() {
    let shape = ConcreteShape::from_slice(&[2, 1]).unwrap();
    let layout = Layout::contiguous(shape);
    let new_shape = ConcreteShape::from_slice(&[2, 3]).unwrap();
    let new_layout = layout.broadcast_to(&new_shape).unwrap();
    let offsets: Vec<usize> = new_layout.iter_offsets(DType::F32);
    assert_eq!(offsets, vec![0, 0, 0, 4, 4, 4]);
}

fn layout_of(dims: &[usize]) -> Layout {
    Layout::contiguous(ConcreteShape::from_slice(dims).unwrap())
}

#[test]
fn contiguous_layout_has_row_major_strides() {
    let layout = layout_of(&[2, 3, 4]);
    assert_eq!(layout.strides(), &[12, 4, 1]);
    assert_eq!(layout.kind(), LayoutKind::Contiguous);
    assert!(layout.is_contiguous());
    assert_eq!(layout.num_elements(), 24);
    assert_eq!(layout.offset_bytes(), 0);
}

#[test]
fn with_strides_rejects_wrong_rank_and_detects_kind() {
    let shape = ConcreteShape::from_slice(&[2, 3]).unwrap();
    assert!(matches!(Layout::with_strides(shape.clone(), &[1], 0), Err(Error::InvalidShape(_))));
    let general = Layout::with_strides(shape.clone(), &[1, 2], 8).unwrap();
    assert_eq!(general.kind(), LayoutKind::General);
    assert_eq!(general.offset_bytes(), 8);
    let contiguous = Layout::with_strides(shape, &[3, 1], 0).unwrap();
    assert_eq!(contiguous.kind(), LayoutKind::Contiguous);
}

#[test]
fn perform_indexing_selects_and_slices() {
    let layout = layout_of(&[4, 5]);
    let l = layout
        .perform_indexing(&[TensorIndexer::Select(1), TensorIndexer::Slice { start: 1, end: 5, step: 2 }], DType::F32)
        .unwrap();
    assert_eq!(l.shape(), &[2]);
    assert_eq!(l.strides(), &[2]);
    // offset: (1 * 5 + 1 * 1) elements of 4 bytes
    assert_eq!(l.offset_bytes(), 24);
    // missing indexers keep the dimension
    let l2 = layout.perform_indexing(&[TensorIndexer::Select(3)], DType::F64).unwrap();
    assert_eq!(l2.shape(), &[5]);
    assert_eq!(l2.offset_bytes(), 120);
}

#[test]
fn perform_indexing_errors() {
    let layout = layout_of(&[4, 5]);
    let too_many = [TensorIndexer::Select(0), TensorIndexer::Select(0), TensorIndexer::Select(0)];
    assert!(matches!(layout.perform_indexing(&too_many, DType::F32), Err(Error::InvalidShape(_))));
    assert!(matches!(layout.perform_indexing(&[TensorIndexer::Select(4)], DType::F32), Err(Error::InvalidShape(_))));
    let zero_step = [TensorIndexer::Slice { start: 0, end: 2, step: 0 }];
    assert!(matches!(layout.perform_indexing(&zero_step, DType::F32), Err(Error::InvalidShape(_))));
    let out_of_range = [TensorIndexer::Slice { start: 0, end: 6, step: 1 }];
    assert!(matches!(layout.perform_indexing(&out_of_range, DType::F32), Err(Error::InvalidShape(_))));
    // an empty slice gives a zero-sized dimension, which shapes refuse
    let empty = [TensorIndexer::Slice { start: 2, end: 2, step: 1 }];
    assert!(matches!(layout.perform_indexing(&empty, DType::F32), Err(Error::InvalidShape(_))));
}

#[test]
fn slice_keeps_other_axes() {
    let layout = layout_of(&[3, 4]);
    let l = layout.slice(1, 1, 4, 2, DType::F32).unwrap();
    assert_eq!(l.shape(), &[3, 2]);
    assert_eq!(l.strides(), &[4, 2]);
    assert_eq!(l.offset_bytes(), 4);
    assert!(matches!(layout.slice(2, 0, 1, 1, DType::F32), Err(Error::InvalidAxes(_))));
}

#[test]
fn permute_and_transpose() {
    let layout = layout_of(&[2, 3, 4]);
    let p = layout.permute(&[2, 0, 1]).unwrap();
    assert_eq!(p.shape(), &[4, 2, 3]);
    assert_eq!(p.strides(), &[1, 12, 4]);
    assert_eq!(p.kind(), LayoutKind::General);
    assert!(matches!(layout.permute(&[0, 1]), Err(Error::InvalidShape(_))));
    assert!(matches!(layout.permute(&[0, 1, 1]), Err(Error::InvalidShape(_))));
    assert!(matches!(layout.permute(&[0, 1, 3]), Err(Error::InvalidShape(_))));
    let t = layout.transpose(0, 2).unwrap();
    assert_eq!(t.shape(), &[4, 3, 2]);
    assert_eq!(t.strides(), &[1, 4, 12]);
    let back = t.transpose(0, 2).unwrap();
    assert_eq!(back.shape(), layout.shape());
    assert_eq!(back.strides(), layout.strides());
    assert_eq!(back.kind(), LayoutKind::Contiguous);
    assert!(matches!(layout.transpose(0, 3), Err(Error::InvalidShape(_))));
}

#[test]
fn reshape_rules() {
    let layout = layout_of(&[2, 6]);
    let r = layout.reshape(ConcreteShape::from_slice(&[3, 4]).unwrap()).unwrap();
    assert_eq!(r.shape(), &[3, 4]);
    assert_eq!(r.strides(), &[4, 1]);
    match layout.reshape(ConcreteShape::from_slice(&[5]).unwrap()) {
        Err(Error::SizeMismatch { expected, actual }) => {
            assert_eq!(expected, 12);
            assert_eq!(actual, 5);
        }
        _ => panic!("expected a size mismatch"),
    }
    let t = layout.transpose(0, 1).unwrap();
    assert!(matches!(t.reshape(ConcreteShape::from_slice(&[12]).unwrap()), Err(Error::InvalidShape(_))));
}

#[test]
fn broadcast_errors_report_shapes() {
    let layout = layout_of(&[2, 3]);
    match layout.broadcast_to(&ConcreteShape::from_slice(&[4, 3]).unwrap()) {
        Err(Error::ShapeMismatch { lhs, rhs }) => {
            assert_eq!(lhs, vec![2, 3]);
            assert_eq!(rhs, vec![4, 3]);
        }
        _ => panic!("expected a shape mismatch"),
    }
    let a = layout_of(&[2, 3]);
    let b = layout_of(&[4]);
    assert!(matches!(Layout::broadcast_binary(&a, &b), Err(Error::ShapeMismatch { .. })));
}

#[test]
fn bounds_and_offsets() {
    let layout = Layout::contiguous_with_offset(ConcreteShape::from_slice(&[2, 3]).unwrap(), 8);
    assert_eq!(layout.max_offset_bytes(DType::F32).unwrap(), 8 + 20 + 3);
    assert!(layout.validate_bounds(DType::F32, 32).is_ok());
    assert!(matches!(layout.validate_bounds(DType::F32, 31), Err(Error::InvalidShape(_))));
    assert_eq!(layout.offset_bytes_for_indices(&[1, 2], DType::F32).unwrap(), 8 + 20);
    assert!(matches!(layout.offset_bytes_for_indices(&[2, 0], DType::F32), Err(Error::InvalidShape(_))));
    assert!(matches!(layout.offset_bytes_for_indices(&[1], DType::F32), Err(Error::InvalidShape(_))));
    assert_eq!(layout.offset_elements(DType::F32), 2);
    let negative = Layout::with_strides(ConcreteShape::from_slice(&[2]).unwrap(), &[-1], 8).unwrap();
    assert!(matches!(negative.max_offset_bytes(DType::F32), Err(Error::InvalidShape(_))));
    assert_eq!(negative.offset_bytes_for_indices(&[1], DType::F32).unwrap(), 4);
}

#[test]
fn general_offsets_follow_strides() {
    let layout = layout_of(&[2, 3]).transpose(0, 1).unwrap();
    assert_eq!(layout.iter_offsets(DType::F32), vec![0, 12, 4, 16, 8, 20]);
    let scalar = layout_of(&[]);
    assert_eq!(scalar.iter_offsets(DType::U8), vec![0]);
}

#[test]
fn permute_then_inverse_restores_layout() {
    let layout = layout_of(&[2, 3, 4]);
    let p = layout.permute(&[2, 0, 1]).unwrap();
    assert_eq!(p.shape(), &[4, 2, 3]);
    assert_eq!(p.strides(), &[1, 12, 4]);
    let back = p.permute(&[1, 2, 0]).unwrap();
    assert_eq!(back.shape(), layout.shape());
    assert_eq!(back.strides(), layout.strides());
    assert_eq!(back.kind(), LayoutKind::Contiguous);
}

#[test]
fn reshape_there_and_back_restores_layout() {
    let shape = ConcreteShape::from_slice(&[2, 6]).unwrap();
    let layout = Layout::contiguous_with_offset(shape, 8);
    let mid = layout.reshape(ConcreteShape::from_slice(&[3, 4]).unwrap()).unwrap();
    assert_eq!(mid.strides(), &[4, 1]);
    let back = mid.reshape(ConcreteShape::from_slice(&[2, 6]).unwrap()).unwrap();
    assert_eq!(back.shape(), layout.shape());
    assert_eq!(back.strides(), layout.strides());
    assert_eq!(back.offset_bytes(), 8);
}

#[test]
fn broadcast_to_own_shape_is_identity() {
    let base = layout_of(&[2, 3]);
    let t = base.transpose(0, 1).unwrap();
    let same = t.broadcast_to(t.concrete_shape()).unwrap();
    assert_eq!(same.shape(), &[3, 2]);
    assert_eq!(same.strides(), &[1, 3]);
    assert_eq!(same.kind(), LayoutKind::General);
}

#[test]
fn listed_offsets_match_indexed_offsets() {
    let shape = ConcreteShape::from_slice(&[2, 3, 2]).unwrap();
    let base = Layout::contiguous_with_offset(shape, 16);
    let layout = base.permute(&[1, 2, 0]).unwrap();
    let dims = layout.shape().to_vec();
    let offsets = layout.iter_offsets(DType::I64);
    assert_eq!(offsets.len(), 12);
    let mut t = 0;
    for i in 0..dims[0] {
        for j in 0..dims[1] {
            for k in 0..dims[2] {
                let at = layout.offset_bytes_for_indices(&[i, j, k], DType::I64).unwrap();
                assert_eq!(offsets[t], at);
                t += 1;
            }
        }
    }
}

#[test]
fn indexed_layout_reads_source_elements() {
    let base = Layout::contiguous_with_offset(ConcreteShape::from_slice(&[4, 3, 5]).unwrap(), 4);
    let view = base
        .perform_indexing(
            &[
                TensorIndexer::Slice { start: 1, end: 4, step: 2 },
                TensorIndexer::Select(2),
                TensorIndexer::Slice { start: 0, end: 5, step: 3 },
            ],
            DType::F32,
        )
        .unwrap();
    assert_eq!(view.shape(), &[2, 2]);
    for a in 0..2 {
        for b in 0..2 {
            let here = view.offset_bytes_for_indices(&[a, b], DType::F32).unwrap();
            let there = base
                .offset_bytes_for_indices(&[1 + a * 2, 2, b * 3], DType::F32)
                .unwrap();
            assert_eq!(here, there);
        }
    }
}

#[test]
fn broadcast_layout_reads_source_elements() {
    let base = Layout::contiguous_with_offset(ConcreteShape::from_slice(&[3, 1]).unwrap(), 8);
    let wide = base.broadcast_to(&ConcreteShape::from_slice(&[2, 3, 4]).unwrap()).unwrap();
    assert_eq!(wide.strides(), &[0, 1, 0]);
    for a in 0..2 {
        for b in 0..3 {
            for c in 0..4 {
                let here = wide.offset_bytes_for_indices(&[a, b, c], DType::F64).unwrap();
                let there = base.offset_bytes_for_indices(&[b, 0], DType::F64).unwrap();
                assert_eq!(here, there);
            }
        }
    }
}

#[test]
fn permuted_layout_reads_source_elements() {
    let base = Layout::contiguous_with_offset(ConcreteShape::from_slice(&[2, 3, 4]).unwrap(), 2);
    let view = base.permute(&[2, 0, 1]).unwrap();
    for a in 0..4 {
        for b in 0..2 {
            for c in 0..3 {
                let here = view.offset_bytes_for_indices(&[a, b, c], DType::U8).unwrap();
                let there = base.offset_bytes_for_indices(&[b, c, a], DType::U8).unwrap();
                assert_eq!(here, there);
            }
        }
    }
}

#[test]
fn reshape_keeps_listed_offsets() {
    let layout = Layout::contiguous_with_offset(ConcreteShape::from_slice(&[2, 6]).unwrap(), 12);
    let reshaped = layout.reshape(ConcreteShape::from_slice(&[3, 2, 2]).unwrap()).unwrap();
    assert_eq!(reshaped.iter_offsets(DType::I32), layout.iter_offsets(DType::I32));
    assert_eq!(reshaped.iter_offsets(DType::I32)[5], 12 + 5 * 4);
}

#[test]
fn offsets_of_negative_strides() {
    let rev = Layout::with_strides(ConcreteShape::from_slice(&[3]).unwrap(), &[-1], 8).unwrap();
    assert_eq!(rev.iter_offsets(DType::F32), vec![8, 4, 0]);
    let mixed = Layout::with_strides(ConcreteShape::from_slice(&[2, 3]).unwrap(), &[3, -1], 8).unwrap();
    assert_eq!(mixed.iter_offsets(DType::F32), vec![8, 4, 0, 20, 16, 12]);
    for (t, &o) in mixed.iter_offsets(DType::F32).iter().enumerate() {
        assert_eq!(mixed.offset_bytes_for_indices(&[t / 3, t % 3], DType::F32).unwrap(), o);
    }
}

#[test]
fn layout_errors_carry_values() {
    let layout = layout_of(&[2, 3]);
    let msg = |r: Result<Layout, Error>| match r {
        Err(Error::InvalidShape(m)) | Err(Error::InvalidAxes(m)) => m,
        _ => panic!("expected an error"),
    };
    assert_eq!(
        msg(layout.perform_indexing(&[TensorIndexer::Select(0); 3], DType::F32)),
        "too many indices: expected 2, got 3"
    );
    assert_eq!(
        msg(layout.perform_indexing(&[TensorIndexer::Select(0), TensorIndexer::Select(3)], DType::F32)),
        "index 3 out of bounds for dim 1 (size 3)"
    );
    assert_eq!(
        msg(layout.perform_indexing(&[TensorIndexer::Slice { start: 1, end: 4, step: 1 }], DType::F32)),
        "slice range [1, 4) out of bounds for dim 0 (size 2)"
    );
    assert_eq!(msg(layout.slice(2, 0, 1, 1, DType::F32)), "axis 2 out of bounds for rank 2");
    match layout.validate_bounds(DType::F32, 20) {
        Err(Error::InvalidShape(m)) => {
            assert_eq!(m, "layout exceeds buffer bounds: end=23 bytes, buffer_len=20 bytes")
        }
        _ => panic!("expected an error"),
    }
}
