use bolt::error::Error;
use bolt::index::TensorIndex;
use bolt::layout::TensorIndexer;

fn slice(start: usize, end: usize) -> TensorIndexer {
    TensorIndexer::Slice { start, end, step: 1 }
}

#[test]
fn single_indices() {
    assert_eq!(3usize.to_indexers(&[5]).unwrap(), vec![TensorIndexer::Select(3)]);
    assert_eq!((1..3).to_indexers(&[5]).unwrap(), vec![slice(1, 3)]);
    assert_eq!((1..=3).to_indexers(&[5]).unwrap(), vec![slice(1, 4)]);
    assert_eq!((2..).to_indexers(&[5]).unwrap(), vec![slice(2, 5)]);
    assert_eq!((..4).to_indexers(&[5]).unwrap(), vec![slice(0, 4)]);
    assert_eq!((..).to_indexers(&[5]).unwrap(), vec![slice(0, 5)]);
    assert_eq!((..).to_indexers(&[]).unwrap(), Vec::<TensorIndexer>::new());
    assert!(matches!((2..).to_indexers(&[]), Err(Error::InvalidShape(_))));
    assert!(matches!((0..=usize::MAX).to_indexers(&[5]), Err(Error::InvalidShape(_))));
}

#[test]
fn tuple_indices_consume_dimensions_in_turn() {
    let ixs = (1usize, 2.., ..).to_indexers(&[4, 5, 6]).unwrap();
    assert_eq!(ixs, vec![TensorIndexer::Select(1), slice(2, 5), slice(0, 6)]);
    let ixs = (.., ..).to_indexers(&[3]).unwrap();
    assert_eq!(ixs, vec![slice(0, 3)]);
    assert!(matches!((0usize, 1..).to_indexers(&[3]), Err(Error::InvalidShape(_))));
    let six = (0usize, 0usize, 0usize, 0usize, 0usize, 0usize).to_indexers(&[1; 6]).unwrap();
    assert_eq!(six.len(), 6);
}
