use dendritic::ndarray::NDArray;

fn key(x: f64) -> i64 {
    let b = x.to_bits() as i64;
    if b >= 0 {
        b
    } else {
        b ^ 0x7fff_ffff_ffff_ffff
    }
}

#[test]
fn test_new_shape_size() {
    let nd: NDArray<i64> = NDArray::new(vec![2, 3, 4]).unwrap();
    assert_eq!(nd.rank(), 3);
    assert_eq!(nd.size(), 24);
    assert_eq!(nd.shape().dims(), &vec![2, 3, 4]);
    assert_eq!(nd.values().len(), 24);
}

#[test]
fn test_new_overflow_rejected() {
    let r: Result<NDArray<i64>, String> = NDArray::new(vec![usize::MAX, usize::MAX]);
    assert!(r.is_err());
}

#[test]
fn test_array_and_size_mismatch() {
    let ok: NDArray<i64> = NDArray::array(vec![2, 2], vec![1, 2, 3, 4]).unwrap();
    assert_eq!(ok.values(), &vec![1, 2, 3, 4]);
    let bad: Result<NDArray<i64>, String> = NDArray::array(vec![2, 2], vec![1, 2, 3]);
    assert!(bad.is_err());
}

#[test]
fn test_reshape() {
    let mut nd: NDArray<i64> = NDArray::array(vec![2, 3], vec![1, 2, 3, 4, 5, 6]).unwrap();
    assert!(nd.reshape(vec![3, 2]).is_ok());
    assert_eq!(nd.shape().dims(), &vec![3, 2]);
    // rank mismatch
    assert!(nd.reshape(vec![6]).is_err());
    // size mismatch
    assert!(nd.reshape(vec![4, 2]).is_err());
    // values untouched throughout
    assert_eq!(nd.values(), &vec![1, 2, 3, 4, 5, 6]);
}

#[test]
fn test_index_offset_formula() {
    let nd: NDArray<i64> = NDArray::new(vec![2, 3, 4]).unwrap();
    // row-major: offset = 1*12 + 2*4 + 3
    assert_eq!(nd.index(vec![1, 2, 3]).unwrap(), 23);
    assert_eq!(nd.index(vec![0, 0, 0]).unwrap(), 0);
}

#[test]
fn test_index_errors() {
    let nd: NDArray<i64> = NDArray::new(vec![2, 3]).unwrap();
    // arity mismatch
    assert!(nd.index(vec![1]).is_err());
    // out of bounds linear offset
    assert!(nd.index(vec![5, 2]).is_err());
}

#[test]
fn test_indices_inverse() {
    let nd: NDArray<i64> = NDArray::new(vec![2, 3, 4]).unwrap();
    assert_eq!(nd.indices(23).unwrap(), vec![1, 2, 3]);
    assert_eq!(nd.indices(0).unwrap(), vec![0, 0, 0]);
    assert!(nd.indices(24).is_err());
}

#[test]
fn test_set_get_idx() {
    let mut nd: NDArray<i64> = NDArray::new(vec![2, 2]).unwrap();
    nd.set(vec![1, 0], 7).unwrap();
    assert_eq!(*nd.get(vec![1, 0]), 7);
    assert_eq!(*nd.idx(2), 7);
    nd.set_idx(3, 9).unwrap();
    assert_eq!(*nd.idx(3), 9);
    assert!(nd.set_idx(4, 1).is_err());
    assert!(nd.set(vec![2, 0], 1).is_err());
}

#[test]
fn test_fill() {
    let mut nd: NDArray<i64> = NDArray::new(vec![3]).unwrap();
    nd.fill(5);
    assert_eq!(nd.values(), &vec![5, 5, 5]);
}

#[test]
fn test_rows_and_cols() {
    let nd: NDArray<i64> = NDArray::array(vec![2, 3], vec![1, 2, 3, 4, 5, 6]).unwrap();
    assert_eq!(nd.rows(0).unwrap(), vec![1, 2, 3]);
    assert_eq!(nd.rows(1).unwrap(), vec![4, 5, 6]);
    assert!(nd.rows(2).is_err());
    assert_eq!(nd.cols(0).unwrap(), vec![1, 4]);
    assert_eq!(nd.cols(2).unwrap(), vec![3, 6]);
    assert!(nd.cols(3).is_err());
}

#[test]
fn test_batch_two_chunks() {
    // a rank-2 tensor with shape [10, 3] and batch size 5 yields exactly
    // two batches of shape [5, 3], in original row order
    let vals: Vec<i64> = (0..30).collect();
    let nd: NDArray<i64> = NDArray::array(vec![10, 3], vals).unwrap();
    let batches = nd.batch(5).unwrap();
    assert_eq!(batches.len(), 2);
    assert_eq!(batches[0].shape().dims(), &vec![5, 3]);
    assert_eq!(batches[1].shape().dims(), &vec![5, 3]);
    let first: Vec<i64> = (0..15).collect();
    let second: Vec<i64> = (15..30).collect();
    assert_eq!(batches[0].values(), &first);
    assert_eq!(batches[1].values(), &second);
}

#[test]
fn test_batch_errors() {
    let nd: NDArray<i64> = NDArray::array(vec![4, 2], vec![0; 8]).unwrap();
    assert!(nd.batch(0).is_err());
    assert!(nd.batch(4).is_err());
    assert!(nd.batch(5).is_err());
    let rank1: NDArray<i64> = NDArray::array(vec![8], vec![0; 8]).unwrap();
    assert!(rank1.batch(2).is_err());
}

#[test]
fn test_axis_row_and_column() {
    let nd: NDArray<i64> = NDArray::array(vec![2, 3], vec![1, 2, 3, 4, 5, 6]).unwrap();
    let row = nd.axis(0, 1).unwrap();
    assert_eq!(row.values(), &vec![4, 5, 6]);
    assert_eq!(row.shape().dims(), &vec![3]);
    let col = nd.axis(1, 1).unwrap();
    assert_eq!(col.values(), &vec![2, 5]);
    assert_eq!(col.shape().dims(), &vec![2]);
    assert!(nd.axis(2, 0).is_err());
    assert!(nd.axis(0, 2).is_err());
}

#[test]
fn test_axis_indices_selects_rows_in_order() {
    let nd: NDArray<i64> = NDArray::array(vec![3, 2], vec![10, 11, 20, 21, 30, 31]).unwrap();
    let picked = nd.axis_indices(0, vec![2, 0]).unwrap();
    assert_eq!(picked.shape().dims(), &vec![2, 2]);
    assert_eq!(picked.values(), &vec![30, 31, 10, 11]);
    assert!(nd.axis_indices(0, vec![3]).is_err());
    assert!(nd.axis_indices(1, vec![0]).is_err());
}

#[test]
fn test_unique_first_encountered_order() {
    let nd: NDArray<i64> = NDArray::array(vec![6], vec![3, 1, 3, 2, 1, 3]).unwrap();
    assert_eq!(nd.unique(), vec![3, 1, 2]);
    let keys: NDArray<i64> =
        NDArray::array(vec![4], vec![key(1.5), key(1.5), key(-2.0), key(0.0)]).unwrap();
    assert_eq!(keys.unique(), vec![key(1.5), key(-2.0), key(0.0)]);
}
