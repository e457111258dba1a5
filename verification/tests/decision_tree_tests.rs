use dendritic::ndarray::NDArray;
use dendritic::node::Node;
use dendritic::metric::DistinctValueMetric;
use dendritic::metric::Metric;
use dendritic::decision_tree::DecisionTreeClassifier;

fn key(x: f64) -> i64 {
    let b = x.to_bits() as i64;
    if b >= 0 {
        b
    } else {
        b ^ 0x7fff_ffff_ffff_ffff
    }
}

fn table(rows: usize, cols: usize, cells: Vec<f64>) -> NDArray<i64> {
    let keys: Vec<i64> = cells.into_iter().map(key).collect();
    NDArray::array(vec![rows, cols], keys).unwrap()
}

// Rows: one feature column, last column the class. The two classes split
// cleanly at feature value 2.0.
fn training_table() -> NDArray<i64> {
    table(4, 2, vec![1.0, 1.0, 2.0, 1.0, 3.0, 2.0, 4.0, 2.0])
}

#[test]
fn test_split_worked_example() {
    // feature column [1.0, 2.0, 3.0, 4.0] and threshold 2.0: rows 0 and 1
    // go left, rows 2 and 3 go right, in original order
    let model = DecisionTreeClassifier::new(3, 2, DistinctValueMetric);
    let features = training_table();
    let (left, right) = model.split(&features, key(2.0), 0);
    assert_eq!(left.shape().dims(), &vec![2, 2]);
    assert_eq!(right.shape().dims(), &vec![2, 2]);
    assert_eq!(
        left.values(),
        &vec![key(1.0), key(1.0), key(2.0), key(1.0)]
    );
    assert_eq!(
        right.values(),
        &vec![key(3.0), key(2.0), key(4.0), key(2.0)]
    );
    // partition completeness: each row lands on exactly one side
    assert_eq!(left.shape().dims()[0] + right.shape().dims()[0], 4);
}

#[test]
fn test_metric_gain_exact() {
    let parent = NDArray::array(vec![4], vec![1, 2, 3, 4]).unwrap();
    let left = NDArray::array(vec![2], vec![1, 2]).unwrap();
    let right = NDArray::array(vec![2], vec![3, 4]).unwrap();
    // 4 distinct in the parent, 2 in the larger child: gain 2
    assert_eq!(DistinctValueMetric.gain(&parent, &left, &right), 2);
    let pure = NDArray::array(vec![2], vec![7, 7]).unwrap();
    let one = NDArray::array(vec![1], vec![7]).unwrap();
    assert_eq!(DistinctValueMetric.gain(&pure, &one, &one), 0);
}

#[test]
fn test_best_split_first_max_wins() {
    let model = DecisionTreeClassifier::new(3, 2, DistinctValueMetric);
    let features = training_table();
    let (gain, feature_idx, threshold) = model.best_split(&features);
    assert_eq!(gain, 1);
    assert_eq!(feature_idx, 0);
    assert_eq!(threshold, key(2.0));
}

#[test]
fn test_leaf_rule_max_class() {
    // a 3-row, 2-feature tensor whose target column is [1.0, 2.0, 3.0] with
    // samples_split above the row count closes immediately with a leaf
    // predicting 3.0, the largest target value
    let mut model = DecisionTreeClassifier::new(3, 4, DistinctValueMetric);
    let features = table(3, 2, vec![5.0, 1.0, 6.0, 2.0, 7.0, 3.0]);
    let target = table(3, 1, vec![1.0, 2.0, 3.0]);
    model.fit(features, target);
    let probe = table(1, 2, vec![100.0, 0.0]);
    let out = model.predict(&probe);
    assert_eq!(out.values(), &vec![key(3.0)]);
}

#[test]
fn test_fit_and_predict_separates_classes() {
    let mut model = DecisionTreeClassifier::new(3, 2, DistinctValueMetric);
    model.fit(training_table(), training_table());
    let out = model.predict(&training_table());
    assert_eq!(out.shape().dims(), &vec![4, 1]);
    assert_eq!(
        out.values(),
        &vec![key(1.0), key(1.0), key(2.0), key(2.0)]
    );
}

#[test]
fn test_determinism_same_inputs_same_predictions() {
    let mut a = DecisionTreeClassifier::new(3, 2, DistinctValueMetric);
    let mut b = DecisionTreeClassifier::new(3, 2, DistinctValueMetric);
    a.fit(training_table(), training_table());
    b.fit(training_table(), training_table());
    let pa = a.predict(&training_table());
    let pb = b.predict(&training_table());
    assert_eq!(pa.values(), pb.values());
}

#[test]
fn test_prediction_traversal_on_built_nodes() {
    let model = DecisionTreeClassifier::new(3, 2, DistinctValueMetric);
    let tree = Node::new(
        key(2.0),
        0,
        1,
        Node::leaf(key(1.0)),
        Node::new(key(3.0), 1, 1, Node::leaf(key(5.0)), Node::leaf(key(6.0))),
    );
    let row_left = table(1, 2, vec![1.5, 0.0]);
    assert_eq!(model.prediction(&row_left, &tree), key(1.0));
    let row_right_left = table(1, 2, vec![9.0, 2.5]);
    assert_eq!(model.prediction(&row_right_left, &tree), key(5.0));
    let row_right_right = table(1, 2, vec![9.0, 3.5]);
    assert_eq!(model.prediction(&row_right_right, &tree), key(6.0));
}

#[test]
fn test_save_tree_load_tree_mirror() {
    let tree = Node::new(key(2.0), 0, 1, Node::leaf(key(1.0)), Node::leaf(key(2.0)));
    let model = DecisionTreeClassifier::new(3, 2, DistinctValueMetric);
    let mirror = model.save_tree(&tree);
    assert!(mirror.value.is_none());
    assert_eq!(mirror.threshold, key(2.0));
    let back = DecisionTreeClassifier::<DistinctValueMetric>::load_tree(&mirror).unwrap();
    assert_eq!(back, tree);
}

#[test]
fn test_save_load_round_trip_predictions() {
    let mut model = DecisionTreeClassifier::new(3, 2, DistinctValueMetric);
    model.fit(training_table(), training_table());
    let doc = model.to_document();
    let loaded =
        DecisionTreeClassifier::from_document(&doc, 3, 2, DistinctValueMetric).unwrap();
    let before = model.predict(&training_table());
    let after = loaded.predict(&training_table());
    assert_eq!(before.values(), after.values());
}

#[test]
fn test_document_format_of_a_leaf() {
    let model = DecisionTreeClassifier::new(3, 4, DistinctValueMetric);
    let mirror = model.save_tree(&Node::leaf(42));
    let doc = dendritic::document::render_document(&mirror);
    assert_eq!(doc, b"{\"value\":42}".to_vec());
    let back = dendritic::document::parse_document(&doc).unwrap();
    assert_eq!(back, mirror);
}

#[test]
fn test_document_format_negative_value() {
    let model = DecisionTreeClassifier::new(3, 4, DistinctValueMetric);
    let mirror = model.save_tree(&Node::leaf(-7));
    let doc = dendritic::document::render_document(&mirror);
    assert_eq!(doc, b"{\"value\":-7}".to_vec());
    assert_eq!(dendritic::document::parse_document(&doc).unwrap(), mirror);
}

#[test]
fn test_from_document_rejects_malformed_text() {
    let garbage = b"not a tree".to_vec();
    let r = DecisionTreeClassifier::from_document(&garbage, 3, 2, DistinctValueMetric);
    assert!(r.is_err());
    let truncated = b"{\"value\":4".to_vec();
    let r2 = DecisionTreeClassifier::from_document(&truncated, 3, 2, DistinctValueMetric);
    assert!(r2.is_err());
    let trailing = b"{\"value\":4}x".to_vec();
    let r3 = DecisionTreeClassifier::from_document(&trailing, 3, 2, DistinctValueMetric);
    assert!(r3.is_err());
}

#[test]
fn test_from_document_rejects_absent_child() {
    // a decision record with an absent child is malformed: no partial tree
    // is reconstructed
    let doc =
        b"{\"threshold\":0,\"feature_index\":0,\"info_gain\":1,\"left\":null,\"right\":null}"
            .to_vec();
    assert!(dendritic::document::parse_document(&doc).is_some());
    let r = DecisionTreeClassifier::from_document(&doc, 3, 2, DistinctValueMetric);
    assert!(r.is_err());
}

#[test]
fn test_bottom_key_matches_the_scalar_encoding() {
    assert_eq!(key(f64::NEG_INFINITY), dendritic::decision_tree::NEG_INF_KEY);
}

#[test]
fn test_best_split_without_admissible_candidate() {
    // one distinct feature value: every candidate leaves one side empty, so
    // the search reports the bottom key and the initial candidate
    let model = DecisionTreeClassifier::new(3, 2, DistinctValueMetric);
    let features = table(3, 2, vec![5.0, 1.0, 5.0, 2.0, 5.0, 3.0]);
    let (gain, feature_idx, threshold) = model.best_split(&features);
    assert_eq!(gain, dendritic::decision_tree::NEG_INF_KEY);
    assert_eq!(feature_idx, 0);
    assert_eq!(threshold, dendritic::decision_tree::NEG_INF_KEY);
}

#[test]
fn test_depth_zero_still_splits_once() {
    // the depth condition is non-strict: a tree with max_depth zero still
    // attempts one split at depth zero
    let mut model = DecisionTreeClassifier::new(0, 2, DistinctValueMetric);
    model.fit(training_table(), training_table());
    let out = model.predict(&training_table());
    assert_eq!(
        out.values(),
        &vec![key(1.0), key(1.0), key(2.0), key(2.0)]
    );
}

#[test]
fn test_information_gain_delegates_to_metric() {
    let model = DecisionTreeClassifier::new(3, 2, DistinctValueMetric);
    let parent = NDArray::array(vec![4], vec![1, 2, 3, 4]).unwrap();
    let left = NDArray::array(vec![2], vec![1, 2]).unwrap();
    let right = NDArray::array(vec![2], vec![3, 4]).unwrap();
    assert_eq!(model.information_gain(parent, left, right), 2);
}

#[test]
fn test_select_max_class() {
    let model = DecisionTreeClassifier::new(3, 2, DistinctValueMetric);
    let target = NDArray::array(vec![4], vec![key(2.0), key(3.0), key(-1.0), key(0.5)]).unwrap();
    assert_eq!(model.select_max_class(target), key(3.0));
}

#[test]
fn test_key_encoding_orders_like_the_scalars() {
    let xs = vec![-3.5, -1.0, -0.0, 0.0, 0.5, 1.0, 2.75, 1000.0];
    for i in 0..xs.len() {
        for j in 0..xs.len() {
            if xs[i] < xs[j] {
                assert!(key(xs[i]) < key(xs[j]));
            }
        }
    }
    assert_eq!(key(0.0), 0);
    assert!(key(-0.0) < 0);
}
