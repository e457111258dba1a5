use vstd::prelude::*;
use crate::ndarray::NDArray;
use crate::ndarray::NDArrayView;
use crate::ndarray::select_rows;
use crate::ndarray::spec_unique;
use crate::ndarray::lemma_product_two;
use crate::ndarray::lemma_select_rows_cell;
use crate::ndarray::lemma_select_rows_len;
use crate::ndarray::lemma_product_one;
use crate::ndarray::spec_product;
use crate::ndarray::products_fit;
use crate::node::Node;
use crate::node::NodeSerialized;
use crate::node::lemma_load_save;
use crate::metric::Metric;
use crate::document::render_document;
use crate::document::parse_document;
use crate::document::spec_render_node;
use crate::document::spec_parse_document;
use crate::document::lemma_save_canonical;
use crate::document::lemma_document_round_trip;
use vstd::pervasive::unreached;

verus! {

/// The scalar key beneath every key a metric can return: best-split search
/// starts from it, so any admissible candidate improves on it, and it is
/// reported when no candidate was admissible.
pub const NEG_INF_KEY: i64 = -9218868437227405313;

/// Column `j` of a rank-2 table, outermost dimension first.
pub open spec fn table_col(t: NDArrayView<i64>, j: int) -> Seq<i64>
    recommends
        t.shape.len() == 2,
{
    Seq::new(t.shape[0] as nat, |i: int| t.values[i * (t.shape[1] as int) + j])
}

/// Row `i` of a rank-2 table.
pub open spec fn table_row(t: NDArrayView<i64>, i: int) -> Seq<i64>
    recommends
        t.shape.len() == 2,
{
    t.values.subrange(i * (t.shape[1] as int), i * (t.shape[1] as int) + (t.shape[1] as int))
}

/// The positions of the column entries that lie at or below the threshold,
/// in ascending order.
pub open spec fn spec_le_indices(col: Seq<i64>, threshold: i64) -> Seq<usize>
    decreases col.len(),
{
    if col.len() == 0 {
        Seq::empty()
    } else {
        let prefix = spec_le_indices(col.drop_last(), threshold);
        if col.last() <= threshold {
            prefix.push((col.len() - 1) as usize)
        } else {
            prefix
        }
    }
}

/// The positions of the column entries that lie strictly above the
/// threshold, in ascending order.
pub open spec fn spec_gt_indices(col: Seq<i64>, threshold: i64) -> Seq<usize>
    decreases col.len(),
{
    if col.len() == 0 {
        Seq::empty()
    } else {
        let prefix = spec_gt_indices(col.drop_last(), threshold);
        if col.last() > threshold {
            prefix.push((col.len() - 1) as usize)
        } else {
            prefix
        }
    }
}

/// The sub-table holding exactly the rows the index list names, in order.
pub open spec fn subtable(t: NDArrayView<i64>, idx: Seq<usize>) -> NDArrayView<i64>
    recommends
        t.shape.len() == 2,
{
    NDArrayView {
        shape: seq![idx.len() as usize, t.shape[1]],
        values: select_rows(t.values, t.shape[1] as int, idx),
    }
}

/// Column `j` of the rows the index list names.
pub open spec fn col_at_rows(t: NDArrayView<i64>, idx: Seq<usize>, j: int) -> Seq<i64>
    recommends
        t.shape.len() == 2,
{
    Seq::new(idx.len(), |k: int| t.values[(idx[k] as int) * (t.shape[1] as int) + j])
}

/// The largest value of a nonempty sequence.
pub open spec fn seq_max(s: Seq<i64>) -> i64
    recommends
        s.len() >= 1,
    decreases s.len(),
{
    if s.len() <= 1 {
        s[0]
    } else {
        let m = seq_max(s.drop_last());
        if s.last() > m {
            s.last()
        } else {
            m
        }
    }
}

/// Every stored position of a partition lies inside the column it was
/// computed from, and a partition holds at most one entry per column cell.
pub proof fn lemma_partition_bounds(col: Seq<i64>, threshold: i64)
    ensures
        spec_le_indices(col, threshold).len() <= col.len(),
        spec_gt_indices(col, threshold).len() <= col.len(),
        forall|k: int|
            0 <= k < spec_le_indices(col, threshold).len()
                ==> (#[trigger] spec_le_indices(col, threshold)[k] as int) < col.len(),
        forall|k: int|
            0 <= k < spec_gt_indices(col, threshold).len()
                ==> (#[trigger] spec_gt_indices(col, threshold)[k] as int) < col.len(),
    decreases col.len(),
{
    if col.len() > 0 {
        lemma_partition_bounds(col.drop_last(), threshold);
    }
}

/// Partition completeness: every position of the column lands in exactly one
/// of the two partitions, and together they have one entry per column cell.
pub proof fn lemma_partition_complete(col: Seq<i64>, threshold: i64)
    requires
        col.len() <= usize::MAX,
    ensures
        spec_le_indices(col, threshold).len() + spec_gt_indices(col, threshold).len() == col.len(),
        forall|i: int|
            0 <= i < col.len()
                ==> (spec_le_indices(col, threshold).contains(i as usize) <==> col[i]
                <= threshold),
        forall|i: int|
            0 <= i < col.len()
                ==> (spec_gt_indices(col, threshold).contains(i as usize) <==> col[i] > threshold),
    decreases col.len(),
{
    if col.len() > 0 {
        let pre = col.drop_last();
        lemma_partition_complete(pre, threshold);
        let le = spec_le_indices(col, threshold);
        let gt = spec_gt_indices(col, threshold);
        let ple = spec_le_indices(pre, threshold);
        let pgt = spec_gt_indices(pre, threshold);
        let last = (col.len() - 1) as usize;
        assert forall|i: int| 0 <= i < col.len() implies (le.contains(i as usize) <==> col[i]
            <= threshold) by {
            if i < col.len() - 1 {
                assert(pre[i] == col[i]);
                if col[i] <= threshold {
                    let w = choose|k: int| 0 <= k < ple.len() && ple[k] == i as usize;
                    if col.last() <= threshold {
                        assert(le[w] == i as usize);
                    } else {
                        assert(le[w] == i as usize);
                    }
                } else {
                    if le.contains(i as usize) {
                        let w = choose|k: int| 0 <= k < le.len() && le[k] == i as usize;
                        if col.last() <= threshold && w == le.len() - 1 {
                            assert(le[w] == last);
                        } else {
                            assert(ple[w] == i as usize);
                        }
                    }
                }
            } else {
                if col.last() <= threshold {
                    assert(le[le.len() - 1] == last);
                } else {
                    if le.contains(i as usize) {
                        let w = choose|k: int| 0 <= k < le.len() && le[k] == i as usize;
                        lemma_partition_bounds(pre, threshold);
                        assert(ple[w] == i as usize);
                    }
                }
            }
        }
        assert forall|i: int| 0 <= i < col.len() implies (gt.contains(i as usize) <==> col[i]
            > threshold) by {
            if i < col.len() - 1 {
                assert(pre[i] == col[i]);
                if col[i] > threshold {
                    let w = choose|k: int| 0 <= k < pgt.len() && pgt[k] == i as usize;
                    assert(gt[w] == i as usize);
                } else {
                    if gt.contains(i as usize) {
                        let w = choose|k: int| 0 <= k < gt.len() && gt[k] == i as usize;
                        if col.last() > threshold && w == gt.len() - 1 {
                            assert(gt[w] == last);
                        } else {
                            assert(pgt[w] == i as usize);
                        }
                    }
                }
            } else {
                if col.last() > threshold {
                    assert(gt[gt.len() - 1] == last);
                } else {
                    if gt.contains(i as usize) {
                        let w = choose|k: int| 0 <= k < gt.len() && gt[k] == i as usize;
                        lemma_partition_bounds(pre, threshold);
                        assert(pgt[w] == i as usize);
                    }
                }
            }
        }
    }
}

/// The gain of one candidate split, or nothing when one of its partitions
/// is empty.
pub open spec fn spec_candidate_gain<M: Metric>(
    t: NDArrayView<i64>,
    feature_idx: usize,
    threshold: i64,
) -> Option<i64>
    recommends
        t.shape.len() == 2,
        t.shape[1] >= 1,
{
    let target = t.shape[1] as int - 1;
    let lefts = spec_le_indices(table_col(t, feature_idx as int), threshold);
    let rights = spec_gt_indices(table_col(t, feature_idx as int), threshold);
    if lefts.len() == 0 || rights.len() == 0 {
        None
    } else {
        Some(
            M::spec_gain(
                table_col(t, target),
                col_at_rows(t, lefts, target),
                col_at_rows(t, rights, target),
            ),
        )
    }
}

/// One step of the best-split scan: adopt the candidate when it is
/// admissible and strictly improves on the best gain seen so far; ties keep
/// the earlier candidate.
pub open spec fn spec_step<M: Metric>(
    t: NDArrayView<i64>,
    feature_idx: usize,
    threshold: i64,
    acc: (i64, usize, i64),
) -> (i64, usize, i64) {
    match spec_candidate_gain::<M>(t, feature_idx, threshold) {
        None => acc,
        Some(g) => if g > acc.0 {
            (g, feature_idx, threshold)
        } else {
            acc
        },
    }
}

/// The best-split scan folded over a list of candidate thresholds for one
/// feature, in list order.
pub open spec fn spec_scan_thresholds<M: Metric>(
    t: NDArrayView<i64>,
    feature_idx: usize,
    ts: Seq<i64>,
    acc: (i64, usize, i64),
) -> (i64, usize, i64)
    decreases ts.len(),
{
    if ts.len() == 0 {
        acc
    } else {
        spec_scan_thresholds::<M>(
            t,
            feature_idx,
            ts.drop_first(),
            spec_step::<M>(t, feature_idx, ts[0], acc),
        )
    }
}

/// The best-split scan folded over the features from `f` up to the target
/// column, each feature's candidate thresholds being its distinct observed
/// values in first-encountered order.
pub open spec fn spec_scan_features<M: Metric>(
    t: NDArrayView<i64>,
    f: usize,
    num_features: usize,
    acc: (i64, usize, i64),
) -> (i64, usize, i64)
    decreases num_features - f,
{
    if f >= num_features {
        acc
    } else {
        spec_scan_features::<M>(
            t,
            (f + 1) as usize,
            num_features,
            spec_scan_thresholds::<M>(t, f, spec_unique(table_col(t, f as int)), acc),
        )
    }
}

/// What best-split search returns on a feature table: the maximum
/// information gain over all admissible candidates together with the first
/// feature index and threshold attaining it, or the bottom key when no
/// candidate was admissible.
pub open spec fn spec_best_split<M: Metric>(t: NDArrayView<i64>) -> (i64, usize, i64)
    recommends
        t.shape.len() == 2,
        t.shape[1] >= 1,
{
    spec_scan_features::<M>(t, 0, (t.shape[1] - 1) as usize, (NEG_INF_KEY, 0usize, NEG_INF_KEY))
}

/// An accumulator of the scan is admissible: when its gain is above the
/// bottom key, it records an actual candidate, with both partitions
/// nonempty, whose gain it carries.
pub open spec fn acc_admissible<M: Metric>(
    t: NDArrayView<i64>,
    acc: (i64, usize, i64),
    num_features: usize,
) -> bool {
    acc.0 > NEG_INF_KEY ==> {
        &&& acc.1 < num_features
        &&& spec_candidate_gain::<M>(t, acc.1, acc.2) == Some(acc.0)
    }
}

proof fn lemma_scan_thresholds_admissible<M: Metric>(
    t: NDArrayView<i64>,
    f: usize,
    ts: Seq<i64>,
    acc: (i64, usize, i64),
    num_features: usize,
)
    requires
        acc_admissible::<M>(t, acc, num_features),
        f < num_features,
    ensures
        acc_admissible::<M>(t, spec_scan_thresholds::<M>(t, f, ts, acc), num_features),
    decreases ts.len(),
{
    if ts.len() > 0 {
        let acc2 = spec_step::<M>(t, f, ts[0], acc);
        assert(acc_admissible::<M>(t, acc2, num_features));
        lemma_scan_thresholds_admissible::<M>(t, f, ts.drop_first(), acc2, num_features);
    }
}

proof fn lemma_scan_features_admissible<M: Metric>(
    t: NDArrayView<i64>,
    f: usize,
    num_features: usize,
    acc: (i64, usize, i64),
)
    requires
        acc_admissible::<M>(t, acc, num_features),
    ensures
        acc_admissible::<M>(t, spec_scan_features::<M>(t, f, num_features, acc), num_features),
    decreases num_features - f,
{
    if f < num_features {
        lemma_scan_thresholds_admissible::<M>(
            t,
            f,
            spec_unique(table_col(t, f as int)),
            acc,
            num_features,
        );
        lemma_scan_features_admissible::<M>(
            t,
            (f + 1) as usize,
            num_features,
            spec_scan_thresholds::<M>(t, f, spec_unique(table_col(t, f as int)), acc),
        );
    }
}

/// Whatever best-split search returns with a gain above the bottom key names
/// an actual candidate: a feature left of the target column and a threshold
/// whose two partitions are nonempty and score exactly that gain.
pub proof fn lemma_best_split_admissible<M: Metric>(t: NDArrayView<i64>)
    requires
        t.shape.len() == 2,
        t.shape[1] >= 1,
    ensures
        acc_admissible::<M>(t, spec_best_split::<M>(t), (t.shape[1] - 1) as usize),
{
    lemma_scan_features_admissible::<M>(
        t,
        0,
        (t.shape[1] - 1) as usize,
        (NEG_INF_KEY, 0usize, NEG_INF_KEY),
    );
}

/// The column a sub-table reads in position `j` is the parent's column `j`
/// restricted to the selected rows.
pub proof fn lemma_subtable_col(t: NDArrayView<i64>, idx: Seq<usize>, j: int)
    requires
        t.shape.len() == 2,
        t.values.len() == (t.shape[0] as int) * (t.shape[1] as int),
        0 <= j < t.shape[1] as int,
        idx.len() <= usize::MAX,
        forall|k: int| 0 <= k < idx.len() ==> (#[trigger] idx[k] as int) < t.shape[0] as int,
    ensures
        table_col(subtable(t, idx), j) == col_at_rows(t, idx, j),
{
    let w = t.shape[1] as int;
    assert forall|k: int| 0 <= k < idx.len() implies (idx[k] as int) * w + w <= t.values.len() by {
        assert((idx[k] as int) * w + w <= (t.shape[0] as int) * w) by (nonlinear_arith)
            requires
                (idx[k] as int) + 1 <= t.shape[0] as int,
                w >= 0,
        ;
    }
    lemma_select_rows_len(t.values, w, idx);
    let sub = subtable(t, idx);
    assert forall|k: int| 0 <= k < idx.len() implies table_col(sub, j)[k] == col_at_rows(
        t,
        idx,
        j,
    )[k] by {
        lemma_select_rows_cell(t.values, w, idx, k, j);
    }
    assert(table_col(sub, j) =~= col_at_rows(t, idx, j));
}

/// The recursive tree a fit grows on a feature table whose last column is
/// the target: while the partition keeps at least `samples_split` rows and
/// the depth has not passed `max_depth`, take the best split; when its gain
/// is positive, grow a decision node over the two partitions one level
/// deeper; otherwise close with a leaf predicting the largest target value.
pub open spec fn spec_build_tree<M: Metric>(
    t: NDArrayView<i64>,
    max_depth: usize,
    samples_split: usize,
    curr_depth: int,
) -> Node
    recommends
        t.shape.len() == 2,
        t.shape[0] >= 1,
        t.shape[1] >= 1,
    decreases max_depth + 1 - curr_depth,
{
    let rows = t.shape[0] as int;
    let cols = t.shape[1] as int;
    if rows >= samples_split && curr_depth <= max_depth {
        let best = spec_best_split::<M>(t);
        if best.0 > 0 {
            let lefts = spec_le_indices(table_col(t, best.1 as int), best.2);
            let rights = spec_gt_indices(table_col(t, best.1 as int), best.2);
            Node::Decision {
                feature_idx: best.1,
                threshold: best.2,
                info_gain: best.0,
                left: Box::new(
                    spec_build_tree::<M>(subtable(t, lefts), max_depth, samples_split, curr_depth + 1),
                ),
                right: Box::new(
                    spec_build_tree::<M>(subtable(t, rights), max_depth, samples_split, curr_depth + 1),
                ),
            }
        } else {
            Node::Leaf { value: seq_max(table_col(t, cols - 1)) }
        }
    } else {
        Node::Leaf { value: seq_max(table_col(t, cols - 1)) }
    }
}

/// A decision-tree classifier: hyperparameters, a pluggable metric, and the
/// root of the decision tree `fit` grows.
pub struct DecisionTreeClassifier<M: Metric> {
    max_depth: usize,
    samples_split: usize,
    metric_function: M,
    root: Node,
}

/// The mathematical image of a classifier: its hyperparameters and tree.
#[verifier::ext_equal]
pub struct DecisionTreeClassifierView {
    pub max_depth: usize,
    pub samples_split: usize,
    pub root: Node,
}

impl<M: Metric> View for DecisionTreeClassifier<M> {
    type V = DecisionTreeClassifierView;

    closed spec fn view(&self) -> DecisionTreeClassifierView {
        DecisionTreeClassifierView {
            max_depth: self.max_depth,
            samples_split: self.samples_split,
            root: self.root,
        }
    }
}

impl<M: Metric> DecisionTreeClassifier<M> {
    /// Create a classifier with the given hyperparameters and metric; the
    /// tree starts as a single leaf predicting the zero key.
    pub fn new(max_depth: usize, samples_split: usize, metric_function: M) -> (t:
        DecisionTreeClassifier<M>)
        ensures
            t@.max_depth == max_depth,
            t@.samples_split == samples_split,
            t@.root == (Node::Leaf { value: 0 }),
    {
        DecisionTreeClassifier { max_depth, samples_split, metric_function, root: Node::leaf(0) }
    }

    /// Partition the rows of a feature table: rows whose cell in the chosen
    /// feature column lies at or below the threshold go left, the rest go
    /// right, each side keeping the original row order and all columns.
    pub fn split(&self, features: &NDArray<i64>, threshold: i64, feature_idx: usize) -> (r: (
        NDArray<i64>,
        NDArray<i64>,
    ))
        requires
            features.wf(),
            features@.shape.len() == 2,
            (feature_idx as int) < features@.shape[1],
        ensures
            r.0.wf(),
            r.1.wf(),
            r.0@ == subtable(
                features@,
                spec_le_indices(table_col(features@, feature_idx as int), threshold),
            ),
            r.1@ == subtable(
                features@,
                spec_gt_indices(table_col(features@, feature_idx as int), threshold),
            ),
    {
        let ghost t = features@;
        let ghost col = table_col(t, feature_idx as int);
        let feature = match features.axis(1, feature_idx) {
            Ok(f) => f,
            Err(_) => unreached(),
        };
        proof {
            assert(feature@.values =~= col);
        }
        let colv = feature.values();
        let mut idx_counter: usize = 0;
        let mut left_indices: Vec<usize> = Vec::new();
        let mut right_indices: Vec<usize> = Vec::new();
        while idx_counter < colv.len()
            invariant
                colv@ == col,
                idx_counter <= col.len(),
                left_indices@ == spec_le_indices(col.take(idx_counter as int), threshold),
                right_indices@ == spec_gt_indices(col.take(idx_counter as int), threshold),
            decreases col.len() - idx_counter,
        {
            let feat = colv[idx_counter];
            proof {
                assert(col.take(idx_counter + 1).drop_last() =~= col.take(idx_counter as int));
                assert(col.take(idx_counter + 1).last() == feat);
            }
            if feat > threshold {
                right_indices.push(idx_counter);
            }
            if feat <= threshold {
                left_indices.push(idx_counter);
            }
            idx_counter = idx_counter + 1;
        }
        proof {
            assert(col.take(col.len() as int) =~= col);
            lemma_partition_bounds(col, threshold);
            lemma_product_two(t.shape);
            assert(col.len() == t.shape[0] as int);
            assert(left_indices@.len() * (t.shape[1] as int) <= (t.shape[0] as int) * (
            t.shape[1] as int)) by (nonlinear_arith)
                requires
                    left_indices@.len() <= t.shape[0] as int,
                    t.shape[1] as int >= 0,
            ;
            assert(right_indices@.len() * (t.shape[1] as int) <= (t.shape[0] as int) * (
            t.shape[1] as int)) by (nonlinear_arith)
                requires
                    right_indices@.len() <= t.shape[0] as int,
                    t.shape[1] as int >= 0,
            ;
        }
        let left = match features.axis_indices(0, left_indices) {
            Ok(l) => l,
            Err(_) => unreached(),
        };
        let right = match features.axis_indices(0, right_indices) {
            Ok(l) => l,
            Err(_) => unreached(),
        };
        proof {
            assert(left@ =~= subtable(t, spec_le_indices(col, threshold)));
            assert(right@ =~= subtable(t, spec_gt_indices(col, threshold)));
        }
        (left, right)
    }

    /// The leaf rule: the value a leaf predicts is the largest value observed
    /// in the target column handed in.
    pub fn select_max_class(&self, target: NDArray<i64>) -> (r: i64)
        requires
            target@.values.len() >= 1,
        ensures
            r == seq_max(target@.values),
    {
        let vals = target.values();
        let mut max: i64 = vals[0];
        let mut i: usize = 1;
        while i < vals.len()
            invariant
                vals@ == target@.values,
                1 <= i <= vals@.len(),
                max == seq_max(vals@.take(i as int)),
            decreases vals@.len() - i,
        {
            proof {
                assert(vals@.take(i + 1).drop_last() =~= vals@.take(i as int));
                assert(vals@.take(i + 1).last() == vals@[i as int]);
            }
            if vals[i] > max {
                max = vals[i];
            }
            i = i + 1;
        }
        proof {
            assert(vals@.take(vals@.len() as int) =~= vals@);
        }
        max
    }

    /// The information gain of a candidate split, as the injected metric
    /// scores it from the parent's target column and the two partitions'
    /// target columns.
    pub fn information_gain(&self, feature: NDArray<i64>, left: NDArray<i64>, right: NDArray<
        i64,
    >) -> (r: i64)
        ensures
            r == M::spec_gain(feature@.values, left@.values, right@.values),
    {
        self.metric_function.gain(&feature, &left, &right)
    }

    /// Exhaustive best-split search: scan every feature column and every
    /// distinct observed value of it as a threshold, score each candidate
    /// whose partitions are both nonempty, and keep the first candidate of
    /// maximum gain, in scan order.
    pub fn best_split(&self, features: &NDArray<i64>) -> (r: (i64, usize, i64))
        requires
            features.wf(),
            features@.shape.len() == 2,
            features@.shape[1] >= 1,
        ensures
            r == spec_best_split::<M>(features@),
    {
        let ghost t = features@;
        let mut max_info_gain: i64 = NEG_INF_KEY;
        let mut feature_index: usize = 0;
        let mut selected_threshold: i64 = NEG_INF_KEY;
        let num_features = features.shape().dim(1) - 1;
        let ghost target = spec_best_split::<M>(t);
        proof {
            assert((t.shape[1] - 1) as usize == num_features);
            lemma_product_two(t.shape);
        }
        let mut feat_idx: usize = 0;
        while feat_idx < num_features
            invariant
                features.wf(),
                t == features@,
                t.shape.len() == 2,
                t.shape[1] >= 1,
                t.values.len() == (t.shape[0] as int) * (t.shape[1] as int),
                num_features as int == t.shape[1] - 1,
                feat_idx <= num_features,
                target == spec_best_split::<M>(t),
                spec_scan_features::<M>(
                    t,
                    feat_idx,
                    num_features,
                    (max_info_gain, feature_index, selected_threshold),
                ) == target,
            decreases num_features - feat_idx,
        {
            let feature = match features.axis(1, feat_idx) {
                Ok(f) => f,
                Err(_) => unreached(),
            };
            proof {
                assert(feature@.values =~= table_col(t, feat_idx as int));
            }
            let thresholds = feature.unique();
            let ghost ts = spec_unique(table_col(t, feat_idx as int));
            let mut ti: usize = 0;
            proof {
                assert(ts.skip(0int) =~= ts);
            }
            while ti < thresholds.len()
                invariant
                    features.wf(),
                    t == features@,
                    t.shape.len() == 2,
                    t.shape[1] >= 1,
                    t.values.len() == (t.shape[0] as int) * (t.shape[1] as int),
                    num_features as int == t.shape[1] - 1,
                    feat_idx < num_features,
                    ti <= thresholds@.len(),
                    thresholds@ == ts,
                    target == spec_best_split::<M>(t),
                    spec_scan_features::<M>(
                        t,
                        (feat_idx + 1) as usize,
                        num_features,
                        spec_scan_thresholds::<M>(
                            t,
                            feat_idx,
                            ts.skip(ti as int),
                            (max_info_gain, feature_index, selected_threshold),
                        ),
                    ) == target,
                decreases thresholds@.len() - ti,
            {
                let threshold = thresholds[ti];
                let ghost acc = (max_info_gain, feature_index, selected_threshold);
                let ghost lefts = spec_le_indices(table_col(t, feat_idx as int), threshold);
                let ghost rights = spec_gt_indices(table_col(t, feat_idx as int), threshold);
                proof {
                    assert(ts.skip(ti as int).drop_first() =~= ts.skip(ti + 1));
                    assert(ts.skip(ti as int)[0] == ts[ti as int]);
                    assert(spec_scan_thresholds::<M>(t, feat_idx, ts.skip(ti as int), acc)
                        == spec_scan_thresholds::<M>(
                        t,
                        feat_idx,
                        ts.skip(ti + 1),
                        spec_step::<M>(t, feat_idx, ts[ti as int], acc),
                    ));
                    lemma_partition_bounds(table_col(t, feat_idx as int), threshold);
                }
                let (left, right) = self.split(features, threshold, feat_idx);
                proof {
                    lemma_product_two(left@.shape);
                    lemma_product_two(right@.shape);
                }
                if left.size() > 0 && right.size() > 0 {
                    proof {
                        assert(lefts.len() > 0 && rights.len() > 0) by (nonlinear_arith)
                            requires
                                lefts.len() * (t.shape[1] as int) > 0,
                                rights.len() * (t.shape[1] as int) > 0,
                        ;
                    }
                    let parent_col = match features.axis(1, num_features) {
                        Ok(c) => c,
                        Err(_) => unreached(),
                    };
                    let left_col = match left.axis(1, num_features) {
                        Ok(c) => c,
                        Err(_) => unreached(),
                    };
                    let right_col = match right.axis(1, num_features) {
                        Ok(c) => c,
                        Err(_) => unreached(),
                    };
                    proof {
                        lemma_subtable_col(t, lefts, num_features as int);
                        lemma_subtable_col(t, rights, num_features as int);
                        assert(parent_col@.values =~= table_col(t, num_features as int));
                        assert(left_col@.values =~= table_col(
                            subtable(t, lefts),
                            num_features as int,
                        ));
                        assert(right_col@.values =~= table_col(
                            subtable(t, rights),
                            num_features as int,
                        ));
                    }
                    let info_gain = self.information_gain(parent_col, left_col, right_col);
                    proof {
                        assert(spec_candidate_gain::<M>(t, feat_idx, threshold) == Some(info_gain));
                    }
                    if info_gain > max_info_gain {
                        max_info_gain = info_gain;
                        feature_index = feat_idx;
                        selected_threshold = threshold;
                    }
                    proof {
                        assert((max_info_gain, feature_index, selected_threshold) == spec_step::<
                            M,
                        >(t, feat_idx, ts[ti as int], acc));
                    }
                } else {
                    proof {
                        if left@.values.len() == 0 {
                            assert(lefts.len() == 0) by (nonlinear_arith)
                                requires
                                    lefts.len() * (t.shape[1] as int) == 0,
                                    t.shape[1] as int >= 1,
                            ;
                        } else {
                            assert(rights.len() == 0) by (nonlinear_arith)
                                requires
                                    rights.len() * (t.shape[1] as int) == 0,
                                    t.shape[1] as int >= 1,
                            ;
                        }
                        assert(spec_candidate_gain::<M>(t, feat_idx, threshold) is None);
                        assert((max_info_gain, feature_index, selected_threshold) == spec_step::<
                            M,
                        >(t, feat_idx, ts[ti as int], acc));
                    }
                }
                ti = ti + 1;
            }
            proof {
                assert(ts.skip(thresholds@.len() as int) =~= Seq::<i64>::empty());
            }
            feat_idx = feat_idx + 1;
        }
        (max_info_gain, feature_index, selected_threshold)
    }

    /// Recursive tree induction on a feature table whose last column is the
    /// target, starting at the given depth.
    pub fn build_tree(&self, features: &NDArray<i64>, curr_depth: usize) -> (n: Node)
        requires
            features.wf(),
            features@.shape.len() == 2,
            features@.shape[0] >= 1,
            features@.shape[1] >= 1,
            self@.max_depth < usize::MAX,
        ensures
            n == spec_build_tree::<M>(
                features@,
                self@.max_depth,
                self@.samples_split,
                curr_depth as int,
            ),
        decreases self@.max_depth + 1 - curr_depth,
    {
        let ghost t = features@;
        let num_samples = features.shape().dim(0);
        let depth_condition = curr_depth <= self.max_depth;
        let sample_condition = num_samples >= self.samples_split;
        proof {
            lemma_product_two(t.shape);
        }
        if sample_condition && depth_condition {
            let (info_gain, feature_idx, threshold) = self.best_split(features);
            if info_gain > 0 {
                let ghost lefts = spec_le_indices(table_col(t, feature_idx as int), threshold);
                let ghost rights = spec_gt_indices(table_col(t, feature_idx as int), threshold);
                proof {
                    lemma_best_split_admissible::<M>(t);
                    assert(spec_candidate_gain::<M>(t, feature_idx, threshold) == Some(info_gain));
                    assert(lefts.len() > 0 && rights.len() > 0);
                    lemma_partition_bounds(table_col(t, feature_idx as int), threshold);
                }
                let (left, right) = self.split(features, threshold, feature_idx);
                proof {
                    assert(left@.shape[0] == lefts.len() as usize);
                    assert(left@.shape[0] >= 1);
                    assert(right@.shape[0] >= 1);
                }
                let left_subtree = self.build_tree(&left, curr_depth + 1);
                let right_subtree = self.build_tree(&right, curr_depth + 1);
                return Node::new(threshold, feature_idx, info_gain, left_subtree, right_subtree);
            }
        }
        let num_features = features.shape().dim(1) - 1;
        let target_col = match features.axis(1, num_features) {
            Ok(c) => c,
            Err(_) => unreached(),
        };
        proof {
            assert(target_col@.values =~= table_col(t, t.shape[1] as int - 1));
        }
        let leaf_val = self.select_max_class(target_col);
        Node::leaf(leaf_val)
    }

    /// Grow the tree for a feature table whose last column is the target.
    /// The separate target argument is kept for interface compatibility; the
    /// labels are read from the feature table's last column.
    #[allow(unused_variables)]
    pub fn fit(&mut self, features: NDArray<i64>, target: NDArray<i64>)
        requires
            features.wf(),
            features@.shape.len() == 2,
            features@.shape[0] >= 1,
            features@.shape[1] >= 1,
            old(self)@.max_depth < usize::MAX,
        ensures
            final(self)@.root == spec_build_tree::<M>(
                features@,
                old(self)@.max_depth,
                old(self)@.samples_split,
                0,
            ),
            final(self)@.max_depth == old(self)@.max_depth,
            final(self)@.samples_split == old(self)@.samples_split,
    {
        let root = self.build_tree(&features, 0);
        self.root = root;
    }

    /// Traverse the tree for one input row: at a decision node compare the
    /// row's cell at the stored feature index against the stored threshold,
    /// going left on at-most, right on above; a leaf gives the prediction.
    pub fn prediction(&self, inputs: &NDArray<i64>, node: &Node) -> (r: i64)
        requires
            node.wf_for_width(inputs@.values.len() as int),
        ensures
            r == node.spec_predict(inputs@.values),
        decreases *node,
    {
        match node {
            Node::Leaf { value } => *value,
            Node::Decision { feature_idx, threshold, left, right, .. } => {
                let feature_val = inputs.idx(*feature_idx);
                if *feature_val <= *threshold {
                    self.prediction(inputs, left)
                } else {
                    self.prediction(inputs, right)
                }
            },
        }
    }

    /// Predict one value per row of the input table, in row order, returned
    /// as a column.
    pub fn predict(&self, input: &NDArray<i64>) -> (r: NDArray<i64>)
        requires
            input.wf(),
            input@.shape.len() == 2,
            self@.root.wf_for_width(input@.shape[1] as int),
        ensures
            r.wf(),
            r@.shape == seq![input@.shape[0], 1usize],
            r@.values == Seq::new(
                input@.shape[0] as nat,
                |i: int| self@.root.spec_predict(table_row(input@, i)),
            ),
    {
        let ghost t = input@;
        let rows = input.shape().dim(0);
        proof {
            lemma_product_two(t.shape);
        }
        let mut results: Vec<i64> = Vec::new();
        let mut item: usize = 0;
        while item < rows
            invariant
                input.wf(),
                t == input@,
                t.shape.len() == 2,
                rows == t.shape[0],
                item <= rows,
                t.values.len() == (t.shape[0] as int) * (t.shape[1] as int),
                self@.root.wf_for_width(t.shape[1] as int),
                results@ == Seq::new(
                    item as nat,
                    |i: int| self@.root.spec_predict(table_row(t, i)),
                ),
            decreases rows - item,
        {
            let row = match input.axis(0, item) {
                Ok(x) => x,
                Err(_) => unreached(),
            };
            proof {
                assert((item as int) * (t.shape[1] as int) + (t.shape[1] as int) <= (
                t.shape[0] as int) * (t.shape[1] as int)) by (nonlinear_arith)
                    requires
                        item as int + 1 <= t.shape[0] as int,
                        t.shape[1] as int >= 0,
                ;
                assert((item as int) * (t.shape[1] as int) >= 0) by (nonlinear_arith)
                    requires
                        item as int >= 0,
                        t.shape[1] as int >= 0,
                ;
                assert(row@.values =~= table_row(t, item as int));
                assert(row@.values.len() == t.shape[1] as int);
            }
            let val = self.prediction(&row, &self.root);
            results.push(val);
            proof {
                assert(results@ =~= Seq::new(
                    (item + 1) as nat,
                    |i: int| self@.root.spec_predict(table_row(t, i)),
                ));
            }
            item = item + 1;
        }
        let shape_vec = vec![rows, 1];
        proof {
            assert(shape_vec@ =~= seq![rows, 1usize]);
            assert(shape_vec@.len() == 2);
            lemma_product_two(shape_vec@);
            assert(spec_product(Seq::<usize>::empty()) == 1);
            lemma_product_one(seq![rows]);
            assert forall|i: int| 0 <= i <= shape_vec@.len() implies spec_product(
                #[trigger] shape_vec@.take(i),
            ) <= usize::MAX by {
                if i == 0 {
                    assert(shape_vec@.take(i) =~= Seq::<usize>::empty());
                    assert(spec_product(shape_vec@.take(i)) == 1);
                } else if i == 1 {
                    assert(shape_vec@.take(i) =~= seq![rows]);
                    assert(spec_product(shape_vec@.take(i)) == rows as int);
                } else {
                    assert(shape_vec@.take(i) =~= shape_vec@);
                    assert(spec_product(shape_vec@.take(i)) == (rows as int) * 1);
                }
            }
        }
        let result = match NDArray::<i64>::array(shape_vec, results) {
            Ok(x) => x,
            Err(_) => unreached(),
        };
        result
    }

    /// Build the persistence mirror of a subtree, depth first.
    pub fn save_tree(&self, node: &Node) -> (ns: NodeSerialized)
        ensures
            ns == node.spec_save(),
        decreases *node,
    {
        match node {
            Node::Leaf { value } => NodeSerialized {
                threshold: 0,
                feature_idx: 0,
                info_gain: 0,
                value: Some(*value),
                left: None,
                right: None,
            },
            Node::Decision { feature_idx, threshold, info_gain, left, right } => {
                let l = self.save_tree(&**left);
                let r = self.save_tree(&**right);
                NodeSerialized {
                    threshold: *threshold,
                    feature_idx: *feature_idx,
                    info_gain: *info_gain,
                    value: None,
                    left: Some(Box::new(l)),
                    right: Some(Box::new(r)),
                }
            },
        }
    }

    /// Reconstruct a tree from its persistence mirror, top down. A decision
    /// record with an absent child is malformed and reconstructs nothing.
    pub fn load_tree(node_save: &NodeSerialized) -> (r: Option<Node>)
        ensures
            r == node_save.spec_load(),
        decreases *node_save,
    {
        match &node_save.value {
            Some(v) => Some(Node::Leaf { value: *v }),
            None => {
                match (&node_save.left, &node_save.right) {
                    (Some(l), Some(r)) => {
                        let left_node = Self::load_tree(&**l);
                        let right_node = Self::load_tree(&**r);
                        match (left_node, right_node) {
                            (Some(ln), Some(rn)) => Some(
                                Node::new(
                                    node_save.threshold,
                                    node_save.feature_idx,
                                    node_save.info_gain,
                                    ln,
                                    rn,
                                ),
                            ),
                            _ => None,
                        }
                    },
                    _ => None,
                }
            },
        }
    }
}

impl<M: Metric> DecisionTreeClassifier<M> {
    /// Serialize the whole tree into the document its persisted form holds.
    pub fn to_document(&self) -> (doc: Vec<u8>)
        ensures
            doc@ == spec_render_node(self@.root.spec_save()),
    {
        let ns = self.save_tree(&self.root);
        render_document(&ns)
    }

    /// Rebuild a classifier from a persisted document; the hyperparameters
    /// and the metric are re-supplied by the caller, as the document does
    /// not carry them. Fails exactly when the document does not parse or
    /// describes a decision record with an absent child.
    pub fn from_document(
        doc: &Vec<u8>,
        max_depth: usize,
        samples_split: usize,
        metric_function: M,
    ) -> (r: Result<DecisionTreeClassifier<M>, String>)
        ensures
            r is Ok <==> (spec_parse_document(doc@) matches Some(ns) && ns.spec_load() is Some),
            r matches Ok(c) ==> {
                &&& c@.max_depth == max_depth
                &&& c@.samples_split == samples_split
                &&& (spec_parse_document(doc@) matches Some(ns) && ns.spec_load() == Some(c@.root))
            },
    {
        let ns = match parse_document(doc) {
            Some(ns) => ns,
            None => {
                return Err("Malformed tree document".to_string());
            },
        };
        let root = match Self::load_tree(&ns) {
            Some(rt) => rt,
            None => {
                return Err("Malformed tree document".to_string());
            },
        };
        Ok(DecisionTreeClassifier { max_depth, samples_split, metric_function, root })
    }
}

/// Round trip of persistence: the document a tree saves to parses back to
/// the saved mirror, the mirror reconstructs that very tree, and so a
/// classifier loaded from the document predicts exactly as the one that
/// saved it, on every row.
pub proof fn lemma_save_load_round_trip(root: Node, row: Seq<i64>)
    ensures
        spec_parse_document(spec_render_node(root.spec_save())) == Some(root.spec_save()),
        root.spec_save().spec_load() == Some(root),
        root.spec_save().spec_load()->0.spec_predict(row) == root.spec_predict(row),
{
    lemma_save_canonical(root);
    lemma_document_round_trip(root.spec_save());
    lemma_load_save(root);
}

/// Depth bound: a tree grown at `curr_depth` reaches, in nodes, at most one
/// past what the remaining depth budget allows — a split is still attempted
/// at depth `max_depth` itself, so a tree grown from the root has at most
/// `max_depth + 2` nodes on any root-to-leaf path, that is, no leaf sits
/// more than `max_depth + 1` edges below the root.
pub proof fn lemma_depth_bound<M: Metric>(
    t: NDArrayView<i64>,
    max_depth: usize,
    samples_split: usize,
    curr_depth: int,
)
    ensures
        spec_build_tree::<M>(t, max_depth, samples_split, curr_depth).height() <= if curr_depth
            <= max_depth + 1 {
            max_depth + 2 - curr_depth
        } else {
            1
        },
    decreases max_depth + 2 - curr_depth,
{
    if t.shape[0] as int >= samples_split && curr_depth <= max_depth {
        let best = spec_best_split::<M>(t);
        if best.0 > 0 {
            let lefts = spec_le_indices(table_col(t, best.1 as int), best.2);
            let rights = spec_gt_indices(table_col(t, best.1 as int), best.2);
            lemma_depth_bound::<M>(subtable(t, lefts), max_depth, samples_split, curr_depth + 1);
            lemma_depth_bound::<M>(subtable(t, rights), max_depth, samples_split, curr_depth + 1);
        }
    }
}

/// Depth bound at the root: the tree `fit` grows never puts a leaf more
/// than `max_depth + 1` edges below the root.
pub proof fn lemma_fit_depth_bound<M: Metric>(
    t: NDArrayView<i64>,
    max_depth: usize,
    samples_split: usize,
)
    ensures
        spec_build_tree::<M>(t, max_depth, samples_split, 0).height() <= max_depth + 2,
{
    lemma_depth_bound::<M>(t, max_depth, samples_split, 0);
}

/// Gain guard: every decision node of a tree `fit` grows records a strictly
/// positive information gain — a split is only ever adopted when its gain
/// is positive.
pub proof fn lemma_gains_positive<M: Metric>(
    t: NDArrayView<i64>,
    max_depth: usize,
    samples_split: usize,
    curr_depth: int,
)
    ensures
        spec_build_tree::<M>(t, max_depth, samples_split, curr_depth).gains_positive(),
    decreases max_depth + 2 - curr_depth,
{
    if t.shape[0] as int >= samples_split && curr_depth <= max_depth {
        let best = spec_best_split::<M>(t);
        if best.0 > 0 {
            let lefts = spec_le_indices(table_col(t, best.1 as int), best.2);
            let rights = spec_gt_indices(table_col(t, best.1 as int), best.2);
            lemma_gains_positive::<M>(subtable(t, lefts), max_depth, samples_split, curr_depth + 1);
            lemma_gains_positive::<M>(
                subtable(t, rights),
                max_depth,
                samples_split,
                curr_depth + 1,
            );
        }
    }
}

/// Determinism: the tree grown for a table and the prediction for a row are
/// mathematical functions of the inputs alone — `fit` ensures its root
/// equals `spec_build_tree` of the table, and `predict` ensures each output
/// equals `spec_predict` of that root, so two classifiers given equal
/// hyperparameters, the same metric, equal tables and an equal row always
/// produce the same prediction.
pub proof fn lemma_determinism<M: Metric>(
    t1: NDArrayView<i64>,
    t2: NDArrayView<i64>,
    max_depth: usize,
    samples_split: usize,
    row: Seq<i64>,
)
    requires
        t1 == t2,
    ensures
        spec_build_tree::<M>(t1, max_depth, samples_split, 0) == spec_build_tree::<M>(
            t2,
            max_depth,
            samples_split,
            0,
        ),
        spec_build_tree::<M>(t1, max_depth, samples_split, 0).spec_predict(row)
            == spec_build_tree::<M>(t2, max_depth, samples_split, 0).spec_predict(row),
{
}

} // verus!
