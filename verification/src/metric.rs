use vstd::prelude::*;
use crate::ndarray::NDArray;
use crate::ndarray::spec_unique;

verus! {

/// The pluggable scoring function a tree is built with: handed the target
/// column of a parent partition and of the two child partitions a candidate
/// split produces, it returns the information gain of that split as a scalar
/// key, larger meaning better, positive meaning worth splitting on.
///
/// An implementation combines the impurities of the three columns in its own
/// scalar domain. `spec_gain` names the value `gain` computes, so that a tree
/// built with a fixed metric is a mathematical function of its input alone.
pub trait Metric: Sized {
    /// The gain `gain` computes, as a function of the three target columns.
    /// An implementation overrides this with its own scoring function; left
    /// as is, it scores every split at zero, and a tree built with such a
    /// metric closes immediately with a leaf.
    open spec fn spec_gain(parent: Seq<i64>, left: Seq<i64>, right: Seq<i64>) -> i64 {
        0
    }

    /// Compute the information gain of a candidate split from the parent's
    /// target column and the target columns of the two partitions.
    fn gain(&self, parent: &NDArray<i64>, left: &NDArray<i64>, right: &NDArray<i64>) -> (r: i64)
        ensures
            r == Self::spec_gain(parent@.values, left@.values, right@.values),
    ;
}

/// The number of distinct values in a sequence, capped so that a difference
/// of two such counts always fits the scalar key range.
pub open spec fn capped_distinct(s: Seq<i64>) -> i64 {
    if spec_unique(s).len() >= 0x7fff_ffff {
        0x7fff_ffff
    } else {
        spec_unique(s).len() as i64
    }
}

/// A metric that scores a split by how many distinct target values it
/// separates: the count of distinct values in the parent column minus the
/// larger of the two children's counts. The gain is positive exactly when
/// both children see strictly fewer distinct target values than the parent.
pub struct DistinctValueMetric;

impl Metric for DistinctValueMetric {
    open spec fn spec_gain(parent: Seq<i64>, left: Seq<i64>, right: Seq<i64>) -> i64 {
        if capped_distinct(left) >= capped_distinct(right) {
            (capped_distinct(parent) - capped_distinct(left)) as i64
        } else {
            (capped_distinct(parent) - capped_distinct(right)) as i64
        }
    }

    fn gain(&self, parent: &NDArray<i64>, left: &NDArray<i64>, right: &NDArray<i64>) -> (r: i64)
        ensures
            r == <DistinctValueMetric as Metric>::spec_gain(
                parent@.values,
                left@.values,
                right@.values,
            ),
    {
        let pc = capped_count(parent);
        let lc = capped_count(left);
        let rc = capped_count(right);
        let mc = if lc >= rc {
            lc
        } else {
            rc
        };
        pc - mc
    }
}

/// The capped count of distinct values in the array's buffer.
fn capped_count(a: &NDArray<i64>) -> (r: i64)
    ensures
        r == capped_distinct(a@.values),
        0 <= r <= 0x7fff_ffff,
{
    let u = a.unique();
    if u.len() >= 0x7fff_ffff {
        0x7fff_ffff
    } else {
        u.len() as i64
    }
}

} // verus!
