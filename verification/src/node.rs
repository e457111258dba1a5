use vstd::prelude::*;

verus! {

/// One node of a decision tree: either a decision over a feature and
/// threshold, owning both subtrees, or a leaf carrying the value to predict.
#[derive(Debug, PartialEq)]
pub enum Node {
    Decision {
        feature_idx: usize,
        threshold: i64,
        info_gain: i64,
        left: Box<Node>,
        right: Box<Node>,
    },
    Leaf { value: i64 },
}

/// The persistence mirror of a node: every scalar field, with optionally
/// present boxed children. A present `value` marks a leaf; an absent one
/// marks a decision record whose other fields are meaningful.
#[derive(Debug, PartialEq)]
pub struct NodeSerialized {
    pub threshold: i64,
    pub feature_idx: usize,
    pub info_gain: i64,
    pub value: Option<i64>,
    pub left: Option<Box<NodeSerialized>>,
    pub right: Option<Box<NodeSerialized>>,
}

impl NodeSerialized {
    /// The tree a persistence record reconstructs: a record with a present
    /// `value` gives a leaf; one without gives a decision node, provided
    /// both children are present and themselves reconstruct — a decision
    /// record with an absent child is malformed and reconstructs nothing.
    pub open spec fn spec_load(self) -> Option<Node>
        decreases self,
    {
        match self.value {
            Some(v) => Some(Node::Leaf { value: v }),
            None => match (self.left, self.right) {
                (Some(l), Some(r)) => match ((*l).spec_load(), (*r).spec_load()) {
                    (Some(ln), Some(rn)) => Some(
                        Node::Decision {
                            feature_idx: self.feature_idx,
                            threshold: self.threshold,
                            info_gain: self.info_gain,
                            left: Box::new(ln),
                            right: Box::new(rn),
                        },
                    ),
                    _ => None,
                },
                _ => None,
            },
        }
    }
}

/// Reconstruction undoes mirroring: loading the record a tree saves to gives
/// back that very tree.
pub proof fn lemma_load_save(n: Node)
    ensures
        n.spec_save().spec_load() == Some(n),
    decreases n,
{
    match n {
        Node::Leaf { .. } => {
        },
        Node::Decision { left, right, .. } => {
            lemma_load_save(*left);
            lemma_load_save(*right);
        },
    }
}

impl Node {
    /// Build a decision node from its split parameters and subtrees.
    pub fn new(threshold: i64, feature_idx: usize, info_gain: i64, left: Node, right: Node) -> (n:
        Node)
        ensures
            n == (Node::Decision {
                feature_idx,
                threshold,
                info_gain,
                left: Box::new(left),
                right: Box::new(right),
            }),
    {
        Node::Decision { feature_idx, threshold, info_gain, left: Box::new(left), right: Box::new(right) }
    }

    /// Build a leaf node carrying the value it predicts.
    pub fn leaf(value: i64) -> (n: Node)
        ensures
            n == (Node::Leaf { value }),
    {
        Node::Leaf { value }
    }

    /// Every feature index a decision in this tree consults lies below
    /// `width`, so the tree can be traversed with rows of that many cells.
    pub open spec fn wf_for_width(self, width: int) -> bool
        decreases self,
    {
        match self {
            Node::Decision { feature_idx, left, right, .. } => {
                &&& (feature_idx as int) < width
                &&& (*left).wf_for_width(width)
                &&& (*right).wf_for_width(width)
            },
            Node::Leaf { .. } => true,
        }
    }

    /// The number of nodes on the longest root-to-leaf path.
    pub open spec fn height(self) -> nat
        decreases self,
    {
        match self {
            Node::Decision { left, right, .. } => {
                1 + if (*left).height() >= (*right).height() {
                    (*left).height()
                } else {
                    (*right).height()
                }
            },
            Node::Leaf { .. } => 1,
        }
    }

    /// Every decision node of this tree records a strictly positive
    /// information gain.
    pub open spec fn gains_positive(self) -> bool
        decreases self,
    {
        match self {
            Node::Decision { info_gain, left, right, .. } => {
                &&& info_gain > 0
                &&& (*left).gains_positive()
                &&& (*right).gains_positive()
            },
            Node::Leaf { .. } => true,
        }
    }

    /// The persistence mirror of this subtree: a leaf becomes a record whose
    /// `value` is present and whose other fields are cleared; a decision
    /// becomes a record carrying its scalars and both children.
    pub open spec fn spec_save(self) -> NodeSerialized
        decreases self,
    {
        match self {
            Node::Leaf { value } => NodeSerialized {
                threshold: 0,
                feature_idx: 0,
                info_gain: 0,
                value: Some(value),
                left: None,
                right: None,
            },
            Node::Decision { feature_idx, threshold, info_gain, left, right } => NodeSerialized {
                threshold,
                feature_idx,
                info_gain,
                value: None,
                left: Some(Box::new((*left).spec_save())),
                right: Some(Box::new((*right).spec_save())),
            },
        }
    }

    /// The value prediction traversal returns for a row: walk from this node,
    /// going left when the row's cell at the stored feature index is at most
    /// the stored threshold, right otherwise.
    pub open spec fn spec_predict(self, row: Seq<i64>) -> i64
        decreases self,
    {
        match self {
            Node::Leaf { value } => value,
            Node::Decision { feature_idx, threshold, left, right, .. } => {
                if row[feature_idx as int] <= threshold {
                    (*left).spec_predict(row)
                } else {
                    (*right).spec_predict(row)
                }
            },
        }
    }
}

} // verus!
