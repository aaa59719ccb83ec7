//! Model of physical query plans as the scheduler reads them.
//!
//! The scheduler never executes a plan; it only inspects the tree shape
//! (where the pipeline breakers sit), the output partitioning of each
//! candidate stage boundary, and the operator names it reports in errors.
//! Those are exactly the fields modeled here. The full physical plan is
//! carried through the system as an opaque encoded blob by the callers.

use vstd::prelude::*;

verus! {

/// Output partitioning of a stage: the scheme and how many partitions it
/// produces. `Single` materializes one output partition (the final stage).
#[derive(Clone, Copy, PartialEq, Eq, Structural, Debug)]
pub enum Partitioning {
    Hash { partition_count: u32 },
    RoundRobin { partition_count: u32 },
    Single,
}

impl Partitioning {
    /// Number of output partitions, and so of tasks for a stage that
    /// writes with this partitioning.
    pub open spec fn spec_partition_count(self) -> u32 {
        match self {
            Partitioning::Hash { partition_count } => partition_count,
            Partitioning::RoundRobin { partition_count } => partition_count,
            Partitioning::Single => 1u32,
        }
    }

    #[verifier::when_used_as_spec(spec_partition_count)]
    pub fn partition_count(self) -> (n: u32)
        ensures
            n == self.spec_partition_count(),
    {
        match self {
            Partitioning::Hash { partition_count } => partition_count,
            Partitioning::RoundRobin { partition_count } => partition_count,
            Partitioning::Single => 1,
        }
    }
}

/// A physical plan tree, reduced to what stage planning depends on.
///
/// `Repartition` is the pipeline breaker: a full exchange of rows between
/// partitions cannot be pipelined, so the planner cuts the tree there.
/// `ShuffleReader` nodes are introduced by the planner itself at each cut
/// to consume the partitions the cut stage writes. `Unsupported` stands
/// for an operator the scheduler refuses to plan.
#[derive(Debug)]
pub enum PlanNode {
    /// A leaf operator (a scan), producing `partition_count` partitions.
    Leaf { name: String, partition_count: u32 },
    /// A pipelined unary operator (projection, filter, partial
    /// aggregate...): partitioning of the child flows through.
    Unary { name: String, child: Box<PlanNode> },
    /// A pipelined binary operator (a join): output partitioning is taken
    /// from the left input.
    Binary { name: String, left: Box<PlanNode>, right: Box<PlanNode> },
    /// Re-partitions its input; a pipeline breaker.
    Repartition { partitioning: Partitioning, child: Box<PlanNode> },
    /// Merges all input partitions into one; pipelined gather.
    Coalesce { child: Box<PlanNode> },
    /// Reads the partitions an earlier stage of the same job wrote.
    ShuffleReader { job_id: String, stage_id: u32, partitioning: Partitioning },
    /// An operator the planner does not support; planning fails on it.
    Unsupported { name: String },
}

impl PlanNode {
    /// Number of nodes in the tree; bounds how many stages a plan can cut.
    pub open spec fn size(self) -> nat
        decreases self,
    {
        match self {
            PlanNode::Leaf { .. } => 1,
            PlanNode::Unary { child, .. } => 1 + child.size(),
            PlanNode::Binary { left, right, .. } => 1 + left.size() + right.size(),
            PlanNode::Repartition { child, .. } => 1 + child.size(),
            PlanNode::Coalesce { child } => 1 + child.size(),
            PlanNode::ShuffleReader { .. } => 1,
            PlanNode::Unsupported { .. } => 1,
        }
    }

    /// Number of nodes in the tree, saturating at the largest `u64`.
    pub fn node_count(&self) -> (r: u64)
        ensures
            self.size() <= u64::MAX ==> r == self.size(),
            self.size() > u64::MAX ==> r == u64::MAX,
        decreases *self,
    {
        match self {
            PlanNode::Leaf { .. } => 1,
            PlanNode::ShuffleReader { .. } => 1,
            PlanNode::Unsupported { .. } => 1,
            PlanNode::Unary { child, .. } => {
                let c = child.node_count();
                if c < u64::MAX {
                    c + 1
                } else {
                    u64::MAX
                }
            },
            PlanNode::Repartition { child, .. } => {
                let c = child.node_count();
                if c < u64::MAX {
                    c + 1
                } else {
                    u64::MAX
                }
            },
            PlanNode::Coalesce { child } => {
                let c = child.node_count();
                if c < u64::MAX {
                    c + 1
                } else {
                    u64::MAX
                }
            },
            PlanNode::Binary { left, right, .. } => {
                let l = left.node_count();
                let r2 = right.node_count();
                let both = if u64::MAX - l < r2 {
                    u64::MAX
                } else {
                    l + r2
                };
                if both < u64::MAX {
                    both + 1
                } else {
                    u64::MAX
                }
            },
        }
    }

    /// Output partitioning of this node as the planner computes it.
    pub open spec fn spec_output_partitioning(self) -> Partitioning
        decreases self,
    {
        match self {
            PlanNode::Leaf { partition_count, .. } => Partitioning::RoundRobin { partition_count },
            PlanNode::Unary { child, .. } => child.spec_output_partitioning(),
            PlanNode::Binary { left, .. } => left.spec_output_partitioning(),
            PlanNode::Repartition { partitioning, .. } => partitioning,
            PlanNode::Coalesce { .. } => Partitioning::Single,
            PlanNode::ShuffleReader { partitioning, .. } => partitioning,
            PlanNode::Unsupported { .. } => Partitioning::Single,
        }
    }

    pub fn output_partitioning(&self) -> (p: Partitioning)
        ensures
            p == self.spec_output_partitioning(),
        decreases *self,
    {
        match self {
            PlanNode::Leaf { partition_count, .. } => Partitioning::RoundRobin {
                partition_count: *partition_count,
            },
            PlanNode::Unary { child, .. } => child.output_partitioning(),
            PlanNode::Binary { left, .. } => left.output_partitioning(),
            PlanNode::Repartition { partitioning, .. } => *partitioning,
            PlanNode::Coalesce { .. } => Partitioning::Single,
            PlanNode::ShuffleReader { partitioning, .. } => *partitioning,
            PlanNode::Unsupported { .. } => Partitioning::Single,
        }
    }
}

impl Clone for PlanNode {
    fn clone(&self) -> (r: Self)
        ensures
            r == *self,
        decreases *self,
    {
        match self {
            PlanNode::Leaf { name, partition_count } => PlanNode::Leaf {
                name: name.clone(),
                partition_count: *partition_count,
            },
            PlanNode::Unary { name, child } => PlanNode::Unary {
                name: name.clone(),
                child: Box::new((**child).clone()),
            },
            PlanNode::Binary { name, left, right } => PlanNode::Binary {
                name: name.clone(),
                left: Box::new((**left).clone()),
                right: Box::new((**right).clone()),
            },
            PlanNode::Repartition { partitioning, child } => PlanNode::Repartition {
                partitioning: *partitioning,
                child: Box::new((**child).clone()),
            },
            PlanNode::Coalesce { child } => PlanNode::Coalesce {
                child: Box::new((**child).clone()),
            },
            PlanNode::ShuffleReader { job_id, stage_id, partitioning } => PlanNode::ShuffleReader {
                job_id: job_id.clone(),
                stage_id: *stage_id,
                partitioning: *partitioning,
            },
            PlanNode::Unsupported { name } => PlanNode::Unsupported { name: name.clone() },
        }
    }
}

/// One stage emitted by the planner: the subtree it cut, rooted at a
/// shuffle writer with the given output partitioning.
#[derive(Debug)]
pub struct QueryStage {
    pub stage_id: u32,
    pub partitioning: Partitioning,
    pub plan: PlanNode,
}

} // verus!
