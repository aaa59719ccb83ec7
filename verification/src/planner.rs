//! The distributed planner: splits a physical plan into shuffle stages.
//!
//! A post-order pass cuts the tree at every pipeline breaker (each
//! `Repartition` node): the breaker's subtree becomes a stage that writes
//! its output with the breaker's partitioning, and the breaker is
//! replaced in its parent by a `ShuffleReader` of that stage. The whole
//! rewritten tree becomes the final stage, writing a single partition.
//! Stage ids count up from zero in emit order, so every stage only ever
//! reads stages with smaller ids.

use vstd::prelude::*;
use crate::plan::{Partitioning, PlanNode, QueryStage};

verus! {

/// One planning pass over one subtree, stages numbered from
/// `next_stage_id`: the rewritten subtree and the stages cut out of it,
/// or the name of an unsupported operator.
pub open spec fn spec_plan_subtree(job_id: String, node: PlanNode, next_stage_id: int) -> Result<
    (PlanNode, Seq<QueryStage>),
    String,
>
    decreases node,
{
    match node {
        PlanNode::Leaf { name, partition_count } => Ok(
            (PlanNode::Leaf { name, partition_count }, Seq::empty()),
        ),
        PlanNode::Unary { name, child } => match spec_plan_subtree(
            job_id,
            *child,
            next_stage_id,
        ) {
            Ok(p) => Ok((PlanNode::Unary { name, child: Box::new(p.0) }, p.1)),
            Err(e) => Err(e),
        },
        PlanNode::Binary { name, left, right } => match spec_plan_subtree(
            job_id,
            *left,
            next_stage_id,
        ) {
            Ok(pl) => match spec_plan_subtree(job_id, *right, next_stage_id + pl.1.len()) {
                Ok(pr) => Ok(
                    (
                        PlanNode::Binary {
                            name,
                            left: Box::new(pl.0),
                            right: Box::new(pr.0),
                        },
                        pl.1 + pr.1,
                    ),
                ),
                Err(e) => Err(e),
            },
            Err(e) => Err(e),
        },
        PlanNode::Repartition { partitioning, child } => match spec_plan_subtree(
            job_id,
            *child,
            next_stage_id,
        ) {
            Ok(p) => {
                let stage_id = (next_stage_id + p.1.len()) as u32;
                Ok(
                    (
                        PlanNode::ShuffleReader { job_id, stage_id, partitioning },
                        p.1.push(QueryStage { stage_id, partitioning, plan: p.0 }),
                    ),
                )
            },
            Err(e) => Err(e),
        },
        PlanNode::Coalesce { child } => match spec_plan_subtree(job_id, *child, next_stage_id) {
            Ok(p) => Ok((PlanNode::Coalesce { child: Box::new(p.0) }, p.1)),
            Err(e) => Err(e),
        },
        PlanNode::ShuffleReader { job_id: j, stage_id, partitioning } => Ok(
            (PlanNode::ShuffleReader { job_id: j, stage_id, partitioning }, Seq::empty()),
        ),
        PlanNode::Unsupported { name } => Err(name),
    }
}

/// The full planning step: stages of the whole plan, the rewritten root
/// wrapped as the final stage with single-partition output.
pub open spec fn spec_plan_query_stages(job_id: String, plan: PlanNode) -> Result<
    Seq<QueryStage>,
    String,
> {
    match spec_plan_subtree(job_id, plan, 0) {
        Ok(p) => Ok(
            p.1.push(
                QueryStage {
                    stage_id: p.1.len() as u32,
                    partitioning: Partitioning::Single,
                    plan: p.0,
                },
            ),
        ),
        Err(e) => Err(e),
    }
}

/// A subtree never cuts more stages than it has nodes.
pub proof fn lemma_plan_subtree_stage_count(job_id: String, node: PlanNode, next_stage_id: int)
    ensures
        spec_plan_subtree(job_id, node, next_stage_id) matches Ok(p) ==> p.1.len() <= node.size(),
    decreases node,
{
    match node {
        PlanNode::Unary { child, .. } => {
            lemma_plan_subtree_stage_count(job_id, *child, next_stage_id);
        },
        PlanNode::Binary { left, right, .. } => {
            lemma_plan_subtree_stage_count(job_id, *left, next_stage_id);
            if let Ok(pl) = spec_plan_subtree(job_id, *left, next_stage_id) {
                lemma_plan_subtree_stage_count(job_id, *right, next_stage_id + pl.1.len());
            }
        },
        PlanNode::Repartition { child, .. } => {
            lemma_plan_subtree_stage_count(job_id, *child, next_stage_id);
        },
        PlanNode::Coalesce { child } => {
            lemma_plan_subtree_stage_count(job_id, *child, next_stage_id);
        },
        _ => {},
    }
}

/// Stage ids match emit order: the stages a subtree cuts are numbered
/// consecutively from `next_stage_id`.
pub proof fn lemma_plan_subtree_stage_ids(job_id: String, node: PlanNode, next_stage_id: int)
    requires
        0 <= next_stage_id,
        next_stage_id + node.size() <= 0x1_0000_0000,
    ensures
        spec_plan_subtree(job_id, node, next_stage_id) matches Ok(p) ==> forall|i: int|
            0 <= i < p.1.len() ==> #[trigger] p.1[i].stage_id == next_stage_id + i,
    decreases node,
{
    match node {
        PlanNode::Unary { child, .. } => {
            lemma_plan_subtree_stage_ids(job_id, *child, next_stage_id);
        },
        PlanNode::Binary { left, right, .. } => {
            lemma_plan_subtree_stage_count(job_id, *left, next_stage_id);
            lemma_plan_subtree_stage_ids(job_id, *left, next_stage_id);
            if let Ok(pl) = spec_plan_subtree(job_id, *left, next_stage_id) {
                lemma_plan_subtree_stage_count(job_id, *right, next_stage_id + pl.1.len());
                lemma_plan_subtree_stage_ids(job_id, *right, next_stage_id + pl.1.len());
            }
        },
        PlanNode::Repartition { child, .. } => {
            lemma_plan_subtree_stage_count(job_id, *child, next_stage_id);
            lemma_plan_subtree_stage_ids(job_id, *child, next_stage_id);
        },
        PlanNode::Coalesce { child } => {
            lemma_plan_subtree_stage_ids(job_id, *child, next_stage_id);
        },
        _ => {},
    }
}

/// Planner determinism: identical input plans yield stages with identical
/// ids, ordering and partitioning descriptors.
pub proof fn lemma_planner_deterministic(
    job_id: String,
    plan_a: PlanNode,
    plan_b: PlanNode,
)
    requires
        plan_a == plan_b,
    ensures
        spec_plan_query_stages(job_id, plan_a) == spec_plan_query_stages(job_id, plan_b),
{
}

/// Splits physical plans into shuffle stages for one job.
pub struct DistributedPlanner {}

impl DistributedPlanner {
    pub fn new() -> (r: Self) {
        DistributedPlanner {  }
    }

    /// Rewrites one subtree, appending cut stages; mirrors
    /// `spec_plan_subtree` exactly.
    fn plan_subtree(job_id: &String, node: PlanNode, next_stage_id: u32) -> (r: Result<
        (PlanNode, Vec<QueryStage>),
        String,
    >)
        requires
            next_stage_id + node.size() <= 0x1_0000_0000,
        ensures
            spec_plan_subtree(*job_id, node, next_stage_id as int) matches Ok(p) ==> (r matches Ok(
                q,
            ) && q.0 == p.0 && q.1@ =~= p.1),
            spec_plan_subtree(*job_id, node, next_stage_id as int) matches Err(e) ==> (r matches Err(
                e2,
            ) && e2 == e),
        decreases node,
    {
        match node {
            PlanNode::Leaf { name, partition_count } => Ok(
                (PlanNode::Leaf { name, partition_count }, Vec::new()),
            ),
            PlanNode::Unary { name, child } => {
                match Self::plan_subtree(job_id, *child, next_stage_id) {
                    Ok((c, st)) => Ok((PlanNode::Unary { name, child: Box::new(c) }, st)),
                    Err(e) => Err(e),
                }
            },
            PlanNode::Binary { name, left, right } => {
                let ghost left_snapshot = *left;
                proof {
                    lemma_plan_subtree_stage_count(*job_id, left_snapshot, next_stage_id as int);
                }
                match Self::plan_subtree(job_id, *left, next_stage_id) {
                    Ok((l, mut stl)) => {
                        let next_right = next_stage_id + stl.len() as u32;
                        match Self::plan_subtree(job_id, *right, next_right) {
                            Ok((rt, mut str2)) => {
                                stl.append(&mut str2);
                                Ok(
                                    (
                                        PlanNode::Binary {
                                            name,
                                            left: Box::new(l),
                                            right: Box::new(rt),
                                        },
                                        stl,
                                    ),
                                )
                            },
                            Err(e) => Err(e),
                        }
                    },
                    Err(e) => Err(e),
                }
            },
            PlanNode::Repartition { partitioning, child } => {
                let ghost child_snapshot = *child;
                proof {
                    lemma_plan_subtree_stage_count(*job_id, child_snapshot, next_stage_id as int);
                }
                match Self::plan_subtree(job_id, *child, next_stage_id) {
                    Ok((c, mut st)) => {
                        let stage_id = next_stage_id + st.len() as u32;
                        st.push(QueryStage { stage_id, partitioning, plan: c });
                        Ok(
                            (
                                PlanNode::ShuffleReader {
                                    job_id: job_id.clone(),
                                    stage_id,
                                    partitioning,
                                },
                                st,
                            ),
                        )
                    },
                    Err(e) => Err(e),
                }
            },
            PlanNode::Coalesce { child } => {
                match Self::plan_subtree(job_id, *child, next_stage_id) {
                    Ok((c, st)) => Ok((PlanNode::Coalesce { child: Box::new(c) }, st)),
                    Err(e) => Err(e),
                }
            },
            PlanNode::ShuffleReader { job_id: j, stage_id, partitioning } => Ok(
                (PlanNode::ShuffleReader { job_id: j, stage_id, partitioning }, Vec::new()),
            ),
            PlanNode::Unsupported { name } => Err(name),
        }
    }

    /// Splits `plan` into an ordered list of stages, leaves first. Stage
    /// ids equal positions in the returned list, so every shuffle reader
    /// in a stage references a stage with a smaller id. Fails exactly
    /// when the plan holds an unsupported operator, returning its name.
    pub fn plan_query_stages(&mut self, job_id: &String, plan: PlanNode) -> (r: Result<
        Vec<QueryStage>,
        String,
    >)
        requires
            plan.size() < 0x1_0000_0000,
        ensures
            spec_plan_query_stages(*job_id, plan) matches Ok(st) ==> (r matches Ok(v) && v@ =~= st
                && forall|i: int| 0 <= i < v@.len() ==> #[trigger] v@[i].stage_id == i),
            spec_plan_query_stages(*job_id, plan) matches Err(e) ==> (r matches Err(e2) && e2 == e),
    {
        let ghost plan_snapshot = plan;
        proof {
            lemma_plan_subtree_stage_count(*job_id, plan_snapshot, 0);
            lemma_plan_subtree_stage_ids(*job_id, plan_snapshot, 0);
        }
        match Self::plan_subtree(job_id, plan, 0) {
            Ok((root, mut stages)) => {
                let stage_id = stages.len() as u32;
                stages.push(
                    QueryStage { stage_id, partitioning: Partitioning::Single, plan: root },
                );
                Ok(stages)
            },
            Err(e) => Err(e),
        }
    }
}

} // verus!
