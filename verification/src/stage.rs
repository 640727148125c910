//! The git stages that a hook can run at.

use vstd::prelude::*;

verus! {

/// A stage that a hook can run at.
#[derive(Debug, Clone, Copy, PartialEq, Eq, Structural)]
pub enum Stage {
    Manual,
    CommitMsg,
    PostCheckout,
    PostCommit,
    PostMerge,
    PostRewrite,
    PreCommit,
    PreMergeCommit,
    PrePush,
    PreRebase,
    PrepareCommitMsg,
}

impl DeepView for Stage {
    type V = Stage;

    open spec fn deep_view(&self) -> Stage {
        *self
    }
}

/// The name of a stage, as a configuration writes it.
pub open spec fn stage_name(stage: Stage) -> Seq<char> {
    match stage {
        Stage::Manual => "manual"@,
        Stage::CommitMsg => "commit-msg"@,
        Stage::PostCheckout => "post-checkout"@,
        Stage::PostCommit => "post-commit"@,
        Stage::PostMerge => "post-merge"@,
        Stage::PostRewrite => "post-rewrite"@,
        Stage::PreCommit => "pre-commit"@,
        Stage::PreMergeCommit => "pre-merge-commit"@,
        Stage::PrePush => "pre-push"@,
        Stage::PreRebase => "pre-rebase"@,
        Stage::PrepareCommitMsg => "prepare-commit-msg"@,
    }
}

impl Stage {
    /// The name of the stage, as a configuration writes it.
    pub fn as_str(&self) -> (name: &'static str)
        ensures
            name@ == stage_name(*self),
    {
        match self {
            Stage::Manual => "manual",
            Stage::CommitMsg => "commit-msg",
            Stage::PostCheckout => "post-checkout",
            Stage::PostCommit => "post-commit",
            Stage::PostMerge => "post-merge",
            Stage::PostRewrite => "post-rewrite",
            Stage::PreCommit => "pre-commit",
            Stage::PreMergeCommit => "pre-merge-commit",
            Stage::PrePush => "pre-push",
            Stage::PreRebase => "pre-rebase",
            Stage::PrepareCommitMsg => "prepare-commit-msg",
        }
    }
}

/// Whether `stages` holds `stage`.
pub fn contains_stage(stages: &Vec<Stage>, stage: Stage) -> (found: bool)
    ensures
        found == stages@.contains(stage),
{
    for i in 0..stages.len()
        invariant
            forall|k: int| 0 <= k < i ==> stages@[k] != stage,
    {
        if stages[i] == stage {
            return true;
        }
    }
    false
}

/// Each stage has a name of its own: `pre-`, `post-` or neither, and what it comes before or
/// after.
pub proof fn each_stage_has_a_name_of_its_own(one: Stage, other: Stage)
    ensures
        stage_name(one) == match one {
            Stage::PreCommit => "pre-commit"@,
            Stage::PreMergeCommit => "pre-merge-commit"@,
            Stage::PrePush => "pre-push"@,
            Stage::PreRebase => "pre-rebase"@,
            Stage::PostCheckout => "post-checkout"@,
            Stage::PostCommit => "post-commit"@,
            Stage::PostMerge => "post-merge"@,
            Stage::PostRewrite => "post-rewrite"@,
            Stage::PrepareCommitMsg => "prepare-commit-msg"@,
            Stage::CommitMsg => "commit-msg"@,
            Stage::Manual => "manual"@,
        },
        stage_name(one) == stage_name(other) ==> one == other,
{
    reveal_strlit("manual");
    reveal_strlit("commit-msg");
    reveal_strlit("post-checkout");
    reveal_strlit("post-commit");
    reveal_strlit("post-merge");
    reveal_strlit("post-rewrite");
    reveal_strlit("pre-commit");
    reveal_strlit("pre-merge-commit");
    reveal_strlit("pre-push");
    reveal_strlit("pre-rebase");
    reveal_strlit("prepare-commit-msg");
    let name = stage_name(one);
    let another = stage_name(other);
    if name == another {
        assert(name.len() == another.len() && name[0] == another[0] && name[4] == another[4]
            && name[5] == another[5]);
    }
}

} // verus!
