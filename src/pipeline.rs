//! The orchestrator's sequence of stages, and the whole-archive savings.
use vstd::prelude::*;
use crate::text::{chars_of, ends_with, seq_ends_with};

verus! {

/// Where one run of the pipeline stands.
#[derive(Clone, Copy, Debug, PartialEq, Eq, Structural)]
pub enum Stage {
    Idle,
    WorkspaceAcquired,
    Extracted,
    Optimized,
    Repacked,
    /// The new archive has taken the original's place.
    Replaced,
    /// A stage failed after the workspace was acquired.
    Failed,
    /// The workspace is gone; the run is over.
    Released,
}

pub open spec fn advance_spec(stage: Stage, succeeded: bool) -> Stage {
    match stage {
        Stage::Idle => if succeeded {
            Stage::WorkspaceAcquired
        } else {
            Stage::Released
        },
        Stage::WorkspaceAcquired => if succeeded {
            Stage::Extracted
        } else {
            Stage::Failed
        },
        Stage::Extracted => if succeeded {
            Stage::Optimized
        } else {
            Stage::Failed
        },
        Stage::Optimized => if succeeded {
            Stage::Repacked
        } else {
            Stage::Failed
        },
        Stage::Repacked => if succeeded {
            Stage::Replaced
        } else {
            Stage::Failed
        },
        Stage::Replaced => Stage::Released,
        Stage::Failed => Stage::Released,
        Stage::Released => Stage::Released,
    }
}

/// The stage after the work of `stage` ended, successfully or not. A
/// failure before the workspace exists ends the run at once; any later
/// failure goes to `Failed`, whose only step is the release.
pub fn advance(stage: Stage, succeeded: bool) -> (r: Stage)
    ensures
        r == advance_spec(stage, succeeded),
{
    match stage {
        Stage::Idle => if succeeded {
            Stage::WorkspaceAcquired
        } else {
            Stage::Released
        },
        Stage::WorkspaceAcquired => if succeeded {
            Stage::Extracted
        } else {
            Stage::Failed
        },
        Stage::Extracted => if succeeded {
            Stage::Optimized
        } else {
            Stage::Failed
        },
        Stage::Optimized => if succeeded {
            Stage::Repacked
        } else {
            Stage::Failed
        },
        Stage::Repacked => if succeeded {
            Stage::Replaced
        } else {
            Stage::Failed
        },
        Stage::Replaced => Stage::Released,
        Stage::Failed => Stage::Released,
        Stage::Released => Stage::Released,
    }
}

/// The stages in which the workspace exists and must still be released.
pub open spec fn holds_workspace_spec(stage: Stage) -> bool {
    match stage {
        Stage::Idle | Stage::Released => false,
        _ => true,
    }
}

/// Whether the workspace exists in `stage`, so that leaving the run now
/// must release it.
pub fn holds_workspace(stage: Stage) -> (r: bool)
    ensures
        r == holds_workspace_spec(stage),
{
    match stage {
        Stage::Idle | Stage::Released => false,
        _ => true,
    }
}

/// The stages reached from `stage` by the given outcomes, `stage` first.
pub open spec fn run(stage: Stage, outcomes: Seq<bool>) -> Seq<Stage>
    decreases outcomes.len(),
{
    if outcomes.len() == 0 {
        seq![stage]
    } else {
        seq![stage] + run(advance_spec(stage, outcomes[0]), outcomes.drop_first())
    }
}

pub open spec fn rank(stage: Stage) -> nat {
    match stage {
        Stage::Idle => 6,
        Stage::WorkspaceAcquired => 5,
        Stage::Extracted => 4,
        Stage::Optimized => 3,
        Stage::Repacked => 2,
        Stage::Replaced => 1,
        Stage::Failed => 1,
        Stage::Released => 0,
    }
}

/// Whatever each stage's outcome, a run that starts at `Idle` has released
/// its workspace after at most seven steps, and passes through `Replaced`
/// at most once: the original is swapped at most once and never after a
/// failure.
pub proof fn lemma_run_releases(outcomes: Seq<bool>)
    requires
        outcomes.len() >= 7,
    ensures
        run(Stage::Idle, outcomes).last() == Stage::Released,
        forall|i: int, j: int|
            0 <= i < j < run(Stage::Idle, outcomes).len() && #[trigger] run(Stage::Idle, outcomes)[i]
                == Stage::Replaced ==> #[trigger] run(Stage::Idle, outcomes)[j] == Stage::Released,
{
    lemma_run_from(Stage::Idle, outcomes);
}

proof fn lemma_run_from(s: Stage, outcomes: Seq<bool>)
    requires
        outcomes.len() >= rank(s) + 1,
    ensures
        run(s, outcomes).len() == outcomes.len() + 1,
        run(s, outcomes).last() == Stage::Released,
        forall|i: int, j: int|
            0 <= i < j < run(s, outcomes).len() && #[trigger] run(s, outcomes)[i] == Stage::Replaced
                ==> #[trigger] run(s, outcomes)[j] == Stage::Released,
        forall|i: int|
            0 < i < run(s, outcomes).len() ==> #[trigger] run(s, outcomes)[i] == Stage::Released || rank(
                run(s, outcomes)[i],
            ) < rank(s),
    decreases outcomes.len(),
{
    let r = run(s, outcomes);
    if outcomes.len() > 0 {
        let n = advance_spec(s, outcomes[0]);
        let rest = outcomes.drop_first();
        if outcomes.len() == 1 {
            assert(rank(s) == 0);
            assert(rest.len() == 0);
            assert(r == seq![s] + seq![n]);
        } else {
            lemma_run_from(n, rest);
        }
        let tail = run(n, rest);
        assert(r == seq![s] + tail);
        assert forall|i: int| 0 < i < r.len() implies r[i] == tail[i - 1] by {}
        assert(n == Stage::Released || rank(n) < rank(s));
        assert forall|i: int| 0 < i < r.len() implies #[trigger] r[i] == Stage::Released || rank(r[i]) < rank(
            s,
        ) by {
            if i > 1 {
                assert(tail[i - 1] == Stage::Released || rank(tail[i - 1]) < rank(n));
            }
        }
        assert forall|i: int, j: int|
            0 <= i < j < r.len() && #[trigger] r[i] == Stage::Replaced implies #[trigger] r[j]
            == Stage::Released by {
            if i == 0 {
                assert(n == Stage::Released);
                if j > 1 {
                    assert(tail[j - 1] == Stage::Released || rank(tail[j - 1]) < rank(n));
                }
            } else {
                assert(tail[i - 1] == Stage::Replaced);
            }
        }
    }
}

/// Bytes saved on the whole archive; negative when it grew.
pub fn bytes_saved(original_size: u64, new_size: u64) -> (r: i128)
    ensures
        r == original_size - new_size,
{
    original_size as i128 - new_size as i128
}

pub open spec fn epub_suffix() -> Seq<char> {
    seq!['.', 'e', 'p', 'u', 'b']
}

/// Whether `path` names an EPUB file by its `.epub` extension.
pub fn is_epub_path(path: &str) -> (r: bool)
    ensures
        r == ends_with(path@, epub_suffix()),
{
    let p = chars_of(path);
    let mut suffix: Vec<char> = Vec::new();
    suffix.push('.');
    suffix.push('e');
    suffix.push('p');
    suffix.push('u');
    suffix.push('b');
    assert(suffix@ =~= epub_suffix());
    seq_ends_with(&p, &suffix)
}

} // verus!
