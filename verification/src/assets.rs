//! The decisions of making sure the model files are on disk: use them when
//! present, otherwise clone the model repository into an empty or missing
//! directory and fetch its large files. The caller performs each step and
//! reports what it found.

use vstd::prelude::*;

verus! {

/// Why the model files could not be made ready.
#[derive(Debug, Clone, Copy, PartialEq, Eq, Structural)]
pub enum AssetsFailure {
    /// The model directory exists, is not empty, and lacks the configuration.
    DirNotEmpty,
    /// Cloning the repository exited with a failure status.
    CloneFailed,
    /// Fetching the large files exited with a failure status.
    LfsPullFailed,
    /// The configuration is still missing after the clone.
    MissingAfterClone,
}

/// The next step to perform.
#[derive(Debug, Clone, Copy, PartialEq, Eq, Structural)]
pub enum AssetsStep {
    /// Check whether the model configuration file exists.
    CheckConfig,
    /// Check whether the model directory exists, whether it is empty, and
    /// whether it has a non-empty parent path.
    InspectDir,
    /// Create the parent directories of the model directory.
    CreateParent,
    /// Clone the model repository, shallowly, into the model directory.
    Clone,
    /// Fetch the repository's large files.
    LfsPull,
    /// Check that the configuration file now exists.
    VerifyConfig,
    /// The model files are ready; `true` when they were present from the start.
    Ready(bool),
    /// The model files cannot be made ready.
    Failed(AssetsFailure),
}

/// What performing a step found.
#[derive(Debug, Clone, Copy, PartialEq, Eq, Structural)]
pub enum AssetsEvent {
    /// Whether the configuration file exists.
    ConfigExists(bool),
    /// What the model directory looks like.
    DirInspected { exists: bool, empty: bool, has_parent: bool },
    /// The parent directories were created.
    ParentCreated,
    /// A command exited, successfully or not.
    Exited(bool),
}

/// The step after `step` when performing it found `event`; an event that
/// does not answer `step` leaves it to be performed again, and the final
/// steps stay as they are.
pub open spec fn assets_transition(step: AssetsStep, event: AssetsEvent) -> AssetsStep {
    match (step, event) {
        (AssetsStep::CheckConfig, AssetsEvent::ConfigExists(present)) => if present {
            AssetsStep::Ready(true)
        } else {
            AssetsStep::InspectDir
        },
        (AssetsStep::InspectDir, AssetsEvent::DirInspected { exists, empty, has_parent }) => if exists {
            if empty {
                AssetsStep::Clone
            } else {
                AssetsStep::Failed(AssetsFailure::DirNotEmpty)
            }
        } else if has_parent {
            AssetsStep::CreateParent
        } else {
            AssetsStep::Clone
        },
        (AssetsStep::CreateParent, AssetsEvent::ParentCreated) => AssetsStep::Clone,
        (AssetsStep::Clone, AssetsEvent::Exited(ok)) => if ok {
            AssetsStep::LfsPull
        } else {
            AssetsStep::Failed(AssetsFailure::CloneFailed)
        },
        (AssetsStep::LfsPull, AssetsEvent::Exited(ok)) => if ok {
            AssetsStep::VerifyConfig
        } else {
            AssetsStep::Failed(AssetsFailure::LfsPullFailed)
        },
        (AssetsStep::VerifyConfig, AssetsEvent::ConfigExists(present)) => if present {
            AssetsStep::Ready(false)
        } else {
            AssetsStep::Failed(AssetsFailure::MissingAfterClone)
        },
        _ => step,
    }
}

/// The first step.
pub fn assets_start() -> (s: AssetsStep)
    ensures
        s == AssetsStep::CheckConfig,
{
    AssetsStep::CheckConfig
}

/// The step after `step`, given what performing it found.
pub fn assets_next(step: AssetsStep, event: AssetsEvent) -> (next: AssetsStep)
    ensures
        next == assets_transition(step, event),
{
    match (step, event) {
        (AssetsStep::CheckConfig, AssetsEvent::ConfigExists(present)) => if present {
            AssetsStep::Ready(true)
        } else {
            AssetsStep::InspectDir
        },
        (AssetsStep::InspectDir, AssetsEvent::DirInspected { exists, empty, has_parent }) => if exists {
            if empty {
                AssetsStep::Clone
            } else {
                AssetsStep::Failed(AssetsFailure::DirNotEmpty)
            }
        } else if has_parent {
            AssetsStep::CreateParent
        } else {
            AssetsStep::Clone
        },
        (AssetsStep::CreateParent, AssetsEvent::ParentCreated) => AssetsStep::Clone,
        (AssetsStep::Clone, AssetsEvent::Exited(ok)) => if ok {
            AssetsStep::LfsPull
        } else {
            AssetsStep::Failed(AssetsFailure::CloneFailed)
        },
        (AssetsStep::LfsPull, AssetsEvent::Exited(ok)) => if ok {
            AssetsStep::VerifyConfig
        } else {
            AssetsStep::Failed(AssetsFailure::LfsPullFailed)
        },
        (AssetsStep::VerifyConfig, AssetsEvent::ConfigExists(present)) => if present {
            AssetsStep::Ready(false)
        } else {
            AssetsStep::Failed(AssetsFailure::MissingAfterClone)
        },
        _ => step,
    }
}

/// Whether `step` ends the procedure.
pub open spec fn is_final(step: AssetsStep) -> bool {
    step is Ready || step is Failed
}

/// The step reached from `start` after the events `events`, in order.
pub open spec fn run_assets(start: AssetsStep, events: Seq<AssetsEvent>) -> AssetsStep
    decreases events.len(),
{
    if events.len() == 0 {
        start
    } else {
        assets_transition(run_assets(start, events.drop_last()), events.last())
    }
}

/// Once the procedure has ended, no later event changes its outcome.
pub proof fn lemma_final_steps_stay(start: AssetsStep, events: Seq<AssetsEvent>, more: Seq<AssetsEvent>)
    requires
        is_final(run_assets(start, events)),
    ensures
        run_assets(start, events + more) == run_assets(start, events),
    decreases more.len(),
{
    if more.len() == 0 {
        assert(events + more =~= events);
    } else {
        lemma_final_steps_stay(start, events, more.drop_last());
        assert((events + more).drop_last() =~= events + more.drop_last());
    }
}

/// When the configuration is found at the first check, the procedure is
/// ready at once and stays so: nothing is cloned or fetched.
pub proof fn lemma_present_config_is_used(more: Seq<AssetsEvent>)
    ensures
        run_assets(AssetsStep::CheckConfig, seq![AssetsEvent::ConfigExists(true)] + more)
            == AssetsStep::Ready(true),
    decreases more.len(),
{
    let first = seq![AssetsEvent::ConfigExists(true)];
    assert(run_assets(AssetsStep::CheckConfig, first) == AssetsStep::Ready(true)) by {
        assert(first.drop_last() =~= Seq::<AssetsEvent>::empty());
        assert(run_assets(AssetsStep::CheckConfig, first.drop_last()) == AssetsStep::CheckConfig);
        assert(first.last() == AssetsEvent::ConfigExists(true));
    }
    lemma_final_steps_stay(AssetsStep::CheckConfig, first, more);
}

} // verus!
