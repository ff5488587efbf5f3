//! The order of the stages of a run, and how a run ends.
use vstd::prelude::*;

verus! {

/// One stage of a run.
#[derive(Debug, Clone, Copy, PartialEq, Eq, Structural)]
pub enum Stage {
    /// Read the command line.
    ReadOptions,
    /// Load the font and its glyph-cell metrics.
    LoadFont,
    /// Decode and crop the image, extract grayscale and alpha.
    LoadImage,
    /// Local contrast, background mask, stretch, sharpen, fade.
    Process,
    /// Pixels to glyphs.
    Convert,
    /// Draw the glyphs and save the PNG.
    Render,
}

/// How a stage ended.
#[derive(Debug, Clone, Copy, PartialEq, Eq, Structural)]
pub enum StageOutcome {
    /// The stage did its work.
    Succeeded,
    /// The stage answered the run itself (the usage text was asked for).
    Answered,
    /// The stage failed; its error has been reported.
    Failed,
}

/// What comes after a stage.
#[derive(Debug, Clone, Copy, PartialEq, Eq, Structural)]
pub enum Next {
    /// Perform this stage.
    Perform(Stage),
    /// Stop with this process exit code.
    Exit(i32),
}

/// The stage after `stage`, when there is one.
pub open spec fn successor(stage: Stage) -> Option<Stage> {
    match stage {
        Stage::ReadOptions => Some(Stage::LoadFont),
        Stage::LoadFont => Some(Stage::LoadImage),
        Stage::LoadImage => Some(Stage::Process),
        Stage::Process => Some(Stage::Convert),
        Stage::Convert => Some(Stage::Render),
        Stage::Render => None,
    }
}

/// What follows `stage` ending with `outcome`: a failure exits with 1, an answer with
/// 0, a success moves to the next stage, and after the last stage the run exits with 0.
pub open spec fn next_step(stage: Stage, outcome: StageOutcome) -> Next {
    match outcome {
        StageOutcome::Failed => Next::Exit(1),
        StageOutcome::Answered => Next::Exit(0),
        StageOutcome::Succeeded => match successor(stage) {
            Some(s) => Next::Perform(s),
            None => Next::Exit(0),
        },
    }
}

/// The stage a run starts with.
pub open spec fn first_stage() -> Stage {
    Stage::ReadOptions
}

/// Decides what a run does after `stage` ended with `outcome`.
pub fn run(stage: Stage, outcome: StageOutcome) -> (next: Next)
    ensures
        next == next_step(stage, outcome),
{
    match outcome {
        StageOutcome::Failed => Next::Exit(1),
        StageOutcome::Answered => Next::Exit(0),
        StageOutcome::Succeeded => match stage {
            Stage::ReadOptions => Next::Perform(Stage::LoadFont),
            Stage::LoadFont => Next::Perform(Stage::LoadImage),
            Stage::LoadImage => Next::Perform(Stage::Process),
            Stage::Process => Next::Perform(Stage::Convert),
            Stage::Convert => Next::Perform(Stage::Render),
            Stage::Render => Next::Exit(0),
        },
    }
}

/// The stages reached from the first one when every stage succeeds, in order.
pub open spec fn stages_in_order() -> Seq<Stage> {
    seq![
        Stage::ReadOptions,
        Stage::LoadFont,
        Stage::LoadImage,
        Stage::Process,
        Stage::Convert,
        Stage::Render,
    ]
}

/// When every stage succeeds, a run performs each stage once, in pipeline order,
/// then exits with 0.
pub proof fn lemma_successful_run()
    ensures
        stages_in_order()[0] == first_stage(),
        forall|i: int|
            0 <= i < 5 ==> next_step(#[trigger] stages_in_order()[i], StageOutcome::Succeeded)
                == Next::Perform(stages_in_order()[i + 1]),
        next_step(stages_in_order()[5], StageOutcome::Succeeded) == Next::Exit(0),
{
}

/// A failed stage ends the run with exit code 1, whichever stage it was.
pub proof fn lemma_failure_exits(stage: Stage)
    ensures
        next_step(stage, StageOutcome::Failed) == Next::Exit(1),
{
}

} // verus!
