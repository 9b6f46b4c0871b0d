//! The order in which an analysis touches files, and what it answers when one of
//! them fails it.

use vstd::prelude::*;
use crate::text;
use crate::text::push_decimal;

verus! {

/// What an analysis does to files, one step after the other.
#[derive(Clone, Copy, Debug, PartialEq, Eq, Structural)]
pub enum Stage {
    /// Tell the report from the old policy.
    CompareWithOld,
    /// Tell the report from the proposed policy.
    CompareWithProposed,
    /// Remove an earlier report.
    RemovePrior,
    /// Read and validate both policies.
    ReadPolicies,
    /// Write the report.
    WriteReport,
    /// Remove what there is of the report.
    Withdraw,
    Done,
}

/// How far an analysis has come, and the error that it will end with, if any.
#[derive(Debug)]
pub struct Progress {
    pub stage: Stage,
    pub error: Option<String>,
}

pub struct ProgressView {
    pub stage: Stage,
    pub error: Option<Seq<char>>,
}

pub open spec fn shown(error: Option<String>) -> Option<Seq<char>> {
    match error {
        Some(error) => Some(error@),
        None => None,
    }
}

impl View for Progress {
    type V = ProgressView;

    open spec fn view(&self) -> ProgressView {
        ProgressView { stage: self.stage, error: shown(self.error) }
    }
}

/// What comes after a step that succeeded, or failed for the given reason.
pub open spec fn advanced(before: ProgressView, failure: Option<Seq<char>>) -> ProgressView {
    match failure {
        None => ProgressView {
            stage: match before.stage {
                Stage::CompareWithOld => Stage::CompareWithProposed,
                Stage::CompareWithProposed => Stage::RemovePrior,
                Stage::RemovePrior => Stage::ReadPolicies,
                Stage::ReadPolicies => Stage::WriteReport,
                _ => Stage::Done,
            },
            ..before
        },
        Some(reason) => match before.stage {
            Stage::ReadPolicies | Stage::WriteReport => ProgressView {
                stage: Stage::Withdraw,
                error: Some(reason),
            },
            Stage::Withdraw => ProgressView {
                stage: Stage::Done,
                error: match before.error {
                    Some(error) => Some(
                        error
                            + "\nadditionally failed to keep requested report path absent: "@
                            + reason,
                    ),
                    None => Some(reason),
                },
            },
            Stage::Done => before,
            _ => ProgressView { stage: Stage::Done, error: Some(reason) },
        },
    }
}

impl Progress {
    pub fn new() -> (progress: Self)
        ensures
            progress@ == (ProgressView { stage: Stage::CompareWithOld, error: None }),
    {
        Progress { stage: Stage::CompareWithOld, error: None }
    }

    /// Goes on after a step that succeeded, or failed for the given reason.
    pub fn advance(self, failure: Option<String>) -> (after: Self)
        ensures
            after@ == advanced(self@, shown(failure)),
    {
        let Progress { stage, error } = self;
        match failure {
            None => Progress {
                stage: match stage {
                    Stage::CompareWithOld => Stage::CompareWithProposed,
                    Stage::CompareWithProposed => Stage::RemovePrior,
                    Stage::RemovePrior => Stage::ReadPolicies,
                    Stage::ReadPolicies => Stage::WriteReport,
                    _ => Stage::Done,
                },
                error,
            },
            Some(reason) => match stage {
                Stage::ReadPolicies | Stage::WriteReport => Progress {
                    stage: Stage::Withdraw,
                    error: Some(reason),
                },
                Stage::Withdraw => Progress {
                    stage: Stage::Done,
                    error: match error {
                        Some(error) => {
                            let mut both = error;
                            both.append(
                                "\nadditionally failed to keep requested report path absent: ",
                            );
                            both.append(reason.as_str());
                            Some(both)
                        },
                        None => Some(reason),
                    },
                },
                Stage::Done => Progress { stage, error },
                _ => Progress { stage: Stage::Done, error: Some(reason) },
            },
        }
    }
}

/// An analysis that fails once it has removed an earlier report withdraws what
/// there is of the new one, and ends with the error that it failed with first.
pub proof fn failed_analysis_withdraws_report(
    before: ProgressView,
    reason: Seq<char>,
    withdrawal: Option<Seq<char>>,
)
    requires
        before.stage is ReadPolicies || before.stage is WriteReport,
    ensures
        advanced(before, Some(reason)).stage is Withdraw,
        ({
            let ended = advanced(advanced(before, Some(reason)), withdrawal);
            ended.stage is Done && ended.error is Some && ended.error->0.take(reason.len() as int)
                == reason
        }),
{
    let ended = advanced(advanced(before, Some(reason)), withdrawal);
    assert(ended.error->0.take(reason.len() as int) =~= reason);
}

/// Lines with a line break between them.
pub open spec fn broken_lines(lines: Seq<Seq<char>>) -> Seq<char>
    decreases lines.len(),
{
    if lines.len() == 0 {
        Seq::empty()
    } else if lines.len() == 1 {
        lines[0]
    } else {
        broken_lines(lines.drop_last()) + "\n"@ + lines.last()
    }
}

pub open spec fn all_shown(lines: Seq<String>) -> Seq<Seq<char>> {
    lines.map_values(|line: String| line@)
}

/// Appends lines to a text that ends in others, or in none.
fn push_lines(
    out: &mut String,
    lines: &Vec<String>,
    none: bool,
    Ghost(start): Ghost<Seq<char>>,
    Ghost(before): Ghost<Seq<Seq<char>>>,
)
    requires
        old(out)@ == start + broken_lines(before),
        none == (before.len() == 0),
    ensures
        final(out)@ == start + broken_lines(before + all_shown(lines@)),
{
    let ghost shown = all_shown(lines@);
    let mut i: usize = 0;
    assert(before + shown.take(0) =~= before);
    while i < lines.len()
        invariant
            i <= lines@.len(),
            shown == all_shown(lines@),
            none == (before.len() == 0),
            out@ == start + broken_lines(before + shown.take(i as int)),
        decreases lines@.len() - i,
    {
        let ghost all = before + shown.take(i + 1);
        assert(all.drop_last() =~= before + shown.take(i as int));
        assert(all.last() == lines@[i as int]@);
        if !none || i > 0 {
            out.append("\n");
        }
        out.append(lines[i].as_str());
        assert(out@ =~= start + broken_lines(all));
        i = i + 1;
    }
    assert(shown.take(lines@.len() as int) =~= shown);
}

/// What is answered when one of the policies, or both, is refused: everything
/// that is wrong with the old one, then with the proposed one.
pub fn refused_pair(old_faults: &Vec<String>, proposed_faults: &Vec<String>) -> (message: String)
    ensures
        message@ == "input validation failed; no semantic verdict was produced:\n"@ + broken_lines(
            all_shown(old_faults@) + all_shown(proposed_faults@),
        ),
{
    let mut message = "input validation failed; no semantic verdict was produced:\n".to_owned();
    let ghost start = message@;
    let ghost none = Seq::<Seq<char>>::empty();
    assert(message@ =~= start + broken_lines(none));
    push_lines(&mut message, old_faults, true, Ghost(start), Ghost(none));
    assert(none + all_shown(old_faults@) =~= all_shown(old_faults@));
    push_lines(
        &mut message,
        proposed_faults,
        old_faults.len() == 0,
        Ghost(start),
        Ghost(all_shown(old_faults@)),
    );
    message
}

/// How often a temporary report is created under another name.
pub const MAX_TEMPORARY_ATTEMPTS: usize = 256;

/// What is done to write a report, one step after the other.
#[derive(Clone, Copy, Debug, PartialEq, Eq, Structural)]
pub enum WriteStage {
    /// Create a temporary report that was not there before.
    Create,
    /// Write and flush it.
    Fill,
    /// Rename it to the report.
    Publish,
    /// Remove it.
    Discard,
    Done,
}

/// What came of a step.
#[derive(Debug)]
pub enum StepOutcome {
    Done,
    /// The temporary report was there before.
    Exists,
    Failed(String),
}

/// How far a report has been written, under which of the temporary names, and the
/// error that it will end with, if any.
#[derive(Debug)]
pub struct Writing {
    pub stage: WriteStage,
    pub attempt: usize,
    pub error: Option<String>,
}

pub struct WritingView {
    pub stage: WriteStage,
    pub attempt: usize,
    pub error: Option<Seq<char>>,
}

impl View for Writing {
    type V = WritingView;

    open spec fn view(&self) -> WritingView {
        WritingView { stage: self.stage, attempt: self.attempt, error: shown(self.error) }
    }
}

/// The temporary name of a report for one attempt.
pub open spec fn temporary_name_of(
    name: Seq<char>,
    process: nat,
    attempt: nat,
) -> Seq<char> {
    "."@ + name + ".tmp-"@ + text::decimal(process) + if attempt == 0 {
        Seq::empty()
    } else {
        "-"@ + text::decimal(attempt)
    }
}

/// The temporary name of a report for one attempt.
pub fn temporary_name(name: &str, process: u32, attempt: usize) -> (temporary: String)
    ensures
        temporary@ == temporary_name_of(name@, process as nat, attempt as nat),
{
    let mut temporary = ".".to_owned();
    temporary.append(name);
    temporary.append(".tmp-");
    push_decimal(&mut temporary, process as u64);
    let ghost before = temporary@;
    if attempt > 0 {
        temporary.append("-");
        push_decimal(&mut temporary, attempt as u64);
        assert(temporary@ =~= before + ("-"@ + text::decimal(attempt as nat)));
    } else {
        assert(temporary@ =~= before + Seq::<char>::empty());
    }
    temporary
}

/// What comes after a step. The report and its temporary are shown as given.
pub open spec fn wrote(
    before: WritingView,
    outcome: StepOutcome,
    report: Seq<char>,
    temporary: Seq<char>,
) -> WritingView {
    match (before.stage, outcome) {
        (WriteStage::Create, StepOutcome::Done) => WritingView {
            stage: WriteStage::Fill,
            ..before
        },
        (WriteStage::Create, StepOutcome::Exists) => if before.attempt + 1
            < MAX_TEMPORARY_ATTEMPTS {
            WritingView { attempt: (before.attempt + 1) as usize, ..before }
        } else {
            WritingView {
                stage: WriteStage::Done,
                error: Some(
                    "cannot create a fresh temporary report after 256 collisions for "@ + report,
                ),
                ..before
            }
        },
        (WriteStage::Create, StepOutcome::Failed(reason)) => WritingView {
            stage: WriteStage::Done,
            error: Some("cannot create temporary report "@ + temporary + ": "@ + reason@),
            ..before
        },
        (WriteStage::Fill, StepOutcome::Done) => WritingView {
            stage: WriteStage::Publish,
            ..before
        },
        (WriteStage::Fill, StepOutcome::Failed(reason)) => WritingView {
            stage: WriteStage::Discard,
            error: Some("cannot write temporary report "@ + temporary + ": "@ + reason@),
            ..before
        },
        (WriteStage::Publish, StepOutcome::Failed(reason)) => WritingView {
            stage: WriteStage::Discard,
            error: Some("cannot publish report "@ + report + ": "@ + reason@),
            ..before
        },
        (WriteStage::Discard, StepOutcome::Failed(reason)) => WritingView {
            stage: WriteStage::Done,
            error: match before.error {
                Some(error) => Some(
                    error + "; additionally cannot remove owned temporary report "@ + temporary
                        + ": "@ + reason@,
                ),
                None => Some(reason@),
            },
            ..before
        },
        _ => WritingView { stage: WriteStage::Done, ..before },
    }
}

fn told(start: &str, subject: &str, reason: &str) -> (message: String)
    ensures
        message@ == start@ + subject@ + ": "@ + reason@,
{
    let mut message = start.to_owned();
    message.append(subject);
    message.append(": ");
    message.append(reason);
    message
}

impl Writing {
    pub fn new() -> (writing: Self)
        ensures
            writing@ == (WritingView { stage: WriteStage::Create, attempt: 0, error: None }),
    {
        Writing { stage: WriteStage::Create, attempt: 0, error: None }
    }

    /// Goes on after a step.
    pub fn advance(self, outcome: StepOutcome, report: &str, temporary: &str) -> (after: Self)
        requires
            self.attempt < MAX_TEMPORARY_ATTEMPTS,
        ensures
            after.attempt < MAX_TEMPORARY_ATTEMPTS,
            after@ == wrote(self@, outcome, report@, temporary@),
    {
        let Writing { stage, attempt, error } = self;
        match (stage, outcome) {
            (WriteStage::Create, StepOutcome::Done) => Writing {
                stage: WriteStage::Fill,
                attempt,
                error,
            },
            (WriteStage::Create, StepOutcome::Exists) => if attempt + 1 < MAX_TEMPORARY_ATTEMPTS {
                Writing { stage, attempt: attempt + 1, error }
            } else {
                let mut message =
                    "cannot create a fresh temporary report after 256 collisions for ".to_owned();
                message.append(report);
                Writing { stage: WriteStage::Done, attempt, error: Some(message) }
            },
            (WriteStage::Create, StepOutcome::Failed(reason)) => Writing {
                stage: WriteStage::Done,
                attempt,
                error: Some(told("cannot create temporary report ", temporary, reason.as_str())),
            },
            (WriteStage::Fill, StepOutcome::Done) => Writing {
                stage: WriteStage::Publish,
                attempt,
                error,
            },
            (WriteStage::Fill, StepOutcome::Failed(reason)) => Writing {
                stage: WriteStage::Discard,
                attempt,
                error: Some(told("cannot write temporary report ", temporary, reason.as_str())),
            },
            (WriteStage::Publish, StepOutcome::Failed(reason)) => Writing {
                stage: WriteStage::Discard,
                attempt,
                error: Some(told("cannot publish report ", report, reason.as_str())),
            },
            (WriteStage::Discard, StepOutcome::Failed(reason)) => Writing {
                stage: WriteStage::Done,
                attempt,
                error: match error {
                    Some(error) => {
                        let mut both = error;
                        both.append("; additionally cannot remove owned temporary report ");
                        both.append(temporary);
                        both.append(": ");
                        both.append(reason.as_str());
                        Some(both)
                    },
                    None => Some(reason),
                },
            },
            _ => Writing { stage: WriteStage::Done, attempt, error },
        }
    }
}

/// A temporary report that was created and not renamed is removed.
pub proof fn failed_temporary_is_discarded(
    before: WritingView,
    reason: String,
    report: Seq<char>,
    temporary: Seq<char>,
)
    requires
        before.stage is Fill || before.stage is Publish,
    ensures
        wrote(before, StepOutcome::Failed(reason), report, temporary).stage is Discard,
        wrote(before, StepOutcome::Failed(reason), report, temporary).error is Some,
{
}

} // verus!
