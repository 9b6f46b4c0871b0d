//! What a publication does at each step when a fault is injected.

use vstd::prelude::*;
use crate::refund::model::FailPoint;
use crate::text;
use crate::text::push_decimal;

verus! {

/// The steps of a publication at which a fault can be injected.
#[derive(Debug, Clone, Copy, PartialEq, Eq, Structural)]
pub enum Step {
    /// Nothing has been written.
    Start,
    /// The temporary file is complete and flushed.
    TemporaryComplete,
}

/// What a publication is made to do at a step.
#[derive(Debug, PartialEq, Eq)]
pub enum Injection {
    Proceed,
    Fail(String),
    Exit(i32),
}

/// The status with which an injected exit ends the process.
pub const INJECTED_EXIT: i32 = 86;

pub open spec fn failure_at(failpoint: FailPoint, step: Step) -> Option<Seq<char>> {
    match (failpoint, step) {
        (FailPoint::BeforeOutputCreation, Step::Start) => Some(
            "injected failure before output creation"@,
        ),
        (FailPoint::AfterTemporaryComplete, Step::TemporaryComplete) => Some(
            "injected failure after temporary output is complete"@,
        ),
        (FailPoint::BeforePublish, Step::TemporaryComplete) => Some(
            "injected failure immediately before publication"@,
        ),
        _ => None,
    }
}

pub open spec fn exits_at(failpoint: FailPoint, step: Step) -> bool {
    match step {
        Step::Start => failpoint == FailPoint::ExitBeforeOutputCreation,
        Step::TemporaryComplete => failpoint == FailPoint::ExitAfterTemporaryComplete || failpoint
            == FailPoint::ExitBeforePublish,
    }
}

/// The fault that a failpoint injects at a step.
pub fn injected(failpoint: FailPoint, step: Step) -> (injection: Injection)
    ensures
        match injection {
            Injection::Proceed => failure_at(failpoint, step) is None && !exits_at(failpoint, step),
            Injection::Fail(message) => failure_at(failpoint, step) == Some(message@),
            Injection::Exit(status) => exits_at(failpoint, step) && status == INJECTED_EXIT,
        },
{
    match step {
        Step::Start => match failpoint {
            FailPoint::ExitBeforeOutputCreation => Injection::Exit(INJECTED_EXIT),
            FailPoint::BeforeOutputCreation => Injection::Fail(
                "injected failure before output creation".to_owned(),
            ),
            _ => Injection::Proceed,
        },
        Step::TemporaryComplete => match failpoint {
            FailPoint::ExitAfterTemporaryComplete => Injection::Exit(INJECTED_EXIT),
            FailPoint::AfterTemporaryComplete => Injection::Fail(
                "injected failure after temporary output is complete".to_owned(),
            ),
            FailPoint::BeforePublish => Injection::Fail(
                "injected failure immediately before publication".to_owned(),
            ),
            FailPoint::ExitBeforePublish => Injection::Exit(INJECTED_EXIT),
            _ => Injection::Proceed,
        },
    }
}

/// The name of the file that a publication writes before it renames it.
pub fn temporary_name(file_name: Option<&str>, process: u32) -> (name: String)
    ensures
        name@ == "."@ + (match file_name {
            Some(file_name) => file_name@,
            None => "report"@,
        }) + ".tmp-"@ + text::decimal(process as nat),
{
    let mut name = ".".to_owned();
    match file_name {
        Some(file_name) => name.append(file_name),
        None => name.append("report"),
    }
    name.append(".tmp-");
    push_decimal(&mut name, process as u64);
    name
}

/// A publication without a failpoint is never disturbed, and any other
/// failpoint disturbs it before the output is replaced.
pub proof fn failpoints_prevent_publication(failpoint: FailPoint)
    ensures
        failpoint == FailPoint::Never <==> (failure_at(failpoint, Step::Start) is None && !exits_at(
            failpoint,
            Step::Start,
        ) && failure_at(failpoint, Step::TemporaryComplete) is None && !exits_at(
            failpoint,
            Step::TemporaryComplete,
        )),
{
}

} // verus!
