//! Diagnostics with the place that they speak of.

use vstd::prelude::*;

verus! {

/// Why input was refused, and where.
#[derive(Debug, Clone)]
pub struct GateError {
    pub code: &'static str,
    pub path: String,
    pub offset: u64,
    pub detail: String,
}

/// A diagnostic as plain values.
pub struct Problem {
    pub code: Seq<char>,
    pub path: Seq<char>,
    pub offset: u64,
    pub detail: Seq<char>,
}

impl View for GateError {
    type V = Problem;

    open spec fn view(&self) -> Problem {
        Problem {
            code: self.code@,
            path: self.path@,
            offset: self.offset,
            detail: self.detail@,
        }
    }
}

pub open spec fn problem(
    code: Seq<char>,
    path: Seq<char>,
    offset: int,
    detail: Seq<char>,
) -> Problem {
    Problem { code, path, offset: offset as u64, detail }
}

impl GateError {
    pub fn new(code: &'static str, path: &str, offset: u64, detail: &str) -> (error: Self)
        ensures
            error@ == problem(code@, path@, offset as int, detail@),
    {
        GateError { code, path: path.to_owned(), offset, detail: detail.to_owned() }
    }
}

/// A result is the expected one.
pub open spec fn told<T>(expected: Result<T, Problem>, given: Result<T, GateError>) -> bool {
    match given {
        Ok(value) => expected == Ok::<T, Problem>(value),
        Err(error) => expected == Err::<T, Problem>(error@),
    }
}

/// A text is the expected one.
pub open spec fn told_text(
    expected: Result<Seq<char>, Problem>,
    given: Result<String, GateError>,
) -> bool {
    match given {
        Ok(text) => expected == Ok::<Seq<char>, Problem>(text@),
        Err(error) => expected == Err::<Seq<char>, Problem>(error@),
    }
}

} // verus!
