//! Cases and what is shown of them.

use vstd::prelude::*;
use crate::chars::chars_of;

verus! {

#[derive(Clone, Debug, PartialEq, Eq)]
pub struct Case {
    pub case_id: u64,
    pub language: String,
    pub product_area: String,
    pub subject: String,
    pub body: String,
    pub resolution: String,
    pub modified_at: String,
}

/// A case as plain values.
pub struct Account {
    pub case_id: u64,
    pub language: Seq<char>,
    pub product_area: Seq<char>,
    pub subject: Seq<char>,
    pub body: Seq<char>,
    pub resolution: Seq<char>,
    pub modified_at: Seq<char>,
}

impl View for Case {
    type V = Account;

    open spec fn view(&self) -> Account {
        Account {
            case_id: self.case_id,
            language: self.language@,
            product_area: self.product_area@,
            subject: self.subject@,
            body: self.body@,
            resolution: self.resolution@,
            modified_at: self.modified_at@,
        }
    }
}

pub open spec fn accounts(cases: Seq<Case>) -> Seq<Account> {
    cases.map_values(|case: Case| case@)
}

impl Case {
    /// What is searched of a case.
    pub fn search_text(&self) -> (text: String)
        ensures
            text@ == self@.subject + " "@ + self@.body + " "@ + self@.resolution,
    {
        let mut text = self.subject.as_str().to_owned();
        text.append(" ");
        text.append(self.body.as_str());
        text.append(" ");
        text.append(self.resolution.as_str());
        text
    }
}

/// A case as it was first written down.
pub open spec fn case_of(
    case_id: u64,
    language: Seq<char>,
    product_area: Seq<char>,
    subject: Seq<char>,
    body: Seq<char>,
    resolution: Seq<char>,
) -> Account {
    Account {
        case_id,
        language,
        product_area,
        subject,
        body,
        resolution,
        modified_at: "2026-08-01T00:00:00Z"@,
    }
}

/// A case as it was first written down.
pub fn case(
    case_id: u64,
    language: &str,
    product_area: &str,
    subject: &str,
    body: &str,
    resolution: &str,
) -> (case: Case)
    ensures
        case@ == case_of(
            case_id,
            language@,
            product_area@,
            subject@,
            body@,
            resolution@,
        ),
{
    Case {
        case_id,
        language: language.to_owned(),
        product_area: product_area.to_owned(),
        subject: subject.to_owned(),
        body: body.to_owned(),
        resolution: resolution.to_owned(),
        modified_at: "2026-08-01T00:00:00Z".to_owned(),
    }
}

/// The first characters of a body, at most so many.
pub open spec fn excerpt_of(body: Seq<char>) -> Seq<char> {
    if body.len() <= 96 {
        body
    } else {
        body.take(96)
    }
}

/// The beginning of a body, word for word.
pub fn exact_excerpt(body: &str) -> (excerpt: String)
    ensures
        excerpt@ == excerpt_of(body@),
        excerpt@.is_prefix_of(body@),
{
    let letters = chars_of(body);
    let mut excerpt = String::new();
    let mut i: usize = 0;
    while i < letters.len() && i < 96
        invariant
            i <= letters@.len(),
            i <= 96,
            letters@ == body@,
            excerpt@ =~= body@.take(i as int),
        decreases letters@.len() - i,
    {
        excerpt.push(letters[i]);
        i = i + 1;
    }
    assert(excerpt@ =~= excerpt_of(body@));
    excerpt
}

} // verus!
