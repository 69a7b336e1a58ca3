//! One reported finding: a message with the file name and the 1-based line
//! and column it points at.

use vstd::prelude::*;

verus! {

/// Spec-level diagnostic.
pub struct Issue {
    pub file: Seq<char>,
    pub line: nat,
    pub character: nat,
    pub summary: Seq<char>,
}

/// A diagnostic produced by a rule; never mutated after creation.
#[derive(Debug, PartialEq)]
pub struct IssueSummary {
    pub script_file: String,
    pub line: u32,
    pub character: u32,
    pub summary: String,
}

impl Clone for IssueSummary {
    fn clone(&self) -> (r: Self)
        ensures
            r == *self,
    {
        IssueSummary {
            script_file: self.script_file.clone(),
            line: self.line,
            character: self.character,
            summary: self.summary.clone(),
        }
    }
}

impl View for IssueSummary {
    type V = Issue;

    open spec fn view(&self) -> Issue {
        Issue {
            file: self.script_file@,
            line: self.line as nat,
            character: self.character as nat,
            summary: self.summary@,
        }
    }
}

/// The spec-level diagnostics that a vector of diagnostics stands for.
pub open spec fn issues_view(s: Seq<IssueSummary>) -> Seq<Issue> {
    s.map_values(|x: IssueSummary| x@)
}

pub proof fn lemma_issues_view_push(s: Seq<IssueSummary>, x: IssueSummary)
    ensures
        issues_view(s.push(x)) == issues_view(s).push(x@),
{
    assert(issues_view(s.push(x)) =~= issues_view(s).push(x@));
}

impl IssueSummary {
    /// Builds a diagnostic from the file name, position and message.
    pub fn new(script_file: &str, line: u32, character: u32, summary: &str) -> (r: IssueSummary)
        ensures
            r@ == (Issue {
                file: script_file@,
                line: line as nat,
                character: character as nat,
                summary: summary@,
            }),
    {
        IssueSummary {
            script_file: script_file.to_owned(),
            line,
            character,
            summary: summary.to_owned(),
        }
    }
}

} // verus!
