//! Script-level data: the loaded source text and the diagnostics that the
//! rules report about it.

mod code;
mod issue_summary;

pub use self::code::Code;
pub use self::code::CodeView;
pub use self::issue_summary::Issue;
pub use self::issue_summary::IssueSummary;
pub use self::issue_summary::issues_view;
pub use self::issue_summary::lemma_issues_view_push;
