//! The three kinds of input record, as a record source hands them over.

use crate::names::Name;
use crate::text::{canonical, canonical_handle};
use vstd::prelude::*;

verus! {

/// One person's answers to the survey.
#[derive(Debug, Clone)]
pub struct StudentFeedback {
    pub email_addr: String,
    pub school_username: String,
    pub github_username: String,
    pub solo: String,
    pub last_teammate_github_username: Option<String>,
    pub last_teammate_feedback: Option<String>,
    pub last_teammate_additional_feedback: Option<String>,
    pub veto0: Option<String>,
    pub veto1: Option<String>,
    pub veto2: Option<String>,
    pub want0: Option<String>,
    pub want1: Option<String>,
    pub want2: Option<String>,
}

/// One person of the population, with the categories they belong to.
#[derive(Debug, Clone)]
pub struct StudentClassification {
    pub name: String,
    pub school_username: String,
    pub github_username: String,
    pub classifications: Option<String>,
}

/// A rule between two categories: the members of `class_other` attract
/// (`+` in `relation`) or repel (`-`) the members of `class`.
#[derive(Debug, Clone)]
pub struct ClassificationRelations {
    pub class: String,
    pub class_other: String,
    pub relation: String,
}

/// The text of an optional field; an absent field reads as the empty text.
pub open spec fn text_or_empty(field: Option<String>) -> Name {
    match field {
        Some(s) => s@,
        None => Seq::empty(),
    }
}

/// The text of an optional field, if the field is present.
pub open spec fn text_of(field: Option<String>) -> Option<Name> {
    match field {
        Some(s) => Some(s@),
        None => None,
    }
}

impl StudentFeedback {
    /// The record with both of its own handles in canonical form. Every
    /// other field is kept as it is.
    pub fn canonicalized(self) -> (r: Self)
        ensures
            r.school_username@ == canonical(self.school_username@),
            r.github_username@ == canonical(self.github_username@),
            r.email_addr == self.email_addr,
            r.solo == self.solo,
            r.last_teammate_github_username == self.last_teammate_github_username,
            r.last_teammate_feedback == self.last_teammate_feedback,
            r.last_teammate_additional_feedback == self.last_teammate_additional_feedback,
            r.veto0 == self.veto0,
            r.veto1 == self.veto1,
            r.veto2 == self.veto2,
            r.want0 == self.want0,
            r.want1 == self.want1,
            r.want2 == self.want2,
    {
        let school_username = canonical_handle(self.school_username.as_str());
        let github_username = canonical_handle(self.github_username.as_str());
        StudentFeedback {
            email_addr: self.email_addr,
            school_username,
            github_username,
            solo: self.solo,
            last_teammate_github_username: self.last_teammate_github_username,
            last_teammate_feedback: self.last_teammate_feedback,
            last_teammate_additional_feedback: self.last_teammate_additional_feedback,
            veto0: self.veto0,
            veto1: self.veto1,
            veto2: self.veto2,
            want0: self.want0,
            want1: self.want1,
            want2: self.want2,
        }
    }
}

} // verus!
