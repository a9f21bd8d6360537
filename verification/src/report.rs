//! What building the model can report: warnings, which drop one entry and
//! let the run go on, and errors, which end it.

use crate::names::Name;
use vstd::prelude::*;
use vstd::string::StringExecFns;

verus! {

/// An entry that was dropped while the model was built.
#[derive(Debug, Clone, PartialEq, Eq)]
pub enum Warning {
    /// A survey record names a person who is not in the population.
    UnknownStudent { handle: String },
    /// A person refused a handle that nobody in the population has.
    InvalidVeto { student: String, handle: String },
    /// A person asked for a handle that nobody in the population has.
    InvalidWant { student: String, handle: String },
    /// A person belongs to a category that no rule mentions as its subject.
    UnrelatedCategory { category: String, student: String },
}

/// A `Warning` as plain mathematical values.
pub enum WarningModel {
    UnknownStudent { handle: Name },
    InvalidVeto { student: Name, handle: Name },
    InvalidWant { student: Name, handle: Name },
    UnrelatedCategory { category: Name, student: Name },
}

impl View for Warning {
    type V = WarningModel;

    open spec fn view(&self) -> WarningModel {
        match *self {
            Warning::UnknownStudent { handle } => WarningModel::UnknownStudent { handle: handle@ },
            Warning::InvalidVeto { student, handle } => WarningModel::InvalidVeto {
                student: student@,
                handle: handle@,
            },
            Warning::InvalidWant { student, handle } => WarningModel::InvalidWant {
                student: student@,
                handle: handle@,
            },
            Warning::UnrelatedCategory { category, student } => WarningModel::UnrelatedCategory {
                category: category@,
                student: student@,
            },
        }
    }
}

/// The models of a sequence of warnings.
pub open spec fn warning_models(v: Seq<Warning>) -> Seq<WarningModel> {
    Seq::new(v.len(), |i: int| v[i]@)
}

/// The text of a warning.
pub open spec fn warning_text(w: WarningModel) -> Seq<char> {
    match w {
        WarningModel::UnknownStudent { handle } => "Student feedback includes username "@ + handle
            + " which isn't represented in the classification."@,
        WarningModel::InvalidVeto { student, handle } => "Student "@ + student
            + " provided invalid student "@ + handle + " as veto."@,
        WarningModel::InvalidWant { student, handle } => "Student "@ + student
            + " provided invalid student "@ + handle + " as wanted teammate."@,
        WarningModel::UnrelatedCategory { category, student } => "Class "@ + category
            + " specified for student "@ + student + ", but not in the relations csv"@,
    }
}

impl Warning {
    /// The text of the warning, for a log.
    pub fn message(&self) -> (r: String)
        ensures
            r@ == warning_text(self@),
    {
        match self {
            Warning::UnknownStudent { handle } => {
                let mut out = String::from_str("Student feedback includes username ");
                out.append(handle.as_str());
                out.append(" which isn't represented in the classification.");
                out
            },
            Warning::InvalidVeto { student, handle } => {
                let mut out = String::from_str("Student ");
                out.append(student.as_str());
                out.append(" provided invalid student ");
                out.append(handle.as_str());
                out.append(" as veto.");
                out
            },
            Warning::InvalidWant { student, handle } => {
                let mut out = String::from_str("Student ");
                out.append(student.as_str());
                out.append(" provided invalid student ");
                out.append(handle.as_str());
                out.append(" as wanted teammate.");
                out
            },
            Warning::UnrelatedCategory { category, student } => {
                let mut out = String::from_str("Class ");
                out.append(category.as_str());
                out.append(" specified for student ");
                out.append(student.as_str());
                out.append(", but not in the relations csv");
                out
            },
        }
    }
}

/// Why no model could be built.
#[derive(Debug, Clone, PartialEq, Eq)]
pub enum BuildError {
    /// Two classification records share this handle.
    DuplicateHandle { handle: String },
    /// A feedback phrase that the vocabulary does not hold.
    UnknownPhrase { phrase: String },
}

/// A `BuildError` as plain mathematical values.
pub enum Failure {
    DuplicateHandle { handle: Name },
    UnknownPhrase { phrase: Name },
}

impl View for BuildError {
    type V = Failure;

    open spec fn view(&self) -> Failure {
        match *self {
            BuildError::DuplicateHandle { handle } => Failure::DuplicateHandle { handle: handle@ },
            BuildError::UnknownPhrase { phrase } => Failure::UnknownPhrase { phrase: phrase@ },
        }
    }
}

/// The text of an error.
pub open spec fn failure_text(e: Failure) -> Seq<char> {
    match e {
        Failure::DuplicateHandle { handle } => "Duplicate student "@ + handle
            + " in the classification."@,
        Failure::UnknownPhrase { phrase } => "Unrecognized feedback phrase: "@ + phrase,
    }
}

impl BuildError {
    /// The text of the error, for a log.
    pub fn message(&self) -> (r: String)
        ensures
            r@ == failure_text(self@),
    {
        match self {
            BuildError::DuplicateHandle { handle } => {
                let mut out = String::from_str("Duplicate student ");
                out.append(handle.as_str());
                out.append(" in the classification.");
                out
            },
            BuildError::UnknownPhrase { phrase } => {
                let mut out = String::from_str("Unrecognized feedback phrase: ");
                out.append(phrase.as_str());
                out
            },
        }
    }
}

} // verus!
