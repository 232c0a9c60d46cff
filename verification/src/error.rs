use vstd::prelude::*;

verus! {

/// The error kinds the engine reports.
///
/// `Io` carries a filesystem failure reported by the caller, `ProjectParsing`
/// a malformed or missing persisted record, and `User` a precondition that the
/// operator violated and can correct.
#[derive(Debug, PartialEq, Eq)]
pub enum GustError {
    Io(String),
    ProjectParsing(String),
    User(String),
}

impl GustError {
    /// The message shown to the operator for this error.
    pub open spec fn spec_message(&self) -> Seq<char> {
        match self {
            GustError::Io(m) => "I/O error: "@ + m@,
            GustError::ProjectParsing(m) => "Project parsing error: "@ + m@,
            GustError::User(m) => "Error: "@ + m@,
        }
    }

    pub fn message(&self) -> (r: String)
        ensures
            r@ == self.spec_message(),
    {
        match self {
            GustError::Io(m) => {
                let mut s = String::from_str("I/O error: ");
                s.append(m.as_str());
                s
            },
            GustError::ProjectParsing(m) => {
                let mut s = String::from_str("Project parsing error: ");
                s.append(m.as_str());
                s
            },
            GustError::User(m) => {
                let mut s = String::from_str("Error: ");
                s.append(m.as_str());
                s
            },
        }
    }
}

} // verus!
