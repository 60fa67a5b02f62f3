//! The failure values that the edit operations return. File reading and
//! writing failures belong to the caller that performs the I/O.

use vstd::prelude::*;

verus! {

/// Why an edit of a record collection was refused. `AlreadyExists` is
/// reported when adding a record under a name that is already taken,
/// `NotFound` when updating or deleting a name that is absent, and
/// `SourceMissing` when the host document lacks the required marker.
#[derive(Debug, Clone, PartialEq, Eq)]
pub enum EditError {
    AlreadyExists,
    NotFound,
    SourceMissing,
}

/// The text of the message that `EditError::message` renders.
pub open spec fn message_spec(e: EditError, subject: Seq<char>, name: Seq<char>) -> Seq<char> {
    match e {
        EditError::AlreadyExists => subject + " '"@ + name + "' already exists"@,
        EditError::NotFound => subject + " '"@ + name + "' not found"@,
        EditError::SourceMissing => subject + " source marker not found"@,
    }
}

impl EditError {
    /// A human-readable description naming the record kind and the
    /// offending name.
    pub fn message(&self, subject: &str, name: &str) -> (r: String)
        ensures
            r@ == message_spec(*self, subject@, name@),
    {
        let mut s = subject.to_owned();
        match self {
            EditError::AlreadyExists => {
                s.append(" '");
                s.append(name);
                s.append("' already exists");
            },
            EditError::NotFound => {
                s.append(" '");
                s.append(name);
                s.append("' not found");
            },
            EditError::SourceMissing => {
                s.append(" source marker not found");
            },
        }
        proof {
            assert(s@ =~= message_spec(*self, subject@, name@));
        }
        s
    }
}

} // verus!
