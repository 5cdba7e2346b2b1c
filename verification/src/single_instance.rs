//! One instance at a time.
//!
//! Two copies running against the same endpoint capture the same audio twice, and evict
//! each other's recordings.
use vstd::prelude::*;
use vstd::string::*;

verus! {

/// Why a claim failed.
#[derive(Debug)]
pub enum ClaimError {
    /// Another instance holds the lock.
    AlreadyRunning,
    /// The lock could not be created at all; carry on rather than refuse to run.
    Unavailable(String),
}

impl ClaimError {
    pub open spec fn text(&self) -> Seq<char> {
        match self {
            ClaimError::AlreadyRunning =>
                "another ED Compass instance is already running. Two instances capture the same audio twice and delete each other's recordings, so this one will exit."@,
            ClaimError::Unavailable(why) => "could not check for other instances: "@ + why@,
        }
    }

    /// What to tell the user.
    pub fn message(&self) -> (r: String)
        ensures
            r@ == self.text(),
    {
        match self {
            ClaimError::AlreadyRunning =>
                "another ED Compass instance is already running. Two instances capture the same audio twice and delete each other's recordings, so this one will exit.".to_owned(),
            ClaimError::Unavailable(why) => {
                let mut s: String = "could not check for other instances: ".to_owned();
                s.append(why.as_str());
                s
            },
        }
    }

    /// Whether the failure is a reason to exit: only a lock that another instance holds is.
    pub fn is_fatal(&self) -> (r: bool)
        ensures
            r == (self is AlreadyRunning),
    {
        match self {
            ClaimError::AlreadyRunning => true,
            ClaimError::Unavailable(_) => false,
        }
    }
}

} // verus!
