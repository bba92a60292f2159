//! The scratch allocator: where scratch files are created, and what is
//! reported when no location will take one.

use vstd::prelude::*;

verus! {

/// The directory part of a path, as `std::path::Path::parent` gives it.
pub uninterp spec fn parent_of(p: Seq<char>) -> Option<Seq<char>>;

/// Relies on `std::path::Path::parent`: the path without its last
/// component, or `None` for a root or an empty path. The parent of a path
/// given as UTF-8 is UTF-8 too, so the lossy conversion keeps it whole.
#[verifier::external_body]
fn path_parent(p: &str) -> (r: Option<String>)
    ensures
        match r {
            Some(s) => parent_of(p@) == Some(s@),
            None => parent_of(p@) is None,
        },
{
    std::path::Path::new(p).parent().map(|q| q.to_string_lossy().into_owned())
}

/// Why no scratch file could be created.
#[derive(Debug, PartialEq, Eq)]
pub enum ScratchError {
    /// The one location failed, for the reason given.
    Unavailable { dir: String, reason: String },
    /// The primary location and the fallback both failed.
    BothUnavailable { primary: String, primary_reason: String, fallback: String, fallback_reason: String },
}

/// What to do next to obtain a scratch file.
pub enum CreateAttempt {
    /// Create the scratch file in this directory.
    TryDir(String),
    /// Stop: every location has failed.
    GiveUp(ScratchError),
}

/// The locations for scratch files: a primary directory and, when the caller
/// named none, the system's temporary directory as a fallback.
pub struct TempFileFactory {
    primary: String,
    fallback: Option<String>,
}

impl TempFileFactory {
    pub closed spec fn primary(&self) -> Seq<char> {
        self.primary@
    }

    pub closed spec fn fallback(&self) -> Option<Seq<char>> {
        match self.fallback {
            Some(f) => Some(f@),
            None => None,
        }
    }

    /// The primary directory is `preferred` when given, else the directory
    /// of `output` (or `.` when it has none). Only when no directory was
    /// given and `system_temp` differs from the primary is `system_temp` the
    /// fallback.
    pub fn new(preferred: Option<String>, output: &str, system_temp: String) -> (f: Self)
        ensures
            f.primary() == match preferred {
                Some(d) => d@,
                None => match parent_of(output@) {
                    Some(p) => p,
                    None => seq!['.'],
                },
            },
            f.fallback() == if preferred is None && system_temp@ != f.primary() {
                Some(system_temp@)
            } else {
                None::<Seq<char>>
            },
    {
        let requested = preferred.is_some();
        let primary = match preferred {
            Some(d) => d,
            None => match path_parent(output) {
                Some(p) => p,
                None => {
                    let dot = ".".to_string();
                    proof {
                        reveal_strlit(".");
                        assert(dot@ =~= seq!['.']);
                    }
                    dot
                },
            },
        };
        let fallback = if !requested && system_temp != primary {
            Some(system_temp)
        } else {
            None
        };
        TempFileFactory { primary, fallback }
    }

    pub fn primary_dir(&self) -> (r: &String)
        ensures
            r@ == self.primary(),
    {
        &self.primary
    }

    pub fn fallback_dir(&self) -> (r: Option<&String>)
        ensures
            match r {
                Some(d) => self.fallback() == Some(d@),
                None => self.fallback() is None,
            },
    {
        match &self.fallback {
            Some(d) => Some(d),
            None => None,
        }
    }

    /// Where to try next, given the reasons of the attempts that failed so
    /// far: first the primary directory, then the fallback if there is one.
    /// Once these have failed the error names each location tried, with
    /// its reason.
    pub fn next_attempt(&self, failed: &Vec<String>) -> (r: CreateAttempt)
        ensures
            failed@.len() == 0 ==> (r matches CreateAttempt::TryDir(d) && d@ == self.primary()),
            failed@.len() == 1 && self.fallback() is Some ==> (r matches CreateAttempt::TryDir(d) && self.fallback() == Some(d@)),
            failed@.len() >= 1 && self.fallback() is None ==> (r matches CreateAttempt::GiveUp(ScratchError::Unavailable { dir, reason })
                && dir@ == self.primary() && reason@ == failed@[0]@),
            failed@.len() >= 2 && self.fallback() is Some ==> (r matches CreateAttempt::GiveUp(
                ScratchError::BothUnavailable { primary, primary_reason, fallback, fallback_reason },
            ) && primary@ == self.primary() && primary_reason@ == failed@[0]@ && self.fallback() == Some(fallback@)
                && fallback_reason@ == failed@[1]@),
    {
        if failed.len() == 0 {
            return CreateAttempt::TryDir(self.primary.clone());
        }
        match &self.fallback {
            None => CreateAttempt::GiveUp(
                ScratchError::Unavailable { dir: self.primary.clone(), reason: failed[0].clone() },
            ),
            Some(f) => {
                if failed.len() == 1 {
                    CreateAttempt::TryDir(f.clone())
                } else {
                    CreateAttempt::GiveUp(
                        ScratchError::BothUnavailable {
                            primary: self.primary.clone(),
                            primary_reason: failed[0].clone(),
                            fallback: f.clone(),
                            fallback_reason: failed[1].clone(),
                        },
                    )
                }
            },
        }
    }
}

} // verus!
