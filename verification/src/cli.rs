//! Command-line argument handling: the decision part. The caller parses
//! the arguments and inspects the file system; this module decides whether
//! what it found is acceptable.

use vstd::prelude::*;

verus! {

/// Why a proposed settings directory is rejected.
#[derive(PartialEq, Eq, Debug)]
pub enum PathError {
    /// The path does not name a directory.
    NotADirectory,
    /// The directory already has entries in it.
    NotEmpty,
    /// The directory could not be read; carries the reader's message.
    Unreadable(String),
}

/// The program's command-line arguments: an optional path to the
/// settings/config directory.
pub struct Args {
    pub config_dir_path: Option<String>,
}

impl Args {
    /// Decides whether a path may serve as the settings directory, from
    /// what the caller found on disk: whether the path is a directory, and
    /// the outcome of listing it (`Ok(true)` when empty, `Ok(false)` when
    /// not, `Err` with the reader's message when the listing failed). A
    /// path is accepted exactly when it is a readable, empty directory.
    pub fn validate_config_dir_path(is_dir: bool, listing: Result<bool, String>) -> (r: Result<
        (),
        PathError,
    >)
        ensures
            !is_dir ==> r == Err::<(), PathError>(PathError::NotADirectory),
            is_dir ==> match listing {
                Ok(empty) => if empty {
                    r == Ok::<(), PathError>(())
                } else {
                    r == Err::<(), PathError>(PathError::NotEmpty)
                },
                Err(m) => r == Err::<(), PathError>(PathError::Unreadable(m)),
            },
    {
        if !is_dir {
            return Err(PathError::NotADirectory);
        }
        match listing {
            Ok(true) => Ok(()),
            Ok(false) => Err(PathError::NotEmpty),
            Err(m) => Err(PathError::Unreadable(m)),
        }
    }
}

} // verus!
