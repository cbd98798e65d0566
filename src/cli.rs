//! The options of a run and the action they select.
use vstd::prelude::*;

verus! {

/// The options of one run.
pub struct Cli {
    /// The directory to scan.
    pub directory: String,
    /// Move orphaned images to the recycle bin (also what happens when no action is named).
    pub recycle: bool,
    /// Delete orphaned images permanently.
    pub delete: bool,
    /// Move orphaned images to this directory.
    pub move_dir: Option<String>,
    /// Comma-separated image extensions.
    pub extensions: String,
}

/// What is done with the orphaned images.
#[derive(Debug, Clone)]
pub enum Action {
    Delete,
    Recycle,
    Move(String),
}

impl Cli {
    /// The selected action: deletion when asked for, else a move when a directory is
    /// given, else the recycle bin.
    pub fn action(&self) -> (r: Action)
        ensures
            self.delete ==> r is Delete,
            !self.delete && self.move_dir is Some ==> (r matches Action::Move(d) && d@
                == self.move_dir->Some_0@),
            !self.delete && self.move_dir is None ==> r is Recycle,
    {
        if self.delete {
            Action::Delete
        } else {
            match &self.move_dir {
                Some(dir) => Action::Move(dir.clone()),
                None => Action::Recycle,
            }
        }
    }
}

} // verus!
