//! The command line: the commands and their options.
use vstd::prelude::*;

verus! {

/// The parsed command line.
pub struct Cli {
    pub command: Commands,
}

/// The commands.
#[allow(inconsistent_fields)]
pub enum Commands {
    /// Shows the links the dotfiles repo asks for.
    Preview,
    /// Creates the links.
    Apply {
        dry_run: bool,
        /// Replace existing links without backing them up (files and directories
        /// are still backed up).
        no_backup_existing_symlinks: bool,
        /// Only apply below this path: `host_dir`, `host_dir/literal_dir`, or
        /// `host_dir/literal_dir/symlink`.
        path: Option<String>,
    },
    /// Links the dotsym configuration from the dotfiles repo.
    Setup { directory: String, separator: String },
    /// Removes broken dotsym links whose target no longer exists in the repo.
    Clean {
        /// Show what would be removed without deleting anything.
        dry_run: bool,
        /// Delete all dangling links found without asking.
        yes: bool,
    },
    /// Moves a file or directory into the repo and links it back.
    Dotsymize {
        /// The file or directory to bring under dotsym management.
        path: String,
        /// Show the candidate locations and the chosen action without moving anything.
        dry_run: bool,
        /// Use the recommended (first) candidate without asking.
        yes: bool,
    },
}

} // verus!
