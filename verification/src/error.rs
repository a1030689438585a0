//! The errors of the library, and the message each one prints.
use vstd::prelude::*;
use crate::text::{from_chars, put};

verus! {

pub enum DotsymError {
    ConfigNotFound { path: String },
    ConfigInvalid { path: String, source: String },
    HomeDirectoryNotFound,
    DotfilesDirectoryNotFound { path: String },
    DirectoryTraversal { path: String, source: String },
    ParentDirectoryCreation { path: String, source: String },
    SymlinkCreation { source: String, destination: String, io_error: String },
    SourceFileNotFound { path: String },
    BackupCreation { original_path: String, backup_path: String, source: String },
    NotUnderHome { path: String },
    DestinationExists { path: String },
}

/// What an error holds, as character sequences.
pub enum ErrorView {
    ConfigNotFound(Seq<char>),
    ConfigInvalid(Seq<char>, Seq<char>),
    HomeDirectoryNotFound,
    DotfilesDirectoryNotFound(Seq<char>),
    DirectoryTraversal(Seq<char>, Seq<char>),
    ParentDirectoryCreation(Seq<char>, Seq<char>),
    SymlinkCreation(Seq<char>, Seq<char>, Seq<char>),
    SourceFileNotFound(Seq<char>),
    BackupCreation(Seq<char>, Seq<char>, Seq<char>),
    NotUnderHome(Seq<char>),
    DestinationExists(Seq<char>),
}

impl View for DotsymError {
    type V = ErrorView;

    open spec fn view(&self) -> ErrorView {
        match self {
            DotsymError::ConfigNotFound { path } => ErrorView::ConfigNotFound(path@),
            DotsymError::ConfigInvalid { path, source } => ErrorView::ConfigInvalid(path@, source@),
            DotsymError::HomeDirectoryNotFound => ErrorView::HomeDirectoryNotFound,
            DotsymError::DotfilesDirectoryNotFound { path } => ErrorView::DotfilesDirectoryNotFound(path@),
            DotsymError::DirectoryTraversal { path, source } => ErrorView::DirectoryTraversal(path@, source@),
            DotsymError::ParentDirectoryCreation { path, source } => ErrorView::ParentDirectoryCreation(path@, source@),
            DotsymError::SymlinkCreation { source, destination, io_error } => ErrorView::SymlinkCreation(
                source@,
                destination@,
                io_error@,
            ),
            DotsymError::SourceFileNotFound { path } => ErrorView::SourceFileNotFound(path@),
            DotsymError::BackupCreation { original_path, backup_path, source } => ErrorView::BackupCreation(
                original_path@,
                backup_path@,
                source@,
            ),
            DotsymError::NotUnderHome { path } => ErrorView::NotUnderHome(path@),
            DotsymError::DestinationExists { path } => ErrorView::DestinationExists(path@),
        }
    }
}

/// The message shown for an error.
pub open spec fn message_spec(e: ErrorView) -> Seq<char> {
    match e {
        ErrorView::ConfigNotFound(p) => "Config file not found at "@ + p
            + ". Run 'dotsym setup' to create one."@,
        ErrorView::ConfigInvalid(p, s) => "Invalid configuration in "@ + p + ": "@ + s,
        ErrorView::HomeDirectoryNotFound => "Home directory could not be determined"@,
        ErrorView::DotfilesDirectoryNotFound(p) => "Dotfiles directory '"@ + p + "' does not exist"@,
        ErrorView::DirectoryTraversal(p, s) => "IO error while traversing directory '"@ + p + "': "@
            + s,
        ErrorView::ParentDirectoryCreation(p, s) => "Failed to create parent directory '"@ + p
            + "': "@ + s,
        ErrorView::SymlinkCreation(s, d, e) => "Failed to create symlink from '"@ + s + "' to '"@ + d
            + "': "@ + e,
        ErrorView::SourceFileNotFound(p) => "Source file '"@ + p + "' does not exist"@,
        ErrorView::BackupCreation(o, b, s) => "Failed to create backup '"@ + b + "' for '"@ + o
            + "': "@ + s,
        ErrorView::NotUnderHome(p) => "Path '"@ + p
            + "' is not located under the home directory and cannot be managed by dotsym"@,
        ErrorView::DestinationExists(p) => "Destination '"@ + p
            + "' already exists in the dotfiles repo; refusing to overwrite it"@,
    }
}

impl DotsymError {
    /// The message shown for this error.
    pub fn message(&self) -> (r: String)
        ensures
            r@ == message_spec(self@),
    {
        let mut out: Vec<char> = Vec::new();
        match self {
            DotsymError::ConfigNotFound { path } => {
                put(&mut out, "Config file not found at ");
                put(&mut out, path.as_str());
                put(&mut out, ". Run 'dotsym setup' to create one.");
            },
            DotsymError::ConfigInvalid { path, source } => {
                put(&mut out, "Invalid configuration in ");
                put(&mut out, path.as_str());
                put(&mut out, ": ");
                put(&mut out, source.as_str());
            },
            DotsymError::HomeDirectoryNotFound => {
                put(&mut out, "Home directory could not be determined");
            },
            DotsymError::DotfilesDirectoryNotFound { path } => {
                put(&mut out, "Dotfiles directory '");
                put(&mut out, path.as_str());
                put(&mut out, "' does not exist");
            },
            DotsymError::DirectoryTraversal { path, source } => {
                put(&mut out, "IO error while traversing directory '");
                put(&mut out, path.as_str());
                put(&mut out, "': ");
                put(&mut out, source.as_str());
            },
            DotsymError::ParentDirectoryCreation { path, source } => {
                put(&mut out, "Failed to create parent directory '");
                put(&mut out, path.as_str());
                put(&mut out, "': ");
                put(&mut out, source.as_str());
            },
            DotsymError::SymlinkCreation { source, destination, io_error } => {
                put(&mut out, "Failed to create symlink from '");
                put(&mut out, source.as_str());
                put(&mut out, "' to '");
                put(&mut out, destination.as_str());
                put(&mut out, "': ");
                put(&mut out, io_error.as_str());
            },
            DotsymError::SourceFileNotFound { path } => {
                put(&mut out, "Source file '");
                put(&mut out, path.as_str());
                put(&mut out, "' does not exist");
            },
            DotsymError::BackupCreation { original_path, backup_path, source } => {
                put(&mut out, "Failed to create backup '");
                put(&mut out, backup_path.as_str());
                put(&mut out, "' for '");
                put(&mut out, original_path.as_str());
                put(&mut out, "': ");
                put(&mut out, source.as_str());
            },
            DotsymError::NotUnderHome { path } => {
                put(&mut out, "Path '");
                put(&mut out, path.as_str());
                put(&mut out, "' is not located under the home directory and cannot be managed by dotsym");
            },
            DotsymError::DestinationExists { path } => {
                put(&mut out, "Destination '");
                put(&mut out, path.as_str());
                put(&mut out, "' already exists in the dotfiles repo; refusing to overwrite it");
            },
        }
        proof {
            assert(out@ =~= message_spec(self@));
        }
        from_chars(&out)
    }
}

} // verus!
