//! The changes to the file system that carrying out an operation takes, in order,
//! and the error each one reports when it fails. The caller performs the steps;
//! what they are is decided here.
use vstd::prelude::*;
use crate::text::{to_chars, from_chars};
use crate::paths::{parent_of, parent};
use crate::ops::{SymlinkOperation, OperationView, PathState, analysis_is, backup_path_is};
use crate::error::{DotsymError, ErrorView};

verus! {

/// One change to the file system.
pub enum FsStep {
    /// Create a directory and every missing directory above it.
    CreateDirAll { path: String },
    /// Move `from` to `to`.
    Rename { from: String, to: String },
    /// Remove the entry at `path`, which a link to `link_target` is to replace.
    RemoveFile { path: String, link_target: String },
    /// Make at `link` a symlink that points at `target`.
    Symlink { target: String, link: String },
}

/// What a step holds, as character sequences.
pub enum StepView {
    CreateDirAll(Seq<char>),
    Rename(Seq<char>, Seq<char>),
    RemoveFile(Seq<char>, Seq<char>),
    Symlink(Seq<char>, Seq<char>),
}

impl View for FsStep {
    type V = StepView;

    open spec fn view(&self) -> StepView {
        match self {
            FsStep::CreateDirAll { path } => StepView::CreateDirAll(path@),
            FsStep::Rename { from, to } => StepView::Rename(from@, to@),
            FsStep::RemoveFile { path, link_target } => StepView::RemoveFile(path@, link_target@),
            FsStep::Symlink { target, link } => StepView::Symlink(target@, link@),
        }
    }
}

pub open spec fn steps_view(v: Seq<FsStep>) -> Seq<StepView> {
    v.map_values(|s: FsStep| s@)
}

/// Creating the directory a new entry at `p` goes in, when it has one and it is
/// missing.
pub open spec fn parent_steps(p: Seq<char>, parent_missing: bool) -> Seq<StepView> {
    match parent_of(p) {
        Some(d) => if parent_missing { seq![StepView::CreateDirAll(d)] } else { Seq::empty() },
        None => Seq::empty(),
    }
}

/// The steps that carry out an operation on a mapping `(source, destination)`:
/// nothing for a link that is already right; otherwise the missing parent of the
/// source is created, what is at the source is moved to the backup path (or, when
/// no backup is taken, removed if present), and the link is made.
pub open spec fn operation_steps_spec(op: OperationView, parent_missing: bool, source_present: bool) -> Seq<
    StepView,
> {
    match op {
        OperationView::AlreadyExists(_) => Seq::empty(),
        OperationView::CreateWithBackup(m, b) => parent_steps(m.0, parent_missing) + seq![
            StepView::Rename(m.0, b),
            StepView::Symlink(m.1, m.0),
        ],
        OperationView::CreateSymlink(m) => parent_steps(m.0, parent_missing) + (if source_present {
            seq![StepView::RemoveFile(m.0, m.1)]
        } else {
            Seq::empty()
        }) + seq![StepView::Symlink(m.1, m.0)],
    }
}

/// The error a step reports when it fails with the message `io`.
pub open spec fn step_error_spec(s: StepView, io: Seq<char>) -> ErrorView {
    match s {
        StepView::CreateDirAll(p) => ErrorView::ParentDirectoryCreation(p, io),
        StepView::Rename(f, t) => ErrorView::BackupCreation(f, t, io),
        StepView::RemoveFile(p, t) => ErrorView::SymlinkCreation(p, t, io),
        StepView::Symlink(t, l) => ErrorView::SymlinkCreation(l, t, io),
    }
}

/// Moving `target` into the repo at `repo_dest` and linking it back: refused when
/// something is already at `repo_dest`; otherwise the missing parent of
/// `repo_dest` is created, the target moved there, and a link to it made at the
/// target's place.
pub open spec fn dotsymize_steps_spec(
    target: Seq<char>,
    repo_dest: Seq<char>,
    dest_present: bool,
    parent_missing: bool,
) -> Result<Seq<StepView>, ErrorView> {
    if dest_present {
        Err(ErrorView::DestinationExists(repo_dest))
    } else {
        Ok(parent_steps(repo_dest, parent_missing) + seq![
            StepView::Rename(target, repo_dest),
            StepView::Symlink(repo_dest, target),
        ])
    }
}

/// `Path::parent` of a path given as a string.
pub fn parent_path(p: &str) -> (r: Option<String>)
    ensures
        match r {
            Some(q) => parent_of(p@) == Some(q@),
            None => parent_of(p@) is None,
        },
{
    let v = to_chars(p);
    match parent(&v) {
        Some(q) => Some(from_chars(&q)),
        None => None,
    }
}

fn push_parent_step(out: &mut Vec<FsStep>, p: &str, parent_missing: bool)
    ensures
        steps_view(final(out)@) == steps_view(old(out)@) + parent_steps(p@, parent_missing),
{
    let ghost before = steps_view(out@);
    match parent_path(p) {
        Some(d) => {
            if parent_missing {
                out.push(FsStep::CreateDirAll { path: d });
                assert(steps_view(out@) =~= before + parent_steps(p@, parent_missing));
            } else {
                assert(steps_view(out@) =~= before + parent_steps(p@, parent_missing));
            }
        },
        None => {
            assert(steps_view(out@) =~= before + parent_steps(p@, parent_missing));
        },
    }
}

impl SymlinkOperation {
    /// The steps that carry out this operation. `parent_missing` tells whether the
    /// parent directory of the mapping's source is missing, `source_present`
    /// whether anything (a broken link included) is at the source.
    pub fn steps(&self, parent_missing: bool, source_present: bool) -> (r: Vec<FsStep>)
        ensures
            steps_view(r@) == operation_steps_spec(self@, parent_missing, source_present),
    {
        let mut out: Vec<FsStep> = Vec::new();
        match self {
            SymlinkOperation::AlreadyExists(_) => {
                assert(steps_view(out@) =~= Seq::<StepView>::empty());
            },
            SymlinkOperation::CreateWithBackup { mapping, backup_path } => {
                push_parent_step(&mut out, mapping.source.as_str(), parent_missing);
                let ghost front = steps_view(out@);
                out.push(FsStep::Rename { from: mapping.source.clone(), to: backup_path.clone() });
                out.push(FsStep::Symlink { target: mapping.destination.clone(), link: mapping.source.clone() });
                assert(steps_view(out@) =~= front + seq![
                    StepView::Rename(mapping.source@, backup_path@),
                    StepView::Symlink(mapping.destination@, mapping.source@),
                ]);
            },
            SymlinkOperation::CreateSymlink(mapping) => {
                push_parent_step(&mut out, mapping.source.as_str(), parent_missing);
                let ghost front = steps_view(out@);
                if source_present {
                    out.push(
                        FsStep::RemoveFile { path: mapping.source.clone(), link_target: mapping.destination.clone() },
                    );
                }
                let ghost middle = steps_view(out@);
                assert(middle =~= front + (if source_present {
                    seq![StepView::RemoveFile(mapping.source@, mapping.destination@)]
                } else {
                    Seq::empty()
                }));
                out.push(FsStep::Symlink { target: mapping.destination.clone(), link: mapping.source.clone() });
                assert(steps_view(out@) =~= middle + seq![StepView::Symlink(mapping.destination@, mapping.source@)]);
            },
        }
        out
    }
}

impl FsStep {
    /// The error this step reports when it fails with the message `io_error`.
    pub fn error(&self, io_error: String) -> (r: DotsymError)
        ensures
            r@ == step_error_spec(self@, io_error@),
    {
        match self {
            FsStep::CreateDirAll { path } => DotsymError::ParentDirectoryCreation { path: path.clone(), source: io_error },
            FsStep::Rename { from, to } => DotsymError::BackupCreation {
                original_path: from.clone(),
                backup_path: to.clone(),
                source: io_error,
            },
            FsStep::RemoveFile { path, link_target } => DotsymError::SymlinkCreation {
                source: path.clone(),
                destination: link_target.clone(),
                io_error,
            },
            FsStep::Symlink { target, link } => DotsymError::SymlinkCreation {
                source: link.clone(),
                destination: target.clone(),
                io_error,
            },
        }
    }
}

/// The steps that move `target` into the repo at `repo_dest` and link it back.
/// `dest_present` tells whether anything (a broken link included) is already at
/// `repo_dest`, `parent_missing` whether the parent directory of `repo_dest` is
/// missing.
pub fn dotsymize_steps(target: &str, repo_dest: &str, dest_present: bool, parent_missing: bool) -> (r: Result<
    Vec<FsStep>,
    DotsymError,
>)
    ensures
        match r {
            Ok(v) => dotsymize_steps_spec(target@, repo_dest@, dest_present, parent_missing) == Ok::<
                Seq<StepView>,
                ErrorView,
            >(steps_view(v@)),
            Err(e) => dotsymize_steps_spec(target@, repo_dest@, dest_present, parent_missing) == Err::<
                Seq<StepView>,
                ErrorView,
            >(e@),
        },
{
    if dest_present {
        return Err(DotsymError::DestinationExists { path: repo_dest.to_string() });
    }
    let mut out: Vec<FsStep> = Vec::new();
    push_parent_step(&mut out, repo_dest, parent_missing);
    let ghost front = steps_view(out@);
    out.push(FsStep::Rename { from: target.to_string(), to: repo_dest.to_string() });
    out.push(FsStep::Symlink { target: repo_dest.to_string(), link: target.to_string() });
    assert(steps_view(out@) =~= front + seq![
        StepView::Rename(target@, repo_dest@),
        StepView::Symlink(repo_dest@, target@),
    ]);
    assert(steps_view(out@) =~= parent_steps(repo_dest@, parent_missing) + seq![
        StepView::Rename(target@, repo_dest@),
        StepView::Symlink(repo_dest@, target@),
    ]);
    Ok(out)
}

/// Carrying out a mapping keeps what was at the link's place: the only entry a
/// plan removes is a symlink at the mapping's source, and a file or directory
/// there is first moved to its backup path. A plan that changes anything ends by
/// making the link from the source to the destination; a link already pointing at
/// the destination takes no step.
pub proof fn lemma_plan_keeps_files(
    r: Result<OperationView, ErrorView>,
    m: (Seq<char>, Seq<char>),
    no_backup_existing_symlinks: bool,
    dest: PathState,
    src: PathState,
    existing: Seq<Seq<char>>,
    parent_missing: bool,
)
    requires
        analysis_is(r, m, no_backup_existing_symlinks, dest, src, existing),
        r is Ok,
    ensures
        ({
            let steps = operation_steps_spec(r->Ok_0, parent_missing, src.exists || src.is_symlink);
            &&& forall|i: int|
                0 <= i < steps.len() && #[trigger] steps[i] is RemoveFile ==> src.is_symlink && steps[i]
                    == StepView::RemoveFile(m.0, m.1)
            &&& (src.exists && !src.is_symlink) ==> exists|b: Seq<char>|
                backup_path_is(b, m.0, existing) && steps.contains(StepView::Rename(m.0, b))
            &&& steps.len() == 0 <==> r->Ok_0 is AlreadyExists
            &&& steps.len() > 0 ==> steps.last() == StepView::Symlink(m.1, m.0)
        }),
{
    let op = r->Ok_0;
    let sp = src.exists || src.is_symlink;
    let steps = operation_steps_spec(op, parent_missing, sp);
    let ps = parent_steps(m.0, parent_missing);
    assert(forall|i: int| 0 <= i < ps.len() ==> #[trigger] ps[i] is CreateDirAll);
    match op {
        OperationView::AlreadyExists(_) => {},
        OperationView::CreateWithBackup(m2, b) => {
            assert(m2 == m);
            let tail = seq![StepView::Rename(m.0, b), StepView::Symlink(m.1, m.0)];
            assert(steps == ps + tail);
            assert forall|i: int| 0 <= i < steps.len() implies !(#[trigger] steps[i] is RemoveFile) by {
                if i < ps.len() {
                    assert(steps[i] == ps[i]);
                } else {
                    assert(steps[i] == tail[i - ps.len()]);
                }
            }
            assert(backup_path_is(b, m.0, existing));
            assert(steps[ps.len() as int] == StepView::Rename(m.0, b));
        },
        OperationView::CreateSymlink(m2) => {
            assert(m2 == m);
            assert(!(src.exists && !src.is_symlink));
            let mid: Seq<StepView> = if sp { seq![StepView::RemoveFile(m.0, m.1)] } else { Seq::empty() };
            let tail = seq![StepView::Symlink(m.1, m.0)];
            assert(steps == ps + mid + tail);
            assert forall|i: int| 0 <= i < steps.len() && #[trigger] steps[i] is RemoveFile implies src.is_symlink
                && steps[i] == StepView::RemoveFile(m.0, m.1) by {
                if i < ps.len() {
                    assert(steps[i] == ps[i]);
                } else if i < ps.len() + mid.len() {
                    assert(steps[i] == mid[i - ps.len()]);
                } else {
                    assert(steps[i] == tail[i - ps.len() - mid.len()]);
                }
            }
        },
    }
}

/// Applying again leaves a made link alone: when the source is a link to the
/// destination and the destination is there, the operation is `AlreadyExists`
/// and its plan takes no step.
pub proof fn lemma_apply_again_no_steps(
    r: Result<OperationView, ErrorView>,
    m: (Seq<char>, Seq<char>),
    no_backup_existing_symlinks: bool,
    dest: PathState,
    src: PathState,
    existing: Seq<Seq<char>>,
    parent_missing: bool,
    source_present: bool,
)
    requires
        analysis_is(r, m, no_backup_existing_symlinks, dest, src, existing),
        dest.exists || dest.is_symlink,
        src.is_symlink,
        src.link_target matches Some(t) && t@ == m.1,
    ensures
        r == Ok::<OperationView, ErrorView>(OperationView::AlreadyExists(m)),
        operation_steps_spec(r->Ok_0, parent_missing, source_present).len() == 0,
{
}

} // verus!
