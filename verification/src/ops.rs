//! What `apply` does with each mapping: leave it, create the link, or move the
//! existing file aside first.
use vstd::prelude::*;
use crate::text::{to_chars, from_chars, append_chars, decimal, decimal_chars, put};
use crate::paths::{same_path, path_eq, file_name_of, trim_tail, trim_tail_exec, file_name};
use crate::mappings::SymlinkMapping;
use crate::context::DotsymContext;
use crate::error::{DotsymError, ErrorView};

verus! {

pub enum SymlinkOperation {
    CreateSymlink(SymlinkMapping),
    AlreadyExists(SymlinkMapping),
    CreateWithBackup { mapping: SymlinkMapping, backup_path: String },
}

/// What an operation holds, as character sequences.
pub enum OperationView {
    CreateSymlink((Seq<char>, Seq<char>)),
    AlreadyExists((Seq<char>, Seq<char>)),
    CreateWithBackup((Seq<char>, Seq<char>), Seq<char>),
}

impl View for SymlinkOperation {
    type V = OperationView;

    open spec fn view(&self) -> OperationView {
        match self {
            SymlinkOperation::CreateSymlink(m) => OperationView::CreateSymlink(m@),
            SymlinkOperation::AlreadyExists(m) => OperationView::AlreadyExists(m@),
            SymlinkOperation::CreateWithBackup { mapping, backup_path } => OperationView::CreateWithBackup(
                mapping@,
                backup_path@,
            ),
        }
    }
}

/// The line printed for an operation.
pub open spec fn describe_spec(op: OperationView) -> Seq<char> {
    match op {
        OperationView::CreateSymlink(m) => "CREATE: "@ + m.0 + " -> "@ + m.1,
        OperationView::AlreadyExists(m) => "EXISTS: "@ + m.0 + " -> "@ + m.1,
        OperationView::CreateWithBackup(m, b) => "CREATE: "@ + m.0 + " -> "@ + m.1 + " (backup: "@ + b
            + ")"@,
    }
}

impl SymlinkOperation {
    /// The line printed for this operation.
    pub fn describe(&self) -> (r: String)
        ensures
            r@ == describe_spec(self@),
    {
        let mut out: Vec<char> = Vec::new();
        match self {
            SymlinkOperation::CreateSymlink(m) => {
                put(&mut out, "CREATE: ");
                put(&mut out, m.source.as_str());
                put(&mut out, " -> ");
                put(&mut out, m.destination.as_str());
            },
            SymlinkOperation::AlreadyExists(m) => {
                put(&mut out, "EXISTS: ");
                put(&mut out, m.source.as_str());
                put(&mut out, " -> ");
                put(&mut out, m.destination.as_str());
            },
            SymlinkOperation::CreateWithBackup { mapping, backup_path } => {
                put(&mut out, "CREATE: ");
                put(&mut out, mapping.source.as_str());
                put(&mut out, " -> ");
                put(&mut out, mapping.destination.as_str());
                put(&mut out, " (backup: ");
                put(&mut out, backup_path.as_str());
                put(&mut out, ")");
            },
        }
        proof {
            assert(out@ =~= describe_spec(self@));
        }
        from_chars(&out)
    }
}

/// The file name of `p` has an extension: a `.` after its first character.
pub open spec fn has_extension(p: Seq<char>) -> bool {
    match file_name_of(p) {
        Some(n) => exists|i: int| 0 < i < n.len() && n[i] == '.',
        None => false,
    }
}

/// The `k`-th backup name of `p`: `<p>.~k~` (for a file with an extension, the
/// name is cut at the end of the file name first).
pub open spec fn backup_name(p: Seq<char>, k: nat) -> Seq<char> {
    (if has_extension(p) { trim_tail(p) } else { p }) + ".~"@ + decimal(k) + "~"@
}

/// Some path of `existing` is the path `q`.
pub open spec fn path_taken(existing: Seq<Seq<char>>, q: Seq<char>) -> bool {
    exists|j: int| 0 <= j < existing.len() && same_path(existing[j], q)
}

/// The backup path chosen for `p` when the paths `existing` exist: the first of
/// `<p>.~1~` .. `<p>.~9999~` that is free, or `<p>.~10000~` when none is.
pub open spec fn backup_path_is(r: Seq<char>, p: Seq<char>, existing: Seq<Seq<char>>) -> bool {
    ||| exists|k: nat|
        1 <= k <= 9999 && r == backup_name(p, k) && !path_taken(existing, backup_name(p, k)) && (forall|
            j: nat,
        |
            1 <= j < k ==> path_taken(existing, #[trigger] backup_name(p, j)))
    ||| (forall|k: nat| 1 <= k <= 9999 ==> path_taken(existing, #[trigger] backup_name(p, k))) && r
        == p + ".~"@ + decimal(10000) + "~"@
}

fn has_extension_exec(p: &Vec<char>) -> (r: bool)
    ensures
        r == has_extension(p@),
{
    match file_name(p) {
        None => false,
        Some(n) => {
            let len = n.len();
            let mut i: usize = 1;
            while i < len
                invariant
                    len == n@.len(),
                    file_name_of(p@) == Some(n@),
                    1 <= i <= len || len == 0,
                    forall|k: int| 0 < k < i && k < len ==> n@[k] != '.',
                decreases len - i,
            {
                if n[i] == '.' {
                    assert(has_extension(p@)) by {
                        let nn = file_name_of(p@)->0;
                        assert(nn == n@);
                        assert(0 < i < nn.len() && nn[i as int] == '.');
                    }
                    return true;
                }
                i = i + 1;
            }
            false
        },
    }
}

pub(crate) fn taken_exec(existing: &Vec<String>, q: &Vec<char>) -> (r: bool)
    ensures
        r == path_taken(crate::order::views_of(existing@), q@),
{
    let n = existing.len();
    for j in 0..n
        invariant
            n == existing@.len(),
            forall|k: int| 0 <= k < j ==> !same_path(existing@[k]@, q@),
    {
        let e = to_chars(existing[j].as_str());
        if path_eq(&e, q) {
            assert(crate::order::views_of(existing@)[j as int] == existing@[j as int]@);
            return true;
        }
    }
    assert forall|k: int| 0 <= k < crate::order::views_of(existing@).len() implies !same_path(
        crate::order::views_of(existing@)[k],
        q@,
    ) by {
        assert(crate::order::views_of(existing@)[k] == existing@[k]@);
    }
    false
}

fn backup_name_exec(p: &Vec<char>, ext: bool, k: usize) -> (r: Vec<char>)
    requires
        ext == has_extension(p@),
    ensures
        r@ == backup_name(p@, k as nat),
{
    let mut out = if ext { trim_tail_exec(p) } else { p.clone() };
    let a = to_chars(".~");
    append_chars(&mut out, &a);
    let d = decimal_chars(k);
    append_chars(&mut out, &d);
    let b = to_chars("~");
    append_chars(&mut out, &b);
    out
}

impl DotsymContext {
    /// A free name to move `original_path` to before linking over it, given the
    /// paths that exist: `<path>.~1~`, `<path>.~2~`, ... up to `.~9999~`, and
    /// `<path>.~10000~` when all of those exist.
    pub fn generate_backup_path(&self, original_path: &str, existing: &Vec<String>) -> (r: String)
        ensures
            backup_path_is(r@, original_path@, crate::order::views_of(existing@)),
    {
        let p = to_chars(original_path);
        let ext = has_extension_exec(&p);
        let ghost ex = crate::order::views_of(existing@);
        let mut counter: usize = 1;
        while counter <= 9999
            invariant
                1 <= counter <= 10000,
                ext == has_extension(p@),
                p@ == original_path@,
                ex == crate::order::views_of(existing@),
                forall|j: nat| 1 <= j < counter ==> path_taken(ex, #[trigger] backup_name(p@, j)),
            decreases 10000 - counter,
        {
            let cand = backup_name_exec(&p, ext, counter);
            if !taken_exec(existing, &cand) {
                return from_chars(&cand);
            }
            counter = counter + 1;
        }
        let mut out = p.clone();
        let a = to_chars(".~");
        append_chars(&mut out, &a);
        let d = decimal_chars(10000);
        append_chars(&mut out, &d);
        let b = to_chars("~");
        append_chars(&mut out, &b);
        from_chars(&out)
    }
}


/// What was found on disk at a path: whether it exists (following links), whether
/// it is a symlink, and where the link points when it is one that could be read.
pub struct PathState {
    pub exists: bool,
    pub is_symlink: bool,
    pub link_target: Option<String>,
}

/// The operation `analyze_symlink` chooses for mapping `m`, given what is on disk
/// at its destination (`dest`) and at its source (`src`).
pub open spec fn analysis_is(
    r: Result<OperationView, ErrorView>,
    m: (Seq<char>, Seq<char>),
    no_backup_existing_symlinks: bool,
    dest: PathState,
    src: PathState,
    existing: Seq<Seq<char>>,
) -> bool {
    if !dest.exists && !dest.is_symlink {
        r == Err::<OperationView, ErrorView>(ErrorView::SourceFileNotFound(m.1))
    } else if src.exists || src.is_symlink {
        if src.is_symlink && (src.link_target matches Some(t) && same_path(t@, m.1)) {
            r == Ok::<OperationView, ErrorView>(OperationView::AlreadyExists(m))
        } else if src.is_symlink && no_backup_existing_symlinks {
            r == Ok::<OperationView, ErrorView>(OperationView::CreateSymlink(m))
        } else {
            exists|b: Seq<char>|
                r == Ok::<OperationView, ErrorView>(OperationView::CreateWithBackup(m, b))
                    && backup_path_is(b, m.0, existing)
        }
    } else {
        r == Ok::<OperationView, ErrorView>(OperationView::CreateSymlink(m))
    }
}

impl DotsymContext {
    /// Chooses what to do for one mapping: the repo file must exist (a broken
    /// link counts); a link already pointing at it is left alone; anything else at
    /// the link's place is moved to a backup name first, except that with
    /// `no_backup_existing_symlinks` another link is simply replaced.
    pub fn analyze_symlink(
        &self,
        mapping: &SymlinkMapping,
        no_backup_existing_symlinks: bool,
        dest: &PathState,
        src: &PathState,
        existing: &Vec<String>,
    ) -> (r: Result<SymlinkOperation, DotsymError>)
        ensures
            analysis_is(
                match r {
                    Ok(op) => Ok::<OperationView, ErrorView>(op@),
                    Err(e) => Err::<OperationView, ErrorView>(e@),
                },
                mapping@,
                no_backup_existing_symlinks,
                *dest,
                *src,
                crate::order::views_of(existing@),
            ),
    {
        if !dest.exists && !dest.is_symlink {
            return Err(DotsymError::SourceFileNotFound { path: mapping.destination.clone() });
        }
        if src.exists || src.is_symlink {
            if src.is_symlink {
                match &src.link_target {
                    Some(t) => {
                        let tv = to_chars(t.as_str());
                        let dv = to_chars(mapping.destination.as_str());
                        if path_eq(&tv, &dv) {
                            return Ok(SymlinkOperation::AlreadyExists(mapping.clone_mapping()));
                        }
                    },
                    None => {},
                }
                if no_backup_existing_symlinks {
                    return Ok(SymlinkOperation::CreateSymlink(mapping.clone_mapping()));
                }
            }
            let backup_path = self.generate_backup_path(mapping.source.as_str(), existing);
            let ghost b = backup_path@;
            let op = SymlinkOperation::CreateWithBackup { mapping: mapping.clone_mapping(), backup_path };
            assert(op@ == OperationView::CreateWithBackup(mapping@, b));
            assert(backup_path_is(b, mapping@.0, crate::order::views_of(existing@)));
            assert(!(src.is_symlink && (src.link_target matches Some(t) && same_path(t@, mapping@.1))));
            assert(!(src.is_symlink && no_backup_existing_symlinks));
            return Ok(op);
        }
        Ok(SymlinkOperation::CreateSymlink(mapping.clone_mapping()))
    }
}

/// How many operations leave a link as it is.
pub open spec fn count_exists(ops: Seq<OperationView>) -> nat
    decreases ops.len(),
{
    if ops.len() == 0 {
        0
    } else {
        count_exists(ops.drop_last()) + (if ops.last() is AlreadyExists { 1nat } else { 0nat })
    }
}

/// How many operations create a link.
pub open spec fn count_create(ops: Seq<OperationView>) -> nat
    decreases ops.len(),
{
    if ops.len() == 0 {
        0
    } else {
        count_create(ops.drop_last()) + (if ops.last() is AlreadyExists { 0nat } else { 1nat })
    }
}

/// How many operations move something aside first.
pub open spec fn count_backup(ops: Seq<OperationView>) -> nat
    decreases ops.len(),
{
    if ops.len() == 0 {
        0
    } else {
        count_backup(ops.drop_last()) + (if ops.last() is CreateWithBackup { 1nat } else { 0nat })
    }
}

/// The summary counts printed after `apply`.
pub struct OperationCounts {
    pub exists: usize,
    pub create: usize,
    pub backup: usize,
}

/// Counts the operations that leave a link alone, that create one, and that
/// move something aside first.
pub fn count_operations(ops: &Vec<SymlinkOperation>) -> (r: OperationCounts)
    ensures
        r.exists == count_exists(crate::order::views_of(ops@)),
        r.create == count_create(crate::order::views_of(ops@)),
        r.backup == count_backup(crate::order::views_of(ops@)),
{
    let mut c = OperationCounts { exists: 0, create: 0, backup: 0 };
    let n = ops.len();
    let ghost v = crate::order::views_of(ops@);
    assert(v.take(0) =~= Seq::<OperationView>::empty());
    for i in 0..n
        invariant
            n == ops@.len(),
            v == crate::order::views_of(ops@),
            c.exists == count_exists(v.take(i as int)),
            c.create == count_create(v.take(i as int)),
            c.backup == count_backup(v.take(i as int)),
            c.exists + c.create == i,
            c.backup <= c.create,
    {
        assert(v.take(i + 1).drop_last() =~= v.take(i as int));
        assert(v.take(i + 1).last() == ops@[i as int]@);
        match &ops[i] {
            SymlinkOperation::AlreadyExists(_) => {
                c.exists = c.exists + 1;
            },
            SymlinkOperation::CreateSymlink(_) => {
                c.create = c.create + 1;
            },
            SymlinkOperation::CreateWithBackup { .. } => {
                c.create = c.create + 1;
                c.backup = c.backup + 1;
            },
        }
    }
    assert(v.take(n as int) =~= v);
    c
}

/// Every operation either leaves a link alone or creates one, and only creating
/// ones move something aside.
pub proof fn lemma_counts_cover(ops: Seq<OperationView>)
    ensures
        count_exists(ops) + count_create(ops) == ops.len(),
        count_backup(ops) <= count_create(ops),
    decreases ops.len(),
{
    if ops.len() > 0 {
        lemma_counts_cover(ops.drop_last());
    }
}



/// `--no-backup-existing-symlinks` is kept: with it, a symlink at the link's place
/// that does not point at the destination is replaced without a backup, whether
/// what it points at exists or not.
pub proof fn lemma_no_backup_replaces_links(
    r: Result<OperationView, ErrorView>,
    m: (Seq<char>, Seq<char>),
    dest: PathState,
    src: PathState,
    existing: Seq<Seq<char>>,
)
    requires
        analysis_is(r, m, true, dest, src, existing),
        dest.exists || dest.is_symlink,
        src.is_symlink,
        !(src.link_target matches Some(t) && same_path(t@, m.1)),
    ensures
        r == Ok::<OperationView, ErrorView>(OperationView::CreateSymlink(m)),
{
}

/// A backup is taken only of something at the link's place that is not already
/// the right link, and never of a symlink when `--no-backup-existing-symlinks` is
/// given; a missing repo file is always refused.
pub proof fn lemma_backup_only_when_asked(
    r: Result<OperationView, ErrorView>,
    m: (Seq<char>, Seq<char>),
    no_backup_existing_symlinks: bool,
    dest: PathState,
    src: PathState,
    existing: Seq<Seq<char>>,
)
    requires
        analysis_is(r, m, no_backup_existing_symlinks, dest, src, existing),
    ensures
        !dest.exists && !dest.is_symlink <==> r is Err,
        r matches Ok(OperationView::CreateWithBackup(_, _)) ==> (src.exists || src.is_symlink) && !(
        no_backup_existing_symlinks && src.is_symlink),
        (dest.exists || dest.is_symlink) && (src.exists || src.is_symlink) && !src.is_symlink ==> r matches Ok(
            OperationView::CreateWithBackup(_, _),
        ),
{
}

} // verus!
