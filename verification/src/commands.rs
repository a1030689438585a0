//! The decisions the commands make: what `setup` links and refuses, how a
//! prompt's answer is read, what `dotsymize` refuses and how it labels places.
use vstd::prelude::*;
use crate::text::{to_chars, from_chars, put, append_chars, has_prefix, starts_with, chars_eq, trim, trim_chars,
    lowercase_equals, lowercase_equals_exec, eq_ignore_ascii_case, eq_ignore_ascii_case_exec, parse_usize,
    parse_usize_exec, contains_seq, contains_chars};
use crate::paths::{comps, views, components, file_name_of, parent_of, file_name, parent, same_path, path_eq,
    path_starts_with, path_starts_with_exec, slash, join_with, strip_comps, comps_start_with, join_range};
use crate::order::views_of;
use crate::context::Config;
pub use crate::context::{expand_home_prefix, expand_home_prefix_spec};
use crate::mappings::SymlinkMapping;
use crate::ops::PathState;
use crate::dotsymize::DotsymizeCandidate;

verus! {

/// The separator `setup` uses: the one given, else `__`.
pub fn setup_separator(separator: Option<String>) -> (r: String)
    ensures
        r@ == match separator {
            Some(s) => s@,
            None => "__"@,
        },
{
    match separator {
        Some(s) => s,
        None => "__".to_string(),
    }
}

/// The dotfiles directory `setup` uses: the one given, else `~/dotfiles`.
pub fn setup_directory(directory: Option<String>) -> (r: String)
    ensures
        r@ == match directory {
            Some(s) => s@,
            None => "~/dotfiles"@,
        },
{
    match directory {
        Some(s) => s,
        None => "~/dotfiles".to_string(),
    }
}

/// A detected host name that looks like a default rather than a real name.
pub open spec fn is_generic_hostname_spec(h: Seq<char>) -> bool {
    ||| lowercase_equals(h, "localhost"@)
    ||| lowercase_equals(h, "localhost.localdomain"@)
    ||| lowercase_equals(h, "(none)"@)
    ||| lowercase_equals(h, "unknown"@)
}

/// Whether a detected host name looks like a default (`localhost`,
/// `localhost.localdomain`, `(none)` or `unknown`, in any case).
pub fn is_generic_hostname(h: &str) -> (r: bool)
    ensures
        r == is_generic_hostname_spec(h@),
{
    let v = to_chars(h);
    let a = to_chars("localhost");
    let b = to_chars("localhost.localdomain");
    let c = to_chars("(none)");
    let d = to_chars("unknown");
    lowercase_equals_exec(&v, &a) || lowercase_equals_exec(&v, &b) || lowercase_equals_exec(&v, &c)
        || lowercase_equals_exec(&v, &d)
}

/// The mapping links the dotsym configuration: its source is
/// `.../dotsym/dotsym.toml`.
pub open spec fn is_dotsym_config_spec(m: (Seq<char>, Seq<char>)) -> bool {
    &&& file_name_of(m.0) == Some("dotsym.toml"@)
    &&& parent_of(m.0) matches Some(p) && file_name_of(p) == Some("dotsym"@)
}

pub fn is_dotsym_config(m: &SymlinkMapping) -> (r: bool)
    ensures
        r == is_dotsym_config_spec(m@),
{
    let s = to_chars(m.source.as_str());
    let toml = to_chars("dotsym.toml");
    let ds = to_chars("dotsym");
    let named = match file_name(&s) {
        Some(n) => chars_eq(&n, &toml),
        None => false,
    };
    if !named {
        return false;
    }
    match parent(&s) {
        Some(p) => match file_name(&p) {
            Some(n) => chars_eq(&n, &ds),
            None => false,
        },
        None => false,
    }
}

/// The mapping is the configuration's and lies in host directory `h` (its
/// destination holds `/<h>/`).
pub open spec fn is_host_config(m: (Seq<char>, Seq<char>), h: Seq<char>) -> bool {
    is_dotsym_config_spec(m) && contains_seq(m.1, slash() + h + slash())
}

/// `i` is the first index whose mapping is the configuration's in host directory `h`.
pub open spec fn first_host_config(ms: Seq<(Seq<char>, Seq<char>)>, i: int, h: Seq<char>) -> bool {
    0 <= i < ms.len() && is_host_config(ms[i], h) && forall|j: int| 0 <= j < i ==> !is_host_config(#[trigger] ms[j], h)
}

/// No mapping is the configuration's in host directory `h`.
pub open spec fn no_host_config(ms: Seq<(Seq<char>, Seq<char>)>, h: Seq<char>) -> bool {
    forall|j: int| 0 <= j < ms.len() ==> !is_host_config(#[trigger] ms[j], h)
}

/// `i` is the first index whose mapping is the configuration's.
pub open spec fn first_config(ms: Seq<(Seq<char>, Seq<char>)>, i: int) -> bool {
    0 <= i < ms.len() && is_dotsym_config_spec(ms[i]) && forall|j: int| 0 <= j < i ==> !is_dotsym_config_spec(#[trigger] ms[j])
}

/// No mapping is the configuration's.
pub open spec fn no_config(ms: Seq<(Seq<char>, Seq<char>)>) -> bool {
    forall|j: int| 0 <= j < ms.len() ==> !is_dotsym_config_spec(#[trigger] ms[j])
}

/// The configuration mapping `setup` links: with a host name given, the first one
/// in that host's directory if there is one; otherwise the first one.
pub fn find_config_mapping(mappings: &Vec<SymlinkMapping>, hostname: &Option<String>) -> (r: Option<usize>)
    ensures
        (hostname matches Some(h) && !no_host_config(views_of(mappings@), h@)) ==> (r matches Some(i)
            && first_host_config(views_of(mappings@), i as int, hostname->Some_0@)),
        !(hostname matches Some(h) && !no_host_config(views_of(mappings@), h@)) ==> match r {
            Some(i) => first_config(views_of(mappings@), i as int),
            None => no_config(views_of(mappings@)),
        },
{
    let ghost ms = views_of(mappings@);
    let n = mappings.len();
    match hostname {
        Some(h) => {
            let mut pat: Vec<char> = Vec::new();
            pat.push('/');
            let hv = to_chars(h.as_str());
            append_chars(&mut pat, &hv);
            pat.push('/');
            assert(pat@ =~= slash() + h@ + slash());
            for i in 0..n
                invariant
                    n == mappings@.len(),
                    ms == views_of(mappings@),
                    pat@ == slash() + h@ + slash(),
                    *hostname == Some(*h),
                    forall|j: int| 0 <= j < i ==> !is_host_config(#[trigger] ms[j], h@),
            {
                assert(ms[i as int] == mappings@[i as int]@);
                if is_dotsym_config(&mappings[i]) {
                    let d = to_chars(mappings[i].destination.as_str());
                    if contains_chars(&d, &pat) {
                        assert(is_host_config(ms[i as int], h@));
                        return Some(i);
                    }
                }
            }
        },
        None => {},
    }
    for i in 0..n
        invariant
            n == mappings@.len(),
            ms == views_of(mappings@),
            hostname matches Some(h) ==> no_host_config(ms, h@),
            forall|j: int| 0 <= j < i ==> !is_dotsym_config_spec(#[trigger] ms[j]),
    {
        assert(ms[i as int] == mappings@[i as int]@);
        if is_dotsym_config(&mappings[i]) {
            return Some(i);
        }
    }
    None
}

/// Whether the directory given to `setup` and the one in the configuration are the
/// same: their resolved paths when both could be resolved on disk, else their
/// expanded paths.
pub open spec fn dirs_match_spec(
    expected: Seq<char>,
    found: Seq<char>,
    canon_expected: Option<String>,
    canon_found: Option<String>,
) -> bool {
    match (canon_expected, canon_found) {
        (Some(a), Some(b)) => same_path(a@, b@),
        _ => same_path(expected, found),
    }
}

pub fn dirs_match(expected: &str, found: &str, canon_expected: &Option<String>, canon_found: &Option<String>) -> (r:
    bool)
    ensures
        r == dirs_match_spec(expected@, found@, *canon_expected, *canon_found),
{
    match (canon_expected, canon_found) {
        (Some(a), Some(b)) => {
            let av = to_chars(a.as_str());
            let bv = to_chars(b.as_str());
            path_eq(&av, &bv)
        },
        _ => {
            let av = to_chars(expected);
            let bv = to_chars(found);
            path_eq(&av, &bv)
        },
    }
}

/// Why `setup` stops.
pub enum SetupError {
    SeparatorMismatch { cli: String, config: String },
    HostnameMismatch { cli: String, config: String },
    DirectoryMismatch { cli: String, cli_expanded: String, config: String, config_expanded: String },
    ConfigSymlinkIncorrect,
    ConfigIsRegularFile,
    NoConfigFound,
}

pub enum SetupErrorView {
    SeparatorMismatch(Seq<char>, Seq<char>),
    HostnameMismatch(Seq<char>, Seq<char>),
    DirectoryMismatch(Seq<char>, Seq<char>, Seq<char>, Seq<char>),
    ConfigSymlinkIncorrect,
    ConfigIsRegularFile,
    NoConfigFound,
}

impl View for SetupError {
    type V = SetupErrorView;

    open spec fn view(&self) -> SetupErrorView {
        match self {
            SetupError::SeparatorMismatch { cli, config } => SetupErrorView::SeparatorMismatch(cli@, config@),
            SetupError::HostnameMismatch { cli, config } => SetupErrorView::HostnameMismatch(cli@, config@),
            SetupError::DirectoryMismatch { cli, cli_expanded, config, config_expanded } => SetupErrorView::DirectoryMismatch(
                cli@,
                cli_expanded@,
                config@,
                config_expanded@,
            ),
            SetupError::ConfigSymlinkIncorrect => SetupErrorView::ConfigSymlinkIncorrect,
            SetupError::ConfigIsRegularFile => SetupErrorView::ConfigIsRegularFile,
            SetupError::NoConfigFound => SetupErrorView::NoConfigFound,
        }
    }
}

pub open spec fn setup_message_spec(e: SetupErrorView) -> Seq<char> {
    match e {
        SetupErrorView::SeparatorMismatch(a, b) => "Config file separator mismatch:\n  Command line: '"@ + a
            + "'\n  Config file:  '"@ + b
            + "'\n\nPlease ensure the separator argument matches the config file."@,
        SetupErrorView::HostnameMismatch(a, b) => "Config file hostname mismatch:\n  Command line: '"@ + a
            + "'\n  Config file:  '"@ + b
            + "'\n\nPlease ensure the --hostname argument matches the config file."@,
        SetupErrorView::DirectoryMismatch(a, ae, b, be) => "Config file directory mismatch:\n  Command line: '"@
            + a + "' (expands to: "@ + ae + ")\n  Config file:  '"@ + b + "' (expands to: "@ + be
            + ")\n\nPlease ensure the directory argument matches the config file."@,
        SetupErrorView::ConfigSymlinkIncorrect => "Config symlink exists but is incorrect. Please fix manually."@,
        SetupErrorView::ConfigIsRegularFile => "Config file already exists as a regular file. Use 'dotsym apply' if you want to manage it with dotsym."@,
        SetupErrorView::NoConfigFound => "No dotsym.toml found in dotfiles directory"@,
    }
}

impl SetupError {
    /// The message shown when `setup` stops.
    pub fn message(&self) -> (r: String)
        ensures
            r@ == setup_message_spec(self@),
    {
        let mut out: Vec<char> = Vec::new();
        match self {
            SetupError::SeparatorMismatch { cli, config } => {
                put(&mut out, "Config file separator mismatch:\n  Command line: '");
                put(&mut out, cli.as_str());
                put(&mut out, "'\n  Config file:  '");
                put(&mut out, config.as_str());
                put(&mut out, "'\n\nPlease ensure the separator argument matches the config file.");
            },
            SetupError::HostnameMismatch { cli, config } => {
                put(&mut out, "Config file hostname mismatch:\n  Command line: '");
                put(&mut out, cli.as_str());
                put(&mut out, "'\n  Config file:  '");
                put(&mut out, config.as_str());
                put(&mut out, "'\n\nPlease ensure the --hostname argument matches the config file.");
            },
            SetupError::DirectoryMismatch { cli, cli_expanded, config, config_expanded } => {
                put(&mut out, "Config file directory mismatch:\n  Command line: '");
                put(&mut out, cli.as_str());
                put(&mut out, "' (expands to: ");
                put(&mut out, cli_expanded.as_str());
                put(&mut out, ")\n  Config file:  '");
                put(&mut out, config.as_str());
                put(&mut out, "' (expands to: ");
                put(&mut out, config_expanded.as_str());
                put(&mut out, ")\n\nPlease ensure the directory argument matches the config file.");
            },
            SetupError::ConfigSymlinkIncorrect => {
                put(&mut out, "Config symlink exists but is incorrect. Please fix manually.");
            },
            SetupError::ConfigIsRegularFile => {
                put(
                    &mut out,
                    "Config file already exists as a regular file. Use 'dotsym apply' if you want to manage it with dotsym.",
                );
            },
            SetupError::NoConfigFound => {
                put(&mut out, "No dotsym.toml found in dotfiles directory");
            },
        }
        proof {
            assert(out@ =~= setup_message_spec(self@));
        }
        from_chars(&out)
    }
}

/// The outcome of checking the configuration found against the arguments of
/// `setup`.
pub open spec fn found_config_check(
    separator: Seq<char>,
    hostname: Option<Seq<char>>,
    found: Config,
    directory: Seq<char>,
    expected_expanded: Seq<char>,
    found_expanded: Seq<char>,
    paths_match: bool,
) -> Result<(), SetupErrorView> {
    if found.separator@ != separator {
        Err(SetupErrorView::SeparatorMismatch(separator, found.separator@))
    } else if hostname is Some && found.hostname is Some && hostname->Some_0 != found.hostname->Some_0@ {
        Err(SetupErrorView::HostnameMismatch(hostname->Some_0, found.hostname->Some_0@))
    } else if !paths_match {
        Err(SetupErrorView::DirectoryMismatch(directory, expected_expanded, found.dir@, found_expanded))
    } else {
        Ok(())
    }
}

/// Checks the configuration found in the repo against the arguments of `setup`:
/// the separators must agree, the host names must agree when both are given, and
/// the directories must match (`paths_match`, see `dirs_match`).
pub fn check_found_config(
    separator: &String,
    hostname: &Option<String>,
    found: &Config,
    directory: &String,
    expected_expanded: &String,
    found_expanded: &String,
    paths_match: bool,
) -> (r: Result<(), SetupError>)
    ensures
        ({
            let spec = found_config_check(
                separator@,
                match hostname {
                    Some(h) => Some(h@),
                    None => None,
                },
                *found,
                directory@,
                expected_expanded@,
                found_expanded@,
                paths_match,
            );
            match r {
                Ok(_) => spec == Ok::<(), SetupErrorView>(()),
                Err(e) => spec == Err::<(), SetupErrorView>(e@),
            }
        }),
{
    if found.separator != *separator {
        return Err(SetupError::SeparatorMismatch { cli: separator.clone(), config: found.separator.clone() });
    }
    match (hostname, &found.hostname) {
        (Some(h), Some(g)) => {
            if *h != *g {
                return Err(SetupError::HostnameMismatch { cli: h.clone(), config: g.clone() });
            }
        },
        _ => {},
    }
    if !paths_match {
        return Err(
            SetupError::DirectoryMismatch {
                cli: directory.clone(),
                cli_expanded: expected_expanded.clone(),
                config: found.dir.clone(),
                config_expanded: found_expanded.clone(),
            },
        );
    }
    Ok(())
}

/// What `setup` does at the place of the configuration link.
pub enum SetupLinkAction {
    /// A link pointing at the configuration is there already.
    AlreadyCorrect,
    /// A link pointing elsewhere is there.
    Incorrect,
    /// A link that cannot be read is there: it is replaced.
    ReplaceBroken,
    /// A regular file is there: it is left alone.
    RegularFile,
    /// Nothing is there: the link is created.
    Create,
}

/// Chooses what `setup` does at the link's place, given what is there.
pub fn setup_link_action(src: &PathState, destination: &str) -> (r: SetupLinkAction)
    ensures
        !src.exists && !src.is_symlink ==> r is Create,
        (src.exists || src.is_symlink) && !src.is_symlink ==> r is RegularFile,
        src.is_symlink ==> match src.link_target {
            Some(t) => if same_path(t@, destination@) { r is AlreadyCorrect } else { r is Incorrect },
            None => r is ReplaceBroken,
        },
{
    if src.exists || src.is_symlink {
        if src.is_symlink {
            match &src.link_target {
                Some(t) => {
                    let tv = to_chars(t.as_str());
                    let dv = to_chars(destination);
                    if path_eq(&tv, &dv) {
                        SetupLinkAction::AlreadyCorrect
                    } else {
                        SetupLinkAction::Incorrect
                    }
                },
                None => SetupLinkAction::ReplaceBroken,
            }
        } else {
            SetupLinkAction::RegularFile
        }
    } else {
        SetupLinkAction::Create
    }
}

/// An answer to the prompt for a destination.
pub enum ChoiceReply {
    /// The 0-based index of the chosen candidate.
    Chosen(usize),
    Cancel,
    /// Not an answer; ask again.
    Invalid,
}

/// Reads an answer to the destination prompt: an empty line picks the first
/// candidate, `q` (any case) cancels, a number from 1 to `count` picks that
/// candidate; surrounding whitespace is ignored.
pub fn interpret_choice(line: &str, count: usize) -> (r: ChoiceReply)
    ensures
        ({
            let t = trim(line@);
            if t.len() == 0 {
                r == ChoiceReply::Chosen(0)
            } else if eq_ignore_ascii_case(t, "q"@) {
                r is Cancel
            } else {
                match parse_usize(t) {
                    Some(v) if 1 <= v <= count => r == ChoiceReply::Chosen((v - 1) as usize),
                    _ => r is Invalid,
                }
            }
        }),
{
    let v = to_chars(line);
    let t = trim_chars(&v);
    if t.len() == 0 {
        return ChoiceReply::Chosen(0);
    }
    let q = to_chars("q");
    if eq_ignore_ascii_case_exec(&t, &q) {
        return ChoiceReply::Cancel;
    }
    match parse_usize_exec(&t) {
        Some(i) => {
            if i >= 1 && i <= count {
                ChoiceReply::Chosen(i - 1)
            } else {
                ChoiceReply::Invalid
            }
        },
        None => ChoiceReply::Invalid,
    }
}

/// Reads a yes/no answer: empty, `n` or `no` is no, `y` or `yes` is yes (any
/// case, surrounding whitespace ignored); anything else is no answer.
pub fn interpret_yes_no(line: &str) -> (r: Option<bool>)
    ensures
        ({
            let t = trim(line@);
            if t.len() == 0 || eq_ignore_ascii_case(t, "n"@) || eq_ignore_ascii_case(t, "no"@) {
                r == Some(false)
            } else if eq_ignore_ascii_case(t, "y"@) || eq_ignore_ascii_case(t, "yes"@) {
                r == Some(true)
            } else {
                r is None
            }
        }),
{
    let v = to_chars(line);
    let t = trim_chars(&v);
    let n1 = to_chars("n");
    let n2 = to_chars("no");
    let y1 = to_chars("y");
    let y2 = to_chars("yes");
    if t.len() == 0 || eq_ignore_ascii_case_exec(&t, &n1) || eq_ignore_ascii_case_exec(&t, &n2) {
        Some(false)
    } else if eq_ignore_ascii_case_exec(&t, &y1) || eq_ignore_ascii_case_exec(&t, &y2) {
        Some(true)
    } else {
        None
    }
}


/// Why `dotsymize` refuses a path.
pub enum DotsymizeRefusal {
    Missing { path: String },
    AlreadySymlink { path: String },
    InsideRepo { path: String, repo: String },
}

pub enum RefusalView {
    Missing(Seq<char>),
    AlreadySymlink(Seq<char>),
    InsideRepo(Seq<char>, Seq<char>),
}

impl View for DotsymizeRefusal {
    type V = RefusalView;

    open spec fn view(&self) -> RefusalView {
        match self {
            DotsymizeRefusal::Missing { path } => RefusalView::Missing(path@),
            DotsymizeRefusal::AlreadySymlink { path } => RefusalView::AlreadySymlink(path@),
            DotsymizeRefusal::InsideRepo { path, repo } => RefusalView::InsideRepo(path@, repo@),
        }
    }
}

pub open spec fn refusal_message_spec(r: RefusalView) -> Seq<char> {
    match r {
        RefusalView::Missing(p) => "Path does not exist: "@ + p,
        RefusalView::AlreadySymlink(p) => p
            + " is already a symlink; it may already be managed. Refusing to dotsymize it."@,
        RefusalView::InsideRepo(p, d) => p + " is inside the dotfiles repo ("@ + d + "); nothing to do."@,
    }
}

impl DotsymizeRefusal {
    /// The message shown when `dotsymize` refuses a path.
    pub fn message(&self) -> (r: String)
        ensures
            r@ == refusal_message_spec(self@),
    {
        let mut out: Vec<char> = Vec::new();
        match self {
            DotsymizeRefusal::Missing { path } => {
                put(&mut out, "Path does not exist: ");
                put(&mut out, path.as_str());
            },
            DotsymizeRefusal::AlreadySymlink { path } => {
                put(&mut out, path.as_str());
                put(&mut out, " is already a symlink; it may already be managed. Refusing to dotsymize it.");
            },
            DotsymizeRefusal::InsideRepo { path, repo } => {
                put(&mut out, path.as_str());
                put(&mut out, " is inside the dotfiles repo (");
                put(&mut out, repo.as_str());
                put(&mut out, "); nothing to do.");
            },
        }
        proof {
            assert(out@ =~= refusal_message_spec(self@));
        }
        from_chars(&out)
    }
}

/// Whether `dotsymize` refuses `target`: it must exist (a link counts), must not
/// be a link already, and must not lie inside the dotfiles directory.
pub fn check_dotsymize_target(target: &String, config_dir: &String, present: bool, is_symlink: bool) -> (r:
    Option<DotsymizeRefusal>)
    ensures
        !present && !is_symlink ==> (r matches Some(x) && x@ == RefusalView::Missing(target@)),
        (present || is_symlink) && is_symlink ==> (r matches Some(x) && x@ == RefusalView::AlreadySymlink(
            target@,
        )),
        (present || is_symlink) && !is_symlink ==> if path_starts_with(target@, config_dir@) {
            r matches Some(x) && x@ == RefusalView::InsideRepo(target@, config_dir@)
        } else {
            r is None
        },
{
    if !present && !is_symlink {
        return Some(DotsymizeRefusal::Missing { path: target.clone() });
    }
    if is_symlink {
        return Some(DotsymizeRefusal::AlreadySymlink { path: target.clone() });
    }
    let t = to_chars(target.as_str());
    let c = to_chars(config_dir.as_str());
    if path_starts_with_exec(&t, &c) {
        Some(DotsymizeRefusal::InsideRepo { path: target.clone(), repo: config_dir.clone() })
    } else {
        None
    }
}

/// Some component of `target` holds the separator (a warning: the link may not
/// round-trip).
pub open spec fn separator_in_components_spec(target: Seq<char>, sep: Seq<char>) -> bool {
    exists|i: int| 0 <= i < comps(target).len() && contains_seq(#[trigger] comps(target)[i], sep)
}

pub fn separator_in_components(target: &str, separator: &str) -> (r: bool)
    ensures
        r == separator_in_components_spec(target@, separator@),
{
    let t = to_chars(target);
    let s = to_chars(separator);
    let cs = components(&t);
    let n = cs.len();
    assert(views(cs@).len() == n);
    for i in 0..n
        invariant
            n == cs@.len(),
            views(cs@) == comps(target@),
            s@ == separator@,
            forall|k: int| 0 <= k < i ==> !contains_seq(#[trigger] comps(target@)[k], separator@),
    {
        assert(comps(target@)[i as int] == cs@[i as int]@);
        if contains_chars(&cs[i], &s) {
            return true;
        }
    }
    false
}

/// The labels of the `i`-th candidate offered: whether its literal directory
/// exists, or its host directory is new, or only the literal directory is; and
/// `recommended` for the first.
pub open spec fn candidate_tags_spec(c: crate::dotsymize::CandidateView, i: int) -> Seq<char> {
    (if c.literal_dir_exists {
        "existing dir"@
    } else if !c.host_dir_exists {
        "new host dir"@
    } else {
        "new dir"@
    }) + (if i == 0 { ", recommended"@ } else { Seq::empty() })
}

pub fn candidate_tags(c: &DotsymizeCandidate, i: usize) -> (r: String)
    ensures
        r@ == candidate_tags_spec(c@, i as int),
{
    let mut out: Vec<char> = Vec::new();
    if c.literal_dir_exists {
        put(&mut out, "existing dir");
    } else if !c.host_dir_exists {
        put(&mut out, "new host dir");
    } else {
        put(&mut out, "new dir");
    }
    let ghost first = out@;
    if i == 0 {
        put(&mut out, ", recommended");
    } else {
        assert(out@ =~= first + Seq::<char>::empty());
    }
    from_chars(&out)
}

/// How a place in the repo is shown: when it lies inside the dotfiles directory,
/// its components after those of the directory joined with `/`; else as it is.
pub open spec fn repo_relative_spec(p: Seq<char>, repo: Seq<char>) -> Seq<char> {
    if path_starts_with(p, repo) {
        join_with(strip_comps(p, repo), slash())
    } else {
        p
    }
}

pub fn repo_relative(p: &str, repo: &str) -> (r: String)
    ensures
        r@ == repo_relative_spec(p@, repo@),
{
    let pv = to_chars(p);
    let rv = to_chars(repo);
    let pc = components(&pv);
    let rc = components(&rv);
    if comps_start_with(&pc, &rc) {
        let mut sl: Vec<char> = Vec::new();
        sl.push('/');
        assert(sl@ =~= slash());
        assert(views(pc@).len() == pc@.len());
        assert(views(rc@).len() == rc@.len());
        let body = join_range(&pc, rc.len(), pc.len(), &sl);
        assert(views(pc@).subrange(rc@.len() as int, pc@.len() as int) =~= strip_comps(p@, repo@));
        from_chars(&body)
    } else {
        p.to_string()
    }
}

/// When both directories could be resolved on disk, they match exactly when the
/// resolved paths have the same components, whatever the spellings given (so a
/// directory reached through a link matches the one it leads to); when either
/// could not be resolved, the given spellings are compared component by component.
pub proof fn lemma_dirs_match_resolved(
    expected: Seq<char>,
    found: Seq<char>,
    other_expected: Seq<char>,
    other_found: Seq<char>,
    canon_expected: Option<String>,
    canon_found: Option<String>,
)
    ensures
        (canon_expected matches Some(a) && canon_found matches Some(b)) ==> (dirs_match_spec(
            expected,
            found,
            canon_expected,
            canon_found,
        ) == (comps(canon_expected->Some_0@) == comps(canon_found->Some_0@)) && dirs_match_spec(
            expected,
            found,
            canon_expected,
            canon_found,
        ) == dirs_match_spec(other_expected, other_found, canon_expected, canon_found)),
        (canon_expected is None || canon_found is None) ==> dirs_match_spec(
            expected,
            found,
            canon_expected,
            canon_found,
        ) == (comps(expected) == comps(found)),
{
}

} // verus!
