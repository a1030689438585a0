use dotsym::context::{Config, DotsymContext};
use dotsym::error::DotsymError;
use dotsym::mappings::SymlinkMapping;
use dotsym::ops::{PathState, SymlinkOperation};
use dotsym::steps::{dotsymize_steps, parent_path, FsStep};

fn context(home: &str) -> DotsymContext {
    let config = Config { separator: "__".to_string(), dir: "/dotfiles".to_string(), hostname: None };
    DotsymContext::new(config, Some("testhost".to_string()), Some(home.to_string()), None).ok().unwrap()
}

fn describe(steps: &[FsStep]) -> Vec<String> {
    steps
        .iter()
        .map(|s| match s {
            FsStep::CreateDirAll { path } => format!("mkdir -p {}", path),
            FsStep::Rename { from, to } => format!("mv {} {}", from, to),
            FsStep::RemoveFile { path, link_target } => format!("rm {} (for {})", path, link_target),
            FsStep::Symlink { target, link } => format!("ln -s {} {}", target, link),
        })
        .collect()
}

#[test]
fn test_apply_creates_parent_directories() {
    let home = "/home/t";
    let ctx = context(home);
    let mapping = SymlinkMapping {
        source: format!("{}/.config/nested/dir/test.conf", home),
        destination: "/dotfiles/dotsym/__config__nested__dir/test.conf".to_string(),
    };
    let present = PathState { exists: true, is_symlink: false, link_target: None };
    let absent = PathState { exists: false, is_symlink: false, link_target: None };
    let op = ctx.analyze_symlink(&mapping, false, &present, &absent, &vec![]).ok().unwrap();
    assert!(matches!(op, SymlinkOperation::CreateSymlink(_)));
    let steps = op.steps(true, false);
    assert_eq!(describe(&steps), vec![
        "mkdir -p /home/t/.config/nested/dir".to_string(),
        "ln -s /dotfiles/dotsym/__config__nested__dir/test.conf /home/t/.config/nested/dir/test.conf".to_string(),
    ]);
    // the link points at the repo file
    match &steps[1] {
        FsStep::Symlink { target, .. } => assert!(target.ends_with("test.conf")),
        _ => panic!("expected a link to be made last"),
    }
}

#[test]
fn test_apply_with_backup_actual() {
    let home = "/home/t";
    let ctx = context(home);
    let mapping = SymlinkMapping {
        source: format!("{}/.gitconfig", home),
        destination: "/dotfiles/dotsym/__/__gitconfig".to_string(),
    };
    let present = PathState { exists: true, is_symlink: false, link_target: None };
    let op = ctx.analyze_symlink(&mapping, false, &present, &present, &vec![]).ok().unwrap();
    let steps = op.steps(false, true);
    assert_eq!(steps.len(), 2);
    // the existing file is moved to its backup, then the link is made
    assert_eq!(describe(&steps), vec![
        "mv /home/t/.gitconfig /home/t/.gitconfig.~1~".to_string(),
        "ln -s /dotfiles/dotsym/__/__gitconfig /home/t/.gitconfig".to_string(),
    ]);
    match &steps[1] {
        FsStep::Symlink { target, .. } => assert!(target.ends_with("__gitconfig")),
        _ => panic!("expected a link to be made last"),
    }
}

#[test]
fn steps_for_link_already_right_are_none() {
    let m = SymlinkMapping { source: "/h/.a".to_string(), destination: "/r/a".to_string() };
    assert!(SymlinkOperation::AlreadyExists(m).steps(true, true).is_empty());
}

#[test]
fn steps_replace_a_link_without_backup() {
    let m = SymlinkMapping { source: "/h/.a".to_string(), destination: "/r/a".to_string() };
    let steps = SymlinkOperation::CreateSymlink(m.clone_mapping()).steps(false, true);
    assert_eq!(describe(&steps), vec!["rm /h/.a (for /r/a)".to_string(), "ln -s /r/a /h/.a".to_string()]);
    let steps = SymlinkOperation::CreateSymlink(m).steps(false, false);
    assert_eq!(describe(&steps), vec!["ln -s /r/a /h/.a".to_string()]);
}

#[test]
fn steps_create_missing_parent_before_backup() {
    let m = SymlinkMapping { source: "/h/x/.a".to_string(), destination: "/r/a".to_string() };
    let op = SymlinkOperation::CreateWithBackup { mapping: m, backup_path: "/h/x/.a.~1~".to_string() };
    assert_eq!(describe(&op.steps(true, true)), vec![
        "mkdir -p /h/x".to_string(),
        "mv /h/x/.a /h/x/.a.~1~".to_string(),
        "ln -s /r/a /h/x/.a".to_string(),
    ]);
}

#[test]
fn step_errors_name_what_failed() {
    let e = FsStep::CreateDirAll { path: "/h/x".to_string() }.error("denied".to_string());
    assert_eq!(e.message(), "Failed to create parent directory '/h/x': denied");
    let e = FsStep::Rename { from: "/h/.a".to_string(), to: "/h/.a.~1~".to_string() }.error("busy".to_string());
    assert_eq!(e.message(), "Failed to create backup '/h/.a.~1~' for '/h/.a': busy");
    let e = FsStep::RemoveFile { path: "/h/.a".to_string(), link_target: "/r/a".to_string() }.error("no".to_string());
    assert_eq!(e.message(), "Failed to create symlink from '/h/.a' to '/r/a': no");
    let e = FsStep::Symlink { target: "/r/a".to_string(), link: "/h/.a".to_string() }.error("exists".to_string());
    assert_eq!(e.message(), "Failed to create symlink from '/h/.a' to '/r/a': exists");
}

#[test]
fn dotsymize_moves_then_links_back() {
    let steps = dotsymize_steps("/home/me/.vimrc", "/repo/dotsym/__/__vimrc", false, true).ok().unwrap();
    assert_eq!(describe(&steps), vec![
        "mkdir -p /repo/dotsym/__".to_string(),
        "mv /home/me/.vimrc /repo/dotsym/__/__vimrc".to_string(),
        "ln -s /repo/dotsym/__/__vimrc /home/me/.vimrc".to_string(),
    ]);
    let steps = dotsymize_steps("/home/me/.vimrc", "/repo/dotsym/__/__vimrc", false, false).ok().unwrap();
    assert_eq!(steps.len(), 2);
}

#[test]
fn dotsymize_refuses_to_overwrite() {
    match dotsymize_steps("/home/me/.vimrc", "/repo/dotsym/__/__vimrc", true, false) {
        Err(DotsymError::DestinationExists { path }) => assert_eq!(path, "/repo/dotsym/__/__vimrc"),
        _ => panic!("expected DestinationExists"),
    }
}

#[test]
fn parent_path_examples() {
    assert_eq!(parent_path("/a/b"), Some("/a".to_string()));
    assert_eq!(parent_path("/a/b/"), Some("/a".to_string()));
    assert_eq!(parent_path("/a"), Some("/".to_string()));
    assert_eq!(parent_path("/"), None);
    assert_eq!(parent_path("b"), Some("".to_string()));
    assert_eq!(parent_path(""), None);
    assert_eq!(parent_path("a/./b"), Some("a".to_string()));
}
