use dotsym::context::{Config, DotsymContext};
use dotsym::error::DotsymError;
use dotsym::mappings::SymlinkMapping;
use dotsym::ops::{count_operations, PathState, SymlinkOperation};

fn create_test_context(home: &str) -> DotsymContext {
    let config = Config { separator: "__".to_string(), dir: "/test".to_string(), hostname: None };
    DotsymContext::new(config, Some("testhost".to_string()), Some(home.to_string()), None).ok().unwrap()
}

fn gitconfig_mapping(home: &str) -> SymlinkMapping {
    SymlinkMapping {
        source: format!("{}/.gitconfig", home),
        destination: "/dotfiles/dotsym/__/__gitconfig".to_string(),
    }
}

fn present() -> PathState {
    PathState { exists: true, is_symlink: false, link_target: None }
}

fn absent() -> PathState {
    PathState { exists: false, is_symlink: false, link_target: None }
}

#[test]
fn test_symlink_operation_describe() {
    let mapping = SymlinkMapping {
        source: "/home/user/.gitconfig".to_string(),
        destination: "/home/user/dotfiles/__gitconfig".to_string(),
    };

    let create = SymlinkOperation::CreateSymlink(mapping.clone_mapping());
    assert!(create.describe().starts_with("CREATE:"));
    assert!(create.describe().contains(".gitconfig"));

    let exists = SymlinkOperation::AlreadyExists(mapping.clone_mapping());
    assert!(exists.describe().starts_with("EXISTS:"));

    let create_with_backup = SymlinkOperation::CreateWithBackup {
        mapping,
        backup_path: "/home/user/.gitconfig.~1~".to_string(),
    };
    assert!(create_with_backup.describe().starts_with("CREATE:"));
    assert!(create_with_backup.describe().contains("backup: /home/user/.gitconfig.~1~"));
}

#[test]
fn test_apply_symlinks_replace_broken_read_error() {
    // A link whose target cannot be read is hard to make reliably; the case is
    // covered by `analyze_treats_unreadable_link_as_wrong` below.
}

#[test]
fn describe_exact_lines() {
    let m = SymlinkMapping { source: "/h/.a".to_string(), destination: "/r/x".to_string() };
    assert_eq!(SymlinkOperation::CreateSymlink(m.clone_mapping()).describe(), "CREATE: /h/.a -> /r/x");
    assert_eq!(SymlinkOperation::AlreadyExists(m.clone_mapping()).describe(), "EXISTS: /h/.a -> /r/x");
    assert_eq!(
        SymlinkOperation::CreateWithBackup { mapping: m, backup_path: "/h/.a.~1~".to_string() }.describe(),
        "CREATE: /h/.a -> /r/x (backup: /h/.a.~1~)"
    );
}

#[test]
fn test_apply_symlinks_create_new() {
    let home = "/home/t";
    let context = create_test_context(home);
    let op = context.analyze_symlink(&gitconfig_mapping(home), false, &present(), &absent(), &vec![]);
    match op {
        Ok(SymlinkOperation::CreateSymlink(mapping)) => {
            assert!(mapping.source.ends_with(".gitconfig"));
            assert!(mapping.destination.ends_with("__gitconfig"));
        }
        _ => panic!("Expected CreateSymlink operation"),
    }
}

#[test]
fn test_apply_symlinks_already_exists() {
    let home = "/home/t";
    let context = create_test_context(home);
    let src = PathState {
        exists: true,
        is_symlink: true,
        link_target: Some("/dotfiles/dotsym/__/__gitconfig".to_string()),
    };
    let op = context.analyze_symlink(&gitconfig_mapping(home), false, &present(), &src, &vec![]);
    assert!(matches!(op, Ok(SymlinkOperation::AlreadyExists(_))), "Expected AlreadyExists operation");
}

#[test]
fn test_apply_symlinks_backup_existing_symlink() {
    let home = "/home/t";
    let context = create_test_context(home);
    let src = PathState { exists: true, is_symlink: true, link_target: Some("/tmp/old_gitconfig".to_string()) };
    let op = context.analyze_symlink(&gitconfig_mapping(home), false, &present(), &src, &vec![]);
    match op {
        Ok(SymlinkOperation::CreateWithBackup { mapping, backup_path }) => {
            assert!(mapping.source.ends_with(".gitconfig"));
            assert!(mapping.destination.ends_with("__gitconfig"));
            assert!(backup_path.ends_with(".gitconfig.~1~"));
        }
        _ => panic!("Expected CreateWithBackup operation"),
    }
}

#[test]
fn test_apply_symlinks_backup_broken() {
    let home = "/home/t";
    let context = create_test_context(home);
    // a link to a file that does not exist
    let src = PathState { exists: false, is_symlink: true, link_target: Some("/tmp/nonexistent_file".to_string()) };
    let op = context.analyze_symlink(&gitconfig_mapping(home), false, &present(), &src, &vec![]);
    match op {
        Ok(SymlinkOperation::CreateWithBackup { mapping, backup_path }) => {
            assert!(mapping.source.ends_with(".gitconfig"));
            assert!(backup_path.ends_with(".gitconfig.~1~"));
        }
        _ => panic!("Expected CreateWithBackup operation"),
    }
}

#[test]
fn test_apply_symlinks_backup_regular_file() {
    let home = "/home/t";
    let context = create_test_context(home);
    let op = context.analyze_symlink(&gitconfig_mapping(home), false, &present(), &present(), &vec![]);
    match op {
        Ok(SymlinkOperation::CreateWithBackup { mapping, backup_path }) => {
            assert_eq!(mapping.source, "/home/t/.gitconfig");
            assert!(backup_path.ends_with(".gitconfig.~1~"));
        }
        _ => panic!("Expected CreateWithBackup operation"),
    }
}

#[test]
fn test_apply_with_backup_dry_run() {
    let home = "/home/t";
    let context = create_test_context(home);
    let op = context.analyze_symlink(&gitconfig_mapping(home), false, &present(), &present(), &vec![]);
    match op {
        Ok(SymlinkOperation::CreateWithBackup { mapping, backup_path }) => {
            assert!(mapping.source.ends_with(".gitconfig"));
            assert!(backup_path.ends_with(".gitconfig.~1~"));
        }
        _ => panic!("Expected CreateWithBackup operation"),
    }
}

#[test]
fn test_apply_symlinks_source_not_found_error() {
    let home = "/home/t";
    let context = create_test_context(home);
    let result = context.analyze_symlink(&gitconfig_mapping(home), false, &absent(), &absent(), &vec![]);
    assert!(result.is_err());
    if let Err(DotsymError::SourceFileNotFound { path }) = result {
        assert!(path.ends_with("__gitconfig"));
    } else {
        panic!("Expected SourceFileNotFound error");
    }
}

#[test]
fn analyze_broken_repo_link_still_counts_as_present() {
    let home = "/home/t";
    let context = create_test_context(home);
    let dest = PathState { exists: false, is_symlink: true, link_target: None };
    let op = context.analyze_symlink(&gitconfig_mapping(home), false, &dest, &absent(), &vec![]);
    assert!(matches!(op, Ok(SymlinkOperation::CreateSymlink(_))));
}

#[test]
fn analyze_replaces_other_links_without_backup_when_asked() {
    let home = "/home/t";
    let context = create_test_context(home);
    let src = PathState { exists: true, is_symlink: true, link_target: Some("/elsewhere".to_string()) };
    let op = context.analyze_symlink(&gitconfig_mapping(home), true, &present(), &src, &vec![]);
    assert!(matches!(op, Ok(SymlinkOperation::CreateSymlink(_))));
    // a regular file is still backed up
    let op = context.analyze_symlink(&gitconfig_mapping(home), true, &present(), &present(), &vec![]);
    assert!(matches!(op, Ok(SymlinkOperation::CreateWithBackup { .. })));
}

#[test]
fn analyze_treats_unreadable_link_as_wrong() {
    let home = "/home/t";
    let context = create_test_context(home);
    let src = PathState { exists: false, is_symlink: true, link_target: None };
    let op = context.analyze_symlink(&gitconfig_mapping(home), false, &present(), &src, &vec![]);
    assert!(matches!(op, Ok(SymlinkOperation::CreateWithBackup { .. })));
}

#[test]
fn analyze_compares_link_targets_as_paths() {
    let home = "/home/t";
    let context = create_test_context(home);
    let src = PathState {
        exists: true,
        is_symlink: true,
        link_target: Some("/dotfiles//dotsym/./__/__gitconfig/".to_string()),
    };
    let op = context.analyze_symlink(&gitconfig_mapping(home), false, &present(), &src, &vec![]);
    assert!(matches!(op, Ok(SymlinkOperation::AlreadyExists(_))));
}

#[test]
fn test_generate_backup_path() {
    let home_dir = "/tmp/t/home";
    let context = create_test_context(home_dir);

    let file_without_ext = format!("{}/gitconfig", home_dir);
    let backup1 = context.generate_backup_path(&file_without_ext, &vec![]);
    assert_eq!(backup1, format!("{}/gitconfig.~1~", home_dir));

    let existing = vec![backup1.clone()];
    let backup2 = context.generate_backup_path(&file_without_ext, &existing);
    assert_eq!(backup2, format!("{}/gitconfig.~2~", home_dir));

    let file_with_ext = format!("{}/config.toml", home_dir);
    let backup_ext = context.generate_backup_path(&file_with_ext, &existing);
    assert_eq!(backup_ext, format!("{}/config.toml.~1~", home_dir));
}

#[test]
fn test_backup_path_collision_handling() {
    let home_dir = "/tmp/t/home";
    let context = create_test_context(home_dir);
    let original_file = format!("{}/test.txt", home_dir);
    let existing: Vec<String> = (1..=3).map(|i| format!("{}/test.txt.~{}~", home_dir, i)).collect();
    let backup_path = context.generate_backup_path(&original_file, &existing);
    assert_eq!(backup_path, format!("{}/test.txt.~4~", home_dir));
}

#[test]
fn backup_path_edge_cases() {
    let context = create_test_context("/h");
    // a trailing slash is dropped when the name has an extension
    assert_eq!(context.generate_backup_path("/h/a.txt/", &vec![]), "/h/a.txt.~1~");
    // but kept when it has none
    assert_eq!(context.generate_backup_path("/h/dir/", &vec![]), "/h/dir/.~1~");
    // a dotfile has no extension
    assert_eq!(context.generate_backup_path("/h/.bashrc", &vec![]), "/h/.bashrc.~1~");
    // existing backups are recognised as paths
    assert_eq!(context.generate_backup_path("/h/x", &vec!["/h//x.~1~".to_string()]), "/h/x.~2~");
    // skips to the first free number
    let existing = vec!["/h/x.~1~".to_string(), "/h/x.~3~".to_string()];
    assert_eq!(context.generate_backup_path("/h/x", &existing), "/h/x.~2~");
}

#[test]
fn test_mixed_operations_dry_run() {
    let home = "/home/t";
    let context = create_test_context(home);
    let m1 = SymlinkMapping { source: "/home/t/.gitconfig".to_string(), destination: "/r/dotsym/__/__gitconfig".to_string() };
    let m2 = SymlinkMapping { source: "/home/t/.vimrc".to_string(), destination: "/r/dotsym/__/__vimrc".to_string() };
    let m3 = SymlinkMapping { source: "/home/t/.bashrc".to_string(), destination: "/r/dotsym/__/__bashrc".to_string() };
    let linked = PathState { exists: true, is_symlink: true, link_target: Some("/r/dotsym/__/__vimrc".to_string()) };
    let operations = vec![
        context.analyze_symlink(&m1, false, &present(), &absent(), &vec![]).ok().unwrap(),
        context.analyze_symlink(&m2, false, &present(), &linked, &vec![]).ok().unwrap(),
        context.analyze_symlink(&m3, false, &present(), &present(), &vec![]).ok().unwrap(),
    ];
    let counts = count_operations(&operations);
    assert_eq!(operations.len(), 3, "Should have 3 total operations");
    assert_eq!(counts.exists, 1, "Should have 1 already-exists operation");
    assert_eq!(counts.create, 2, "Should have 2 create operations");
    assert_eq!(counts.backup, 1, "Should have 1 backup operation");
}
