use dotsym::context::{Config, DotsymContext};
use dotsym::error::DotsymError;
use dotsym::mappings::{DotfilesListing, HostListing, LiteralListing, SymlinkMapping};

fn create_test_config(separator: &str, dir: &str) -> Config {
    Config { separator: separator.to_string(), dir: dir.to_string(), hostname: None }
}

fn create_test_context(config: Config, hostname: Option<String>, home_dir: Option<String>) -> DotsymContext {
    DotsymContext::new(config, hostname, home_dir, None).ok().unwrap()
}

fn lit(name: &str, entries: &[&str]) -> LiteralListing {
    LiteralListing {
        name: name.to_string(),
        is_dir: true,
        entries: Ok(entries.iter().map(|e| e.to_string()).collect()),
    }
}

fn host(name: &str, literals: Vec<LiteralListing>) -> HostListing {
    HostListing { name: name.to_string(), is_dir: true, literal_dirs: Ok(literals) }
}

fn listing(hosts: Vec<HostListing>) -> DotfilesListing {
    DotfilesListing { exists: true, is_dir: true, hosts: Ok(hosts) }
}

/// A fixture repo with generic, host and other-host directories, as read from disk.
fn fixture_tree() -> DotfilesListing {
    listing(vec![
        host("dotsym", vec![
            lit("__", &["__gitconfig"]),
            lit("__config__dotsym", &["dotsym.toml"]),
            lit("code__myproject", &["mystuff"]),
        ]),
        host("dotsym__2", vec![lit("code__myproject", &["mypersonalscripts"])]),
        host("myhostname", vec![lit("code__myproject", &["__git__info__exclude", "morepersonalstuff"])]),
        host("myhostname__a", vec![
            lit("__config", &["program1", "program2__dir1"]),
            lit("__config__someotherprogram", &["subdir__file2"]),
        ]),
        host("otherhostname", vec![lit("__config", &["program1"])]),
    ])
}

fn mappings_of(ctx: &DotsymContext, tree: &DotfilesListing) -> Vec<SymlinkMapping> {
    match ctx.get_symlink_mappings(tree) {
        Ok(v) => v,
        Err(e) => panic!("unexpected error: {}", e.message()),
    }
}

#[test]
fn test_get_symlink_mappings_with_fixtures() {
    let config = create_test_config("__", "/tmp/fixture");
    let context = create_test_context(config, Some("myhostname".to_string()), Some("/home/me".to_string()));

    let mappings = mappings_of(&context, &fixture_tree());

    assert_eq!(mappings.len(), 9);

    let source_paths: Vec<String> = mappings.iter().map(|m| m.source.clone()).collect();
    let expected_sources = vec![
        "/home/me/.gitconfig",
        "/home/me/.config/dotsym/dotsym.toml",
        "/home/me/code/myproject/mystuff",
        "/home/me/code/myproject/mypersonalscripts",
        "/home/me/code/myproject/.git/info/exclude",
        "/home/me/code/myproject/morepersonalstuff",
        "/home/me/.config/program1",
        "/home/me/.config/program2/dir1",
        "/home/me/.config/someotherprogram/subdir/file2",
    ];
    for expected_source in &expected_sources {
        assert!(source_paths.contains(&expected_source.to_string()),
            "Expected source '{}' not found in {:?}", expected_source, source_paths);
    }

    let dest_suffixes: Vec<String> = mappings.iter().map(|m| {
        let path = m.destination.clone();
        if let Some(pos) = path.rfind('/') {
            let parent_and_file = &path[..pos];
            if let Some(parent_pos) = parent_and_file.rfind('/') {
                format!("{}/{}", &parent_and_file[parent_pos + 1..], &path[pos + 1..])
            } else {
                path.clone()
            }
        } else {
            path.clone()
        }
    }).collect();
    let expected_dest_patterns = vec![
        "__/__gitconfig",
        "__config__dotsym/dotsym.toml",
        "code__myproject/mystuff",
        "code__myproject/mypersonalscripts",
        "code__myproject/__git__info__exclude",
        "code__myproject/morepersonalstuff",
        "__config/program1",
        "__config/program2__dir1",
        "__config__someotherprogram/subdir__file2",
    ];
    for expected_pattern in expected_dest_patterns {
        assert!(dest_suffixes.iter().any(|suffix| suffix.ends_with(expected_pattern)),
            "Expected destination pattern '{}' not found in {:?}", expected_pattern, dest_suffixes);
    }
}

#[test]
fn test_get_symlink_mappings_unknown_hostname() {
    let config = create_test_config("__", "/tmp/fixture");
    let context = create_test_context(config, Some("unknownhost".to_string()), Some("/home/me".to_string()));

    let mappings = mappings_of(&context, &fixture_tree());

    let expected_global_mappings = 4;
    assert_eq!(mappings.len(), expected_global_mappings,
        "Should only have global dotsym mappings for unknown hostname");

    let source_paths: Vec<String> = mappings.iter().map(|m| m.source.clone()).collect();
    assert!(source_paths.contains(&"/home/me/.gitconfig".to_string()));
    assert!(source_paths.contains(&"/home/me/.config/dotsym/dotsym.toml".to_string()));
    assert!(source_paths.contains(&"/home/me/code/myproject/mystuff".to_string()));
    assert!(source_paths.contains(&"/home/me/code/myproject/mypersonalscripts".to_string()));
}

#[test]
fn test_get_symlink_mappings_empty_directory() {
    let config = create_test_config("__", "/tmp/empty");
    let context = create_test_context(config, Some("testhost".to_string()), Some("/home/test".to_string()));

    let mappings = mappings_of(&context, &listing(vec![]));
    assert_eq!(mappings.len(), 0, "Empty directory should produce no mappings");
}

#[test]
fn test_get_symlink_mappings_nonexistent_directory() {
    let config = create_test_config("__", "/nonexistent/path");
    let context = create_test_context(config, Some("testhost".to_string()), Some("/home/test".to_string()));

    let tree = DotfilesListing { exists: false, is_dir: false, hosts: Ok(vec![]) };
    let result = context.get_symlink_mappings(&tree);
    assert!(result.is_err(), "Nonexistent directory should produce an error");

    if let Err(DotsymError::DotfilesDirectoryNotFound { path }) = result {
        assert_eq!(path, "/nonexistent/path".to_string());
    } else {
        panic!("Expected DotfilesDirectoryNotFound error");
    }
}

#[test]
fn test_host_directory_sorting() {
    // listed in the order a directory read might give them
    let tree = listing(vec![
        host("dotsym__2", vec![lit("__", &["file2"])]),
        host("dotsym", vec![lit("__", &["file1"])]),
        host("dotsym__1", vec![lit("__", &["file3"])]),
        host("testhost__b", vec![lit("__", &["file6"])]),
        host("testhost", vec![lit("__", &["file4"])]),
        host("testhost__a", vec![lit("__", &["file5"])]),
    ]);
    let config = create_test_config("__", "/tmp/sorting");
    let context = create_test_context(config, Some("testhost".to_string()), Some("/home/test".to_string()));

    let mappings = mappings_of(&context, &tree);

    let dest_filenames: Vec<String> = mappings.iter()
        .map(|m| m.destination.rsplit('/').next().unwrap().to_string())
        .collect();
    assert_eq!(dest_filenames, vec!["file1", "file3", "file2", "file4", "file5", "file6"]);
}

#[test]
fn test_different_separator() {
    let tree = listing(vec![host("dotsym", vec![lit("--", &["--gitconfig"])])]);
    let config = create_test_config("--", "/tmp/sep");
    let context = create_test_context(config, Some("testhost".to_string()), Some("/home/test".to_string()));

    let mappings = mappings_of(&context, &tree);

    assert_eq!(mappings.len(), 1);
    assert_eq!(mappings[0].source, "/home/test/.gitconfig");
    assert!(mappings[0].destination.ends_with("--gitconfig"));
}

#[test]
fn test_symlinked_literal_directory() {
    // `dotsym/__` is a link to a directory: it reads as a directory
    let tree = listing(vec![host("dotsym", vec![lit("__", &["__gitconfig"])])]);
    let config = create_test_config("__", "/tmp/linked");
    let context = create_test_context(config, Some("testhost".to_string()), Some("/home/test".to_string()));

    let mappings = mappings_of(&context, &tree);

    assert_eq!(mappings.len(), 1, "Should find file inside symlinked literal directory");
    assert!(mappings[0].source.ends_with(".gitconfig"));
    assert!(mappings[0].destination.ends_with("__gitconfig"));
}

#[test]
fn mappings_destinations_are_full_repo_paths() {
    let tree = listing(vec![host("dotsym", vec![lit("__config__nested__dir", &["test.conf"])])]);
    let config = create_test_config("__", "~/dotfiles");
    let context = create_test_context(config, Some("h".to_string()), Some("/home/u".to_string()));
    let mappings = mappings_of(&context, &tree);
    assert_eq!(mappings.len(), 1);
    assert_eq!(mappings[0].source, "/home/u/.config/nested/dir/test.conf");
    assert_eq!(mappings[0].destination, "/home/u/dotfiles/dotsym/__config__nested__dir/test.conf");
}

#[test]
fn mappings_skip_files_and_unrelated_hosts() {
    let tree = listing(vec![
        HostListing { name: "dotsym".to_string(), is_dir: false, literal_dirs: Ok(vec![]) },
        host("other", vec![lit("__", &["x"])]),
        host("h__work", vec![
            LiteralListing { name: "notadir".to_string(), is_dir: false, entries: Ok(vec![]) },
            lit("__", &["b", "a"]),
        ]),
    ]);
    let config = create_test_config("__", "/r");
    let context = create_test_context(config, Some("h".to_string()), Some("/home/u".to_string()));
    let mappings = mappings_of(&context, &tree);
    let sources: Vec<String> = mappings.iter().map(|m| m.source.clone()).collect();
    // entries keep the order in which they were read
    assert_eq!(sources, vec!["/home/u/b", "/home/u/a"]);
}

#[test]
fn mappings_report_unreadable_directories() {
    let tree = listing(vec![host("dotsym", vec![LiteralListing {
        name: "__".to_string(),
        is_dir: true,
        entries: Err("permission denied".to_string()),
    }])]);
    let config = create_test_config("__", "/r");
    let context = create_test_context(config, Some("h".to_string()), Some("/home/u".to_string()));
    match context.get_symlink_mappings(&tree) {
        Err(DotsymError::DirectoryTraversal { path, source }) => {
            assert_eq!(path, "/r/dotsym/__");
            assert_eq!(source, "permission denied");
        }
        _ => panic!("expected a traversal error"),
    }
    let top = DotfilesListing { exists: true, is_dir: true, hosts: Err("io".to_string()) };
    match context.get_symlink_mappings(&top) {
        Err(DotsymError::DirectoryTraversal { path, .. }) => assert_eq!(path, "/r"),
        _ => panic!("expected a traversal error"),
    }
    let not_dir = DotfilesListing { exists: true, is_dir: false, hosts: Ok(vec![]) };
    assert!(matches!(context.get_symlink_mappings(&not_dir), Err(DotsymError::DotfilesDirectoryNotFound { .. })));
}
