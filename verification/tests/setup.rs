use dotsym::commands::{check_found_config, dirs_match, expand_home_prefix, find_config_mapping, setup_directory,
    setup_link_action, setup_separator, SetupError, SetupLinkAction};
use dotsym::context::{Config, DotsymContext};
use dotsym::mappings::{DotfilesListing, HostListing, LiteralListing, SymlinkMapping};
use dotsym::ops::PathState;

fn lit(name: &str, entries: &[&str]) -> LiteralListing {
    LiteralListing { name: name.to_string(), is_dir: true, entries: Ok(entries.iter().map(|e| e.to_string()).collect()) }
}

fn repo_with_config(sep: &str) -> DotfilesListing {
    let literal = format!("{}config{}dotsym", sep, sep);
    DotfilesListing {
        exists: true,
        is_dir: true,
        hosts: Ok(vec![HostListing {
            name: "dotsym".to_string(),
            is_dir: true,
            literal_dirs: Ok(vec![lit(&literal, &["dotsym.toml"])]),
        }]),
    }
}

fn setup_context(sep: &str, dir: &str, home: &str, hostname: Option<String>) -> DotsymContext {
    let config = Config { separator: sep.to_string(), dir: dir.to_string(), hostname: None };
    DotsymContext::new(config, hostname, Some(home.to_string()), Some("box".to_string())).ok().unwrap()
}

fn config_mapping(ctx: &DotsymContext, tree: &DotfilesListing, hostname: &Option<String>) -> Option<SymlinkMapping> {
    let ms = ctx.get_symlink_mappings(tree).ok().unwrap();
    find_config_mapping(&ms, hostname).map(|i| ms[i].clone_mapping())
}

fn nothing() -> PathState {
    PathState { exists: false, is_symlink: false, link_target: None }
}

#[test]
fn test_setup_command_success() {
    let home = "/tmp/t/home";
    let dir = "/tmp/t/dotfiles";
    let ctx = setup_context("__", dir, home, None);
    let m = config_mapping(&ctx, &repo_with_config("__"), &None).unwrap();
    assert_eq!(m.source, "/tmp/t/home/.config/dotsym/dotsym.toml");
    assert_eq!(m.destination, "/tmp/t/dotfiles/dotsym/__config__dotsym/dotsym.toml");
    let found = Config { separator: "__".to_string(), dir: dir.to_string(), hostname: None };
    let expected = expand_home_prefix(dir, home);
    let found_dir = expand_home_prefix(&found.dir, home);
    let same = dirs_match(&expected, &found_dir, &None, &None);
    assert!(check_found_config(&"__".to_string(), &None, &found, &dir.to_string(), &expected, &found_dir, same).is_ok());
    assert!(matches!(setup_link_action(&nothing(), &m.destination), SetupLinkAction::Create));
}

#[test]
fn test_setup_command_already_exists() {
    let ctx = setup_context("__", "/tmp/t/dotfiles", "/tmp/t/home", None);
    let m = config_mapping(&ctx, &repo_with_config("__"), &None).unwrap();
    let link = PathState { exists: true, is_symlink: true, link_target: Some(m.destination.clone()) };
    assert!(matches!(setup_link_action(&link, &m.destination), SetupLinkAction::AlreadyCorrect));
}

#[test]
fn test_setup_command_no_config_found() {
    let ctx = setup_context("__", "/tmp/t/empty-dotfiles", "/tmp/t/home", None);
    let empty = DotfilesListing { exists: true, is_dir: true, hosts: Ok(vec![]) };
    assert!(config_mapping(&ctx, &empty, &None).is_none());
    assert!(SetupError::NoConfigFound.message().contains("No dotsym.toml found"));
}

#[test]
fn test_setup_command_wrong_symlink() {
    let ctx = setup_context("__", "/tmp/t/dotfiles", "/tmp/t/home", None);
    let m = config_mapping(&ctx, &repo_with_config("__"), &None).unwrap();
    let link = PathState { exists: true, is_symlink: true, link_target: Some("/tmp/t/wrong-target".to_string()) };
    assert!(matches!(setup_link_action(&link, &m.destination), SetupLinkAction::Incorrect));
    assert!(SetupError::ConfigSymlinkIncorrect.message().contains("Config symlink exists but is incorrect"));
}

#[test]
fn test_setup_command_with_custom_separator() {
    let ctx = setup_context("--", "/tmp/t/dotfiles", "/tmp/t/home", None);
    let m = config_mapping(&ctx, &repo_with_config("--"), &None).unwrap();
    assert_eq!(m.source, "/tmp/t/home/.config/dotsym/dotsym.toml");
    assert_eq!(m.destination, "/tmp/t/dotfiles/dotsym/--config--dotsym/dotsym.toml");
}

#[test]
fn test_setup_command_separator_mismatch() {
    let dir = "/tmp/t/dotfiles".to_string();
    let found = Config { separator: "--".to_string(), dir: dir.clone(), hostname: None };
    let r = check_found_config(&"__".to_string(), &None, &found, &dir, &dir, &dir, true);
    let msg = match r {
        Err(e) => e.message(),
        Ok(()) => panic!("Setup command should fail with separator mismatch"),
    };
    assert!(msg.contains("separator mismatch"));
    assert!(msg.contains("Command line: '__'"));
    assert!(msg.contains("Config file:  '--'"));
}

#[test]
fn test_setup_command_directory_mismatch() {
    let home = "/tmp/t/home";
    let dir = "/tmp/t/dotfiles".to_string();
    let found = Config { separator: "__".to_string(), dir: "/tmp/t/different".to_string(), hostname: None };
    let expected = expand_home_prefix(&dir, home);
    let found_dir = expand_home_prefix(&found.dir, home);
    let same = dirs_match(&expected, &found_dir, &None, &None);
    assert!(!same);
    let msg = match check_found_config(&"__".to_string(), &None, &found, &dir, &expected, &found_dir, same) {
        Err(e) => e.message(),
        Ok(()) => panic!("Setup command should fail with directory mismatch"),
    };
    assert!(msg.contains("directory mismatch"));
    assert!(msg.contains("/tmp/t/dotfiles"));
    assert!(msg.contains("/tmp/t/different"));
}

#[test]
fn test_setup_command_tilde_expansion_matching() {
    let home = "/tmp/t/home";
    let found = Config { separator: "__".to_string(), dir: "~/dotfiles".to_string(), hostname: None };
    let dir = "~/dotfiles".to_string();
    let expected = expand_home_prefix(&dir, home);
    assert_eq!(expected, "/tmp/t/home/dotfiles");
    let found_dir = expand_home_prefix(&found.dir, home);
    let same = dirs_match(&expected, &found_dir, &None, &None);
    assert!(same);
    assert!(check_found_config(&"__".to_string(), &None, &found, &dir, &expected, &found_dir, same).is_ok());
}

#[test]
fn setup_defaults() {
    assert_eq!(setup_separator(None), "__");
    assert_eq!(setup_separator(Some("--".to_string())), "--");
    assert_eq!(setup_directory(None), "~/dotfiles");
    assert_eq!(setup_directory(Some("/d".to_string())), "/d");
}

#[test]
fn setup_hostname_mismatch_only_when_both_given() {
    let dir = "/d".to_string();
    let found = Config { separator: "__".to_string(), dir: dir.clone(), hostname: Some("a".to_string()) };
    let r = check_found_config(&"__".to_string(), &Some("b".to_string()), &found, &dir, &dir, &dir, true);
    match r {
        Err(e) => assert_eq!(
            e.message(),
            "Config file hostname mismatch:\n  Command line: 'b'\n  Config file:  'a'\n\nPlease ensure the --hostname argument matches the config file."
        ),
        Ok(()) => panic!("expected a hostname mismatch"),
    }
    assert!(check_found_config(&"__".to_string(), &None, &found, &dir, &dir, &dir, true).is_ok());
    let unnamed = Config { separator: "__".to_string(), dir: dir.clone(), hostname: None };
    assert!(check_found_config(&"__".to_string(), &Some("b".to_string()), &unnamed, &dir, &dir, &dir, true).is_ok());
}

#[test]
fn setup_prefers_host_config() {
    let ms = vec![
        SymlinkMapping { source: "/h/.config/dotsym/dotsym.toml".to_string(), destination: "/r/dotsym/__config__dotsym/dotsym.toml".to_string() },
        SymlinkMapping { source: "/h/.config/dotsym/dotsym.toml".to_string(), destination: "/r/box/__config__dotsym/dotsym.toml".to_string() },
        SymlinkMapping { source: "/h/.config/other/dotsym.toml".to_string(), destination: "/r/box/__config__other/dotsym.toml".to_string() },
    ];
    assert_eq!(find_config_mapping(&ms, &Some("box".to_string())), Some(1));
    assert_eq!(find_config_mapping(&ms, &Some("nobox".to_string())), Some(0));
    assert_eq!(find_config_mapping(&ms, &None), Some(0));
    let others = vec![ms[2].clone_mapping()];
    assert_eq!(find_config_mapping(&others, &None), None);
}

#[test]
fn setup_link_action_other_cases() {
    let d = "/r/dotsym/__config__dotsym/dotsym.toml";
    let broken = PathState { exists: false, is_symlink: true, link_target: None };
    assert!(matches!(setup_link_action(&broken, d), SetupLinkAction::ReplaceBroken));
    let file = PathState { exists: true, is_symlink: false, link_target: None };
    assert!(matches!(setup_link_action(&file, d), SetupLinkAction::RegularFile));
    assert!(SetupError::ConfigIsRegularFile.message().starts_with("Config file already exists as a regular file."));
    // the link target is compared as a path
    let same = PathState { exists: true, is_symlink: true, link_target: Some("/r/dotsym/__config__dotsym//dotsym.toml".to_string()) };
    assert!(matches!(setup_link_action(&same, d), SetupLinkAction::AlreadyCorrect));
}
