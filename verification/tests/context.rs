use dotsym::context::{logical_normalize, Config, DotsymContext};
use dotsym::error::DotsymError;

fn ctx(sep: &str, dir: &str, home: &str) -> DotsymContext {
    let config = Config { separator: sep.to_string(), dir: dir.to_string(), hostname: None };
    DotsymContext::new(config, Some("host".to_string()), Some(home.to_string()), None).ok().unwrap()
}

#[test]
fn expand_path_examples() {
    let c = ctx("__", "~/dotfiles", "/home/u");
    assert_eq!(c.expand_path("__"), "");
    assert_eq!(c.expand_path("__gitconfig"), ".gitconfig");
    assert_eq!(c.expand_path("__config__nvim"), ".config/nvim");
    assert_eq!(c.expand_path("code__myproject"), "code/myproject");
    assert_eq!(c.expand_path("plain"), "plain");
    // every occurrence, left to right, without overlaps
    assert_eq!(c.expand_path("a___b"), "a/_b");
}

#[test]
fn expand_path_empty_separator() {
    let c = ctx("", "/d", "/home/u");
    assert_eq!(c.expand_path(""), "");
    assert_eq!(c.expand_path("ab"), "/./a/b/");
}

#[test]
fn collapse_path_examples() {
    let c = ctx("__", "~/dotfiles", "/home/u");
    assert_eq!(c.collapse_path(""), "__");
    assert_eq!(c.collapse_path(".gitconfig"), "__gitconfig");
    assert_eq!(c.collapse_path(".config/nvim"), "__config__nvim");
    assert_eq!(c.collapse_path("code/myproject"), "code__myproject");
}

#[test]
fn collapse_then_expand_round_trips() {
    let c = ctx("--", "/d", "/home/u");
    for rel in ["", ".config/program2/dir1", "code/my_project/x", ".gitconfig", "a/b/c"] {
        assert_eq!(c.expand_path(&c.collapse_path(rel)), rel);
    }
}

#[test]
fn config_dir_expands_home() {
    assert_eq!(ctx("__", "~/dotfiles", "/home/u").config_dir(), "/home/u/dotfiles");
    assert_eq!(ctx("__", "/srv/dots", "/home/u").config_dir(), "/srv/dots");
    // only a leading `~/` is expanded
    assert_eq!(ctx("__", "~/a/~/b", "/h").config_dir(), "/h/a/~/b");
    assert_eq!(ctx("__", "a~/", "h").config_dir(), "a~/");
    assert_eq!(ctx("__", "/srv/~/x", "/home/u").config_dir(), "/srv/~/x");
    assert_eq!(ctx("__", "~dotfiles", "/home/u").config_dir(), "~dotfiles");
}

#[test]
fn expand_then_collapse_round_trips() {
    let c = ctx("__", "/d", "/home/u");
    for name in ["__", "__gitconfig", "__config__nvim", "code__myproject", "plain", "a_b", "__config__program2__dir1"] {
        assert_eq!(c.collapse_path(&c.expand_path(name)), name);
    }
}

#[test]
fn resolve_target_examples() {
    let c = ctx("__", "~/dotfiles", "/home/u");
    assert_eq!(c.resolve_target("~", "/tmp"), "/home/u");
    assert_eq!(c.resolve_target("~/.config/x", "/tmp"), "/home/u/.config/x");
    assert_eq!(c.resolve_target("a/../b/./c", "/work/dir"), "/work/dir/b/c");
    assert_eq!(c.resolve_target("/etc//x/", "/work"), "/etc/x");
    assert_eq!(c.resolve_target("../../..", "/a/b"), "/");
}

#[test]
fn logical_normalize_examples() {
    assert_eq!(logical_normalize("/a/b/../c/./d"), "/a/c/d");
    assert_eq!(logical_normalize("a/../../b"), "b");
    assert_eq!(logical_normalize("./x//y/"), "x/y");
    assert_eq!(logical_normalize("/.."), "/");
    assert_eq!(logical_normalize(""), "");
}

#[test]
fn hostname_precedence() {
    let mut config = Config { separator: "__".to_string(), dir: "/d".to_string(), hostname: Some("fromconfig".to_string()) };
    let c = DotsymContext::new(config.clone_config(), Some("given".to_string()), Some("/h".to_string()), Some("det".to_string())).ok().unwrap();
    assert_eq!(c.hostname, "given");
    let c = DotsymContext::new(config.clone_config(), None, Some("/h".to_string()), Some("det".to_string())).ok().unwrap();
    assert_eq!(c.hostname, "fromconfig");
    config.hostname = None;
    let c = DotsymContext::new(config.clone_config(), None, Some("/h".to_string()), Some("  det\n".to_string())).ok().unwrap();
    assert_eq!(c.hostname, "det");
    let c = DotsymContext::new(config.clone_config(), None, Some("/h".to_string()), None).ok().unwrap();
    assert_eq!(c.hostname, "unknown");
    assert_eq!(c.home_dir, "/h");
}

#[test]
fn from_parts_requires_a_home() {
    let config = Config { separator: "__".to_string(), dir: "/d".to_string(), hostname: None };
    let r = DotsymContext::from_parts(config, Some("h".to_string()), None, None);
    assert!(matches!(r, Err(DotsymError::HomeDirectoryNotFound)));
}

#[test]
fn test_home_directory_not_found_error() {
    let config = Config { separator: "__".to_string(), dir: "/test".to_string(), hostname: None };
    // the environment names a home directory here
    let result = DotsymContext::new(config, Some("testhost".to_string()), None, None);
    assert!(result.is_ok());

    let error = DotsymError::HomeDirectoryNotFound;
    assert_eq!(error.message(), "Home directory could not be determined");
}

#[test]
fn test_error_display_messages() {
    let config_not_found = DotsymError::ConfigNotFound { path: "/home/user/.config/dotsym/dotsym.toml".to_string() };
    assert!(config_not_found.message().contains("Run 'dotsym setup' to create one"));

    let dotfiles_not_found = DotsymError::DotfilesDirectoryNotFound { path: "/home/user/dotfiles".to_string() };
    assert!(dotfiles_not_found.message().contains("does not exist"));

    let home_not_found = DotsymError::HomeDirectoryNotFound;
    assert_eq!(home_not_found.message(), "Home directory could not be determined");
}

#[test]
fn error_messages_exact() {
    let e = DotsymError::BackupCreation {
        original_path: "/a".to_string(),
        backup_path: "/a.~1~".to_string(),
        source: "denied".to_string(),
    };
    assert_eq!(e.message(), "Failed to create backup '/a.~1~' for '/a': denied");
    let e = DotsymError::NotUnderHome { path: "/etc/x".to_string() };
    assert_eq!(e.message(), "Path '/etc/x' is not located under the home directory and cannot be managed by dotsym");
    let e = DotsymError::SymlinkCreation { source: "/s".to_string(), destination: "/d".to_string(), io_error: "e".to_string() };
    assert_eq!(e.message(), "Failed to create symlink from '/s' to '/d': e");
}
