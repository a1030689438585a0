use dotsym::context::{Config, DotsymContext};
use dotsym::dangling::{link_dirs, sort_paths, still_dangling, LinkEntry};
use dotsym::ops::PathState;
use dotsym::mappings::SymlinkMapping;

fn ctx() -> DotsymContext {
    let config = Config { separator: "__".to_string(), dir: "~/dotfiles".to_string(), hostname: None };
    DotsymContext::new(config, Some("h".to_string()), Some("/home/u".to_string()), None).ok().unwrap()
}

fn m(src: &str, dest: &str) -> SymlinkMapping {
    SymlinkMapping { source: src.to_string(), destination: dest.to_string() }
}

fn link(dir: &str, name: &str, target: Option<&str>, target_exists: bool) -> LinkEntry {
    LinkEntry {
        dir: dir.to_string(),
        link_path: format!("{}/{}", dir, name),
        is_symlink: true,
        raw_target: target.map(|t| t.to_string()),
        target_exists,
    }
}

#[test]
fn link_dirs_are_unique_sorted_parents() {
    let ms = vec![
        m("/home/u/.config/nvim", "/d/1"),
        m("/home/u/.gitconfig", "/d/2"),
        m("/home/u/.config/fish", "/d/3"),
        m("/home/u//.bashrc", "/d/4"),
    ];
    assert_eq!(link_dirs(&ms), vec!["/home/u".to_string(), "/home/u/.config".to_string()]);
}

#[test]
fn paths_sort_by_components() {
    let ps = vec!["/b".to_string(), "/a/b".to_string(), "/a".to_string(), "/a-b".to_string()];
    // `/a/b` comes before `/a-b`: components are compared, not characters
    assert_eq!(sort_paths(&ps), vec!["/a".to_string(), "/a/b".to_string(), "/a-b".to_string(), "/b".to_string()]);
}

#[test]
fn finds_only_broken_links_into_the_repo() {
    let c = ctx();
    let entries = vec![
        // broken, into the repo (relative target)
        link("/home/u/.config", "nvim", Some("../dotfiles/dotsym/__config/nvim"), false),
        // broken, into the repo (absolute target)
        link("/home/u", ".gitconfig", Some("/home/u/dotfiles/dotsym/__/__gitconfig"), false),
        // still resolves
        link("/home/u", ".vimrc", Some("/home/u/dotfiles/dotsym/__/__vimrc"), true),
        // broken, but outside the repo
        link("/home/u", ".old", Some("/tmp/gone"), false),
        // a sibling directory whose name starts like the repo
        link("/home/u", ".x", Some("/home/u/dotfiles2/x"), false),
        // unreadable link
        link("/home/u", ".y", None, false),
        // a regular file
        LinkEntry {
            dir: "/home/u".to_string(),
            link_path: "/home/u/.profile".to_string(),
            is_symlink: false,
            raw_target: None,
            target_exists: false,
        },
    ];
    let found = c.find_dangling_symlinks(&entries);
    let pairs: Vec<(String, String)> = found.iter().map(|d| (d.link_path.clone(), d.target.clone())).collect();
    assert_eq!(pairs, vec![
        ("/home/u/.config/nvim".to_string(), "/home/u/dotfiles/dotsym/__config/nvim".to_string()),
        ("/home/u/.gitconfig".to_string(), "/home/u/dotfiles/dotsym/__/__gitconfig".to_string()),
    ]);
}

#[test]
fn nothing_dangling_in_an_empty_scan() {
    assert!(ctx().find_dangling_symlinks(&vec![]).is_empty());
}

#[test]
fn rechecked_before_removal() {
    let broken = PathState { exists: false, is_symlink: true, link_target: Some("/gone".to_string()) };
    assert!(still_dangling(&broken));
    let mended = PathState { exists: true, is_symlink: true, link_target: Some("/there".to_string()) };
    assert!(!still_dangling(&mended));
    let replaced = PathState { exists: true, is_symlink: false, link_target: None };
    assert!(!still_dangling(&replaced));
    let gone = PathState { exists: false, is_symlink: false, link_target: None };
    assert!(!still_dangling(&gone));
}
