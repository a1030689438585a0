use dotsym::context::{logical_normalize, Config, DotsymContext};
use dotsym::mappings::{DotfilesListing, HostListing, LiteralListing, SymlinkMapping};
use dotsym::ops::{count_operations, PathState, SymlinkOperation};

fn ctx() -> DotsymContext {
    let config = Config { separator: "__".to_string(), dir: "/repo".to_string(), hostname: None };
    DotsymContext::new(config, Some("myhost".to_string()), Some("/home/me".to_string()), None).ok().unwrap()
}

/// The repo after the file was moved to `host/literal/dest`.
fn repo_holding(host: &str, literal: &str, dest: &str) -> DotfilesListing {
    DotfilesListing {
        exists: true,
        is_dir: true,
        hosts: Ok(vec![HostListing {
            name: host.to_string(),
            is_dir: true,
            literal_dirs: Ok(vec![LiteralListing {
                name: literal.to_string(),
                is_dir: true,
                entries: Ok(vec![dest.to_string()]),
            }]),
        }]),
    }
}

#[test]
fn every_candidate_links_back_to_the_target() {
    let c = ctx();
    let host_dirs = vec![("myhost".to_string(), true), ("dotsym".to_string(), false)];
    for target in ["/home/me/.config/nvim/init.lua", "/home/me/.bashrc", "/home/me/code/project/notes.md"] {
        let cands = c.dotsymize_candidates(target, &host_dirs, &vec![]).ok().unwrap();
        assert!(!cands.is_empty());
        for cand in &cands {
            let ms = c.get_symlink_mappings(&repo_holding(&cand.host_dir, &cand.literal_dir, &cand.dest_name)).ok().unwrap();
            assert_eq!(ms.len(), 1);
            assert_eq!(logical_normalize(&ms[0].source), target);
            assert_eq!(ms[0].destination, cand.repo_dest);
        }
    }
}

#[test]
fn applying_again_leaves_made_links_alone() {
    let c = ctx();
    let m = SymlinkMapping { source: "/home/me/.bashrc".to_string(), destination: "/repo/dotsym/__/__bashrc".to_string() };
    let dest = PathState { exists: true, is_symlink: false, link_target: None };
    let before = PathState { exists: true, is_symlink: false, link_target: None };
    let first = c.analyze_symlink(&m, false, &dest, &before, &vec![]).ok().unwrap();
    assert!(matches!(first, SymlinkOperation::CreateWithBackup { .. }));
    // after the steps, the source is a link to the destination
    let after = PathState { exists: true, is_symlink: true, link_target: Some(m.destination.clone()) };
    let second = c.analyze_symlink(&m, false, &dest, &after, &vec![]).ok().unwrap();
    assert!(matches!(second, SymlinkOperation::AlreadyExists(_)));
    assert!(second.steps(false, true).is_empty());
}

#[test]
fn no_backup_still_backs_up_files() {
    let c = ctx();
    let m = SymlinkMapping { source: "/home/me/.bashrc".to_string(), destination: "/repo/dotsym/__/__bashrc".to_string() };
    let dest = PathState { exists: true, is_symlink: false, link_target: None };
    let file = PathState { exists: true, is_symlink: false, link_target: None };
    let op = c.analyze_symlink(&m, true, &dest, &file, &vec![]).ok().unwrap();
    assert!(matches!(op, SymlinkOperation::CreateWithBackup { .. }));
    let other_link = PathState { exists: true, is_symlink: true, link_target: Some("/elsewhere".to_string()) };
    let op = c.analyze_symlink(&m, true, &dest, &other_link, &vec![]).ok().unwrap();
    assert!(matches!(op, SymlinkOperation::CreateSymlink(_)));
}

#[test]
fn counts_add_up() {
    let m = |s: &str| SymlinkMapping { source: s.to_string(), destination: "/r".to_string() };
    let ops = vec![
        SymlinkOperation::AlreadyExists(m("/a")),
        SymlinkOperation::CreateSymlink(m("/b")),
        SymlinkOperation::CreateWithBackup { mapping: m("/c"), backup_path: "/c.~1~".to_string() },
        SymlinkOperation::CreateWithBackup { mapping: m("/d"), backup_path: "/d.~1~".to_string() },
    ];
    let n = count_operations(&ops);
    assert_eq!((n.exists, n.create, n.backup), (1, 3, 2));
    assert_eq!(n.exists + n.create, ops.len());
}

#[test]
fn normalizing_twice_changes_nothing() {
    for p in ["/a/./b/../c", "a/../../b", "./x//y/", "/..", "", "../.."] {
        let once = logical_normalize(p);
        assert_eq!(logical_normalize(&once), once);
    }
    assert_eq!(logical_normalize("/a/./b/../c"), "/a/c");
}

#[test]
fn candidates_link_back_under_the_root_home() {
    let config = Config { separator: "__".to_string(), dir: "/repo".to_string(), hostname: None };
    let c = DotsymContext::new(config, Some("myhost".to_string()), Some("/".to_string()), None).ok().unwrap();
    let host_dirs = vec![("dotsym".to_string(), false)];
    let target = "/etc/app/conf.toml";
    let cands = c.dotsymize_candidates(target, &host_dirs, &vec![]).ok().unwrap();
    assert_eq!(cands.len(), 3);
    for cand in &cands {
        let ms = c.get_symlink_mappings(&repo_holding(&cand.host_dir, &cand.literal_dir, &cand.dest_name)).ok().unwrap();
        assert_eq!(logical_normalize(&ms[0].source), target);
        assert_eq!(ms[0].destination, cand.repo_dest);
    }
}
