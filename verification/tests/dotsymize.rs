use dotsym::context::{Config, DotsymContext};
use dotsym::dotsymize::{select_dotsymize_candidates, DirEntryInfo, DotsymizeCandidate};
use dotsym::error::DotsymError;

fn ctx() -> DotsymContext {
    let config = Config { separator: "__".to_string(), dir: "/repo".to_string(), hostname: None };
    DotsymContext::new(config, Some("myhost".to_string()), Some("/home/me".to_string()), None).ok().unwrap()
}

fn entry(name: &str, is_dir: bool) -> DirEntryInfo {
    DirEntryInfo { name: name.to_string(), is_dir }
}

#[test]
fn host_dirs_lists_canonical_then_found() {
    let c = ctx();
    let dirs = c.dotsymize_host_dirs(&vec![
        entry("dotsym__2", true),
        entry("myhost", true),
        entry("other", true),
        entry("myhost__work", true),
        entry("dotsym__file", false),
    ]);
    let names: Vec<(String, bool)> = dirs;
    assert_eq!(names, vec![
        ("myhost".to_string(), true),
        ("dotsym".to_string(), false),
        ("dotsym__2".to_string(), false),
        ("myhost__work".to_string(), true),
    ]);
}

#[test]
fn candidates_split_every_component() {
    let c = ctx();
    let host_dirs = vec![("myhost".to_string(), true), ("dotsym".to_string(), false)];
    let cands = c.dotsymize_candidates("/home/me/.config/nvim/init.lua", &host_dirs, &vec![]).ok().unwrap();
    assert_eq!(cands.len(), 6);
    let dests: Vec<String> = cands.iter().map(|c| c.repo_dest.clone()).collect();
    assert_eq!(dests, vec![
        "/repo/myhost/__/__config__nvim__init.lua",
        "/repo/dotsym/__/__config__nvim__init.lua",
        "/repo/myhost/__config/nvim__init.lua",
        "/repo/dotsym/__config/nvim__init.lua",
        "/repo/myhost/__config__nvim/init.lua",
        "/repo/dotsym/__config__nvim/init.lua",
    ]);
    assert_eq!(cands[4].literal_dir, "__config__nvim");
    assert_eq!(cands[4].dest_name, "init.lua");
    assert_eq!(cands[4].literal_depth, 2);
    assert!(cands[4].host_specific);
    assert!(!cands[5].host_specific);
}

#[test]
fn candidates_know_which_dirs_exist() {
    let c = ctx();
    let host_dirs = vec![("myhost".to_string(), true)];
    let existing = vec!["/repo/myhost".to_string(), "/repo/myhost/__config/".to_string()];
    let cands = c.dotsymize_candidates("/home/me/.config/x", &host_dirs, &existing).ok().unwrap();
    assert_eq!(cands.len(), 2);
    assert!(!cands[0].literal_dir_exists);
    assert!(cands[1].literal_dir_exists);
    assert!(cands[0].host_dir_exists && cands[1].host_dir_exists);
}

#[test]
fn candidates_refuse_paths_outside_home() {
    let c = ctx();
    let hd = vec![("dotsym".to_string(), false)];
    assert!(matches!(c.dotsymize_candidates("/etc/passwd", &hd, &vec![]), Err(DotsymError::NotUnderHome { .. })));
    assert!(matches!(c.dotsymize_candidates("/home/me", &hd, &vec![]), Err(DotsymError::NotUnderHome { .. })));
    // a path is under home by its components, not its characters
    assert!(matches!(c.dotsymize_candidates("/home/meow/x", &hd, &vec![]), Err(DotsymError::NotUnderHome { .. })));
}

fn cand(host: &str, depth: usize, exists: bool, specific: bool, dest: &str) -> DotsymizeCandidate {
    DotsymizeCandidate {
        host_dir: host.to_string(),
        literal_dir: String::new(),
        dest_name: String::new(),
        repo_dest: dest.to_string(),
        literal_dir_path: String::new(),
        literal_dir_exists: exists,
        host_dir_exists: true,
        literal_depth: depth,
        host_specific: specific,
    }
}

#[test]
fn select_prefers_existing_deep_specific() {
    let c = ctx();
    let cands = vec![
        cand("dotsym", 0, true, false, "/r/dotsym/__/a"),
        cand("myhost", 0, false, true, "/r/myhost/__/a"),
        cand("dotsym", 1, true, false, "/r/dotsym/x/a"),
        cand("myhost", 2, false, true, "/r/myhost/x__y/a"),
        cand("dotsym", 2, false, false, "/r/dotsym/x__y/a"),
        cand("dotsym__2", 2, false, false, "/r/dotsym__2/x__y/a"),
        cand("myhost__b", 2, true, true, "/r/myhost__b/x__y/a"),
        cand("myhost__a", 2, true, true, "/r/myhost__a/x__y/a"),
    ];
    let sel = select_dotsymize_candidates(&c, cands);
    let dests: Vec<String> = sel.iter().map(|c| c.repo_dest.clone()).collect();
    assert_eq!(dests, vec![
        "/r/myhost__a/x__y/a",
        "/r/myhost__b/x__y/a",
        "/r/dotsym/x/a",
        "/r/dotsym/__/a",
        "/r/myhost/x__y/a",
        "/r/dotsym/x__y/a",
    ]);
}

#[test]
fn select_drops_repeated_destinations() {
    let c = ctx();
    let cands = vec![
        cand("dotsym", 1, true, false, "/r/dotsym/a/b"),
        cand("dotsym", 1, true, false, "/r//dotsym/a/b/"),
    ];
    let sel = select_dotsymize_candidates(&c, cands);
    assert_eq!(sel.len(), 1);
    assert_eq!(sel[0].repo_dest, "/r/dotsym/a/b");
    assert!(select_dotsymize_candidates(&c, vec![]).is_empty());
}
