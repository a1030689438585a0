use dotsym::context::{Config, DotsymContext};
use dotsym::mappings::SymlinkMapping;

fn ctx() -> DotsymContext {
    let config = Config { separator: "__".to_string(), dir: "~/dotfiles".to_string(), hostname: None };
    DotsymContext::new(config, Some("h".to_string()), Some("/home/u".to_string()), None).ok().unwrap()
}

fn m(src: &str, dest: &str) -> SymlinkMapping {
    SymlinkMapping { source: src.to_string(), destination: dest.to_string() }
}

fn sample() -> Vec<SymlinkMapping> {
    vec![
        m("/home/u/.gitconfig", "/home/u/dotfiles/dotsym/__/__gitconfig"),
        m("/home/u/.config/nvim", "/home/u/dotfiles/dotsym/__config/nvim"),
        m("/home/u/.config/fish", "/home/u/dotfiles/h/__config/fish"),
    ]
}

#[test]
fn filter_base_resolves_relative_filters_in_repo() {
    let c = ctx();
    assert_eq!(c.filter_base("dotsym"), "/home/u/dotfiles/dotsym");
    assert_eq!(c.filter_base("dotsym/__config"), "/home/u/dotfiles/dotsym/__config");
    assert_eq!(c.filter_base("~/dotfiles/h"), "/home/u/dotfiles/h");
    assert_eq!(c.filter_base("/abs/path"), "/abs/path");
}

#[test]
fn no_filter_keeps_everything() {
    let c = ctx();
    let out = c.filter_mappings(sample(), None, &vec![]).ok().unwrap();
    assert_eq!(out.len(), 3);
}

#[test]
fn filter_keeps_destinations_under_it() {
    let c = ctx();
    let out = c.filter_mappings(sample(), Some("/home/u/dotfiles/dotsym".to_string()), &vec![]).ok().unwrap();
    let dests: Vec<String> = out.iter().map(|x| x.destination.clone()).collect();
    assert_eq!(dests, vec![
        "/home/u/dotfiles/dotsym/__/__gitconfig".to_string(),
        "/home/u/dotfiles/dotsym/__config/nvim".to_string(),
    ]);
    let out = c.filter_mappings(sample(), Some("/home/u/dotfiles/dotsym/__config".to_string()), &vec![]).ok().unwrap();
    assert_eq!(out.len(), 1);
    assert_eq!(out[0].source, "/home/u/.config/nvim");
    // components, not characters: `dotsym__2` is not under `dotsym`
    let more = vec![m("/home/u/.x", "/home/u/dotfiles/dotsym__2/__/__x")];
    assert!(c.filter_mappings(more, Some("/home/u/dotfiles/dotsym".to_string()), &vec![]).ok().unwrap().is_empty());
}

#[test]
fn filter_uses_resolved_destinations() {
    let c = ctx();
    let resolved = vec![
        "/data/dotfiles/dotsym/__/__gitconfig".to_string(),
        "/home/u/dotfiles/dotsym/__config/nvim".to_string(),
        "/data/dotfiles/h/__config/fish".to_string(),
    ];
    let out = c.filter_mappings(sample(), Some("/data/dotfiles".to_string()), &resolved).ok().unwrap();
    let srcs: Vec<String> = out.iter().map(|x| x.source.clone()).collect();
    assert_eq!(srcs, vec!["/home/u/.gitconfig".to_string(), "/home/u/.config/fish".to_string()]);
}
