use dotsym::commands::{candidate_tags, check_dotsymize_target, interpret_choice, interpret_yes_no, is_generic_hostname,
    repo_relative, separator_in_components, ChoiceReply, DotsymizeRefusal};
use dotsym::dotsymize::DotsymizeCandidate;

fn chosen(r: ChoiceReply) -> Option<usize> {
    match r {
        ChoiceReply::Chosen(i) => Some(i),
        _ => None,
    }
}

#[test]
fn choice_answers() {
    assert_eq!(chosen(interpret_choice("", 3)), Some(0));
    assert_eq!(chosen(interpret_choice("  \n", 3)), Some(0));
    assert_eq!(chosen(interpret_choice("1\n", 3)), Some(0));
    assert_eq!(chosen(interpret_choice(" 3 ", 3)), Some(2));
    assert!(matches!(interpret_choice("4", 3), ChoiceReply::Invalid));
    assert!(matches!(interpret_choice("0", 3), ChoiceReply::Invalid));
    assert!(matches!(interpret_choice("-1", 3), ChoiceReply::Invalid));
    assert!(matches!(interpret_choice("two", 3), ChoiceReply::Invalid));
    assert!(matches!(interpret_choice("q\n", 3), ChoiceReply::Cancel));
    assert!(matches!(interpret_choice("Q", 3), ChoiceReply::Cancel));
    assert!(matches!(interpret_choice("quit", 3), ChoiceReply::Invalid));
}

#[test]
fn yes_no_answers() {
    assert_eq!(interpret_yes_no(""), Some(false));
    assert_eq!(interpret_yes_no("\n"), Some(false));
    assert_eq!(interpret_yes_no("n"), Some(false));
    assert_eq!(interpret_yes_no("No\n"), Some(false));
    assert_eq!(interpret_yes_no("y"), Some(true));
    assert_eq!(interpret_yes_no(" YES \n"), Some(true));
    assert_eq!(interpret_yes_no("yep"), None);
    assert_eq!(interpret_yes_no("nope"), None);
}

#[test]
fn generic_hostnames() {
    assert!(is_generic_hostname("localhost"));
    assert!(is_generic_hostname("LocalHost.LocalDomain"));
    assert!(is_generic_hostname("(none)"));
    assert!(is_generic_hostname("UNKNOWN"));
    assert!(!is_generic_hostname("myhost"));
    assert!(!is_generic_hostname("localhost2"));
}

#[test]
fn dotsymize_refusals() {
    let t = "/home/me/.vimrc".to_string();
    let repo = "/home/me/dotfiles".to_string();
    match check_dotsymize_target(&t, &repo, false, false) {
        Some(r) => assert_eq!(r.message(), "Path does not exist: /home/me/.vimrc"),
        None => panic!("a missing path is refused"),
    }
    match check_dotsymize_target(&t, &repo, false, true) {
        Some(r) => assert_eq!(
            r.message(),
            "/home/me/.vimrc is already a symlink; it may already be managed. Refusing to dotsymize it."
        ),
        None => panic!("a link is refused"),
    }
    assert!(check_dotsymize_target(&t, &repo, true, false).is_none());
    let inside = "/home/me/dotfiles/dotsym/__/__vimrc".to_string();
    match check_dotsymize_target(&inside, &repo, true, false) {
        Some(r) => assert_eq!(
            r.message(),
            "/home/me/dotfiles/dotsym/__/__vimrc is inside the dotfiles repo (/home/me/dotfiles); nothing to do."
        ),
        None => panic!("a path in the repo is refused"),
    }
    // a sibling whose name merely starts like the repo is not inside it
    assert!(check_dotsymize_target(&"/home/me/dotfiles2/x".to_string(), &repo, true, false).is_none());
    assert!(matches!(DotsymizeRefusal::Missing { path: "p".to_string() }, DotsymizeRefusal::Missing { .. }));
}

#[test]
fn separator_warning() {
    assert!(separator_in_components("/home/me/a__b", "__"));
    assert!(!separator_in_components("/home/me/a_b/c", "__"));
    assert!(!separator_in_components("/home/me/.config", "__"));
}

fn cand(literal_exists: bool, host_exists: bool) -> DotsymizeCandidate {
    DotsymizeCandidate {
        host_dir: "dotsym".to_string(),
        literal_dir: "__".to_string(),
        dest_name: "__x".to_string(),
        repo_dest: "/r/dotsym/__/__x".to_string(),
        literal_dir_path: "/r/dotsym/__".to_string(),
        literal_dir_exists: literal_exists,
        host_dir_exists: host_exists,
        literal_depth: 0,
        host_specific: false,
    }
}

#[test]
fn candidate_labels() {
    assert_eq!(candidate_tags(&cand(true, true), 0), "existing dir, recommended");
    assert_eq!(candidate_tags(&cand(false, false), 1), "new host dir");
    assert_eq!(candidate_tags(&cand(false, true), 2), "new dir");
}

#[test]
fn places_shown_relative_to_repo() {
    assert_eq!(repo_relative("/r/dotsym/__/__x", "/r"), "dotsym/__/__x");
    assert_eq!(repo_relative("/r/dotsym/__/__x", "/r/"), "dotsym/__/__x");
    assert_eq!(repo_relative("/elsewhere/x", "/r"), "/elsewhere/x");
    assert_eq!(repo_relative("/r2/x", "/r"), "/r2/x");
}

#[test]
fn existing_target_inside_repo_is_refused() {
    let repo = "/home/me/dotfiles".to_string();
    let inside = "/home/me/dotfiles/x".to_string();
    assert!(matches!(check_dotsymize_target(&inside, &repo, true, false), Some(DotsymizeRefusal::InsideRepo { .. })));
    assert!(matches!(check_dotsymize_target(&repo, &repo, true, false), Some(DotsymizeRefusal::InsideRepo { .. })));
}
