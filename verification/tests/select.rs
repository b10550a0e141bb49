//! The picker, the expansion of directories, and program patterns.
use sequencer::error::Error;
use sequencer::profile::program::program_matches;
use sequencer::profile::select::{
    expand_profile_args, file_name_of, names_a_profile, parse_selection, picker_lines,
    resolve_names, resolve_one, GivenPath,
};

fn list(names: &[&str]) -> Vec<String> {
    names.iter().map(|name| (*name).to_owned()).collect()
}

/// The wildcard language: `*` spans anything, matching ignores case.
#[test]
fn program_patterns_match_like_globs() {
    assert!(program_matches("firefox", "Firefox"));
    assert!(program_matches("steam_app_*", "steam_app_12345"));
    assert!(program_matches("*fox", "firefox"));
    assert!(program_matches("*", "anything"));
    assert!(!program_matches("firefox", "chromium"));
    assert!(!program_matches("steam_app_*", "steam"));
}

#[test]
fn a_star_spans_even_a_star() {
    assert!(program_matches("*", "*a"));
    assert!(program_matches("a*c*e", "abcde"));
    assert!(!program_matches("a*c*e", "abde"));
    assert!(program_matches("**", ""));
    assert!(!program_matches("", "x"));
}

#[test]
fn the_unapply_picker_understands_people() {
    let names = list(&["browser.toml", "gaming.toml"]);
    assert_eq!(parse_selection("2", &names, false).unwrap(), vec!["gaming.toml"]);
    assert_eq!(
        parse_selection("1 2", &names, false).unwrap(),
        vec!["browser.toml", "gaming.toml"]
    );
    assert_eq!(parse_selection("all", &names, false).unwrap(), names);
    assert_eq!(
        parse_selection("gaming", &names, false).unwrap(),
        vec!["gaming.toml"]
    );
    assert_eq!(
        parse_selection("/somewhere/else/gaming.toml", &names, false).unwrap(),
        vec!["gaming.toml"]
    );
    assert!(parse_selection("3", &names, false)
        .unwrap_err()
        .contains("not on the list"));
    assert!(parse_selection("music", &names, false)
        .unwrap_err()
        .contains("not applied"));
    assert!(parse_selection("", &names, false)
        .unwrap_err()
        .contains("nothing chosen"));
}

#[test]
fn a_selection_says_exactly_what_it_cannot_place() {
    let names = list(&["a.toml", "b.toml"]);
    assert_eq!(
        parse_selection("0", &names, false).unwrap_err(),
        "0 is not on the list (1..=2)"
    );
    assert_eq!(
        parse_selection("music", &names, false).unwrap_err(),
        "`music` is (already) not applied; list of applied: a.toml, b.toml"
    );
    assert_eq!(parse_selection(" ALL ", &names, false).unwrap(), names);
    assert_eq!(parse_selection("1 a a.toml 2 1", &names, false).unwrap(), vec![
        "a.toml", "b.toml", "a.toml"
    ]);
}

#[test]
fn names_resolve_one_by_one() {
    let names = list(&["a.toml", "b.toml"]);
    assert_eq!(resolve_one("b", &names, false).unwrap(), "b.toml");
    assert_eq!(
        resolve_names(&list(&["b", "x/a.toml"]), &names, false).unwrap(),
        vec!["b.toml", "a.toml"]
    );
    assert!(resolve_names(&list(&["b", "c"]), &names, true)
        .unwrap_err()
        .contains("\u{1b}[1;31mnot applied\u{1b}[0m"));
}

#[test]
fn a_path_ends_in_its_file_name() {
    assert_eq!(file_name_of("/a/b.toml"), Some("b.toml".to_owned()));
    assert_eq!(file_name_of("b/"), Some("b".to_owned()));
    assert_eq!(file_name_of("a/./"), Some("a".to_owned()));
    assert_eq!(file_name_of("a/.."), None);
    assert_eq!(file_name_of("."), None);
    assert_eq!(file_name_of("/"), None);
}

#[test]
fn the_picker_numbers_what_is_applied() {
    let lines = picker_lines(&list(&["a.toml", "b.toml"]), &list(&["/x/a.toml", "/y/b.toml"]));
    assert_eq!(
        lines,
        vec![
            "  1) a.toml  ->  /x/a.toml",
            "  2) b.toml  ->  /y/b.toml",
            "unapply which? (numbers or names, 'all'):",
        ]
    );
}

#[test]
fn a_directory_stands_for_its_profiles_in_name_order() {
    let given = vec![
        GivenPath { path: "z.toml".to_owned(), listing: None },
        GivenPath {
            path: "dir".to_owned(),
            listing: Some(list(&["dir/b.TOML", "dir/notes.md", "dir/a.toml", "dir/.toml"])),
        },
    ];
    assert_eq!(
        expand_profile_args(&given).unwrap(),
        vec!["z.toml", "dir/a.toml", "dir/b.TOML"]
    );
    let barren = vec![GivenPath { path: "empty".to_owned(), listing: Some(list(&["empty/x.txt"])) }];
    match expand_profile_args(&barren) {
        Err(Error::Profile { path, detail }) => {
            assert_eq!(path, "empty");
            assert_eq!(detail, "this directory holds no .toml profiles");
        }
        other => panic!("a directory without profiles must be refused: {other:?}"),
    }
    assert!(names_a_profile("x/y.toml"));
    assert!(!names_a_profile("x/.toml"));
    assert!(!names_a_profile("x/toml"));
}
