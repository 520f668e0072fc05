use wtfis::command::{command, decide, output_line, sole_match, Command, Outcome};
use wtfis::config::{
    config_path, default_roots, named_folders, reads_on, remember, settings, Config, MAX_RECENTS,
};
use wtfis::path::ProjectPath;

fn path(text: &str) -> ProjectPath {
    ProjectPath::from_text(text)
}

fn texts(paths: &[ProjectPath]) -> Vec<String> {
    paths.iter().map(|p| p.display()).collect()
}

fn words(args: &[&str]) -> Vec<String> {
    args.iter().map(|a| a.to_string()).collect()
}

#[test]
fn defaults() {
    let config = Config::default();
    assert_eq!(texts(&config.search_roots(Some(path("/home/me")))), vec!["/home/me"]);
    assert_eq!(texts(&config.search_roots(None)), vec!["/"]);
    assert_eq!(texts(&default_roots(None)), vec!["/"]);
    assert!(!config.scans_hidden());
    assert!(config.recent_projects().is_empty());
    assert!(config.exact_depth.is_none());
}

#[test]
fn what_is_set_is_used() {
    let config = Config {
        roots: Some(vec![path("/a"), path("/b")]),
        scan_hidden: Some(true),
        exact_depth: Some(2),
        recent: Some(vec![path("/a/x")]),
    };
    assert_eq!(texts(&config.search_roots(Some(path("/home/me")))), vec!["/a", "/b"]);
    assert!(config.scans_hidden());
    assert_eq!(texts(&config.recent_projects()), vec!["/a/x"]);
}

#[test]
fn config_file_is_below_the_config_folder() {
    assert_eq!(
        config_path(Some(path("/home/me/.config"))).map(|p| p.display()),
        Some("/home/me/.config/wtfis/config.toml".to_string())
    );
    assert!(config_path(None).is_none());
}

#[test]
fn remembering_puts_first_and_drops_the_oldest() {
    let mut config = Config { scan_hidden: Some(true), ..Config::default() };
    for n in 1..=7 {
        remember(&mut config, path(&format!("/p/{n}")));
    }
    assert_eq!(texts(&config.recent_projects()), vec!["/p/7", "/p/6", "/p/5", "/p/4", "/p/3"]);
    assert_eq!(config.recent_projects().len(), MAX_RECENTS);
    assert_eq!(config.scan_hidden, Some(true));
    remember(&mut config, path("/p//5/"));
    assert_eq!(texts(&config.recent_projects()), vec!["/p//5/", "/p/7", "/p/6", "/p/4", "/p/3"]);
    remember(&mut config, path("/p//5/"));
    assert_eq!(texts(&config.recent_projects()), vec!["/p//5/", "/p/7", "/p/6", "/p/4", "/p/3"]);
}

#[test]
fn folders_are_named_between_colons() {
    assert_eq!(texts(&named_folders(" /a : /b c ::\t:/d\n")), vec!["/a", "/b c", "/d"]);
    assert!(named_folders("\n").is_empty());
    assert!(named_folders("").is_empty());
    assert_eq!(texts(&named_folders("\u{2003}/\u{e4}\u{3000}")), vec!["/\u{e4}"]);
}

#[test]
fn folders_are_named_one_per_line() {
    assert_eq!(texts(&named_folders("/a\n/b\n")), vec!["/a", "/b"]);
    assert_eq!(texts(&named_folders("/a\r\n\n /b:/c\n/d")), vec!["/a", "/b", "/c", "/d"]);
    let folders = named_folders("/a\n/b");
    let config = settings(folders, &[true, true], None).unwrap();
    assert_eq!(texts(&config.roots.unwrap()), vec!["/a", "/b"]);
}

#[test]
fn lines_are_read_to_the_end() {
    assert!(reads_on("/a\n", true) && reads_on("/a\n", false));
    assert!(reads_on("\n", false));
    assert!(!reads_on(" \n", true));
    assert!(!reads_on("", true) && !reads_on("", false));
}

#[test]
fn settings_keep_what_is_there() {
    let recent = Some(vec![path("/r")]);
    let made = settings(
        vec![path("/a"), path("/b"), path("/c")],
        &[true, false, true],
        recent,
    );
    let config = made.unwrap();
    assert_eq!(texts(&config.roots.unwrap()), vec!["/a", "/c"]);
    assert_eq!(config.scan_hidden, Some(false));
    assert_eq!(config.exact_depth, None);
    assert_eq!(texts(&config.recent.unwrap()), vec!["/r"]);
}

#[test]
fn settings_without_a_folder_change_nothing() {
    assert!(settings(vec![path("/b")], &[false], None).is_none());
    assert!(settings(vec![], &[], None).is_none());
}

#[test]
fn arguments() {
    assert!(matches!(command(&words(&["--help"])), Command::Help));
    assert!(matches!(command(&words(&["-h", "x"])), Command::Help));
    assert!(matches!(command(&words(&["--set"])), Command::Settings));
    assert!(matches!(command(&words(&[])), Command::Find(q) if q.is_empty()));
    assert!(matches!(command(&words(&["my", "app"])), Command::Find(q) if q == "my app"));
    assert!(matches!(command(&words(&["x", "--set"])), Command::Find(q) if q == "x --set"));
}

#[test]
fn only_project_of_a_name() {
    let paths = vec![path("/a/App"), path("/b/apple"), path("/c/Two"), path("/d/two")];
    assert_eq!(sole_match(&paths, "aPP").map(|p| p.display()), Some("/a/App".to_string()));
    assert!(sole_match(&paths, "two").is_none());
    assert!(sole_match(&paths, "none").is_none());
    assert!(sole_match(&[path("/x/\u{c4}")], "\u{e4}").is_none());
    let odd = ProjectPath { bytes: vec![b'/', 0xff] };
    assert!(sole_match(&[odd], "\u{fffd}").is_some());
}

#[test]
fn outcomes() {
    let paths = vec![path("/a/App"), path("/b/apple"), path("/c/Two"), path("/d/two")];
    for interactive in [false, true] {
        let outcome = decide("app", &paths, interactive);
        assert!(matches!(outcome, Outcome::Open(p) if p.display() == "/a/App"));
    }
    assert!(matches!(decide("two", &paths, true), Outcome::Pick));
    let outcome = decide("two", &paths, false);
    assert!(matches!(outcome, Outcome::Print(Some(p)) if p.display() == "/c/Two"));
    assert!(matches!(decide("none", &paths, false), Outcome::Print(None)));
    assert!(matches!(decide("", &[], false), Outcome::Nothing));
    assert!(matches!(decide("", &[], true), Outcome::Pick));
}

#[test]
fn only_match_is_the_best_match() {
    let paths = vec![path("/a/apple"), path("/b/app"), path("/b/zapp")];
    let sole = sole_match(&paths, "App").unwrap();
    assert_eq!(wtfis::rank::best_match(&paths, "App"), Some(sole));
}

#[test]
fn output_is_one_line() {
    assert_eq!(output_line(&path("/a/b c")), "/a/b c\n");
}
