use std::path::Path;

use wtfis::path::ProjectPath;
use wtfis::rank::{best_match, rank};
use wtfis::score::{fuzzy_score, score_text};
use wtfis::text::{chars_of, decimal_text, eq_ignore_ascii_case, is_white_space, text_of};

fn path(text: &str) -> ProjectPath {
    ProjectPath::from_text(text)
}

fn shown(results: &[(ProjectPath, i128)]) -> Vec<(String, i128)> {
    results.iter().map(|r| (r.0.display(), r.1)).collect()
}

#[test]
fn ranks_exact_before_partial() {
    let a = path("/tmp/Mascotify");
    let b = path("/tmp/Mascotify Website");
    let result = rank(&[b, a.clone()], "mascotify");
    assert_eq!(result[0].0, a);
}

#[test]
fn fuzzy_handles_typo() {
    assert!(fuzzy_score(&path("/tmp/Mascotify"), "mascotfy").is_some());
}

#[test]
fn scores_are_exact() {
    let p = path("/tmp/Mascotify");
    assert_eq!(fuzzy_score(&p, ""), Some(0));
    assert_eq!(fuzzy_score(&p, "mascotify"), Some(10_000));
    assert_eq!(fuzzy_score(&p, "masc"), Some(8_000 - 9));
    assert_eq!(fuzzy_score(&p, "cot"), Some(6_000 - 9));
    assert_eq!(fuzzy_score(&p, "mascotfy"), Some(8 * 5 - 1));
    assert_eq!(fuzzy_score(&p, "mascotz"), None);
    assert_eq!(fuzzy_score(&path("/work/my-app"), "ma"), Some(20 + 20 - 1));
    assert_eq!(fuzzy_score(&path("/work/my_app x"), "max"), Some(20 + 20 + 20 - 1));
}

#[test]
fn query_is_matched_as_it_is() {
    // The query is expected in lower case; `rank` takes care of that.
    assert_eq!(fuzzy_score(&path("/tmp/Mascotify"), "Mascotify"), None);
    let results = rank(&[path("/tmp/Mascotify")], "MASCOTIFY");
    assert_eq!(shown(&results), vec![("/tmp/Mascotify".to_string(), 10_000)]);
}

#[test]
fn path_without_name_only_matches_nothing_typed() {
    for text in ["/", "", ".", "/a/..", ".."] {
        assert_eq!(fuzzy_score(&path(text), "a"), None);
        assert_eq!(fuzzy_score(&path(text), ""), Some(0));
    }
}

#[test]
fn lengths_are_counted_in_bytes() {
    assert_eq!(fuzzy_score(&path("/p/\u{e4}bc"), "\u{e4}b"), Some(8_000 - 4));
    assert_eq!(fuzzy_score(&path("/p/\u{c4}BC"), "\u{e4}b"), Some(8_000 - 4));
    assert_eq!(score_text("0123456789012345678\u{e4}", "x", "0"), Some(20 - 2));
}

#[test]
fn score_of_given_texts() {
    assert_eq!(score_text("/a/b", "b", "b"), Some(10_000));
    assert_eq!(score_text("/a/bc", "bc", "b"), Some(7_998));
    assert_eq!(score_text("/a/cb", "cb", "b"), Some(5_998));
    assert_eq!(score_text("/a/cb", "cb", "ab"), Some(25));
    assert_eq!(score_text("/a/cb", "cb", "ba"), None);
}

#[test]
fn letters_may_be_left_out_of_a_name() {
    let p = path("/home/me/Projects/Mascotify");
    let name = "mascotify";
    for skip in 0..name.len() {
        let query: String = name
            .chars()
            .enumerate()
            .filter(|(i, _)| *i != skip)
            .map(|(_, c)| c)
            .collect();
        assert!(fuzzy_score(&p, &query).is_some());
    }
}

#[test]
fn typing_on_narrows() {
    let p = path("/home/me/Projects/Mascotify");
    let query = "hmpscot";
    for n in 0..query.len() {
        assert!(fuzzy_score(&p, &query[..n]).is_some());
    }
}

#[test]
fn ranking_is_by_score_and_path() {
    let paths = vec![
        path("/z/appx"),
        path("/b/app"),
        path("/c/other"),
        path("/a/app"),
        path("/a/my app"),
        path("/a/appy"),
    ];
    let results = rank(&paths, "App");
    assert_eq!(
        shown(&results),
        vec![
            ("/a/app".to_string(), 10_000),
            ("/b/app".to_string(), 10_000),
            ("/a/appy".to_string(), 7_996),
            ("/z/appx".to_string(), 7_996),
            ("/a/my app".to_string(), 5_994),
        ]
    );
    assert_eq!(rank(&paths, "").len(), paths.len());
    assert_eq!(rank(&paths, "").first().map(|r| r.1), Some(0));
}

#[test]
fn same_paths_keep_their_order() {
    let paths = vec![path("/a//b"), path("/a/b"), path("/a/./b")];
    let results = rank(&paths, "b");
    assert_eq!(
        shown(&results),
        vec![
            ("/a//b".to_string(), 10_000),
            ("/a/b".to_string(), 10_000),
            ("/a/./b".to_string(), 10_000),
        ]
    );
}

#[test]
fn long_query_may_beat_an_exact_name() {
    let dashes: String = "-".repeat(503);
    let exact = path(&format!("/{dashes}"));
    let other = path(&format!("/{dashes}/x"));
    assert_eq!(fuzzy_score(&exact, &dashes), Some(10_000));
    assert_eq!(fuzzy_score(&other, &dashes), Some(10_010));
    let results = rank(&[exact, other.clone()], &dashes);
    assert_eq!(results[0].0, other);
}

#[test]
fn order_of_the_input_does_not_matter() {
    let names = ["/p/app", "/q/app", "/p/my-app", "/p/app", "/p/apple", "/p/other"];
    let given: Vec<ProjectPath> = names.iter().map(|name| path(name)).collect();
    let turned: Vec<ProjectPath> = names.iter().rev().map(|name| path(name)).collect();
    let results = shown(&rank(&given, "app"));
    assert_eq!(results.len(), 5);
    assert_eq!(results, shown(&rank(&turned, "app")));
    // Two spellings of one path stay as they were given, in the same places.
    let spelled = rank(&[path("/p/app/"), path("/p/app")], "app");
    assert_eq!(spelled[0].0.display(), "/p/app/");
    let spelled = rank(&[path("/p/app"), path("/p/app/")], "app");
    assert_eq!(spelled[0].0.display(), "/p/app");
}

#[test]
fn nothing_typed_matches_every_path() {
    let paths = [path("/p/\u{c4}pfel"), path("/"), path("/p/app")];
    let results = rank(&paths, "");
    assert_eq!(
        shown(&results),
        vec![
            ("/".to_string(), 0),
            ("/p/app".to_string(), 0),
            ("/p/\u{c4}pfel".to_string(), 0)
        ]
    );
    assert_eq!(best_match(&paths, "").map(|p| p.display()), Some("/".to_string()));
}

#[test]
fn ascii_paths_score_the_same_among_others() {
    let paths = [path("/p/\u{c4}PP"), path("/p/App")];
    assert_eq!(shown(&rank(&paths, "APP")), vec![("/p/App".to_string(), 10_000)]);
}

#[test]
fn best_is_the_first_of_the_ranking() {
    let paths = vec![path("/x/appy"), path("/x/app"), path("/x/zapp")];
    assert_eq!(best_match(&paths, "APP").map(|p| p.display()), Some("/x/app".to_string()));
    assert!(best_match(&paths, "nope").is_none());
    assert!(best_match(&[], "app").is_none());
}

#[test]
fn paths_are_read_like_the_system_reads_them() {
    let texts = [
        "", "/", ".", "..", "./", "./a", "a", "a/", "a//b", "/a//b/", "/a/./b", "/a/../b", "a/.",
        "/.", "//", ".a", "a/.b", "/a.b/c", "/a/b", "/a b", "/a-b", "../x", "./../x", "/a/b/c",
        "/ab", "/a/bc", "a/b", "A", "/\u{e4}/b",
    ];
    for a in texts {
        let expected = Path::new(a).file_name().map(|n| n.to_string_lossy().into_owned());
        let name = path(a).file_name().map(|n| String::from_utf8(n).unwrap());
        assert_eq!(name, expected, "name of {a:?}");
        assert_eq!(path(a).display(), Path::new(a).to_string_lossy());
        assert_eq!(path(a).parts().len(), Path::new(a).components().count());
        for b in texts {
            assert_eq!(path(a) == path(b), Path::new(a) == Path::new(b), "{a:?} {b:?}");
            assert_eq!(
                wtfis::path::parts_before(&path(a).parts(), &path(b).parts()),
                Path::new(a) < Path::new(b),
                "{a:?} {b:?}"
            );
        }
    }
}

#[test]
fn what_is_not_utf8_is_replaced() {
    let p = ProjectPath { bytes: vec![b'/', b'a', 0xff, b'b'] };
    assert_eq!(p.display(), "/a\u{fffd}b");
    assert_eq!(fuzzy_score(&p, "a\u{fffd}b"), Some(10_000));
}

#[test]
fn joining_adds_a_separator_where_there_is_none() {
    for dir in ["", "/", "/a", "/a/", "a"] {
        let expected = Path::new(dir).join("b/c");
        assert_eq!(path(dir).join("b/c").display(), expected.to_string_lossy());
    }
}

#[test]
fn white_space_is_that_of_std() {
    for n in 0..=0x10ffffu32 {
        if let Some(c) = char::from_u32(n) {
            assert_eq!(is_white_space(c), c.is_whitespace(), "{n:x}");
        }
    }
}

#[test]
fn small_text_functions() {
    assert_eq!(chars_of("a\u{e4}b"), vec!['a', '\u{e4}', 'b']);
    assert_eq!(text_of(&['a', '\u{e4}', 'b']), "a\u{e4}b");
    for n in [0usize, 7, 10, 99, 100, 12_345, usize::MAX] {
        assert_eq!(decimal_text(n), n.to_string());
    }
    for (a, b) in [("Ab", "aB"), ("ab", "abc"), ("\u{c4}", "\u{e4}"), ("[", "{"), ("", "")] {
        assert_eq!(eq_ignore_ascii_case(a, b), a.eq_ignore_ascii_case(b), "{a:?} {b:?}");
    }
}
