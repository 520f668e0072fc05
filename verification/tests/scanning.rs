use wtfis::path::ProjectPath;
use wtfis::scan::{
    directory_children, ignored_directory, scan, scan_exact_depth, sort_and_dedup, DirEntry,
    WalkEntry,
};

fn path(text: &str) -> ProjectPath {
    ProjectPath::from_text(text)
}

fn texts(paths: &[ProjectPath]) -> Vec<String> {
    paths.iter().map(|p| p.display()).collect()
}

fn dir(text: &str) -> DirEntry {
    DirEntry { path: path(text), is_dir: Some(true) }
}

fn read(folder: &ProjectPath) -> Vec<DirEntry> {
    match folder.display().as_str() {
        "/r" => vec![
            dir("/r/b"),
            dir("/r/a"),
            dir("/r/.hidden"),
            dir("/r/node_modules"),
            DirEntry { path: path("/r/file"), is_dir: Some(false) },
            DirEntry { path: path("/r/odd"), is_dir: None },
        ],
        "/r/a" => vec![dir("/r/a/two"), dir("/r/a/one"), dir("/r/a/target")],
        "/r/b" => vec![dir("/r/b/three")],
        "/r/.hidden" => vec![dir("/r/.hidden/in")],
        _ => vec![],
    }
}

fn no_walk(_: &ProjectPath) -> Vec<WalkEntry> {
    panic!("not walked")
}

fn no_read(_: &ProjectPath) -> Vec<DirEntry> {
    panic!("not read")
}

#[test]
fn ignored_folders() {
    for name in ["node_modules", "target", "build", "dist", "vendor", ".git"] {
        assert!(ignored_directory(&path(&format!("/a/{name}")), true), "{name}");
        assert!(ignored_directory(&path(&format!("/a/{name}/")), false), "{name}");
    }
    for text in ["/a/targets", "/a/Target", "/a/target/b", "/a/b.git", "/", ""] {
        assert!(!ignored_directory(&path(text), true), "{text}");
        assert!(!ignored_directory(&path(text), false), "{text}");
    }
    for text in ["/a/.b", "/.a/b", ".", "..", "../a", "./a"] {
        assert!(ignored_directory(&path(text), false), "{text}");
        assert!(!ignored_directory(&path(text), true), "{text}");
    }
    assert!(!ignored_directory(&path("/a/./b"), false));
}

#[test]
fn everything_below_a_hidden_folder_is_ignored() {
    for rest in ["x", "x/y", "target", "x//y/", ""] {
        assert!(ignored_directory(&path(&format!("/h/.hidden/{rest}")), false));
    }
}

#[test]
fn children_are_folders_that_are_not_ignored() {
    let found = directory_children(read(&path("/r")), false);
    assert_eq!(texts(&found), vec!["/r/b", "/r/a"]);
    let found = directory_children(read(&path("/r")), true);
    assert_eq!(texts(&found), vec!["/r/b", "/r/a", "/r/.hidden"]);
}

#[test]
fn exact_depth_one_and_two() {
    let roots = vec![path("/r"), path("/r"), path("/empty")];
    assert_eq!(texts(&scan_exact_depth(&roots, false, 1, read)), vec!["/r/a", "/r/b"]);
    assert_eq!(
        texts(&scan_exact_depth(&roots, false, 2, read)),
        vec!["/r/a/one", "/r/a/two", "/r/b/three"]
    );
    assert_eq!(
        texts(&scan_exact_depth(&roots, true, 2, read)),
        vec!["/r/.hidden/in", "/r/a/one", "/r/a/two", "/r/b/three"]
    );
}

#[test]
fn other_exact_depths_find_nothing() {
    for depth in [0, 3, usize::MAX] {
        assert!(scan_exact_depth(&[path("/r")], true, depth, read).is_empty());
    }
}

#[test]
fn scan_with_a_depth_reads_folders() {
    let found = scan(&[path("/r")], false, Some(1), no_walk, read);
    assert_eq!(texts(&found), vec!["/r/a", "/r/b"]);
}

#[test]
fn scan_without_a_depth_walks() {
    let walk = |root: &ProjectPath| {
        let base = root.display();
        let at = |rest: &str, is_dir: bool, depth: usize| WalkEntry {
            path: path(&format!("{base}{rest}")),
            is_dir,
            depth,
        };
        vec![
            at("", true, 0),
            at("/z", true, 1),
            at("/a", true, 1),
            at("/a/f", false, 2),
            at("/a/deep/er", true, 3),
            at("/.git", true, 1),
            at("/build", true, 1),
        ]
    };
    let roots = vec![path("/w"), path("/v"), path("/w/")];
    assert_eq!(
        texts(&scan(&roots, false, None, walk, no_read)),
        vec!["/v/a", "/v/a/deep/er", "/v/z", "/w/a", "/w/a/deep/er", "/w/z"]
    );
}

#[test]
fn sorting_is_by_component_and_keeps_the_first_spelling() {
    let found = vec![
        path("/a b"),
        path("/a/c"),
        path("/a//b"),
        path("/a/b"),
        path("/a"),
        path("/a/"),
        path("/a-b"),
    ];
    assert_eq!(
        texts(&sort_and_dedup(found)),
        vec!["/a", "/a//b", "/a/c", "/a b", "/a-b"]
    );
    assert!(sort_and_dedup(vec![]).is_empty());
}

#[test]
fn sorting_many() {
    let mut found = Vec::new();
    let mut expected = Vec::new();
    for i in 0..1000usize {
        found.push(path(&format!("/p/{:04}", (i * 7919) % 500)));
        if i < 500 {
            expected.push(format!("/p/{i:04}"));
        }
    }
    assert_eq!(texts(&sort_and_dedup(found)), expected);
}

fn entry(text: &str, depth: usize) -> WalkEntry {
    WalkEntry { path: path(text), is_dir: true, depth }
}

/// Walks into every folder, also into those that are left out.
fn walk_everywhere(root: &ProjectPath) -> Vec<WalkEntry> {
    match root.display().as_str() {
        "/r" => vec![
            entry("/r", 0),
            entry("/r/a", 1),
            entry("/r/a/one", 2),
            entry("/r/a/target", 2),
            entry("/r/a/target/debug", 3),
            entry("/r/a/two", 2),
            entry("/r/b", 1),
            entry("/r/b/three", 2),
            entry("/r/b/three/deep", 3),
            entry("/r/.hidden", 1),
            entry("/r/.hidden/in", 2),
            entry("/r/node_modules", 1),
            entry("/r/node_modules/pkg", 2),
            entry("/r/node_modules/pkg/src", 3),
        ],
        "/x/vendor" => vec![entry("/x/vendor", 0), entry("/x/vendor/lib", 1)],
        "/x/vendor/lib" => vec![entry("/x/vendor/lib", 0), entry("/x/vendor/lib/src", 1)],
        _ => vec![],
    }
}

#[test]
fn nothing_below_an_ignored_folder_is_listed() {
    assert_eq!(
        texts(&scan(&[path("/r")], false, None, walk_everywhere, no_read)),
        vec!["/r/a", "/r/a/one", "/r/a/two", "/r/b", "/r/b/three", "/r/b/three/deep"]
    );
    assert_eq!(
        texts(&scan(&[path("/r")], true, None, walk_everywhere, no_read)),
        vec![
            "/r/.hidden",
            "/r/.hidden/in",
            "/r/a",
            "/r/a/one",
            "/r/a/two",
            "/r/b",
            "/r/b/three",
            "/r/b/three/deep"
        ]
    );
}

#[test]
fn ignored_root_lists_nothing_but_a_root_below_one_does() {
    assert!(scan(&[path("/x/vendor")], true, None, walk_everywhere, no_read).is_empty());
    assert_eq!(
        texts(&scan(&[path("/x/vendor/lib")], true, None, walk_everywhere, no_read)),
        vec!["/x/vendor/lib/src"]
    );
}

#[test]
fn fixing_the_depth_only_narrows() {
    for scan_hidden in [false, true] {
        let whole = texts(&scan(&[path("/r")], scan_hidden, None, walk_everywhere, no_read));
        for depth in 0..4 {
            let narrow = scan(&[path("/r")], scan_hidden, Some(depth), no_walk, read);
            assert_eq!(narrow.is_empty(), depth == 0 || depth == 3);
            for listed in texts(&narrow) {
                assert!(whole.contains(&listed), "{listed}");
            }
        }
    }
}

#[test]
fn scans_of_two_roots_join() {
    let one = scan(&[path("/r")], false, None, walk_everywhere, no_read);
    let other = scan(&[path("/x/vendor/lib")], false, None, walk_everywhere, no_read);
    let both = scan(
        &[path("/x/vendor/lib"), path("/r")],
        false,
        None,
        walk_everywhere,
        no_read,
    );
    assert_eq!(both.len(), one.len() + other.len());
    for listed in texts(&one).iter().chain(&texts(&other)) {
        assert!(texts(&both).contains(listed));
    }
}

#[test]
fn scans_of_two_roots_join_at_a_fixed_depth() {
    for scan_hidden in [false, true] {
        for depth in 0..4 {
            let at = |roots: &[ProjectPath]| texts(&scan_exact_depth(roots, scan_hidden, depth, read));
            let (one, other) = (at(&[path("/r/a")]), at(&[path("/r")]));
            let both = at(&[path("/r/a"), path("/r")]);
            for listed in one.iter().chain(&other) {
                assert!(both.contains(listed), "{listed}");
            }
            for listed in &both {
                assert!(one.contains(listed) || other.contains(listed), "{listed}");
            }
        }
    }
}
