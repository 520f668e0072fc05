//! Settings: where to search, what to search, and which projects were opened last.

use vstd::prelude::*;
use vstd::string::*;
use crate::path;
use crate::path::{clone_paths, ProjectPath};
use crate::text;
use crate::text::{chars_of, is_white_space, text_of};

verus! {

/// How many of the projects that were opened last are kept.
pub const MAX_RECENTS: usize = 5;

/// The settings. What is not set has a default.
pub struct Config {
    pub roots: Option<Vec<ProjectPath>>,
    pub scan_hidden: Option<bool>,
    pub exact_depth: Option<usize>,
    pub recent: Option<Vec<ProjectPath>>,
}

/// The paths of a setting.
pub open spec fn setting_views(paths: Option<Vec<ProjectPath>>) -> Option<Seq<Seq<u8>>> {
    match paths {
        Some(list) => Some(path::path_views(list@)),
        None => None,
    }
}

/// The paths of a setting, none if it is not set.
pub open spec fn paths_set(paths: Option<Vec<ProjectPath>>) -> Seq<Seq<u8>> {
    match paths {
        Some(list) => path::path_views(list@),
        None => Seq::empty(),
    }
}

/// The folders to search where nothing is set: the home folder, or all there is.
pub open spec fn default_root(home: Option<ProjectPath>) -> Seq<u8> {
    match home {
        Some(home) => home@,
        None => "/".spec_bytes(),
    }
}

/// The folders to search: those that are set, else the default.
pub open spec fn roots_to_search(
    roots: Option<Seq<Seq<u8>>>,
    home: Option<ProjectPath>,
) -> Seq<Seq<u8>> {
    match roots {
        Some(roots) => roots,
        None => seq![default_root(home)],
    }
}

/// Whether a setting asks for hidden folders.
pub open spec fn hidden_asked_for(setting: Option<bool>) -> bool {
    setting == Some(true)
}

/// The folders to search where nothing is set, given the home folder, if there is
/// one.
pub fn default_roots(home: Option<ProjectPath>) -> (r: Vec<ProjectPath>)
    ensures
        path::path_views(r@) == seq![default_root(home)],
{
    let root = match home {
        Some(home) => home,
        None => ProjectPath::from_text("/"),
    };
    let mut r: Vec<ProjectPath> = Vec::new();
    r.push(root);
    assert(path::path_views(r@) =~= seq![default_root(home)]);
    r
}

/// The file that holds the settings in the folder `dir`.
pub open spec fn settings_file(dir: Seq<u8>) -> Seq<u8> {
    path::joined(dir, "wtfis/config.toml".spec_bytes())
}

/// The file that holds the settings, given the folder for settings, if there is
/// one.
pub fn config_path(dir: Option<ProjectPath>) -> (r: Option<ProjectPath>)
    ensures
        r is Some <==> dir is Some,
        r matches Some(p) ==> p@ == settings_file(dir->0@),
{
    match dir {
        Some(dir) => {
            proof {
                reveal_strlit("wtfis/config.toml");
            }
            Some(dir.join("wtfis/config.toml"))
        },
        None => None,
    }
}

impl Default for Config {
    fn default() -> (r: Self)
        ensures
            r.roots is None,
            r.scan_hidden is None,
            r.exact_depth is None,
            r.recent is None,
    {
        Config { roots: None, scan_hidden: None, exact_depth: None, recent: None }
    }
}

impl Config {
    /// The folders to search, given the home folder, if there is one.
    pub fn search_roots(&self, home: Option<ProjectPath>) -> (r: Vec<ProjectPath>)
        ensures
            path::path_views(r@) == roots_to_search(setting_views(self.roots), home),
    {
        match &self.roots {
            Some(roots) => clone_paths(roots.as_slice()),
            None => default_roots(home),
        }
    }

    /// Whether hidden folders are searched.
    pub fn scans_hidden(&self) -> (r: bool)
        ensures
            r == hidden_asked_for(self.scan_hidden),
    {
        match self.scan_hidden {
            Some(b) => b,
            None => false,
        }
    }

    /// The projects that were opened last.
    pub fn recent_projects(&self) -> (r: Vec<ProjectPath>)
        ensures
            path::path_views(r@) == paths_set(self.recent),
    {
        match &self.recent {
            Some(recent) => clone_paths(recent.as_slice()),
            None => {
                let r: Vec<ProjectPath> = Vec::new();
                assert(path::path_views(r@) =~= Seq::<Seq<u8>>::empty());
                r
            },
        }
    }
}

/// `paths` without those that are the same path as `path`.
pub open spec fn without(paths: Seq<Seq<u8>>, path: Seq<u8>) -> Seq<Seq<u8>>
    decreases paths.len(),
{
    if paths.len() == 0 {
        Seq::empty()
    } else {
        let before = without(paths.drop_last(), path);
        if path::same_path(paths.last(), path) {
            before
        } else {
            before.push(paths.last())
        }
    }
}

/// `paths`, cut off after `n`.
pub open spec fn at_most(paths: Seq<Seq<u8>>, n: int) -> Seq<Seq<u8>> {
    if paths.len() <= n {
        paths
    } else {
        paths.take(n)
    }
}

/// The projects that were opened last, once `path` has been opened: it comes
/// first, the others follow as they were, and only so many are kept.
pub open spec fn remembered(recent: Seq<Seq<u8>>, path: Seq<u8>) -> Seq<Seq<u8>> {
    at_most(seq![path] + without(recent, path), MAX_RECENTS as int)
}

/// Whether `after` are the settings `before` once `path` has been opened.
pub open spec fn has_remembered(before: Config, after: Config, path: Seq<u8>) -> bool {
    &&& setting_views(after.recent) == Some(remembered(paths_set(before.recent), path))
    &&& after.roots == before.roots
    &&& after.scan_hidden == before.scan_hidden
    &&& after.exact_depth == before.exact_depth
}

/// Puts `path` first among the projects that were opened last.
pub fn remember(config: &mut Config, path: ProjectPath)
    ensures
        has_remembered(*old(config), *final(config), path@),
{
    let recent = config.recent_projects();
    let ghost views = path::path_views(recent@);
    let ghost opened = path@;
    let mut list: Vec<ProjectPath> = Vec::new();
    list.push(path.clone());
    let mut i: usize = 0;
    assert(path::path_views(list@) =~= seq![opened] + without(views.take(0), opened));
    while i < recent.len()
        invariant
            i <= recent.len(),
            views == path::path_views(recent@),
            opened == path@,
            path::path_views(list@) == seq![opened] + without(views.take(i as int), opened),
        decreases recent.len() - i,
    {
        let ghost before = list@;
        proof {
            assert(views.take(i + 1).drop_last() =~= views.take(i as int));
            assert(views.take(i + 1).last() == recent@[i as int]@);
        }
        if recent[i] != path {
            list.push(recent[i].clone());
            assert(path::path_views(list@) =~= path::path_views(before).push(recent@[i as int]@));
        }
        assert(path::path_views(list@) =~= seq![opened] + without(views.take(i + 1), opened));
        i += 1;
    }
    assert(views.take(i as int) =~= views);
    let ghost all = path::path_views(list@);
    list.truncate(MAX_RECENTS);
    assert(path::path_views(list@) =~= at_most(all, MAX_RECENTS as int));
    config.recent = Some(list);
}

/// Whether no two of `paths` are the same path.
pub open spec fn distinct(paths: Seq<Seq<u8>>) -> bool {
    forall|i: int, j: int|
        0 <= i < j < paths.len() ==> !path::same_path(#[trigger] paths[i], #[trigger] paths[j])
}

proof fn lemma_without(paths: Seq<Seq<u8>>, path: Seq<u8>)
    ensures
        forall|i: int|
            0 <= i < without(paths, path).len() ==> !path::same_path(
                #[trigger] without(paths, path)[i],
                path,
            ) && paths.contains(without(paths, path)[i]),
        distinct(paths) ==> distinct(without(paths, path)),
        (forall|i: int| 0 <= i < paths.len() ==> !path::same_path(#[trigger] paths[i], path))
            ==> without(paths, path) == paths,
    decreases paths.len(),
{
    if paths.len() > 0 {
        let shorter = paths.drop_last();
        lemma_without(shorter, path);
        let before = without(shorter, path);
        let all = without(paths, path);
        assert forall|i: int| 0 <= i < all.len() implies !path::same_path(#[trigger] all[i], path)
            && paths.contains(all[i]) by {
            if i < before.len() {
                assert(all[i] == before[i]);
                let k = choose|k: int| 0 <= k < shorter.len() && shorter[k] == before[i];
                assert(paths[k] == all[i]);
            } else {
                assert(paths[paths.len() - 1] == all[i]);
            }
        }
        if distinct(paths) {
            assert(distinct(shorter)) by {
                assert forall|i: int, j: int| 0 <= i < j < shorter.len() implies !path::same_path(
                    #[trigger] shorter[i],
                    #[trigger] shorter[j],
                ) by {
                    assert(!path::same_path(paths[i], paths[j]));
                }
            }
            assert forall|i: int, j: int| 0 <= i < j < all.len() implies !path::same_path(
                #[trigger] all[i],
                #[trigger] all[j],
            ) by {
                assert(all[i] == before[i]);
                if j < before.len() {
                    assert(all[j] == before[j]);
                } else {
                    let k = choose|k: int| 0 <= k < shorter.len() && shorter[k] == before[i];
                    assert(!path::same_path(paths[k], paths[paths.len() - 1]));
                }
            }
        }
        if forall|i: int| 0 <= i < paths.len() ==> !path::same_path(#[trigger] paths[i], path) {
            assert forall|i: int| 0 <= i < shorter.len() implies !path::same_path(
                #[trigger] shorter[i],
                path,
            ) by {
                assert(!path::same_path(paths[i], path));
            }
            assert(!path::same_path(paths[paths.len() - 1], path));
            assert(all =~= paths);
        }
    } else {
        assert(without(paths, path) =~= paths);
    }
}

proof fn lemma_without_first(path: Seq<u8>, rest: Seq<Seq<u8>>)
    ensures
        without(seq![path] + rest, path) == without(rest, path),
    decreases rest.len(),
{
    let whole = seq![path] + rest;
    if rest.len() == 0 {
        reveal_with_fuel(without, 2);
        assert(whole.drop_last() =~= Seq::<Seq<u8>>::empty());
        assert(whole.last() == path);
    } else {
        lemma_without_first(path, rest.drop_last());
        assert(whole.drop_last() =~= seq![path] + rest.drop_last());
        assert(whole.last() == rest.last());
    }
}

/// The project that was opened comes first, and no more than the limit are kept.
pub proof fn opened_project_comes_first(recent: Seq<Seq<u8>>, path: Seq<u8>)
    ensures
        1 <= remembered(recent, path).len() <= MAX_RECENTS,
        remembered(recent, path)[0] == path,
{
}

/// Where no project is listed twice, none is after another one has been opened.
pub proof fn recent_projects_stay_distinct(recent: Seq<Seq<u8>>, path: Seq<u8>)
    requires
        distinct(recent),
    ensures
        distinct(remembered(recent, path)),
{
    lemma_without(recent, path);
    let rest = without(recent, path);
    let list = remembered(recent, path);
    assert forall|i: int, j: int| 0 <= i < j < list.len() implies !path::same_path(
        #[trigger] list[i],
        #[trigger] list[j],
    ) by {
        assert(list[j] == rest[j - 1]);
        if i > 0 {
            assert(list[i] == rest[i - 1]);
        }
    }
}

/// Opening the same project again changes nothing.
pub proof fn opening_again_changes_nothing(recent: Seq<Seq<u8>>, path: Seq<u8>)
    ensures
        remembered(remembered(recent, path), path) == remembered(recent, path),
{
    lemma_without(recent, path);
    let list = remembered(recent, path);
    let rest = list.drop_first();
    assert(list =~= seq![path] + rest);
    assert forall|i: int| 0 <= i < rest.len() implies !path::same_path(
        #[trigger] rest[i],
        path,
    ) by {
        assert(rest[i] == without(recent, path)[i]);
    }
    lemma_without(rest, path);
    lemma_without_first(path, rest);
}

/// Whether `c` parts one folder from the next: a line end or a colon.
pub open spec fn parts_folders(c: char) -> bool {
    c == '\n' || c == ':'
}

/// The stretches of `text` between line ends and colons.
pub open spec fn pieces(text: Seq<char>) -> Seq<Seq<char>>
    decreases text.len(),
{
    if text.len() == 0 {
        seq![Seq::empty()]
    } else {
        let before = pieces(text.drop_last());
        if parts_folders(text.last()) {
            before.push(Seq::empty())
        } else {
            before.drop_last().push(before.last().push(text.last()))
        }
    }
}

/// `text` without the white space at its start.
pub open spec fn trim_start(text: Seq<char>) -> Seq<char>
    decreases text.len(),
{
    if text.len() > 0 && text::white_space(text[0]) {
        trim_start(text.drop_first())
    } else {
        text
    }
}

/// `text` without the white space at its end.
pub open spec fn trim_end(text: Seq<char>) -> Seq<char>
    decreases text.len(),
{
    if text.len() > 0 && text::white_space(text.last()) {
        trim_end(text.drop_last())
    } else {
        text
    }
}

/// `text` without the white space around it.
pub open spec fn trimmed(text: Seq<char>) -> Seq<char> {
    trim_end(trim_start(text))
}

/// Those of `parts` that are not blank, without the white space around them.
pub open spec fn entered(parts: Seq<Seq<char>>) -> Seq<Seq<char>>
    decreases parts.len(),
{
    if parts.len() == 0 {
        Seq::empty()
    } else {
        let before = entered(parts.drop_last());
        if trimmed(parts.last()).len() == 0 {
            before
        } else {
            before.push(trimmed(parts.last()))
        }
    }
}

/// The folders named in `text`, one per line, or several in a line with colons
/// between them.
pub open spec fn folders_named(text: Seq<char>) -> Seq<Seq<u8>> {
    entered(pieces(text)).map_values(|t: Seq<char>| vstd::utf8::encode_utf8(t))
}

/// `text` without the white space around it.
fn trim(text: &Vec<char>) -> (r: Vec<char>)
    ensures
        r@ == trimmed(text@),
{
    let mut start: usize = 0;
    assert(text@.skip(0) =~= text@);
    while start < text.len() && is_white_space(text[start])
        invariant
            start <= text.len(),
            trim_start(text@) == trim_start(text@.skip(start as int)),
        decreases text.len() - start,
    {
        assert(text@.skip(start as int).drop_first() =~= text@.skip(start + 1));
        start += 1;
    }
    let mut end: usize = text.len();
    assert(trim_start(text@) == text@.skip(start as int));
    assert(text@.subrange(start as int, end as int) =~= text@.skip(start as int));
    while end > start && is_white_space(text[end - 1])
        invariant
            start <= end <= text.len(),
            trimmed(text@) == trim_end(text@.subrange(start as int, end as int)),
        decreases end,
    {
        assert(text@.subrange(start as int, end as int).drop_last() =~= text@.subrange(
            start as int,
            end - 1,
        ));
        end -= 1;
    }
    let mut r: Vec<char> = Vec::new();
    let mut i: usize = start;
    while i < end
        invariant
            start <= i <= end <= text.len(),
            r@ == text@.subrange(start as int, i as int),
        decreases end - i,
    {
        r.push(text[i]);
        assert(r@ =~= text@.subrange(start as int, i + 1));
        i += 1;
    }
    r
}

/// The stretches of `text` between line ends and colons.
fn split_folders(text: &Vec<char>) -> (r: Vec<Vec<char>>)
    ensures
        r@.map_values(|s: Vec<char>| s@) == pieces(text@),
{
    let mut done: Vec<Vec<char>> = Vec::new();
    let mut current: Vec<char> = Vec::new();
    let mut i: usize = 0;
    proof {
        assert(text@.take(0) =~= Seq::empty());
        assert(done@.map_values(|s: Vec<char>| s@).push(current@) =~= seq![Seq::<char>::empty()]);
    }
    while i < text.len()
        invariant
            i <= text.len(),
            done@.map_values(|s: Vec<char>| s@).push(current@) == pieces(text@.take(i as int)),
        decreases text.len() - i,
    {
        let c = text[i];
        proof {
            assert(text@.take(i + 1).drop_last() =~= text@.take(i as int));
            assert(text@.take(i + 1).last() == c);
        }
        let ghost so_far = done@.map_values(|s: Vec<char>| s@);
        let ghost open_piece = current@;
        if c == '\n' || c == ':' {
            done.push(current);
            current = Vec::new();
            assert(done@.map_values(|s: Vec<char>| s@) =~= so_far.push(open_piece));
        } else {
            current.push(c);
            assert(so_far.push(open_piece).drop_last() =~= so_far);
        }
        i += 1;
    }
    assert(text@.take(i as int) =~= text@);
    let ghost so_far = done@.map_values(|s: Vec<char>| s@);
    let ghost open_piece = current@;
    done.push(current);
    assert(done@.map_values(|s: Vec<char>| s@) =~= so_far.push(open_piece));
    done
}

/// The folders named in `text`, one per line, or several in a line with colons
/// between them.
pub fn named_folders(text: &str) -> (r: Vec<ProjectPath>)
    ensures
        path::path_views(r@) == folders_named(text@),
{
    let parts = split_folders(&chars_of(text));
    let ghost views = parts@.map_values(|s: Vec<char>| s@);
    let ghost encode = |t: Seq<char>| vstd::utf8::encode_utf8(t);
    let mut r: Vec<ProjectPath> = Vec::new();
    let mut i: usize = 0;
    assert(path::path_views(r@) =~= entered(views.take(0)).map_values(encode));
    while i < parts.len()
        invariant
            i <= parts.len(),
            views == parts@.map_values(|s: Vec<char>| s@),
            encode == (|t: Seq<char>| vstd::utf8::encode_utf8(t)),
            path::path_views(r@) == entered(views.take(i as int)).map_values(encode),
        decreases parts.len() - i,
    {
        let ghost before = r@;
        proof {
            assert(views.take(i + 1).drop_last() =~= views.take(i as int));
            assert(views.take(i + 1).last() == parts@[i as int]@);
        }
        let name = trim(&parts[i]);
        if name.len() != 0 {
            let folder = ProjectPath::from_text(text_of(name.as_slice()).as_str());
            assert(folder@ == encode(name@));
            r.push(folder);
            assert(path::path_views(r@) =~= path::path_views(before).push(encode(name@)));
        }
        assert(path::path_views(r@) =~= entered(views.take(i + 1)).map_values(encode));
        i += 1;
    }
    assert(views.take(i as int) =~= views);
    r
}

/// Whether more lines are read after `line`.
pub open spec fn goes_on(line: Seq<char>, typed: bool) -> bool {
    line.len() > 0 && !(typed && trimmed(line).len() == 0)
}

/// Whether more lines are read after `line`: not after the end of the input, where
/// an empty line without a line end is read, nor after a blank line that was typed
/// at a terminal.
pub fn reads_on(line: &str, typed: bool) -> (r: bool)
    ensures
        r == goes_on(line@, typed),
{
    !line.is_empty() && !(typed && trim(&chars_of(line)).len() == 0)
}

proof fn lemma_pieces_nonempty(text: Seq<char>)
    ensures
        pieces(text).len() > 0,
    decreases text.len(),
{
    if text.len() > 0 {
        lemma_pieces_nonempty(text.drop_last());
    }
}

proof fn lemma_pieces_of_both(a: Seq<char>, c: char, b: Seq<char>)
    requires
        parts_folders(c),
    ensures
        pieces(a.push(c) + b) == pieces(a) + pieces(b),
    decreases b.len(),
{
    let whole = a.push(c) + b;
    if b.len() == 0 {
        assert(whole.drop_last() =~= a);
        assert(whole.last() == c);
        assert(pieces(whole) =~= pieces(a) + pieces(b));
    } else {
        let shorter = b.drop_last();
        lemma_pieces_of_both(a, c, shorter);
        lemma_pieces_nonempty(shorter);
        assert(whole.drop_last() =~= a.push(c) + shorter);
        assert(whole.last() == b.last());
        assert((pieces(a) + pieces(shorter)).last() == pieces(shorter).last());
        assert(pieces(whole) =~= pieces(a) + pieces(b));
    }
}

proof fn lemma_entered_of_both(a: Seq<Seq<char>>, b: Seq<Seq<char>>)
    ensures
        entered(a + b) == entered(a) + entered(b),
    decreases b.len(),
{
    if b.len() == 0 {
        assert(a + b =~= a);
        assert(entered(a + b) =~= entered(a) + entered(b));
    } else {
        lemma_entered_of_both(a, b.drop_last());
        assert((a + b).drop_last() =~= a + b.drop_last());
        assert((a + b).last() == b.last());
        assert(entered(a + b) =~= entered(a) + entered(b));
    }
}

/// The folders of two lines are those of the first, followed by those of the
/// second; a colon parts folders in the same way.
pub proof fn folders_are_named_line_by_line(a: Seq<char>, c: char, b: Seq<char>)
    requires
        parts_folders(c),
    ensures
        folders_named(a.push(c) + b) == folders_named(a) + folders_named(b),
{
    lemma_pieces_of_both(a, c, b);
    lemma_entered_of_both(pieces(a), pieces(b));
    assert(folders_named(a.push(c) + b) =~= folders_named(a) + folders_named(b));
}

proof fn lemma_one_piece(text: Seq<char>)
    requires
        forall|i: int| 0 <= i < text.len() ==> !parts_folders(#[trigger] text[i]),
    ensures
        pieces(text) == seq![text],
    decreases text.len(),
{
    if text.len() > 0 {
        let shorter = text.drop_last();
        assert forall|i: int| 0 <= i < shorter.len() implies !parts_folders(
            #[trigger] shorter[i],
        ) by {
            assert(!parts_folders(text[i]));
        }
        lemma_one_piece(shorter);
        assert(!parts_folders(text[text.len() - 1]));
        assert(shorter.push(text.last()) =~= text);
        assert(pieces(text) =~= seq![text]);
    } else {
        assert(text =~= Seq::empty());
    }
}

/// A line without colons names one folder, without the white space around it; a
/// blank line names none.
pub proof fn line_names_one_folder(line: Seq<char>)
    requires
        forall|i: int| 0 <= i < line.len() ==> !parts_folders(#[trigger] line[i]),
    ensures
        folders_named(line) == if trimmed(line).len() == 0 {
            Seq::empty()
        } else {
            seq![vstd::utf8::encode_utf8(trimmed(line))]
        },
{
    lemma_one_piece(line);
    reveal_with_fuel(entered, 2);
    assert(pieces(line).drop_last() =~= Seq::<Seq<char>>::empty());
    assert(folders_named(line) =~= if trimmed(line).len() == 0 {
        Seq::empty()
    } else {
        seq![vstd::utf8::encode_utf8(trimmed(line))]
    });
}

/// Those of `paths` that are there.
pub open spec fn present(paths: Seq<Seq<u8>>, is_dir: Seq<bool>) -> Seq<Seq<u8>>
    decreases paths.len(),
{
    if paths.len() == 0 {
        Seq::empty()
    } else {
        let before = present(paths.drop_last(), is_dir);
        if is_dir[paths.len() - 1] {
            before.push(paths.last())
        } else {
            before
        }
    }
}

/// Whether `saved` are the settings that search those of `folders` that are there, with
/// `recent` as the projects that were opened last; `None` if none is there.
pub open spec fn is_saved(
    saved: Option<Config>,
    folders: Seq<Seq<u8>>,
    is_dir: Seq<bool>,
    recent: Option<Vec<ProjectPath>>,
) -> bool {
    &&& saved is None <==> present(folders, is_dir).len() == 0
    &&& saved matches Some(config) ==> {
        &&& setting_views(config.roots) == Some(present(folders, is_dir))
        &&& config.scan_hidden == Some(false)
        &&& config.exact_depth is None
        &&& config.recent == recent
    }
}

/// The settings that search those of `folders` that are there, as `is_dir` tells,
/// and keep the projects that were opened last; `None`, for no change, if none of
/// the folders is there.
pub fn settings(
    folders: Vec<ProjectPath>,
    is_dir: &[bool],
    recent: Option<Vec<ProjectPath>>,
) -> (r: Option<Config>)
    requires
        folders@.len() == is_dir@.len(),
    ensures
        is_saved(r, path::path_views(folders@), is_dir@, recent),
{
    let ghost views = path::path_views(folders@);
    let mut roots: Vec<ProjectPath> = Vec::new();
    let mut i: usize = 0;
    assert(path::path_views(roots@) =~= present(views.take(0), is_dir@));
    while i < folders.len()
        invariant
            i <= folders.len(),
            folders.len() == is_dir.len(),
            views == path::path_views(folders@),
            path::path_views(roots@) == present(views.take(i as int), is_dir@),
        decreases folders.len() - i,
    {
        let ghost before = roots@;
        proof {
            assert(views.take(i + 1).drop_last() =~= views.take(i as int));
            assert(views.take(i + 1).last() == folders@[i as int]@);
        }
        if is_dir[i] {
            roots.push(folders[i].clone());
            assert(path::path_views(roots@) =~= path::path_views(before).push(
                folders@[i as int]@,
            ));
        }
        i += 1;
    }
    assert(views.take(i as int) =~= views);
    assert(path::path_views(roots@).len() == roots@.len());
    if roots.len() == 0 {
        None
    } else {
        Some(Config { roots: Some(roots), scan_hidden: Some(false), exact_depth: None, recent })
    }
}

proof fn lemma_without_filters(paths: Seq<Seq<u8>>, path: Seq<u8>)
    ensures
        without(paths, path) == paths.filter(|p: Seq<u8>| !path::same_path(p, path)),
    decreases paths.len(),
{
    reveal(Seq::filter);
    if paths.len() > 0 {
        lemma_without_filters(paths.drop_last(), path);
    }
    assert(without(paths, path) =~= paths.filter(|p: Seq<u8>| !path::same_path(p, path)));
}

/// Once a project has been opened, it comes first; behind it come those that came
/// before, but for the same path, as they stood; and of all these the first five are
/// kept, none less.
pub proof fn first_five_are_kept(recent: Seq<Seq<u8>>, path: Seq<u8>, all: Seq<Seq<u8>>)
    requires
        all == seq![path] + recent.filter(|p: Seq<u8>| !path::same_path(p, path)),
    ensures
        remembered(recent, path).len() == if all.len() < 5 {
            all.len() as int
        } else {
            5int
        },
        forall|i: int|
            0 <= i < remembered(recent, path).len() ==> #[trigger] remembered(recent, path)[i]
                == all[i],
{
    lemma_without_filters(recent, path);
}

/// The project that was opened before comes second, if it is another one.
pub proof fn opened_before_comes_second(recent: Seq<Seq<u8>>, first: Seq<u8>, second: Seq<u8>)
    requires
        !path::same_path(first, second),
    ensures
        remembered(remembered(recent, first), second).len() >= 2,
        remembered(remembered(recent, first), second)[0] == second,
        remembered(remembered(recent, first), second)[1] == first,
{
    let list = remembered(recent, first);
    opened_project_comes_first(recent, first);
    lemma_first_stays(list, second);
}

proof fn lemma_first_stays(list: Seq<Seq<u8>>, path: Seq<u8>)
    requires
        list.len() > 0,
        !path::same_path(list[0], path),
    ensures
        without(list, path).len() > 0,
        without(list, path)[0] == list[0],
    decreases list.len(),
{
    if list.len() > 1 {
        lemma_first_stays(list.drop_last(), path);
    } else {
        reveal_with_fuel(without, 2);
    }
}

/// A list that is cut off keeps what comes first, and no more than it may.
pub proof fn cutting_off_keeps_the_first(paths: Seq<Seq<u8>>, n: int)
    requires
        0 <= n,
    ensures
        at_most(paths, n).len() <= n,
        paths.len() <= n ==> at_most(paths, n).len() == paths.len(),
        n <= paths.len() ==> at_most(paths, n).len() == n,
        forall|i: int| 0 <= i < at_most(paths, n).len() ==> #[trigger] at_most(paths, n)[i] == paths[i],
{
}

proof fn lemma_trim_start(before: Seq<char>, rest: Seq<char>)
    requires
        forall|i: int| 0 <= i < before.len() ==> text::white_space(#[trigger] before[i]),
        rest.len() == 0 || !text::white_space(rest[0]),
    ensures
        trim_start(before + rest) == rest,
    decreases before.len(),
{
    let whole = before + rest;
    if before.len() > 0 {
        let shorter = before.drop_first();
        assert forall|i: int| 0 <= i < shorter.len() implies text::white_space(
            #[trigger] shorter[i],
        ) by {
            assert(shorter[i] == before[i + 1]);
        }
        lemma_trim_start(shorter, rest);
        assert(whole[0] == before[0]);
        assert(whole.drop_first() =~= shorter + rest);
    } else {
        assert(whole =~= rest);
    }
}

proof fn lemma_trim_end(rest: Seq<char>, after: Seq<char>)
    requires
        forall|i: int| 0 <= i < after.len() ==> text::white_space(#[trigger] after[i]),
        rest.len() == 0 || !text::white_space(rest.last()),
    ensures
        trim_end(rest + after) == rest,
    decreases after.len(),
{
    let whole = rest + after;
    if after.len() > 0 {
        let shorter = after.drop_last();
        assert forall|i: int| 0 <= i < shorter.len() implies text::white_space(
            #[trigger] shorter[i],
        ) by {
            assert(shorter[i] == after[i]);
        }
        lemma_trim_end(rest, shorter);
        assert(text::white_space(after[after.len() - 1]));
        assert(whole.last() == after.last());
        assert(whole.drop_last() =~= rest + shorter);
    } else {
        assert(whole =~= rest);
    }
}

/// White space is taken off at both ends of a text, all of it, and nothing else; what
/// stands between is left as it is.
pub proof fn white_space_around_is_taken_off(
    before: Seq<char>,
    core: Seq<char>,
    after: Seq<char>,
)
    requires
        forall|i: int| 0 <= i < before.len() ==> text::white_space(#[trigger] before[i]),
        forall|i: int| 0 <= i < after.len() ==> text::white_space(#[trigger] after[i]),
        core.len() > 0 ==> !text::white_space(core[0]) && !text::white_space(core[core.len() - 1]),
    ensures
        trimmed(before + core + after) == core,
{
    let rest = core + after;
    assert(before + core + after =~= before + rest);
    if core.len() > 0 {
        lemma_trim_start(before, rest);
        lemma_trim_end(core, after);
    } else {
        let blank = before + after;
        assert(before + rest =~= blank + core);
        assert forall|i: int| 0 <= i < blank.len() implies text::white_space(
            #[trigger] blank[i],
        ) by {
            if i < before.len() {
                assert(blank[i] == before[i]);
            } else {
                assert(blank[i] == after[i - before.len()]);
            }
        }
        lemma_trim_start(blank, core);
        assert(core =~= Seq::<char>::empty());
    }
}

/// A text that holds neither a line end nor a colon, whatever else it holds, names one
/// folder: what is left of it, letter for letter, without the white space around it;
/// none if it is blank.
pub proof fn text_without_separators_names_one_folder(
    before: Seq<char>,
    core: Seq<char>,
    after: Seq<char>,
)
    requires
        forall|i: int|
            0 <= i < (before + core + after).len() ==> #[trigger] (before + core + after)[i]
                != '\n' && (before + core + after)[i] != ':',
        forall|i: int| 0 <= i < before.len() ==> text::white_space(#[trigger] before[i]),
        forall|i: int| 0 <= i < after.len() ==> text::white_space(#[trigger] after[i]),
        core.len() > 0 ==> !text::white_space(core[0]) && !text::white_space(core[core.len() - 1]),
    ensures
        core.len() > 0 ==> folders_named(before + core + after) == seq![
            vstd::utf8::encode_utf8(core),
        ],
        core.len() == 0 ==> folders_named(before + core + after).len() == 0,
{
    let line = before + core + after;
    white_space_around_is_taken_off(before, core, after);
    assert forall|i: int| 0 <= i < line.len() implies !parts_folders(#[trigger] line[i]) by {
        assert(line[i] != '\n' && line[i] != ':');
    }
    line_names_one_folder(line);
}

/// A line end parts the folders before it from those behind it, and so does a colon.
pub proof fn line_ends_and_colons_part_folders(a: Seq<char>, b: Seq<char>)
    ensures
        folders_named(a + seq!['\n'] + b) == folders_named(a) + folders_named(b),
        folders_named(a + seq![':'] + b) == folders_named(a) + folders_named(b),
        folders_named(Seq::empty()).len() == 0,
{
    folders_are_named_line_by_line(a, '\n', b);
    folders_are_named_line_by_line(a, ':', b);
    assert(a + seq!['\n'] =~= a.push('\n'));
    assert(a + seq![':'] =~= a.push(':'));
    line_names_one_folder(Seq::empty());
}

/// Of the folders that were named, exactly those that are there are kept, in order:
/// one more is added at the end if it is there, and changes nothing if not.
pub proof fn folders_that_are_there_are_kept(
    paths: Seq<Seq<u8>>,
    is_dir: Seq<bool>,
    path: Seq<u8>,
    there: bool,
)
    requires
        paths.len() == is_dir.len(),
    ensures
        present(Seq::empty(), Seq::empty()).len() == 0,
        present(paths.push(path), is_dir.push(there)) == if there {
            present(paths, is_dir).push(path)
        } else {
            present(paths, is_dir)
        },
{
    assert(paths.push(path).drop_last() =~= paths);
    lemma_present_of_first(paths, is_dir, is_dir.push(there));
}

proof fn lemma_present_of_first(paths: Seq<Seq<u8>>, a: Seq<bool>, b: Seq<bool>)
    requires
        paths.len() <= a.len(),
        paths.len() <= b.len(),
        forall|i: int| 0 <= i < paths.len() ==> a[i] == b[i],
    ensures
        present(paths, a) == present(paths, b),
    decreases paths.len(),
{
    if paths.len() > 0 {
        lemma_present_of_first(paths.drop_last(), a, b);
    }
}

/// Where nothing is set, the home folder is searched, and where there is none, all
/// there is: the path of one slash, byte 47.
pub proof fn home_is_searched_by_default(home: Option<ProjectPath>)
    ensures
        home is Some ==> default_root(home) == home->0.bytes@,
        home is None ==> default_root(home) == seq![47u8],
{
    reveal_strlit("/");
    vstd::utf8::is_ascii_chars_encode_utf8("/"@);
    assert("/"@[0] as u8 == 47);
    if home is None {
        assert(default_root(home) =~= seq![47u8]);
    }
}

/// A setting that is not set holds no paths; one that is set holds its own.
pub proof fn unset_setting_holds_nothing(paths: Option<Vec<ProjectPath>>)
    ensures
        paths is None ==> setting_views(paths) is None && paths_set(paths).len() == 0,
        paths is Some ==> setting_views(paths) == Some(paths_set(paths)) && paths_set(paths).len()
            == paths->0@.len() && forall|i: int|
            0 <= i < paths->0@.len() ==> #[trigger] paths_set(paths)[i] == paths->0@[i].bytes@,
{
}

/// A list has no path twice exactly if no two places hold the same components.
pub proof fn distinct_lists_hold_no_path_twice(paths: Seq<Seq<u8>>)
    ensures
        distinct(paths) <==> forall|i: int, j: int|
            0 <= i < paths.len() && 0 <= j < paths.len() && i != j ==> path::components(
                #[trigger] paths[i],
            ) != path::components(#[trigger] paths[j]),
{
    if forall|i: int, j: int|
        0 <= i < paths.len() && 0 <= j < paths.len() && i != j ==> path::components(
            #[trigger] paths[i],
        ) != path::components(#[trigger] paths[j]) {
        assert(distinct(paths));
    }
    if distinct(paths) {
        assert forall|i: int, j: int|
            0 <= i < paths.len() && 0 <= j < paths.len() && i != j implies path::components(
            #[trigger] paths[i],
        ) != path::components(#[trigger] paths[j]) by {
            if i < j {
                assert(!path::same_path(paths[i], paths[j]));
            } else {
                assert(!path::same_path(paths[j], paths[i]));
            }
        }
    }
}

/// The settings stand in the file `config.toml` in the folder `wtfis` of the folder for
/// settings.
pub proof fn settings_stand_in_their_own_folder(dir: Seq<u8>, file: Seq<char>)
    requires
        dir.len() > 0,
        file == seq!['w', 't', 'f', 'i', 's', '/', 'c', 'o', 'n', 'f', 'i', 'g'] + seq![
            '.',
            't',
            'o',
            'm',
            'l',
        ],
    ensures
        dir[dir.len() - 1] != 47 ==> settings_file(dir) == dir + seq![47u8]
            + vstd::utf8::encode_utf8(file),
        dir[dir.len() - 1] == 47 ==> settings_file(dir) == dir + vstd::utf8::encode_utf8(file),
{
    reveal_strlit("wtfis/config.toml");
    assert("wtfis/config.toml"@ =~= file);
    assert(dir + seq![47u8] =~= dir.push(47));
}

/// The folders that are set are searched, all of them and in that order, and no other;
/// where none are set it is the home folder alone, or all there is.
pub proof fn set_roots_are_searched(roots: Seq<Seq<u8>>, home: Option<ProjectPath>)
    ensures
        roots_to_search(Some(roots), home) == roots,
        roots_to_search(None, home).len() == 1,
        home is Some ==> roots_to_search(None, home)[0] == home->0.bytes@,
        home is None ==> roots_to_search(None, home)[0] == seq![47u8],
{
    home_is_searched_by_default(home);
}

/// Hidden folders are searched only if the settings say so.
pub proof fn hidden_folders_are_searched_on_demand()
    ensures
        hidden_asked_for(Some(true)),
        !hidden_asked_for(Some(false)),
        !hidden_asked_for(None),
{
}

/// Opening a project changes nothing in the settings but the projects that were opened
/// last, and of these the first is now that one.
pub proof fn remembering_leaves_the_settings(before: Config, after: Config, path: Seq<u8>)
    requires
        has_remembered(before, after, path),
    ensures
        after.roots == before.roots,
        after.scan_hidden == before.scan_hidden,
        after.exact_depth == before.exact_depth,
        after.recent is Some,
        1 <= paths_set(after.recent).len() <= 5,
        paths_set(after.recent)[0] == path,
        paths_set(after.recent) == remembered(paths_set(before.recent), path),
{
}

/// Reading ends with the input, and at a terminal with a blank line; what is not typed
/// is read to the end, blank lines and all.
pub proof fn reading_ends_with_the_input(line: Seq<char>)
    ensures
        line.len() == 0 ==> !goes_on(line, true) && !goes_on(line, false),
        line.len() > 0 ==> goes_on(line, false),
        line.len() > 0 && (forall|i: int|
            0 <= i < line.len() ==> text::white_space(#[trigger] line[i])) ==> !goes_on(line, true),
        (exists|i: int| 0 <= i < line.len() && !text::white_space(#[trigger] line[i])) ==> goes_on(
            line,
            true,
        ),
{
    let none = Seq::<char>::empty();
    if forall|i: int| 0 <= i < line.len() ==> text::white_space(#[trigger] line[i]) {
        white_space_around_is_taken_off(line, none, none);
        assert(line + none + none =~= line);
    }
    if exists|i: int| 0 <= i < line.len() && !text::white_space(#[trigger] line[i]) {
        let i = choose|i: int| 0 <= i < line.len() && !text::white_space(#[trigger] line[i]);
        lemma_trim_start_keeps(line, i);
        let rest = trim_start(line);
        let j = choose|j: int| 0 <= j < rest.len() && !text::white_space(#[trigger] rest[j]);
        lemma_trim_end_keeps(rest, j);
    }
}

proof fn lemma_trim_start_keeps(text: Seq<char>, i: int)
    requires
        0 <= i < text.len(),
        !text::white_space(text[i]),
    ensures
        exists|j: int| 0 <= j < trim_start(text).len() && !text::white_space(
            #[trigger] trim_start(text)[j],
        ),
    decreases text.len(),
{
    if text::white_space(text[0]) {
        assert(text.drop_first()[i - 1] == text[i]);
        lemma_trim_start_keeps(text.drop_first(), i - 1);
        let rest = trim_start(text.drop_first());
        assert(trim_start(text) == rest);
        let j = choose|j: int| 0 <= j < rest.len() && !text::white_space(#[trigger] rest[j]);
        assert(!text::white_space(trim_start(text)[j]));
    } else {
        assert(trim_start(text)[i] == text[i]);
    }
}

proof fn lemma_trim_end_keeps(text: Seq<char>, i: int)
    requires
        0 <= i < text.len(),
        !text::white_space(text[i]),
    ensures
        trim_end(text).len() > 0,
    decreases text.len(),
{
    if text::white_space(text.last()) {
        assert(text.drop_last()[i] == text[i]);
        lemma_trim_end_keeps(text.drop_last(), i);
    }
}

/// Settings are saved exactly if one of the folders that were named is there. They search
/// those that are there, in order, no hidden folders, at all depths, and keep the
/// projects that were opened last.
pub proof fn folders_that_are_there_are_saved(
    saved: Option<Config>,
    folders: Seq<Seq<u8>>,
    is_dir: Seq<bool>,
    recent: Option<Vec<ProjectPath>>,
)
    requires
        is_saved(saved, folders, is_dir, recent),
        folders.len() == is_dir.len(),
    ensures
        (forall|i: int| 0 <= i < folders.len() ==> !#[trigger] is_dir[i]) ==> saved is None,
        (exists|i: int| 0 <= i < folders.len() && #[trigger] is_dir[i]) ==> saved is Some,
        saved is Some ==> {
            let config = saved->0;
            &&& config.roots is Some
            &&& paths_set(config.roots) == present(folders, is_dir)
            &&& !hidden_asked_for(config.scan_hidden)
            &&& config.scan_hidden == Some(false)
            &&& config.exact_depth is None
            &&& config.recent == recent
        },
{
    lemma_present_if_any(folders, is_dir);
}

proof fn lemma_present_if_any(folders: Seq<Seq<u8>>, is_dir: Seq<bool>)
    ensures
        present(folders, is_dir).len() == 0 <==> forall|i: int|
            0 <= i < folders.len() ==> !#[trigger] is_dir[i],
    decreases folders.len(),
{
    if folders.len() > 0 {
        lemma_present_if_any(folders.drop_last(), is_dir);
    }
}

} // verus!
