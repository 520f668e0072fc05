//! Which folders count as projects, and the list of them that a scan gives.

use vstd::prelude::*;
use vstd::utf8::*;
use crate::lex;
use crate::order;
use crate::order::{stable_order, SortKey};
use crate::path;
use crate::path::{parts_before, same_parts, Component, Part, ProjectPath};
use crate::text;
use crate::text::chars_of;

verus! {

/// Whether `name` is the name of a folder that tools fill.
pub open spec fn tool_folder(name: Seq<u8>) -> bool {
    let t = text::ascii_text(name);
    ||| t == "node_modules"@
    ||| t == "target"@
    ||| t == "build"@
    ||| t == "dist"@
    ||| t == "vendor"@
    ||| t == ".git"@
}

/// Whether some of the components `parts` start with a dot.
pub open spec fn any_dotted(parts: Seq<Component>) -> bool {
    exists|i: int| 0 <= i < parts.len() && path::dotted(#[trigger] parts[i])
}

/// Whether some component of a path starts with a dot.
pub open spec fn hidden(path: Seq<u8>) -> bool {
    any_dotted(path::components(path))
}

/// Whether the last of the components `parts` is the name of a folder that tools
/// fill.
pub open spec fn ends_in_tool_folder(parts: Seq<Component>) -> bool {
    parts.len() > 0 && (parts.last() matches Component::Named(name) && tool_folder(name))
}

/// Whether the folder with the components `parts` is left out of a scan: a hidden
/// one, unless hidden folders are asked for, and one that tools fill.
pub open spec fn left_out(parts: Seq<Component>, scan_hidden: bool) -> bool {
    ||| !scan_hidden && any_dotted(parts)
    ||| ends_in_tool_folder(parts)
}

/// Whether a folder is left out of a scan.
pub open spec fn ignored(path: Seq<u8>, scan_hidden: bool) -> bool {
    left_out(path::components(path), scan_hidden)
}

/// Whether `name` spells `word`.
fn spells(name: &Vec<u8>, word: &str) -> (r: bool)
    ensures
        r == (text::ascii_text(name@) == word@),
{
    let letters = chars_of(word);
    if name.len() != letters.len() {
        return false;
    }
    let mut i: usize = 0;
    while i < name.len()
        invariant
            i <= name.len(),
            name.len() == letters.len(),
            letters@ == word@,
            forall|k: int| 0 <= k < i ==> name@[k] as char == letters@[k],
        decreases name.len() - i,
    {
        if name[i] as char != letters[i] {
            assert(text::ascii_text(name@)[i as int] != word@[i as int]);
            return false;
        }
        i += 1;
    }
    assert(text::ascii_text(name@) =~= word@);
    true
}

/// Whether some component of `parts` starts with a dot.
fn has_dotted(parts: &Vec<Part>) -> (r: bool)
    ensures
        r == any_dotted(path::part_views(parts@)),
{
    let ghost views = path::part_views(parts@);
    let mut i: usize = 0;
    while i < parts.len()
        invariant
            i <= parts.len(),
            views == path::part_views(parts@),
            forall|k: int| 0 <= k < i ==> !path::dotted(#[trigger] views[k]),
        decreases parts.len() - i,
    {
        let dotted = match &parts[i] {
            Part::Root => false,
            Part::Current => true,
            Part::Parent => true,
            Part::Named(name) => name.len() > 0 && name[0] == path::DOT,
        };
        assert(views[i as int] == parts@[i as int]@);
        if dotted {
            return true;
        }
        i += 1;
    }
    false
}

/// Whether `name` is the name of a folder that tools fill.
fn is_tool_folder(name: &Vec<u8>) -> (r: bool)
    ensures
        r == tool_folder(name@),
{
    spells(name, "node_modules") || spells(name, "target") || spells(name, "build") || spells(
        name,
        "dist",
    ) || spells(name, "vendor") || spells(name, ".git")
}

/// Whether a folder is left out of a scan.
pub fn ignored_directory(path: &ProjectPath, scan_hidden: bool) -> (r: bool)
    ensures
        r == ignored(path@, scan_hidden),
{
    if !scan_hidden && has_dotted(&path.parts()) {
        return true;
    }
    match path.file_name() {
        Some(name) => is_tool_folder(&name),
        None => false,
    }
}

/// What reading a folder gives for one thing in it: its path, and whether it is a
/// folder, if that could be told.
pub struct DirEntry {
    pub path: ProjectPath,
    pub is_dir: Option<bool>,
}

/// What a `DirEntry` holds.
pub open spec fn entry_views(entries: Seq<DirEntry>) -> Seq<(Seq<u8>, Option<bool>)> {
    entries.map_values(|e: DirEntry| (e.path@, e.is_dir))
}

/// The folders that a scan looks at, among what reading a folder gave.
pub open spec fn children(
    entries: Seq<(Seq<u8>, Option<bool>)>,
    scan_hidden: bool,
) -> Seq<Seq<u8>>
    decreases entries.len(),
{
    if entries.len() == 0 {
        Seq::empty()
    } else {
        let before = children(entries.drop_last(), scan_hidden);
        let (path, is_dir) = entries.last();
        if is_dir == Some(true) && !ignored(path, scan_hidden) {
            before.push(path)
        } else {
            before
        }
    }
}

/// The folders that a scan looks at, among what reading a folder gave.
pub fn directory_children(entries: Vec<DirEntry>, scan_hidden: bool) -> (r: Vec<ProjectPath>)
    ensures
        path::path_views(r@) == children(entry_views(entries@), scan_hidden),
{
    let mut r: Vec<ProjectPath> = Vec::new();
    let ghost views = entry_views(entries@);
    let mut i: usize = 0;
    assert(path::path_views(r@) =~= children(views.take(0), scan_hidden));
    while i < entries.len()
        invariant
            i <= entries.len(),
            views == entry_views(entries@),
            path::path_views(r@) == children(views.take(i as int), scan_hidden),
        decreases entries.len() - i,
    {
        let ghost before = r@;
        let is_dir = match entries[i].is_dir {
            Some(b) => b,
            None => false,
        };
        if is_dir && !ignored_directory(&entries[i].path, scan_hidden) {
            r.push(entries[i].path.clone());
            assert(path::path_views(r@) =~= path::path_views(before).push(
                entries@[i as int].path@,
            ));
        }
        proof {
            assert(views.take(i + 1).drop_last() =~= views.take(i as int));
            assert(views.take(i + 1).last() == (entries@[i as int].path@, entries@[i as int].is_dir));
        }
        i += 1;
    }
    assert(views.take(i as int) =~= views);
    r
}

/// The key by which paths are sorted.
pub struct PathKey {
    pub parts: Vec<Part>,
}

impl SortKey for PathKey {
    open spec fn less(&self, other: &Self) -> bool {
        lex::lex_less(
            path::part_views(self.parts@),
            path::part_views(other.parts@),
            path::component_order(),
        )
    }

    proof fn less_is_weak_order() {
        path::component_order_is_strict();
        lex::lex_is_strict_order(path::component_order());
        assert forall|x: Self, y: Self, z: Self|
            !(#[trigger] x.less(&y)) && !(#[trigger] y.less(&z)) implies !x.less(&z) by {
            let (a, b, c) = (
                path::part_views(x.parts@),
                path::part_views(y.parts@),
                path::part_views(z.parts@),
            );
            let o = path::component_order();
            assert(lex::lex_less(a, b, o) || lex::lex_less(b, a, o) || a == b);
            assert(lex::lex_less(b, c, o) || lex::lex_less(c, b, o) || b == c);
            if lex::lex_less(a, c, o) && lex::lex_less(b, a, o) {
                assert(lex::lex_less(b, c, o));
            }
        }
    }

    fn is_less(&self, other: &Self) -> (r: bool) {
        parts_before(&self.parts, &other.parts)
    }
}

/// Whether `found[k]` is the first of the paths that are the same as it.
pub open spec fn first_of_its_kind(found: Seq<Seq<u8>>, k: int) -> bool {
    forall|j: int| 0 <= j < k ==> !path::same_path(#[trigger] found[j], found[k])
}

/// Whether `path` is the first of its kind among the paths that were found.
pub open spec fn was_found(found: Seq<Seq<u8>>, path: Seq<u8>) -> bool {
    exists|k: int|
        0 <= k < found.len() && #[trigger] found[k] == path && first_of_its_kind(found, k)
}

/// Whether `list` holds `path`, perhaps spelled otherwise.
pub open spec fn is_listed(list: Seq<Seq<u8>>, path: Seq<u8>) -> bool {
    exists|i: int| 0 <= i < list.len() && path::same_path(#[trigger] list[i], path)
}

/// Whether `list` holds the paths that were found, sorted, each path once, as it
/// was found first.
pub open spec fn is_settled(list: Seq<Seq<u8>>, found: Seq<Seq<u8>>) -> bool {
    &&& forall|i: int, j: int|
        0 <= i < j < list.len() ==> path::path_less(#[trigger] list[i], #[trigger] list[j])
    &&& forall|i: int| 0 <= i < list.len() ==> #[trigger] was_found(found, list[i])
    &&& forall|k: int| 0 <= k < found.len() ==> #[trigger] is_listed(list, found[k])
}

/// The paths of `found`, sorted, each path once.
pub fn sort_and_dedup(found: Vec<ProjectPath>) -> (r: Vec<ProjectPath>)
    ensures
        is_settled(path::path_views(r@), path::path_views(found@)),
{
    let ghost views = path::path_views(found@);
    let mut keys: Vec<PathKey> = Vec::new();
    let mut i: usize = 0;
    while i < found.len()
        invariant
            i <= found.len(),
            views == path::path_views(found@),
            keys.len() == i,
            forall|k: int|
                0 <= k < i ==> path::part_views((#[trigger] keys@[k]).parts@) == path::components(
                    views[k],
                ),
        decreases found.len() - i,
    {
        keys.push(PathKey { parts: found[i].parts() });
        i += 1;
    }
    let sorted = stable_order(&keys);
    let mut kept: Vec<usize> = Vec::new();
    let mut r: Vec<ProjectPath> = Vec::new();
    let mut n: usize = 0;
    proof {
        path::path_order_is_strict();
    }
    while n < sorted.len()
        invariant
            n <= sorted.len(),
            views == path::path_views(found@),
            keys.len() == found.len(),
            forall|k: int|
                0 <= k < keys.len() ==> path::part_views((#[trigger] keys@[k]).parts@)
                    == path::components(views[k]),
            order::lists(sorted@, 0, keys.len() as int),
            order::ordered(keys@, sorted@),
            r.len() == kept.len(),
            n > 0 ==> r.len() > 0,
            forall|a: int|
                0 <= a < r.len() ==> 0 <= #[trigger] kept@[a] < found.len() && r@[a]@
                    == views[kept@[a] as int],
            forall|a: int, b: int|
                0 <= a < b < r.len() ==> path::path_less(
                    views[#[trigger] kept@[a] as int],
                    views[#[trigger] kept@[b] as int],
                ),
            forall|m: int|
                0 <= m < n ==> exists|a: int|
                    0 <= a < r.len() && path::same_path(
                        views[#[trigger] kept@[a] as int],
                        views[#[trigger] sorted@[m] as int],
                    ),
            forall|a: int| 0 <= a < r.len() ==> first_of_its_kind(views, #[trigger] kept@[a] as int),
            r.len() > 0 ==> exists|m: int|
                0 <= m < n && #[trigger] sorted@[m] == kept@[kept@.len() - 1],
            forall|a: Seq<u8>| !#[trigger] path::path_less(a, a),
            forall|a: Seq<u8>, b: Seq<u8>, c: Seq<u8>|
                #[trigger] path::path_less(a, b) && #[trigger] path::path_less(b, c)
                    ==> path::path_less(a, c),
            forall|a: Seq<u8>, b: Seq<u8>|
                #[trigger] path::path_less(a, b) || path::path_less(b, a) || path::same_path(a, b),
            forall|a: Seq<u8>, b: Seq<u8>|
                #[trigger] path::path_less(a, b) ==> !path::same_path(a, b),
        decreases sorted.len() - n,
    {
        let at: usize = sorted[n];
        let ghost before = kept@;
        let repeated = r.len() > 0 && same_parts(
            &keys[kept[kept.len() - 1]].parts,
            &keys[at].parts,
        );
        if !repeated {
            proof {
                if before.len() > 0 {
                    let last = before[before.len() - 1] as int;
                    let m = choose|m: int| 0 <= m < n && #[trigger] sorted@[m] == last as usize;
                    assert(order::goes_before(keys@, sorted@[m] as int, sorted@[n as int] as int));
                    assert(path::path_less(views[last], views[at as int]) || path::path_less(
                        views[at as int],
                        views[last],
                    ) || path::same_path(views[last], views[at as int]));
                    assert(path::path_less(views[last], views[at as int]));
                    assert forall|a: int| 0 <= a < before.len() implies path::path_less(
                        views[#[trigger] before[a] as int],
                        views[at as int],
                    ) by {
                        if a < before.len() - 1 {
                            assert(path::path_less(views[before[a] as int], views[last]));
                        }
                    }
                }
                assert forall|j: int| 0 <= j < at implies !path::same_path(
                    #[trigger] views[j],
                    views[at as int],
                ) by {
                    if path::same_path(views[j], views[at as int]) {
                        assert(sorted@.contains(j as usize));
                        let m = choose|m: int| 0 <= m < sorted@.len() && sorted@[m] == j as usize;
                        assert(!keys@[j].less(&keys@[at as int])) by {
                            PathKey::less_is_weak_order();
                            path::component_order_is_strict();
                            lex::lex_is_strict_order(path::component_order());
                        }
                        assert(!keys@[at as int].less(&keys@[j])) by {
                            path::component_order_is_strict();
                            lex::lex_is_strict_order(path::component_order());
                        }
                        if m > n {
                            assert(order::goes_before(keys@, sorted@[n as int] as int, sorted@[m] as int));
                        }
                        assert(m < n);
                        let a = choose|a: int|
                            0 <= a < r.len() && path::same_path(
                                views[#[trigger] kept@[a] as int],
                                views[sorted@[m] as int],
                            );
                        assert(path::path_less(views[before[a] as int], views[at as int]));
                    }
                }
            }
            r.push(found[at].clone());
            kept.push(at);
        }
        proof {
            assert forall|m: int| 0 <= m < n + 1 implies exists|a: int|
                0 <= a < r.len() && path::same_path(
                    views[#[trigger] kept@[a] as int],
                    views[#[trigger] sorted@[m] as int],
                ) by {
                if m < n {
                    let a = choose|a: int|
                        0 <= a < before.len() && path::same_path(
                            views[#[trigger] before[a] as int],
                            views[sorted@[m] as int],
                        );
                    assert(kept@[a] == before[a]);
                } else {
                    assert(path::same_path(
                        views[kept@[kept@.len() - 1] as int],
                        views[sorted@[m] as int],
                    ));
                }
            }
        }
        n += 1;
    }
    proof {
        let list = path::path_views(r@);
        assert forall|i: int, j: int| 0 <= i < j < list.len() implies path::path_less(
            #[trigger] list[i],
            #[trigger] list[j],
        ) by {
            assert(path::path_less(views[kept@[i] as int], views[kept@[j] as int]));
        }
        assert forall|i: int| 0 <= i < list.len() implies #[trigger] was_found(views, list[i]) by {
            assert(views[kept@[i] as int] == list[i]);
        }
        assert forall|k: int| 0 <= k < views.len() implies #[trigger] is_listed(list, views[k]) by {
            assert(sorted@.contains(k as usize));
            let m = choose|m: int| 0 <= m < sorted@.len() && sorted@[m] == k as usize;
            let a = choose|a: int|
                0 <= a < r.len() && path::same_path(
                    views[#[trigger] kept@[a] as int],
                    views[sorted@[m] as int],
                );
            assert(list[a] == views[kept@[a] as int]);
        }
    }
    r
}

/// Whether reading the folder `dir` by `read_dir` may give `entries`.
pub open spec fn may_list<R: Fn(&ProjectPath) -> Vec<DirEntry>>(
    read_dir: R,
    dir: Seq<u8>,
    entries: Seq<(Seq<u8>, Option<bool>)>,
) -> bool {
    exists|p: &ProjectPath, r: Vec<DirEntry>| #[trigger]
        call_ensures(read_dir, (p,), r) && p@ == dir && entry_views(r@) == entries
}

/// Whether reading each of the folders `dirs` once may give `found` as the folders
/// in them that a scan looks at.
pub open spec fn may_find_in<R: Fn(&ProjectPath) -> Vec<DirEntry>>(
    read_dir: R,
    dirs: Seq<Seq<u8>>,
    scan_hidden: bool,
    found: Seq<Seq<u8>>,
) -> bool
    decreases dirs.len(),
{
    if dirs.len() == 0 {
        found == Seq::<Seq<u8>>::empty()
    } else {
        exists|before: Seq<Seq<u8>>, entries: Seq<(Seq<u8>, Option<bool>)>|
            {
                &&& may_find_in(read_dir, dirs.drop_last(), scan_hidden, before)
                &&& #[trigger] may_list(read_dir, dirs.last(), entries)
                &&& found == #[trigger] (before + children(entries, scan_hidden))
            }
    }
}

/// Whether reading below the folder `root` may give `found` as the folders at
/// `depth`, where the folders in `root` are at depth one. No folder is looked for
/// below depth two.
pub open spec fn may_find_below<R: Fn(&ProjectPath) -> Vec<DirEntry>>(
    read_dir: R,
    root: Seq<u8>,
    scan_hidden: bool,
    depth: usize,
    found: Seq<Seq<u8>>,
) -> bool {
    exists|entries: Seq<(Seq<u8>, Option<bool>)>|
        {
            &&& #[trigger] may_list(read_dir, root, entries)
            &&& if depth == 1 {
                found == children(entries, scan_hidden)
            } else if depth == 2 {
                may_find_in(read_dir, children(entries, scan_hidden), scan_hidden, found)
            } else {
                found == Seq::<Seq<u8>>::empty()
            }
        }
}

/// Whether reading below the folders `roots` may give `found` as the folders at
/// `depth`, root by root.
pub open spec fn may_find<R: Fn(&ProjectPath) -> Vec<DirEntry>>(
    read_dir: R,
    roots: Seq<Seq<u8>>,
    scan_hidden: bool,
    depth: usize,
    found: Seq<Seq<u8>>,
) -> bool
    decreases roots.len(),
{
    if roots.len() == 0 {
        found == Seq::<Seq<u8>>::empty()
    } else {
        exists|before: Seq<Seq<u8>>, below: Seq<Seq<u8>>|
            {
                &&& may_find(read_dir, roots.drop_last(), scan_hidden, depth, before)
                &&& #[trigger] may_find_below(read_dir, roots.last(), scan_hidden, depth, below)
                &&& found == #[trigger] (before + below)
            }
    }
}

/// Appends `more` to `paths`.
fn extend(paths: &mut Vec<ProjectPath>, more: Vec<ProjectPath>)
    ensures
        path::path_views(final(paths)@) == path::path_views(old(paths)@) + path::path_views(more@),
{
    let mut more = more;
    let ghost added = more@;
    paths.append(&mut more);
    assert(path::path_views(paths@) =~= path::path_views(old(paths)@) + path::path_views(added));
}

/// The folders in the folders `dirs`.
fn children_of_all<R: Fn(&ProjectPath) -> Vec<DirEntry>>(
    dirs: &Vec<ProjectPath>,
    scan_hidden: bool,
    read_dir: &R,
) -> (r: Vec<ProjectPath>)
    requires
        forall|p: &ProjectPath| call_requires(*read_dir, (p,)),
    ensures
        may_find_in(*read_dir, path::path_views(dirs@), scan_hidden, path::path_views(r@)),
{
    let ghost views = path::path_views(dirs@);
    let mut r: Vec<ProjectPath> = Vec::new();
    let mut i: usize = 0;
    assert(path::path_views(r@) =~= Seq::<Seq<u8>>::empty());
    assert(views.take(0).len() == 0);
    while i < dirs.len()
        invariant
            i <= dirs.len(),
            views == path::path_views(dirs@),
            forall|p: &ProjectPath| call_requires(*read_dir, (p,)),
            may_find_in(*read_dir, views.take(i as int), scan_hidden, path::path_views(r@)),
        decreases dirs.len() - i,
    {
        let ghost before = path::path_views(r@);
        let entries = read_dir(&dirs[i]);
        let ghost listed = entry_views(entries@);
        proof {
            assert(call_ensures(*read_dir, (&dirs@[i as int],), entries));
            assert(views.take(i + 1).drop_last() =~= views.take(i as int));
            assert(views.take(i + 1).last() == dirs@[i as int]@);
            assert(may_list(*read_dir, dirs@[i as int]@, listed));
        }
        extend(&mut r, directory_children(entries, scan_hidden));
        assert(path::path_views(r@) == before + children(listed, scan_hidden));
        i += 1;
    }
    assert(views.take(i as int) =~= views);
    r
}

/// The folders at a depth of one or two below `roots`, sorted, each once; none for
/// another depth. `read_dir` reads a folder.
pub fn scan_exact_depth<R: Fn(&ProjectPath) -> Vec<DirEntry>>(
    roots: &[ProjectPath],
    scan_hidden: bool,
    depth: usize,
    read_dir: R,
) -> (r: Vec<ProjectPath>)
    requires
        forall|p: &ProjectPath| call_requires(read_dir, (p,)),
    ensures
        exists|found: Seq<Seq<u8>>| #[trigger]
            may_find(read_dir, path::path_views(roots@), scan_hidden, depth, found) && is_settled(
                path::path_views(r@),
                found,
            ),
{
    let ghost views = path::path_views(roots@);
    let mut paths: Vec<ProjectPath> = Vec::new();
    let mut i: usize = 0;
    assert(path::path_views(paths@) =~= Seq::<Seq<u8>>::empty());
    assert(views.take(0).len() == 0);
    while i < roots.len()
        invariant
            i <= roots.len(),
            views == path::path_views(roots@),
            forall|p: &ProjectPath| call_requires(read_dir, (p,)),
            may_find(
                read_dir,
                views.take(i as int),
                scan_hidden,
                depth,
                path::path_views(paths@),
            ),
        decreases roots.len() - i,
    {
        let ghost before = path::path_views(paths@);
        let entries = read_dir(&roots[i]);
        let ghost listed = entry_views(entries@);
        proof {
            assert(call_ensures(read_dir, (&roots@[i as int],), entries));
            assert(views.take(i + 1).drop_last() =~= views.take(i as int));
            assert(views.take(i + 1).last() == roots@[i as int]@);
            assert(may_list(read_dir, roots@[i as int]@, listed));
        }
        let first_level = directory_children(entries, scan_hidden);
        let below = if depth == 1 {
            first_level
        } else if depth == 2 {
            children_of_all(&first_level, scan_hidden, &read_dir)
        } else {
            Vec::new()
        };
        proof {
            if depth != 1 && depth != 2 {
                assert(path::path_views(below@) =~= Seq::<Seq<u8>>::empty());
            }
            assert(may_find_below(
                read_dir,
                roots@[i as int]@,
                scan_hidden,
                depth,
                path::path_views(below@),
            ));
        }
        extend(&mut paths, below);
        i += 1;
    }
    assert(views.take(i as int) =~= views);
    sort_and_dedup(paths)
}

/// What walking a tree of folders gives for one thing in it: its path, whether it
/// is a folder, and how far it is below where the walk started.
pub struct WalkEntry {
    pub path: ProjectPath,
    pub is_dir: bool,
    pub depth: usize,
}

/// Whether the way from the folder `root` down to `path` leads through no folder
/// that is left out, both ends included.
pub open spec fn open_way(root: Seq<u8>, path: Seq<u8>, scan_hidden: bool) -> bool {
    &&& !ignored(path, scan_hidden)
    &&& forall|n: int|
        path::components(root).len() <= n <= path::components(path).len() ==> !left_out(
            #[trigger] path::components(path).take(n),
            scan_hidden,
        )
}

/// Whether a scan below `root` keeps what a walk comes to, given its path, whether
/// it is a folder, and its depth: folders below the start, with no folder that is
/// left out on the way to them.
pub open spec fn keeps(root: Seq<u8>, entry: (Seq<u8>, bool, int), scan_hidden: bool) -> bool {
    entry.1 && entry.2 != 0 && open_way(root, entry.0, scan_hidden)
}

/// What a `WalkEntry` holds.
pub open spec fn walk_views(entries: Seq<WalkEntry>) -> Seq<(Seq<u8>, bool, int)> {
    entries.map_values(|e: WalkEntry| (e.path@, e.is_dir, e.depth as int))
}

/// The folders that a walk below `root` finds, where it comes to `entries`.
pub open spec fn found_on_walk(
    root: Seq<u8>,
    entries: Seq<(Seq<u8>, bool, int)>,
    scan_hidden: bool,
) -> Seq<Seq<u8>>
    decreases entries.len(),
{
    if entries.len() == 0 {
        Seq::empty()
    } else {
        let before = found_on_walk(root, entries.drop_last(), scan_hidden);
        if keeps(root, entries.last(), scan_hidden) {
            before.push(entries.last().0)
        } else {
            before
        }
    }
}

/// The folders that walks below `roots` find, root by root.
pub open spec fn found_on_walks(
    roots: Seq<Seq<u8>>,
    walks: Seq<Seq<(Seq<u8>, bool, int)>>,
    scan_hidden: bool,
) -> Seq<Seq<u8>>
    decreases walks.len(),
{
    if walks.len() == 0 {
        Seq::empty()
    } else {
        found_on_walks(roots, walks.drop_last(), scan_hidden) + found_on_walk(
            roots[walks.len() - 1],
            walks.last(),
            scan_hidden,
        )
    }
}

/// Whether walking below the folder `root` by `walk` may come to `entries`.
pub open spec fn may_come_to<W: Fn(&ProjectPath) -> Vec<WalkEntry>>(
    walk: W,
    root: Seq<u8>,
    entries: Seq<(Seq<u8>, bool, int)>,
) -> bool {
    exists|p: &ProjectPath, r: Vec<WalkEntry>| #[trigger]
        call_ensures(walk, (p,), r) && p@ == root && walk_views(r@) == entries
}

/// Whether walking below each of the folders `roots` once may be `walks`.
pub open spec fn may_be_walks<W: Fn(&ProjectPath) -> Vec<WalkEntry>>(
    walk: W,
    roots: Seq<Seq<u8>>,
    walks: Seq<Seq<(Seq<u8>, bool, int)>>,
) -> bool {
    &&& walks.len() == roots.len()
    &&& forall|i: int| 0 <= i < roots.len() ==> may_come_to(walk, roots[i], #[trigger] walks[i])
}

/// Whether the way down to `path` from the folder of its first `from` components
/// leads through no folder that is left out.
fn is_open_way(
    Ghost(root): Ghost<Seq<u8>>,
    from: usize,
    path: &ProjectPath,
    scan_hidden: bool,
) -> (r: bool)
    requires
        from == path::components(root).len(),
    ensures
        r == open_way(root, path@, scan_hidden),
{
    if ignored_directory(path, scan_hidden) {
        return false;
    }
    let parts = path.parts();
    let ghost all = path::components(path@);
    assert(parts.len() == all.len());
    let mut n: usize = from;
    while n <= parts.len()
        invariant
            from <= n,
            parts.len() == all.len(),
            path::part_views(parts@) == all,
            all == path::components(path@),
            from == path::components(root).len(),
            !scan_hidden ==> !any_dotted(all),
            forall|m: int|
                from <= m < n && m <= all.len() ==> !left_out(
                    #[trigger] all.take(m),
                    scan_hidden,
                ),
        ensures
            forall|m: int|
                from <= m <= all.len() ==> !left_out(#[trigger] all.take(m), scan_hidden),
        decreases parts.len() + 1 - n,
    {
        let ghost upto = all.take(n as int);
        proof {
            if any_dotted(upto) {
                let i = choose|i: int| 0 <= i < upto.len() && path::dotted(#[trigger] upto[i]);
                assert(path::dotted(all[i]));
            }
        }
        if n > 0 {
            assert(upto.last() == parts@[n - 1]@);
            if let Part::Named(name) = &parts[n - 1] {
                if is_tool_folder(name) {
                    assert(ends_in_tool_folder(upto));
                    return false;
                }
            }
        }
        assert(!left_out(upto, scan_hidden));
        if n == parts.len() {
            break;
        }
        n += 1;
    }
    true
}

/// The folders below `roots`, sorted, each once: those at a fixed depth, if one is
/// set, else all. `walk` walks the tree below a folder, and `read_dir` reads a
/// folder.
pub fn scan<
    W: Fn(&ProjectPath) -> Vec<WalkEntry>,
    R: Fn(&ProjectPath) -> Vec<DirEntry>,
>(
    roots: &[ProjectPath],
    scan_hidden: bool,
    exact_depth: Option<usize>,
    walk: W,
    read_dir: R,
) -> (r: Vec<ProjectPath>)
    requires
        forall|p: &ProjectPath| call_requires(walk, (p,)),
        forall|p: &ProjectPath| call_requires(read_dir, (p,)),
    ensures
        match exact_depth {
            Some(depth) => exists|found: Seq<Seq<u8>>| #[trigger]
                may_find(read_dir, path::path_views(roots@), scan_hidden, depth, found)
                    && is_settled(path::path_views(r@), found),
            None => exists|walks: Seq<Seq<(Seq<u8>, bool, int)>>| #[trigger]
                may_be_walks(walk, path::path_views(roots@), walks) && is_settled(
                    path::path_views(r@),
                    found_on_walks(path::path_views(roots@), walks, scan_hidden),
                ),
        },
{
    match exact_depth {
        Some(depth) => {
            return scan_exact_depth(roots, scan_hidden, depth, read_dir);
        },
        None => {},
    }
    let ghost views = path::path_views(roots@);
    let ghost mut walks: Seq<Seq<(Seq<u8>, bool, int)>> = Seq::empty();
    let mut paths: Vec<ProjectPath> = Vec::new();
    let mut i: usize = 0;
    assert(path::path_views(paths@) =~= found_on_walks(views, walks, scan_hidden));
    while i < roots.len()
        invariant
            i <= roots.len(),
            views == path::path_views(roots@),
            forall|p: &ProjectPath| call_requires(walk, (p,)),
            walks.len() == i,
            forall|k: int| 0 <= k < i ==> may_come_to(walk, views[k], #[trigger] walks[k]),
            path::path_views(paths@) == found_on_walks(views, walks, scan_hidden),
        decreases roots.len() - i,
    {
        let entries = walk(&roots[i]);
        let root_parts = roots[i].parts();
        let from: usize = root_parts.len();
        let ghost root = views[i as int];
        let ghost earlier = path::path_views(paths@);
        let ghost steps = walk_views(entries@);
        proof {
            assert(root == roots@[i as int]@);
            assert(path::part_views(root_parts@).len() == from);
            assert(call_ensures(walk, (&roots@[i as int],), entries));
            assert(may_come_to(walk, root, steps));
            assert(path::path_views(paths@) =~= earlier + found_on_walk(
                root,
                steps.take(0),
                scan_hidden,
            ));
        }
        let mut j: usize = 0;
        while j < entries.len()
            invariant
                j <= entries.len(),
                steps == walk_views(entries@),
                from == path::components(root).len(),
                path::path_views(paths@) == earlier + found_on_walk(
                    root,
                    steps.take(j as int),
                    scan_hidden,
                ),
            decreases entries.len() - j,
        {
            let ghost before = paths@;
            let entry = &entries[j];
            proof {
                assert(steps.take(j + 1).drop_last() =~= steps.take(j as int));
                assert(steps.take(j + 1).last() == (
                    entry.path@,
                    entry.is_dir,
                    entry.depth as int,
                ));
            }
            if entry.is_dir && entry.depth != 0 && is_open_way(
                Ghost(root),
                from,
                &entry.path,
                scan_hidden,
            ) {
                paths.push(entry.path.clone());
                assert(path::path_views(paths@) =~= path::path_views(before).push(entry.path@));
            }
            assert(path::path_views(paths@) =~= earlier + found_on_walk(
                root,
                steps.take(j + 1),
                scan_hidden,
            ));
            j += 1;
        }
        proof {
            let longer = walks.push(steps);
            assert(longer.drop_last() =~= walks);
            assert(steps.take(j as int) =~= steps);
            walks = longer;
        }
        i += 1;
    }
    assert(may_be_walks(walk, views, walks));
    sort_and_dedup(paths)
}

/// What was found settles to one list only.
pub proof fn settled_list_is_unique(a: Seq<Seq<u8>>, b: Seq<Seq<u8>>, found: Seq<Seq<u8>>)
    requires
        is_settled(a, found),
        is_settled(b, found),
    ensures
        a == b,
{
    path::path_order_is_strict();
    if a.len() > b.len() {
        lemma_same_entry(a, b, found, b.len() as int);
    }
    if b.len() > a.len() {
        lemma_same_entry(b, a, found, a.len() as int);
    }
    assert forall|n: int| 0 <= n < a.len() implies a[n] == b[n] by {
        lemma_same_entry(a, b, found, n);
    }
    assert(a =~= b);
}

/// Two paths of settled lists that are the same path are the same bytes.
proof fn lemma_same_bytes(a: Seq<Seq<u8>>, b: Seq<Seq<u8>>, found: Seq<Seq<u8>>, n: int, m: int)
    requires
        is_settled(a, found),
        is_settled(b, found),
        0 <= n < a.len(),
        0 <= m < b.len(),
        path::same_path(a[n], b[m]),
    ensures
        a[n] == b[m],
{
    assert(was_found(found, a[n]));
    assert(was_found(found, b[m]));
    let k = choose|k: int|
        0 <= k < found.len() && #[trigger] found[k] == a[n] && first_of_its_kind(found, k);
    let j = choose|j: int|
        0 <= j < found.len() && #[trigger] found[j] == b[m] && first_of_its_kind(found, j);
    if k < j {
        assert(!path::same_path(found[k], found[j]));
    }
    if j < k {
        assert(!path::same_path(found[j], found[k]));
    }
}

proof fn lemma_same_entry(a: Seq<Seq<u8>>, b: Seq<Seq<u8>>, found: Seq<Seq<u8>>, n: int)
    requires
        is_settled(a, found),
        is_settled(b, found),
        0 <= n < a.len(),
    ensures
        n < b.len(),
        a[n] == b[n],
    decreases n,
{
    path::path_order_is_strict();
    assert forall|m: int| 0 <= m < n implies m < b.len() && a[m] == b[m] by {
        lemma_same_entry(a, b, found, m);
    }
    assert(was_found(found, a[n]));
    let k = choose|k: int|
        0 <= k < found.len() && #[trigger] found[k] == a[n] && first_of_its_kind(found, k);
    assert(is_listed(b, found[k]));
    let p = choose|p: int| 0 <= p < b.len() && path::same_path(#[trigger] b[p], found[k]);
    if p < n {
        assert(path::path_less(a[p], a[n]));
        assert(path::same_path(a[p], a[n]));
    }
    assert(n < b.len());
    assert(was_found(found, b[n]));
    let j = choose|j: int|
        0 <= j < found.len() && #[trigger] found[j] == b[n] && first_of_its_kind(found, j);
    assert(is_listed(a, found[j]));
    let q = choose|q: int| 0 <= q < a.len() && path::same_path(#[trigger] a[q], found[j]);
    if q < n {
        assert(path::path_less(b[q], b[n]));
        assert(path::same_path(b[q], b[n]));
    }
    if !path::same_path(a[n], b[n]) {
        lemma_same_bytes(a, b, found, n, p);
        lemma_same_bytes(a, b, found, q, n);
        assert(path::path_less(b[n], b[p]));
        assert(path::path_less(a[n], a[q]));
        assert(path::path_less(a[n], a[n]));
    }
    lemma_same_bytes(a, b, found, n, n);
}

/// Asking for hidden folders too never leaves more out.
pub proof fn scanning_hidden_ignores_less(path: Seq<u8>)
    ensures
        ignored(path, true) ==> ignored(path, false),
        !hidden(path) ==> ignored(path, false) == ignored(path, true),
{
}

/// Everything below a hidden folder is left out, unless hidden folders are asked
/// for.
pub proof fn below_hidden_is_ignored(dir: Seq<u8>, rest: Seq<u8>)
    requires
        dir.len() > 0,
        hidden(dir),
    ensures
        ignored(dir.push(path::SLASH) + rest, false),
{
    path::below_keeps_components(dir, rest);
    let whole = path::components(dir.push(path::SLASH) + rest);
    let i = choose|i: int|
        0 <= i < path::components(dir).len() && path::dotted(
            #[trigger] path::components(dir)[i],
        );
    assert(whole[i] == path::components(dir)[i]);
}

/// Nothing below a folder that is left out is kept: not below a hidden one, nor
/// below one that tools fill, nor where the start of the walk is such a folder.
pub proof fn nothing_below_ignored_is_kept(
    root: Seq<u8>,
    dir: Seq<u8>,
    rest: Seq<u8>,
    is_dir: bool,
    depth: int,
    scan_hidden: bool,
)
    requires
        dir.len() > 0,
        path::components(root).len() <= path::components(dir).len(),
        ignored(dir, scan_hidden),
    ensures
        !keeps(root, (dir.push(path::SLASH) + rest, is_dir, depth), scan_hidden),
{
    path::below_keeps_components(dir, rest);
    let whole = path::components(dir.push(path::SLASH) + rest);
    let n = path::components(dir).len() as int;
    assert(whole.take(n) =~= path::components(dir));
    assert(left_out(whole.take(n), scan_hidden));
}

/// Whether `path` is a folder that one of the walks came to and that a scan keeps.
pub open spec fn kept_on_walks(
    roots: Seq<Seq<u8>>,
    walks: Seq<Seq<(Seq<u8>, bool, int)>>,
    scan_hidden: bool,
    path: Seq<u8>,
) -> bool {
    exists|i: int, k: int|
        {
            &&& 0 <= i < walks.len()
            &&& 0 <= k < walks[i].len()
            &&& (#[trigger] walks[i][k]).0 == path
            &&& keeps(roots[i], walks[i][k], scan_hidden)
        }
}

proof fn lemma_found_on_walk(
    root: Seq<u8>,
    entries: Seq<(Seq<u8>, bool, int)>,
    scan_hidden: bool,
    path: Seq<u8>,
)
    ensures
        found_on_walk(root, entries, scan_hidden).contains(path) <==> exists|k: int|
            {
                &&& 0 <= k < entries.len()
                &&& (#[trigger] entries[k]).0 == path
                &&& keeps(root, entries[k], scan_hidden)
            },
    decreases entries.len(),
{
    if entries.len() > 0 {
        let shorter = entries.drop_last();
        lemma_found_on_walk(root, shorter, scan_hidden, path);
        let before = found_on_walk(root, shorter, scan_hidden);
        let all = found_on_walk(root, entries, scan_hidden);
        let last = entries.len() - 1;
        if all.contains(path) {
            let i = choose|i: int| 0 <= i < all.len() && all[i] == path;
            if i < before.len() {
                assert(before[i] == path);
                let k = choose|k: int|
                    {
                        &&& 0 <= k < shorter.len()
                        &&& (#[trigger] shorter[k]).0 == path
                        &&& keeps(root, shorter[k], scan_hidden)
                    };
                assert(entries[k] == shorter[k]);
            } else {
                assert(entries[last].0 == path);
            }
        }
        if exists|k: int|
            {
                &&& 0 <= k < entries.len()
                &&& (#[trigger] entries[k]).0 == path
                &&& keeps(root, entries[k], scan_hidden)
            } {
            let k = choose|k: int|
                {
                    &&& 0 <= k < entries.len()
                    &&& (#[trigger] entries[k]).0 == path
                    &&& keeps(root, entries[k], scan_hidden)
                };
            if k < last {
                assert(shorter[k] == entries[k]);
                assert(before.contains(path));
                let i = choose|i: int| 0 <= i < before.len() && before[i] == path;
                assert(all[i] == path);
            } else {
                assert(all[all.len() - 1] == path);
            }
        }
    }
}

proof fn lemma_found_on_walks(
    roots: Seq<Seq<u8>>,
    walks: Seq<Seq<(Seq<u8>, bool, int)>>,
    scan_hidden: bool,
    path: Seq<u8>,
)
    ensures
        found_on_walks(roots, walks, scan_hidden).contains(path) <==> kept_on_walks(
            roots,
            walks,
            scan_hidden,
            path,
        ),
    decreases walks.len(),
{
    if walks.len() > 0 {
        let shorter = walks.drop_last();
        let last = walks.len() - 1;
        lemma_found_on_walks(roots, shorter, scan_hidden, path);
        lemma_found_on_walk(roots[last], walks[last], scan_hidden, path);
        let before = found_on_walks(roots, shorter, scan_hidden);
        let added = found_on_walk(roots[last], walks[last], scan_hidden);
        let all = found_on_walks(roots, walks, scan_hidden);
        assert(all == before + added);
        if all.contains(path) {
            let n = choose|n: int| 0 <= n < all.len() && all[n] == path;
            if n < before.len() {
                assert(before[n] == path);
                let (i, k) = choose|i: int, k: int|
                    {
                        &&& 0 <= i < shorter.len()
                        &&& 0 <= k < shorter[i].len()
                        &&& (#[trigger] shorter[i][k]).0 == path
                        &&& keeps(roots[i], shorter[i][k], scan_hidden)
                    };
                assert(walks[i][k] == shorter[i][k]);
            } else {
                assert(added[n - before.len()] == path);
                let k = choose|k: int|
                    {
                        &&& 0 <= k < walks[last].len()
                        &&& (#[trigger] walks[last][k]).0 == path
                        &&& keeps(roots[last], walks[last][k], scan_hidden)
                    };
                assert(walks[last][k].0 == path);
            }
        }
        if kept_on_walks(roots, walks, scan_hidden, path) {
            let (i, k) = choose|i: int, k: int|
                {
                    &&& 0 <= i < walks.len()
                    &&& 0 <= k < walks[i].len()
                    &&& (#[trigger] walks[i][k]).0 == path
                    &&& keeps(roots[i], walks[i][k], scan_hidden)
                };
            if i < last {
                assert(shorter[i][k] == walks[i][k]);
                assert(before.contains(path));
                let n = choose|n: int| 0 <= n < before.len() && before[n] == path;
                assert(all[n] == path);
            } else {
                assert(added.contains(path));
                let n = choose|n: int| 0 <= n < added.len() && added[n] == path;
                assert(all[before.len() + n] == path);
            }
        }
    }
}

/// A scan of whole trees lists exactly the folders its walks came to that are below
/// where they started, with no folder that is left out on the way.
pub proof fn scan_lists_what_it_keeps(
    roots: Seq<Seq<u8>>,
    walks: Seq<Seq<(Seq<u8>, bool, int)>>,
    scan_hidden: bool,
    list: Seq<Seq<u8>>,
)
    requires
        is_settled(list, found_on_walks(roots, walks, scan_hidden)),
    ensures
        forall|i: int|
            0 <= i < list.len() ==> kept_on_walks(roots, walks, scan_hidden, #[trigger] list[i]),
        forall|path: Seq<u8>| #[trigger]
            kept_on_walks(roots, walks, scan_hidden, path) ==> is_listed(list, path),
{
    let found = found_on_walks(roots, walks, scan_hidden);
    assert forall|i: int| 0 <= i < list.len() implies kept_on_walks(
        roots,
        walks,
        scan_hidden,
        #[trigger] list[i],
    ) by {
        assert(was_found(found, list[i]));
        let j = choose|j: int|
            0 <= j < found.len() && #[trigger] found[j] == list[i] && first_of_its_kind(found, j);
        assert(found.contains(list[i]));
        lemma_found_on_walks(roots, walks, scan_hidden, list[i]);
    }
    assert forall|path: Seq<u8>| #[trigger]
        kept_on_walks(roots, walks, scan_hidden, path) implies is_listed(list, path) by {
        lemma_found_on_walks(roots, walks, scan_hidden, path);
        let j = choose|j: int| 0 <= j < found.len() && found[j] == path;
        assert(is_listed(list, found[j]));
    }
}

/// Scanning the trees below two lists of roots together lists what scanning them one
/// after the other lists.
pub proof fn scans_of_roots_join(
    roots: Seq<Seq<u8>>,
    walks: Seq<Seq<(Seq<u8>, bool, int)>>,
    more_roots: Seq<Seq<u8>>,
    more_walks: Seq<Seq<(Seq<u8>, bool, int)>>,
    scan_hidden: bool,
    list: Seq<Seq<u8>>,
    more_list: Seq<Seq<u8>>,
    joint_list: Seq<Seq<u8>>,
)
    requires
        walks.len() == roots.len(),
        more_walks.len() == more_roots.len(),
        is_settled(list, found_on_walks(roots, walks, scan_hidden)),
        is_settled(more_list, found_on_walks(more_roots, more_walks, scan_hidden)),
        is_settled(
            joint_list,
            found_on_walks(roots + more_roots, walks + more_walks, scan_hidden),
        ),
    ensures
        forall|path: Seq<u8>| #[trigger]
            is_listed(joint_list, path) <==> is_listed(list, path) || is_listed(more_list, path),
{
    let joint_roots = roots + more_roots;
    let joint_walks = walks + more_walks;
    scan_lists_what_it_keeps(roots, walks, scan_hidden, list);
    scan_lists_what_it_keeps(more_roots, more_walks, scan_hidden, more_list);
    scan_lists_what_it_keeps(joint_roots, joint_walks, scan_hidden, joint_list);
    assert forall|path: Seq<u8>|
        kept_on_walks(roots, walks, scan_hidden, path) implies #[trigger] kept_on_walks(
        joint_roots,
        joint_walks,
        scan_hidden,
        path,
    ) by {
        let (i, k) = choose|i: int, k: int|
            {
                &&& 0 <= i < walks.len()
                &&& 0 <= k < walks[i].len()
                &&& (#[trigger] walks[i][k]).0 == path
                &&& keeps(roots[i], walks[i][k], scan_hidden)
            };
        assert(joint_walks[i][k] == walks[i][k]);
    }
    assert forall|path: Seq<u8>|
        kept_on_walks(more_roots, more_walks, scan_hidden, path) implies #[trigger] kept_on_walks(
        joint_roots,
        joint_walks,
        scan_hidden,
        path,
    ) by {
        let (i, k) = choose|i: int, k: int|
            {
                &&& 0 <= i < more_walks.len()
                &&& 0 <= k < more_walks[i].len()
                &&& (#[trigger] more_walks[i][k]).0 == path
                &&& keeps(more_roots[i], more_walks[i][k], scan_hidden)
            };
        assert(joint_walks[walks.len() + i][k] == more_walks[i][k]);
    }
    assert forall|path: Seq<u8>| #[trigger]
        kept_on_walks(joint_roots, joint_walks, scan_hidden, path) implies kept_on_walks(
        roots,
        walks,
        scan_hidden,
        path,
    ) || kept_on_walks(more_roots, more_walks, scan_hidden, path) by {
        let (i, k) = choose|i: int, k: int|
            {
                &&& 0 <= i < joint_walks.len()
                &&& 0 <= k < joint_walks[i].len()
                &&& (#[trigger] joint_walks[i][k]).0 == path
                &&& keeps(joint_roots[i], joint_walks[i][k], scan_hidden)
            };
        if i < walks.len() {
            assert(walks[i][k] == joint_walks[i][k]);
        } else {
            assert(more_walks[i - walks.len()][k] == joint_walks[i][k]);
        }
    }
    assert forall|path: Seq<u8>| #[trigger] is_listed(joint_list, path) implies is_listed(
        list,
        path,
    ) || is_listed(more_list, path) by {
        let n = choose|n: int|
            0 <= n < joint_list.len() && path::same_path(#[trigger] joint_list[n], path);
        let found = joint_list[n];
        assert(kept_on_walks(joint_roots, joint_walks, scan_hidden, found));
        assert(is_listed(list, found) || is_listed(more_list, found));
    }
    assert forall|path: Seq<u8>|
        is_listed(list, path) || is_listed(more_list, path) implies #[trigger] is_listed(
        joint_list,
        path,
    ) by {
        if is_listed(list, path) {
            let n = choose|n: int|
                0 <= n < list.len() && path::same_path(#[trigger] list[n], path);
            assert(kept_on_walks(roots, walks, scan_hidden, list[n]));
            assert(kept_on_walks(joint_roots, joint_walks, scan_hidden, list[n]));
            assert(is_listed(joint_list, list[n]));
        } else {
            let n = choose|n: int|
                0 <= n < more_list.len() && path::same_path(#[trigger] more_list[n], path);
            assert(kept_on_walks(more_roots, more_walks, scan_hidden, more_list[n]));
            assert(kept_on_walks(joint_roots, joint_walks, scan_hidden, more_list[n]));
            assert(is_listed(joint_list, more_list[n]));
        }
    }
}

proof fn lemma_children_are_not_ignored(
    entries: Seq<(Seq<u8>, Option<bool>)>,
    scan_hidden: bool,
)
    ensures
        forall|i: int|
            0 <= i < children(entries, scan_hidden).len() ==> !ignored(
                #[trigger] children(entries, scan_hidden)[i],
                scan_hidden,
            ),
    decreases entries.len(),
{
    if entries.len() > 0 {
        lemma_children_are_not_ignored(entries.drop_last(), scan_hidden);
        let before = children(entries.drop_last(), scan_hidden);
        let all = children(entries, scan_hidden);
        assert forall|i: int| 0 <= i < all.len() implies !ignored(
            #[trigger] all[i],
            scan_hidden,
        ) by {
            if i < before.len() {
                assert(all[i] == before[i]);
            }
        }
    }
}

proof fn lemma_found_in_is_not_ignored<R: Fn(&ProjectPath) -> Vec<DirEntry>>(
    read_dir: R,
    dirs: Seq<Seq<u8>>,
    scan_hidden: bool,
    found: Seq<Seq<u8>>,
)
    requires
        may_find_in(read_dir, dirs, scan_hidden, found),
    ensures
        forall|i: int| 0 <= i < found.len() ==> !ignored(#[trigger] found[i], scan_hidden),
    decreases dirs.len(),
{
    if dirs.len() > 0 {
        let (before, entries) = choose|
            before: Seq<Seq<u8>>,
            entries: Seq<(Seq<u8>, Option<bool>)>,
        |
            {
                &&& may_find_in(read_dir, dirs.drop_last(), scan_hidden, before)
                &&& #[trigger] may_list(read_dir, dirs.last(), entries)
                &&& found == #[trigger] (before + children(entries, scan_hidden))
            };
        lemma_found_in_is_not_ignored(read_dir, dirs.drop_last(), scan_hidden, before);
        lemma_children_are_not_ignored(entries, scan_hidden);
        assert forall|i: int| 0 <= i < found.len() implies !ignored(
            #[trigger] found[i],
            scan_hidden,
        ) by {
            if i < before.len() {
                assert(found[i] == before[i]);
            } else {
                assert(found[i] == children(entries, scan_hidden)[i - before.len()]);
            }
        }
    }
}

/// A scan at a fixed depth finds no folder that is left out of scans, and nothing
/// at all at a depth other than one and two.
pub proof fn exact_depth_finds_no_ignored_folder<R: Fn(&ProjectPath) -> Vec<DirEntry>>(
    read_dir: R,
    roots: Seq<Seq<u8>>,
    scan_hidden: bool,
    depth: usize,
    found: Seq<Seq<u8>>,
)
    requires
        may_find(read_dir, roots, scan_hidden, depth, found),
    ensures
        forall|i: int| 0 <= i < found.len() ==> !ignored(#[trigger] found[i], scan_hidden),
        depth != 1 && depth != 2 ==> found.len() == 0,
    decreases roots.len(),
{
    if roots.len() > 0 {
        let (before, below) = choose|before: Seq<Seq<u8>>, below: Seq<Seq<u8>>|
            {
                &&& may_find(read_dir, roots.drop_last(), scan_hidden, depth, before)
                &&& #[trigger] may_find_below(read_dir, roots.last(), scan_hidden, depth, below)
                &&& found == #[trigger] (before + below)
            };
        exact_depth_finds_no_ignored_folder(
            read_dir,
            roots.drop_last(),
            scan_hidden,
            depth,
            before,
        );
        let entries = choose|entries: Seq<(Seq<u8>, Option<bool>)>|
            {
                &&& #[trigger] may_list(read_dir, roots.last(), entries)
                &&& if depth == 1 {
                    below == children(entries, scan_hidden)
                } else if depth == 2 {
                    may_find_in(read_dir, children(entries, scan_hidden), scan_hidden, below)
                } else {
                    below == Seq::<Seq<u8>>::empty()
                }
            };
        lemma_children_are_not_ignored(entries, scan_hidden);
        if depth == 2 {
            lemma_found_in_is_not_ignored(
                read_dir,
                children(entries, scan_hidden),
                scan_hidden,
                below,
            );
        }
        assert forall|i: int| 0 <= i < found.len() implies !ignored(
            #[trigger] found[i],
            scan_hidden,
        ) by {
            if i < before.len() {
                assert(found[i] == before[i]);
            } else {
                assert(found[i] == below[i - before.len()]);
            }
        }
    }
}

/// Whether `path` lies directly in the folder `dir`.
pub open spec fn lies_in(path: Seq<u8>, dir: Seq<u8>) -> bool {
    let parts = path::components(path);
    parts.len() > 0 && parts.drop_last() == path::components(dir)
}

/// Whether a walk came to the folder `path` below where it started.
pub open spec fn came_to(walk: Seq<(Seq<u8>, bool, int)>, path: Seq<u8>) -> bool {
    exists|k: int|
        {
            &&& 0 <= k < walk.len()
            &&& path::same_path((#[trigger] walk[k]).0, path)
            &&& walk[k].1
            &&& walk[k].2 != 0
        }
}

/// Whether reading folders by `read_dir` shows no folder that a walk below `root`
/// passed by: wherever the way is open, each folder that is read in the root, or in
/// one that the walk came to, lies in it, and the walk came to it unless it is left
/// out.
pub open spec fn shows_what_was_walked<R: Fn(&ProjectPath) -> Vec<DirEntry>>(
    read_dir: R,
    root: Seq<u8>,
    walk: Seq<(Seq<u8>, bool, int)>,
    scan_hidden: bool,
) -> bool {
    forall|dir: Seq<u8>, entries: Seq<(Seq<u8>, Option<bool>)>, j: int|
        {
            &&& #[trigger] may_list(read_dir, dir, entries)
            &&& dir == root || came_to(walk, dir)
            &&& open_way(root, dir, scan_hidden)
            &&& 0 <= j < entries.len()
            &&& (#[trigger] entries[j]).1 == Some(true)
            &&& !ignored(entries[j].0, scan_hidden)
        } ==> lies_in(entries[j].0, dir) && came_to(walk, entries[j].0)
}

/// Whether a walk below `root` came to the folder `path` on an open way.
spec fn walked_to(
    root: Seq<u8>,
    walk: Seq<(Seq<u8>, bool, int)>,
    scan_hidden: bool,
    path: Seq<u8>,
) -> bool {
    &&& came_to(walk, path)
    &&& open_way(root, path, scan_hidden)
    &&& path::components(root).len() <= path::components(path).len()
}

spec fn is_child(
    entries: Seq<(Seq<u8>, Option<bool>)>,
    scan_hidden: bool,
    path: Seq<u8>,
) -> bool {
    exists|j: int|
        {
            &&& 0 <= j < entries.len()
            &&& (#[trigger] entries[j]).0 == path
            &&& entries[j].1 == Some(true)
            &&& !ignored(path, scan_hidden)
        }
}

proof fn lemma_children_are_entries(
    entries: Seq<(Seq<u8>, Option<bool>)>,
    scan_hidden: bool,
)
    ensures
        forall|i: int|
            0 <= i < children(entries, scan_hidden).len() ==> is_child(
                entries,
                scan_hidden,
                #[trigger] children(entries, scan_hidden)[i],
            ),
    decreases entries.len(),
{
    if entries.len() > 0 {
        let shorter = entries.drop_last();
        lemma_children_are_entries(shorter, scan_hidden);
        let before = children(shorter, scan_hidden);
        let all = children(entries, scan_hidden);
        assert forall|i: int| 0 <= i < all.len() implies is_child(
            entries,
            scan_hidden,
            #[trigger] all[i],
        ) by {
            if i < before.len() {
                assert(all[i] == before[i]);
                let j = choose|j: int|
                    {
                        &&& 0 <= j < shorter.len()
                        &&& (#[trigger] shorter[j]).0 == before[i]
                        &&& shorter[j].1 == Some(true)
                        &&& !ignored(before[i], scan_hidden)
                    };
                assert(entries[j] == shorter[j]);
            } else {
                assert(entries[entries.len() - 1].0 == all[i]);
            }
        }
    }
}

proof fn lemma_children_are_walked_to<R: Fn(&ProjectPath) -> Vec<DirEntry>>(
    read_dir: R,
    root: Seq<u8>,
    walk: Seq<(Seq<u8>, bool, int)>,
    scan_hidden: bool,
    dir: Seq<u8>,
    entries: Seq<(Seq<u8>, Option<bool>)>,
)
    requires
        shows_what_was_walked(read_dir, root, walk, scan_hidden),
        may_list(read_dir, dir, entries),
        dir == root || came_to(walk, dir),
        open_way(root, dir, scan_hidden),
        path::components(root).len() <= path::components(dir).len(),
    ensures
        forall|i: int|
            0 <= i < children(entries, scan_hidden).len() ==> walked_to(
                root,
                walk,
                scan_hidden,
                #[trigger] children(entries, scan_hidden)[i],
            ),
{
    let all = children(entries, scan_hidden);
    lemma_children_are_entries(entries, scan_hidden);
    assert forall|i: int| 0 <= i < all.len() implies walked_to(
        root,
        walk,
        scan_hidden,
        #[trigger] all[i],
    ) by {
        assert(is_child(entries, scan_hidden, all[i]));
        let j = choose|j: int|
            {
                &&& 0 <= j < entries.len()
                &&& (#[trigger] entries[j]).0 == all[i]
                &&& entries[j].1 == Some(true)
                &&& !ignored(all[i], scan_hidden)
            };
        let path = entries[j].0;
        assert(lies_in(path, dir) && came_to(walk, path));
        let parts = path::components(path);
        let above = path::components(dir);
        assert forall|n: int| path::components(root).len() <= n <= parts.len() implies !left_out(
            #[trigger] parts.take(n),
            scan_hidden,
        ) by {
            if n == parts.len() {
                assert(parts.take(n) =~= parts);
            } else {
                assert(parts.take(n) =~= above.take(n));
                assert(!left_out(above.take(n), scan_hidden));
            }
        }
    }
}

proof fn lemma_found_in_is_walked_to<R: Fn(&ProjectPath) -> Vec<DirEntry>>(
    read_dir: R,
    root: Seq<u8>,
    walk: Seq<(Seq<u8>, bool, int)>,
    scan_hidden: bool,
    dirs: Seq<Seq<u8>>,
    found: Seq<Seq<u8>>,
)
    requires
        shows_what_was_walked(read_dir, root, walk, scan_hidden),
        may_find_in(read_dir, dirs, scan_hidden, found),
        forall|i: int|
            0 <= i < dirs.len() ==> walked_to(root, walk, scan_hidden, #[trigger] dirs[i]),
    ensures
        forall|i: int|
            0 <= i < found.len() ==> walked_to(root, walk, scan_hidden, #[trigger] found[i]),
    decreases dirs.len(),
{
    if dirs.len() > 0 {
        let shorter = dirs.drop_last();
        let (before, entries) = choose|
            before: Seq<Seq<u8>>,
            entries: Seq<(Seq<u8>, Option<bool>)>,
        |
            {
                &&& may_find_in(read_dir, shorter, scan_hidden, before)
                &&& #[trigger] may_list(read_dir, dirs.last(), entries)
                &&& found == #[trigger] (before + children(entries, scan_hidden))
            };
        assert forall|i: int| 0 <= i < shorter.len() implies walked_to(
            root,
            walk,
            scan_hidden,
            #[trigger] shorter[i],
        ) by {
            assert(shorter[i] == dirs[i]);
        }
        lemma_found_in_is_walked_to(read_dir, root, walk, scan_hidden, shorter, before);
        assert(walked_to(root, walk, scan_hidden, dirs[dirs.len() - 1]));
        lemma_children_are_walked_to(read_dir, root, walk, scan_hidden, dirs.last(), entries);
        assert forall|i: int| 0 <= i < found.len() implies walked_to(
            root,
            walk,
            scan_hidden,
            #[trigger] found[i],
        ) by {
            if i < before.len() {
                assert(found[i] == before[i]);
            } else {
                assert(found[i] == children(entries, scan_hidden)[i - before.len()]);
            }
        }
    }
}

proof fn lemma_found_below_is_walked_to<R: Fn(&ProjectPath) -> Vec<DirEntry>>(
    read_dir: R,
    root: Seq<u8>,
    walk: Seq<(Seq<u8>, bool, int)>,
    scan_hidden: bool,
    depth: usize,
    found: Seq<Seq<u8>>,
)
    requires
        shows_what_was_walked(read_dir, root, walk, scan_hidden),
        may_find_below(read_dir, root, scan_hidden, depth, found),
        !ignored(root, scan_hidden),
    ensures
        forall|i: int|
            0 <= i < found.len() ==> walked_to(root, walk, scan_hidden, #[trigger] found[i]),
{
    let entries = choose|entries: Seq<(Seq<u8>, Option<bool>)>|
        {
            &&& #[trigger] may_list(read_dir, root, entries)
            &&& if depth == 1 {
                found == children(entries, scan_hidden)
            } else if depth == 2 {
                may_find_in(read_dir, children(entries, scan_hidden), scan_hidden, found)
            } else {
                found == Seq::<Seq<u8>>::empty()
            }
        };
    let parts = path::components(root);
    assert(parts.take(parts.len() as int) =~= parts);
    assert(open_way(root, root, scan_hidden));
    lemma_children_are_walked_to(read_dir, root, walk, scan_hidden, root, entries);
    if depth == 2 {
        lemma_found_in_is_walked_to(
            read_dir,
            root,
            walk,
            scan_hidden,
            children(entries, scan_hidden),
            found,
        );
    }
}

proof fn lemma_found_is_walked_to<R: Fn(&ProjectPath) -> Vec<DirEntry>>(
    read_dir: R,
    roots: Seq<Seq<u8>>,
    walks: Seq<Seq<(Seq<u8>, bool, int)>>,
    scan_hidden: bool,
    depth: usize,
    found: Seq<Seq<u8>>,
    path: Seq<u8>,
) -> (i: int)
    requires
        walks.len() == roots.len(),
        forall|i: int|
            0 <= i < roots.len() ==> shows_what_was_walked(
                read_dir,
                #[trigger] roots[i],
                walks[i],
                scan_hidden,
            ) && !ignored(roots[i], scan_hidden),
        may_find(read_dir, roots, scan_hidden, depth, found),
        found.contains(path),
    ensures
        0 <= i < roots.len(),
        walked_to(roots[i], walks[i], scan_hidden, path),
    decreases roots.len(),
{
    let (before, below) = choose|before: Seq<Seq<u8>>, below: Seq<Seq<u8>>|
        {
            &&& may_find(read_dir, roots.drop_last(), scan_hidden, depth, before)
            &&& #[trigger] may_find_below(read_dir, roots.last(), scan_hidden, depth, below)
            &&& found == #[trigger] (before + below)
        };
    let last = roots.len() - 1;
    let n = choose|n: int| 0 <= n < found.len() && found[n] == path;
    if n < before.len() {
        let (fewer, shorter) = (roots.drop_last(), walks.drop_last());
        assert(before[n] == path);
        assert forall|i: int| 0 <= i < fewer.len() implies shows_what_was_walked(
            read_dir,
            #[trigger] fewer[i],
            shorter[i],
            scan_hidden,
        ) && !ignored(fewer[i], scan_hidden) by {
            assert(fewer[i] == roots[i]);
        }
        lemma_found_is_walked_to(read_dir, fewer, shorter, scan_hidden, depth, before, path)
    } else {
        assert(below[n - before.len()] == path);
        assert(roots[last] == roots.last());
        lemma_found_below_is_walked_to(
            read_dir,
            roots[last],
            walks[last],
            scan_hidden,
            depth,
            below,
        );
        last
    }
}

/// Fixing the depth only narrows a scan: where reading folders shows nothing that
/// the walks passed by, and no root is left out, every folder that a scan at a fixed
/// depth lists is listed by the scan of the whole trees.
pub proof fn fixed_depth_only_narrows<R: Fn(&ProjectPath) -> Vec<DirEntry>>(
    read_dir: R,
    roots: Seq<Seq<u8>>,
    walks: Seq<Seq<(Seq<u8>, bool, int)>>,
    scan_hidden: bool,
    depth: usize,
    found: Seq<Seq<u8>>,
    narrow: Seq<Seq<u8>>,
    whole: Seq<Seq<u8>>,
)
    requires
        walks.len() == roots.len(),
        forall|i: int|
            0 <= i < roots.len() ==> shows_what_was_walked(
                read_dir,
                #[trigger] roots[i],
                walks[i],
                scan_hidden,
            ) && !ignored(roots[i], scan_hidden),
        may_find(read_dir, roots, scan_hidden, depth, found),
        is_settled(narrow, found),
        is_settled(whole, found_on_walks(roots, walks, scan_hidden)),
    ensures
        forall|n: int| 0 <= n < narrow.len() ==> is_listed(whole, #[trigger] narrow[n]),
{
    scan_lists_what_it_keeps(roots, walks, scan_hidden, whole);
    assert forall|n: int| 0 <= n < narrow.len() implies is_listed(
        whole,
        #[trigger] narrow[n],
    ) by {
        let path = narrow[n];
        assert(was_found(found, path));
        let k = choose|k: int|
            0 <= k < found.len() && #[trigger] found[k] == path && first_of_its_kind(found, k);
        assert(found.contains(path));
        let i = lemma_found_is_walked_to(
            read_dir,
            roots,
            walks,
            scan_hidden,
            depth,
            found,
            path,
        );
        let m = choose|m: int|
            {
                &&& 0 <= m < walks[i].len()
                &&& path::same_path((#[trigger] walks[i][m]).0, path)
                &&& walks[i][m].1
                &&& walks[i][m].2 != 0
            };
        let kept = walks[i][m].0;
        assert(keeps(roots[i], walks[i][m], scan_hidden));
        assert(kept_on_walks(roots, walks, scan_hidden, kept));
        assert(is_listed(whole, kept));
        let p = choose|p: int| 0 <= p < whole.len() && path::same_path(#[trigger] whole[p], kept);
        assert(path::same_path(whole[p], path));
    }
}

/// Whether reading a folder by `read_dir` gives the same each time: the tree does not
/// change.
pub open spec fn tree_is_unchanged<R: Fn(&ProjectPath) -> Vec<DirEntry>>(read_dir: R) -> bool {
    forall|
        dir: Seq<u8>,
        first: Seq<(Seq<u8>, Option<bool>)>,
        second: Seq<(Seq<u8>, Option<bool>)>,
    |
        #[trigger] may_list(read_dir, dir, first) && #[trigger] may_list(read_dir, dir, second)
            ==> first == second
}

proof fn lemma_found_in_is_unique<R: Fn(&ProjectPath) -> Vec<DirEntry>>(
    read_dir: R,
    dirs: Seq<Seq<u8>>,
    scan_hidden: bool,
    a: Seq<Seq<u8>>,
    b: Seq<Seq<u8>>,
)
    requires
        tree_is_unchanged(read_dir),
        may_find_in(read_dir, dirs, scan_hidden, a),
        may_find_in(read_dir, dirs, scan_hidden, b),
    ensures
        a == b,
    decreases dirs.len(),
{
    if dirs.len() > 0 {
        let (a_before, a_entries) = choose|
            before: Seq<Seq<u8>>,
            entries: Seq<(Seq<u8>, Option<bool>)>,
        |
            {
                &&& may_find_in(read_dir, dirs.drop_last(), scan_hidden, before)
                &&& #[trigger] may_list(read_dir, dirs.last(), entries)
                &&& a == #[trigger] (before + children(entries, scan_hidden))
            };
        let (b_before, b_entries) = choose|
            before: Seq<Seq<u8>>,
            entries: Seq<(Seq<u8>, Option<bool>)>,
        |
            {
                &&& may_find_in(read_dir, dirs.drop_last(), scan_hidden, before)
                &&& #[trigger] may_list(read_dir, dirs.last(), entries)
                &&& b == #[trigger] (before + children(entries, scan_hidden))
            };
        lemma_found_in_is_unique(read_dir, dirs.drop_last(), scan_hidden, a_before, b_before);
        assert(a_entries == b_entries);
    }
}

proof fn lemma_found_is_unique<R: Fn(&ProjectPath) -> Vec<DirEntry>>(
    read_dir: R,
    roots: Seq<Seq<u8>>,
    scan_hidden: bool,
    depth: usize,
    a: Seq<Seq<u8>>,
    b: Seq<Seq<u8>>,
)
    requires
        tree_is_unchanged(read_dir),
        may_find(read_dir, roots, scan_hidden, depth, a),
        may_find(read_dir, roots, scan_hidden, depth, b),
    ensures
        a == b,
    decreases roots.len(),
{
    if roots.len() > 0 {
        let root = roots.last();
        let (a_before, a_below) = choose|before: Seq<Seq<u8>>, below: Seq<Seq<u8>>|
            {
                &&& may_find(read_dir, roots.drop_last(), scan_hidden, depth, before)
                &&& #[trigger] may_find_below(read_dir, roots.last(), scan_hidden, depth, below)
                &&& a == #[trigger] (before + below)
            };
        let (b_before, b_below) = choose|before: Seq<Seq<u8>>, below: Seq<Seq<u8>>|
            {
                &&& may_find(read_dir, roots.drop_last(), scan_hidden, depth, before)
                &&& #[trigger] may_find_below(read_dir, roots.last(), scan_hidden, depth, below)
                &&& b == #[trigger] (before + below)
            };
        lemma_found_is_unique(
            read_dir,
            roots.drop_last(),
            scan_hidden,
            depth,
            a_before,
            b_before,
        );
        assert(may_find_below(read_dir, root, scan_hidden, depth, a_below));
        assert(may_find_below(read_dir, root, scan_hidden, depth, b_below));
        if depth == 2 {
            let entries = choose|entries: Seq<(Seq<u8>, Option<bool>)>|
                {
                    &&& #[trigger] may_list(read_dir, root, entries)
                    &&& may_find_in(
                        read_dir,
                        children(entries, scan_hidden),
                        scan_hidden,
                        a_below,
                    )
                };
            lemma_found_in_is_unique(
                read_dir,
                children(entries, scan_hidden),
                scan_hidden,
                a_below,
                b_below,
            );
        }
        assert(a_below == b_below);
    }
}

proof fn lemma_found_below_two_lists<R: Fn(&ProjectPath) -> Vec<DirEntry>>(
    read_dir: R,
    roots: Seq<Seq<u8>>,
    more_roots: Seq<Seq<u8>>,
    scan_hidden: bool,
    depth: usize,
    joint: Seq<Seq<u8>>,
) -> (r: (Seq<Seq<u8>>, Seq<Seq<u8>>))
    requires
        may_find(read_dir, roots + more_roots, scan_hidden, depth, joint),
    ensures
        may_find(read_dir, roots, scan_hidden, depth, r.0),
        may_find(read_dir, more_roots, scan_hidden, depth, r.1),
        joint == r.0 + r.1,
    decreases more_roots.len(),
{
    let all = roots + more_roots;
    if more_roots.len() == 0 {
        assert(all =~= roots);
        let none = Seq::<Seq<u8>>::empty();
        assert(joint =~= joint + none);
        (joint, none)
    } else {
        let fewer = more_roots.drop_last();
        let (before, below) = choose|before: Seq<Seq<u8>>, below: Seq<Seq<u8>>|
            {
                &&& may_find(read_dir, all.drop_last(), scan_hidden, depth, before)
                &&& #[trigger] may_find_below(read_dir, all.last(), scan_hidden, depth, below)
                &&& joint == #[trigger] (before + below)
            };
        assert(all.drop_last() =~= roots + fewer);
        assert(all.last() == more_roots.last());
        let (found, more) = lemma_found_below_two_lists(
            read_dir,
            roots,
            fewer,
            scan_hidden,
            depth,
            before,
        );
        assert(joint =~= found + (more + below));
        (found, more + below)
    }
}

proof fn lemma_listed_where_found(list: Seq<Seq<u8>>, found: Seq<Seq<u8>>, path: Seq<u8>)
    requires
        is_settled(list, found),
    ensures
        is_listed(list, path) <==> is_listed(found, path),
{
    if is_listed(list, path) {
        let i = choose|i: int| 0 <= i < list.len() && path::same_path(#[trigger] list[i], path);
        assert(was_found(found, list[i]));
        let k = choose|k: int|
            0 <= k < found.len() && #[trigger] found[k] == list[i] && first_of_its_kind(found, k);
        assert(path::same_path(found[k], path));
    }
    if is_listed(found, path) {
        let k = choose|k: int| 0 <= k < found.len() && path::same_path(#[trigger] found[k], path);
        assert(is_listed(list, found[k]));
        let i = choose|i: int|
            0 <= i < list.len() && path::same_path(#[trigger] list[i], found[k]);
        assert(path::same_path(list[i], path));
    }
}

/// Scanning two lists of roots together at a fixed depth lists what scanning them
/// one after the other at that depth lists, as long as the tree does not change.
pub proof fn fixed_depth_scans_of_roots_join<R: Fn(&ProjectPath) -> Vec<DirEntry>>(
    read_dir: R,
    roots: Seq<Seq<u8>>,
    more_roots: Seq<Seq<u8>>,
    scan_hidden: bool,
    depth: usize,
    found: Seq<Seq<u8>>,
    more_found: Seq<Seq<u8>>,
    joint_found: Seq<Seq<u8>>,
    list: Seq<Seq<u8>>,
    more_list: Seq<Seq<u8>>,
    joint_list: Seq<Seq<u8>>,
)
    requires
        tree_is_unchanged(read_dir),
        may_find(read_dir, roots, scan_hidden, depth, found),
        may_find(read_dir, more_roots, scan_hidden, depth, more_found),
        may_find(read_dir, roots + more_roots, scan_hidden, depth, joint_found),
        is_settled(list, found),
        is_settled(more_list, more_found),
        is_settled(joint_list, joint_found),
    ensures
        forall|path: Seq<u8>| #[trigger]
            is_listed(joint_list, path) <==> is_listed(list, path) || is_listed(more_list, path),
{
    let (first, second) = lemma_found_below_two_lists(
        read_dir,
        roots,
        more_roots,
        scan_hidden,
        depth,
        joint_found,
    );
    lemma_found_is_unique(read_dir, roots, scan_hidden, depth, found, first);
    lemma_found_is_unique(read_dir, more_roots, scan_hidden, depth, more_found, second);
    assert forall|path: Seq<u8>| #[trigger] is_listed(joint_list, path) <==> is_listed(list, path)
        || is_listed(more_list, path) by {
        lemma_listed_where_found(list, found, path);
        lemma_listed_where_found(more_list, more_found, path);
        lemma_listed_where_found(joint_list, joint_found, path);
        if is_listed(joint_found, path) {
            let k = choose|k: int|
                0 <= k < joint_found.len() && path::same_path(#[trigger] joint_found[k], path);
            if k < found.len() {
                assert(path::same_path(found[k], path));
            } else {
                assert(path::same_path(more_found[k - found.len()], path));
            }
        }
        if is_listed(found, path) {
            let k = choose|k: int|
                0 <= k < found.len() && path::same_path(#[trigger] found[k], path);
            assert(path::same_path(joint_found[k], path));
        }
        if is_listed(more_found, path) {
            let k = choose|k: int|
                0 <= k < more_found.len() && path::same_path(#[trigger] more_found[k], path);
            assert(path::same_path(joint_found[found.len() + k], path));
        }
    }
}

proof fn lemma_spelled_in_ascii(name: Seq<u8>, word: Seq<char>)
    requires
        is_ascii_chars(word),
    ensures
        text::ascii_text(name) == word <==> name == encode_utf8(word),
{
    is_ascii_chars_encode_utf8(word);
    if text::ascii_text(name) == word {
        assert forall|i: int| 0 <= i < name.len() implies #[trigger] name[i] < 128 by {
            assert('\0' <= word[i] <= '\u{7f}');
            assert(text::ascii_text(name)[i] == name[i] as char);
        }
        text::ascii_bytes_decode(name);
    }
    if name == encode_utf8(word) {
        assert forall|i: int| 0 <= i < word.len() implies text::ascii_text(name)[i] == word[i] by {
            assert('\0' <= word[i] <= '\u{7f}');
        }
        assert(text::ascii_text(name) =~= word);
    }
}

proof fn lemma_tool_folders(name: Seq<u8>)
    ensures
        tool_folder(name) <==> {
            ||| name == encode_utf8("node_modules"@)
            ||| name == encode_utf8("target"@)
            ||| name == encode_utf8("build"@)
            ||| name == encode_utf8("dist"@)
            ||| name == encode_utf8("vendor"@)
            ||| name == encode_utf8(".git"@)
        },
{
    assert(is_ascii_chars("node_modules"@)) by {
        reveal_strlit("node_modules");
    }
    lemma_spelled_in_ascii(name, "node_modules"@);
    assert(is_ascii_chars("target"@)) by {
        reveal_strlit("target");
    }
    lemma_spelled_in_ascii(name, "target"@);
    assert(is_ascii_chars("build"@)) by {
        reveal_strlit("build");
    }
    lemma_spelled_in_ascii(name, "build"@);
    assert(is_ascii_chars("dist"@)) by {
        reveal_strlit("dist");
    }
    lemma_spelled_in_ascii(name, "dist"@);
    assert(is_ascii_chars("vendor"@)) by {
        reveal_strlit("vendor");
    }
    lemma_spelled_in_ascii(name, "vendor"@);
    assert(is_ascii_chars(".git"@)) by {
        reveal_strlit(".git");
    }
    lemma_spelled_in_ascii(name, ".git"@);
}

/// A folder is left out for one of two reasons and no other: one of its components
/// starts with a dot, byte 46, and hidden folders are not asked for; or its last one
/// is, byte for byte, one of six names.
pub proof fn folder_is_left_out_for_two_reasons(parts: Seq<Component>, scan_hidden: bool)
    ensures
        left_out(parts, scan_hidden) <==> {
            ||| !scan_hidden && exists|i: int|
                0 <= i < parts.len() && match #[trigger] parts[i] {
                    Component::Root => false,
                    Component::Current => true,
                    Component::Parent => true,
                    Component::Named(name) => name.len() > 0 && name[0] == 46,
                }
            ||| parts.len() > 0 && (parts[parts.len() - 1] matches Component::Named(name) && (name
                == encode_utf8("node_modules"@) || name == encode_utf8("target"@) || name
                == encode_utf8("build"@) || name == encode_utf8("dist"@) || name == encode_utf8(
                "vendor"@,
            ) || name == encode_utf8(".git"@)))
        },
{
    if parts.len() > 0 && parts.last() is Named {
        lemma_tool_folders(parts.last()->Named_0);
    }
    if any_dotted(parts) {
        let i = choose|i: int| 0 <= i < parts.len() && path::dotted(#[trigger] parts[i]);
        assert(match parts[i] {
            Component::Root => false,
            Component::Current => true,
            Component::Parent => true,
            Component::Named(name) => name.len() > 0 && name[0] == 46,
        });
    }
    if exists|i: int|
        0 <= i < parts.len() && match #[trigger] parts[i] {
            Component::Root => false,
            Component::Current => true,
            Component::Parent => true,
            Component::Named(name) => name.len() > 0 && name[0] == 46,
        } {
        let i = choose|i: int|
            0 <= i < parts.len() && match #[trigger] parts[i] {
                Component::Root => false,
                Component::Current => true,
                Component::Parent => true,
                Component::Named(name) => name.len() > 0 && name[0] == 46,
            };
        assert(path::dotted(parts[i]));
    }
}

/// Of a path, the name decides on the second reason: a folder is ignored if its name
/// is, byte for byte, one of the six, or if hidden folders are not asked for and a
/// component starts with a dot; and for nothing else.
pub proof fn path_is_ignored_for_two_reasons(path: Seq<u8>, scan_hidden: bool)
    ensures
        ignored(path, scan_hidden) <==> {
            ||| !scan_hidden && exists|i: int|
                0 <= i < path::components(path).len() && path::dotted(
                    #[trigger] path::components(path)[i],
                )
            ||| path::file_name(path) == Some(encode_utf8("node_modules"@))
            ||| path::file_name(path) == Some(encode_utf8("target"@))
            ||| path::file_name(path) == Some(encode_utf8("build"@))
            ||| path::file_name(path) == Some(encode_utf8("dist"@))
            ||| path::file_name(path) == Some(encode_utf8("vendor"@))
            ||| path::file_name(path) == Some(encode_utf8(".git"@))
        },
{
    let parts = path::components(path);
    if parts.len() > 0 && parts.last() is Named {
        lemma_tool_folders(parts.last()->Named_0);
    }
}

/// Every folder that a walk comes to below its root, with no folder on the way that is
/// left out, is listed.
pub proof fn every_open_folder_is_listed(
    roots: Seq<Seq<u8>>,
    walks: Seq<Seq<(Seq<u8>, bool, int)>>,
    scan_hidden: bool,
    list: Seq<Seq<u8>>,
    i: int,
    k: int,
)
    requires
        is_settled(list, found_on_walks(roots, walks, scan_hidden)),
        0 <= i < walks.len(),
        0 <= k < walks[i].len(),
        walks[i][k].1,
        walks[i][k].2 != 0,
        forall|n: int|
            path::components(roots[i]).len() <= n <= path::components(walks[i][k].0).len()
                ==> !left_out(#[trigger] path::components(walks[i][k].0).take(n), scan_hidden),
        !left_out(path::components(walks[i][k].0), scan_hidden),
    ensures
        exists|j: int|
            0 <= j < list.len() && path::components(#[trigger] list[j]) == path::components(
                walks[i][k].0,
            ),
{
    scan_lists_what_it_keeps(roots, walks, scan_hidden, list);
    let path = walks[i][k].0;
    assert(keeps(roots[i], walks[i][k], scan_hidden));
    assert(kept_on_walks(roots, walks, scan_hidden, path));
    assert(is_listed(list, path));
    let j = choose|j: int| 0 <= j < list.len() && path::same_path(#[trigger] list[j], path);
    assert(path::components(list[j]) == path::components(path));
}

/// Every folder that is listed is one that a walk came to below its root, with no
/// folder on the way that is left out.
pub proof fn every_listed_folder_is_open(
    roots: Seq<Seq<u8>>,
    walks: Seq<Seq<(Seq<u8>, bool, int)>>,
    scan_hidden: bool,
    list: Seq<Seq<u8>>,
    j: int,
) -> (r: (int, int))
    requires
        is_settled(list, found_on_walks(roots, walks, scan_hidden)),
        0 <= j < list.len(),
    ensures
        0 <= r.0 < walks.len(),
        0 <= r.1 < walks[r.0].len(),
        walks[r.0][r.1].0 == list[j],
        walks[r.0][r.1].1,
        walks[r.0][r.1].2 != 0,
        forall|n: int|
            path::components(roots[r.0]).len() <= n <= path::components(list[j]).len()
                ==> !left_out(#[trigger] path::components(list[j]).take(n), scan_hidden),
        !left_out(path::components(list[j]), scan_hidden),
{
    scan_lists_what_it_keeps(roots, walks, scan_hidden, list);
    assert(kept_on_walks(roots, walks, scan_hidden, list[j]));
    choose|i: int, k: int|
        {
            &&& 0 <= i < walks.len()
            &&& 0 <= k < walks[i].len()
            &&& (#[trigger] walks[i][k]).0 == list[j]
            &&& keeps(roots[i], walks[i][k], scan_hidden)
        }
}

/// A list has each path once, in order, and as it was spelled where it was found
/// first; nothing that was found is missing, and nothing else is there.
pub proof fn settled_list_has_each_path_once(
    list: Seq<Seq<u8>>,
    found: Seq<Seq<u8>>,
    k: int,
) -> (i: int)
    requires
        is_settled(list, found),
        0 <= k < found.len(),
    ensures
        0 <= i < list.len(),
        path::same_path(list[i], found[k]),
        forall|j: int|
            0 <= j < list.len() && j != i ==> !path::same_path(#[trigger] list[j], found[k]),
        forall|j: int| 0 <= j < list.len() ==> found.contains(#[trigger] list[j]),
        forall|j: int, m: int|
            0 <= j < m < list.len() ==> path::path_less(#[trigger] list[j], #[trigger] list[m]),
        (forall|m: int| 0 <= m < k ==> !path::same_path(#[trigger] found[m], found[k]))
            ==> list[i] == found[k],
{
    path::path_order_is_strict();
    assert(is_listed(list, found[k]));
    let i = choose|i: int| 0 <= i < list.len() && path::same_path(#[trigger] list[i], found[k]);
    assert forall|j: int| 0 <= j < list.len() && j != i implies !path::same_path(
        #[trigger] list[j],
        found[k],
    ) by {
        if j < i {
            assert(path::path_less(list[j], list[i]));
        } else {
            assert(path::path_less(list[i], list[j]));
        }
    }
    assert forall|j: int| 0 <= j < list.len() implies found.contains(#[trigger] list[j]) by {
        assert(was_found(found, list[j]));
    }
    if forall|m: int| 0 <= m < k ==> !path::same_path(#[trigger] found[m], found[k]) {
        assert(was_found(found, list[i]));
        let m = choose|m: int|
            0 <= m < found.len() && #[trigger] found[m] == list[i] && first_of_its_kind(found, m);
        if m < k {
            assert(path::same_path(found[m], found[k]));
        }
        if k < m {
            assert(path::same_path(found[k], found[m]));
        }
    }
    i
}

/// Of what reading a folder gives, the folders that are not ignored are looked at, in
/// that order; what could not be told to be a folder is not.
pub proof fn children_are_the_folders_read(
    entries: Seq<(Seq<u8>, Option<bool>)>,
    scan_hidden: bool,
)
    ensures
        children(entries, scan_hidden) == entries.filter(
            |e: (Seq<u8>, Option<bool>)| e.1 == Some(true) && !ignored(e.0, scan_hidden),
        ).map_values(|e: (Seq<u8>, Option<bool>)| e.0),
    decreases entries.len(),
{
    reveal(Seq::filter);
    let wanted = |e: (Seq<u8>, Option<bool>)| e.1 == Some(true) && !ignored(e.0, scan_hidden);
    let path = |e: (Seq<u8>, Option<bool>)| e.0;
    if entries.len() > 0 {
        children_are_the_folders_read(entries.drop_last(), scan_hidden);
        let before = entries.drop_last().filter(wanted);
        assert(entries.filter(wanted) == if wanted(entries.last()) {
            before.push(entries.last())
        } else {
            before
        });
        assert(before.push(entries.last()).map_values(path) =~= before.map_values(path).push(
            entries.last().0,
        ));
    }
    assert(children(entries, scan_hidden) =~= entries.filter(wanted).map_values(path));
}

/// Of what a walk comes to, what a scan keeps is found, in that order.
pub proof fn walk_finds_what_is_kept(
    root: Seq<u8>,
    entries: Seq<(Seq<u8>, bool, int)>,
    scan_hidden: bool,
)
    ensures
        found_on_walk(root, entries, scan_hidden) == entries.filter(
            |e: (Seq<u8>, bool, int)| keeps(root, e, scan_hidden),
        ).map_values(|e: (Seq<u8>, bool, int)| e.0),
    decreases entries.len(),
{
    reveal(Seq::filter);
    let wanted = |e: (Seq<u8>, bool, int)| keeps(root, e, scan_hidden);
    let path = |e: (Seq<u8>, bool, int)| e.0;
    if entries.len() > 0 {
        walk_finds_what_is_kept(root, entries.drop_last(), scan_hidden);
        let before = entries.drop_last().filter(wanted);
        assert(entries.filter(wanted) == if wanted(entries.last()) {
            before.push(entries.last())
        } else {
            before
        });
        assert(before.push(entries.last()).map_values(path) =~= before.map_values(path).push(
            entries.last().0,
        ));
    }
    assert(found_on_walk(root, entries, scan_hidden) =~= entries.filter(wanted).map_values(path));
}

/// One more root adds what its walk finds behind what the others find.
pub proof fn one_more_root_adds_its_folders(
    roots: Seq<Seq<u8>>,
    walks: Seq<Seq<(Seq<u8>, bool, int)>>,
    root: Seq<u8>,
    walk: Seq<(Seq<u8>, bool, int)>,
    scan_hidden: bool,
)
    requires
        walks.len() == roots.len(),
    ensures
        found_on_walks(roots.push(root), walks.push(walk), scan_hidden) == found_on_walks(
            roots,
            walks,
            scan_hidden,
        ) + found_on_walk(root, walk, scan_hidden),
        walks.len() == 0 ==> found_on_walks(roots, walks, scan_hidden).len() == 0,
{
    assert(walks.push(walk).drop_last() =~= walks);
    lemma_walks_of_first_roots(roots, roots.push(root), walks, scan_hidden);
}

proof fn lemma_walks_of_first_roots(
    roots: Seq<Seq<u8>>,
    more: Seq<Seq<u8>>,
    walks: Seq<Seq<(Seq<u8>, bool, int)>>,
    scan_hidden: bool,
)
    requires
        walks.len() <= roots.len() <= more.len(),
        forall|i: int| 0 <= i < roots.len() ==> roots[i] == more[i],
    ensures
        found_on_walks(roots, walks, scan_hidden) == found_on_walks(more, walks, scan_hidden),
    decreases walks.len(),
{
    if walks.len() > 0 {
        lemma_walks_of_first_roots(roots, more, walks.drop_last(), scan_hidden);
    }
}

proof fn lemma_entry_is_child(
    entries: Seq<(Seq<u8>, Option<bool>)>,
    scan_hidden: bool,
    j: int,
)
    requires
        0 <= j < entries.len(),
        entries[j].1 == Some(true),
        !ignored(entries[j].0, scan_hidden),
    ensures
        children(entries, scan_hidden).contains(entries[j].0),
    decreases entries.len(),
{
    let before = children(entries.drop_last(), scan_hidden);
    let all = children(entries, scan_hidden);
    if j < entries.len() - 1 {
        lemma_entry_is_child(entries.drop_last(), scan_hidden, j);
        let n = choose|n: int| 0 <= n < before.len() && before[n] == entries[j].0;
        assert(all[n] == entries[j].0);
    } else {
        assert(all[all.len() - 1] == entries[j].0);
    }
}

proof fn lemma_found_below_a_root<R: Fn(&ProjectPath) -> Vec<DirEntry>>(
    read_dir: R,
    roots: Seq<Seq<u8>>,
    scan_hidden: bool,
    depth: usize,
    found: Seq<Seq<u8>>,
    path: Seq<u8>,
) -> (r: (int, Seq<Seq<u8>>))
    requires
        may_find(read_dir, roots, scan_hidden, depth, found),
        found.contains(path),
    ensures
        0 <= r.0 < roots.len(),
        may_find_below(read_dir, roots[r.0], scan_hidden, depth, r.1),
        r.1.contains(path),
    decreases roots.len(),
{
    let (before, below) = choose|before: Seq<Seq<u8>>, below: Seq<Seq<u8>>|
        {
            &&& may_find(read_dir, roots.drop_last(), scan_hidden, depth, before)
            &&& #[trigger] may_find_below(read_dir, roots.last(), scan_hidden, depth, below)
            &&& found == #[trigger] (before + below)
        };
    let n = choose|n: int| 0 <= n < found.len() && found[n] == path;
    if n < before.len() {
        assert(before[n] == path);
        lemma_found_below_a_root(
            read_dir,
            roots.drop_last(),
            scan_hidden,
            depth,
            before,
            path,
        )
    } else {
        assert(below[n - before.len()] == path);
        (roots.len() - 1, below)
    }
}

/// What is found at depth one are folders that reading a root gave, and that are not
/// ignored.
pub proof fn depth_one_lies_in_a_root<R: Fn(&ProjectPath) -> Vec<DirEntry>>(
    read_dir: R,
    roots: Seq<Seq<u8>>,
    scan_hidden: bool,
    found: Seq<Seq<u8>>,
    path: Seq<u8>,
) -> (r: (int, Seq<(Seq<u8>, Option<bool>)>, int))
    requires
        may_find(read_dir, roots, scan_hidden, 1, found),
        found.contains(path),
    ensures
        0 <= r.0 < roots.len(),
        may_list(read_dir, roots[r.0], r.1),
        0 <= r.2 < r.1.len(),
        r.1[r.2] == (path, Some(true)),
        !ignored(path, scan_hidden),
{
    let (i, below) = lemma_found_below_a_root(read_dir, roots, scan_hidden, 1, found, path);
    let entries = choose|entries: Seq<(Seq<u8>, Option<bool>)>|
        #[trigger] may_list(read_dir, roots[i], entries) && below == children(entries, scan_hidden);
    lemma_children_are_entries(entries, scan_hidden);
    let n = choose|n: int| 0 <= n < below.len() && below[n] == path;
    assert(is_child(entries, scan_hidden, children(entries, scan_hidden)[n]));
    let j = choose|j: int|
        {
            &&& 0 <= j < entries.len()
            &&& (#[trigger] entries[j]).0 == path
            &&& entries[j].1 == Some(true)
            &&& !ignored(path, scan_hidden)
        };
    (i, entries, j)
}

/// What is found at depth two are folders that reading a folder at depth one gave, and
/// that are not ignored.
pub proof fn depth_two_lies_in_a_folder_of_a_root<R: Fn(&ProjectPath) -> Vec<DirEntry>>(
    read_dir: R,
    roots: Seq<Seq<u8>>,
    scan_hidden: bool,
    found: Seq<Seq<u8>>,
    path: Seq<u8>,
) -> (r: (int, Seq<(Seq<u8>, Option<bool>)>, int, Seq<(Seq<u8>, Option<bool>)>, int))
    requires
        may_find(read_dir, roots, scan_hidden, 2, found),
        found.contains(path),
    ensures
        0 <= r.0 < roots.len(),
        may_list(read_dir, roots[r.0], r.1),
        0 <= r.2 < r.1.len(),
        r.1[r.2].1 == Some(true),
        !ignored(r.1[r.2].0, scan_hidden),
        may_list(read_dir, r.1[r.2].0, r.3),
        0 <= r.4 < r.3.len(),
        r.3[r.4] == (path, Some(true)),
        !ignored(path, scan_hidden),
{
    let (i, below) = lemma_found_below_a_root(read_dir, roots, scan_hidden, 2, found, path);
    let entries = choose|entries: Seq<(Seq<u8>, Option<bool>)>|
        #[trigger] may_list(read_dir, roots[i], entries) && may_find_in(
            read_dir,
            children(entries, scan_hidden),
            scan_hidden,
            below,
        );
    let dirs = children(entries, scan_hidden);
    let (d, inner, m) = lemma_found_in_a_folder(read_dir, dirs, scan_hidden, below, path);
    lemma_children_are_entries(entries, scan_hidden);
    assert(is_child(entries, scan_hidden, children(entries, scan_hidden)[d]));
    let j = choose|j: int|
        {
            &&& 0 <= j < entries.len()
            &&& (#[trigger] entries[j]).0 == dirs[d]
            &&& entries[j].1 == Some(true)
            &&& !ignored(dirs[d], scan_hidden)
        };
    (i, entries, j, inner, m)
}

proof fn lemma_found_in_a_folder<R: Fn(&ProjectPath) -> Vec<DirEntry>>(
    read_dir: R,
    dirs: Seq<Seq<u8>>,
    scan_hidden: bool,
    found: Seq<Seq<u8>>,
    path: Seq<u8>,
) -> (r: (int, Seq<(Seq<u8>, Option<bool>)>, int))
    requires
        may_find_in(read_dir, dirs, scan_hidden, found),
        found.contains(path),
    ensures
        0 <= r.0 < dirs.len(),
        may_list(read_dir, dirs[r.0], r.1),
        0 <= r.2 < r.1.len(),
        r.1[r.2] == (path, Some(true)),
        !ignored(path, scan_hidden),
    decreases dirs.len(),
{
    let (before, entries) = choose|
        before: Seq<Seq<u8>>,
        entries: Seq<(Seq<u8>, Option<bool>)>,
    |
        {
            &&& may_find_in(read_dir, dirs.drop_last(), scan_hidden, before)
            &&& #[trigger] may_list(read_dir, dirs.last(), entries)
            &&& found == #[trigger] (before + children(entries, scan_hidden))
        };
    let n = choose|n: int| 0 <= n < found.len() && found[n] == path;
    if n < before.len() {
        assert(before[n] == path);
        lemma_found_in_a_folder(read_dir, dirs.drop_last(), scan_hidden, before, path)
    } else {
        lemma_children_are_entries(entries, scan_hidden);
        let c = n - before.len();
        assert(children(entries, scan_hidden)[c] == path);
        assert(is_child(entries, scan_hidden, children(entries, scan_hidden)[c]));
        let j = choose|j: int|
            {
                &&& 0 <= j < entries.len()
                &&& (#[trigger] entries[j]).0 == path
                &&& entries[j].1 == Some(true)
                &&& !ignored(path, scan_hidden)
            };
        (dirs.len() - 1, entries, j)
    }
}

proof fn lemma_below_each_root_is_found<R: Fn(&ProjectPath) -> Vec<DirEntry>>(
    read_dir: R,
    roots: Seq<Seq<u8>>,
    scan_hidden: bool,
    depth: usize,
    found: Seq<Seq<u8>>,
    i: int,
) -> (below: Seq<Seq<u8>>)
    requires
        may_find(read_dir, roots, scan_hidden, depth, found),
        0 <= i < roots.len(),
    ensures
        may_find_below(read_dir, roots[i], scan_hidden, depth, below),
        forall|n: int| 0 <= n < below.len() ==> found.contains(#[trigger] below[n]),
    decreases roots.len(),
{
    let (before, last) = choose|before: Seq<Seq<u8>>, below: Seq<Seq<u8>>|
        {
            &&& may_find(read_dir, roots.drop_last(), scan_hidden, depth, before)
            &&& #[trigger] may_find_below(read_dir, roots.last(), scan_hidden, depth, below)
            &&& found == #[trigger] (before + below)
        };
    if i < roots.len() - 1 {
        let below = lemma_below_each_root_is_found(
            read_dir,
            roots.drop_last(),
            scan_hidden,
            depth,
            before,
            i,
        );
        assert forall|n: int| 0 <= n < below.len() implies found.contains(#[trigger] below[n]) by {
            assert(before.contains(below[n]));
            let k = choose|k: int| 0 <= k < before.len() && before[k] == below[n];
            assert(found[k] == below[n]);
        }
        below
    } else {
        assert forall|n: int| 0 <= n < last.len() implies found.contains(#[trigger] last[n]) by {
            assert(found[before.len() + n] == last[n]);
        }
        last
    }
}

/// Every folder in a root that is not ignored is found at depth one, as long as the
/// tree does not change.
pub proof fn all_in_a_root_is_at_depth_one<R: Fn(&ProjectPath) -> Vec<DirEntry>>(
    read_dir: R,
    roots: Seq<Seq<u8>>,
    scan_hidden: bool,
    found: Seq<Seq<u8>>,
    i: int,
    entries: Seq<(Seq<u8>, Option<bool>)>,
    j: int,
)
    requires
        may_find(read_dir, roots, scan_hidden, 1, found),
        tree_is_unchanged(read_dir),
        0 <= i < roots.len(),
        may_list(read_dir, roots[i], entries),
        0 <= j < entries.len(),
        entries[j].1 == Some(true),
        !ignored(entries[j].0, scan_hidden),
    ensures
        found.contains(entries[j].0),
{
    let below = lemma_below_each_root_is_found(read_dir, roots, scan_hidden, 1, found, i);
    lemma_entry_is_child(entries, scan_hidden, j);
    let n = choose|n: int|
        0 <= n < children(entries, scan_hidden).len() && children(entries, scan_hidden)[n]
            == entries[j].0;
    assert(below[n] == entries[j].0);
}

/// Every folder in a folder at depth one is found at depth two, where neither is
/// ignored, as long as the tree does not change.
pub proof fn all_in_a_folder_of_a_root_is_at_depth_two<R: Fn(&ProjectPath) -> Vec<DirEntry>>(
    read_dir: R,
    roots: Seq<Seq<u8>>,
    scan_hidden: bool,
    found: Seq<Seq<u8>>,
    i: int,
    entries: Seq<(Seq<u8>, Option<bool>)>,
    j: int,
    inner: Seq<(Seq<u8>, Option<bool>)>,
    m: int,
)
    requires
        may_find(read_dir, roots, scan_hidden, 2, found),
        tree_is_unchanged(read_dir),
        0 <= i < roots.len(),
        may_list(read_dir, roots[i], entries),
        0 <= j < entries.len(),
        entries[j].1 == Some(true),
        !ignored(entries[j].0, scan_hidden),
        may_list(read_dir, entries[j].0, inner),
        0 <= m < inner.len(),
        inner[m].1 == Some(true),
        !ignored(inner[m].0, scan_hidden),
    ensures
        found.contains(inner[m].0),
{
    let below = lemma_below_each_root_is_found(read_dir, roots, scan_hidden, 2, found, i);
    let dirs = children(entries, scan_hidden);
    lemma_entry_is_child(entries, scan_hidden, j);
    let d = choose|d: int| 0 <= d < dirs.len() && dirs[d] == entries[j].0;
    lemma_in_each_folder_is_found(read_dir, dirs, scan_hidden, below, d, inner, m);
    let n = choose|n: int| 0 <= n < below.len() && below[n] == inner[m].0;
    assert(found.contains(below[n]));
}

proof fn lemma_in_each_folder_is_found<R: Fn(&ProjectPath) -> Vec<DirEntry>>(
    read_dir: R,
    dirs: Seq<Seq<u8>>,
    scan_hidden: bool,
    found: Seq<Seq<u8>>,
    d: int,
    inner: Seq<(Seq<u8>, Option<bool>)>,
    m: int,
)
    requires
        may_find_in(read_dir, dirs, scan_hidden, found),
        tree_is_unchanged(read_dir),
        0 <= d < dirs.len(),
        may_list(read_dir, dirs[d], inner),
        0 <= m < inner.len(),
        inner[m].1 == Some(true),
        !ignored(inner[m].0, scan_hidden),
    ensures
        found.contains(inner[m].0),
    decreases dirs.len(),
{
    let (before, entries) = choose|
        before: Seq<Seq<u8>>,
        entries: Seq<(Seq<u8>, Option<bool>)>,
    |
        {
            &&& may_find_in(read_dir, dirs.drop_last(), scan_hidden, before)
            &&& #[trigger] may_list(read_dir, dirs.last(), entries)
            &&& found == #[trigger] (before + children(entries, scan_hidden))
        };
    if d < dirs.len() - 1 {
        lemma_in_each_folder_is_found(
            read_dir,
            dirs.drop_last(),
            scan_hidden,
            before,
            d,
            inner,
            m,
        );
        let k = choose|k: int| 0 <= k < before.len() && before[k] == inner[m].0;
        assert(found[k] == inner[m].0);
    } else {
        assert(entries == inner);
        lemma_entry_is_child(inner, scan_hidden, m);
        let k = choose|k: int|
            0 <= k < children(inner, scan_hidden).len() && children(inner, scan_hidden)[k]
                == inner[m].0;
        assert(found[before.len() + k] == inner[m].0);
    }
}

/// What may be read in a folder is what a call that was given that folder, byte for
/// byte, may return, thing by thing.
pub proof fn what_is_read_is_what_a_call_returns<R: Fn(&ProjectPath) -> Vec<DirEntry>>(
    read_dir: R,
    dir: Seq<u8>,
    entries: Seq<(Seq<u8>, Option<bool>)>,
)
    requires
        may_list(read_dir, dir, entries),
    ensures
        exists|p: &ProjectPath, r: Vec<DirEntry>| #[trigger]
            call_ensures(read_dir, (p,), r) && p.bytes@ == dir && r@.len() == entries.len()
                && forall|i: int|
                0 <= i < r@.len() ==> (#[trigger] entries[i]).0 == r@[i].path.bytes@ && entries[i].1
                    == r@[i].is_dir,
{
    let (p, r) = choose|p: &ProjectPath, r: Vec<DirEntry>| #[trigger]
        call_ensures(read_dir, (p,), r) && p@ == dir && entry_views(r@) == entries;
    assert(call_ensures(read_dir, (p,), r));
}

/// What walks may come to is what a call for each root, byte for byte, may return,
/// thing by thing.
pub proof fn what_is_walked_is_what_calls_return<W: Fn(&ProjectPath) -> Vec<WalkEntry>>(
    walk: W,
    roots: Seq<Seq<u8>>,
    walks: Seq<Seq<(Seq<u8>, bool, int)>>,
    i: int,
)
    requires
        may_be_walks(walk, roots, walks),
        0 <= i < roots.len(),
    ensures
        walks.len() == roots.len(),
        exists|p: &ProjectPath, r: Vec<WalkEntry>| #[trigger]
            call_ensures(walk, (p,), r) && p.bytes@ == roots[i] && r@.len() == walks[i].len()
                && forall|k: int|
                0 <= k < r@.len() ==> (#[trigger] walks[i][k]).0 == r@[k].path.bytes@
                    && walks[i][k].1 == r@[k].is_dir && walks[i][k].2 == r@[k].depth,
{
    assert(may_come_to(walk, roots[i], walks[i]));
    let (p, r) = choose|p: &ProjectPath, r: Vec<WalkEntry>| #[trigger]
        call_ensures(walk, (p,), r) && p@ == roots[i] && walk_views(r@) == walks[i];
    assert(call_ensures(walk, (p,), r));
}

} // verus!
