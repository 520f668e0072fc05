//! What the program is asked to do.

use vstd::prelude::*;
use vstd::string::*;
use vstd::utf8::*;
use crate::path;
use crate::path::ProjectPath;
use crate::rank;
use crate::rank::best_match;
use crate::score;
use crate::text;
use crate::text::eq_ignore_ascii_case;

verus! {

/// What the arguments ask for.
pub enum Command {
    Help,
    Settings,
    /// Search for this; for nothing yet if it is empty.
    Find(String),
}

/// The characters of `args`.
pub open spec fn arg_views(args: Seq<String>) -> Seq<Seq<char>> {
    args.map_values(|a: String| a@)
}

/// `words` with a space between each two.
pub open spec fn spaced(words: Seq<Seq<char>>) -> Seq<char>
    decreases words.len(),
{
    if words.len() == 0 {
        Seq::empty()
    } else if words.len() == 1 {
        words[0]
    } else {
        spaced(words.drop_last()) + " "@ + words.last()
    }
}

/// Whether `command` is what `args` ask for.
pub open spec fn asks_for(args: Seq<Seq<char>>, command: Command) -> bool {
    if args.len() > 0 && (args[0] == "--help"@ || args[0] == "-h"@) {
        command is Help
    } else if args.len() > 0 && args[0] == "--set"@ {
        command is Settings
    } else {
        command matches Command::Find(query) && query@ == spaced(args)
    }
}

/// Whether `a` and `b` are the same text.
fn same_text(a: &str, b: &str) -> (r: bool)
    ensures
        r == (a@ == b@),
{
    text::same_chars(text::chars_of(a).as_slice(), text::chars_of(b).as_slice())
}

/// What `args` ask for.
pub fn command(args: &[String]) -> (r: Command)
    ensures
        asks_for(arg_views(args@), r),
{
    let ghost views = arg_views(args@);
    if args.len() > 0 {
        assert(views[0] == args@[0]@);
        let first = args[0].as_str();
        if same_text(first, "--help") || same_text(first, "-h") {
            return Command::Help;
        }
        if same_text(first, "--set") {
            return Command::Settings;
        }
    }
    let mut query = String::new();
    let mut i: usize = 0;
    assert(views.take(0).len() == 0);
    while i < args.len()
        invariant
            i <= args.len(),
            views == arg_views(args@),
            query@ == spaced(views.take(i as int)),
        decreases args.len() - i,
    {
        proof {
            assert(views.take(i + 1).drop_last() =~= views.take(i as int));
            assert(views.take(i + 1).last() == args@[i as int]@);
        }
        if i > 0 {
            query.append(" ");
        }
        query.append(args[i].as_str());
        assert(i == 0 ==> query@ =~= views.take(1)[0]);
        i += 1;
    }
    assert(views.take(i as int) =~= views);
    Command::Find(query)
}

/// Whether the name of the folder at `path` is `query`, but for the case of ASCII
/// letters.
pub open spec fn is_named(path: Seq<u8>, query: Seq<char>) -> bool {
    path::file_name(path) matches Some(name) && text::equal_ignoring_ascii_case(
        text::lossy_text(name),
        query,
    )
}

/// Whether the name of the folder at `path`, which is ASCII, is `query`, but for
/// the case of letters.
pub open spec fn is_named_ascii(path: Seq<u8>, query: Seq<char>) -> bool {
    path::file_name(path) matches Some(name) && text::equal_ignoring_ascii_case(
        text::ascii_text(name),
        query,
    )
}

/// Whether the name of the folder at `path` is read as UTF-8 where it is valid.
pub open spec fn name_is_decoded(path: Seq<u8>) -> bool {
    match path::file_name(path) {
        Some(name) => valid_utf8(name) ==> text::lossy_text(name) == decode_utf8(name),
        None => true,
    }
}

/// Whether the names of the folders at `paths` are read as UTF-8 where they are
/// valid, and as ASCII where the path is ASCII, whatever the others are.
pub open spec fn names_are_decoded(paths: Seq<Seq<u8>>, query: Seq<char>) -> bool {
    forall|i: int|
        0 <= i < paths.len() ==> {
            &&& name_is_decoded(#[trigger] paths[i])
            &&& text::ascii_bytes(paths[i]) ==> is_named(paths[i], query) == is_named_ascii(
                paths[i],
                query,
            )
        }
}

/// Whether the name of the folder at `path` is `query`.
fn has_name(path: &ProjectPath, query: &str) -> (r: bool)
    ensures
        r == is_named(path@, query@),
        text::ascii_bytes(path@) ==> r == is_named_ascii(path@, query@),
        name_is_decoded(path@),
{
    match path.file_name() {
        Some(name) => {
            proof {
                if text::ascii_bytes(path@) {
                    path::file_name_is_part_of_path(path@);
                    text::ascii_bytes_decode(name@);
                }
            }
            eq_ignore_ascii_case(text::to_text(name.as_slice()).as_str(), query)
        },
        None => false,
    }
}

/// Whether `found` is the only one of `paths` that `named` holds of.
pub open spec fn is_only(
    found: Seq<u8>,
    paths: Seq<Seq<u8>>,
    named: spec_fn(Seq<u8>) -> bool,
) -> bool {
    exists|k: int|
        {
            &&& 0 <= k < paths.len()
            &&& #[trigger] paths[k] == found
            &&& named(found)
            &&& forall|j: int| 0 <= j < paths.len() && named(#[trigger] paths[j]) ==> j == k
        }
}

/// Whether `found` is the only one of `paths` that `named` holds of, or `None` if
/// there is no such path or more than one.
pub open spec fn is_sole_match(
    found: Option<Seq<u8>>,
    paths: Seq<Seq<u8>>,
    named: spec_fn(Seq<u8>) -> bool,
) -> bool {
    match found {
        Some(path) => is_only(path, paths, named),
        None => forall|path: Seq<u8>| !#[trigger] is_only(path, paths, named),
    }
}

/// What a folder that was found, if any, is called.
pub open spec fn found_view(found: Option<ProjectPath>) -> Option<Seq<u8>> {
    match found {
        Some(path) => Some(path@),
        None => None,
    }
}

/// Whether all of `paths` are ASCII.
pub open spec fn all_ascii(paths: Seq<Seq<u8>>) -> bool {
    forall|i: int| 0 <= i < paths.len() ==> text::ascii_bytes(#[trigger] paths[i])
}

/// The folder whose name is `query`, but for the case of ASCII letters, if there
/// is one and only one.
pub fn sole_match(paths: &[ProjectPath], query: &str) -> (r: Option<ProjectPath>)
    ensures
        is_sole_match(
            found_view(r),
            path::path_views(paths@),
            |p: Seq<u8>| is_named(p, query@),
        ),
        names_are_decoded(path::path_views(paths@), query@),
        all_ascii(path::path_views(paths@)) ==> is_sole_match(
            found_view(r),
            path::path_views(paths@),
            |p: Seq<u8>| is_named_ascii(p, query@),
        ),
{
    let ghost views = path::path_views(paths@);
    let ghost named = |p: Seq<u8>| is_named(p, query@);
    let ghost named_ascii = |p: Seq<u8>| is_named_ascii(p, query@);
    let mut found: Option<usize> = None;
    let mut several = false;
    let mut i: usize = 0;
    while i < paths.len()
        invariant
            i <= paths.len(),
            views == path::path_views(paths@),
            named == (|p: Seq<u8>| is_named(p, query@)),
            named_ascii == (|p: Seq<u8>| is_named_ascii(p, query@)),
            names_are_decoded(views.take(i as int), query@),
            all_ascii(views) ==> forall|k: int|
                0 <= k < i ==> named(#[trigger] views[k]) == named_ascii(views[k]),
            found matches Some(k) ==> k < i && named(views[k as int]) && forall|j: int|
                0 <= j < k ==> !named(#[trigger] views[j]),
            found is None ==> forall|j: int| 0 <= j < i ==> !named(#[trigger] views[j]),
            several ==> found is Some && exists|j: int|
                found->0 < j < i && named(#[trigger] views[j]),
            !several ==> (found matches Some(k) ==> forall|j: int|
                k < j < i ==> !named(#[trigger] views[j])),
        decreases paths.len() - i,
    {
        assert(views[i as int] == paths@[i as int]@);
        assert(views.take(i + 1) =~= views.take(i as int).push(views[i as int]));
        assert forall|k: int| 0 <= k < i implies name_is_decoded(#[trigger] views[k]) && (
        text::ascii_bytes(views[k]) ==> is_named(views[k], query@) == is_named_ascii(
            views[k],
            query@,
        )) by {
            assert(views.take(i as int)[k] == views[k]);
        }
        if has_name(&paths[i], query) {
            match found {
                None => {
                    found = Some(i);
                },
                Some(_) => {
                    several = true;
                },
            }
        }
        i += 1;
    }
    assert(views.take(i as int) =~= views);
    proof {
        if several {
            let k = found->0 as int;
            let j = choose|j: int| k < j < i && named(#[trigger] views[j]);
            assert forall|path: Seq<u8>| !#[trigger] is_only(path, views, named) by {
                if is_only(path, views, named) {
                    let n = choose|n: int|
                        {
                            &&& 0 <= n < views.len()
                            &&& #[trigger] views[n] == path
                            &&& named(path)
                            &&& forall|j: int|
                                0 <= j < views.len() && named(#[trigger] views[j]) ==> j == n
                        };
                    assert(named(views[k]) && named(views[j]));
                }
            }
        } else if found is Some {
            let k = found->0 as int;
            assert(views[k] == paths@[k]@);
            assert(is_only(views[k], views, named));
        }
        if all_ascii(views) {
            assert forall|path: Seq<u8>| #[trigger] is_only(path, views, named_ascii) implies is_only(
                path,
                views,
                named,
            ) by {
                let n = choose|n: int|
                    {
                        &&& 0 <= n < views.len()
                        &&& #[trigger] views[n] == path
                        &&& named_ascii(path)
                        &&& forall|j: int|
                            0 <= j < views.len() && named_ascii(#[trigger] views[j]) ==> j == n
                    };
                assert(named(views[n]) == named_ascii(views[n]));
                assert forall|j: int| 0 <= j < views.len() && named(#[trigger] views[j]) implies j
                    == n by {
                    assert(named_ascii(views[j]));
                }
            }
            assert forall|path: Seq<u8>| #[trigger] is_only(path, views, named) implies is_only(
                path,
                views,
                named_ascii,
            ) by {
                let n = choose|n: int|
                    {
                        &&& 0 <= n < views.len()
                        &&& #[trigger] views[n] == path
                        &&& named(path)
                        &&& forall|j: int|
                            0 <= j < views.len() && named(#[trigger] views[j]) ==> j == n
                    };
                assert(named(views[n]) == named_ascii(views[n]));
                assert forall|j: int|
                    0 <= j < views.len() && named_ascii(#[trigger] views[j]) implies j == n by {
                    assert(named(views[j]));
                }
            }
        }
    }
    if several {
        return None;
    }
    match found {
        Some(k) => Some(paths[k].clone()),
        None => None,
    }
}

/// What is done about a query.
pub enum Outcome {
    /// This project is opened.
    Open(ProjectPath),
    /// This folder, if any, is printed.
    Print(Option<ProjectPath>),
    /// Nothing is done.
    Nothing,
    /// The picker is shown.
    Pick,
}

/// Whether `outcome` is what is done about `query`, where a scan found `paths`: the
/// only project of that name is opened; else the picker is shown if there is a
/// terminal to show it, and if not the best match is printed.
pub open spec fn is_outcome(
    outcome: Outcome,
    query: Seq<char>,
    paths: Seq<Seq<u8>>,
    interactive: bool,
) -> bool {
    let named = |p: Seq<u8>| is_named(p, query);
    match outcome {
        Outcome::Open(path) => query.len() > 0 && is_only(path@, paths, named),
        Outcome::Print(path) => {
            &&& query.len() > 0 && !interactive
            &&& is_sole_match(None, paths, named)
            &&& rank::is_best(found_view(path), paths, rank::query_score(query))
        },
        Outcome::Nothing => query.len() == 0 && !interactive,
        Outcome::Pick => interactive && (query.len() > 0 ==> is_sole_match(None, paths, named)),
    }
}

/// What is done about `query`, where a scan found `paths`; without a query there
/// is no scan, and `paths` is not looked at.
pub fn decide(query: &str, paths: &[ProjectPath], interactive: bool) -> (r: Outcome)
    ensures
        is_outcome(r, query@, path::path_views(paths@), interactive),
        query@.len() > 0 ==> names_are_decoded(path::path_views(paths@), query@),
        r is Print ==> rank::plain_where_ascii(path::path_views(paths@), query@),
        all_ascii(path::path_views(paths@)) ==> match r {
            Outcome::Open(path) => is_only(
                path@,
                path::path_views(paths@),
                |p: Seq<u8>| is_named_ascii(p, query@),
            ),
            Outcome::Print(path) => {
                &&& is_sole_match(
                    None,
                    path::path_views(paths@),
                    |p: Seq<u8>| is_named_ascii(p, query@),
                )
                &&& is_ascii_chars(query@) ==> rank::is_best(
                    found_view(path),
                    path::path_views(paths@),
                    rank::ascii_query_score(query@),
                )
            },
            Outcome::Nothing => true,
            Outcome::Pick => query@.len() > 0 ==> is_sole_match(
                None,
                path::path_views(paths@),
                |p: Seq<u8>| is_named_ascii(p, query@),
            ),
        },
{
    if !query.is_empty() {
        match sole_match(paths, query) {
            Some(path) => {
                return Outcome::Open(path);
            },
            None => {},
        }
    }
    if interactive {
        return Outcome::Pick;
    }
    if query.is_empty() {
        return Outcome::Nothing;
    }
    proof {
        assert forall|i: int| all_ascii(path::path_views(paths@)) && 0 <= i
            < paths@.len() implies text::ascii_bytes(#[trigger] paths@[i]@) by {
            assert(path::path_views(paths@)[i] == paths@[i]@);
        }
    }
    Outcome::Print(best_match(paths, query))
}

/// Whether `line` hands on the project at `path`.
pub open spec fn hands_on(line: Seq<char>, path: Seq<u8>) -> bool {
    &&& line == text::lossy_text(path).push('\n')
    &&& valid_utf8(path) ==> line == decode_utf8(path).push('\n')
}

/// The line by which a project is handed on: its path.
pub fn output_line(path: &ProjectPath) -> (r: String)
    ensures
        hands_on(r@, path@),
{
    let mut r = path.display();
    r.push('\n');
    r
}

/// Among folders with ASCII paths, the only one whose name is the query is also the
/// one that ranks first, as long as the query is not so long that the points for
/// its letters alone add up to an exact match.
pub proof fn sole_match_ranks_first(found: Seq<u8>, paths: Seq<Seq<u8>>, query: Seq<char>)
    requires
        is_only(found, paths, |p: Seq<u8>| is_named_ascii(p, query)),
        query.len() > 0,
        score::WORD_START * query.len() - query.len() as int / 10 < score::EXACT,
    ensures
        rank::is_best(Some(found), paths, rank::ascii_query_score(query)),
{
    let named = |p: Seq<u8>| is_named_ascii(p, query);
    let score = rank::ascii_query_score(query);
    let lower = text::ascii_lowercase(query);
    let k = choose|k: int|
        {
            &&& 0 <= k < paths.len()
            &&& #[trigger] paths[k] == found
            &&& named(found)
            &&& forall|j: int| 0 <= j < paths.len() && named(#[trigger] paths[j]) ==> j == k
        };
    assert(score(found) == Some(score::EXACT as int));
    assert forall|j: int|
        0 <= j < paths.len() && j != k && score(#[trigger] paths[j]) is Some implies rank::ranks_before(
        paths,
        score,
        k,
        j,
    ) by {
        let p = paths[j];
        assert(!named(p));
        let name = path::file_name(p)->0;
        score::exact_name_scores_highest(
            text::ascii_lowercase(text::ascii_text(p)),
            text::ascii_lowercase(text::ascii_text(name)),
            lower,
        );
    }
    assert(paths[k] == found);
}

/// One word alone is the query, and one more word adds a space and that word behind
/// what is there, however many there are.
pub proof fn one_more_word_adds_a_space(words: Seq<Seq<char>>, word: Seq<char>)
    ensures
        spaced(Seq::empty()).len() == 0,
        spaced(seq![word]) == word,
        words.len() > 0 ==> spaced(words.push(word)) == spaced(words) + seq![' '] + word,
{
    reveal_strlit(" ");
    assert(" "@ =~= seq![' ']);
    assert(words.push(word).drop_last() =~= words);
    assert(words.push(word).last() == word);
}

/// Every word stands in the query, letter for letter, right behind the words before it
/// and one space for each of them; and the query is as long as all words together, and
/// one for each gap.
pub proof fn every_word_stands_in_its_place(words: Seq<Seq<char>>, k: int)
    requires
        0 <= k < words.len(),
    ensures
        spaced(words).len() == words.fold_left(
            0int,
            |sum: int, word: Seq<char>| sum + word.len(),
        ) + words.len() - 1,
        ({
            let at = words.take(k).fold_left(0int, |sum: int, word: Seq<char>| sum + word.len())
                + k;
            &&& k <= at
            &&& at + words[k].len() <= spaced(words).len()
            &&& spaced(words).subrange(at, at + words[k].len()) == words[k]
            &&& k > 0 ==> spaced(words)[at - 1] == ' '
        }),
    decreases words.len(),
{
    let add_len = |sum: int, word: Seq<char>| sum + word.len();
    reveal_strlit(" ");
    assert(" "@ =~= seq![' ']);
    let shorter = words.drop_last();
    let last = words.len() - 1;
    assert(words.fold_left(0int, add_len) == add_len(shorter.fold_left(0int, add_len), words.last()));
    if last == 0 {
        assert(words.take(0) =~= Seq::<Seq<char>>::empty());
        assert(shorter =~= Seq::<Seq<char>>::empty());
        assert(shorter.fold_left(0int, add_len) == 0);
        assert(words.take(k).fold_left(0int, add_len) == 0);
        assert(spaced(words).subrange(0, words[0].len() as int) =~= words[0]);
    } else {
        let before = spaced(shorter);
        assert(spaced(words) == before + " "@ + words.last());
        if k < last {
            every_word_stands_in_its_place(shorter, k);
            assert(shorter.take(k) =~= words.take(k));
            let at = words.take(k).fold_left(0int, add_len) + k;
            assert(k <= at && at + words[k].len() <= before.len());
            assert(k > 0 ==> spaced(words)[at - 1] == before[at - 1]);
            assert(spaced(words).subrange(at, at + words[k].len()) =~= before.subrange(
                at,
                at + words[k].len(),
            ));
        } else {
            every_word_stands_in_its_place(shorter, last - 1);
            assert(words.take(k) =~= shorter);
            assert(shorter.take(last - 1) =~= shorter.drop_last());
            assert(shorter.fold_left(0int, add_len) == add_len(
                shorter.drop_last().fold_left(0int, add_len),
                shorter.last(),
            ));
            let at = shorter.fold_left(0int, add_len) + k;
            assert(at == before.len() + 1);
            assert(spaced(words)[at - 1] == ' ');
            assert(at + words[k].len() == spaced(words).len());
            assert(spaced(words).subrange(at, at + words[k].len()) =~= words[k]);
        }
    }
}

/// The first word alone decides: `--help` and `-h` ask for help and `--set` for the
/// settings, whatever follows; in every other case all the words make up the query.
pub proof fn first_word_decides(args: Seq<Seq<char>>, command: Command)
    requires
        asks_for(args, command),
    ensures
        command is Help <==> args.len() > 0 && (args[0] == seq!['-', '-', 'h', 'e', 'l', 'p']
            || args[0] == seq!['-', 'h']),
        command is Settings <==> args.len() > 0 && args[0] == seq!['-', '-', 's', 'e', 't'],
        command matches Command::Find(query) ==> query@ == spaced(args),
{
    reveal_strlit("--help");
    reveal_strlit("-h");
    reveal_strlit("--set");
    assert("--help"@ =~= seq!['-', '-', 'h', 'e', 'l', 'p']);
    assert("-h"@ =~= seq!['-', 'h']);
    assert("--set"@ =~= seq!['-', '-', 's', 'e', 't']);
    assert(seq!['-', '-', 'h', 'e', 'l', 'p'].len() == 6);
    assert(seq!['-', '-', 's', 'e', 't'].len() == 5);
    assert(seq!['-', 'h'].len() == 2);
}

/// A folder has the name that was typed exactly if its name has as many characters,
/// and wherever they differ it is by the case of a letter from `A` to `Z`.
pub proof fn names_may_differ_in_case_only(path: Seq<u8>, query: Seq<char>, name: Seq<char>)
    requires
        path::file_name(path) is Some,
        name == text::lossy_text(path::file_name(path)->0),
    ensures
        is_named(path, query) <==> name.len() == query.len() && forall|i: int|
            0 <= i < name.len() ==> {
                ||| #[trigger] name[i] == #[trigger] query[i]
                ||| 65 <= name[i] as u32 <= 90 && query[i] as u32 == name[i] as u32 + 32
                ||| 65 <= query[i] as u32 <= 90 && name[i] as u32 == query[i] as u32 + 32
            },
{
    text::case_is_all_that_may_differ(name, query);
}

/// A path without a name has no name that was typed.
pub proof fn nameless_paths_are_not_named(path: Seq<u8>, query: Seq<char>)
    requires
        path::file_name(path) is None,
    ensures
        !is_named(path, query),
        !is_named_ascii(path, query),
{
}

/// Where names are read as they should be, an ASCII path is named by its bytes, and a
/// name in UTF-8 is the text that it encodes.
pub proof fn names_are_read_as_spelled(paths: Seq<Seq<u8>>, query: Seq<char>, i: int)
    requires
        names_are_decoded(paths, query),
        0 <= i < paths.len(),
        path::file_name(paths[i]) is Some,
    ensures
        valid_utf8(path::file_name(paths[i])->0) ==> is_named(paths[i], query)
            == text::equal_ignoring_ascii_case(
            decode_utf8(path::file_name(paths[i])->0),
            query,
        ),
        (forall|k: int| 0 <= k < paths[i].len() ==> #[trigger] paths[i][k] <= 127) ==> is_named(
            paths[i],
            query,
        ) == text::equal_ignoring_ascii_case(
            text::ascii_text(path::file_name(paths[i])->0),
            query,
        ),
{
    assert(name_is_decoded(paths[i]));
    text::ascii_is_below_128(paths[i]);
}

/// The only one of its kind is found: if one place holds it and no other does, that is
/// the answer; if none does, or two do, there is no answer.
pub proof fn only_one_is_the_answer(
    found: Option<Seq<u8>>,
    paths: Seq<Seq<u8>>,
    named: spec_fn(Seq<u8>) -> bool,
    k: int,
)
    requires
        is_sole_match(found, paths, named),
    ensures
        0 <= k < paths.len() && named(paths[k]) && (forall|j: int|
            0 <= j < paths.len() && j != k ==> !named(#[trigger] paths[j])) ==> found == Some(
            paths[k],
        ),
        (forall|j: int| 0 <= j < paths.len() ==> !named(#[trigger] paths[j])) ==> found is None,
        (exists|i: int, j: int|
            0 <= i < j < paths.len() && named(#[trigger] paths[i]) && named(#[trigger] paths[j]))
            ==> found is None,
{
    if 0 <= k < paths.len() && named(paths[k]) && (forall|j: int|
        0 <= j < paths.len() && j != k ==> !named(#[trigger] paths[j])) {
        assert(is_only(paths[k], paths, named));
        if found is Some {
            let n = choose|n: int|
                {
                    &&& 0 <= n < paths.len()
                    &&& #[trigger] paths[n] == found->0
                    &&& named(found->0)
                    &&& forall|j: int| 0 <= j < paths.len() && named(#[trigger] paths[j]) ==> j == n
                };
            assert(named(paths[n]));
        }
    }
}

/// The only project of the name that was typed is opened, with or without a terminal.
pub proof fn only_project_of_that_name_is_opened(
    outcome: Outcome,
    query: Seq<char>,
    paths: Seq<Seq<u8>>,
    interactive: bool,
    k: int,
)
    requires
        is_outcome(outcome, query, paths, interactive),
        query.len() > 0,
        0 <= k < paths.len(),
        is_named(paths[k], query),
        forall|j: int| 0 <= j < paths.len() && j != k ==> !is_named(#[trigger] paths[j], query),
    ensures
        outcome matches Outcome::Open(path) && path.bytes@ == paths[k],
{
    let named = |p: Seq<u8>| is_named(p, query);
    assert forall|j: int| 0 <= j < paths.len() && j != k implies !named(#[trigger] paths[j]) by {
        assert(!is_named(paths[j], query));
    }
    assert(named(paths[k]));
    assert(is_only(paths[k], paths, named));
    if outcome is Open {
        let path = outcome->Open_0@;
        assert(is_sole_match(Some(path), paths, named));
        only_one_is_the_answer(Some(path), paths, named, k);
    } else {
        assert(is_sole_match(None, paths, named));
        only_one_is_the_answer(None, paths, named, k);
    }
}

/// Where no folder, or more than one, has the name that was typed, none is opened
/// unasked: the picker is shown if there is a terminal, and else the folder that
/// matches best is printed, if any does.
pub proof fn picker_is_shown_where_names_leave_it_open(
    outcome: Outcome,
    query: Seq<char>,
    paths: Seq<Seq<u8>>,
    interactive: bool,
)
    requires
        is_outcome(outcome, query, paths, interactive),
        query.len() > 0,
        (forall|j: int| 0 <= j < paths.len() ==> !is_named(#[trigger] paths[j], query)) || (exists|
            i: int,
            j: int,
        |
            0 <= i < j < paths.len() && is_named(#[trigger] paths[i], query) && is_named(
                #[trigger] paths[j],
                query,
            )),
    ensures
        interactive ==> outcome is Pick,
        !interactive ==> outcome is Print && rank::is_best(
            match outcome->Print_0 {
                Some(path) => Some(path.bytes@),
                None => None,
            },
            paths,
            rank::query_score(query),
        ),
{
    let named = |p: Seq<u8>| is_named(p, query);
    if outcome is Open {
        let path = outcome->Open_0@;
        assert(is_sole_match(Some(path), paths, named));
        only_one_is_the_answer(Some(path), paths, named, 0);
        if forall|j: int| 0 <= j < paths.len() ==> !is_named(#[trigger] paths[j], query) {
            assert forall|j: int| 0 <= j < paths.len() implies !named(#[trigger] paths[j]) by {
                assert(!is_named(paths[j], query));
            }
        } else {
            let (i, j) = choose|i: int, j: int|
                0 <= i < j < paths.len() && is_named(#[trigger] paths[i], query) && is_named(
                    #[trigger] paths[j],
                    query,
                );
            assert(named(paths[i]) && named(paths[j]));
        }
    }
}

/// Where nothing was typed, the picker is shown if there is a terminal, and nothing is
/// done if there is none.
pub proof fn nothing_typed_opens_the_picker(
    outcome: Outcome,
    paths: Seq<Seq<u8>>,
    interactive: bool,
)
    requires
        is_outcome(outcome, Seq::empty(), paths, interactive),
    ensures
        interactive ==> outcome is Pick,
        !interactive ==> outcome is Nothing,
{
}

/// What stands for the arguments are their characters, place by place, and for a folder
/// that was found its bytes.
pub proof fn arguments_are_read_in_place(args: Seq<String>, found: Option<ProjectPath>)
    ensures
        arg_views(args).len() == args.len(),
        forall|i: int| 0 <= i < args.len() ==> #[trigger] arg_views(args)[i] == args[i]@,
        found is None ==> found_view(found) is None,
        found is Some ==> found_view(found) == Some(found->0.bytes@),
{
}

/// All paths are ASCII exactly if no byte of any is above 127.
pub proof fn ascii_paths_are_below_128(paths: Seq<Seq<u8>>)
    ensures
        all_ascii(paths) <==> forall|i: int, k: int|
            0 <= i < paths.len() && 0 <= k < paths[i].len() ==> #[trigger] paths[i][k] <= 127,
{
    if forall|i: int, k: int|
        0 <= i < paths.len() && 0 <= k < paths[i].len() ==> #[trigger] paths[i][k] <= 127 {
        assert forall|i: int| 0 <= i < paths.len() implies text::ascii_bytes(
            #[trigger] paths[i],
        ) by {
            text::ascii_is_below_128(paths[i]);
        }
    }
    if all_ascii(paths) {
        assert forall|i: int, k: int|
            0 <= i < paths.len() && 0 <= k < paths[i].len() implies #[trigger] paths[i][k]
            <= 127 by {
            assert(text::ascii_bytes(paths[i]));
        }
    }
}

/// A project is handed on as its path, as it is, in a line of its own; read back, the
/// line without its end encodes the very bytes of a path in UTF-8.
pub proof fn path_is_handed_on_as_it_is(line: Seq<char>, path: Seq<u8>)
    requires
        hands_on(line, path),
    ensures
        line.len() > 0,
        line[line.len() - 1] == '\n',
        line.take(line.len() - 1) == text::lossy_text(path),
        valid_utf8(path) ==> encode_utf8(line.take(line.len() - 1)) == path,
{
    assert(line.take(line.len() - 1) =~= text::lossy_text(path));
    if valid_utf8(path) {
        assert(line.take(line.len() - 1) =~= decode_utf8(path));
        decode_utf8_encode_utf8(path);
    }
}

} // verus!
