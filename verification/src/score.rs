//! How well a path matches what was typed.

use vstd::prelude::*;
use vstd::utf8::*;
use crate::path;
use crate::path::ProjectPath;
use crate::text;
use crate::text::{chars_of, is_white_space, same_chars};

verus! {

/// The score of a folder whose name is what was typed.
pub const EXACT: i128 = 10_000;

/// The score, less its length, of a folder whose name starts with what was typed.
pub const PREFIX: i128 = 8_000;

/// The score, less its length, of a folder whose name holds what was typed.
pub const INSIDE: i128 = 6_000;

/// The points for a letter that is found at the start of a word.
pub const WORD_START: i128 = 20;

/// The points for a letter that is found elsewhere.
pub const WITHIN_WORD: i128 = 5;

/// Whether a word starts at `at`: at the start of the text, or after white space
/// or one of `/`, `-` and `_`.
pub open spec fn starts_word(text: Seq<char>, at: int) -> bool {
    ||| at == 0
    ||| text::white_space(text[at - 1])
    ||| text[at - 1] == '/'
    ||| text[at - 1] == '-'
    ||| text[at - 1] == '_'
}

/// The points for a letter that is found at `at`.
pub open spec fn points(text: Seq<char>, at: int) -> int {
    if starts_word(text, at) {
        WORD_START as int
    } else {
        WITHIN_WORD as int
    }
}

/// The first place from `from` on where `text` holds `c`; its end if there is none.
pub open spec fn next_place(text: Seq<char>, c: char, from: int) -> int
    decreases text.len() - from,
{
    if from >= text.len() {
        text.len() as int
    } else if text[from] == c {
        from
    } else {
        next_place(text, c, from + 1)
    }
}

/// The points for finding the letters of `query` one after the other in `text`,
/// each at the first place after the one before, starting at `from`; `None` if
/// one of them is not found.
pub open spec fn letter_points(text: Seq<char>, query: Seq<char>, from: int) -> Option<int>
    decreases query.len(),
{
    if query.len() == 0 {
        Some(0)
    } else {
        let at = next_place(text, query[0], from);
        if at >= text.len() {
            None
        } else {
            match letter_points(text, query.drop_first(), at + 1) {
                Some(rest) => Some(points(text, at) + rest),
                None => None,
            }
        }
    }
}

/// Whether `text` holds `part` from `at` on.
pub open spec fn holds_at(text: Seq<char>, part: Seq<char>, at: int) -> bool {
    &&& 0 <= at
    &&& at + part.len() <= text.len()
    &&& text.subrange(at, at + part.len()) == part
}

/// Whether `text` holds `part` somewhere.
pub open spec fn holds(text: Seq<char>, part: Seq<char>) -> bool {
    exists|at: int| holds_at(text, part, at)
}

/// The length of `text` in UTF-8.
pub open spec fn byte_len(text: Seq<char>) -> int {
    encode_utf8(text).len() as int
}

/// The score of a folder, given its path and its name as text; `None` if it does
/// not match `query`.
pub open spec fn text_score(text: Seq<char>, name: Seq<char>, query: Seq<char>) -> Option<int> {
    if name == query {
        Some(EXACT as int)
    } else if query.is_prefix_of(name) {
        Some(PREFIX - byte_len(name))
    } else if holds(name, query) {
        Some(INSIDE - byte_len(name))
    } else {
        match letter_points(text, query, 0) {
            Some(sum) => Some(sum - byte_len(text) / 10),
            None => None,
        }
    }
}

/// The score of a path for a query in lower case; `None` if it does not match.
pub open spec fn path_score(path: Seq<u8>, query: Seq<char>) -> Option<int> {
    if query.len() == 0 {
        Some(0)
    } else {
        match path::file_name(path) {
            Some(name) => text_score(
                text::lowercase(text::lossy_text(path)),
                text::lowercase(text::lossy_text(name)),
                query,
            ),
            None => None,
        }
    }
}

/// The score of a path of ASCII characters, for a query in lower case.
pub open spec fn ascii_path_score(path: Seq<u8>, query: Seq<char>) -> Option<int> {
    if query.len() == 0 {
        Some(0)
    } else {
        match path::file_name(path) {
            Some(name) => text_score(
                text::ascii_lowercase(text::ascii_text(path)),
                text::ascii_lowercase(text::ascii_text(name)),
                query,
            ),
            None => None,
        }
    }
}

/// A score as a number.
pub open spec fn as_number(score: Option<i128>) -> Option<int> {
    match score {
        Some(n) => Some(n as int),
        None => None,
    }
}

/// Whether `text` holds `part` from `at` on.
fn is_at(text: &Vec<char>, part: &Vec<char>, at: usize) -> (r: bool)
    requires
        at + part.len() <= text.len(),
    ensures
        r == holds_at(text@, part@, at as int),
{
    let mut i: usize = 0;
    while i < part.len()
        invariant
            i <= part.len(),
            at + part.len() <= text.len(),
            forall|k: int| 0 <= k < i ==> text@[at + k] == part@[k],
        decreases part.len() - i,
    {
        if text[at + i] != part[i] {
            assert(text@.subrange(at as int, at + part@.len())[i as int] != part@[i as int]);
            return false;
        }
        i += 1;
    }
    assert(text@.subrange(at as int, at + part@.len()) =~= part@);
    true
}

/// Whether `text` holds `part` somewhere.
fn is_inside(text: &Vec<char>, part: &Vec<char>) -> (r: bool)
    ensures
        r == holds(text@, part@),
{
    if part.len() > text.len() {
        return false;
    }
    let mut at: usize = 0;
    while at <= text.len() - part.len()
        invariant
            part.len() <= text.len(),
            at <= text.len() - part.len() + 1,
            forall|k: int| 0 <= k < at ==> !holds_at(text@, part@, k),
        decreases text.len() - part.len() + 1 - at,
    {
        if is_at(text, part, at) {
            return true;
        }
        if at == text.len() - part.len() {
            return false;
        }
        at += 1;
    }
    false
}

/// Whether a word starts at `at`.
fn word_starts(text: &Vec<char>, at: usize) -> (r: bool)
    requires
        at < text.len(),
    ensures
        r == starts_word(text@, at as int),
{
    if at == 0 {
        return true;
    }
    let c = text[at - 1];
    is_white_space(c) || c == '/' || c == '-' || c == '_'
}

/// The first place from `from` on where `text` holds `c`, if any.
fn find_from(text: &Vec<char>, c: char, from: usize) -> (r: Option<usize>)
    requires
        from <= text.len(),
    ensures
        r is None <==> next_place(text@, c, from as int) == text.len(),
        r matches Some(at) ==> at == next_place(text@, c, from as int) && from <= at < text.len(),
{
    let mut at: usize = from;
    while at < text.len()
        invariant
            from <= at <= text.len(),
            next_place(text@, c, from as int) == next_place(text@, c, at as int),
        decreases text.len() - at,
    {
        if text[at] == c {
            return Some(at);
        }
        at += 1;
    }
    None
}

/// The points for finding the letters of `query` one after the other in `text`.
fn find_letters(text: &Vec<char>, query: &Vec<char>) -> (r: Option<i128>)
    ensures
        as_number(r) == letter_points(text@, query@, 0),
        r matches Some(sum) ==> 0 <= sum <= 20 * query.len(),
{
    let mut sum: i128 = 0;
    let mut from: usize = 0;
    let mut i: usize = 0;
    proof {
        assert(query@.skip(0) =~= query@);
    }
    while i < query.len()
        invariant
            i <= query.len(),
            from <= text.len(),
            0 <= sum <= 20 * i,
            letter_points(text@, query@, 0) == (match letter_points(
                text@,
                query@.skip(i as int),
                from as int,
            ) {
                Some(rest) => Some(sum + rest),
                None => None::<int>,
            }),
        decreases query.len() - i,
    {
        proof {
            assert(query@.skip(i as int)[0] == query@[i as int]);
            assert(query@.skip(i as int).drop_first() =~= query@.skip(i + 1));
        }
        match find_from(text, query[i], from) {
            None => {
                return None;
            },
            Some(at) => {
                sum = sum + if word_starts(text, at) {
                    WORD_START
                } else {
                    WITHIN_WORD
                };
                from = at + 1;
            },
        }
        i += 1;
    }
    assert(query@.skip(i as int).len() == 0);
    Some(sum)
}

/// The score of a folder, given its path and its name as text.
pub fn score_text(text: &str, name: &str, query: &str) -> (r: Option<i128>)
    ensures
        as_number(r) == text_score(text@, name@, query@),
{
    let name_chars = chars_of(name);
    let query_chars = chars_of(query);
    let name_len: usize = name.as_bytes().len();
    if same_chars(name_chars.as_slice(), query_chars.as_slice()) {
        return Some(EXACT);
    }
    if query_chars.len() <= name_chars.len() && is_at(&name_chars, &query_chars, 0) {
        assert(query@.is_prefix_of(name@));
        return Some(PREFIX - name_len as i128);
    }
    assert(query@.is_prefix_of(name@) ==> holds_at(name@, query@, 0));
    if is_inside(&name_chars, &query_chars) {
        return Some(INSIDE - name_len as i128);
    }
    let text_chars = chars_of(text);
    let text_len: usize = text.as_bytes().len();
    match find_letters(&text_chars, &query_chars) {
        Some(sum) => Some(sum - (text_len / 10) as i128),
        None => None,
    }
}

/// The score of a path for a query in lower case; `None` if it does not match.
pub fn fuzzy_score(path: &ProjectPath, query: &str) -> (r: Option<i128>)
    ensures
        as_number(r) == path_score(path@, query@),
        text::ascii_bytes(path@) ==> as_number(r) == ascii_path_score(path@, query@),
{
    if query.is_empty() {
        return Some(0);
    }
    match path.file_name() {
        Some(name) => {
            proof {
                if text::ascii_bytes(path@) {
                    path::file_name_is_part_of_path(path@);
                    text::ascii_bytes_decode(path@);
                    text::ascii_bytes_decode(name@);
                }
            }
            let text = text::to_lower(path.display().as_str());
            let name = text::to_lower(text::to_text(name.as_slice()).as_str());
            score_text(text.as_str(), name.as_str(), query)
        },
        None => None,
    }
}

/// Whether the letters of `query` stand in `text` at `places`, in that order, from
/// `from` on.
pub open spec fn stand_at(text: Seq<char>, query: Seq<char>, from: int, places: Seq<int>) -> bool {
    &&& places.len() == query.len()
    &&& forall|i: int|
        0 <= i < places.len() ==> from <= #[trigger] places[i] < text.len() && text[places[i]]
            == query[i]
    &&& forall|i: int, j: int| 0 <= i < j < places.len() ==> places[i] < places[j]
}

/// Whether the letters of `query` stand in `text` one after the other, with
/// anything between them, from `from` on.
pub open spec fn spread_over(text: Seq<char>, query: Seq<char>, from: int) -> bool {
    exists|places: Seq<int>| stand_at(text, query, from, places)
}

proof fn lemma_next_place(text: Seq<char>, c: char, from: int)
    requires
        0 <= from,
    ensures
        next_place(text, c, from) < text.len() ==> from <= next_place(text, c, from) && text[next_place(
            text,
            c,
            from,
        )] == c,
        next_place(text, c, from) <= text.len(),
        forall|k: int| from <= k < text.len() && #[trigger] text[k] == c ==> next_place(text, c, from)
            <= k,
    decreases text.len() - from,
{
    if from < text.len() && text[from] != c {
        lemma_next_place(text, c, from + 1);
    }
}

/// Taking each letter at the first place that is left finds all the letters of a
/// query exactly if they stand in the text in that order at all.
pub proof fn letters_are_found_if_spread_over(text: Seq<char>, query: Seq<char>, from: int)
    requires
        0 <= from,
    ensures
        letter_points(text, query, from) is Some <==> spread_over(text, query, from),
    decreases query.len(),
{
    if query.len() == 0 {
        assert(stand_at(text, query, from, Seq::empty()));
    } else {
        let at = next_place(text, query[0], from);
        let rest = query.drop_first();
        lemma_next_place(text, query[0], from);
        if spread_over(text, query, from) {
            let places = choose|places: Seq<int>| stand_at(text, query, from, places);
            assert(at <= places[0]);
            let tail = places.drop_first();
            assert forall|i: int| 0 <= i < tail.len() implies at + 1 <= #[trigger] tail[i]
                < text.len() && text[tail[i]] == rest[i] by {
                assert(places[0] < places[i + 1]);
            }
            assert(stand_at(text, rest, at + 1, tail));
            letters_are_found_if_spread_over(text, rest, at + 1);
        }
        if letter_points(text, query, from) is Some {
            letters_are_found_if_spread_over(text, rest, at + 1);
            let after = at + 1;
            let tail = choose|places: Seq<int>| stand_at(text, rest, after, places);
            let places = seq![at] + tail;
            assert forall|i: int| 0 <= i < places.len() implies from <= #[trigger] places[i]
                < text.len() && text[places[i]] == query[i] by {
                if i > 0 {
                    assert(places[i] == tail[i - 1]);
                    assert(query[i] == rest[i - 1]);
                }
            }
            assert forall|i: int, j: int| 0 <= i < j < places.len() implies places[i]
                < places[j] by {
                assert(places[j] == tail[j - 1]);
                if i > 0 {
                    assert(places[i] == tail[i - 1]);
                }
            }
            assert(stand_at(text, query, from, places));
        }
    }
}

/// A query that leaves out letters of one whose letters stand in the text in that
/// order still finds its own letters there.
pub proof fn leaving_letters_out_still_matches(
    text: Seq<char>,
    query: Seq<char>,
    shorter: Seq<char>,
)
    requires
        letter_points(text, query, 0) is Some,
        spread_over(query, shorter, 0),
    ensures
        letter_points(text, shorter, 0) is Some,
{
    letters_are_found_if_spread_over(text, query, 0);
    letters_are_found_if_spread_over(text, shorter, 0);
    let outer = choose|places: Seq<int>| stand_at(text, query, 0, places);
    let inner = choose|places: Seq<int>| stand_at(query, shorter, 0, places);
    let places = Seq::new(inner.len(), |i: int| outer[inner[i]]);
    assert(stand_at(text, shorter, 0, places));
}

proof fn lemma_letter_points_bound(text: Seq<char>, query: Seq<char>, from: int)
    requires
        0 <= from <= text.len(),
    ensures
        letter_points(text, query, from) matches Some(sum) ==> 0 <= sum <= 20 * query.len()
            && query.len() <= text.len() - from,
    decreases query.len(),
{
    if query.len() > 0 {
        let at = next_place(text, query[0], from);
        lemma_next_place(text, query[0], from);
        if at < text.len() {
            lemma_letter_points_bound(text, query.drop_first(), at + 1);
        }
    }
}

/// No folder scores higher than one whose name is what was typed, and no other
/// folder scores as high, as long as the query is not so long that the points for
/// its letters alone add up to that.
pub proof fn exact_name_scores_highest(text: Seq<char>, name: Seq<char>, query: Seq<char>)
    requires
        WORD_START * query.len() - query.len() as int / 10 < EXACT,
    ensures
        text_score(text, query, query) == Some(EXACT as int),
        name != query ==> (text_score(text, name, query) matches Some(score) ==> score < EXACT),
{
    lemma_letter_points_bound(text, query, 0);
    text::utf8_is_not_shorter(text);
    assert(query.len() <= byte_len(text) ==> query.len() as int / 10 <= byte_len(text) / 10);
}

/// Whatever the lengths, a name that is what was typed scores higher than one that
/// only holds it.
pub proof fn exact_name_beats_partial_name(
    text: Seq<char>,
    name: Seq<char>,
    query: Seq<char>,
)
    requires
        name != query,
        query.is_prefix_of(name) || holds(name, query),
    ensures
        text_score(text, name, query) matches Some(score) && score < EXACT,
{
}

/// A name that starts with what was typed scores higher than one that holds it
/// further on, unless it is longer by as much as the two scores lie apart.
pub proof fn leading_match_beats_inner_match(
    text: Seq<char>,
    name: Seq<char>,
    other_text: Seq<char>,
    other: Seq<char>,
    query: Seq<char>,
)
    requires
        query.is_prefix_of(name),
        !query.is_prefix_of(other),
        holds(other, query),
        byte_len(name) - byte_len(other) < PREFIX - INSIDE,
    ensures
        text_score(text, name, query) is Some,
        text_score(other_text, other, query) is Some,
        text_score(text, name, query)->0 > text_score(other_text, other, query)->0,
{
    assert(other == query ==> query.is_prefix_of(other));
}

/// A path of ASCII characters still matches when letters of its name are left out
/// of the query, or none are.
pub proof fn name_with_letters_left_out_matches(path: Seq<u8>, query: Seq<char>)
    requires
        path::file_name(path) matches Some(name) && spread_over(
            text::ascii_lowercase(text::ascii_text(name)),
            query,
            0,
        ),
    ensures
        ascii_path_score(path, query) is Some,
{
    let name = path::file_name(path)->0;
    let at = path::path_holds_file_name(path);
    let text = text::ascii_lowercase(text::ascii_text(path));
    let name_text = text::ascii_lowercase(text::ascii_text(name));
    let inner = choose|places: Seq<int>| stand_at(name_text, query, 0, places);
    let places = Seq::new(inner.len(), |i: int| at + inner[i]);
    assert forall|i: int| 0 <= i < places.len() implies 0 <= #[trigger] places[i] < text.len()
        && text[places[i]] == query[i] by {
        let k = inner[i];
        assert(0 <= k < name_text.len() && name_text[k] == query[i]);
        assert(path.subrange(at, at + name.len())[k] == name[k]);
    }
    assert(stand_at(text, query, 0, places));
    letters_are_found_if_spread_over(text, query, 0);
}

/// Typing on only narrows the choice: what matches a query matches it without its
/// last letter too.
pub proof fn typing_on_only_narrows(
    text: Seq<char>,
    name: Seq<char>,
    query: Seq<char>,
    c: char,
)
    requires
        text_score(text, name, query.push(c)) is Some,
    ensures
        text_score(text, name, query) is Some,
{
    let longer = query.push(c);
    if longer.is_prefix_of(name) || name == longer {
        assert(query.is_prefix_of(name)) by {
            assert(query =~= name.subrange(0, query.len() as int));
        }
    } else if holds(name, longer) {
        let at = choose|at: int| holds_at(name, longer, at);
        assert(name.subrange(at, at + query.len()) =~= query) by {
            assert forall|i: int| 0 <= i < query.len() implies name.subrange(
                at,
                at + query.len(),
            )[i] == query[i] by {
                assert(name.subrange(at, at + longer.len())[i] == longer[i]);
            }
        }
        assert(holds_at(name, query, at));
    } else {
        letters_are_found_if_spread_over(text, longer, 0);
        let places = choose|places: Seq<int>| stand_at(text, longer, 0, places);
        let fewer = places.drop_last();
        assert forall|i: int| 0 <= i < fewer.len() implies 0 <= #[trigger] fewer[i] < text.len()
            && text[fewer[i]] == query[i] by {
            assert(text[places[i]] == longer[i]);
        }
        assert(stand_at(text, query, 0, fewer));
        letters_are_found_if_spread_over(text, query, 0);
    }
}

/// Typing on only narrows the choice of paths.
pub proof fn typing_on_only_narrows_paths(path: Seq<u8>, query: Seq<char>, c: char)
    ensures
        path_score(path, query.push(c)) is Some ==> path_score(path, query) is Some,
        ascii_path_score(path, query.push(c)) is Some ==> ascii_path_score(path, query) is Some,
{
    if path::file_name(path) is Some {
        let name = path::file_name(path)->0;
        if path_score(path, query.push(c)) is Some {
            typing_on_only_narrows(
                text::lowercase(text::lossy_text(path)),
                text::lowercase(text::lossy_text(name)),
                query,
                c,
            );
        }
        if ascii_path_score(path, query.push(c)) is Some {
            typing_on_only_narrows(
                text::ascii_lowercase(text::ascii_text(path)),
                text::ascii_lowercase(text::ascii_text(name)),
                query,
                c,
            );
        }
    }
}

/// A folder whose name is what was typed scores ten thousand.
pub proof fn exact_name_scores_ten_thousand(text: Seq<char>, query: Seq<char>)
    ensures
        text_score(text, query, query) == Some(10_000int),
{
}

/// A name that starts with what was typed, and goes on, scores eight thousand less one
/// for each byte of it; so of two such names the one that takes fewer bytes scores
/// higher, by as many points as it takes bytes less.
pub proof fn leading_match_loses_a_point_per_byte(
    text: Seq<char>,
    name: Seq<char>,
    other_text: Seq<char>,
    other: Seq<char>,
    query: Seq<char>,
)
    requires
        query.is_prefix_of(name),
        name != query,
        query.is_prefix_of(other),
        other != query,
    ensures
        text_score(text, name, query) is Some,
        text_score(other_text, other, query) is Some,
        text_score(text, name, query)->0 + encode_utf8(name).len() == 8_000,
        text_score(text, name, query)->0 - text_score(other_text, other, query)->0 == encode_utf8(
            other,
        ).len() - encode_utf8(name).len(),
        encode_utf8(name).len() < encode_utf8(other).len() ==> text_score(text, name, query)->0
            > text_score(other_text, other, query)->0,
{
}

/// A name that holds what was typed further on scores six thousand less one for each
/// byte of it, whatever stands before and behind; so of two such names the one that
/// takes fewer bytes scores higher.
pub proof fn inner_match_loses_a_point_per_byte(
    text: Seq<char>,
    before: Seq<char>,
    query: Seq<char>,
    after: Seq<char>,
)
    requires
        !query.is_prefix_of(before + query + after),
    ensures
        text_score(text, before + query + after, query) is Some,
        text_score(text, before + query + after, query)->0 + encode_utf8(
            before + query + after,
        ).len() == 6_000,
{
    let name = before + query + after;
    let at = before.len() as int;
    assert(name.subrange(at, at + query.len()) =~= query);
    assert(holds_at(name, query, at));
    assert(name == query ==> query.is_prefix_of(name));
}

/// The points at `places`, one after the other: twenty for a letter at the start of
/// the text or behind white space, a slash, a hyphen or an underscore, else five.
spec fn points_so_far(text: Seq<char>, places: Seq<int>) -> int {
    places.fold_left(
        0int,
        |sum: int, at: int|
            sum + if at == 0 || text::white_space(text[at - 1]) || text[at - 1] == '/' || text[at
                - 1] == '-' || text[at - 1] == '_' {
                20int
            } else {
                5int
            },
    )
}

proof fn lemma_points_so_far(text: Seq<char>, places: Seq<int>, n: int)
    requires
        0 <= n < places.len(),
    ensures
        points_so_far(text, places.take(n + 1)) == points_so_far(text, places.take(n)) + points(
            text,
            places[n],
        ),
{
    let longer = places.take(n + 1);
    assert(longer.drop_last() =~= places.take(n));
    assert(longer.last() == places[n]);
}

proof fn lemma_leftmost_points(text: Seq<char>, query: Seq<char>, places: Seq<int>, n: int)
    requires
        places.len() == query.len(),
        0 <= n <= places.len(),
        forall|i: int|
            0 <= i < places.len() ==> 0 <= #[trigger] places[i] < text.len() && text[places[i]]
                == query[i],
        forall|i: int, j: int| 0 <= i < j < places.len() ==> places[i] < places[j],
        forall|i: int, k: int|
            0 <= i < places.len() && 0 <= k < places[i] && (i == 0 || places[i - 1] < k)
                ==> #[trigger] text[k] != #[trigger] query[i],
    ensures
        letter_points(
            text,
            query.skip(n),
            if n == 0 {
                0
            } else {
                places[n - 1] + 1
            },
        ) == Some(points_so_far(text, places) - points_so_far(text, places.take(n))),
    decreases places.len() - n,
{
    let from = if n == 0 {
        0
    } else {
        places[n - 1] + 1
    };
    if n == places.len() {
        assert(places.take(n) =~= places);
        assert(query.skip(n).len() == 0);
    } else {
        lemma_leftmost_points(text, query, places, n + 1);
        lemma_points_so_far(text, places, n);
        let rest = query.skip(n);
        assert(rest[0] == query[n]);
        assert(rest.drop_first() =~= query.skip(n + 1));
        assert(n == 0 || places[n - 1] < places[n]);
        lemma_next_place(text, query[n], from);
        let at = next_place(text, query[n], from);
        assert(at <= places[n]);
        if at < places[n] {
            assert(text[at] != query[n]);
        }
    }
}

/// Where the name does not hold what was typed, its letters are looked for in the
/// path, each at the first place behind the one before. A letter at the start of the
/// path or behind white space, a slash, a hyphen or an underscore counts twenty, any
/// other five, and one is taken off for every ten bytes of the path.
pub proof fn scattered_letters_score(
    text: Seq<char>,
    name: Seq<char>,
    query: Seq<char>,
    places: Seq<int>,
)
    requires
        forall|at: int| 0 <= at <= name.len() ==> !query.is_prefix_of(#[trigger] name.skip(at)),
        places.len() == query.len(),
        forall|i: int|
            0 <= i < places.len() ==> 0 <= #[trigger] places[i] < text.len() && text[places[i]]
                == query[i],
        forall|i: int, j: int| 0 <= i < j < places.len() ==> places[i] < places[j],
        forall|i: int, k: int|
            0 <= i < places.len() && 0 <= k < places[i] && (i == 0 || places[i - 1] < k)
                ==> #[trigger] text[k] != #[trigger] query[i],
    ensures
        text_score(text, name, query) == Some(
            places.fold_left(
                0int,
                |sum: int, at: int|
                    sum + if at == 0 || text::white_space(text[at - 1]) || text[at - 1] == '/'
                        || text[at - 1] == '-' || text[at - 1] == '_' {
                        20int
                    } else {
                        5int
                    },
            ) - encode_utf8(text).len() as int / 10,
        ),
{
    lemma_not_held(name, query);
    lemma_leftmost_points(text, query, places, 0);
    assert(query.skip(0) =~= query);
    assert(places.take(0) =~= Seq::<int>::empty());
    assert(points_so_far(text, places.take(0)) == 0);
    assert(points_so_far(text, places) == places.fold_left(
        0int,
        |sum: int, at: int|
            sum + if at == 0 || text::white_space(text[at - 1]) || text[at - 1] == '/' || text[at
                - 1] == '-' || text[at - 1] == '_' {
                20int
            } else {
                5int
            },
    ));
}

proof fn lemma_not_held(name: Seq<char>, query: Seq<char>)
    requires
        forall|at: int| 0 <= at <= name.len() ==> !query.is_prefix_of(#[trigger] name.skip(at)),
    ensures
        name != query,
        !query.is_prefix_of(name),
        !holds(name, query),
{
    assert(name.skip(0) =~= name);
    assert(!query.is_prefix_of(name.skip(0)));
    assert(name == query ==> query.is_prefix_of(name));
    if holds(name, query) {
        let at = choose|at: int| holds_at(name, query, at);
        assert(name.skip(at).subrange(0, query.len() as int) =~= name.subrange(
            at,
            at + query.len(),
        ));
        assert(query.is_prefix_of(name.skip(at)));
    }
}

/// Where the name does not hold what was typed, a folder matches exactly if the
/// letters stand somewhere in the path in that order, with anything between them.
pub proof fn scattered_letters_match_in_order(
    text: Seq<char>,
    name: Seq<char>,
    query: Seq<char>,
)
    requires
        forall|at: int| 0 <= at <= name.len() ==> !query.is_prefix_of(#[trigger] name.skip(at)),
    ensures
        text_score(text, name, query) is Some <==> exists|places: Seq<int>|
            {
                &&& #[trigger] places.len() == query.len()
                &&& forall|i: int|
                    0 <= i < places.len() ==> 0 <= #[trigger] places[i] < text.len()
                        && text[places[i]] == query[i]
                &&& forall|i: int, j: int| 0 <= i < j < places.len() ==> places[i] < places[j]
            },
{
    lemma_not_held(name, query);
    letters_are_found_if_spread_over(text, query, 0);
    if text_score(text, name, query) is Some {
        let places = choose|places: Seq<int>| stand_at(text, query, 0, places);
        assert(places.len() == query.len());
    }
    if exists|places: Seq<int>|
        {
            &&& #[trigger] places.len() == query.len()
            &&& forall|i: int|
                0 <= i < places.len() ==> 0 <= #[trigger] places[i] < text.len()
                    && text[places[i]] == query[i]
            &&& forall|i: int, j: int| 0 <= i < j < places.len() ==> places[i] < places[j]
        } {
        let places = choose|places: Seq<int>|
            {
                &&& #[trigger] places.len() == query.len()
                &&& forall|i: int|
                    0 <= i < places.len() ==> 0 <= #[trigger] places[i] < text.len()
                        && text[places[i]] == query[i]
                &&& forall|i: int, j: int| 0 <= i < j < places.len() ==> places[i] < places[j]
            };
        assert(stand_at(text, query, 0, places));
    }
}

/// Where nothing was typed every path scores zero, also one without a name; where
/// something was, a path without a name does not match.
pub proof fn nothing_typed_scores_zero(path: Seq<u8>, query: Seq<char>)
    ensures
        query.len() == 0 ==> path_score(path, query) == Some(0int) && ascii_path_score(path, query)
            == Some(0int),
        query.len() > 0 && path::file_name(path) is None ==> path_score(path, query) is None
            && ascii_path_score(path, query) is None,
{
}

/// The name of a path, in lower case, decides on its score: ten thousand if it is what
/// was typed, eight thousand less its bytes if it starts with that, six thousand less
/// its bytes if it holds it further on. Else the score is that of any folder at that
/// path whose name does not hold it.
pub proof fn name_decides_on_the_score(
    path: Seq<u8>,
    name: Seq<char>,
    query: Seq<char>,
    other: Seq<char>,
    at: int,
)
    requires
        query.len() > 0,
        path::file_name(path) is Some,
        name == text::lowercase(text::lossy_text(path::file_name(path)->0)),
    ensures
        name == query ==> path_score(path, query) == Some(10_000int),
        name != query && query.is_prefix_of(name) ==> path_score(path, query) == Some(
            8_000 - encode_utf8(name).len(),
        ),
        !query.is_prefix_of(name) && 0 <= at <= name.len() && query.is_prefix_of(name.skip(at))
            ==> path_score(path, query) == Some(6_000 - encode_utf8(name).len()),
        (forall|k: int| 0 <= k <= name.len() ==> !query.is_prefix_of(#[trigger] name.skip(k))) && (
        forall|k: int| 0 <= k <= other.len() ==> !query.is_prefix_of(#[trigger] other.skip(k)))
            ==> path_score(path, query) == text_score(
            text::lowercase(text::lossy_text(path)),
            other,
            query,
        ),
{
    if !query.is_prefix_of(name) && 0 <= at <= name.len() && query.is_prefix_of(name.skip(at)) {
        let after = name.skip(at).skip(query.len() as int);
        assert(name =~= name.take(at) + query + after) by {
            assert(name.skip(at) =~= query + after);
        }
        inner_match_loses_a_point_per_byte(
            text::lowercase(text::lossy_text(path)),
            name.take(at),
            query,
            after,
        );
    }
    if forall|k: int| 0 <= k <= name.len() ==> !query.is_prefix_of(#[trigger] name.skip(k)) {
        lemma_not_held(name, query);
    }
    if forall|k: int| 0 <= k <= other.len() ==> !query.is_prefix_of(#[trigger] other.skip(k)) {
        lemma_not_held(other, query);
    }
}

/// The same of a path of ASCII characters, with capitals turned into small letters.
pub proof fn ascii_name_decides_on_the_score(
    path: Seq<u8>,
    name: Seq<char>,
    query: Seq<char>,
    other: Seq<char>,
    at: int,
)
    requires
        query.len() > 0,
        path::file_name(path) is Some,
        name == text::ascii_lowercase(text::ascii_text(path::file_name(path)->0)),
    ensures
        name == query ==> ascii_path_score(path, query) == Some(10_000int),
        name != query && query.is_prefix_of(name) ==> ascii_path_score(path, query) == Some(
            8_000 - encode_utf8(name).len(),
        ),
        !query.is_prefix_of(name) && 0 <= at <= name.len() && query.is_prefix_of(name.skip(at))
            ==> ascii_path_score(path, query) == Some(6_000 - encode_utf8(name).len()),
        (forall|k: int| 0 <= k <= name.len() ==> !query.is_prefix_of(#[trigger] name.skip(k))) && (
        forall|k: int| 0 <= k <= other.len() ==> !query.is_prefix_of(#[trigger] other.skip(k)))
            ==> ascii_path_score(path, query) == text_score(
            text::ascii_lowercase(text::ascii_text(path)),
            other,
            query,
        ),
{
    if !query.is_prefix_of(name) && 0 <= at <= name.len() && query.is_prefix_of(name.skip(at)) {
        let after = name.skip(at).skip(query.len() as int);
        assert(name =~= name.take(at) + query + after) by {
            assert(name.skip(at) =~= query + after);
        }
        inner_match_loses_a_point_per_byte(
            text::ascii_lowercase(text::ascii_text(path)),
            name.take(at),
            query,
            after,
        );
    }
    if forall|k: int| 0 <= k <= name.len() ==> !query.is_prefix_of(#[trigger] name.skip(k)) {
        lemma_not_held(name, query);
    }
    if forall|k: int| 0 <= k <= other.len() ==> !query.is_prefix_of(#[trigger] other.skip(k)) {
        lemma_not_held(other, query);
    }
}

/// A score stands for its own number.
pub proof fn scores_are_plain_numbers(score: Option<i128>)
    ensures
        as_number(score) is None <==> score is None,
        score is Some ==> as_number(score)->0 == score->0,
{
}

} // verus!
