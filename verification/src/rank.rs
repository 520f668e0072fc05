//! Ranking folders by how well they match.

use vstd::prelude::*;
use vstd::utf8::*;
use crate::lex;
use crate::order;
use crate::order::{stable_order, SortKey};
use crate::path;
use crate::path::{parts_before, Part, ProjectPath};
use crate::score;
use crate::score::fuzzy_score;
use crate::text;

verus! {

/// A folder that matches, and its score.
pub type Ranked = (ProjectPath, i128);

/// What `results` hold: paths and scores.
pub open spec fn ranked_views(results: Seq<Ranked>) -> Seq<(Seq<u8>, int)> {
    results.map_values(|r: Ranked| (r.0@, r.1 as int))
}

/// The order of two folders that match: the higher score first, then by path, and
/// as they stand if they are the same path.
pub open spec fn ranks_before(
    paths: Seq<Seq<u8>>,
    score: spec_fn(Seq<u8>) -> Option<int>,
    i: int,
    j: int,
) -> bool {
    let s = score(paths[i])->0;
    let t = score(paths[j])->0;
    ||| s > t
    ||| s == t && path::path_less(paths[i], paths[j])
    ||| s == t && path::same_path(paths[i], paths[j]) && i < j
}

/// Whether `results` are the folders at `order`: all that match, each once, in
/// order, with their scores.
pub open spec fn ranked_in_order(
    results: Seq<(Seq<u8>, int)>,
    paths: Seq<Seq<u8>>,
    score: spec_fn(Seq<u8>) -> Option<int>,
    order: Seq<int>,
) -> bool {
    &&& results.len() == order.len()
    &&& forall|n: int|
        0 <= n < order.len() ==> {
            &&& 0 <= #[trigger] order[n] < paths.len()
            &&& results[n].0 == paths[order[n]]
            &&& score(paths[order[n]]) == Some(results[n].1)
        }
    &&& forall|n: int, m: int|
        0 <= n < m < order.len() ==> ranks_before(
            paths,
            score,
            #[trigger] order[n],
            #[trigger] order[m],
        )
    &&& forall|k: int|
        0 <= k < paths.len() && score(#[trigger] paths[k]) is Some ==> order.contains(k)
}

/// Whether `results` are the folders among `paths` that match, each once, with
/// their scores: the higher score first, then by path, and as they stand in
/// `paths` if they are the same path.
pub open spec fn is_ranked(
    results: Seq<(Seq<u8>, int)>,
    paths: Seq<Seq<u8>>,
    score: spec_fn(Seq<u8>) -> Option<int>,
) -> bool {
    exists|order: Seq<int>| ranked_in_order(results, paths, score, order)
}

/// How paths score for a query, which is taken in lower case.
pub open spec fn query_score(query: Seq<char>) -> spec_fn(Seq<u8>) -> Option<int> {
    |p: Seq<u8>| score::path_score(p, text::lowercase(query))
}

/// How ASCII paths score for an ASCII query.
pub open spec fn ascii_query_score(query: Seq<char>) -> spec_fn(Seq<u8>) -> Option<int> {
    |p: Seq<u8>| score::ascii_path_score(p, text::ascii_lowercase(query))
}

/// Whether what is ASCII is taken in lower case letter by letter: a query of ASCII
/// characters, and each of `paths` that is ASCII, whatever the others are.
pub open spec fn plain_where_ascii(paths: Seq<Seq<u8>>, query: Seq<char>) -> bool {
    &&& is_ascii_chars(query) ==> text::lowercase(query) == text::ascii_lowercase(query)
    &&& forall|i: int|
        0 <= i < paths.len() && text::ascii_bytes(#[trigger] paths[i]) ==> score::path_score(
            paths[i],
            text::lowercase(query),
        ) == score::ascii_path_score(paths[i], text::lowercase(query))
}

/// The key by which folders are ranked.
pub struct RankKey {
    pub score: i128,
    pub parts: Vec<Part>,
}

impl SortKey for RankKey {
    open spec fn less(&self, other: &Self) -> bool {
        ||| self.score > other.score
        ||| self.score == other.score && lex::lex_less(
            path::part_views(self.parts@),
            path::part_views(other.parts@),
            path::component_order(),
        )
    }

    proof fn less_is_weak_order() {
        path::component_order_is_strict();
        lex::lex_is_strict_order(path::component_order());
        assert forall|x: Self, y: Self, z: Self|
            !(#[trigger] x.less(&y)) && !(#[trigger] y.less(&z)) implies !x.less(&z) by {
            let (a, b, c) = (
                path::part_views(x.parts@),
                path::part_views(y.parts@),
                path::part_views(z.parts@),
            );
            let o = path::component_order();
            if x.score == y.score && y.score == z.score {
                assert(lex::lex_less(a, b, o) || lex::lex_less(b, a, o) || a == b);
                assert(lex::lex_less(b, c, o) || lex::lex_less(c, b, o) || b == c);
                if lex::lex_less(a, c, o) {
                    if lex::lex_less(b, a, o) {
                        assert(lex::lex_less(b, c, o));
                    }
                }
            }
        }
    }

    fn is_less(&self, other: &Self) -> (r: bool) {
        if self.score != other.score {
            self.score > other.score
        } else {
            parts_before(&self.parts, &other.parts)
        }
    }
}

/// The folders among `paths` that match `query`, the best first.
pub fn rank(paths: &[ProjectPath], query: &str) -> (r: Vec<Ranked>)
    ensures
        is_ranked(ranked_views(r@), path::path_views(paths@), query_score(query@)),
        plain_where_ascii(path::path_views(paths@), query@),
        is_ascii_chars(query@) && (forall|i: int|
            0 <= i < paths@.len() ==> text::ascii_bytes(#[trigger] paths@[i]@)) ==> is_ranked(
            ranked_views(r@),
            path::path_views(paths@),
            ascii_query_score(query@),
        ),
{
    let lower = text::to_lower(query);
    let ghost views = path::path_views(paths@);
    let ghost score = query_score(query@);
    let ghost plain = is_ascii_chars(query@) && (forall|i: int|
        0 <= i < paths@.len() ==> text::ascii_bytes(#[trigger] paths@[i]@));
    let ghost ascii = ascii_query_score(query@);
    let mut hits: Vec<usize> = Vec::new();
    let mut keys: Vec<RankKey> = Vec::new();
    let mut i: usize = 0;
    while i < paths.len()
        invariant
            i <= paths.len(),
            lower@ == text::lowercase(query@),
            is_ascii_chars(query@) ==> lower@ == text::ascii_lowercase(query@),
            plain ==> is_ascii_chars(query@),
            plain ==> forall|i: int|
                0 <= i < paths@.len() ==> text::ascii_bytes(#[trigger] paths@[i]@),
            views == path::path_views(paths@),
            score == query_score(query@),
            ascii == ascii_query_score(query@),
            hits.len() == keys.len(),
            forall|n: int|
                0 <= n < hits.len() ==> {
                    &&& 0 <= #[trigger] hits@[n] < i
                    &&& score(views[hits@[n] as int]) == Some(keys@[n].score as int)
                    &&& path::part_views(keys@[n].parts@) == path::components(
                        views[hits@[n] as int],
                    )
                },
            forall|n: int, m: int|
                0 <= n < m < hits.len() ==> #[trigger] hits@[n] < #[trigger] hits@[m],
            forall|k: int|
                0 <= k < i && score(#[trigger] views[k]) is Some ==> hits@.contains(k as usize),
            plain ==> forall|k: int| 0 <= k < i ==> ascii(#[trigger] views[k]) == score(views[k]),
            forall|k: int|
                0 <= k < i && text::ascii_bytes(#[trigger] views[k]) ==> score::path_score(
                    views[k],
                    lower@,
                ) == score::ascii_path_score(views[k], lower@),
        decreases paths.len() - i,
    {
        let ghost before = hits@;
        assert(views[i as int] == paths@[i as int]@);
        match fuzzy_score(&paths[i], lower.as_str()) {
            Some(s) => {
                hits.push(i);
                keys.push(RankKey { score: s, parts: paths[i].parts() });
                proof {
                    assert(hits@[hits@.len() - 1] == i);
                    assert forall|x: usize| before.contains(x) implies #[trigger] hits@.contains(
                        x,
                    ) by {
                        let a = choose|a: int| 0 <= a < before.len() && before[a] == x;
                        assert(hits@[a] == x);
                    }
                }
            },
            None => {},
        }
        i += 1;
    }
    let sorted = stable_order(&keys);
    let mut r: Vec<Ranked> = Vec::new();
    let mut n: usize = 0;
    while n < sorted.len()
        invariant
            n <= sorted.len(),
            order::lists(sorted@, 0, keys.len() as int),
            views == path::path_views(paths@),
            hits.len() == keys.len(),
            forall|n: int| 0 <= n < hits.len() ==> 0 <= #[trigger] hits@[n] < paths.len(),
            r.len() == n,
            forall|m: int|
                0 <= m < n ==> {
                    &&& (#[trigger] r@[m]).0@ == views[hits@[sorted@[m] as int] as int]
                    &&& r@[m].1 == keys@[sorted@[m] as int].score
                },
        decreases sorted.len() - n,
    {
        let at: usize = sorted[n];
        let hit: usize = hits[at];
        r.push((paths[hit].clone(), keys[at].score));
        n += 1;
    }
    proof {
        let places = Seq::new(sorted@.len(), |n: int| hits@[sorted@[n] as int] as int);
        let results = ranked_views(r@);
        path::path_order_is_strict();
        assert forall|n: int| 0 <= n < places.len() implies {
            &&& 0 <= #[trigger] places[n] < views.len()
            &&& results[n].0 == views[places[n]]
            &&& score(views[places[n]]) == Some(results[n].1)
        } by {
            assert(results[n] == (r@[n].0@, r@[n].1 as int));
            assert(0 <= hits@[sorted@[n] as int] < paths.len());
        }
        assert forall|n: int, m: int| 0 <= n < m < places.len() implies ranks_before(
            views,
            score,
            #[trigger] places[n],
            #[trigger] places[m],
        ) by {
            let a = sorted@[n] as int;
            let b = sorted@[m] as int;
            assert(order::goes_before(keys@, a, b));
            let (p, q) = (hits@[a] as int, hits@[b] as int);
            assert(score(views[p]) == Some(keys@[a].score as int));
            assert(score(views[q]) == Some(keys@[b].score as int));
            assert(path::path_less(views[p], views[q]) || path::path_less(views[q], views[p])
                || path::same_path(views[p], views[q]));
        }
        assert forall|k: int| 0 <= k < views.len() && score(
            #[trigger] views[k],
        ) is Some implies places.contains(k) by {
            assert(hits@.contains(k as usize));
            let a = choose|a: int| 0 <= a < hits@.len() && hits@[a] == k as usize;
            assert(sorted@.contains(a as usize));
            let n = choose|n: int| 0 <= n < sorted@.len() && sorted@[n] == a as usize;
            assert(places[n] == k);
        }
        assert(ranked_in_order(results, views, score, places));
        if plain {
            assert forall|n: int, m: int| 0 <= n < m < places.len() implies ranks_before(
                views,
                ascii,
                #[trigger] places[n],
                #[trigger] places[m],
            ) by {
                assert(ranks_before(views, score, places[n], places[m]));
                assert(ascii(views[places[n]]) == score(views[places[n]]));
                assert(ascii(views[places[m]]) == score(views[places[m]]));
            }
            assert forall|k: int| 0 <= k < views.len() && ascii(
                #[trigger] views[k],
            ) is Some implies places.contains(k) by {
                assert(score(views[k]) is Some);
            }
            assert(ranked_in_order(results, views, ascii, places));
        }
    }
    r
}

/// Whether `best` is the folder that ranks first, if any matches.
pub open spec fn is_best(
    best: Option<Seq<u8>>,
    paths: Seq<Seq<u8>>,
    score: spec_fn(Seq<u8>) -> Option<int>,
) -> bool {
    match best {
        None => forall|k: int| 0 <= k < paths.len() ==> score(#[trigger] paths[k]) is None,
        Some(path) => exists|k: int|
            {
                &&& 0 <= k < paths.len()
                &&& #[trigger] paths[k] == path
                &&& score(path) is Some
                &&& forall|j: int|
                    0 <= j < paths.len() && j != k && score(#[trigger] paths[j]) is Some
                        ==> ranks_before(paths, score, k, j)
            },
    }
}

/// The first of a ranking is the best match.
pub proof fn first_ranked_is_best(
    results: Seq<(Seq<u8>, int)>,
    paths: Seq<Seq<u8>>,
    score: spec_fn(Seq<u8>) -> Option<int>,
)
    requires
        is_ranked(results, paths, score),
    ensures
        is_best(
            if results.len() == 0 {
                None
            } else {
                Some(results[0].0)
            },
            paths,
            score,
        ),
{
    let order = choose|order: Seq<int>| ranked_in_order(results, paths, score, order);
    if results.len() == 0 {
        assert forall|k: int| 0 <= k < paths.len() implies score(#[trigger] paths[k]) is None by {
            if score(paths[k]) is Some {
                assert(order.contains(k));
            }
        }
    } else {
        let k = order[0];
        assert forall|j: int|
            0 <= j < paths.len() && j != k && score(
                #[trigger] paths[j],
            ) is Some implies ranks_before(paths, score, k, j) by {
            assert(order.contains(j));
            let n = choose|n: int| 0 <= n < order.len() && order[n] == j;
            assert(ranks_before(paths, score, order[0], order[n]));
        }
        assert(paths[k] == results[0].0);
    }
}

/// The folder that matches `query` best, if any does.
pub fn best_match(paths: &[ProjectPath], query: &str) -> (r: Option<ProjectPath>)
    ensures
        is_best(
            match r {
                Some(p) => Some(p@),
                None => None,
            },
            path::path_views(paths@),
            query_score(query@),
        ),
        plain_where_ascii(path::path_views(paths@), query@),
        is_ascii_chars(query@) && (forall|i: int|
            0 <= i < paths@.len() ==> text::ascii_bytes(#[trigger] paths@[i]@)) ==> is_best(
            match r {
                Some(p) => Some(p@),
                None => None,
            },
            path::path_views(paths@),
            ascii_query_score(query@),
        ),
{
    let results = rank(paths, query);
    proof {
        let views = ranked_views(results@);
        first_ranked_is_best(views, path::path_views(paths@), query_score(query@));
        if is_ascii_chars(query@) && (forall|i: int|
            0 <= i < paths@.len() ==> text::ascii_bytes(#[trigger] paths@[i]@)) {
            first_ranked_is_best(views, path::path_views(paths@), ascii_query_score(query@));
        }
    }
    if results.len() == 0 {
        None
    } else {
        Some(results[0].0.clone())
    }
}

/// `ranks_before` is a strict total order on the folders.
proof fn lemma_ranks_before(paths: Seq<Seq<u8>>, score: spec_fn(Seq<u8>) -> Option<int>)
    ensures
        forall|i: int, j: int|
            i != j ==> #[trigger] ranks_before(paths, score, i, j) || ranks_before(
                paths,
                score,
                j,
                i,
            ),
        forall|i: int, j: int|
            #[trigger] ranks_before(paths, score, i, j) ==> !ranks_before(paths, score, j, i),
{
    path::path_order_is_strict();
    assert forall|i: int, j: int| #[trigger]
        ranks_before(paths, score, i, j) implies !ranks_before(paths, score, j, i) by {
        let (p, q) = (paths[i], paths[j]);
        assert(!(path::path_less(p, q) && path::path_less(q, p)) || path::path_less(p, p));
    }
    assert forall|i: int, j: int| i != j implies #[trigger] ranks_before(paths, score, i, j)
        || ranks_before(paths, score, j, i) by {
        let (p, q) = (paths[i], paths[j]);
        assert(path::path_less(p, q) || path::path_less(q, p) || path::same_path(p, q));
    }
}

proof fn lemma_same_place(
    a: Seq<(Seq<u8>, int)>,
    b: Seq<(Seq<u8>, int)>,
    paths: Seq<Seq<u8>>,
    score: spec_fn(Seq<u8>) -> Option<int>,
    x: Seq<int>,
    y: Seq<int>,
    n: int,
)
    requires
        ranked_in_order(a, paths, score, x),
        ranked_in_order(b, paths, score, y),
        0 <= n < x.len(),
    ensures
        n < y.len(),
        x[n] == y[n],
    decreases n,
{
    lemma_ranks_before(paths, score);
    assert forall|m: int| 0 <= m < n implies m < y.len() && x[m] == y[m] by {
        lemma_same_place(a, b, paths, score, x, y, m);
    }
    assert(score(paths[x[n]]) is Some);
    assert(y.contains(x[n]));
    let p = choose|p: int| 0 <= p < y.len() && y[p] == x[n];
    if p < n {
        assert(x[p] == x[n]);
        assert(ranks_before(paths, score, x[p], x[n]));
    }
    assert(score(paths[y[n]]) is Some);
    assert(x.contains(y[n]));
    let q = choose|q: int| 0 <= q < x.len() && x[q] == y[n];
    if q < n {
        assert(y[q] == y[n]);
        assert(ranks_before(paths, score, y[q], y[n]));
    }
    if x[n] != y[n] {
        assert(ranks_before(paths, score, x[n], x[q]));
        assert(ranks_before(paths, score, y[n], y[p]));
    }
}

/// There is only one ranking of the same folders for the same query.
pub proof fn ranking_is_unique(
    a: Seq<(Seq<u8>, int)>,
    b: Seq<(Seq<u8>, int)>,
    paths: Seq<Seq<u8>>,
    score: spec_fn(Seq<u8>) -> Option<int>,
)
    requires
        is_ranked(a, paths, score),
        is_ranked(b, paths, score),
    ensures
        a == b,
{
    let x = choose|order: Seq<int>| ranked_in_order(a, paths, score, order);
    let y = choose|order: Seq<int>| ranked_in_order(b, paths, score, order);
    if x.len() > y.len() {
        lemma_same_place(a, b, paths, score, x, y, y.len() as int);
    }
    if y.len() > x.len() {
        lemma_same_place(b, a, paths, score, y, x, x.len() as int);
    }
    assert forall|n: int| 0 <= n < a.len() implies a[n] == b[n] by {
        lemma_same_place(a, b, paths, score, x, y, n);
        assert(score(paths[x[n]]) == Some(a[n].1));
        assert(score(paths[y[n]]) == Some(b[n].1));
    }
    assert(a =~= b);
}

/// Whether `places` lists each of the first `len` places once.
pub open spec fn rearranges(places: Seq<int>, len: int) -> bool {
    &&& places.len() == len
    &&& places.no_duplicates()
    &&& forall|n: int| 0 <= n < places.len() ==> 0 <= #[trigger] places[n] < len
    &&& forall|k: int| 0 <= k < len ==> #[trigger] places.contains(k)
}

/// Whether the folder at `i` comes before the one at `j` wherever they stand.
spec fn outranks(
    paths: Seq<Seq<u8>>,
    score: spec_fn(Seq<u8>) -> Option<int>,
    i: int,
    j: int,
) -> bool {
    let s = score(paths[i])->0;
    let t = score(paths[j])->0;
    s > t || s == t && path::path_less(paths[i], paths[j])
}

/// Whether `order` lists all folders that match, each once, and none before one
/// that outranks it.
spec fn lists_by_rank(
    order: Seq<int>,
    paths: Seq<Seq<u8>>,
    score: spec_fn(Seq<u8>) -> Option<int>,
) -> bool {
    &&& order.no_duplicates()
    &&& forall|k: int| #[trigger]
        order.contains(k) <==> 0 <= k < paths.len() && score(paths[k]) is Some
    &&& forall|n: int, m: int|
        0 <= n < m < order.len() ==> !outranks(
            paths,
            score,
            #[trigger] order[m],
            #[trigger] order[n],
        )
}

proof fn lemma_ranking_lists_by_rank(
    results: Seq<(Seq<u8>, int)>,
    paths: Seq<Seq<u8>>,
    score: spec_fn(Seq<u8>) -> Option<int>,
    order: Seq<int>,
)
    requires
        ranked_in_order(results, paths, score, order),
    ensures
        lists_by_rank(order, paths, score),
{
    path::path_order_is_strict();
    lemma_ranks_before(paths, score);
    assert forall|n: int, m: int| 0 <= n < m < order.len() implies !outranks(
        paths,
        score,
        #[trigger] order[m],
        #[trigger] order[n],
    ) by {
        assert(ranks_before(paths, score, order[n], order[m]));
        assert(!ranks_before(paths, score, order[m], order[n]));
    }
    assert forall|n: int, m: int|
        0 <= n < order.len() && 0 <= m < order.len() && n != m implies order[n] != order[m] by {
        if n < m {
            assert(ranks_before(paths, score, order[n], order[m]));
        } else {
            assert(ranks_before(paths, score, order[m], order[n]));
        }
    }
    assert forall|k: int| #[trigger] order.contains(k) implies 0 <= k < paths.len() && score(
        paths[k],
    ) is Some by {
        let n = choose|n: int| 0 <= n < order.len() && order[n] == k;
        assert(0 <= order[n] < paths.len());
    }
    assert forall|k: int| 0 <= k < paths.len() && score(
        paths[k],
    ) is Some implies #[trigger] order.contains(k) by {
        assert(score(paths[k]) is Some);
    }
}

proof fn lemma_not_outranked(
    x: Seq<int>,
    y: Seq<int>,
    paths: Seq<Seq<u8>>,
    score: spec_fn(Seq<u8>) -> Option<int>,
    n: int,
)
    requires
        lists_by_rank(x, paths, score),
        lists_by_rank(y, paths, score),
        0 <= n < x.len(),
        n < y.len(),
    ensures
        !outranks(paths, score, x[n], y[n]),
{
    path::path_order_is_strict();
    if outranks(paths, score, x[n], y[n]) {
        let (xs, ys) = (x.take(n + 1), y.take(n));
        assert forall|k: int| xs.to_set().contains(k) implies ys.to_set().contains(k) by {
            let m = choose|m: int| 0 <= m < xs.len() && xs[m] == k;
            assert(x[m] == k);
            assert(x.contains(k));
            assert(y.contains(k));
            let p = choose|p: int| 0 <= p < y.len() && y[p] == k;
            assert(!outranks(paths, score, x[n], x[m]));
            assert(outranks(paths, score, x[m], y[n])) by {
                let (a, b) = (paths[x[m]], paths[x[n]]);
                assert(path::path_less(a, b) || path::path_less(b, a) || path::same_path(a, b));
            }
            if p >= n {
                assert(!outranks(paths, score, y[p], y[n]));
            }
            assert(ys[p] == k);
        }
        assert(xs.no_duplicates());
        xs.unique_seq_to_set();
        ys.lemma_cardinality_of_set();
        vstd::set_lib::lemma_len_subset(xs.to_set(), ys.to_set());
    }
}

/// Whether no two of `paths` spell one path in two ways.
pub open spec fn spelled_in_one_way(paths: Seq<Seq<u8>>) -> bool {
    forall|i: int, j: int|
        0 <= i < paths.len() && 0 <= j < paths.len() && path::same_path(
            #[trigger] paths[i],
            #[trigger] paths[j],
        ) ==> paths[i] == paths[j]
}

/// The order in which folders are given does not matter to their ranking: there are
/// as many results, with the same scores and the same paths at each place. Only which
/// of two spellings of one path comes first can differ.
pub proof fn input_order_does_not_matter(
    a: Seq<(Seq<u8>, int)>,
    b: Seq<(Seq<u8>, int)>,
    paths: Seq<Seq<u8>>,
    others: Seq<Seq<u8>>,
    places: Seq<int>,
    score: spec_fn(Seq<u8>) -> Option<int>,
)
    requires
        is_ranked(a, paths, score),
        is_ranked(b, others, score),
        rearranges(places, paths.len() as int),
        others == Seq::new(places.len(), |n: int| paths[places[n]]),
    ensures
        a.len() == b.len(),
        forall|n: int|
            0 <= n < a.len() ==> (#[trigger] a[n]).1 == (#[trigger] b[n]).1 && path::same_path(
                a[n].0,
                b[n].0,
            ),
        spelled_in_one_way(paths) ==> a == b,
{
    let x = choose|order: Seq<int>| ranked_in_order(a, paths, score, order);
    let y = choose|order: Seq<int>| ranked_in_order(b, others, score, order);
    let z = Seq::new(y.len(), |n: int| places[y[n]]);
    lemma_ranking_lists_by_rank(a, paths, score, x);
    lemma_ranking_lists_by_rank(b, others, score, y);
    assert(lists_by_rank(z, paths, score)) by {
        assert forall|n: int| 0 <= n < y.len() implies 0 <= #[trigger] y[n] < places.len() by {
            assert(y.contains(y[n]));
        }
        assert forall|n: int, m: int|
            0 <= n < z.len() && 0 <= m < z.len() && n != m implies z[n] != z[m] by {
            assert(y[n] != y[m]);
        }
        assert forall|k: int| #[trigger] z.contains(k) implies 0 <= k < paths.len() && score(
            paths[k],
        ) is Some by {
            let n = choose|n: int| 0 <= n < z.len() && z[n] == k;
            assert(y.contains(y[n]));
            assert(others[y[n]] == paths[k]);
        }
        assert forall|k: int| 0 <= k < paths.len() && score(
            paths[k],
        ) is Some implies #[trigger] z.contains(k) by {
            assert(places.contains(k));
            let j = choose|j: int| 0 <= j < places.len() && places[j] == k;
            assert(others[j] == paths[k]);
            assert(y.contains(j));
            let n = choose|n: int| 0 <= n < y.len() && y[n] == j;
            assert(z[n] == k);
        }
        assert forall|n: int, m: int| 0 <= n < m < z.len() implies !outranks(
            paths,
            score,
            #[trigger] z[m],
            #[trigger] z[n],
        ) by {
            assert(!outranks(others, score, y[m], y[n]));
        }
    }
    assert(x.to_set() =~= z.to_set()) by {
        assert forall|k: int| x.to_set().contains(k) <==> z.to_set().contains(k) by {
            assert(x.contains(k) <==> z.contains(k));
        }
    }
    x.unique_seq_to_set();
    z.unique_seq_to_set();
    path::path_order_is_strict();
    assert forall|n: int| 0 <= n < a.len() implies (#[trigger] a[n]).1 == (#[trigger] b[n]).1
        && path::same_path(a[n].0, b[n].0) && (spelled_in_one_way(paths) ==> a[n].0 == b[n].0) by {
        lemma_not_outranked(x, z, paths, score, n);
        lemma_not_outranked(z, x, paths, score, n);
        assert(x.contains(x[n]) && z.contains(z[n]) && y.contains(y[n]));
        let (p, q) = (paths[x[n]], paths[z[n]]);
        assert(path::path_less(p, q) || path::path_less(q, p) || path::same_path(p, q));
        assert(others[y[n]] == q);
        assert(score(paths[x[n]]) == Some(a[n].1));
        assert(score(others[y[n]]) == Some(b[n].1));
    }
    if spelled_in_one_way(paths) {
        assert(a =~= b);
    }
}

/// A ranking holds exactly the folders that match.
pub proof fn ranking_holds_all_matches(
    results: Seq<(Seq<u8>, int)>,
    paths: Seq<Seq<u8>>,
    score: spec_fn(Seq<u8>) -> Option<int>,
    path: Seq<u8>,
)
    requires
        is_ranked(results, paths, score),
    ensures
        (exists|n: int| 0 <= n < results.len() && (#[trigger] results[n]).0 == path)
            <==> paths.contains(path) && score(path) is Some,
{
    let order = choose|order: Seq<int>| ranked_in_order(results, paths, score, order);
    if exists|n: int| 0 <= n < results.len() && (#[trigger] results[n]).0 == path {
        let n = choose|n: int| 0 <= n < results.len() && (#[trigger] results[n]).0 == path;
        assert(paths[order[n]] == path);
    }
    if paths.contains(path) && score(path) is Some {
        let k = choose|k: int| 0 <= k < paths.len() && paths[k] == path;
        assert(order.contains(k));
        let n = choose|n: int| 0 <= n < order.len() && order[n] == k;
        assert(results[n].0 == path);
    }
}

/// Where nothing was typed, every folder matches, with the score zero.
pub proof fn nothing_typed_matches_everything(
    results: Seq<(Seq<u8>, int)>,
    paths: Seq<Seq<u8>>,
    query: Seq<char>,
)
    requires
        query.len() == 0,
        plain_where_ascii(paths, query),
        is_ranked(results, paths, query_score(query)),
    ensures
        results.len() == paths.len(),
        forall|n: int| 0 <= n < results.len() ==> (#[trigger] results[n]).1 == 0,
{
    let score = query_score(query);
    let order = choose|order: Seq<int>| ranked_in_order(results, paths, score, order);
    assert(text::lowercase(query).len() == 0);
    lemma_ranking_lists_by_rank(results, paths, score, order);
    let all = vstd::set_lib::set_int_range(0, paths.len() as int);
    vstd::set_lib::lemma_int_range(0, paths.len() as int);
    assert(order.to_set() =~= all) by {
        assert forall|k: int| order.to_set().contains(k) <==> all.contains(k) by {
            assert(order.contains(k) <==> 0 <= k < paths.len());
        }
    }
    order.unique_seq_to_set();
    assert forall|n: int| 0 <= n < results.len() implies (#[trigger] results[n]).1 == 0 by {
        assert(score(paths[order[n]]) == Some(results[n].1));
    }
}

/// Results come with falling scores, and each is a folder that was asked about,
/// with its own score.
pub proof fn ranking_is_by_score(
    results: Seq<(Seq<u8>, int)>,
    paths: Seq<Seq<u8>>,
    score: spec_fn(Seq<u8>) -> Option<int>,
)
    requires
        is_ranked(results, paths, score),
    ensures
        forall|n: int, m: int|
            0 <= n < m < results.len() ==> (#[trigger] results[n]).1 >= (#[trigger] results[m]).1,
        forall|n: int|
            0 <= n < results.len() ==> paths.contains((#[trigger] results[n]).0) && score(
                results[n].0,
            ) == Some(results[n].1),
        results.len() <= paths.len(),
{
    let order = choose|order: Seq<int>| ranked_in_order(results, paths, score, order);
    assert forall|n: int, m: int| 0 <= n < m < results.len() implies (#[trigger] results[n]).1 >= (
    #[trigger] results[m]).1 by {
        assert(ranks_before(paths, score, order[n], order[m]));
        assert(score(paths[order[n]]) == Some(results[n].1));
        assert(score(paths[order[m]]) == Some(results[m].1));
    }
    assert forall|n: int| 0 <= n < results.len() implies paths.contains((#[trigger] results[n]).0)
        && score(results[n].0) == Some(results[n].1) by {
        assert(paths[order[n]] == results[n].0);
    }
    lemma_ranks_before(paths, score);
    assert(order.no_duplicates()) by {
        assert forall|n: int, m: int|
            0 <= n < order.len() && 0 <= m < order.len() && n != m implies order[n] != order[m] by {
            if n < m {
                assert(ranks_before(paths, score, order[n], order[m]));
            } else {
                assert(ranks_before(paths, score, order[m], order[n]));
            }
        }
    }
    order.unique_seq_to_set();
    let all = vstd::set_lib::set_int_range(0, paths.len() as int);
    vstd::set_lib::lemma_int_range(0, paths.len() as int);
    assert(order.to_set().subset_of(all)) by {
        assert forall|k: int| order.to_set().contains(k) implies all.contains(k) by {
            let n = choose|n: int| 0 <= n < order.len() && order[n] == k;
            assert(0 <= order[n] < paths.len());
        }
    }
    vstd::set_lib::lemma_len_subset(order.to_set(), all);
}

/// A folder whose name is what was typed, whatever the case of its letters, comes
/// before every folder with another name, as long as the query is not so long
/// that the points for its letters alone add up to an exact match.
pub proof fn exact_names_come_first(
    results: Seq<(Seq<u8>, int)>,
    paths: Seq<Seq<u8>>,
    query: Seq<char>,
    exact: int,
    other: int,
)
    requires
        is_ranked(results, paths, query_score(query)),
        0 < text::lowercase(query).len(),
        score::WORD_START * text::lowercase(query).len() - text::lowercase(query).len() as int / 10
            < score::EXACT,
        0 <= exact < results.len(),
        0 <= other < results.len(),
        path::file_name(results[exact].0) matches Some(name) && text::lowercase(
            text::lossy_text(name),
        ) == text::lowercase(query),
        path::file_name(results[other].0) matches Some(name) ==> text::lowercase(
            text::lossy_text(name),
        ) != text::lowercase(query),
    ensures
        exact < other,
{
    let score = query_score(query);
    ranking_is_by_score(results, paths, score);
    let q = text::lowercase(query);
    let p = results[other].0;
    assert(score(p) == Some(results[other].1));
    assert(score(results[exact].0) == Some(results[exact].1));
    let name = path::file_name(p)->0;
    score::exact_name_scores_highest(
        text::lowercase(text::lossy_text(p)),
        text::lowercase(text::lossy_text(name)),
        q,
    );
    if other < exact {
        assert(results[other].1 >= results[exact].1);
    }
}

/// The case of what was typed does not matter.
pub proof fn case_of_query_does_not_matter(a: Seq<char>, b: Seq<char>)
    ensures
        text::lowercase(a) == text::lowercase(b) ==> query_score(a) == query_score(b),
        text::equal_ignoring_ascii_case(a, b) ==> ascii_query_score(a) == ascii_query_score(b),
{
    if text::lowercase(a) == text::lowercase(b) {
        assert(query_score(a) =~= query_score(b));
    }
    if text::equal_ignoring_ascii_case(a, b) {
        assert(ascii_query_score(a) =~= ascii_query_score(b));
    }
}

/// A ranking lists each folder that matches once for each time it was given, with its
/// own score: higher scores come first, equal ones go by path, and where the paths are
/// the same too, what was given first comes first.
pub proof fn ranking_lists_each_match_once(
    results: Seq<(Seq<u8>, int)>,
    paths: Seq<Seq<u8>>,
    score: spec_fn(Seq<u8>) -> Option<int>,
) -> (places: Seq<int>)
    requires
        is_ranked(results, paths, score),
    ensures
        places.len() == results.len(),
        forall|n: int, m: int|
            0 <= n < places.len() && 0 <= m < places.len() && n != m ==> places[n] != places[m],
        forall|n: int|
            0 <= n < results.len() ==> 0 <= #[trigger] places[n] < paths.len() && results[n].0
                == paths[places[n]] && score(results[n].0) == Some(results[n].1),
        forall|k: int|
            0 <= k < paths.len() && score(#[trigger] paths[k]) is Some ==> exists|n: int|
                0 <= n < places.len() && #[trigger] places[n] == k,
        forall|n: int, m: int|
            0 <= n < m < results.len() ==> {
                ||| (#[trigger] results[n]).1 > (#[trigger] results[m]).1
                ||| results[n].1 == results[m].1 && path::path_less(results[n].0, results[m].0)
                ||| results[n].1 == results[m].1 && path::same_path(results[n].0, results[m].0)
                    && places[n] < places[m]
            },
{
    let order = choose|order: Seq<int>| ranked_in_order(results, paths, score, order);
    lemma_ranking_lists_by_rank(results, paths, score, order);
    assert forall|n: int, m: int| 0 <= n < m < results.len() implies {
        ||| (#[trigger] results[n]).1 > (#[trigger] results[m]).1
        ||| results[n].1 == results[m].1 && path::path_less(results[n].0, results[m].0)
        ||| results[n].1 == results[m].1 && path::same_path(results[n].0, results[m].0) && order[n]
            < order[m]
    } by {
        assert(ranks_before(paths, score, order[n], order[m]));
        assert(score(paths[order[n]]) == Some(results[n].1));
        assert(score(paths[order[m]]) == Some(results[m].1));
    }
    assert forall|k: int| 0 <= k < paths.len() && score(
        #[trigger] paths[k],
    ) is Some implies exists|n: int| 0 <= n < order.len() && #[trigger] order[n] == k by {
        assert(order.contains(k));
    }
    order
}

/// Of two folders whose names both start with what was typed and go on, the one whose
/// name takes fewer bytes comes first, and scores higher by just as many points.
pub proof fn shorter_leading_match_comes_first(
    results: Seq<(Seq<u8>, int)>,
    paths: Seq<Seq<u8>>,
    query: Seq<char>,
    n: int,
    m: int,
    name: Seq<char>,
    other: Seq<char>,
)
    requires
        is_ranked(results, paths, query_score(query)),
        0 <= n < results.len(),
        0 <= m < results.len(),
        text::lowercase(query).len() > 0,
        path::file_name(results[n].0) is Some,
        path::file_name(results[m].0) is Some,
        name == text::lowercase(text::lossy_text(path::file_name(results[n].0)->0)),
        other == text::lowercase(text::lossy_text(path::file_name(results[m].0)->0)),
        text::lowercase(query).is_prefix_of(name),
        text::lowercase(query).is_prefix_of(other),
        name != text::lowercase(query),
        other != text::lowercase(query),
    ensures
        results[n].1 == 8_000 - encode_utf8(name).len(),
        results[n].1 - results[m].1 == encode_utf8(other).len() - encode_utf8(name).len(),
        encode_utf8(name).len() < encode_utf8(other).len() ==> n < m,
{
    let score = query_score(query);
    ranking_is_by_score(results, paths, score);
    let q = text::lowercase(query);
    assert(score(results[n].0) == Some(results[n].1));
    assert(score(results[m].0) == Some(results[m].1));
    score::name_decides_on_the_score(results[n].0, name, q, name, 0);
    score::name_decides_on_the_score(results[m].0, other, q, other, 0);
    if m < n {
        assert(results[m].1 >= results[n].1);
    }
}

/// What was typed is taken in lower case, and then scored as it is; so a folder whose
/// name is what was typed but for the case scores ten thousand.
pub proof fn query_is_taken_in_lower_case(query: Seq<char>, path: Seq<u8>)
    ensures
        query_score(query)(path) == score::path_score(path, text::lowercase(query)),
        ascii_query_score(query)(path) == score::ascii_path_score(
            path,
            text::ascii_lowercase(query),
        ),
        text::lowercase(query).len() > 0 && (path::file_name(path) matches Some(name)
            && text::lowercase(text::lossy_text(name)) == text::lowercase(query)) ==> query_score(
            query,
        )(path) == Some(10_000int),
        query.len() > 0 && (path::file_name(path) matches Some(name)
            && text::equal_ignoring_ascii_case(text::ascii_text(name), query))
            ==> ascii_query_score(query)(path) == Some(10_000int),
{
    assert(text::ascii_lowercase(query).len() == query.len());
}

/// Where what was typed and a path are both ASCII, the score is the plain one,
/// whatever the other paths are.
pub proof fn ascii_scores_plainly(paths: Seq<Seq<u8>>, query: Seq<char>, i: int)
    requires
        plain_where_ascii(paths, query),
        is_ascii_chars(query),
        0 <= i < paths.len(),
        forall|k: int| 0 <= k < paths[i].len() ==> #[trigger] paths[i][k] <= 127,
    ensures
        text::lowercase(query) == text::ascii_lowercase(query),
        query_score(query)(paths[i]) == ascii_query_score(query)(paths[i]),
{
    text::ascii_is_below_128(paths[i]);
}

/// The best match scores as high as any folder, and of those that do it comes first by
/// path; there is one exactly if some folder matches.
pub proof fn best_match_is_not_beaten(
    best: Option<Seq<u8>>,
    paths: Seq<Seq<u8>>,
    score: spec_fn(Seq<u8>) -> Option<int>,
    k: int,
)
    requires
        is_best(best, paths, score),
        0 <= k < paths.len(),
        score(paths[k]) is Some,
    ensures
        best is Some,
        paths.contains(best->0),
        score(best->0) is Some,
        score(best->0)->0 >= score(paths[k])->0,
        score(best->0)->0 == score(paths[k])->0 ==> path::path_less(best->0, paths[k])
            || path::same_path(best->0, paths[k]),
{
    let path = best->0;
    let b = choose|b: int|
        {
            &&& 0 <= b < paths.len()
            &&& #[trigger] paths[b] == path
            &&& score(path) is Some
            &&& forall|j: int|
                0 <= j < paths.len() && j != b && score(#[trigger] paths[j]) is Some
                    ==> ranks_before(paths, score, b, j)
        };
    assert(paths[b] == path);
    if k != b {
        assert(ranks_before(paths, score, b, k));
    }
}

/// Where no folder matches there is no best match.
pub proof fn no_match_no_best(
    best: Option<Seq<u8>>,
    paths: Seq<Seq<u8>>,
    score: spec_fn(Seq<u8>) -> Option<int>,
)
    requires
        is_best(best, paths, score),
        forall|k: int| 0 <= k < paths.len() ==> score(#[trigger] paths[k]) is None,
    ensures
        best is None,
{
}

/// What stands for results are their paths and scores, place by place.
pub proof fn results_are_read_in_place(results: Seq<Ranked>)
    ensures
        ranked_views(results).len() == results.len(),
        forall|n: int|
            0 <= n < results.len() ==> (#[trigger] ranked_views(results)[n]).0
                == results[n].0.bytes@ && ranked_views(results)[n].1 == results[n].1,
{
}

} // verus!
