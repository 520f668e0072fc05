//! Lexicographic order on sequences.

use vstd::prelude::*;

verus! {

/// `a` comes before `b`, and position `k` shows it: they agree up to `k`, and
/// there `a` ends first or holds the smaller item.
pub open spec fn differs_at<T>(a: Seq<T>, b: Seq<T>, less: spec_fn(T, T) -> bool, k: int) -> bool {
    &&& 0 <= k <= a.len()
    &&& k < b.len()
    &&& a.take(k) == b.take(k)
    &&& k == a.len() || less(a[k], b[k])
}

/// `a` comes before `b` in the lexicographic order that `less` gives.
pub open spec fn lex_less<T>(a: Seq<T>, b: Seq<T>, less: spec_fn(T, T) -> bool) -> bool {
    exists|k: int| differs_at(a, b, less, k)
}

/// `less` is a strict total order.
pub open spec fn strict_order<T>(less: spec_fn(T, T) -> bool) -> bool {
    &&& forall|x: T| !#[trigger] less(x, x)
    &&& forall|x: T, y: T, z: T| #[trigger] less(x, y) && #[trigger] less(y, z) ==> less(x, z)
    &&& forall|x: T, y: T| #[trigger] less(x, y) || less(y, x) || x == y
}

proof fn lemma_take_agrees<T>(a: Seq<T>, b: Seq<T>, k: int, i: int)
    requires
        0 <= i < k <= a.len(),
        k <= b.len(),
        a.take(k) == b.take(k),
    ensures
        a[i] == b[i],
        a.take(i) == b.take(i),
{
    assert(a.take(k)[i] == a[i]);
    assert(b.take(k)[i] == b[i]);
    assert(a.take(k).take(i) =~= a.take(i));
    assert(b.take(k).take(i) =~= b.take(i));
}

/// The lexicographic order of a strict total order is a strict total order.
pub proof fn lex_is_strict_order<T>(less: spec_fn(T, T) -> bool)
    requires
        strict_order(less),
    ensures
        forall|a: Seq<T>| !#[trigger] lex_less(a, a, less),
        forall|a: Seq<T>, b: Seq<T>, c: Seq<T>|
            #[trigger] lex_less(a, b, less) && #[trigger] lex_less(b, c, less) ==> lex_less(
                a,
                c,
                less,
            ),
        forall|a: Seq<T>, b: Seq<T>|
            #[trigger] lex_less(a, b, less) || lex_less(b, a, less) || a == b,
{
    assert forall|a: Seq<T>| !#[trigger] lex_less(a, a, less) by {
        if lex_less(a, a, less) {
            let k = choose|k: int| differs_at(a, a, less, k);
            assert(less(a[k], a[k]));
        }
    }
    assert forall|a: Seq<T>, b: Seq<T>, c: Seq<T>|
        #[trigger] lex_less(a, b, less) && #[trigger] lex_less(b, c, less) implies lex_less(
        a,
        c,
        less,
    ) by {
        let i = choose|k: int| differs_at(a, b, less, k);
        let j = choose|k: int| differs_at(b, c, less, k);
        if i < j {
            lemma_take_agrees(b, c, j, i);
            assert(differs_at(a, c, less, i));
        } else if j < i {
            lemma_take_agrees(a, b, i, j);
            assert(differs_at(a, c, less, j));
        } else {
            assert(differs_at(a, c, less, i));
        }
    }
    assert forall|a: Seq<T>, b: Seq<T>|
        #[trigger] lex_less(a, b, less) || lex_less(b, a, less) || a == b by {
        assert(a.take(0) =~= b.take(0));
        lemma_lex_total(a, b, less, 0);
    }
}

proof fn lemma_lex_total<T>(a: Seq<T>, b: Seq<T>, less: spec_fn(T, T) -> bool, k: int)
    requires
        strict_order(less),
        0 <= k <= a.len(),
        k <= b.len(),
        a.take(k) == b.take(k),
    ensures
        lex_less(a, b, less) || lex_less(b, a, less) || a == b,
    decreases a.len() - k,
{
    if k == a.len() && k == b.len() {
        assert(a.take(k) =~= a);
        assert(b.take(k) =~= b);
    } else if k == a.len() {
        assert(differs_at(a, b, less, k));
    } else if k == b.len() {
        assert(differs_at(b, a, less, k));
    } else if less(a[k], b[k]) {
        assert(differs_at(a, b, less, k));
    } else if less(b[k], a[k]) {
        assert(differs_at(b, a, less, k));
    } else {
        assert(a.take(k + 1) =~= a.take(k).push(a[k]));
        assert(b.take(k + 1) =~= b.take(k).push(b[k]));
        lemma_lex_total(a, b, less, k + 1);
    }
}

/// A sequence comes before every longer one that starts with it.
pub proof fn shorter_comes_first<T>(a: Seq<T>, more: Seq<T>, less: spec_fn(T, T) -> bool)
    requires
        strict_order(less),
        more.len() > 0,
    ensures
        lex_less(a, a + more, less),
        !lex_less(a + more, a, less),
{
    assert((a + more).take(a.len() as int) =~= a.take(a.len() as int));
    assert(differs_at(a, a + more, less, a.len() as int));
    lex_is_strict_order(less);
    if lex_less(a + more, a, less) {
        assert(lex_less(a, a, less));
    }
}

/// Of two sequences, the first items in which they differ decide, whatever follows.
pub proof fn first_difference_decides<T>(
    common: Seq<T>,
    x: T,
    a: Seq<T>,
    y: T,
    b: Seq<T>,
    less: spec_fn(T, T) -> bool,
)
    requires
        strict_order(less),
        less(x, y),
    ensures
        lex_less(common.push(x) + a, common.push(y) + b, less),
        !lex_less(common.push(y) + b, common.push(x) + a, less),
{
    let (p, q) = (common.push(x) + a, common.push(y) + b);
    let k = common.len() as int;
    assert(p.take(k) =~= common);
    assert(q.take(k) =~= common);
    assert(differs_at(p, q, less, k));
    assert(lex_less(p, q, less));
    lex_is_strict_order(less);
    if lex_less(q, p, less) {
        assert(lex_less(p, p, less));
    }
}

} // verus!
