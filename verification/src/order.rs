//! Stable sorting, by keys.

use vstd::prelude::*;

verus! {

/// A key to sort by.
pub trait SortKey: Sized {
    /// Whether this key comes before `other`.
    spec fn less(&self, other: &Self) -> bool;

    /// The order is a strict weak order.
    proof fn less_is_weak_order()
        ensures
            forall|x: Self| !#[trigger] x.less(&x),
            forall|x: Self, y: Self, z: Self|
                #[trigger] x.less(&y) && #[trigger] y.less(&z) ==> x.less(&z),
            forall|x: Self, y: Self, z: Self|
                !(#[trigger] x.less(&y)) && !(#[trigger] y.less(&z)) ==> !x.less(&z),
    ;

    /// Whether this key comes before `other`.
    fn is_less(&self, other: &Self) -> (r: bool)
        ensures
            r == self.less(other),
    ;
}

/// Whether item `i` goes before item `j`: by key, and as they stand where the
/// keys leave it open.
pub open spec fn goes_before<K: SortKey>(keys: Seq<K>, i: int, j: int) -> bool {
    ||| keys[i].less(&keys[j])
    ||| !keys[j].less(&keys[i]) && i < j
}

/// Whether each of `order` goes before all that follow it.
pub open spec fn ordered<K: SortKey>(keys: Seq<K>, order: Seq<usize>) -> bool {
    forall|a: int, b: int|
        0 <= a < b < order.len() ==> goes_before(
            keys,
            #[trigger] order[a] as int,
            #[trigger] order[b] as int,
        )
}

/// Whether `order` lists the items `lo` to `hi`, each once.
pub open spec fn lists(order: Seq<usize>, lo: int, hi: int) -> bool {
    &&& order.len() == hi - lo
    &&& order.no_duplicates()
    &&& forall|a: int| 0 <= a < order.len() ==> lo <= #[trigger] order[a] < hi
    &&& forall|k: usize| lo <= k < hi ==> #[trigger] order.contains(k)
}

/// `goes_before` is a strict total order on the items.
proof fn lemma_goes_before<K: SortKey>(keys: Seq<K>)
    ensures
        forall|i: int, j: int, k: int|
            #[trigger] goes_before(keys, i, j) && #[trigger] goes_before(keys, j, k)
                ==> goes_before(keys, i, k),
        forall|i: int, j: int| i != j ==> #[trigger] goes_before(keys, i, j) || goes_before(keys, j, i),
        forall|i: int| !#[trigger] goes_before(keys, i, i),
        forall|i: int, j: int| #[trigger] goes_before(keys, i, j) ==> !goes_before(keys, j, i),
{
    K::less_is_weak_order();
    assert forall|i: int, j: int, k: int|
        #[trigger] goes_before(keys, i, j) && #[trigger] goes_before(
            keys,
            j,
            k,
        ) implies goes_before(keys, i, k) by {
        let (x, y, z) = (keys[i], keys[j], keys[k]);
        assert(!(x.less(&y) && y.less(&x)) || x.less(&x));
        assert(!(y.less(&z) && z.less(&y)) || y.less(&y));
        assert(!(x.less(&z) && z.less(&x)) || x.less(&x));
        if x.less(&y) && !y.less(&z) {
            // z is not before y, so x, which is before y, is before z
            assert(!z.less(&y));
            if !x.less(&z) {
                assert(!x.less(&y));
            }
        } else if !x.less(&y) && y.less(&z) {
            assert(!y.less(&x));
            if !x.less(&z) {
                assert(!y.less(&z));
            }
        } else if !x.less(&y) {
            assert(!z.less(&y) && !y.less(&x));
            assert(!z.less(&x));
        }
    }
    assert forall|i: int, j: int| #[trigger] goes_before(keys, i, j) implies !goes_before(
        keys,
        j,
        i,
    ) by {
        let (x, y) = (keys[i], keys[j]);
        assert(!(x.less(&y) && y.less(&x)) || x.less(&x));
    }
}

/// Whether item `i` goes before item `j`.
fn comes_first<K: SortKey>(keys: &Vec<K>, i: usize, j: usize) -> (r: bool)
    requires
        i < keys.len(),
        j < keys.len(),
    ensures
        r == goes_before(keys@, i as int, j as int),
{
    keys[i].is_less(&keys[j]) || (!keys[j].is_less(&keys[i]) && i < j)
}

/// The items of `left` and `right`, which follow each other, in order.
fn merge<K: SortKey>(
    keys: &Vec<K>,
    left: &Vec<usize>,
    right: &Vec<usize>,
    lo: usize,
    mid: usize,
    hi: usize,
) -> (r: Vec<usize>)
    requires
        lo <= mid <= hi <= keys.len(),
        lists(left@, lo as int, mid as int),
        lists(right@, mid as int, hi as int),
        ordered(keys@, left@),
        ordered(keys@, right@),
    ensures
        lists(r@, lo as int, hi as int),
        ordered(keys@, r@),
{
    let mut r: Vec<usize> = Vec::new();
    let mut i: usize = 0;
    let mut j: usize = 0;
    proof {
        lemma_goes_before(keys@);
    }
    while i < left.len() || j < right.len()
        invariant
            lo <= mid <= hi <= keys.len(),
            lists(left@, lo as int, mid as int),
            lists(right@, mid as int, hi as int),
            ordered(keys@, left@),
            ordered(keys@, right@),
            i <= left.len(),
            j <= right.len(),
            r.len() == i + j,
            ordered(keys@, r@),
            forall|a: int| 0 <= a < r.len() ==> lo <= #[trigger] r@[a] < hi,
            forall|a: int, b: int|
                0 <= a < r.len() && i <= b < left.len() ==> goes_before(
                    keys@,
                    #[trigger] r@[a] as int,
                    #[trigger] left@[b] as int,
                ),
            forall|a: int, b: int|
                0 <= a < r.len() && j <= b < right.len() ==> goes_before(
                    keys@,
                    #[trigger] r@[a] as int,
                    #[trigger] right@[b] as int,
                ),
            forall|a: int| 0 <= a < i ==> r@.contains(#[trigger] left@[a]),
            forall|a: int| 0 <= a < j ==> r@.contains(#[trigger] right@[a]),
            forall|x: int, y: int, z: int|
                #[trigger] goes_before(keys@, x, y) && #[trigger] goes_before(keys@, y, z)
                    ==> goes_before(keys@, x, z),
            forall|x: int, y: int|
                x != y ==> #[trigger] goes_before(keys@, x, y) || goes_before(keys@, y, x),
            forall|x: int| !#[trigger] goes_before(keys@, x, x),
        decreases left.len() - i + right.len() - j,
    {
        let ghost before = r@;
        let from_left = if i >= left.len() {
            false
        } else if j >= right.len() {
            true
        } else {
            comes_first(keys, left[i], right[j])
        };
        if from_left {
            let item: usize = left[i];
            r.push(item);
            proof {
                assert forall|b: int| j <= b < right.len() implies goes_before(
                    keys@,
                    item as int,
                    #[trigger] right@[b] as int,
                ) by {
                    assert(goes_before(keys@, item as int, right@[j as int] as int));
                    if b > j {
                        assert(goes_before(keys@, right@[j as int] as int, right@[b] as int));
                    }
                }
            }
            i += 1;
        } else {
            let item: usize = right[j];
            r.push(item);
            proof {
                assert forall|b: int| i <= b < left.len() implies goes_before(
                    keys@,
                    item as int,
                    #[trigger] left@[b] as int,
                ) by {
                    assert(goes_before(keys@, item as int, left@[i as int] as int));
                    if b > i {
                        assert(goes_before(keys@, left@[i as int] as int, left@[b] as int));
                    }
                }
            }
            j += 1;
        }
        proof {
            assert(r@[r@.len() - 1] == r@.last());
            assert forall|x: usize| before.contains(x) implies #[trigger] r@.contains(x) by {
                let a = choose|a: int| 0 <= a < before.len() && before[a] == x;
                assert(r@[a] == x);
            }
            assert(r@.contains(r@.last()));
        }
    }
    proof {
        assert forall|k: usize| lo <= k < hi implies #[trigger] r@.contains(k) by {
            if k < mid {
                assert(left@.contains(k));
                let a = choose|a: int| 0 <= a < left@.len() && left@[a] == k;
                assert(r@.contains(left@[a]));
            } else {
                assert(right@.contains(k));
                let a = choose|a: int| 0 <= a < right@.len() && right@[a] == k;
                assert(r@.contains(right@[a]));
            }
        }
        assert forall|a: int, b: int| 0 <= a < r@.len() && 0 <= b < r@.len() && a != b implies r@[a]
            != r@[b] by {
            if a < b {
                assert(goes_before(keys@, r@[a] as int, r@[b] as int));
            } else {
                assert(goes_before(keys@, r@[b] as int, r@[a] as int));
            }
        }
    }
    r
}

/// The items `lo` to `hi` in order.
fn sort_range<K: SortKey>(keys: &Vec<K>, lo: usize, hi: usize) -> (r: Vec<usize>)
    requires
        lo <= hi <= keys.len(),
    ensures
        lists(r@, lo as int, hi as int),
        ordered(keys@, r@),
    decreases hi - lo,
{
    if hi - lo <= 1 {
        let mut r: Vec<usize> = Vec::new();
        if lo < hi {
            r.push(lo);
            assert(r@[0] == lo);
            assert(r@.contains(lo));
        }
        return r;
    }
    let mid: usize = lo + (hi - lo) / 2;
    let left = sort_range(keys, lo, mid);
    let right = sort_range(keys, mid, hi);
    merge(keys, &left, &right, lo, mid, hi)
}

/// The order in which a stable sort by `keys` puts the items.
pub fn stable_order<K: SortKey>(keys: &Vec<K>) -> (r: Vec<usize>)
    ensures
        lists(r@, 0, keys.len() as int),
        ordered(keys@, r@),
{
    sort_range(keys, 0, keys.len())
}

/// There is only one order in which a stable sort can put the items.
pub proof fn stable_order_is_unique<K: SortKey>(keys: Seq<K>, a: Seq<usize>, b: Seq<usize>)
    requires
        lists(a, 0, keys.len() as int),
        lists(b, 0, keys.len() as int),
        ordered(keys, a),
        ordered(keys, b),
    ensures
        a == b,
{
    lemma_goes_before(keys);
    assert forall|n: int| 0 <= n < a.len() implies a[n] == b[n] by {
        lemma_same_item(keys, a, b, n);
    }
    assert(a =~= b);
}

proof fn lemma_same_item<K: SortKey>(keys: Seq<K>, a: Seq<usize>, b: Seq<usize>, n: int)
    requires
        lists(a, 0, keys.len() as int),
        lists(b, 0, keys.len() as int),
        ordered(keys, a),
        ordered(keys, b),
        0 <= n < a.len(),
    ensures
        a[n] == b[n],
    decreases n,
{
    lemma_goes_before(keys);
    assert forall|m: int| 0 <= m < n implies a[m] == b[m] by {
        lemma_same_item(keys, a, b, m);
    }
    let x = a[n];
    let y = b[n];
    assert(b.contains(x));
    assert(a.contains(y));
    let p = choose|p: int| 0 <= p < b.len() && b[p] == x;
    let q = choose|q: int| 0 <= q < a.len() && a[q] == y;
    if p < n {
        assert(a[p] == x);
    }
    if q < n {
        assert(b[q] == y);
    }
    if x != y {
        assert(goes_before(keys, b[n] as int, b[p] as int));
        assert(goes_before(keys, a[n] as int, a[q] as int));
    }
}

/// In an order, no item stands behind one that it should come before, and items whose
/// keys leave it open stand as they did.
pub proof fn order_keeps_equal_items_as_they_stood<K: SortKey>(
    keys: Seq<K>,
    order: Seq<usize>,
    a: int,
    b: int,
)
    requires
        ordered(keys, order),
        0 <= a < b < order.len(),
    ensures
        !keys[order[b] as int].less(&keys[order[a] as int]),
        !keys[order[a] as int].less(&keys[order[b] as int]) ==> order[a] < order[b],
{
    lemma_goes_before(keys);
    assert(goes_before(keys, order[a] as int, order[b] as int));
    assert(!goes_before(keys, order[b] as int, order[a] as int));
}

} // verus!
