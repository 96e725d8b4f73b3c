//! Stable sorting: the order in which items stand once they are sorted by a key.
use vstd::prelude::*;
use vstd::set_lib::*;

verus! {

/// A key that items are sorted by.
pub trait SortKey: Sized {
    /// Whether an item with this key stands before one with the other.
    spec fn before(&self, other: &Self) -> bool;

    /// `before` is irreflexive and transitive, and so is its absence.
    proof fn before_is_weak_order(a: Self, b: Self, c: Self)
        ensures
            !a.before(&a),
            a.before(&b) && b.before(&c) ==> a.before(&c),
            !a.before(&b) && !b.before(&c) ==> !a.before(&c),
    ;

    /// Whether an item with this key stands before one with the other.
    fn precedes(&self, other: &Self) -> (r: bool)
        ensures
            r == self.before(other),
    ;
}

/// Whether item `a` stands before item `b` in a stable sort: by the key, and by the place
/// they came from where the keys tie.
pub open spec fn placed_before<A>(
    items: Seq<A>,
    before: spec_fn(A, A) -> bool,
    a: int,
    b: int,
) -> bool {
    before(items[a], items[b]) || (!before(items[b], items[a]) && a < b)
}

/// Whether `order` lists every index of `items` once, in the order of a stable sort.
pub open spec fn stable_order_of<A>(
    items: Seq<A>,
    before: spec_fn(A, A) -> bool,
    order: Seq<int>,
) -> bool {
    &&& order.len() == items.len()
    &&& forall|i: int| 0 <= i < order.len() ==> 0 <= #[trigger] order[i] < items.len()
    &&& order.no_duplicates()
    &&& forall|i: int, j: int|
        0 <= i < j < order.len() ==> placed_before(
            items,
            before,
            #[trigger] order[i],
            #[trigger] order[j],
        )
}

/// The items picked by a list of indices.
pub open spec fn picked<A>(items: Seq<A>, order: Seq<int>) -> Seq<A> {
    order.map_values(|i: int| items[i])
}

/// Whether `sorted` holds the items of `items` as a stable sort leaves them.
pub open spec fn stably_sorted<A>(
    items: Seq<A>,
    before: spec_fn(A, A) -> bool,
    sorted: Seq<A>,
) -> bool {
    exists|order: Seq<int>| #[trigger]
        stable_order_of(items, before, order) && sorted == picked(items, order)
}

/// The indices as mathematical integers.
pub open spec fn indices(order: Seq<usize>) -> Seq<int> {
    order.map_values(|i: usize| i as int)
}

/// The indices of `keys` in the order of a stable sort.
pub fn stable_order<K: SortKey>(keys: &Vec<K>) -> (order: Vec<usize>)
    ensures
        stable_order_of(keys@, |a: K, b: K| a.before(&b), indices(order@)),
{
    let ghost rel = |a: K, b: K| a.before(&b);
    let mut order: Vec<usize> = Vec::new();
    let mut n: usize = 0;
    while n < keys.len()
        invariant
            n <= keys@.len(),
            order@.len() == n,
            rel == (|a: K, b: K| a.before(&b)),
            forall|i: int| 0 <= i < n ==> #[trigger] order@[i] < n,
            order@.no_duplicates(),
            forall|i: int, j: int|
                0 <= i < j < n ==> placed_before(
                    keys@,
                    rel,
                    #[trigger] order@[i] as int,
                    #[trigger] order@[j] as int,
                ),
        decreases keys@.len() - n,
    {
        let mut at: usize = n;
        while at > 0 && keys[n].precedes(&keys[order[at - 1]])
            invariant
                at <= n < keys@.len(),
                order@.len() == n,
                forall|i: int| 0 <= i < n ==> #[trigger] order@[i] < n,
                forall|i: int|
                    at <= i < n ==> keys@[n as int].before(&keys@[#[trigger] order@[i] as int]),
            decreases at,
        {
            at = at - 1;
        }
        let ghost prev = order@;
        order.insert(at, n);
        proof {
            assert forall|i: int, j: int| 0 <= i < j < n + 1 implies placed_before(
                keys@,
                rel,
                #[trigger] order@[i] as int,
                #[trigger] order@[j] as int,
            ) by {
                let pi = if i < at { i } else { i - 1 };
                let pj = if j < at { j } else { j - 1 };
                if i == at {
                    assert(order@[j] == prev[pj]);
                    assert(prev[pj] < n);
                } else if j == at {
                    assert(order@[i] == prev[i]);
                    assert(prev[i] < n);
                    let kn = keys@[n as int];
                    let ki = keys@[prev[i] as int];
                    let kl = keys@[prev[at - 1] as int];
                    if i < at - 1 {
                        assert(placed_before(keys@, rel, prev[i] as int, prev[at - 1] as int));
                    }
                    K::before_is_weak_order(ki, kl, kn);
                    K::before_is_weak_order(kl, ki, kn);
                    K::before_is_weak_order(kn, ki, kl);
                    K::before_is_weak_order(kn, kl, ki);
                } else {
                    assert(order@[i] == prev[pi]);
                    assert(order@[j] == prev[pj]);
                }
            }
            assert(order@.no_duplicates()) by {
                assert forall|i: int, j: int|
                    0 <= i < order@.len() && 0 <= j < order@.len() && i != j implies order@[i]
                    != order@[j] by {
                    let pi = if i < at { i } else { i - 1 };
                    let pj = if j < at { j } else { j - 1 };
                    if i == at {
                        assert(order@[j] == prev[pj]);
                    } else if j == at {
                        assert(order@[i] == prev[pi]);
                    } else {
                        assert(order@[i] == prev[pi] && order@[j] == prev[pj]);
                    }
                }
            }
            assert forall|i: int| 0 <= i < n + 1 implies #[trigger] order@[i] < n + 1 by {
                let pi = if i < at { i } else { i - 1 };
                if i != at {
                    assert(order@[i] == prev[pi]);
                }
            }
        }
        n = n + 1;
    }
    proof {
        let o = indices(order@);
        assert(o.no_duplicates());
        assert forall|i: int, j: int| 0 <= i < j < o.len() implies placed_before(
            keys@,
            rel,
            #[trigger] o[i],
            #[trigger] o[j],
        ) by {
            assert(o[i] == order@[i] as int && o[j] == order@[j] as int);
        }
    }
    order
}

/// The items in the given order.
pub fn pick<T>(items: Vec<T>, order: &Vec<usize>) -> (r: Vec<T>)
    requires
        order@.no_duplicates(),
        forall|i: int| 0 <= i < order@.len() ==> (#[trigger] order@[i]) < items@.len(),
    ensures
        r@ == picked(items@, indices(order@)),
{
    let ghost all = items@;
    let mut slots: Vec<Option<T>> = Vec::new();
    for item in it: items
        invariant
            it.seq() == all,
            slots@.len() == it.index(),
            forall|j: int| 0 <= j < slots@.len() ==> #[trigger] slots@[j] == Some(all[j]),
    {
        slots.push(Some(item));
    }
    let mut out: Vec<T> = Vec::new();
    let mut i: usize = 0;
    while i < order.len()
        invariant
            i <= order@.len(),
            order@.no_duplicates(),
            forall|j: int| 0 <= j < order@.len() ==> (#[trigger] order@[j]) < all.len(),
            slots@.len() == all.len(),
            forall|j: int| i <= j < order@.len() ==> slots@[#[trigger] order@[j] as int] == Some(
                all[order@[j] as int],
            ),
            out@.len() == i,
            forall|j: int| 0 <= j < i ==> #[trigger] out@[j] == all[order@[j] as int],
        decreases order@.len() - i,
    {
        let k = order[i];
        let mut taken: Option<T> = None;
        std::mem::swap(&mut taken, &mut slots[k]);
        assert(taken == Some(all[k as int]));
        if let Some(item) = taken {
            out.push(item);
        }
        i = i + 1;
    }
    assert(out@ =~= picked(all, indices(order@)));
    out
}

/// The contents of a list of items.
pub open spec fn views<T: View>(items: Seq<T>) -> Seq<T::V> {
    items.map_values(|t: T| t@)
}

/// Whether each key stands for the item at its place: keys are ordered as the items are.
pub open spec fn keyed<K: SortKey, A>(
    keys: Seq<K>,
    items: Seq<A>,
    before: spec_fn(A, A) -> bool,
) -> bool {
    &&& keys.len() == items.len()
    &&& forall|i: int, j: int|
        0 <= i < items.len() && 0 <= j < items.len() ==> keys[i].before(&keys[j]) == before(
            #[trigger] items[i],
            #[trigger] items[j],
        )
}

/// The order of the keys is that of the items.
pub proof fn lemma_order_by_keys<K: SortKey, A>(
    keys: Seq<K>,
    items: Seq<A>,
    before: spec_fn(A, A) -> bool,
    order: Seq<int>,
)
    requires
        keyed(keys, items, before),
        stable_order_of(keys, |a: K, b: K| a.before(&b), order),
    ensures
        stable_order_of(items, before, order),
{
    let by_key = |a: K, b: K| a.before(&b);
    assert forall|p: int, q: int| 0 <= p < q < order.len() implies placed_before(
        items,
        before,
        #[trigger] order[p],
        #[trigger] order[q],
    ) by {
        assert(placed_before(keys, by_key, order[p], order[q]));
        let a = items[order[p]];
        let b = items[order[q]];
        assert(keys[order[p]].before(&keys[order[q]]) == before(a, b));
        assert(keys[order[q]].before(&keys[order[p]]) == before(b, a));
    }
}

/// The indices of a stable order are different, and each is that of an item.
pub proof fn lemma_order_facts<A>(items: Seq<A>, before: spec_fn(A, A) -> bool, order: Seq<usize>)
    requires
        stable_order_of(items, before, indices(order)),
    ensures
        order.no_duplicates(),
        forall|i: int| 0 <= i < order.len() ==> (#[trigger] order[i]) < items.len(),
{
    let spots = indices(order);
    assert forall|i: int| 0 <= i < order.len() implies (#[trigger] order[i]) < items.len() by {
        assert(0 <= spots[i] < items.len());
    }
    assert forall|p: int, q: int| 0 <= p < order.len() && 0 <= q < order.len() && p
        != q implies order[p] != order[q] by {
        assert(spots[p] != spots[q]);
    }
}

/// The items as a stable sort by their keys leaves them; `before` is the order of their contents.
pub fn sort_by_keys<T: View, K: SortKey>(
    items: Vec<T>,
    keys: &Vec<K>,
    Ghost(before): Ghost<spec_fn(T::V, T::V) -> bool>,
) -> (r: Vec<T>)
    requires
        keyed(keys@, views(items@), before),
    ensures
        stably_sorted(views(items@), before, views(r@)),
{
    let ghost all = views(items@);
    let order = stable_order(keys);
    let ghost spots = indices(order@);
    proof {
        lemma_order_by_keys(keys@, all, before, spots);
        lemma_order_facts(all, before, order@);
    }
    let sorted = pick(items, &order);
    assert(views(sorted@) =~= picked(all, spots)) by {
        assert forall|p: int| 0 <= p < spots.len() implies views(sorted@)[p] == picked(
            all,
            spots,
        )[p] by {
            assert(0 <= spots[p] < all.len());
        }
    }
    sorted
}

/// Whether `before` orders items as sorting needs it: it is irreflexive and transitive, and so is
/// its absence.
pub open spec fn weak_order<A>(before: spec_fn(A, A) -> bool) -> bool {
    &&& forall|a: A| !#[trigger] before(a, a)
    &&& forall|a: A, b: A, c: A| #[trigger]
        before(a, b) && #[trigger] before(b, c) ==> before(a, c)
    &&& forall|a: A, b: A, c: A|
        !#[trigger] before(a, b) && !#[trigger] before(b, c) ==> !before(a, c)
}

/// Sorting neither loses nor adds anything.
pub proof fn sorting_keeps_the_items<A>(
    items: Seq<A>,
    before: spec_fn(A, A) -> bool,
    sorted: Seq<A>,
    x: A,
)
    requires
        stably_sorted(items, before, sorted),
    ensures
        sorted.len() == items.len(),
        sorted.contains(x) == items.contains(x),
{
    let order = choose|order: Seq<int>| #[trigger]
        stable_order_of(items, before, order) && sorted == picked(items, order);
    if items.contains(x) {
        let i = choose|i: int| 0 <= i < items.len() && items[i] == x;
        lemma_every_index(items.len(), order, i);
        let p = choose|p: int| 0 <= p < order.len() && order[p] == i;
        assert(sorted[p] == x);
    }
    if sorted.contains(x) {
        let p = choose|p: int| 0 <= p < sorted.len() && sorted[p] == x;
        assert(0 <= order[p] < items.len());
        assert(items[order[p]] == x);
    }
}

/// A stable sort has one result only.
pub proof fn stable_sorts_agree<A>(
    items: Seq<A>,
    before: spec_fn(A, A) -> bool,
    a: Seq<A>,
    b: Seq<A>,
)
    requires
        weak_order(before),
        stably_sorted(items, before, a),
        stably_sorted(items, before, b),
    ensures
        a == b,
{
    let x = choose|order: Seq<int>| #[trigger]
        stable_order_of(items, before, order) && a == picked(items, order);
    let y = choose|order: Seq<int>| #[trigger]
        stable_order_of(items, before, order) && b == picked(items, order);
    lemma_same_order(items, before, x, y, x.len());
    assert(x =~= y);
}

proof fn lemma_same_order<A>(
    items: Seq<A>,
    before: spec_fn(A, A) -> bool,
    x: Seq<int>,
    y: Seq<int>,
    n: nat,
)
    requires
        weak_order(before),
        stable_order_of(items, before, x),
        stable_order_of(items, before, y),
        n <= x.len(),
    ensures
        forall|i: int| 0 <= i < n ==> #[trigger] x[i] == y[i],
    decreases n,
{
    if n > 0 {
        let i = n - 1;
        lemma_same_order(items, before, x, y, i as nat);
        if x[i] != y[i] {
            lemma_every_index(items.len(), x, y[i]);
            lemma_every_index(items.len(), y, x[i]);
            let p = choose|p: int| 0 <= p < x.len() && x[p] == y[i];
            let q = choose|q: int| 0 <= q < y.len() && y[q] == x[i];
            assert(p > i) by {
                if p < i {
                    assert(x[p] == y[p]);
                }
            }
            assert(q > i) by {
                if q < i {
                    assert(x[q] == y[q]);
                }
            }
            assert(placed_before(items, before, x[i], x[p]));
            assert(placed_before(items, before, y[i], y[q]));
        }
    }
}

pub proof fn lemma_every_index(n: nat, order: Seq<int>, v: int)
    requires
        order.len() == n,
        order.no_duplicates(),
        forall|i: int| 0 <= i < n ==> 0 <= #[trigger] order[i] < n,
        0 <= v < n,
    ensures
        order.contains(v),
{
    let seen = order.to_set();
    let all = set_int_range(0, n as int);
    order.unique_seq_to_set();
    lemma_int_range(0, n as int);
    assert(seen.subset_of(all)) by {
        assert forall|x: int| seen.contains(x) implies all.contains(x) by {
            let i = choose|i: int| 0 <= i < order.len() && order[i] == x;
            assert(0 <= order[i] < n);
        }
    }
    lemma_subset_equality(seen, all);
    assert(seen.contains(v));
}

/// A stable sort puts what comes before earlier, and keeps the order of what ties.
pub proof fn sorted_items_stand_in_order<A>(
    items: Seq<A>,
    before: spec_fn(A, A) -> bool,
    order: Seq<int>,
    p: int,
    q: int,
)
    requires
        weak_order(before),
        stable_order_of(items, before, order),
        0 <= p < q < order.len(),
    ensures
        !before(items[order[q]], items[order[p]]),
        !before(items[order[p]], items[order[q]]) ==> order[p] < order[q],
        picked(items, order)[p] == items[order[p]],
{
    let a = items[order[p]];
    let b = items[order[q]];
    assert(placed_before(items, before, order[p], order[q]));
    if before(a, b) && before(b, a) {
        assert(before(a, a));
    }
}

} // verus!
