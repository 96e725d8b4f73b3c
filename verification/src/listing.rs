//! Files of a directory that are read, in the order of their names.
use vstd::prelude::*;
use vstd::string::*;

use crate::order::{
    indices, lemma_every_index, lemma_order_by_keys, lemma_order_facts, placed_before, stable_order,
    stable_order_of, SortKey,
};
use crate::paths::{is_mailbox_file, is_status_file, mailbox_file, status_file};
use crate::text::{
    comes_before, text_before, text_before_irreflexive, text_before_total, text_before_transitive,
    texts,
};

verus! {

/// A name that things are sorted by.
#[derive(Debug)]
pub struct NameKey {
    pub name: String,
}

impl SortKey for NameKey {
    open spec fn before(&self, other: &Self) -> bool {
        text_before(self.name@, other.name@)
    }

    proof fn before_is_weak_order(a: Self, b: Self, c: Self) {
        lemma_text_order(a.name@, b.name@, c.name@);
    }

    fn precedes(&self, other: &Self) -> bool {
        comes_before(self.name.as_str(), other.name.as_str())
    }
}

/// Texts are in a weak order, in which equal ones alone tie.
pub proof fn lemma_text_order(a: Seq<char>, b: Seq<char>, c: Seq<char>)
    ensures
        !text_before(a, a),
        text_before(a, b) && text_before(b, c) ==> text_before(a, c),
        !text_before(a, b) && !text_before(b, c) ==> !text_before(a, c),
{
    text_before_irreflexive(a);
    text_before_irreflexive(b);
    if text_before(a, b) && text_before(b, c) {
        text_before_transitive(a, b, c);
    }
    text_before_total(a, b);
    text_before_total(b, c);
    if text_before(b, a) && text_before(c, b) {
        text_before_transitive(c, b, a);
        if text_before(a, c) {
            text_before_transitive(a, c, a);
        }
    }
    if text_before(b, a) && b == c && text_before(a, c) {
        text_before_transitive(a, c, a);
    }
    if a == b && text_before(c, b) && text_before(a, c) {
        text_before_transitive(a, c, a);
    }
}

/// The order of names.
pub open spec fn by_name() -> spec_fn(Seq<char>, Seq<char>) -> bool {
    |a: Seq<char>, b: Seq<char>| text_before(a, b)
}

/// Whether `order` lists the indices of the names that are kept, each once, by name.
pub open spec fn kept_in_order(
    names: Seq<Seq<char>>,
    keep: spec_fn(Seq<char>) -> bool,
    order: Seq<int>,
) -> bool {
    &&& order.no_duplicates()
    &&& forall|i: int| #[trigger]
        order.contains(i) <==> 0 <= i < names.len() && keep(names[i])
    &&& forall|p: int, q: int|
        0 <= p < q < order.len() ==> placed_before(
            names,
            by_name(),
            #[trigger] order[p],
            #[trigger] order[q],
        )
}

fn name_order(names: &Vec<String>) -> (r: Vec<usize>)
    ensures
        stable_order_of(texts(names@), by_name(), indices(r@)),
{
    let mut keys: Vec<NameKey> = Vec::new();
    let mut i: usize = 0;
    while i < names.len()
        invariant
            i <= names@.len(),
            keys@.len() == i,
            forall|j: int| 0 <= j < i ==> (#[trigger] keys@[j]).name@ == names@[j]@,
        decreases names@.len() - i,
    {
        keys.push(NameKey { name: names[i].clone() });
        i = i + 1;
    }
    let order = stable_order(&keys);
    proof {
        lemma_order_by_keys(keys@, texts(names@), by_name(), indices(order@));
    }
    order
}

/// Whether one value stands before another on a list.
spec fn in_turn(order: Seq<usize>, a: usize, b: usize) -> bool {
    exists|x: int, y: int|
        0 <= x < y < order.len() && #[trigger] order[x] == a && #[trigger] order[y] == b
}

/// Those of the indices whose place is marked, in their order.
fn marked(order: &Vec<usize>, marks: &Vec<bool>) -> (r: Vec<usize>)
    requires
        forall|i: int| 0 <= i < order@.len() ==> (#[trigger] order@[i]) < marks@.len(),
        order@.no_duplicates(),
    ensures
        r@.no_duplicates(),
        forall|i: usize| #[trigger]
            r@.contains(i) <==> order@.contains(i) && marks@[i as int],
        forall|p: int, q: int|
            0 <= p < q < r@.len() ==> in_turn(order@, #[trigger] r@[p], #[trigger] r@[q]),
{
    let mut kept: Vec<usize> = Vec::new();
    let ghost mut from: Seq<int> = Seq::empty();
    let mut i: usize = 0;
    while i < order.len()
        invariant
            i <= order@.len(),
            forall|j: int| 0 <= j < order@.len() ==> (#[trigger] order@[j]) < marks@.len(),
            from.len() == kept@.len(),
            forall|p: int|
                0 <= p < from.len() ==> 0 <= #[trigger] from[p] < i && order@[from[p]] == kept@[p]
                    && marks@[kept@[p] as int],
            forall|p: int, q: int|
                0 <= p < q < from.len() ==> #[trigger] from[p] < #[trigger] from[q],
            forall|j: int|
                0 <= j < i && marks@[#[trigger] order@[j] as int] ==> kept@.contains(order@[j]),
        decreases order@.len() - i,
    {
        let k = order[i];
        if marks[k] {
            let ghost before = kept@;
            kept.push(k);
            proof {
                from = from.push(i as int);
                assert(kept@[before.len() as int] == k);
                assert forall|j: int|
                    0 <= j < i + 1 && marks@[#[trigger] order@[j] as int] implies kept@.contains(
                    order@[j],
                ) by {
                    if j < i {
                        assert(before.contains(order@[j]));
                        let p = choose|p: int| 0 <= p < before.len() && before[p] == order@[j];
                        assert(kept@[p] == order@[j]);
                    }
                }
            }
        }
        i = i + 1;
    }
    proof {
        assert forall|x: usize| #[trigger] kept@.contains(x) implies order@.contains(x)
            && marks@[x as int] by {
            let p = choose|p: int| 0 <= p < kept@.len() && kept@[p] == x;
            assert(order@[from[p]] == x);
        }
        assert forall|x: usize| order@.contains(x) && marks@[x as int] implies #[trigger] kept@.contains(
            x,
        ) by {
            let j = choose|j: int| 0 <= j < order@.len() && order@[j] == x;
            assert(marks@[order@[j] as int]);
        }
        assert forall|p: int, q: int| 0 <= p < q < kept@.len() implies in_turn(
            order@,
            #[trigger] kept@[p],
            #[trigger] kept@[q],
        ) by {
            assert(from[p] < from[q]);
            assert(order@[from[p]] == kept@[p] && order@[from[q]] == kept@[q]);
        }
        assert forall|p: int, q: int| 0 <= p < kept@.len() && 0 <= q < kept@.len() && p
            != q implies kept@[p] != kept@[q] by {
            assert(order@[from[p]] == kept@[p] && order@[from[q]] == kept@[q]);
            if p < q {
                assert(from[p] < from[q]);
            } else {
                assert(from[q] < from[p]);
            }
        }
    }
    kept
}

proof fn lemma_kept(
    names: Seq<Seq<char>>,
    keep: spec_fn(Seq<char>) -> bool,
    order: Seq<usize>,
    marks: Seq<bool>,
    kept: Seq<usize>,
)
    requires
        stable_order_of(names, by_name(), indices(order)),
        marks.len() == names.len(),
        forall|i: int| 0 <= i < marks.len() ==> #[trigger] marks[i] == keep(names[i]),
        kept.no_duplicates(),
        forall|i: usize| #[trigger]
            kept.contains(i) <==> order.contains(i) && marks[i as int],
        forall|p: int, q: int|
            0 <= p < q < kept.len() ==> in_turn(order, #[trigger] kept[p], #[trigger] kept[q]),
    ensures
        kept_in_order(names, keep, indices(kept)),
{
    let spots = indices(order);
    let r = indices(kept);
    assert forall|p: int, q: int| 0 <= p < r.len() && 0 <= q < r.len() && p != q implies r[p]
        != r[q] by {
        assert(kept[p] != kept[q]);
    }
    assert forall|i: int| #[trigger] r.contains(i) implies 0 <= i < names.len() && keep(
        names[i],
    ) by {
        let p = choose|p: int| 0 <= p < r.len() && r[p] == i;
        assert(kept.contains(kept[p]));
        let x = choose|x: int| 0 <= x < order.len() && order[x] == kept[p];
        assert(spots[x] == i);
        assert(marks[i]);
    }
    assert forall|i: int| 0 <= i < names.len() && keep(names[i]) implies #[trigger] r.contains(
        i,
    ) by {
        lemma_every_index(names.len(), spots, i);
        let x = choose|x: int| 0 <= x < spots.len() && spots[x] == i;
        assert(marks[i]);
        assert(order.contains(order[x]));
        assert(kept.contains(order[x]));
        let p = choose|p: int| 0 <= p < kept.len() && kept[p] == order[x];
        assert(r[p] == i);
    }
    assert forall|p: int, q: int| 0 <= p < q < r.len() implies placed_before(
        names,
        by_name(),
        #[trigger] r[p],
        #[trigger] r[q],
    ) by {
        assert(in_turn(order, kept[p], kept[q]));
        let (x, y) = choose|x: int, y: int|
            0 <= x < y < order.len() && #[trigger] order[x] == kept[p] && #[trigger] order[y]
                == kept[q];
        assert(placed_before(names, by_name(), spots[x], spots[y]));
    }
}

/// The files of a log directory that hold statuses, by name.
pub fn status_files(names: &Vec<String>) -> (r: Vec<usize>)
    ensures
        kept_in_order(texts(names@), |name: Seq<char>| status_file(name), indices(r@)),
{
    let ghost keep = |name: Seq<char>| status_file(name);
    let order = name_order(names);
    let mut marks: Vec<bool> = Vec::new();
    let mut i: usize = 0;
    while i < names.len()
        invariant
            i <= names@.len(),
            marks@.len() == i,
            forall|j: int| 0 <= j < i ==> #[trigger] marks@[j] == status_file(names@[j]@),
        decreases names@.len() - i,
    {
        marks.push(is_status_file(names[i].as_str()));
        i = i + 1;
    }
    proof {
        lemma_order_facts(texts(names@), by_name(), order@);
    }
    let kept = marked(&order, &marks);
    proof {
        lemma_kept(texts(names@), keep, order@, marks@, kept@);
    }
    kept
}

/// The files of a message directory that hold messages, by name.
pub fn mailbox_files(names: &Vec<String>) -> (r: Vec<usize>)
    ensures
        kept_in_order(texts(names@), |name: Seq<char>| mailbox_file(name), indices(r@)),
{
    let ghost keep = |name: Seq<char>| mailbox_file(name);
    let order = name_order(names);
    let mut marks: Vec<bool> = Vec::new();
    let mut i: usize = 0;
    while i < names.len()
        invariant
            i <= names@.len(),
            marks@.len() == i,
            forall|j: int| 0 <= j < i ==> #[trigger] marks@[j] == mailbox_file(names@[j]@),
        decreases names@.len() - i,
    {
        marks.push(is_mailbox_file(names[i].as_str()));
        i = i + 1;
    }
    proof {
        lemma_order_facts(texts(names@), by_name(), order@);
    }
    let kept = marked(&order, &marks);
    proof {
        lemma_kept(texts(names@), keep, order@, marks@, kept@);
    }
    kept
}

/// The files that are read are those that are kept, each once, and those with earlier names first.
pub proof fn kept_files_are_read_by_name(
    names: Seq<Seq<char>>,
    keep: spec_fn(Seq<char>) -> bool,
    order: Seq<int>,
    p: int,
    q: int,
)
    requires
        kept_in_order(names, keep, order),
        0 <= p < q < order.len(),
    ensures
        order[p] != order[q],
        0 <= order[p] < names.len() && keep(names[order[p]]),
        0 <= order[q] < names.len() && keep(names[order[q]]),
        names[order[p]] == names[order[q]] || text_before(names[order[p]], names[order[q]]),
{
    assert(order.contains(order[p]) && order.contains(order[q]));
    assert(placed_before(names, by_name(), order[p], order[q]));
    text_before_total(names[order[p]], names[order[q]]);
}

/// No file that is kept is left out.
pub proof fn no_kept_file_is_left_out(
    names: Seq<Seq<char>>,
    keep: spec_fn(Seq<char>) -> bool,
    order: Seq<int>,
    i: int,
)
    requires
        kept_in_order(names, keep, order),
        0 <= i < names.len(),
        keep(names[i]),
    ensures
        exists|p: int| 0 <= p < order.len() && #[trigger] order[p] == i,
{
    assert(order.contains(i));
}

} // verus!
