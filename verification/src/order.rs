//! Putting items in order by a numeric key.

use vstd::prelude::*;

verus! {

/// Which way to order.
#[derive(Debug, Clone, Copy, PartialEq, Eq, Structural)]
pub enum Direction {
    Ascending,
    Descending,
}

/// Whether item `a` comes before item `b`: by key, and for equal keys in the
/// order in which the items were given.
pub open spec fn precedes(keys: Seq<i64>, dir: Direction, a: int, b: int) -> bool {
    ||| keys[a] == keys[b] && a < b
    ||| dir is Ascending && keys[a] < keys[b]
    ||| dir is Descending && keys[a] > keys[b]
}

/// Whether `order` lists the positions of all items, each before those that it
/// precedes.
pub open spec fn is_order(keys: Seq<i64>, dir: Direction, order: Seq<usize>) -> bool {
    &&& order.len() == keys.len()
    &&& forall|i: int| 0 <= i < order.len() ==> #[trigger] order[i] < keys.len()
    &&& forall|i: int, j: int|
        0 <= i < j < order.len() ==> precedes(
            keys,
            dir,
            #[trigger] order[i] as int,
            #[trigger] order[j] as int,
        )
}

/// The one order of the items that have the given keys.
pub open spec fn the_order(keys: Seq<i64>, dir: Direction) -> Seq<usize> {
    choose|order: Seq<usize>| is_order(keys, dir, order)
}

/// Whether position `k` stands in `order`.
pub open spec fn lists(order: Seq<usize>, k: int) -> bool {
    exists|i: int| 0 <= i < order.len() && order[i] == k
}

/// The order of the items that have the given keys.
pub fn order_by(keys: &Vec<i64>, dir: Direction) -> (r: Vec<usize>)
    ensures
        is_order(keys@, dir, r@),
        r@ == the_order(keys@, dir),
{
    let mut order: Vec<usize> = Vec::new();
    let mut k: usize = 0;
    while k < keys.len()
        invariant
            k <= keys@.len(),
            order@.len() == k,
            forall|i: int| 0 <= i < k ==> #[trigger] order@[i] < k,
            forall|i: int, j: int|
                0 <= i < j < k ==> precedes(
                    keys@,
                    dir,
                    #[trigger] order@[i] as int,
                    #[trigger] order@[j] as int,
                ),
        decreases keys@.len() - k,
    {
        let mut at: usize = k;
        let mut found = false;
        while at > 0 && !found
            invariant
                at <= k < keys@.len(),
                order@.len() == k,
                forall|i: int| 0 <= i < k ==> #[trigger] order@[i] < k,
                forall|j: int| at <= j < k ==> precedes(keys@, dir, k as int, #[trigger] order@[j] as int),
                found ==> at > 0 && precedes(keys@, dir, order@[at - 1] as int, k as int),
            decreases at + (if found { 0int } else { 1int }),
        {
            let prev: i64 = keys[order[at - 1]];
            let stays = match dir {
                Direction::Ascending => prev <= keys[k],
                Direction::Descending => prev >= keys[k],
            };
            if stays {
                found = true;
            } else {
                at -= 1;
            }
        }
        let ghost before = order@;
        order.insert(at, k);
        proof {
            assert forall|i: int, j: int| 0 <= i < j < k + 1 implies precedes(
                keys@,
                dir,
                #[trigger] order@[i] as int,
                #[trigger] order@[j] as int,
            ) by {
                let bi = if i < at { i } else { i - 1 };
                let bj = if j < at { j } else { j - 1 };
                if i != at && j != at {
                    assert(order@[i] == before[bi] && order@[j] == before[bj]);
                } else if i == at {
                    assert(order@[j] == before[bj]);
                } else {
                    assert(order@[i] == before[i]);
                    if i < at - 1 {
                        assert(precedes(keys@, dir, before[i] as int, before[at - 1] as int));
                    }
                }
            }
            assert forall|i: int| 0 <= i < k + 1 implies #[trigger] order@[i] < k + 1 by {
                if i < at {
                    assert(order@[i] == before[i]);
                } else if i > at {
                    assert(order@[i] == before[i - 1]);
                }
            }
        }
        k += 1;
    }
    proof {
        assert(is_order(keys@, dir, order@));
        order_is_unique(keys@, dir, order@, the_order(keys@, dir));
    }
    order
}

/// An order lists every item exactly once.
pub proof fn order_lists_every_item_once(keys: Seq<i64>, dir: Direction, order: Seq<usize>)
    requires
        is_order(keys, dir, order),
    ensures
        order.no_duplicates(),
        forall|k: int| 0 <= k < keys.len() ==> #[trigger] lists(order, k),
{
    assert(order.no_duplicates()) by {
        assert forall|i: int, j: int|
            0 <= i < order.len() && 0 <= j < order.len() && i != j implies order[i] != order[j] by {
            if i < j {
                assert(precedes(keys, dir, order[i] as int, order[j] as int));
            } else {
                assert(precedes(keys, dir, order[j] as int, order[i] as int));
            }
        }
    }
    let ints = order.map_values(|x: usize| x as int);
    assert(ints.no_duplicates());
    ints.unique_seq_to_set();
    let all = vstd::set_lib::set_int_range(0, keys.len() as int);
    vstd::set_lib::lemma_int_range(0, keys.len() as int);
    assert(ints.to_set().subset_of(all)) by {
        assert forall|x: int| ints.to_set().contains(x) implies all.contains(x) by {
            let i = choose|i: int| 0 <= i < ints.len() && ints[i] == x;
            assert(order[i] < keys.len());
        }
    }
    vstd::set_lib::lemma_subset_equality(ints.to_set(), all);
    assert forall|k: int| 0 <= k < keys.len() implies #[trigger] lists(order, k) by {
        assert(all.contains(k));
        assert(ints.contains(k));
        let i = choose|i: int| 0 <= i < ints.len() && ints[i] == k;
        assert(order[i] == k);
    }
}

/// The position among `order[..n]` after which the last item belongs.
spec fn place(keys: Seq<i64>, dir: Direction, order: Seq<usize>, n: nat) -> nat
    decreases n,
{
    if n > 0 && precedes(keys, dir, keys.len() - 1, order[n - 1] as int) {
        place(keys, dir, order, (n - 1) as nat)
    } else {
        n
    }
}

proof fn lemma_place(keys: Seq<i64>, dir: Direction, order: Seq<usize>, n: nat)
    requires
        n <= order.len(),
    ensures
        place(keys, dir, order, n) <= n,
        forall|j: int|
            place(keys, dir, order, n) <= j < n ==> precedes(
                keys,
                dir,
                keys.len() - 1,
                #[trigger] order[j] as int,
            ),
        place(keys, dir, order, n) > 0 ==> !precedes(
            keys,
            dir,
            keys.len() - 1,
            order[place(keys, dir, order, n) - 1] as int,
        ),
    decreases n,
{
    if n > 0 && precedes(keys, dir, keys.len() - 1, order[n - 1] as int) {
        lemma_place(keys, dir, order, (n - 1) as nat);
    }
}

/// There is an order, whatever the keys.
pub proof fn order_exists(keys: Seq<i64>, dir: Direction)
    requires
        keys.len() <= usize::MAX,
    ensures
        is_order(keys, dir, the_order(keys, dir)),
    decreases keys.len(),
{
    if keys.len() == 0 {
        assert(is_order(keys, dir, Seq::empty()));
    } else {
        let fewer = keys.drop_last();
        let last = (keys.len() - 1) as usize;
        order_exists(fewer, dir);
        let before = the_order(fewer, dir);
        lemma_place(keys, dir, before, before.len());
        let at = place(keys, dir, before, before.len()) as int;
        let order = before.insert(at, last);
        assert forall|i: int| 0 <= i < order.len() implies #[trigger] order[i] < keys.len() by {
            if i < at {
                assert(order[i] == before[i]);
            } else if i > at {
                assert(order[i] == before[i - 1]);
            }
        }
        assert forall|i: int, j: int| 0 <= i < j < order.len() implies precedes(
            keys,
            dir,
            #[trigger] order[i] as int,
            #[trigger] order[j] as int,
        ) by {
            let bi = if i < at { i } else { i - 1 };
            let bj = if j < at { j } else { j - 1 };
            if i != at && j != at {
                assert(precedes(fewer, dir, before[bi] as int, before[bj] as int));
            } else if i == at {
                assert(order[j] == before[bj]);
            } else {
                assert(order[i] == before[i]);
                if i < at - 1 {
                    assert(precedes(fewer, dir, before[i] as int, before[at - 1] as int));
                }
            }
        }
        assert(is_order(keys, dir, order));
    }
}

/// There is only one order.
pub proof fn order_is_unique(keys: Seq<i64>, dir: Direction, a: Seq<usize>, b: Seq<usize>)
    requires
        is_order(keys, dir, a),
        is_order(keys, dir, b),
    ensures
        a == b,
{
    order_lists_every_item_once(keys, dir, a);
    order_lists_every_item_once(keys, dir, b);
    assert forall|n: int| 0 <= n <= a.len() implies a.take(n) == b.take(n) by {
        lemma_same_prefix(keys, dir, a, b, n);
    }
    assert(a.take(a.len() as int) == a);
    assert(b.take(b.len() as int) == b);
}

proof fn lemma_same_prefix(keys: Seq<i64>, dir: Direction, a: Seq<usize>, b: Seq<usize>, n: int)
    requires
        is_order(keys, dir, a),
        is_order(keys, dir, b),
        0 <= n <= a.len(),
    ensures
        a.take(n) == b.take(n),
    decreases n,
{
    if n > 0 {
        lemma_same_prefix(keys, dir, a, b, n - 1);
        let x = a[n - 1];
        let y = b[n - 1];
        if x != y {
            order_lists_every_item_once(keys, dir, a);
            order_lists_every_item_once(keys, dir, b);
            assert(lists(b, x as int) && lists(a, y as int));
            let i = choose|i: int| 0 <= i < b.len() && b[i] == x;
            let j = choose|j: int| 0 <= j < a.len() && a[j] == y;
            if i < n - 1 {
                assert(a.take(n - 1)[i] == b.take(n - 1)[i]);
                assert(a[i] == x);
            }
            if j < n - 1 {
                assert(a.take(n - 1)[j] == b.take(n - 1)[j]);
                assert(b[j] == y);
            }
            assert(precedes(keys, dir, b[n - 1] as int, b[i] as int));
            assert(precedes(keys, dir, a[n - 1] as int, a[j] as int));
        }
        assert(a.take(n) =~= a.take(n - 1).push(x));
        assert(b.take(n) =~= b.take(n - 1).push(y));
    }
}

/// An order sorts: keys never fall on the way (never rise, if descending), and
/// items with equal keys stay as they were given.
pub proof fn orders_sort_and_are_stable(
    keys: Seq<i64>,
    dir: Direction,
    order: Seq<usize>,
    i: int,
    j: int,
)
    requires
        is_order(keys, dir, order),
        0 <= i < j < order.len(),
    ensures
        order.len() == keys.len(),
        dir is Ascending ==> keys[order[i] as int] <= keys[order[j] as int],
        dir is Descending ==> keys[order[i] as int] >= keys[order[j] as int],
        keys[order[i] as int] == keys[order[j] as int] ==> order[i] < order[j],
{
    assert(precedes(keys, dir, order[i] as int, order[j] as int));
}

/// Whether `at` lists, in order, the positions of exactly the wanted items.
pub open spec fn picks<A>(items: Seq<A>, at: Seq<int>, wanted: spec_fn(A) -> bool) -> bool {
    &&& forall|i: int, j: int| 0 <= i < j < at.len() ==> #[trigger] at[i] < #[trigger] at[j]
    &&& forall|i: int|
        0 <= i < at.len() ==> 0 <= #[trigger] at[i] < items.len() && wanted(items[at[i]])
    &&& forall|k: int| 0 <= k < items.len() && wanted(#[trigger] items[k]) ==> at.contains(k)
}

/// The positions of the items that a filter keeps.
pub open spec fn kept_at<A>(items: Seq<A>, wanted: spec_fn(A) -> bool) -> Seq<int>
    decreases items.len(),
{
    if items.len() == 0 {
        Seq::empty()
    } else if wanted(items.last()) {
        kept_at(items.drop_last(), wanted).push(items.len() - 1)
    } else {
        kept_at(items.drop_last(), wanted)
    }
}

/// A filter keeps every wanted item, nothing else, and the order.
pub proof fn lemma_filter_picks<A>(items: Seq<A>, wanted: spec_fn(A) -> bool)
    ensures
        picks(items, kept_at(items, wanted), wanted),
        items.filter(wanted) == kept_at(items, wanted).map_values(|k: int| items[k]),
    decreases items.len(),
{
    reveal(Seq::filter);
    let at = kept_at(items, wanted);
    if items.len() > 0 {
        let fewer = items.drop_last();
        let before = kept_at(fewer, wanted);
        lemma_filter_picks(fewer, wanted);
        assert forall|i: int| 0 <= i < at.len() implies 0 <= #[trigger] at[i] < items.len()
            && wanted(items[at[i]]) by {
            if i < before.len() {
                assert(at[i] == before[i]);
                assert(fewer[before[i]] == items[before[i]]);
            }
        }
        assert forall|i: int, j: int| 0 <= i < j < at.len() implies #[trigger] at[i]
            < #[trigger] at[j] by {
            assert(at[i] == before[i]);
            if j < before.len() {
                assert(at[j] == before[j]);
            }
        }
        assert forall|k: int| 0 <= k < items.len() && wanted(#[trigger] items[k]) implies at.contains(
            k,
        ) by {
            if k < fewer.len() {
                assert(fewer[k] == items[k]);
                let i = choose|i: int| 0 <= i < before.len() && before[i] == k;
                assert(at[i] == k);
            } else {
                assert(at[at.len() - 1] == k);
            }
        }
        assert(items.filter(wanted) =~= at.map_values(|k: int| items[k])) by {
            assert forall|i: int| 0 <= i < before.len() implies fewer[#[trigger] before[i]]
                == items[before[i]] by {
                assert(0 <= before[i] < fewer.len());
            }
        }
    } else {
        assert(items.filter(wanted) =~= at.map_values(|k: int| items[k]));
    }
}

} // verus!
