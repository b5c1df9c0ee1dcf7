//! The knapsack problem: which items to take, each whole or not at all, so
//! that they fit and are worth the most.

use vstd::prelude::*;

verus! {

/// An item that can go into the knapsack.
#[derive(Debug, Clone, Copy, PartialEq, Eq)]
pub struct Item {
    pub name: &'static str,
    pub weight: usize,
    pub value: u32,
}

/// The most that items among the first `i` are worth together when they
/// weigh no more than `capacity`. Without capacity nothing is taken, not
/// even an item without weight.
pub open spec fn best_value(items: Seq<Item>, i: int, capacity: int) -> int
    decreases i,
{
    if i <= 0 || capacity <= 0 {
        0
    } else {
        let without = best_value(items, i - 1, capacity);
        let item = items[i - 1];
        if capacity >= item.weight {
            let with = best_value(items, i - 1, capacity - item.weight) + item.value;
            if with > without {
                with
            } else {
                without
            }
        } else {
            without
        }
    }
}

/// The items taken among the first `i` for the best value within
/// `capacity`, the last of them first: an item is taken where the best value
/// is less without it.
pub open spec fn taken(items: Seq<Item>, i: int, capacity: int) -> Seq<Item>
    decreases i,
{
    if i <= 0 {
        Seq::empty()
    } else if best_value(items, i - 1, capacity) != best_value(items, i, capacity) {
        seq![items[i - 1]] + taken(items, i - 1, capacity - items[i - 1].weight)
    } else {
        taken(items, i - 1, capacity)
    }
}

/// The weight of some items together.
pub open spec fn total_weight(items: Seq<Item>) -> int
    decreases items.len(),
{
    if items.len() == 0 {
        0
    } else {
        total_weight(items.drop_first()) + items[0].weight
    }
}

/// The value of some items together.
pub open spec fn total_value(items: Seq<Item>) -> int
    decreases items.len(),
{
    if items.len() == 0 {
        0
    } else {
        total_value(items.drop_first()) + items[0].value
    }
}

/// The weight of those of the first `i` items that `picks` marks.
pub open spec fn picked_weight(items: Seq<Item>, picks: Seq<bool>, i: int) -> int
    decreases i,
{
    if i <= 0 {
        0
    } else {
        picked_weight(items, picks, i - 1) + if picks[i - 1] {
            items[i - 1].weight as int
        } else {
            0
        }
    }
}

/// The value of those of the first `i` items that `picks` marks.
pub open spec fn picked_value(items: Seq<Item>, picks: Seq<bool>, i: int) -> int
    decreases i,
{
    if i <= 0 {
        0
    } else {
        picked_value(items, picks, i - 1) + if picks[i - 1] {
            items[i - 1].value as int
        } else {
            0
        }
    }
}

/// The best value is not negative, grows with the capacity, and is at most
/// the greatest value of an item times the number of items.
pub proof fn lemma_best_value_bounds(items: Seq<Item>, i: int, capacity: int)
    requires
        0 <= i <= items.len(),
    ensures
        0 <= best_value(items, i, capacity) <= i * u32::MAX,
    decreases i,
{
    if i > 0 {
        lemma_best_value_bounds(items, i - 1, capacity);
        lemma_best_value_bounds(items, i - 1, capacity - items[i - 1].weight);
        assert(i * u32::MAX == (i - 1) * u32::MAX + u32::MAX) by (nonlinear_arith);
    }
}

/// No choice of items among the first `i` that fits `capacity` is worth
/// more than the best value, where every item has weight.
pub proof fn lemma_best_value_is_best(items: Seq<Item>, picks: Seq<bool>, i: int, capacity: int)
    requires
        0 <= i <= items.len(),
        forall|k: int| 0 <= k < items.len() ==> (#[trigger] items[k]).weight > 0,
        picked_weight(items, picks, i) <= capacity,
    ensures
        picked_value(items, picks, i) <= best_value(items, i, capacity),
    decreases i,
{
    if i > 0 {
        lemma_picked_weight_bounds(items, picks, i - 1);
        if picks[i - 1] {
            lemma_best_value_is_best(items, picks, i - 1, capacity - items[i - 1].weight);
        } else {
            lemma_best_value_is_best(items, picks, i - 1, capacity);
        }
    }
}

/// The weight of a choice of items is not negative.
pub proof fn lemma_picked_weight_bounds(items: Seq<Item>, picks: Seq<bool>, i: int)
    ensures
        0 <= picked_weight(items, picks, i),
    decreases i,
{
    if i > 0 {
        lemma_picked_weight_bounds(items, picks, i - 1);
    }
}

/// The items taken fit the capacity and are worth the best value.
pub proof fn lemma_taken(items: Seq<Item>, i: int, capacity: int)
    requires
        0 <= i <= items.len(),
        0 <= capacity,
    ensures
        total_weight(taken(items, i, capacity)) <= capacity,
        total_value(taken(items, i, capacity)) == best_value(items, i, capacity),
        taken(items, i, capacity).len() <= i,
    decreases i,
{
    if i > 0 {
        let item = items[i - 1];
        if best_value(items, i - 1, capacity) != best_value(items, i, capacity) {
            lemma_taken(items, i - 1, capacity - item.weight);
            let rest = taken(items, i - 1, capacity - item.weight);
            let all = taken(items, i, capacity);
            assert(all.drop_first() == rest);
            assert(all[0] == item);
        } else {
            lemma_taken(items, i - 1, capacity);
        }
    }
}

/// Returns the items to take, each whole or not at all, that weigh no more
/// than `max_capacity` together and are worth the most, the last of them
/// first.
pub fn knapsack(items: Vec<Item>, max_capacity: usize) -> (solution: Vec<Item>)
    requires
        items.len() <= u32::MAX,
        max_capacity < usize::MAX,
    ensures
        solution@ == taken(items@, items.len() as int, max_capacity as int),
        total_weight(solution@) <= max_capacity,
        total_value(solution@) == best_value(items@, items.len() as int, max_capacity as int),
{
    // build up dynamic programming table
    let mut table: Vec<Vec<u64>> = Vec::new();
    let mut first: Vec<u64> = Vec::new();
    let mut capacity: usize = 0;
    while capacity < max_capacity + 1
        invariant
            capacity <= max_capacity + 1,
            max_capacity < usize::MAX,
            first.len() == capacity,
            forall|c: int| 0 <= c < capacity ==> first@[c] == 0,
        decreases max_capacity + 1 - capacity,
    {
        first.push(0);
        capacity += 1;
    }
    table.push(first);
    let mut i: usize = 0;
    while i < items.len()
        invariant
            i <= items.len() <= u32::MAX,
            max_capacity < usize::MAX,
            table.len() == i + 1,
            forall|k: int| 0 <= k <= i ==> (#[trigger] table@[k]).len() == max_capacity + 1,
            forall|k: int, c: int|
                0 <= k <= i && 0 <= c <= max_capacity ==> (#[trigger] table@[k]@[c]) == best_value(
                    items@,
                    k,
                    c,
                ),
        decreases items.len() - i,
    {
        let item = items[i];
        let mut row: Vec<u64> = Vec::new();
        row.push(0);
        let mut capacity: usize = 1;
        while capacity < max_capacity + 1
            invariant
                1 <= capacity <= max_capacity + 1,
                i < items.len() <= u32::MAX,
                max_capacity < usize::MAX,
                item == items@[i as int],
                table.len() == i + 1,
                forall|k: int| 0 <= k <= i ==> (#[trigger] table@[k]).len() == max_capacity + 1,
                forall|k: int, c: int|
                    0 <= k <= i && 0 <= c <= max_capacity ==> (#[trigger] table@[k]@[c])
                        == best_value(items@, k, c),
                row.len() == capacity,
                forall|c: int| 0 <= c < capacity ==> #[trigger] row@[c] == best_value(items@, i + 1, c),
            decreases max_capacity + 1 - capacity,
        {
            let previous_items_value: u64 = table[i][capacity];
            proof {
                assert(table@[i as int]@[capacity as int] == best_value(
                    items@,
                    i as int,
                    capacity as int,
                ));
            }
            if capacity >= item.weight {
                // item fits in knapsack
                let value_freeing_weight_for_item: u64 = table[i][capacity - item.weight];
                proof {
                    assert(table@[i as int]@[capacity - item.weight] == best_value(
                        items@,
                        i as int,
                        capacity - item.weight,
                    ));
                    lemma_best_value_bounds(items@, i as int, capacity - item.weight);
                    assert(i * u32::MAX + u32::MAX <= u64::MAX) by (nonlinear_arith)
                        requires
                            i < u32::MAX,
                    ;
                }
                // only take if more valuable than previous item
                let with_item = value_freeing_weight_for_item + item.value as u64;
                if with_item > previous_items_value {
                    row.push(with_item);
                } else {
                    row.push(previous_items_value);
                }
            } else {
                // no room for this item
                row.push(previous_items_value);
            }
            capacity += 1;
        }
        table.push(row);
        i += 1;
    }
    // figure out solution from table
    let mut solution: Vec<Item> = Vec::new();
    let mut capacity = max_capacity;
    let mut i: usize = items.len();
    while i > 0
        invariant
            i <= items.len(),
            capacity <= max_capacity,
            table.len() == items.len() + 1,
            forall|k: int|
                0 <= k <= items.len() ==> (#[trigger] table@[k]).len() == max_capacity + 1,
            forall|k: int, c: int|
                0 <= k <= items.len() && 0 <= c <= max_capacity ==> (#[trigger] table@[k]@[c])
                    == best_value(items@, k, c),
            solution@ + taken(items@, i as int, capacity as int) == taken(
                items@,
                items.len() as int,
                max_capacity as int,
            ),
        decreases i,
    {
        // work backwards
        // was this item used?
        proof {
            assert(table@[i - 1]@[capacity as int] == best_value(items@, i - 1, capacity as int));
            assert(table@[i as int]@[capacity as int] == best_value(
                items@,
                i as int,
                capacity as int,
            ));
        }
        if table[i - 1][capacity] != table[i][capacity] {
            let ghost before = solution@;
            let ghost rest = taken(items@, i - 1, capacity - items@[i - 1].weight);
            solution.push(items[i - 1]);
            proof {
                assert(before + (seq![items@[i - 1]] + rest) == before.push(items@[i - 1]) + rest);
            }
            // if the item was used, remove its weight
            capacity -= items[i - 1].weight
        }
        i -= 1;
    }
    proof {
        assert(taken(items@, 0, capacity as int) == Seq::<Item>::empty());
        assert(solution@ + Seq::<Item>::empty() == solution@);
        lemma_taken(items@, items.len() as int, max_capacity as int);
    }
    solution
}

/// Those of the first `i` items that `picks` marks, the last of them first.
pub open spec fn selection(items: Seq<Item>, picks: Seq<bool>, i: int) -> Seq<Item>
    decreases i,
{
    if i <= 0 {
        Seq::empty()
    } else if picks[i - 1] {
        seq![items[i - 1]] + selection(items, picks, i - 1)
    } else {
        selection(items, picks, i - 1)
    }
}

/// Which of the first `i` items are taken for the best value within
/// `capacity`.
pub open spec fn marks(items: Seq<Item>, i: int, capacity: int) -> Seq<bool>
    decreases i,
{
    if i <= 0 {
        Seq::empty()
    } else if best_value(items, i - 1, capacity) != best_value(items, i, capacity) {
        marks(items, i - 1, capacity - items[i - 1].weight).push(true)
    } else {
        marks(items, i - 1, capacity).push(false)
    }
}

/// A selection looks only at the marks of the items that it selects from.
proof fn lemma_selection_of_prefix(items: Seq<Item>, a: Seq<bool>, b: Seq<bool>, i: int)
    requires
        0 <= i <= a.len(),
        i <= b.len(),
        forall|k: int| 0 <= k < i ==> a[k] == b[k],
    ensures
        selection(items, a, i) == selection(items, b, i),
        picked_weight(items, a, i) == picked_weight(items, b, i),
        picked_value(items, a, i) == picked_value(items, b, i),
    decreases i,
{
    if i > 0 {
        lemma_selection_of_prefix(items, a, b, i - 1);
    }
}

/// A selection weighs and is worth what its marked items weigh and are
/// worth.
pub proof fn lemma_selection_totals(items: Seq<Item>, picks: Seq<bool>, i: int)
    requires
        0 <= i <= items.len(),
    ensures
        total_weight(selection(items, picks, i)) == picked_weight(items, picks, i),
        total_value(selection(items, picks, i)) == picked_value(items, picks, i),
    decreases i,
{
    if i > 0 {
        lemma_selection_totals(items, picks, i - 1);
        if picks[i - 1] {
            let all = selection(items, picks, i);
            assert(all.drop_first() == selection(items, picks, i - 1));
            assert(all[0] == items[i - 1]);
        }
    }
}

/// The items taken are a selection of the items: each item is taken once at
/// most, and those taken come last first.
pub proof fn lemma_taken_is_selection(items: Seq<Item>, i: int, capacity: int)
    requires
        0 <= i <= items.len(),
    ensures
        marks(items, i, capacity).len() == i,
        taken(items, i, capacity) == selection(items, marks(items, i, capacity), i),
    decreases i,
{
    if i > 0 {
        let item = items[i - 1];
        if best_value(items, i - 1, capacity) != best_value(items, i, capacity) {
            lemma_taken_is_selection(items, i - 1, capacity - item.weight);
            let before = marks(items, i - 1, capacity - item.weight);
            lemma_selection_of_prefix(items, before, before.push(true), i - 1);
        } else {
            lemma_taken_is_selection(items, i - 1, capacity);
            let before = marks(items, i - 1, capacity);
            lemma_selection_of_prefix(items, before, before.push(false), i - 1);
        }
    }
}

/// Among items that all have weight, no selection that fits the capacity
/// is worth more than the items taken.
pub proof fn lemma_taken_is_best(items: Seq<Item>, picks: Seq<bool>, capacity: int)
    requires
        0 <= capacity,
        forall|k: int| 0 <= k < items.len() ==> (#[trigger] items[k]).weight > 0,
        total_weight(selection(items, picks, items.len() as int)) <= capacity,
    ensures
        total_value(selection(items, picks, items.len() as int)) <= total_value(
            taken(items, items.len() as int, capacity),
        ),
{
    let n = items.len() as int;
    lemma_selection_totals(items, picks, n);
    lemma_best_value_is_best(items, picks, n, capacity);
    lemma_taken(items, n, capacity);
}

} // verus!
