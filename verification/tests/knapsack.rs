use classic::knapsack::{knapsack, Item};

fn item(name: &'static str, weight: usize, value: u32) -> Item {
    Item { name, weight, value }
}

fn household() -> Vec<Item> {
    vec![
        item("television", 50, 500),
        item("candlesticks", 2, 300),
        item("stereo", 35, 400),
        item("laptop", 3, 1000),
        item("food", 15, 50),
        item("clothing", 20, 800),
        item("jewelry", 1, 4000),
        item("books", 100, 300),
        item("printer", 18, 30),
        item("refrigerator", 200, 700),
        item("painting", 10, 1000),
    ]
}

fn names(items: &[Item]) -> Vec<&'static str> {
    items.iter().map(|i| i.name).collect()
}

#[test]
fn the_best_of_the_household() {
    let solution = knapsack(household(), 75);
    assert_eq!(
        names(&solution),
        vec!["painting", "jewelry", "clothing", "laptop", "stereo", "candlesticks"]
    );
    assert_eq!(solution.iter().map(|i| i.weight).sum::<usize>(), 71);
    assert_eq!(solution.iter().map(|i| i.value).sum::<u32>(), 7500);
    assert_eq!(solution[0], item("painting", 10, 1000));
}

#[test]
fn small_knapsacks() {
    assert_eq!(knapsack(household(), 0), vec![]);
    assert_eq!(names(&knapsack(household(), 1)), vec!["jewelry"]);
    assert_eq!(names(&knapsack(household(), 3)), vec!["jewelry", "candlesticks"]);
    assert_eq!(knapsack(vec![], 10), vec![]);
    assert_eq!(knapsack(vec![], 0), vec![]);
}

#[test]
fn of_two_equal_items_the_first_is_taken() {
    let solution = knapsack(vec![item("a", 2, 5), item("b", 2, 5)], 2);
    assert_eq!(names(&solution), vec!["a"]);
}

#[test]
fn the_items_taken_come_last_first() {
    let solution = knapsack(vec![item("a", 1, 1), item("b", 1, 2), item("c", 2, 2)], 2);
    assert_eq!(names(&solution), vec!["b", "a"]);
}

#[test]
fn an_item_that_does_not_fit_is_left() {
    assert_eq!(knapsack(vec![item("heavy", 11, 100)], 10), vec![]);
    assert_eq!(names(&knapsack(vec![item("heavy", 10, 100)], 10)), vec!["heavy"]);
}

#[test]
fn an_item_without_weight_is_not_added_to_a_full_knapsack() {
    // with no capacity left nothing more is taken, not even what weighs
    // nothing: the second item alone fills the knapsack and is worth less
    let solution = knapsack(vec![item("a", 0, 5), item("b", 2, 3)], 2);
    assert_eq!(names(&solution), vec!["a"]);
}

#[test]
fn no_other_choice_is_worth_more() {
    let items = vec![
        item("a", 3, 40),
        item("b", 4, 50),
        item("c", 2, 25),
        item("d", 5, 70),
        item("e", 1, 9),
        item("f", 6, 71),
    ];
    for capacity in 0..=21 {
        let solution = knapsack(items.clone(), capacity);
        let weight: usize = solution.iter().map(|i| i.weight).sum();
        let value: u32 = solution.iter().map(|i| i.value).sum();
        assert!(weight <= capacity);
        let mut best = 0;
        for mask in 0..(1u32 << items.len()) {
            let mut w = 0;
            let mut v = 0;
            for (k, it) in items.iter().enumerate() {
                if mask & (1 << k) != 0 {
                    w += it.weight;
                    v += it.value;
                }
            }
            if w <= capacity && v > best {
                best = v;
            }
        }
        assert_eq!(value, best);
    }
}
