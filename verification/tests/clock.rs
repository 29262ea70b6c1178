use brb_dt_tree::Clock;
use std::cmp::Ordering;

#[test]
fn clocks_are_ordered_by_counter_first() {
    let low = Clock { counter: 3, actor: 9 };
    let high = Clock { counter: 4, actor: 1 };
    assert!(low < high);
    assert!(high > low);
    assert_eq!(low.partial_cmp(&high), Some(Ordering::Less));
    assert_eq!(high.partial_cmp(&low), Some(Ordering::Greater));
}

#[test]
fn clocks_with_one_counter_are_ordered_by_actor() {
    let low = Clock { counter: 4, actor: 1 };
    let high = Clock { counter: 4, actor: 2 };
    assert!(low < high);
    assert!(!(high < low));
    assert_eq!(low.partial_cmp(&high), Some(Ordering::Less));
    assert_eq!(high.partial_cmp(&low), Some(Ordering::Greater));
}

#[test]
fn a_clock_equals_itself_only() {
    let time = Clock { counter: 4, actor: 1 };
    assert_eq!(time.partial_cmp(&Clock { counter: 4, actor: 1 }), Some(Ordering::Equal));
    assert_eq!(time, Clock { counter: 4, actor: 1 });
    assert_ne!(time, Clock { counter: 4, actor: 2 });
    assert_ne!(time, Clock { counter: 5, actor: 1 });
}

#[test]
fn sorting_clocks_agrees_with_comparing_them() {
    let mut times = vec![
        Clock { counter: 2, actor: 2 },
        Clock { counter: u64::MAX, actor: 0 },
        Clock { counter: 0, actor: u64::MAX },
        Clock { counter: 2, actor: 1 },
        Clock { counter: 1, actor: 7 },
    ];
    times.sort();
    let expected = vec![
        Clock { counter: 0, actor: u64::MAX },
        Clock { counter: 1, actor: 7 },
        Clock { counter: 2, actor: 1 },
        Clock { counter: 2, actor: 2 },
        Clock { counter: u64::MAX, actor: 0 },
    ];
    assert_eq!(times, expected);
    for pair in times.windows(2) {
        assert!(pair[0] < pair[1]);
    }
}

#[test]
fn clocks_order_as_the_tree_crate_orders_them() {
    let pairs = [(3u64, 9u64, 4u64, 1u64), (4, 1, 4, 2), (4, 2, 4, 2), (5, 0, 4, 9)];
    for (c1, a1, c2, a2) in pairs {
        let ours = Clock { counter: c1, actor: a1 }.partial_cmp(&Clock { counter: c2, actor: a2 });
        let theirs = crdt_tree::Clock::new(a1, Some(c1)).cmp(&crdt_tree::Clock::new(a2, Some(c2)));
        assert_eq!(ours, Some(theirs));
    }
}
