use std::ops::ControlFlow;

use itree::{ITree, IntervalHandler, Item, Node};

struct CollectValues {
    got: Vec<&'static str>,
    calls: usize,
}

impl IntervalHandler<&'static str, ()> for CollectValues {
    fn on_match(&mut self, item: &Item<&'static str>) -> ControlFlow<(), ()> {
        self.got.push(item.value);
        self.calls += 1;
        ControlFlow::Continue(())
    }
}

struct StopOnFirst {
    got: Vec<&'static str>,
    calls: usize,
}

impl IntervalHandler<&'static str, &'static str> for StopOnFirst {
    fn on_match(&mut self, item: &Item<&'static str>) -> ControlFlow<&'static str, ()> {
        self.got.push(item.value);
        self.calls += 1;
        ControlFlow::Break(item.value)
    }
}

fn item(start: i64, end: i64, value: &'static str) -> Item<&'static str> {
    Item { start, end, value }
}

fn scenario_items() -> Vec<Item<&'static str>> {
    vec![
        item(1, 3, "a"),
        item(2, 6, "b"),
        item(4, 5, "c"),
        item(8, 9, "d"),
    ]
}

fn collect(tree: &ITree<&'static str>, qs: i64, qe: i64) -> Vec<&'static str> {
    let mut handler = CollectValues {
        got: Vec::new(),
        calls: 0,
    };
    let flow = tree.query(qs..qe, &mut handler);
    assert!(matches!(flow, ControlFlow::Continue(())));
    let mut got = handler.got;
    got.sort_unstable();
    got
}

#[test]
fn empty_input_never_invokes_handler() {
    let tree: ITree<&'static str> = ITree::new(Vec::new());
    for (qs, qe) in [(0, 0), (-10, 10), (i64::MIN, i64::MAX), (5, 5)] {
        let mut handler = CollectValues {
            got: Vec::new(),
            calls: 0,
        };
        let flow = tree.query(qs..qe, &mut handler);
        assert!(matches!(flow, ControlFlow::Continue(())));
        assert_eq!(handler.calls, 0);
    }
}

#[test]
fn single_item_boundaries() {
    let tree = ITree::new(vec![item(5, 10, "X")]);
    assert_eq!(collect(&tree, 0, 5), Vec::<&str>::new());
    assert_eq!(collect(&tree, 4, 6), vec!["X"]);
    assert_eq!(collect(&tree, 10, 15), Vec::<&str>::new());
}

#[test]
fn concrete_scenario() {
    let tree = ITree::new(scenario_items());
    assert_eq!(collect(&tree, 4, 5), vec!["b", "c"]);
}

#[test]
fn degenerate_intervals_follow_the_half_open_rule() {
    let tree = ITree::new(vec![item(5, 5, "point"), item(0, 10, "wide")]);
    // `qs < e && s < qe`: a zero-width stored interval matches only queries
    // that strictly straddle it
    assert_eq!(collect(&tree, 0, 20), vec!["point", "wide"]);
    assert_eq!(collect(&tree, 4, 5), vec!["wide"]);
    assert_eq!(collect(&tree, 5, 6), vec!["wide"]);
    // a zero-width query never matches a zero-width interval
    assert_eq!(collect(&tree, 5, 5), vec!["wide"]);
}

#[test]
fn early_stop_reports_exactly_one_item() {
    let tree = ITree::new(scenario_items());
    let mut first = StopOnFirst {
        got: Vec::new(),
        calls: 0,
    };
    let flow = tree.query(4..5, &mut first);
    assert_eq!(first.calls, 1);
    assert_eq!(first.got.len(), 1);
    let reported = first.got[0];
    assert!(reported == "b" || reported == "c");
    assert!(matches!(flow, ControlFlow::Break(r) if r == reported));

    // the traversal order is deterministic for a fixed tree and query
    let mut again = StopOnFirst {
        got: Vec::new(),
        calls: 0,
    };
    let _ = tree.query(4..5, &mut again);
    assert_eq!(again.got, first.got);
}

#[test]
fn records_are_sorted_and_augmented() {
    let tree = ITree::new(scenario_items());
    check_invariants(tree.records());

    let items: Vec<Item<u32>> = (0..97u32)
        .map(|i| {
            let start = (i64::from(i) * 37) % 53 - 20;
            Item {
                start,
                end: start + (i64::from(i) * 11) % 17,
                value: i,
            }
        })
        .collect();
    let tree = ITree::new(items.clone());
    check_invariants(tree.records());

    let par_tree = ITree::par_new(items);
    check_invariants(par_tree.records());
}

fn check_invariants<V>(records: &[Node<V>]) {
    for pair in records.windows(2) {
        assert!(pair[0].item.start <= pair[1].item.start);
    }
    if !records.is_empty() {
        check_max_end(records);
    }
}

// brute-force recomputation of the augmentation over every implicit subtree
fn check_max_end<V>(slice: &[Node<V>]) {
    let mid = slice.len() / 2;
    let true_max = slice.iter().map(|n| n.item.end).max().unwrap();
    assert_eq!(slice[mid].max_end, true_max);
    if mid > 0 {
        check_max_end(&slice[..mid]);
    }
    if mid + 1 < slice.len() {
        check_max_end(&slice[mid + 1..]);
    }
}

#[test]
fn reinterpret_behaves_identically() {
    let tree = ITree::new(scenario_items());
    let rebuilt = ITree::new_unchecked(tree.records().clone());
    for (qs, qe) in [(4, 5), (0, 100), (-3, 2), (6, 6), (8, 9)] {
        assert_eq!(collect(&tree, qs, qe), collect(&rebuilt, qs, qe));
        assert_eq!(
            tree.query_matches(qs, qe),
            rebuilt.query_matches(qs, qe)
        );
    }
}

#[test]
fn sequential_and_parallel_builds_agree() {
    let items: Vec<Item<u32>> = (0..200u32)
        .map(|i| {
            let start = (i64::from(i) * 29) % 31 - 15;
            Item {
                start,
                end: start + (i64::from(i) * 7) % 13,
                value: i,
            }
        })
        .collect();
    let seq_tree = ITree::new(items.clone());
    let par_tree = ITree::par_new(items);
    for (qs, qe) in [(-20, 40), (0, 1), (-3, 7), (5, 5), (12, 30)] {
        let mut seq_matches: Vec<u32> = seq_tree
            .query_matches(qs, qe)
            .into_iter()
            .map(|i| seq_tree.records()[i].item.value)
            .collect();
        let mut par_matches: Vec<u32> = par_tree
            .par_query_matches(qs, qe)
            .into_iter()
            .map(|i| par_tree.records()[i].item.value)
            .collect();
        seq_matches.sort_unstable();
        par_matches.sort_unstable();
        assert_eq!(seq_matches, par_matches);
    }
}

#[test]
fn query_matches_reports_only_overlaps_without_duplicates() {
    let tree = ITree::new(scenario_items());
    let matches = tree.query_matches(2, 9);
    for (pos, &i) in matches.iter().enumerate() {
        let it = &tree.records()[i].item;
        assert!(2 < it.end && it.start < 9);
        for &j in &matches[pos + 1..] {
            assert_ne!(i, j);
        }
    }
}

#[test]
fn unchecked_records_degrade_but_stay_sound() {
    // records violating both invariants: queries may miss matches but every
    // reported record really overlaps, and nothing panics
    let records = vec![
        Node {
            item: item(10, 12, "late"),
            max_end: 0,
        },
        Node {
            item: item(0, 100, "wide"),
            max_end: 1,
        },
    ];
    let tree = ITree::new_unchecked(records);
    for (qs, qe) in [(0, 200), (11, 12), (-5, 0), (50, 60)] {
        for i in tree.query_matches(qs, qe) {
            let it = &tree.records()[i].item;
            assert!(qs < it.end && it.start < qe);
        }
    }
}

#[test]
fn len_and_iter_expose_the_stored_items() {
    let tree = ITree::new(scenario_items());
    assert_eq!(tree.len(), 4);
    let starts: Vec<i64> = tree.iter().into_iter().map(|it| it.start).collect();
    assert_eq!(starts, vec![1, 2, 4, 8]);
    let values: Vec<&str> = tree.iter().into_iter().map(|it| it.value).collect();
    assert_eq!(values, vec!["a", "b", "c", "d"]);
}

#[test]
fn into_records_round_trips() {
    let tree = ITree::new(scenario_items());
    let records = tree.into_records();
    let rebuilt = ITree::new_unchecked(records);
    assert_eq!(collect(&rebuilt, 4, 5), vec!["b", "c"]);
}
