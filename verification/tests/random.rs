use std::ops::{ControlFlow, Range};

use proptest::test_runner::TestRunner;

use itree::{ITree, IntervalHandler, Item};

struct Collect {
    got: Vec<(i64, i64)>,
}

impl IntervalHandler<(), ()> for Collect {
    fn on_match(&mut self, item: &Item<()>) -> ControlFlow<(), ()> {
        self.got.push((item.start, item.end));
        ControlFlow::Continue(())
    }
}

fn make_items(start: &[i64], end: &[i64]) -> Vec<Item<()>> {
    start
        .iter()
        .zip(end)
        .map(|(&start, &end)| Item {
            start,
            end,
            value: (),
        })
        .collect()
}

fn brute_force(tree: &ITree<()>, query_start: i64, query_end: i64) -> Vec<(i64, i64)> {
    tree.iter()
        .into_iter()
        .filter(|item| query_end > item.start && query_start < item.end)
        .map(|item| (item.start, item.end))
        .collect()
}

#[test]
fn query_random() {
    let dom: Range<i64> = -1000..1000;
    let len: usize = 1000;

    TestRunner::default()
        .run(
            &(
                proptest::collection::vec(dom.clone(), len),
                proptest::collection::vec(dom.clone(), len),
                dom.clone(),
                dom.clone(),
            ),
            |(start, end, query_start, query_end)| {
                let tree = ITree::new(make_items(&start, &end));

                let mut handler = Collect { got: Vec::new() };
                let flow = tree.query(query_start..query_end, &mut handler);
                assert!(matches!(flow, ControlFlow::Continue(())));
                let mut result1 = handler.got;

                let mut result2 = brute_force(&tree, query_start, query_end);

                result1.sort_unstable();
                result2.sort_unstable();
                assert_eq!(result1, result2);

                Ok(())
            },
        )
        .unwrap()
}

#[test]
fn par_query_random() {
    let dom: Range<i64> = -1000..1000;
    let len: usize = 1000;

    TestRunner::default()
        .run(
            &(
                proptest::collection::vec(dom.clone(), len),
                proptest::collection::vec(dom.clone(), len),
                dom.clone(),
                dom.clone(),
            ),
            |(start, end, query_start, query_end)| {
                let tree = ITree::par_new(make_items(&start, &end));

                let mut handler = Collect { got: Vec::new() };
                let flow = tree.par_query(query_start..query_end, &mut handler);
                assert!(matches!(flow, ControlFlow::Continue(())));
                let mut result1 = handler.got;

                let mut result2 = brute_force(&tree, query_start, query_end);

                result1.sort_unstable();
                result2.sort_unstable();
                assert_eq!(result1, result2);

                Ok(())
            },
        )
        .unwrap()
}
