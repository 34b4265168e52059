use vstd::prelude::*;

use core::ops::ControlFlow;
use core::ops::Range;

use crate::{augmented_range, is_max_end, item_overlaps, match_items, reported_items, sorted_range, stored_items, ITree, Item, Node};

verus! {

/// A caller-supplied handler invoked once per matching item.
pub trait IntervalHandler<V, R> {
    /// Called with one matching item; return `ControlFlow::Break` to stop
    /// the traversal early.
    fn on_match(&mut self, item: &Item<V>) -> ControlFlow<R, ()>;
}

/// The sequential pruning traversal over the implicit tree of the window
/// `lo .. hi`, appending the position of every overlapping record to `out`.
///
/// Soundness (appended positions lie in the window and really overlap, with
/// no duplicates) holds for arbitrary records; completeness (every
/// overlapping position is reported) additionally needs the window sorted
/// and augmented.
#[verifier::rlimit(100)]
pub(crate) fn query<V>(
    nodes: &Vec<Node<V>>,
    qs: i64,
    qe: i64,
    lo: usize,
    hi: usize,
    out: &mut Vec<usize>,
)
    requires
        lo < hi,
        hi <= nodes@.len(),
    ensures
        final(out)@.len() >= old(out)@.len(),
        forall|k: int| 0 <= k < old(out)@.len() ==> final(out)@[k] == old(out)@[k],
        forall|k: int|
            old(out)@.len() <= k < final(out)@.len() ==> lo <= final(out)@[k] < hi
                && item_overlaps(nodes@[final(out)@[k] as int].item, qs as int, qe as int),
        forall|k1: int, k2: int|
            old(out)@.len() <= k1 < k2 < final(out)@.len() ==> final(out)@[k1] != final(out)@[k2],
        sorted_range(nodes@, lo as int, hi as int) && augmented_range(
            nodes@,
            lo as int,
            hi as int,
        ) ==> forall|i: int|
            lo <= i < hi && item_overlaps(nodes@[i].item, qs as int, qe as int)
                ==> final(out)@.contains(i as usize),
    decreases hi - lo,
{
    let ghost csorted = sorted_range(nodes@, lo as int, hi as int);
    let ghost caug = augmented_range(nodes@, lo as int, hi as int);
    let mut cur_lo = lo;
    let mut cur_hi = hi;
    loop
        invariant
            lo <= cur_lo < cur_hi <= hi,
            hi <= nodes@.len(),
            csorted == sorted_range(nodes@, lo as int, hi as int),
            caug == augmented_range(nodes@, lo as int, hi as int),
            out@.len() >= old(out)@.len(),
            forall|k: int| 0 <= k < old(out)@.len() ==> out@[k] == old(out)@[k],
            forall|k: int|
                old(out)@.len() <= k < out@.len() ==> lo <= out@[k] < hi && !(cur_lo <= out@[k]
                    < cur_hi) && item_overlaps(nodes@[out@[k] as int].item, qs as int, qe as int),
            forall|k1: int, k2: int|
                old(out)@.len() <= k1 < k2 < out@.len() ==> out@[k1] != out@[k2],
            csorted && caug ==> augmented_range(nodes@, cur_lo as int, cur_hi as int),
            csorted && caug ==> forall|i: int|
                lo <= i < hi && !(cur_lo <= i < cur_hi) && item_overlaps(
                    nodes@[i].item,
                    qs as int,
                    qe as int,
                ) ==> out@.contains(i as usize),
        decreases cur_hi - cur_lo,
    {
        let ghost out_iter0 = out@;
        let mid = cur_lo + (cur_hi - cur_lo) / 2;
        let ghost me = nodes@[mid as int].max_end as int;
        let node_max = nodes[mid].max_end;
        let node_start = nodes[mid].item.start;
        let node_end = nodes[mid].item.end;
        let go_mid = qs < node_max && qe > node_start;
        let go_left = qs < node_max && cur_lo < mid;
        let go_right = go_mid && mid + 1 < cur_hi;
        if go_mid && qs < node_end {
            out.push(mid);
            proof {
                assert(out@[out@.len() - 1] == mid);
                assert(out@.contains(mid as usize));
                assert forall|x: usize| out_iter0.contains(x) implies out@.contains(x) by {
                    let k = choose|k: int| 0 <= k < out_iter0.len() && out_iter0[k] == x;
                    assert(out@[k] == x);
                }
            }
        }
        proof {
            if csorted && caug {
                assert(augmented_range(nodes@, cur_lo as int, cur_hi as int));
                // the midpoint's augmentation bounds every end in the window
                assert(is_max_end(nodes@, cur_lo as int, cur_hi as int, me));
                if !(qs < me) {
                    assert forall|i: int| cur_lo <= i < cur_hi implies !item_overlaps(
                        nodes@[i].item,
                        qs as int,
                        qe as int,
                    ) by {
                        assert(nodes@[i].item.end <= me);
                    }
                } else if !(qe as int > nodes@[mid as int].item.start) {
                    // everything at or right of the midpoint starts at or
                    // after it, hence at or after the query's end
                    assert forall|i: int| mid <= i < cur_hi implies !item_overlaps(
                        nodes@[i].item,
                        qs as int,
                        qe as int,
                    ) by {
                        if i > mid {
                            assert(nodes@[mid as int].item.start <= nodes@[i].item.start);
                        }
                    }
                }
                // the midpoint itself, once it overlaps, has been reported
                if item_overlaps(nodes@[mid as int].item, qs as int, qe as int) {
                    assert(nodes@[mid as int].item.end <= me);
                    assert(out@.contains(mid as usize));
                }
            }
        }
        if go_left && go_right {
            let ghost out_before = out@;
            query(nodes, qs, qe, cur_lo, mid, out);
            proof {
                // prior elements keep their positions, so membership persists
                assert forall|x: usize| out_before.contains(x) implies out@.contains(x) by {
                    let k = choose|k: int| 0 <= k < out_before.len() && out_before[k] == x;
                    assert(out@[k] == x);
                }
                if csorted && caug {
                    assert(augmented_range(nodes@, cur_lo as int, mid as int));
                    assert(sorted_range(nodes@, cur_lo as int, mid as int));
                    assert(augmented_range(nodes@, mid as int + 1, cur_hi as int));
                }
            }
            cur_lo = mid + 1;
        } else if go_left {
            cur_hi = mid;
            proof {
                if csorted && caug {
                    assert(augmented_range(nodes@, cur_lo as int, cur_hi as int));
                }
            }
        } else if go_right {
            cur_lo = mid + 1;
            proof {
                if csorted && caug {
                    assert(augmented_range(nodes@, cur_lo as int, cur_hi as int));
                }
            }
        } else {
            proof {
                if csorted && caug {
                    assert forall|i: int|
                        lo <= i < hi && item_overlaps(
                            nodes@[i].item,
                            qs as int,
                            qe as int,
                        ) implies out@.contains(i as usize) by {
                        if cur_lo <= i < cur_hi {
                            if qs < me {
                                if qe as int > nodes@[mid as int].item.start {
                                    // neither side is to be visited, so the
                                    // window has shrunk to the midpoint alone
                                    assert(cur_lo == mid && mid + 1 >= cur_hi);
                                    assert(i == mid);
                                    assert(out@.contains(mid as usize));
                                } else {
                                    assert(cur_lo == mid);
                                    assert(false);
                                }
                            } else {
                                assert(false);
                            }
                        } else {
                            assert(out_iter0.contains(i as usize));
                            if out@ != out_iter0 {
                                let k = choose|k: int|
                                    0 <= k < out_iter0.len() && out_iter0[k] == i as usize;
                                assert(out@[k] == i as usize);
                            }
                        }
                    }
                }
            }
            return ;
        }
    }
}

impl<V> ITree<V> {
    /// The positions of all records whose interval overlaps `qs .. qe`,
    /// without duplicates, in the traversal order of the pruning search.
    ///
    /// Every reported record really overlaps, whatever the records hold;
    /// when the tree is well formed, every overlapping record is reported:
    /// the result agrees with a brute-force scan of all stored items.
    pub fn query_matches(&self, qs: i64, qe: i64) -> (r: Vec<usize>)
        ensures
            forall|k: int|
                0 <= k < r@.len() ==> r@[k] < self@.len() && item_overlaps(
                    self@[r@[k] as int].item,
                    qs as int,
                    qe as int,
                ),
            forall|k1: int, k2: int| 0 <= k1 < k2 < r@.len() ==> r@[k1] != r@[k2],
            self.wf() ==> forall|i: int|
                0 <= i < self@.len() && item_overlaps(self@[i].item, qs as int, qe as int)
                    ==> r@.contains(i as usize),
            self.wf() ==> reported_items(self@, r@) == match_items(self@, qs as int, qe as int),
    {
        let mut out: Vec<usize> = Vec::new();
        if self.nodes.len() > 0 {
            let n = self.nodes.len();
            query(&self.nodes, qs, qe, 0, n, &mut out);
        }
        proof {
            if self.wf() {
                lemma_matches_oracle(self@, out@, qs as int, qe as int);
            }
        }
        out
    }

    /// Queries for all intervals overlapping the given interval, invoking
    /// the handler once per match until it asks to stop.
    ///
    /// The handler sees matches in a deterministic but unspecified order; on
    /// a tree that is not well formed (see [`ITree::new_unchecked`]) matches
    /// may be silently missed, but everything reported still overlaps.
    pub fn query<R, H: IntervalHandler<V, R>>(
        &self,
        interval: Range<i64>,
        handler: &mut H,
    ) -> (flow: ControlFlow<R, ()>)
        ensures
            flow is Break ==> exists|i: int|
                0 <= i < self@.len() && item_overlaps(
                    self@[i].item,
                    interval.start as int,
                    interval.end as int,
                ),
            (forall|i: int|
                0 <= i < self@.len() ==> !item_overlaps(
                    self@[i].item,
                    interval.start as int,
                    interval.end as int,
                )) ==> (flow is Continue && *final(handler) == *old(handler)),
    {
        let idxs = self.query_matches(interval.start, interval.end);
        let flow = drive(&self.nodes, &idxs, handler);
        proof {
            if idxs@.len() > 0 {
                assert(item_overlaps(
                    self@[idxs@[0] as int].item,
                    interval.start as int,
                    interval.end as int,
                ));
            }
        }
        flow
    }
}


/// The fork-join pruning traversal: the same matching semantics as the
/// sequential search, but when both branches of a window must be visited
/// they are dispatched to run concurrently and their results are joined.
#[verifier::rlimit(100)]
pub(crate) fn par_query<V: Sync>(
    nodes: &Vec<Node<V>>,
    qs: i64,
    qe: i64,
    lo: usize,
    hi: usize,
) -> (out: Vec<usize>)
    requires
        lo < hi,
        hi <= nodes@.len(),
    ensures
        forall|k: int|
            0 <= k < out@.len() ==> lo <= out@[k] < hi && item_overlaps(
                nodes@[out@[k] as int].item,
                qs as int,
                qe as int,
            ),
        forall|k1: int, k2: int| 0 <= k1 < k2 < out@.len() ==> out@[k1] != out@[k2],
        sorted_range(nodes@, lo as int, hi as int) && augmented_range(
            nodes@,
            lo as int,
            hi as int,
        ) ==> forall|i: int|
            lo <= i < hi && item_overlaps(nodes@[i].item, qs as int, qe as int)
                ==> out@.contains(i as usize),
{
    let ghost csorted = sorted_range(nodes@, lo as int, hi as int);
    let ghost caug = augmented_range(nodes@, lo as int, hi as int);
    let mut out: Vec<usize> = Vec::new();
    let mut cur_lo = lo;
    let mut cur_hi = hi;
    loop
        invariant
            lo <= cur_lo < cur_hi <= hi,
            hi <= nodes@.len(),
            csorted == sorted_range(nodes@, lo as int, hi as int),
            caug == augmented_range(nodes@, lo as int, hi as int),
            forall|k: int|
                0 <= k < out@.len() ==> lo <= out@[k] < hi && !(cur_lo <= out@[k] < cur_hi)
                    && item_overlaps(nodes@[out@[k] as int].item, qs as int, qe as int),
            forall|k1: int, k2: int| 0 <= k1 < k2 < out@.len() ==> out@[k1] != out@[k2],
            csorted && caug ==> augmented_range(nodes@, cur_lo as int, cur_hi as int),
            csorted && caug ==> forall|i: int|
                lo <= i < hi && !(cur_lo <= i < cur_hi) && item_overlaps(
                    nodes@[i].item,
                    qs as int,
                    qe as int,
                ) ==> out@.contains(i as usize),
        decreases cur_hi - cur_lo,
    {
        let ghost out_iter0 = out@;
        let mid = cur_lo + (cur_hi - cur_lo) / 2;
        let ghost me = nodes@[mid as int].max_end as int;
        let node_max = nodes[mid].max_end;
        let node_start = nodes[mid].item.start;
        let node_end = nodes[mid].item.end;
        let go_mid = qs < node_max && qe > node_start;
        let go_left = qs < node_max && cur_lo < mid;
        let go_right = go_mid && mid + 1 < cur_hi;
        if go_mid && qs < node_end {
            out.push(mid);
            proof {
                assert(out@[out@.len() - 1] == mid);
                assert(out@.contains(mid as usize));
                assert forall|x: usize| out_iter0.contains(x) implies out@.contains(x) by {
                    let k = choose|k: int| 0 <= k < out_iter0.len() && out_iter0[k] == x;
                    assert(out@[k] == x);
                }
            }
        }
        proof {
            if csorted && caug {
                assert(augmented_range(nodes@, cur_lo as int, cur_hi as int));
                assert(is_max_end(nodes@, cur_lo as int, cur_hi as int, me));
                if !(qs < me) {
                    assert forall|i: int| cur_lo <= i < cur_hi implies !item_overlaps(
                        nodes@[i].item,
                        qs as int,
                        qe as int,
                    ) by {
                        assert(nodes@[i].item.end <= me);
                    }
                } else if !(qe as int > nodes@[mid as int].item.start) {
                    assert forall|i: int| mid <= i < cur_hi implies !item_overlaps(
                        nodes@[i].item,
                        qs as int,
                        qe as int,
                    ) by {
                        if i > mid {
                            assert(nodes@[mid as int].item.start <= nodes@[i].item.start);
                        }
                    }
                }
                if item_overlaps(nodes@[mid as int].item, qs as int, qe as int) {
                    assert(nodes@[mid as int].item.end <= me);
                    assert(out@.contains(mid as usize));
                }
            }
        }
        if go_left && go_right {
            let ghost out_mid = out@;
            let pair = join_par_query(nodes, qs, qe, cur_lo, mid, mid + 1, cur_hi);
            let mut lv = pair.0;
            let mut rv = pair.1;
            let ghost lv0 = lv@;
            let ghost rv0 = rv@;
            out.append(&mut lv);
            out.append(&mut rv);
            proof {
                assert(out@ =~= out_mid + lv0 + rv0);
                assert forall|x: usize| out_mid.contains(x) implies out@.contains(x) by {
                    let k = choose|k: int| 0 <= k < out_mid.len() && out_mid[k] == x;
                    assert(out@[k] == x);
                }
                assert forall|k: int| 0 <= k < out@.len() implies lo <= out@[k] < hi
                    && item_overlaps(nodes@[out@[k] as int].item, qs as int, qe as int) by {
                    if k < out_mid.len() {
                    } else if k < out_mid.len() + lv0.len() {
                        assert(out@[k] == lv0[k - out_mid.len()]);
                    } else {
                        assert(out@[k] == rv0[k - out_mid.len() - lv0.len()]);
                    }
                }
                assert forall|k1: int, k2: int| 0 <= k1 < k2 < out@.len() implies out@[k1]
                    != out@[k2] by {
                    let a = out_mid.len() as int;
                    let b = a + lv0.len() as int;
                    if k1 < a && k2 < a {
                    } else if k1 < a && k2 < b {
                        assert(!(cur_lo <= out_mid[k1] < cur_hi) || out_mid[k1] == mid);
                        assert(cur_lo <= lv0[k2 - a] < mid);
                    } else if k1 < a {
                        assert(!(cur_lo <= out_mid[k1] < cur_hi) || out_mid[k1] == mid);
                        assert(mid + 1 <= rv0[k2 - b] < cur_hi);
                    } else if k1 < b && k2 < b {
                        assert(lv0[k1 - a] != lv0[k2 - a]);
                    } else if k1 < b {
                        assert(cur_lo <= lv0[k1 - a] < mid);
                        assert(mid + 1 <= rv0[k2 - b] < cur_hi);
                    } else {
                        assert(rv0[k1 - b] != rv0[k2 - b]);
                    }
                }
                if csorted && caug {
                    assert(augmented_range(nodes@, cur_lo as int, mid as int));
                    assert(sorted_range(nodes@, cur_lo as int, mid as int));
                    assert(augmented_range(nodes@, mid as int + 1, cur_hi as int));
                    assert(sorted_range(nodes@, mid as int + 1, cur_hi as int));
                    assert forall|i: int|
                        lo <= i < hi && item_overlaps(nodes@[i].item, qs as int, qe as int)
                            implies out@.contains(i as usize) by {
                        if cur_lo <= i < mid {
                            assert(lv0.contains(i as usize));
                            let k = choose|k: int| 0 <= k < lv0.len() && lv0[k] == i as usize;
                            assert(out@[out_mid.len() + k] == i as usize);
                        } else if mid + 1 <= i < cur_hi {
                            assert(rv0.contains(i as usize));
                            let k = choose|k: int| 0 <= k < rv0.len() && rv0[k] == i as usize;
                            assert(out@[out_mid.len() + lv0.len() + k] == i as usize);
                        } else if i == mid {
                            assert(out_mid.contains(i as usize));
                        } else {
                            assert(out_iter0.contains(i as usize));
                            let k = choose|k: int|
                                0 <= k < out_iter0.len() && out_iter0[k] == i as usize;
                            assert(out_mid[k] == i as usize);
                        }
                    }
                }
            }
            return out;
        } else if go_left {
            cur_hi = mid;
            proof {
                if csorted && caug {
                    assert(augmented_range(nodes@, cur_lo as int, cur_hi as int));
                }
            }
        } else if go_right {
            cur_lo = mid + 1;
            proof {
                if csorted && caug {
                    assert(augmented_range(nodes@, cur_lo as int, cur_hi as int));
                }
            }
        } else {
            proof {
                if csorted && caug {
                    assert forall|i: int|
                        lo <= i < hi && item_overlaps(
                            nodes@[i].item,
                            qs as int,
                            qe as int,
                        ) implies out@.contains(i as usize) by {
                        if cur_lo <= i < cur_hi {
                            if qs < me {
                                if qe as int > nodes@[mid as int].item.start {
                                    assert(cur_lo == mid && mid + 1 >= cur_hi);
                                    assert(i == mid);
                                    assert(out@.contains(mid as usize));
                                } else {
                                    assert(cur_lo == mid);
                                    assert(false);
                                }
                            } else {
                                assert(false);
                            }
                        } else {
                            assert(out_iter0.contains(i as usize));
                            if out@ != out_iter0 {
                                let k = choose|k: int|
                                    0 <= k < out_iter0.len() && out_iter0[k] == i as usize;
                                assert(out@[k] == i as usize);
                            }
                        }
                    }
                }
            }
            return out;
        }
    }
}

/// Relies on `rayon::join`: it runs both closures to completion, possibly in
/// parallel, and returns both their results; the closures run the fork-join
/// traversal on the two disjoint branch windows of a shared tree.
#[verifier::external_body]
fn join_par_query<V: Sync>(
    nodes: &Vec<Node<V>>,
    qs: i64,
    qe: i64,
    llo: usize,
    lhi: usize,
    rlo: usize,
    rhi: usize,
) -> (r: (Vec<usize>, Vec<usize>))
    requires
        llo < lhi,
        lhi <= nodes@.len(),
        rlo < rhi,
        rhi <= nodes@.len(),
    ensures
        forall|k: int|
            0 <= k < r.0@.len() ==> llo <= r.0@[k] < lhi && item_overlaps(
                nodes@[r.0@[k] as int].item,
                qs as int,
                qe as int,
            ),
        forall|k1: int, k2: int| 0 <= k1 < k2 < r.0@.len() ==> r.0@[k1] != r.0@[k2],
        sorted_range(nodes@, llo as int, lhi as int) && augmented_range(
            nodes@,
            llo as int,
            lhi as int,
        ) ==> forall|i: int|
            llo <= i < lhi && item_overlaps(nodes@[i].item, qs as int, qe as int)
                ==> r.0@.contains(i as usize),
        forall|k: int|
            0 <= k < r.1@.len() ==> rlo <= r.1@[k] < rhi && item_overlaps(
                nodes@[r.1@[k] as int].item,
                qs as int,
                qe as int,
            ),
        forall|k1: int, k2: int| 0 <= k1 < k2 < r.1@.len() ==> r.1@[k1] != r.1@[k2],
        sorted_range(nodes@, rlo as int, rhi as int) && augmented_range(
            nodes@,
            rlo as int,
            rhi as int,
        ) ==> forall|i: int|
            rlo <= i < rhi && item_overlaps(nodes@[i].item, qs as int, qe as int)
                ==> r.1@.contains(i as usize),
{
    rayon::join(
        || par_query(nodes, qs, qe, llo, lhi),
        || par_query(nodes, qs, qe, rlo, rhi),
    )
}

impl<V: Sync> ITree<V> {
    /// The positions of all overlapping records, like [`ITree::query_matches`],
    /// found with fork-join parallelism on the current rayon thread pool.
    pub fn par_query_matches(&self, qs: i64, qe: i64) -> (r: Vec<usize>)
        ensures
            forall|k: int|
                0 <= k < r@.len() ==> r@[k] < self@.len() && item_overlaps(
                    self@[r@[k] as int].item,
                    qs as int,
                    qe as int,
                ),
            forall|k1: int, k2: int| 0 <= k1 < k2 < r@.len() ==> r@[k1] != r@[k2],
            self.wf() ==> forall|i: int|
                0 <= i < self@.len() && item_overlaps(self@[i].item, qs as int, qe as int)
                    ==> r@.contains(i as usize),
            self.wf() ==> reported_items(self@, r@) == match_items(self@, qs as int, qe as int),
    {
        let r = if self.nodes.len() > 0 {
            let n = self.nodes.len();
            par_query(&self.nodes, qs, qe, 0, n)
        } else {
            Vec::new()
        };
        proof {
            if self.wf() {
                lemma_matches_oracle(self@, r@, qs as int, qe as int);
            }
        }
        r
    }

    /// Queries in parallel for all intervals overlapping the given interval.
    ///
    /// The matching records are found with fork-join parallelism; the handler
    /// is then invoked once per match, in a deterministic but unspecified
    /// order, stopping at the first `Break`.
    pub fn par_query<R, H: IntervalHandler<V, R>>(
        &self,
        interval: Range<i64>,
        handler: &mut H,
    ) -> (flow: ControlFlow<R, ()>)
        ensures
            flow is Break ==> exists|i: int|
                0 <= i < self@.len() && item_overlaps(
                    self@[i].item,
                    interval.start as int,
                    interval.end as int,
                ),
            (forall|i: int|
                0 <= i < self@.len() ==> !item_overlaps(
                    self@[i].item,
                    interval.start as int,
                    interval.end as int,
                )) ==> (flow is Continue && *final(handler) == *old(handler)),
    {
        let idxs = self.par_query_matches(interval.start, interval.end);
        let flow = drive(&self.nodes, &idxs, handler);
        proof {
            if idxs@.len() > 0 {
                assert(item_overlaps(
                    self@[idxs@[0] as int].item,
                    interval.start as int,
                    interval.end as int,
                ));
            }
        }
        flow
    }
}


/// Law: a report that names only overlapping positions and misses none of
/// them reports exactly the brute-force oracle's item set. Together with the
/// contract of [`ITree::query_matches`] this is the query-correctness
/// statement: on a well-formed tree the reported items equal the items a
/// linear scan with the half-open overlap test would select.
pub proof fn lemma_matches_oracle<V>(s: Seq<Node<V>>, r: Seq<usize>, qs: int, qe: int)
    requires
        s.len() <= usize::MAX,
        forall|k: int|
            0 <= k < r.len() ==> r[k] < s.len() && item_overlaps(s[#[trigger] r[k] as int].item, qs, qe),
        forall|i: int|
            0 <= i < s.len() && item_overlaps(s[i].item, qs, qe) ==> r.contains(i as usize),
    ensures
        reported_items(s, r) == match_items(s, qs, qe),
{
    assert forall|it: Item<V>| reported_items(s, r).contains(it) implies match_items(
        s,
        qs,
        qe,
    ).contains(it) by {
        let k = choose|k: int| 0 <= k < r.len() && r[k] < s.len() && s[r[k] as int].item == it;
        assert(stored_items(s)[r[k] as int] == it);
        assert(stored_items(s).contains(it));
    }
    assert forall|it: Item<V>| match_items(s, qs, qe).contains(it) implies reported_items(
        s,
        r,
    ).contains(it) by {
        let i = choose|i: int| 0 <= i < stored_items(s).len() && stored_items(s)[i] == it;
        assert(s[i].item == it);
        assert(item_overlaps(s[i].item, qs, qe));
        assert(r.contains(i as usize));
        let k = choose|k: int| 0 <= k < r.len() && r[k] == i as usize;
        assert(s[r[k] as int].item == it);
    }
    assert(reported_items(s, r) =~= match_items(s, qs, qe));
}

/// Law: which items a query matches depends only on the multiset of stored
/// items, not on how the records are arranged. In particular a tree built
/// sequentially and one built in parallel from the same input — both store
/// the input's item multiset — match the same item set for every query, as
/// do the sequential and the fork-join traversal of one tree, whose
/// contracts pin the same positions.
pub proof fn lemma_same_items_same_matches<V>(
    s1: Seq<Node<V>>,
    s2: Seq<Node<V>>,
    qs: int,
    qe: int,
)
    requires
        stored_items(s1).to_multiset() == stored_items(s2).to_multiset(),
    ensures
        match_items(s1, qs, qe) == match_items(s2, qs, qe),
{
    assert forall|it: Item<V>| stored_items(s1).contains(it) == stored_items(s2).contains(
        it,
    ) by {
        vstd::seq_lib::to_multiset_contains(stored_items(s1), it);
        vstd::seq_lib::to_multiset_contains(stored_items(s2), it);
    }
    assert(match_items(s1, qs, qe) =~= match_items(s2, qs, qe));
}

/// Law: wrapping the records of an existing tree with [`ITree::new_unchecked`]
/// yields a tree that behaves identically for every query: well-formedness
/// and the matched item set are functions of the records alone.
pub proof fn lemma_reinterpret_same_tree<V>(t1: ITree<V>, t2: ITree<V>, qs: int, qe: int)
    requires
        t1@ == t2@,
    ensures
        t1.wf() == t2.wf(),
        match_items(t1@, qs, qe) == match_items(t2@, qs, qe),
{
}

/// Invokes the handler on the records at the given positions, in order,
/// stopping at the first `Break`.
fn drive<V, R, H: IntervalHandler<V, R>>(
    nodes: &Vec<Node<V>>,
    idxs: &Vec<usize>,
    handler: &mut H,
) -> (flow: ControlFlow<R, ()>)
    requires
        forall|k: int| 0 <= k < idxs@.len() ==> idxs@[k] < nodes@.len(),
    ensures
        flow is Break ==> idxs@.len() > 0,
        idxs@.len() == 0 ==> flow is Continue && *final(handler) == *old(handler),
{
    if idxs.len() == 0 {
        return ControlFlow::Continue(());
    }
    let mut k: usize = 0;
    while k < idxs.len()
        invariant
            k <= idxs@.len(),
            idxs@.len() > 0,
            forall|j: int| 0 <= j < idxs@.len() ==> idxs@[j] < nodes@.len(),
        decreases idxs@.len() - k,
    {
        match handler.on_match(&nodes[idxs[k]].item) {
            ControlFlow::Break(r) => return ControlFlow::Break(r),
            ControlFlow::Continue(()) => {},
        }
        k = k + 1;
    }
    ControlFlow::Continue(())
}

} // verus!
