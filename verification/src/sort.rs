use vstd::prelude::*;
use vstd::multiset::Multiset;

use crate::{augmented_range, init_max_range, is_max_end, sorted_range, stored_items, ITree, Item, Node};

verus! {

/// The augmentation invariant only looks at the records inside the window:
/// two sequences that agree on an `n`-record window (possibly at different
/// offsets) satisfy it together or not at all.
pub(crate) proof fn lemma_augmented_shift<V>(
    s1: Seq<Node<V>>,
    lo1: int,
    s2: Seq<Node<V>>,
    lo2: int,
    n: int,
)
    requires
        0 <= lo1,
        lo1 + n <= s1.len(),
        0 <= lo2,
        lo2 + n <= s2.len(),
        forall|i: int| lo1 <= i < lo1 + n ==> #[trigger] s1[i] == s2[i - lo1 + lo2],
    ensures
        augmented_range(s1, lo1, lo1 + n) <==> augmented_range(s2, lo2, lo2 + n),
    decreases n,
{
    if n > 0 {
        let m = n / 2;
        lemma_augmented_shift(s1, lo1, s2, lo2, m);
        lemma_augmented_shift(s1, lo1 + m + 1, s2, lo2 + m + 1, n - m - 1);
        assert(s1[lo1 + m] == s2[lo2 + m]);
        let me = s1[lo1 + m].max_end as int;
        if is_max_end(s1, lo1, lo1 + n, me) {
            assert forall|i: int| lo2 <= i < lo2 + n implies s2[i].item.end <= me by {
                assert(s2[i] == s1[lo1 + (i - lo2)]);
            }
            let i1 = choose|i: int| lo1 <= i < lo1 + n && s1[i].item.end == me;
            assert(s2[lo2 + (i1 - lo1)].item.end == me);
            assert(is_max_end(s2, lo2, lo2 + n, me));
        }
        if is_max_end(s2, lo2, lo2 + n, me) {
            assert forall|i: int| lo1 <= i < lo1 + n implies s1[i].item.end <= me by {
                assert(s1[i] == s2[lo2 + (i - lo1)]);
            }
            let i2 = choose|i: int| lo2 <= i < lo2 + n && s2[i].item.end == me;
            assert(s1[lo1 + (i2 - lo2)].item.end == me);
            assert(is_max_end(s1, lo1, lo1 + n, me));
        }
    }
}

/// The sequential augmentation pass over positions `lo .. hi`: recursively
/// splits the window at its midpoint, augments both halves, and raises the
/// midpoint record's `max_end` to the maximum end of the whole window, which
/// it also returns.
#[verifier::rlimit(60)]
pub(crate) fn update_max<V>(nodes: &mut Vec<Node<V>>, lo: usize, hi: usize) -> (m: i64)
    requires
        lo < hi,
        hi <= old(nodes)@.len(),
        init_max_range(old(nodes)@, lo as int, hi as int),
    ensures
        final(nodes)@.len() == old(nodes)@.len(),
        forall|i: int| 0 <= i < final(nodes)@.len() && !(lo <= i < hi) ==> final(nodes)@[i] == old(nodes)@[i],
        forall|i: int| lo <= i < hi ==> final(nodes)@[i].item == old(nodes)@[i].item,
        augmented_range(final(nodes)@, lo as int, hi as int),
        is_max_end(final(nodes)@, lo as int, hi as int, m as int),
    decreases hi - lo,
{
    let mid = lo + (hi - lo) / 2;
    let ghost s0 = nodes@;
    let mut m: i64 = nodes[mid].max_end;
    let ghost mut wit: int = mid as int;
    assert(m == s0[mid as int].item.end);

    let mut lm: i64 = m;
    let left_nonempty = lo < mid;
    if left_nonempty {
        lm = update_max(nodes, lo, mid);
        proof {
            if lm > m {
                wit = choose|i: int| lo <= i < mid && nodes@[i].item.end == lm;
            }
        }
        if lm > m {
            m = lm;
        }
    }
    let ghost s1 = nodes@;
    assert(left_nonempty ==> augmented_range(s1, lo as int, mid as int)
        && is_max_end(s1, lo as int, mid as int, lm as int));
    assert(forall|i: int| mid <= i < hi ==> s1[i] == s0[i]);

    let mut rm: i64 = m;
    let right_nonempty = mid + 1 < hi;
    if right_nonempty {
        assert(init_max_range(s1, mid as int + 1, hi as int));
        rm = update_max(nodes, mid + 1, hi);
        proof {
            if rm > m {
                wit = choose|i: int| mid + 1 <= i < hi && nodes@[i].item.end == rm;
            }
        }
        if rm > m {
            m = rm;
        }
    }
    let ghost s2 = nodes@;
    assert(right_nonempty ==> augmented_range(s2, mid as int + 1, hi as int)
        && is_max_end(s2, mid as int + 1, hi as int, rm as int));
    assert(forall|i: int| 0 <= i < s2.len() && !(mid + 1 <= i < hi) ==> s2[i] == s1[i]);
    proof {
        if left_nonempty {
            lemma_augmented_shift(s1, lo as int, s2, lo as int, mid - lo);
            assert(augmented_range(s2, lo as int, mid as int));
        }
    }

    nodes[mid].max_end = m;
    let ghost s3 = nodes@;
    proof {
        assert(forall|i: int| 0 <= i < s3.len() && i != mid ==> s3[i] == s2[i]);
        assert(s3[mid as int].item == s2[mid as int].item && s3[mid as int].max_end == m);
        if left_nonempty {
            lemma_augmented_shift(s2, lo as int, s3, lo as int, mid - lo);
        }
        if right_nonempty {
            lemma_augmented_shift(s2, mid as int + 1, s3, mid as int + 1, hi - mid - 1);
        }
        // every end in the window is at most m
        assert forall|i: int| lo <= i < hi implies s3[i].item.end <= m by {
            if i < mid {
                assert(s1[i].item.end <= lm);
            } else if i == mid {
                assert(s3[i].item == s0[i].item);
            } else {
                assert(s2[i].item.end <= rm);
            }
        }
        // and position wit attains it
        assert(s3[wit].item.end == m);
        assert(is_max_end(s3, lo as int, hi as int, m as int));
        assert(augmented_range(s3, lo as int, mid as int));
        assert(augmented_range(s3, mid as int + 1, hi as int));
        assert(augmented_range(s3, lo as int, hi as int));
    }
    m
}


/// Every element of `s2` occurs in `s1` when the two hold the same multiset
/// of records.
pub(crate) proof fn lemma_perm_elements<V>(s1: Seq<Node<V>>, s2: Seq<Node<V>>)
    requires
        s1.to_multiset() == s2.to_multiset(),
    ensures
        s1.len() == s2.len(),
        forall|i: int| 0 <= i < s2.len() ==> s1.contains(#[trigger] s2[i]),
{
    broadcast use vstd::multiset::group_multiset_axioms;

    vstd::seq_lib::to_multiset_len(s1);
    vstd::seq_lib::to_multiset_len(s2);
    assert forall|i: int| 0 <= i < s2.len() implies s1.contains(#[trigger] s2[i]) by {
        vstd::seq_lib::to_multiset_contains(s2, s2[i]);
        vstd::seq_lib::to_multiset_contains(s1, s2[i]);
        assert(s2.contains(s2[i]));
        assert(s2.to_multiset().count(s2[i]) > 0);
    }
}

/// Reordering the records reorders the stored items: the item multisets of
/// two record sequences agree whenever their record multisets do.
pub(crate) proof fn lemma_stored_multiset<V>(s1: Seq<Node<V>>, s2: Seq<Node<V>>)
    requires
        s1.to_multiset() == s2.to_multiset(),
    ensures
        stored_items(s1).to_multiset() == stored_items(s2).to_multiset(),
    decreases s1.len(),
{
    broadcast use vstd::multiset::group_multiset_axioms;

    vstd::seq_lib::to_multiset_len(s1);
    vstd::seq_lib::to_multiset_len(s2);
    if s1.len() == 0 {
        assert(s2.len() == 0);
        assert(stored_items(s1) =~= stored_items(s2));
    } else {
        let x = s1.last();
        assert(s1.contains(x));
        vstd::seq_lib::to_multiset_contains(s1, x);
        vstd::seq_lib::to_multiset_contains(s2, x);
        assert(s2.contains(x));
        let j = choose|j: int| 0 <= j < s2.len() && s2[j] == x;
        let s1p = s1.drop_last();
        let s2p = s2.remove(j);
        assert(s1p =~= s1.remove(s1.len() - 1));
        vstd::seq_lib::to_multiset_remove(s1, s1.len() - 1);
        vstd::seq_lib::to_multiset_remove(s2, j);
        assert(s1p.to_multiset() == s1.to_multiset().remove(x));
        assert(s2p.to_multiset() == s2.to_multiset().remove(x));
        lemma_stored_multiset(s1p, s2p);
        assert(stored_items(s1) =~= stored_items(s1p).push(x.item));
        vstd::seq_lib::to_multiset_build(stored_items(s1p), x.item);
        assert(stored_items(s1).to_multiset() == stored_items(s1p).to_multiset().insert(x.item));
        assert(stored_items(s2p) =~= stored_items(s2).remove(j));
        vstd::seq_lib::to_multiset_remove(stored_items(s2), j);
        assert(stored_items(s2).remove(j).to_multiset() == stored_items(s2).to_multiset().remove(
            stored_items(s2)[j],
        ));
        assert(stored_items(s2)[j] == x.item);
        assert(stored_items(s2).contains(x.item));
        vstd::seq_lib::to_multiset_contains(stored_items(s2), x.item);
        assert(stored_items(s2).to_multiset().count(x.item) > 0);
        assert(stored_items(s1).to_multiset() =~= stored_items(s2).to_multiset());
    }
}

/// Relies on `<[T]>::sort_unstable_by_key` of std: it sorts the slice in
/// place by the given key, reordering the elements but neither adding nor
/// removing any.
#[verifier::external_body]
fn sort_by_start<V>(nodes: &mut Vec<Node<V>>)
    ensures
        final(nodes)@.to_multiset() == old(nodes)@.to_multiset(),
        sorted_range(final(nodes)@, 0, final(nodes)@.len() as int),
{
    nodes.sort_unstable_by_key(|n| n.item.start)
}

/// Relies on rayon's `ParallelSliceMut::par_sort_unstable_by_key`: it sorts
/// the slice in place by the given key, in parallel on the current thread
/// pool, reordering the elements but neither adding nor removing any.
#[verifier::external_body]
fn par_sort_by_start<V: Send>(nodes: &mut Vec<Node<V>>)
    ensures
        final(nodes)@.to_multiset() == old(nodes)@.to_multiset(),
        sorted_range(final(nodes)@, 0, final(nodes)@.len() as int),
{
    rayon::slice::ParallelSliceMut::par_sort_unstable_by_key(&mut nodes[..], |n| n.item.start)
}

/// Materializes each item as a record whose `max_end` starts out as the
/// item's own `end`.
fn make_nodes<V>(items: Vec<Item<V>>) -> (nodes: Vec<Node<V>>)
    ensures
        nodes@.len() == items@.len(),
        init_max_range(nodes@, 0, nodes@.len() as int),
        stored_items(nodes@).to_multiset() == items@.to_multiset(),
{
    broadcast use vstd::multiset::group_multiset_axioms;

    let ghost items0 = items@;
    let mut items = items;
    let mut nodes: Vec<Node<V>> = Vec::new();
    proof {
        assert(stored_items(nodes@) =~= Seq::<Item<V>>::empty());
        vstd::seq_lib::to_multiset_len(stored_items(nodes@));
        vstd::multiset::lemma_multiset_empty_len(stored_items(nodes@).to_multiset());
        assert(stored_items(nodes@).to_multiset() =~= Multiset::<Item<V>>::empty());
        assert(stored_items(nodes@).to_multiset().add(items@.to_multiset()) =~= items0.to_multiset());
    }
    while items.len() > 0
        invariant
            nodes@.len() + items@.len() == items0.len(),
            init_max_range(nodes@, 0, nodes@.len() as int),
            stored_items(nodes@).to_multiset().add(items@.to_multiset()) == items0.to_multiset(),
        decreases items@.len(),
    {
        let ghost items_pre = items@;
        let ghost nodes_pre = nodes@;
        let it = items.pop().unwrap();
        let e = it.end;
        nodes.push(Node { item: it, max_end: e });
        proof {
            assert(items@ =~= items_pre.remove(items_pre.len() - 1));
            vstd::seq_lib::to_multiset_remove(items_pre, items_pre.len() - 1);
            assert(items@.to_multiset() == items_pre.to_multiset().remove(it));
            assert(stored_items(nodes@) =~= stored_items(nodes_pre).push(it));
            vstd::seq_lib::to_multiset_build(stored_items(nodes_pre), it);
            assert(stored_items(nodes@).to_multiset() == stored_items(
                nodes_pre,
            ).to_multiset().insert(it));
            assert(items_pre.contains(it));
            vstd::seq_lib::to_multiset_contains(items_pre, it);
            assert(items_pre.to_multiset().count(it) > 0);
            assert(stored_items(nodes@).to_multiset().add(items@.to_multiset()) =~= stored_items(
                nodes_pre,
            ).to_multiset().add(items_pre.to_multiset()));
        }
    }
    proof {
        vstd::seq_lib::to_multiset_len(items@);
        vstd::multiset::lemma_multiset_empty_len(items@.to_multiset());
        assert(items@.to_multiset() =~= Multiset::<Item<V>>::empty());
        assert(stored_items(nodes@).to_multiset().add(items@.to_multiset()) =~= stored_items(
            nodes@,
        ).to_multiset());
    }
    nodes
}


/// A record permutation with every `max_end` still equal to its own end
/// keeps that property.
proof fn lemma_perm_keeps_init<V>(pre: Seq<Node<V>>, post: Seq<Node<V>>)
    requires
        pre.to_multiset() == post.to_multiset(),
        init_max_range(pre, 0, pre.len() as int),
    ensures
        post.len() == pre.len(),
        init_max_range(post, 0, post.len() as int),
{
    lemma_perm_elements(pre, post);
    assert forall|i: int| 0 <= i < post.len() implies #[trigger] post[i].max_end
        == post[i].item.end by {
        assert(pre.contains(post[i]));
        let j = choose|j: int| 0 <= j < pre.len() && pre[j] == post[i];
        assert(pre[j].max_end == pre[j].item.end);
    }
}

/// Sortedness only looks at the stored items, so a pass that rewrites
/// `max_end` fields but keeps every item in place preserves it.
proof fn lemma_items_keep_sorted<V>(a: Seq<Node<V>>, b: Seq<Node<V>>)
    requires
        a.len() == b.len(),
        forall|i: int| 0 <= i < a.len() ==> a[i].item == #[trigger] b[i].item,
        sorted_range(a, 0, a.len() as int),
    ensures
        sorted_range(b, 0, b.len() as int),
{
}

impl<V> ITree<V> {
    /// Builds a tree from the given items: materializes the records, sorts
    /// them by interval start (order among equal starts is unspecified), and
    /// runs the sequential augmentation pass.
    pub fn new(items: Vec<Item<V>>) -> (r: ITree<V>)
        ensures
            r.wf(),
            r@.len() == items@.len(),
            stored_items(r@).to_multiset() == items@.to_multiset(),
    {
        let mut nodes = make_nodes(items);
        let ghost pre = nodes@;
        sort_by_start(&mut nodes);
        proof {
            lemma_perm_keeps_init(pre, nodes@);
            lemma_stored_multiset(pre, nodes@);
        }
        if nodes.len() > 0 {
            let ghost sorted = nodes@;
            let n = nodes.len();
            update_max(&mut nodes, 0, n);
            proof {
                assert(stored_items(nodes@) =~= stored_items(sorted));
                lemma_items_keep_sorted(sorted, nodes@);
            }
        }
        ITree { nodes }
    }
}

impl<V: Send> ITree<V> {
    /// Builds the same tree as [`ITree::new`], using a parallel sort and a
    /// fork-join augmentation pass on the current rayon thread pool.
    pub fn par_new(items: Vec<Item<V>>) -> (r: ITree<V>)
        ensures
            r.wf(),
            r@.len() == items@.len(),
            stored_items(r@).to_multiset() == items@.to_multiset(),
    {
        let mut nodes = make_nodes(items);
        let ghost pre = nodes@;
        par_sort_by_start(&mut nodes);
        proof {
            lemma_perm_keeps_init(pre, nodes@);
            lemma_stored_multiset(pre, nodes@);
        }
        if nodes.len() > 0 {
            let ghost sorted = nodes@;
            let pair = par_update_max(nodes);
            nodes = pair.0;
            proof {
                assert(stored_items(nodes@) =~= stored_items(sorted));
                lemma_items_keep_sorted(sorted, nodes@);
            }
        }
        ITree { nodes }
    }
}

/// Runs the sequential augmentation pass over a whole owned record vector.
fn update_max_owned<V>(nodes: Vec<Node<V>>) -> (r: (Vec<Node<V>>, i64))
    requires
        nodes@.len() > 0,
        init_max_range(nodes@, 0, nodes@.len() as int),
    ensures
        r.0@.len() == nodes@.len(),
        forall|i: int| 0 <= i < nodes@.len() ==> r.0@[i].item == nodes@[i].item,
        augmented_range(r.0@, 0, nodes@.len() as int),
        is_max_end(r.0@, 0, nodes@.len() as int, r.1 as int),
{
    let mut nodes = nodes;
    let n = nodes.len();
    let m = update_max(&mut nodes, 0, n);
    (nodes, m)
}

/// Relies on `rayon::join`: it runs both closures to completion, possibly in
/// parallel, and returns both their results; the closures run the verified
/// sequential augmentation pass on the two disjoint halves.
#[verifier::external_body]
fn join_update_max<V: Send>(left: Vec<Node<V>>, right: Vec<Node<V>>) -> (r: (
    (Vec<Node<V>>, i64),
    (Vec<Node<V>>, i64),
))
    requires
        left@.len() > 0,
        init_max_range(left@, 0, left@.len() as int),
        right@.len() > 0,
        init_max_range(right@, 0, right@.len() as int),
    ensures
        r.0.0@.len() == left@.len(),
        forall|i: int| 0 <= i < left@.len() ==> r.0.0@[i].item == left@[i].item,
        augmented_range(r.0.0@, 0, left@.len() as int),
        is_max_end(r.0.0@, 0, left@.len() as int, r.0.1 as int),
        r.1.0@.len() == right@.len(),
        forall|i: int| 0 <= i < right@.len() ==> r.1.0@[i].item == right@[i].item,
        augmented_range(r.1.0@, 0, right@.len() as int),
        is_max_end(r.1.0@, 0, right@.len() as int, r.1.1 as int),
{
    rayon::join(|| update_max_owned(left), || update_max_owned(right))
}

/// The fork-join augmentation pass: splits the records at the midpoint,
/// augments both halves (in parallel when both are non-empty), and finishes
/// the midpoint record itself; returns the augmented records and the maximum
/// end of the whole window.
#[verifier::rlimit(60)]
pub(crate) fn par_update_max<V: Send>(nodes: Vec<Node<V>>) -> (r: (Vec<Node<V>>, i64))
    requires
        nodes@.len() > 0,
        init_max_range(nodes@, 0, nodes@.len() as int),
    ensures
        r.0@.len() == nodes@.len(),
        forall|i: int| 0 <= i < nodes@.len() ==> r.0@[i].item == nodes@[i].item,
        augmented_range(r.0@, 0, nodes@.len() as int),
        is_max_end(r.0@, 0, nodes@.len() as int, r.1 as int),
{
    let ghost s0 = nodes@;
    let len = nodes.len();
    let mid = len / 2;
    let mut left = nodes;
    let mut right = left.split_off(mid + 1);
    let mut midnode = left.pop().unwrap();
    assert(left@ =~= s0.subrange(0, mid as int));
    assert(right@ =~= s0.subrange(mid as int + 1, s0.len() as int));
    assert(midnode == s0[mid as int]);
    let ghost lpre = left@;
    let ghost rpre = right@;
    let mut m: i64 = midnode.max_end;
    let ghost mut wit: int = mid as int;
    assert(m == s0[mid as int].item.end);

    let mut lm: i64 = m;
    let mut rm: i64 = m;
    let left_nonempty = left.len() > 0;
    let right_nonempty = right.len() > 0;
    if left_nonempty && right_nonempty {
        let pair = join_update_max(left, right);
        lm = pair.0.1;
        rm = pair.1.1;
        left = pair.0.0;
        right = pair.1.0;
    } else if left_nonempty {
        let ln = left.len();
        lm = update_max(&mut left, 0, ln);
    } else if right_nonempty {
        let rn = right.len();
        rm = update_max(&mut right, 0, rn);
    }
    proof {
        if left_nonempty && lm > m {
            wit = choose|i: int| 0 <= i < left@.len() && left@[i].item.end == lm;
        }
    }
    if left_nonempty && lm > m {
        m = lm;
    }
    proof {
        if right_nonempty && rm > m {
            let k = choose|i: int| 0 <= i < right@.len() && right@[i].item.end == rm;
            wit = mid as int + 1 + k;
        }
    }
    if right_nonempty && rm > m {
        m = rm;
    }
    let ghost l1 = left@;
    let ghost r1 = right@;

    midnode.max_end = m;
    left.push(midnode);
    left.append(&mut right);
    proof {
        let fin = left@;
        assert(fin.len() == s0.len());
        assert(forall|i: int| 0 <= i < mid ==> fin[i] == l1[i]);
        assert(fin[mid as int].item == s0[mid as int].item && fin[mid as int].max_end == m);
        assert(forall|i: int| mid < i < fin.len() ==> fin[i] == r1[i - mid - 1]);
        assert forall|i: int| 0 <= i < fin.len() implies fin[i].item == s0[i].item by {
            if i < mid {
                assert(l1[i].item == lpre[i].item);
                assert(lpre[i] == s0.subrange(0, mid as int)[i]);
            } else if i > mid {
                assert(r1[i - mid - 1].item == rpre[i - mid - 1].item);
                assert(rpre[i - mid - 1] == s0.subrange(mid as int + 1, s0.len() as int)[i - mid
                    - 1]);
            }
        }
        if left_nonempty {
            lemma_augmented_shift(l1, 0, fin, 0, mid as int);
        }
        if right_nonempty {
            lemma_augmented_shift(r1, 0, fin, mid as int + 1, r1.len() as int);
        }
        assert forall|i: int| 0 <= i < fin.len() implies fin[i].item.end <= m by {
            if i < mid {
                assert(l1[i].item.end <= lm);
            } else if i > mid {
                assert(r1[i - mid - 1].item.end <= rm);
            }
        }
        assert(fin[wit].item.end == m);
        assert(is_max_end(fin, 0, fin.len() as int, m as int));
        assert(augmented_range(fin, 0, mid as int));
        assert(augmented_range(fin, mid as int + 1, fin.len() as int));
        assert(augmented_range(fin, 0, fin.len() as int));
    }
    (left, m)
}

} // verus!
