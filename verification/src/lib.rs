//! An immutable, flat representation of an augmented interval tree.
//!
//! A tree is a single sorted array of records; tree topology is implicit in
//! the array positions (each slice's midpoint is the subtree root), and each
//! record carries the maximum interval end over its implicit subtree, which
//! lets queries prune subtrees that cannot contain an overlap.

use vstd::prelude::*;

mod query;
mod sort;

pub use query::IntervalHandler;

verus! {

/// A stored half-open interval `[start, end)` with an associated value.
#[derive(Debug, Clone)]
pub struct Item<V> {
    /// Inclusive lower bound of the interval.
    pub start: i64,
    /// Exclusive upper bound of the interval.
    pub end: i64,
    /// The value associated with the interval.
    pub value: V,
}

/// An array element of the tree: an item plus the maximum interval end
/// over every item in the record's implicit subtree (itself included).
#[derive(Debug, Clone)]
pub struct Node<V> {
    /// The stored interval and its value.
    pub item: Item<V>,
    /// The augmentation: the maximum `item.end` over the implicit subtree.
    pub max_end: i64,
}

/// Interval tree mapping half-open `i64` intervals to values of type `V`.
#[derive(Debug, Default, Clone)]
pub struct ITree<V> {
    pub(crate) nodes: Vec<Node<V>>,
}

/// Two half-open intervals `[qs, qe)` and `[s, e)` overlap iff `qs < e && s < qe`.
/// Degenerate intervals (`s == e`) never overlap anything.
pub open spec fn overlaps(qs: int, qe: int, s: int, e: int) -> bool {
    qs < e && s < qe
}

/// The stored item overlaps the query interval `[qs, qe)`.
pub open spec fn item_overlaps<V>(it: Item<V>, qs: int, qe: int) -> bool {
    overlaps(qs, qe, it.start as int, it.end as int)
}

/// Records in positions `lo .. hi` are ordered by non-decreasing `start`.
pub open spec fn sorted_range<V>(s: Seq<Node<V>>, lo: int, hi: int) -> bool {
    forall|i: int, j: int|
        lo <= i < j < hi && 0 <= i && j < s.len() ==> s[i].item.start <= s[j].item.start
}

/// `m` is the maximum `item.end` over positions `lo .. hi`.
pub open spec fn is_max_end<V>(s: Seq<Node<V>>, lo: int, hi: int, m: int) -> bool {
    &&& forall|i: int| lo <= i < hi && 0 <= i && i < s.len() ==> s[i].item.end <= m
    &&& exists|i: int| lo <= i < hi && 0 <= i && i < s.len() && s[i].item.end == m
}

/// The augmentation invariant over the slice `lo .. hi`, defined along the
/// positional split: the record at the slice midpoint carries the true
/// maximum `item.end` of the whole slice, and both sub-slices recursively
/// satisfy the same condition.
pub open spec fn augmented_range<V>(s: Seq<Node<V>>, lo: int, hi: int) -> bool
    decreases hi - lo,
{
    hi <= lo || {
        let mid = lo + (hi - lo) / 2;
        &&& is_max_end(s, lo, hi, s[mid].max_end as int)
        &&& augmented_range(s, lo, mid)
        &&& augmented_range(s, mid + 1, hi)
    }
}

/// The items stored in the records, in array order.
pub open spec fn stored_items<V>(s: Seq<Node<V>>) -> Seq<Item<V>> {
    s.map_values(|n: Node<V>| n.item)
}

/// Every record's `max_end` still equals its own `item.end`, the state records
/// are in right after materialization and before the augmentation pass.
pub open spec fn init_max_range<V>(s: Seq<Node<V>>, lo: int, hi: int) -> bool {
    forall|i: int| lo <= i < hi && 0 <= i && i < s.len() ==> s[i].max_end == s[i].item.end
}

/// The set of stored items that overlap the query interval `[qs, qe)`:
/// the brute-force oracle a query must agree with.
pub open spec fn match_items<V>(s: Seq<Node<V>>, qs: int, qe: int) -> Set<Item<V>> {
    Set::new(|it: Item<V>| stored_items(s).contains(it) && item_overlaps(it, qs, qe))
}

/// The set of items standing at the reported record positions.
pub open spec fn reported_items<V>(s: Seq<Node<V>>, r: Seq<usize>) -> Set<Item<V>> {
    Set::new(|it: Item<V>| exists|k: int| 0 <= k < r.len() && r[k] < s.len() && s[#[trigger] r[k] as int].item == it)
}

impl<V> View for ITree<V> {
    type V = Seq<Node<V>>;

    open(crate) spec fn view(&self) -> Seq<Node<V>> {
        self.nodes@
    }
}

impl<V> ITree<V> {
    /// Both invariants correct query results rely on: records sorted by
    /// `start`, and the augmentation field correct on every implicit subtree.
    pub open spec fn wf(self) -> bool {
        &&& sorted_range(self@, 0, self@.len() as int)
        &&& augmented_range(self@, 0, self@.len() as int)
    }

    /// Interprets the given records as a tree, with no sorting and no
    /// augmentation pass.
    ///
    /// Supplying records that do not satisfy [`ITree::wf`] is safe but leads
    /// to silently incorrect (missed) query matches, never to a crash.
    pub fn new_unchecked(nodes: Vec<Node<V>>) -> (r: ITree<V>)
        ensures
            r@ == nodes@,
    {
        ITree { nodes }
    }

    /// The number of stored items.
    pub fn len(&self) -> (n: usize)
        ensures
            n == self@.len(),
    {
        self.nodes.len()
    }

    /// Borrows the backing records in their physical order, the flat layout
    /// that can be handed back to [`ITree::new_unchecked`] unchanged.
    pub fn records(&self) -> (r: &Vec<Node<V>>)
        ensures
            r@ == self@,
    {
        &self.nodes
    }

    /// Gives up the backing records.
    pub fn into_records(self) -> (r: Vec<Node<V>>)
        ensures
            r@ == self@,
    {
        self.nodes
    }

    /// All stored items in their physical order, independent of the tree
    /// semantics: positionally sorted by `start` when built by [`ITree::new`].
    pub fn iter(&self) -> (r: Vec<&Item<V>>)
        ensures
            r@.len() == self@.len(),
            forall|i: int| 0 <= i < r@.len() ==> *r@[i] == self@[i].item,
    {
        let mut r: Vec<&Item<V>> = Vec::new();
        let mut i: usize = 0;
        while i < self.nodes.len()
            invariant
                i <= self.nodes.len(),
                r@.len() == i,
                forall|k: int| 0 <= k < i ==> *r@[k] == self.nodes@[k].item,
            decreases self.nodes.len() - i,
        {
            r.push(&self.nodes[i].item);
            i = i + 1;
        }
        r
    }
}

} // verus!
