use vstd::prelude::*;

verus! {

/// Ordering strategy for a heap: `dominates(a, b)` says whether `a` may sit
/// above `b` in the tree. The relation must be a strict weak ordering, which
/// `lemma_strict_weak_order` obliges every implementation to prove.
pub trait HeapOrder<T> {
    /// The dominance relation this strategy realises.
    spec fn dominates(&self, above: T, below: T) -> bool;

    /// Dominance is a strict weak ordering: irreflexive, asymmetric, and
    /// negatively transitive (so both dominance and "equal rank" are
    /// transitive).
    proof fn lemma_strict_weak_order(&self, a: T, b: T, c: T)
        ensures
            !self.dominates(a, a),
            self.dominates(a, b) ==> !self.dominates(b, a),
            (!self.dominates(a, b) && !self.dominates(b, c)) ==> !self.dominates(a, c),
            (self.dominates(a, b) && self.dominates(b, c)) ==> self.dominates(a, c),
    ;

    /// Decides whether `left` may sit above `right`.
    fn left_can_go_above(&self, left: &T, right: &T) -> (r: bool)
        ensures
            r == self.dominates(*left, *right),
    ;
}

/// Ascending strategy: smaller elements sit above larger ones (a min-heap).
#[derive(Debug, Clone, Copy)]
pub struct MinOrder;

/// Descending strategy: larger elements sit above smaller ones (a max-heap).
#[derive(Debug, Clone, Copy)]
pub struct MaxOrder;

impl Default for MinOrder {
    fn default() -> (r: Self)
        ensures
            r == MinOrder,
    {
        MinOrder
    }
}

impl Default for MaxOrder {
    fn default() -> (r: Self)
        ensures
            r == MaxOrder,
    {
        MaxOrder
    }
}

impl HeapOrder<u64> for MinOrder {
    open spec fn dominates(&self, above: u64, below: u64) -> bool {
        above < below
    }

    proof fn lemma_strict_weak_order(&self, a: u64, b: u64, c: u64) {
    }

    fn left_can_go_above(&self, left: &u64, right: &u64) -> (r: bool) {
        *left < *right
    }
}

impl HeapOrder<i64> for MinOrder {
    open spec fn dominates(&self, above: i64, below: i64) -> bool {
        above < below
    }

    proof fn lemma_strict_weak_order(&self, a: i64, b: i64, c: i64) {
    }

    fn left_can_go_above(&self, left: &i64, right: &i64) -> (r: bool) {
        *left < *right
    }
}

impl HeapOrder<u64> for MaxOrder {
    open spec fn dominates(&self, above: u64, below: u64) -> bool {
        above > below
    }

    proof fn lemma_strict_weak_order(&self, a: u64, b: u64, c: u64) {
    }

    fn left_can_go_above(&self, left: &u64, right: &u64) -> (r: bool) {
        *left > *right
    }
}

impl HeapOrder<i64> for MaxOrder {
    open spec fn dominates(&self, above: i64, below: i64) -> bool {
        above > below
    }

    proof fn lemma_strict_weak_order(&self, a: i64, b: i64, c: i64) {
    }

    fn left_can_go_above(&self, left: &i64, right: &i64) -> (r: bool) {
        *left > *right
    }
}

/// Index of the parent of node `i` in the array encoding of the tree.
pub open spec fn parent_index(i: int) -> int {
    (i - 1) / 2
}

/// The heap property: no node dominates its parent.
pub open spec fn heap_ordered<T, O: HeapOrder<T>>(s: Seq<T>, o: O) -> bool {
    forall|i: int|
        #![trigger s[i]]
        1 <= i < s.len() ==> !o.dominates(s[i], s[parent_index(i)])
}

/// The heap property everywhere except at the edge from node `x` to its
/// parent, which may be violated while a repair is in progress.
spec fn heap_ordered_except<T, O: HeapOrder<T>>(s: Seq<T>, o: O, x: int) -> bool {
    forall|i: int|
        #![trigger s[i]]
        1 <= i < s.len() && i != x ==> !o.dominates(s[i], s[parent_index(i)])
}

/// The heap property restricted to edges whose parent lies at or beyond `lo`;
/// this is what bulk heapify has established for the suffix it has processed.
spec fn heap_ordered_from<T, O: HeapOrder<T>>(s: Seq<T>, o: O, lo: int) -> bool {
    forall|i: int|
        #![trigger s[i]]
        1 <= i < s.len() && parent_index(i) >= lo ==> !o.dominates(s[i], s[parent_index(i)])
}

/// Node `q` lies in the subtree rooted at `root` — equivalently, `root` lies
/// on the ancestor chain of `q`.
pub open spec fn in_subtree(root: int, q: int) -> bool
    decreases q,
{
    q == root || (q > root && q > 0 && in_subtree(root, parent_index(q)))
}

/// The ancestor relation is transitive.
proof fn lemma_in_subtree_transitive(a: int, b: int, c: int)
    requires
        in_subtree(a, b),
        in_subtree(b, c),
    ensures
        in_subtree(a, c),
    decreases c,
{
    if c != b {
        assert(in_subtree(b, parent_index(c)));
        lemma_in_subtree_transitive(a, b, parent_index(c));
    }
}

/// The heap property on every edge that lies inside the subtree rooted at
/// `root` (the edges from `root`'s own children included).
spec fn subtree_ordered<T, O: HeapOrder<T>>(s: Seq<T>, o: O, root: int) -> bool {
    forall|i: int|
        #![trigger s[i]]
        1 <= i < s.len() && in_subtree(root, parent_index(i)) ==> !o.dominates(
            s[i],
            s[parent_index(i)],
        )
}

/// The heap property inside the subtree rooted at `root`, except possibly at
/// the edges from `root`'s own children to `root`: only `root` itself may be
/// misplaced downward.
spec fn subtree_ordered_below<T, O: HeapOrder<T>>(s: Seq<T>, o: O, root: int) -> bool {
    forall|i: int|
        #![trigger s[i]]
        1 <= i < s.len() && in_subtree(root, parent_index(i)) && parent_index(i) != root
            ==> !o.dominates(s[i], s[parent_index(i)])
}

/// `s2` differs from `s` only on the single descending path that leads from
/// `root` to its descendant `e`.
spec fn changed_only_on_path<T>(s: Seq<T>, s2: Seq<T>, root: int, e: int) -> bool {
    &&& root <= e < s.len()
    &&& in_subtree(root, e)
    &&& (forall|q: int|
        #![trigger s2[q]]
        0 <= q < s2.len() && !(in_subtree(root, q) && in_subtree(q, e)) ==> s2[q] == s[q])
}

/// The children of node `x` do not dominate the element at `x`'s parent.
/// While an element sifts up from position `x`, this is what lets the old
/// parent drop into `x` without breaking the edges to `x`'s children.
spec fn children_not_above_grandparent<T, O: HeapOrder<T>>(s: Seq<T>, o: O, x: int) -> bool {
    forall|c: int|
        #![trigger s[c]]
        2 * x + 1 <= c <= 2 * x + 2 && c < s.len() ==> !o.dominates(s[c], s[parent_index(x)])
}

/// Relies on slice::swap (through Vec's deref): exchanges the elements at
/// indices `i` and `j` and touches nothing else.
#[verifier::external_body]
fn swap_elements<T>(data: &mut Vec<T>, i: usize, j: usize)
    requires
        i < old(data).len(),
        j < old(data).len(),
    ensures
        final(data)@ == old(data)@.update(i as int, old(data)@[j as int]).update(
            j as int,
            old(data)@[i as int],
        ),
{
    data.swap(i, j);
}

/// Swapping two positions of a sequence leaves its multiset of elements
/// unchanged.
proof fn lemma_swap_multiset<T>(s: Seq<T>, i: int, j: int)
    requires
        0 <= i < s.len(),
        0 <= j < s.len(),
    ensures
        s.update(i, s[j]).update(j, s[i]).to_multiset() == s.to_multiset(),
{
    broadcast use vstd::seq_lib::group_to_multiset_ensures;
    broadcast use vstd::multiset::group_multiset_axioms;

    let s1 = s.update(i, s[j]);
    assert(s1[j] == s[j]);
    assert(s1.update(j, s[i]).to_multiset() =~= s.to_multiset());
}

/// Restores the heap property by walking the element at `pos_index` toward
/// the root, swapping it with its parent for as long as the element
/// dominates the parent; it stops at the root or at the first parent the
/// element does not dominate, so equal-ranked pairs are never swapped.
#[verifier::rlimit(60)]
fn heapify_up<T, O: HeapOrder<T>>(data: &mut Vec<T>, pos_index: usize, order: &O)
    requires
        pos_index < old(data).len(),
        heap_ordered_except(old(data)@, *order, pos_index as int),
        pos_index > 0 ==> children_not_above_grandparent(old(data)@, *order, pos_index as int),
    ensures
        final(data)@.len() == old(data)@.len(),
        final(data)@.to_multiset() == old(data)@.to_multiset(),
        heap_ordered(final(data)@, *order),
        // only positions on the ancestor chain of the start position change
        forall|q: int|
            #![trigger final(data)@[q]]
            0 <= q < final(data)@.len() && !in_subtree(q, pos_index as int) ==> final(data)@[q] == old(data)@[q],
        // an element that does not dominate its parent moves nothing at all
        (pos_index == 0 || !order.dominates(
            old(data)@[pos_index as int],
            old(data)@[parent_index(pos_index as int)],
        )) ==> final(data)@ == old(data)@,
{
    let mut pos: usize = pos_index;
    while pos > 0
        invariant_except_break
            pos < data.len(),
            in_subtree(pos as int, pos_index as int),
            data@.len() == old(data)@.len(),
            data@.to_multiset() == old(data)@.to_multiset(),
            heap_ordered_except(data@, *order, pos as int),
            pos > 0 ==> children_not_above_grandparent(data@, *order, pos as int),
            forall|q: int|
                #![trigger data@[q]]
                0 <= q < data@.len() && !in_subtree(q, pos_index as int) ==> data@[q] == old(data)@[q],
            (pos_index == 0 || !order.dominates(
                old(data)@[pos_index as int],
                old(data)@[parent_index(pos_index as int)],
            )) ==> (pos == pos_index && data@ == old(data)@),
        ensures
            data@.len() == old(data)@.len(),
            data@.to_multiset() == old(data)@.to_multiset(),
            heap_ordered(data@, *order),
            forall|q: int|
                #![trigger data@[q]]
                0 <= q < data@.len() && !in_subtree(q, pos_index as int) ==> data@[q] == old(data)@[q],
            (pos_index == 0 || !order.dominates(
                old(data)@[pos_index as int],
                old(data)@[parent_index(pos_index as int)],
            )) ==> data@ == old(data)@,
        decreases pos,
    {
        let parent: usize = (pos - 1) / 2;
        proof {
            assert(parent as int == parent_index(pos as int));
        }
        if order.left_can_go_above(&data[pos], &data[parent]) {
            // The element dominates its parent: swap them and walk up.
            proof {
                let s = data@;
                let p = parent as int;
                let q = pos as int;
                let x = s[q];
                let y = s[p];
                let s2 = s.update(q, y).update(p, x);
                lemma_swap_multiset(s, q, p);
                // asymmetry: the displaced parent does not dominate the element
                order.lemma_strict_weak_order(x, y, x);
                assert forall|i: int|
                    1 <= i < s2.len() && i != p implies !order.dominates(
                    s2[i],
                    s2[parent_index(i)],
                ) by {
                    if i == q {
                        // the swapped edge itself, by asymmetry
                    } else if parent_index(i) == q {
                        // a child of `pos`: it does not dominate the old
                        // parent, which is what now sits at `pos`
                        assert(s[i] == s[i]);
                    } else if parent_index(i) == p {
                        // the sibling of `pos`: below the old parent, which
                        // in turn does not dominate the sifting element
                        order.lemma_strict_weak_order(s[i], y, x);
                    } else {
                        assert(s[i] == s[i]);
                    }
                }
                if p > 0 {
                    assert forall|c: int|
                        2 * p + 1 <= c <= 2 * p + 2 && c < s2.len() implies !order.dominates(
                        s2[c],
                        s2[parent_index(p)],
                    ) by {
                        assert(s[p] == y);
                        if c != q {
                            order.lemma_strict_weak_order(s[c], y, s[parent_index(p)]);
                        }
                    }
                }
                // both swapped slots lie on the start position's ancestor chain
                assert(in_subtree(p, p));
                assert(in_subtree(p, q));
                lemma_in_subtree_transitive(p, q, pos_index as int);
            }
            swap_elements(data, pos, parent);
            pos = parent;
        } else {
            // The element does not dominate its parent: the one suspect edge
            // is in order, so the whole array is.
            proof {
                let s = data@;
                assert forall|i: int|
                    1 <= i < s.len() implies !order.dominates(s[i], s[parent_index(i)]) by {
                    assert(s[i] == s[i]);
                }
            }
            break;
        }
    }
}

/// After a sift-down from `t`, the element at `t` is either the one that was
/// there or one of its former children; the repair never pulls anything up
/// from deeper in the tree.
spec fn top_was_top_or_child<T>(s_old: Seq<T>, s: Seq<T>, t: int) -> bool {
    ||| s[t] == s_old[t]
    ||| (2 * t + 1 < s_old.len() && s[t] == s_old[2 * t + 1])
    ||| (2 * t + 2 < s_old.len() && s[t] == s_old[2 * t + 2])
}

/// Restores the heap property below `top_index` by walking the element there
/// toward the leaves, swapping it with its dominant child for as long as one
/// of its children dominates it.
#[verifier::rlimit(100)]
fn heapify_down<T, O: HeapOrder<T>>(data: &mut Vec<T>, top_index: usize, order: &O)
    requires
        top_index < old(data).len(),
        subtree_ordered_below(old(data)@, *order, top_index as int),
    ensures
        final(data)@.len() == old(data)@.len(),
        final(data)@.to_multiset() == old(data)@.to_multiset(),
        subtree_ordered(final(data)@, *order, top_index as int),
        // only the positions on one descending path from `top_index` change
        exists|e: int| changed_only_on_path(old(data)@, final(data)@, top_index as int, e),
        top_was_top_or_child(old(data)@, final(data)@, top_index as int),
        // an already-ordered subtree comes through unchanged
        subtree_ordered(old(data)@, *order, top_index as int) ==> final(data)@ == old(data)@,
{
    let mut top: usize = top_index;
    loop
        invariant_except_break
            top < data.len(),
            top == top_index || top >= 2 * top_index + 1,
            in_subtree(top_index as int, top as int),
            data@.len() == old(data)@.len(),
            data@.to_multiset() == old(data)@.to_multiset(),
            // inside the subtree, only the edges into the cursor may be broken
            forall|i: int|
                #![trigger data@[i]]
                1 <= i < data@.len() && in_subtree(top_index as int, parent_index(i))
                    && parent_index(i) != top ==> !order.dominates(
                    data@[i],
                    data@[parent_index(i)],
                ),
            // only the path from the start to the cursor has changed
            forall|q: int|
                #![trigger data@[q]]
                0 <= q < data@.len() && !(in_subtree(top_index as int, q) && in_subtree(
                    q,
                    top as int,
                )) ==> data@[q] == old(data)@[q],
            top_was_top_or_child(old(data)@, data@, top_index as int),
            top == top_index ==> data@ == old(data)@,
            subtree_ordered(old(data)@, *order, top_index as int) ==> top == top_index,
            top != top_index ==> children_not_above_grandparent(data@, *order, top as int),
        ensures
            data@.len() == old(data)@.len(),
            data@.to_multiset() == old(data)@.to_multiset(),
            subtree_ordered(data@, *order, top_index as int),
            exists|e: int| changed_only_on_path(old(data)@, data@, top_index as int, e),
            top_was_top_or_child(old(data)@, data@, top_index as int),
            subtree_ordered(old(data)@, *order, top_index as int) ==> data@ == old(data)@,
        decreases data@.len() - top,
    {
        let mut highest: usize = top;
        if top < data.len() / 2 {
            let left: usize = 2 * top + 1;
            let right: usize = left + 1;
            if order.left_can_go_above(&data[left], &data[highest]) {
                highest = left;
            }
            if right < data.len() && order.left_can_go_above(&data[right], &data[highest]) {
                highest = right;
            }
        }
        if highest != top {
            proof {
                let ti = top_index as int;
                let t = top as int;
                let h = highest as int;
                assert(parent_index(h) == t);
                assert(in_subtree(t, t));
                assert(in_subtree(t, h));
                assert(in_subtree(h, h));
                lemma_in_subtree_transitive(ti, t, h);
                // a child dominated the element at `top`, so the subtree was
                // not already in order
                if subtree_ordered(old(data)@, *order, ti) {
                    assert(in_subtree(ti, ti));
                    assert(data@[2 * t + 1] == old(data)@[2 * t + 1]);
                    assert(2 * t + 2 < data@.len() ==> data@[2 * t + 2] == old(data)@[2 * t
                        + 2]);
                    assert(parent_index(2 * t + 1) == t);
                    assert(parent_index(2 * t + 2) == t);
                    assert(false);
                }
                let s = data@;
                let x = s[t];
                let s2 = s.update(t, s[h]).update(h, x);
                lemma_swap_multiset(s, t, h);
                // the dominant child moves up; by asymmetry the displaced
                // element may sit below it
                order.lemma_strict_weak_order(s[h], x, x);
                // the sibling of the dominant child does not dominate it
                if 2 * t + 1 < s.len() && 2 * t + 2 < s.len() {
                    order.lemma_strict_weak_order(s[2 * t + 1], s[2 * t + 2], x);
                    order.lemma_strict_weak_order(s[2 * t + 2], s[2 * t + 1], x);
                }
                assert forall|i: int|
                    1 <= i < s2.len() && in_subtree(ti, parent_index(i)) && parent_index(i)
                        != h implies !order.dominates(s2[i], s2[parent_index(i)]) by {
                    if i == h {
                        // the swapped edge itself
                    } else if i == t {
                        // the edge from `top` to its own parent: the child
                        // that moved up was known not to dominate it
                        assert(in_subtree(ti, parent_index(i)));
                        assert(s[i] == s[i]);
                        assert(s[h] == s[h]);
                    } else if parent_index(i) == t {
                        // the sibling of the dominant child
                        assert(s[i] == s[i]);
                    } else {
                        assert(s[i] == s[i]);
                    }
                }
                // the frame grows by one step along the path
                assert forall|q: int|
                    0 <= q < s2.len() && !(in_subtree(ti, q) && in_subtree(q, h))
                        implies s2[q] == old(data)@[q] by {
                    if in_subtree(ti, q) && in_subtree(q, t) {
                        lemma_in_subtree_transitive(q, t, h);
                    } else {
                        assert(s[q] == s[q]);
                    }
                }
                if h != ti {
                    assert forall|c: int|
                        2 * h + 1 <= c <= 2 * h + 2 && c < s2.len() implies !order.dominates(
                        s2[c],
                        s2[parent_index(h)],
                    ) by {
                        assert(s[c] == s[c]);
                    }
                }
            }
            swap_elements(data, top, highest);
            top = highest;
        } else {
            proof {
                let ti = top_index as int;
                let s = data@;
                let t = top as int;
                assert forall|i: int|
                    1 <= i < s.len() && in_subtree(ti, parent_index(i)) implies !order.dominates(
                    s[i],
                    s[parent_index(i)],
                ) by {
                    if parent_index(i) == t {
                        assert(2 * t + 1 <= i <= 2 * t + 2);
                        assert(s[i] == s[i]);
                    }
                }
                assert(changed_only_on_path(old(data)@, data@, ti, t));
            }
            break;
        }
    }
}

/// Establishes the heap property over the whole array by sifting down at
/// every position that has a child, from the last such position back to the
/// root. Data that already satisfies the heap property is left untouched.
fn heapify_in_place<T, O: HeapOrder<T>>(data: &mut Vec<T>, order: &O)
    ensures
        final(data)@.len() == old(data)@.len(),
        final(data)@.to_multiset() == old(data)@.to_multiset(),
        heap_ordered(final(data)@, *order),
        heap_ordered(old(data)@, *order) ==> final(data)@ == old(data)@,
{
    let mut i: usize = data.len() / 2;
    while i > 0
        invariant
            i <= data@.len(),
            data@.len() == old(data)@.len(),
            data@.to_multiset() == old(data)@.to_multiset(),
            heap_ordered_from(data@, *order, i as int),
            heap_ordered(old(data)@, *order) ==> data@ == old(data)@,
        decreases i,
    {
        i = i - 1;
        proof {
            // the suffix invariant covers the whole subtree of `i` but its root
            assert forall|j: int|
                1 <= j < data@.len() && in_subtree(i as int, parent_index(j))
                    && parent_index(j) != i implies !order.dominates(
                data@[j],
                data@[parent_index(j)],
            ) by {
                assert(in_subtree(i as int, parent_index(j)));
                assert(data@[j] == data@[j]);
            }
            if heap_ordered(old(data)@, *order) {
                assert(subtree_ordered(data@, *order, i as int));
            }
        }
        let ghost pre = data@;
        heapify_down(data, i, order);
        proof {
            // edges whose parent is at or beyond `i` but outside `i`'s
            // subtree were untouched, so the suffix invariant is restored
            let e = choose|e: int| changed_only_on_path(pre, data@, i as int, e);
            assert forall|j: int|
                1 <= j < data@.len() && parent_index(j) >= i implies !order.dominates(
                data@[j],
                data@[parent_index(j)],
            ) by {
                if !in_subtree(i as int, parent_index(j)) {
                    assert(in_subtree(i as int, i as int));
                    assert(!in_subtree(i as int, j));
                    assert(data@[j] == pre[j]);
                    assert(data@[parent_index(j)] == pre[parent_index(j)]);
                    assert(pre[j] == pre[j]);
                } else {
                    assert(data@[j] == data@[j]);
                }
            }
        }
    }
    proof {
        assert forall|j: int| 1 <= j < data@.len() implies !order.dominates(
            data@[j],
            data@[parent_index(j)],
        ) by {
            assert(data@[j] == data@[j]);
        }
    }
}

/// All edges on the path from node `j` up to the root are in order.
spec fn chain_ok<T, O: HeapOrder<T>>(s: Seq<T>, o: O, j: int) -> bool
    decreases j,
{
    j <= 0 || (!o.dominates(s[j], s[parent_index(j)]) && chain_ok(s, o, parent_index(j)))
}

/// Every node lies on the upward path of some node without children, so
/// checking those paths checks every edge.
proof fn lemma_chain_ok_everywhere<T, O: HeapOrder<T>>(s: Seq<T>, o: O, j: int)
    requires
        0 <= j < s.len(),
        forall|l: int|
            s.len() / 2 <= l < s.len() ==> #[trigger] chain_ok(s, o, l),
    ensures
        chain_ok(s, o, j),
    decreases s.len() - j,
{
    if j < s.len() / 2 {
        lemma_chain_ok_everywhere(s, o, 2 * j + 1);
        assert(parent_index(2 * j + 1) == j);
    }
}

/// If the upward path of every childless node is in order, the whole array
/// satisfies the heap property.
proof fn lemma_chains_give_heap_ordered<T, O: HeapOrder<T>>(s: Seq<T>, o: O)
    requires
        forall|l: int|
            s.len() / 2 <= l < s.len() ==> #[trigger] chain_ok(s, o, l),
    ensures
        heap_ordered(s, o),
{
    assert forall|i: int| 1 <= i < s.len() implies !o.dominates(s[i], s[parent_index(i)]) by {
        lemma_chain_ok_everywhere(s, o, i);
    }
}

/// Linear-time validity check: walks the parent chain of every leaf and
/// reports whether the heap property holds everywhere.
pub fn is_heap<T, O: HeapOrder<T>>(values: &[T], order: &O) -> (r: bool)
    ensures
        r == heap_ordered(values@, *order),
{
    let n = values.len();
    let mut leaf: usize = n / 2;
    while leaf < n
        invariant
            n == values@.len(),
            leaf >= n / 2,
            forall|l: int|
                n / 2 <= l < leaf ==> #[trigger] chain_ok(values@, *order, l),
        decreases n - leaf,
    {
        let mut pos: usize = leaf;
        while pos > 0
            invariant
                n == values@.len(),
                pos <= leaf,
                leaf < n,
                chain_ok(values@, *order, pos as int) ==> chain_ok(
                    values@,
                    *order,
                    leaf as int,
                ),
            decreases pos,
        {
            let parent: usize = (pos - 1) / 2;
            if order.left_can_go_above(
                vstd::slice::slice_index_get(values, pos),
                vstd::slice::slice_index_get(values, parent),
            ) {
                // this node dominates its parent: a direct witness against
                // the heap property
                proof {
                    assert(values@[pos as int] == values@[pos as int]);
                }
                return false;
            }
            pos = parent;
        }
        proof {
            assert(chain_ok(values@, *order, 0));
        }
        leaf = leaf + 1;
    }
    proof {
        lemma_chains_give_heap_ordered(values@, *order);
    }
    true
}

/// In a heap-ordered array no element dominates the root: the root is always
/// the most dominant element, which is what extraction at index zero relies
/// on.
pub proof fn lemma_root_dominant<T, O: HeapOrder<T>>(s: Seq<T>, o: O, i: int)
    requires
        heap_ordered(s, o),
        0 <= i < s.len(),
    ensures
        !o.dominates(s[i], s[0]),
    decreases i,
{
    if i == 0 {
        o.lemma_strict_weak_order(s[0], s[0], s[0]);
    } else {
        lemma_root_dominant(s, o, parent_index(i));
        o.lemma_strict_weak_order(s[i], s[parent_index(i)], s[0]);
    }
}

/// The extract-in-order law: after the root of a heap-ordered array is taken
/// out, nothing that remains — in particular not the next root — dominates
/// it. Repeated extraction at the root therefore yields values in
/// non-descending rank: non-decreasing under the ascending order,
/// non-increasing under the descending order.
pub proof fn lemma_extract_in_order<T, O: HeapOrder<T>>(s: Seq<T>, s2: Seq<T>, o: O)
    requires
        heap_ordered(s, o),
        s.len() > 0,
        s2.to_multiset() == s.to_multiset().remove(s[0]),
    ensures
        forall|i: int| #![trigger s2[i]] 0 <= i < s2.len() ==> !o.dominates(s2[i], s[0]),
{
    broadcast use vstd::seq_lib::group_to_multiset_ensures;
    broadcast use vstd::multiset::group_multiset_axioms;

    assert forall|i: int| 0 <= i < s2.len() implies !o.dominates(s2[i], s[0]) by {
        assert(s2.contains(s2[i]));
        assert(s2.to_multiset().count(s2[i]) > 0);
        assert(s.to_multiset().count(s2[i]) > 0);
        assert(s.contains(s2[i]));
        let j = choose|j: int| 0 <= j < s.len() && s[j] == s2[i];
        lemma_root_dominant(s, o, j);
    }
}

/// An array-backed binary heap: a growable sequence interpreted as a complete
/// binary tree, paired with the ordering strategy fixed at construction.
#[derive(Debug, Clone)]
pub struct Heap<T, Order: HeapOrder<T>> {
    data: Vec<T>,
    order: Order,
}

impl<T, Order: HeapOrder<T>> View for Heap<T, Order> {
    type V = Seq<T>;

    closed spec fn view(&self) -> Seq<T> {
        self.data@
    }
}

impl<T, Order: HeapOrder<T>> Heap<T, Order> {
    /// The ordering strategy this heap was built with.
    pub closed spec fn order_spec(&self) -> Order {
        self.order
    }

    /// Well-formedness: the stored sequence satisfies the heap property
    /// under the stored ordering strategy.
    pub open spec fn wf(&self) -> bool {
        heap_ordered(self@, self.order_spec())
    }

    /// Builds a heap from an arbitrary sequence by bulk heapify: the result
    /// is a permutation of the input satisfying the heap property, and input
    /// that already satisfies it comes through unchanged.
    pub fn from_vec_and_cmp(data: Vec<T>, order: Order) -> (h: Self)
        ensures
            h.order_spec() == order,
            h@.len() == data@.len(),
            h@.to_multiset() == data@.to_multiset(),
            h.wf(),
            heap_ordered(data@, order) ==> h@ == data@,
    {
        let mut data = data;
        heapify_in_place(&mut data, &order);
        Self { data, order }
    }

    /// Trusted construction: accepts a sequence the caller asserts is already
    /// heap-ordered. The assertion is a logical precondition, not a runtime
    /// check; callers must establish it.
    pub fn unsafe_from_heap_and_cmp(data: Vec<T>, order: Order) -> (h: Self)
        requires
            heap_ordered(data@, order),
        ensures
            h@ == data@,
            h.order_spec() == order,
            h.wf(),
    {
        Self { data, order }
    }

    /// Checked construction: validates the claim that `data` is already
    /// heap-ordered and returns no heap at all if it is not.
    pub fn try_from_heap_and_cmp(data: Vec<T>, order: Order) -> (r: Option<Self>)
        ensures
            r is Some <==> heap_ordered(data@, order),
            r matches Some(h) ==> h@ == data@ && h.order_spec() == order && h.wf(),
    {
        if is_heap(data.as_slice(), &order) {
            Some(Self { data, order })
        } else {
            None
        }
    }

    /// Creates an empty heap; the capacity is a preallocation hint only.
    pub fn with_capacity_and_cmp(capacity: usize, order: Order) -> (h: Self)
        ensures
            h@ == Seq::<T>::empty(),
            h.order_spec() == order,
            h.wf(),
    {
        Self { data: Vec::with_capacity(capacity), order }
    }

    /// The number of elements currently in the heap.
    pub fn len(&self) -> (r: usize)
        ensures
            r == self@.len(),
    {
        self.data.len()
    }

    /// Read-only view of the backing array (array order, not sorted order).
    pub fn values(&self) -> (r: &[T])
        ensures
            r@ == self@,
    {
        self.data.as_slice()
    }

    /// Reference to the ordering strategy.
    pub fn order(&self) -> (r: &Order)
        ensures
            *r == self.order_spec(),
    {
        &self.order
    }

    /// Consumes the heap, returning the backing array as it stands.
    pub fn to_values(self) -> (r: Vec<T>)
        ensures
            r@ == self@,
    {
        self.data
    }

    /// Appends `value` at the leftmost open slot — the end of the array —
    /// and sifts it up until it no longer dominates its parent.
    pub fn insert(&mut self, value: T)
        requires
            old(self).wf(),
        ensures
            final(self).wf(),
            final(self).order_spec() == old(self).order_spec(),
            final(self)@.len() == old(self)@.len() + 1,
            final(self)@.to_multiset() == old(self)@.to_multiset().insert(value),
            // a value that does not dominate its parent-to-be is appended at
            // the end with no further movement
            (old(self)@.len() == 0 || !old(self).order_spec().dominates(
                value,
                old(self)@[parent_index(old(self)@.len() as int)],
            )) ==> final(self)@ == old(self)@.push(value),
            // only the new slot and its ancestor chain can change
            forall|q: int|
                #![trigger final(self)@[q]]
                0 <= q < old(self)@.len() && !in_subtree(q, old(self)@.len() as int) ==> final(self)@[q] == old(self)@[q],
    {
        let new_node_index = self.data.len();
        self.data.push(value);
        proof {
            let s = self.data@;
            assert forall|i: int|
                1 <= i < s.len() && i != new_node_index implies !self.order.dominates(
                s[i],
                s[parent_index(i)],
            ) by {
                assert(s[i] == old(self)@[i]);
            }
        }
        heapify_up(&mut self.data, new_node_index, &self.order);
        proof {
            broadcast use vstd::seq_lib::group_to_multiset_ensures;

            assert(old(self)@.push(value).to_multiset() == old(self)@.to_multiset().insert(
                value,
            ));
        }
    }

    /// Removes and returns the element at `index`. The last element takes
    /// its place and the array shrinks by one; then at most one repair pass
    /// runs — up if the replacement dominates the removed value, down if the
    /// removed value dominated the replacement, and none when the two are of
    /// equal rank, in which case the replacement is already correctly placed.
    ///
    /// Removal at index zero extracts the dominant element: nothing left in
    /// the heap dominates the returned value.
    pub fn remove(&mut self, index: usize) -> (r: T)
        requires
            old(self).wf(),
            index < old(self)@.len(),
        ensures
            r == old(self)@[index as int],
            final(self).wf(),
            final(self).order_spec() == old(self).order_spec(),
            final(self)@.len() == old(self)@.len() - 1,
            final(self)@.to_multiset() == old(self)@.to_multiset().remove(r),
            index == 0 ==> forall|i: int|
                #![trigger final(self)@[i]]
                0 <= i < final(self)@.len() ==> !old(self).order_spec().dominates(
                    final(self)@[i],
                    r,
                ),
            // removing the last element just pops it
            index == old(self)@.len() - 1 ==> final(self)@ == old(self)@.drop_last(),
            // when the replacement and the removed value are of equal rank,
            // the last element drops into the hole and nothing else moves
            (index < old(self)@.len() - 1 && !old(self).order_spec().dominates(
                old(self)@.last(),
                old(self)@[index as int],
            ) && !old(self).order_spec().dominates(
                old(self)@[index as int],
                old(self)@.last(),
            )) ==> final(self)@ == old(self)@.update(index as int, old(self)@.last()).drop_last(),
    {
        let ret = self.data.swap_remove(index);
        proof {
            broadcast use vstd::seq_lib::group_to_multiset_ensures;
            broadcast use vstd::multiset::group_multiset_axioms;

            let m = old(self)@;
            let n = m.len() as int;
            let u = m.update(index as int, m.last());
            assert(self.data@ =~= u.remove(n - 1));
            assert(u.remove(n - 1).to_multiset() == u.to_multiset().remove(u[n - 1]));
            assert(u.to_multiset() == m.to_multiset().insert(m.last()).remove(m[index as int]));
            assert(self.data@.to_multiset() =~= m.to_multiset().remove(ret));
            if index < n - 1 {
                assert(self.data@[index as int] == m.last());
            } else {
                assert(u =~= m);
                assert(self.data@ =~= m.drop_last());
            }
        }
        if index < self.data.len() {
            if self.order.left_can_go_above(&self.data[index], &ret) {
                // The replacement dominates the removed value: it may now be
                // too high for its ancestors, so sift it up.
                proof {
                    let m = old(self)@;
                    let s1 = self.data@;
                    let i0 = index as int;
                    let rep = s1[i0];
                    assert forall|j: int|
                        1 <= j < s1.len() && j != i0 implies !self.order.dominates(
                        s1[j],
                        s1[parent_index(j)],
                    ) by {
                        assert(s1[j] == m[j]);
                        assert(m[j] == m[j]);
                        if parent_index(j) == i0 {
                            self.order.lemma_strict_weak_order(m[j], rep, ret);
                        }
                    }
                    if i0 > 0 {
                        assert forall|c: int|
                            2 * i0 + 1 <= c <= 2 * i0 + 2 && c < s1.len()
                            implies !self.order.dominates(s1[c], s1[parent_index(i0)]) by {
                            assert(s1[c] == m[c]);
                            assert(m[i0] == ret);
                            self.order.lemma_strict_weak_order(m[c], ret, m[parent_index(i0)]);
                        }
                    }
                }
                heapify_up(&mut self.data, index, &self.order);
            } else if self.order.left_can_go_above(&ret, &self.data[index]) {
                // The removed value dominated the replacement: the
                // replacement may now be too low for its descendants, so
                // sift it down.
                proof {
                    let m = old(self)@;
                    let s1 = self.data@;
                    let i0 = index as int;
                    assert forall|j: int|
                        1 <= j < s1.len() && in_subtree(i0, parent_index(j)) && parent_index(j)
                            != i0 implies !self.order.dominates(s1[j], s1[parent_index(j)]) by {
                        assert(in_subtree(i0, parent_index(j)));
                        assert(s1[j] == m[j]);
                        assert(m[j] == m[j]);
                    }
                }
                let ghost s1 = self.data@;
                let ghost rep = self.data@[index as int];
                heapify_down(&mut self.data, index, &self.order);
                proof {
                    let m = old(self)@;
                    let i0 = index as int;
                    let s2 = self.data@;
                    let e = choose|e: int| changed_only_on_path(s1, s2, i0, e);
                    assert forall|j: int|
                        1 <= j < s2.len() implies !self.order.dominates(
                        s2[j],
                        s2[parent_index(j)],
                    ) by {
                        let p = parent_index(j);
                        assert(s2[j] == s2[j]);
                        if !in_subtree(i0, p) {
                            assert(m[i0] == ret);
                            assert(m[j] == m[j]);
                            assert(in_subtree(i0, i0));
                            if j == i0 {
                                assert(s2[p] == s1[p]);
                                // whatever now sits at the repair point is
                                // the replacement or a former child of the
                                // removal point; neither dominates the old
                                // parent
                                self.order.lemma_strict_weak_order(ret, rep, m[p]);
                                self.order.lemma_strict_weak_order(rep, ret, m[p]);
                                if 2 * i0 + 1 < s1.len() {
                                    assert(s1[2 * i0 + 1] == m[2 * i0 + 1]);
                                    self.order.lemma_strict_weak_order(
                                        m[2 * i0 + 1],
                                        ret,
                                        m[p],
                                    );
                                }
                                if 2 * i0 + 2 < s1.len() {
                                    assert(s1[2 * i0 + 2] == m[2 * i0 + 2]);
                                    self.order.lemma_strict_weak_order(
                                        m[2 * i0 + 2],
                                        ret,
                                        m[p],
                                    );
                                }
                            } else {
                                // an edge the sift never touched
                                if in_subtree(i0, j) {
                                    assert(in_subtree(i0, parent_index(j)));
                                    assert(false);
                                }
                                assert(s2[j] == s1[j]);
                                assert(s2[p] == s1[p]);
                                assert(s1[j] == m[j]);
                            }
                        }
                    }
                }
            } else {
                // Neither dominates the other: the replacement has the same
                // rank as the removed value, which was correctly placed, so
                // no repair is needed.
                proof {
                    let m = old(self)@;
                    let s1 = self.data@;
                    let i0 = index as int;
                    let rep = s1[i0];
                    assert forall|j: int|
                        1 <= j < s1.len() implies !self.order.dominates(
                        s1[j],
                        s1[parent_index(j)],
                    ) by {
                        let p = parent_index(j);
                        assert(m[i0] == ret);
                        assert(m[j] == m[j]);
                        if j == i0 {
                            self.order.lemma_strict_weak_order(rep, ret, m[p]);
                        } else {
                            assert(s1[j] == m[j]);
                            if p == i0 {
                                self.order.lemma_strict_weak_order(m[j], ret, rep);
                            }
                        }
                    }
                }
            }
        } else {
            // The removed element was the last one; no repair is needed.
            proof {
                let m = old(self)@;
                let s1 = self.data@;
                assert forall|j: int|
                    1 <= j < s1.len() implies !self.order.dominates(
                    s1[j],
                    s1[parent_index(j)],
                ) by {
                    assert(s1[j] == m[j]);
                    assert(m[j] == m[j]);
                }
            }
        }
        proof {
            if index == 0 {
                lemma_extract_in_order(old(self)@, self.data@, old(self).order_spec());
            }
        }
        ret
    }
}

/// Two to the `k`-th power: the width of row `k` of a complete binary tree.
pub open spec fn pow2(k: nat) -> nat
    decreases k,
{
    if k == 0 {
        1
    } else {
        2 * pow2((k - 1) as nat)
    }
}

/// The slice of `s` that forms row `k` of the tree: it starts where row `k`
/// of a complete binary tree starts and ends at the row boundary or at the
/// end of the data, whichever comes first.
pub open spec fn tree_row<T>(s: Seq<T>, k: nat) -> Seq<T> {
    let start = pow2(k) - 1;
    let bound = pow2(k + 1) - 1;
    let end = if bound < s.len() {
        bound as int
    } else {
        s.len() as int
    };
    s.subrange(start as int, end)
}

/// A read-only rendering of a heap with its elements grouped by tree depth;
/// row widths double from one row to the next.
#[derive(Debug, Clone)]
pub struct TreeFormatHeap<T> {
    /// The elements of the heap, row by row from the root down.
    pub rows: Vec<Vec<T>>,
}

impl<T: Copy, Order: HeapOrder<T>> Heap<T, Order> {
    /// Groups the elements by tree depth for human inspection; purely a
    /// presentation convenience with no invariants of its own.
    pub fn tree_format(&self) -> (r: TreeFormatHeap<T>)
        ensures
            forall|k: int|
                0 <= k < r.rows@.len() ==> #[trigger] r.rows@[k]@ == tree_row(self@, k as nat),
            self@.len() == 0 ==> r.rows@.len() == 0,
            self@.len() > 0 ==> r.rows@.len() > 0 && pow2((r.rows@.len() - 1) as nat) - 1
                < self@.len() <= pow2(r.rows@.len() as nat) - 1,
    {
        let n = self.data.len();
        let mut rows: Vec<Vec<T>> = Vec::new();
        let mut row: Vec<T> = Vec::new();
        let mut row_start: usize = 0;
        let mut row_width: usize = 1;
        let mut idx: usize = 0;
        while idx < n
            invariant
                n == self@.len(),
                idx <= n,
                row_width == pow2(rows@.len() as nat),
                row_start == row_width - 1,
                row_start + row@.len() == idx,
                row@.len() <= row_width,
                row@ == self@.subrange(row_start as int, idx as int),
                forall|k: int|
                    0 <= k < rows@.len() ==> #[trigger] rows@[k]@ == tree_row(self@, k as nat),
            decreases n - idx,
        {
            if row.len() == row_width {
                proof {
                    assert(pow2((rows@.len() + 1) as nat) == 2 * pow2(rows@.len() as nat));
                    assert(tree_row(self@, rows@.len() as nat) == row@);
                }
                rows.push(row);
                row = Vec::new();
                row_start = idx;
                row_width = 2 * row_width;
            }
            let value = self.data[idx];
            proof {
                assert(self@.subrange(row_start as int, idx + 1) =~= self@.subrange(
                    row_start as int,
                    idx as int,
                ).push(self@[idx as int]));
            }
            row.push(value);
            idx = idx + 1;
        }
        if row.len() > 0 {
            proof {
                assert(tree_row(self@, rows@.len() as nat) == row@);
            }
            rows.push(row);
        }
        TreeFormatHeap { rows }
    }
}

/// A heap whose root is the largest element under `<` on the element type.
pub type MaxHeap<T> = Heap<T, MaxOrder>;

/// A heap whose root is the smallest element under `<` on the element type.
pub type MinHeap<T> = Heap<T, MinOrder>;

impl<T> Heap<T, MaxOrder> where MaxOrder: HeapOrder<T> {
    /// Creates an empty descending (max) heap.
    pub fn new() -> (h: Self)
        ensures
            h@ == Seq::<T>::empty(),
            h.order_spec() == MaxOrder,
            h.wf(),
    {
        let h = Self::max(Vec::new());
        proof {
            assert(h@ =~= Seq::<T>::empty());
        }
        h
    }

    /// Creates an empty descending (max) heap with a capacity hint.
    pub fn with_capacity(capacity: usize) -> (h: Self)
        ensures
            h@ == Seq::<T>::empty(),
            h.order_spec() == MaxOrder,
            h.wf(),
    {
        Self::with_capacity_and_cmp(capacity, MaxOrder::default())
    }

    /// Bulk-heapifies `data` under descending order.
    pub fn max(data: Vec<T>) -> (h: Self)
        ensures
            h.order_spec() == MaxOrder,
            h@.len() == data@.len(),
            h@.to_multiset() == data@.to_multiset(),
            h.wf(),
            heap_ordered(data@, MaxOrder) ==> h@ == data@,
    {
        Self::from_vec_and_cmp(data, MaxOrder::default())
    }

    /// Trusted construction under descending order; the caller asserts that
    /// `data` is already heap-ordered.
    pub fn unsafe_from_max_heap(data: Vec<T>) -> (h: Self)
        requires
            heap_ordered(data@, MaxOrder),
        ensures
            h@ == data@,
            h.order_spec() == MaxOrder,
            h.wf(),
    {
        Self::unsafe_from_heap_and_cmp(data, MaxOrder::default())
    }

    /// Checked construction under descending order.
    pub fn try_from_max_heap(data: Vec<T>) -> (r: Option<Self>)
        ensures
            r is Some <==> heap_ordered(data@, MaxOrder),
            r matches Some(h) ==> h@ == data@ && h.order_spec() == MaxOrder && h.wf(),
    {
        Self::try_from_heap_and_cmp(data, MaxOrder::default())
    }
}

impl<T> Heap<T, MinOrder> where MinOrder: HeapOrder<T> {
    /// Creates an empty ascending (min) heap.
    pub fn new() -> (h: Self)
        ensures
            h@ == Seq::<T>::empty(),
            h.order_spec() == MinOrder,
            h.wf(),
    {
        let h = Self::min(Vec::new());
        proof {
            assert(h@ =~= Seq::<T>::empty());
        }
        h
    }

    /// Creates an empty ascending (min) heap with a capacity hint.
    pub fn with_capacity(capacity: usize) -> (h: Self)
        ensures
            h@ == Seq::<T>::empty(),
            h.order_spec() == MinOrder,
            h.wf(),
    {
        Self::with_capacity_and_cmp(capacity, MinOrder::default())
    }

    /// Bulk-heapifies `data` under ascending order.
    pub fn min(data: Vec<T>) -> (h: Self)
        ensures
            h.order_spec() == MinOrder,
            h@.len() == data@.len(),
            h@.to_multiset() == data@.to_multiset(),
            h.wf(),
            heap_ordered(data@, MinOrder) ==> h@ == data@,
    {
        Self::from_vec_and_cmp(data, MinOrder::default())
    }

    /// Trusted construction under ascending order; the caller asserts that
    /// `data` is already heap-ordered.
    pub fn unsafe_from_min_heap(data: Vec<T>) -> (h: Self)
        requires
            heap_ordered(data@, MinOrder),
        ensures
            h@ == data@,
            h.order_spec() == MinOrder,
            h.wf(),
    {
        Self::unsafe_from_heap_and_cmp(data, MinOrder::default())
    }

    /// Checked construction under ascending order.
    pub fn try_from_min_heap(data: Vec<T>) -> (r: Option<Self>)
        ensures
            r is Some <==> heap_ordered(data@, MinOrder),
            r matches Some(h) ==> h@ == data@ && h.order_spec() == MinOrder && h.wf(),
    {
        Self::try_from_heap_and_cmp(data, MinOrder::default())
    }
}

impl<T> Default for Heap<T, MaxOrder> where MaxOrder: HeapOrder<T> {
    fn default() -> (h: Self)
        ensures
            h@ == Seq::<T>::empty(),
            h.order_spec() == MaxOrder,
            h.wf(),
    {
        Self::new()
    }
}

impl<T> Default for Heap<T, MinOrder> where MinOrder: HeapOrder<T> {
    fn default() -> (h: Self)
        ensures
            h@ == Seq::<T>::empty(),
            h.order_spec() == MinOrder,
            h.wf(),
    {
        Self::new()
    }
}

} // verus!
