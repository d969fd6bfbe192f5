use vstd::prelude::*;

use crate::freq::{sum_counts, FrequencyTable};

verus! {

/// A node of the Huffman tree: either a leaf carrying one symbol and its
/// occurrence count, or an internal node carrying the combined count of its
/// two children.
#[derive(Debug)]
pub enum Node {
    Leaf { letter: char, occurences: usize },
    Internal { occurences: usize, left: Box<Node>, right: Box<Node> },
}

impl Node {
    /// The occurrence count stored at this node.
    pub open spec fn occ(self) -> usize {
        match self {
            Node::Leaf { occurences, .. } => occurences,
            Node::Internal { occurences, .. } => occurences,
        }
    }

    /// The set of symbols carried by the leaves of this tree.
    pub open spec fn symbols(self) -> Set<char>
        decreases self,
    {
        match self {
            Node::Leaf { letter, .. } => set![letter],
            Node::Internal { left, right, .. } => left.symbols().union(right.symbols()),
        }
    }

    /// Every internal node's count is the sum of its children's counts.
    pub open spec fn wf(self) -> bool
        decreases self,
    {
        match self {
            Node::Leaf { .. } => true,
            Node::Internal { occurences, left, right } => {
                &&& occurences == left.occ() + right.occ()
                &&& left.wf()
                &&& right.wf()
            },
        }
    }

    /// No symbol appears in two different leaves of this tree.
    pub open spec fn distinct(self) -> bool
        decreases self,
    {
        match self {
            Node::Leaf { .. } => true,
            Node::Internal { left, right, .. } => {
                &&& left.symbols().disjoint(right.symbols())
                &&& left.distinct()
                &&& right.distinct()
            },
        }
    }

    pub fn occurences(&self) -> (n: usize)
        ensures
            n == self.occ(),
    {
        match self {
            Node::Leaf { occurences, .. } => *occurences,
            Node::Internal { occurences, .. } => *occurences,
        }
    }

    pub fn new(letter: char, occurences: usize) -> (n: Node)
        ensures
            n == (Node::Leaf { letter, occurences }),
    {
        Node::Leaf { letter, occurences }
    }

    pub fn new_node(occurences: usize, left_node: Node, right_node: Node) -> (n: Node)
        ensures
            n == (Node::Internal {
                occurences,
                left: Box::new(left_node),
                right: Box::new(right_node),
            }),
    {
        Node::Internal { occurences, left: Box::new(left_node), right: Box::new(right_node) }
    }
}

/// Nodes compare by their occurrence count alone; symbols and shape never
/// take part.
impl PartialEq for Node {
    fn eq(&self, other: &Self) -> (r: bool) {
        self.occurences() == other.occurences()
    }
}

impl vstd::std_specs::cmp::PartialEqSpecImpl for Node {
    open spec fn obeys_eq_spec() -> bool {
        true
    }

    open spec fn eq_spec(&self, other: &Node) -> bool {
        self.occ() == other.occ()
    }
}

/// Index of the node with the least count among the first `n` elements of `q`;
/// a tie is broken towards the earliest index, so insertion order decides
/// between nodes of equal count.
pub open spec fn min_occ_upto(q: Seq<Node>, n: int) -> int
    recommends
        1 <= n <= q.len(),
    decreases n,
{
    if n <= 1 {
        0
    } else {
        let r = min_occ_upto(q, n - 1);
        if q[n - 1].occ() < q[r].occ() {
            n - 1
        } else {
            r
        }
    }
}

/// Index of the first node with the least count in `q`.
pub open spec fn min_occ_index(q: Seq<Node>) -> int {
    min_occ_upto(q, q.len() as int)
}

pub proof fn lemma_min_occ_upto_props(q: Seq<Node>, n: int)
    requires
        1 <= n <= q.len(),
    ensures
        0 <= min_occ_upto(q, n) < n,
        forall|j: int| 0 <= j < n ==> #[trigger] q[j].occ() >= q[min_occ_upto(q, n)].occ(),
        forall|j: int| 0 <= j < min_occ_upto(q, n) ==> #[trigger] q[j].occ() > q[min_occ_upto(q, n)].occ(),
    decreases n,
{
    if n > 1 {
        lemma_min_occ_upto_props(q, n - 1);
    }
}

/// The sum of the counts of all nodes in `q`.
pub open spec fn total_occ(q: Seq<Node>) -> int
    decreases q.len(),
{
    if q.len() == 0 {
        0
    } else {
        total_occ(q.drop_last()) + q.last().occ()
    }
}

pub proof fn lemma_total_occ_nonneg(q: Seq<Node>)
    ensures
        total_occ(q) >= 0,
    decreases q.len(),
{
    if q.len() > 0 {
        lemma_total_occ_nonneg(q.drop_last());
    }
}

pub proof fn lemma_total_occ_remove(q: Seq<Node>, i: int)
    requires
        0 <= i < q.len(),
    ensures
        total_occ(q.remove(i)) == total_occ(q) - q[i].occ(),
    decreases q.len(),
{
    if i == q.len() - 1 {
        assert(q.remove(i) =~= q.drop_last());
    } else {
        assert(q.remove(i).drop_last() =~= q.drop_last().remove(i));
        assert(q.remove(i).last() == q.last());
        lemma_total_occ_remove(q.drop_last(), i);
    }
}

pub proof fn lemma_total_occ_push(q: Seq<Node>, n: Node)
    ensures
        total_occ(q.push(n)) == total_occ(q) + n.occ(),
{
    assert(q.push(n).drop_last() =~= q);
}

/// The tree obtained by repeatedly merging the two lowest-count nodes of `q`,
/// the first one removed becoming the left child, until one node remains.
pub open spec fn spec_build_tree(q: Seq<Node>) -> Node
    recommends
        q.len() >= 1,
    decreases q.len(),
    via spec_build_tree_decreases
{
    if q.len() <= 1 {
        q[0]
    } else {
        let a = q[min_occ_index(q)];
        let q1 = q.remove(min_occ_index(q));
        let b = q1[min_occ_index(q1)];
        let q2 = q1.remove(min_occ_index(q1));
        spec_build_tree(
            q2.push(
                Node::Internal {
                    occurences: (a.occ() + b.occ()) as usize,
                    left: Box::new(a),
                    right: Box::new(b),
                },
            ),
        )
    }
}

#[via_fn]
proof fn spec_build_tree_decreases(q: Seq<Node>) {
    if q.len() > 1 {
        lemma_min_occ_upto_props(q, q.len() as int);
        let q1 = q.remove(min_occ_index(q));
        lemma_min_occ_upto_props(q1, q1.len() as int);
    }
}

/// A priority collection of tree nodes: `pop` removes the node with the least
/// occurrence count, ties going to the node inserted first.
pub struct OrderedQueue {
    items: Vec<Node>,
}

impl View for OrderedQueue {
    type V = Seq<Node>;

    closed spec fn view(&self) -> Seq<Node> {
        self.items@
    }
}

impl OrderedQueue {
    pub fn new() -> (q: OrderedQueue)
        ensures
            q@ == Seq::<Node>::empty(),
    {
        OrderedQueue { items: Vec::new() }
    }

    pub fn len(&self) -> (n: usize)
        ensures
            n == self@.len(),
    {
        self.items.len()
    }

    pub fn push(&mut self, node: Node)
        ensures
            final(self)@ == old(self)@.push(node),
    {
        self.items.push(node);
    }

    pub fn pop(&mut self) -> (r: Option<Node>)
        ensures
            old(self)@.len() == 0 ==> r is None && final(self)@ == old(self)@,
            old(self)@.len() > 0 ==> {
                &&& r == Some(old(self)@[min_occ_index(old(self)@)])
                &&& final(self)@ == old(self)@.remove(min_occ_index(old(self)@))
            },
    {
        if self.items.len() == 0 {
            return None;
        }
        let mut best: usize = 0;
        let mut i: usize = 1;
        while i < self.items.len()
            invariant
                1 <= i <= self.items@.len(),
                0 <= best < i,
                best == min_occ_upto(self.items@, i as int),
            decreases self.items@.len() - i,
        {
            if self.items[i].occurences() < self.items[best].occurences() {
                best = i;
            }
            i = i + 1;
        }
        Some(self.items.remove(best))
    }
}

/// All symbols carried by any node of `q`.
pub open spec fn queue_symbols(q: Seq<Node>) -> Set<char> {
    Set::new(|c: char| exists|i: int| 0 <= i < q.len() && #[trigger] q[i].symbols().contains(c))
}

/// Each node of `q` is free of repeated symbols, and no symbol appears in two
/// different nodes.
pub open spec fn queue_inv(q: Seq<Node>) -> bool {
    &&& (forall|i: int| 0 <= i < q.len() ==> (#[trigger] q[i]).distinct())
    &&& (forall|i: int, j: int|
        0 <= i < q.len() && 0 <= j < q.len() && i != j ==> #[trigger] q[i].symbols().disjoint(
            #[trigger] q[j].symbols(),
        ))
}

/// Removing a node keeps the queue invariant; what is left stays disjoint from
/// the removed node.
pub proof fn lemma_queue_inv_remove(q: Seq<Node>, i: int)
    requires
        queue_inv(q),
        0 <= i < q.len(),
    ensures
        queue_inv(q.remove(i)),
        forall|j: int|
            0 <= j < q.remove(i).len() ==> (#[trigger] q.remove(i)[j]).symbols().disjoint(
                q[i].symbols(),
            ),
{
    let rm = q.remove(i);
    q.remove_ensures(i);
    assert forall|j: int, k: int|
        0 <= j < rm.len() && 0 <= k < rm.len() && j != k implies #[trigger] rm[j].symbols().disjoint(
        #[trigger] rm[k].symbols(),
    ) by {
        let j0 = if j < i {
            j
        } else {
            j + 1
        };
        let k0 = if k < i {
            k
        } else {
            k + 1
        };
        assert(rm[j] == q[j0]);
        assert(rm[k] == q[k0]);
    }
    assert forall|j: int| 0 <= j < rm.len() implies (#[trigger] rm[j]).distinct() && rm[
        j
    ].symbols().disjoint(q[i].symbols()) by {
        let j0 = if j < i {
            j
        } else {
            j + 1
        };
        assert(rm[j] == q[j0]);
    }
}

/// Merging preserves the queue invariant, the set of symbols, and distinctness
/// of the finished tree.
pub proof fn lemma_build_tree_symbols(q: Seq<Node>)
    requires
        q.len() >= 1,
        queue_inv(q),
    ensures
        spec_build_tree(q).distinct(),
        spec_build_tree(q).symbols() == queue_symbols(q),
    decreases q.len(),
{
    if q.len() <= 1 {
        assert(spec_build_tree(q).symbols() =~= queue_symbols(q)) by {
            assert forall|c: char| queue_symbols(q).contains(c) implies q[0].symbols().contains(
                c,
            ) by {
                let i = choose|i: int| 0 <= i < q.len() && #[trigger] q[i].symbols().contains(c);
                assert(i == 0);
            }
        }
    } else {
        lemma_min_occ_upto_props(q, q.len() as int);
        let i1 = min_occ_index(q);
        let a = q[i1];
        let q1 = q.remove(i1);
        q.remove_ensures(i1);
        lemma_min_occ_upto_props(q1, q1.len() as int);
        let i2 = min_occ_index(q1);
        let b = q1[i2];
        let q2 = q1.remove(i2);
        q1.remove_ensures(i2);
        let m = Node::Internal {
            occurences: (a.occ() + b.occ()) as usize,
            left: Box::new(a),
            right: Box::new(b),
        };
        let q3 = q2.push(m);
        assert(m.symbols() == a.symbols().union(b.symbols()));
        lemma_queue_inv_remove(q, i1);
        lemma_queue_inv_remove(q1, i2);
        let bidx = if i2 < i1 {
            i2
        } else {
            i2 + 1
        };
        assert(q[bidx] == b);
        assert(a.symbols().disjoint(b.symbols())) by {
            assert(q1[i2].symbols().disjoint(q[i1].symbols()));
        }
        assert(m.distinct());
        assert forall|j: int| 0 <= j < q2.len() implies (#[trigger] q2[j]).symbols().disjoint(
            m.symbols(),
        ) by {
            let j0 = if j < i2 {
                j
            } else {
                j + 1
            };
            assert(q2[j] == q1[j0]);
            assert(q1[j0].symbols().disjoint(a.symbols()));
            assert(q2[j].symbols().disjoint(b.symbols()));
        }
        assert(queue_inv(q3)) by {
            assert(forall|i: int| 0 <= i < q2.len() ==> q3[i] == q2[i]);
            assert(q3[q2.len() as int] == m);
            assert forall|i: int, j: int|
                0 <= i < q3.len() && 0 <= j < q3.len() && i != j implies #[trigger] q3[
                i
            ].symbols().disjoint(#[trigger] q3[j].symbols()) by {
                if i < q2.len() && j < q2.len() {
                    assert(q2[i].symbols().disjoint(q2[j].symbols()));
                } else if i < q2.len() {
                    assert(q2[i].symbols().disjoint(m.symbols()));
                } else {
                    assert(q2[j].symbols().disjoint(m.symbols()));
                    assert forall|c: char| q3[i].symbols().contains(c) implies !q3[
                    j
                    ].symbols().contains(c) by {}
                }
            }
        }
        assert(queue_symbols(q3) =~= queue_symbols(q)) by {
            assert(forall|c: char| queue_symbols(q).contains(c) ==> queue_symbols(q3).contains(
                c,
            )) by {
                assert forall|c: char| queue_symbols(q).contains(c) implies queue_symbols(
                    q3,
                ).contains(c) by {
                    let i = choose|i: int|
                        0 <= i < q.len() && #[trigger] q[i].symbols().contains(c);
                    if i == i1 {
                        assert(q3[q2.len() as int].symbols().contains(c));
                    } else {
                        let j = if i < i1 {
                            i
                        } else {
                            i - 1
                        };
                        assert(q1[j] == q[i]);
                        if j == i2 {
                            assert(q3[q2.len() as int].symbols().contains(c));
                        } else {
                            let k = if j < i2 {
                                j
                            } else {
                                j - 1
                            };
                            assert(q3[k] == q1[j]);
                            assert(q3[k].symbols().contains(c));
                        }
                    }
                }
            }
            assert forall|c: char| queue_symbols(q3).contains(c) implies queue_symbols(
                q,
            ).contains(c) by {
                let i = choose|i: int| 0 <= i < q3.len() && #[trigger] q3[i].symbols().contains(c);
                if i == q2.len() {
                    if a.symbols().contains(c) {
                        assert(q[i1].symbols().contains(c));
                    } else {
                        let j = if i2 < i1 {
                            i2
                        } else {
                            i2 + 1
                        };
                        assert(q[j] == b);
                        assert(q[j].symbols().contains(c));
                    }
                } else {
                    let j = if i < i2 {
                        i
                    } else {
                        i + 1
                    };
                    assert(q1[j] == q2[i]);
                    let k = if j < i1 {
                        j
                    } else {
                        j + 1
                    };
                    assert(q[k] == q1[j]);
                    assert(q[k].symbols().contains(c));
                }
            }
        }
        lemma_build_tree_symbols(q3);
    }
}

/// Merging preserves well-formedness and the total count.
pub proof fn lemma_build_tree_wf(q: Seq<Node>)
    requires
        q.len() >= 1,
        total_occ(q) <= usize::MAX,
        forall|i: int| 0 <= i < q.len() ==> (#[trigger] q[i]).wf(),
    ensures
        spec_build_tree(q).wf(),
        spec_build_tree(q).occ() == total_occ(q),
    decreases q.len(),
{
    if q.len() <= 1 {
        assert(q.drop_last().len() == 0);
        assert(total_occ(q.drop_last()) == 0);
        assert(q.last() == q[0]);
    } else {
        lemma_min_occ_upto_props(q, q.len() as int);
        let i1 = min_occ_index(q);
        let a = q[i1];
        let q1 = q.remove(i1);
        q.remove_ensures(i1);
        lemma_total_occ_remove(q, i1);
        lemma_min_occ_upto_props(q1, q1.len() as int);
        let i2 = min_occ_index(q1);
        let b = q1[i2];
        let q2 = q1.remove(i2);
        q1.remove_ensures(i2);
        lemma_total_occ_remove(q1, i2);
        lemma_total_occ_nonneg(q2);
        let m = Node::Internal {
            occurences: (a.occ() + b.occ()) as usize,
            left: Box::new(a),
            right: Box::new(b),
        };
        lemma_total_occ_push(q2, m);
        let q3 = q2.push(m);
        assert(forall|i: int| 0 <= i < q2.len() ==> q3[i] == q2[i]);
        assert(q3[q2.len() as int] == m);
        lemma_build_tree_wf(q3);
        assert(spec_build_tree(q) == spec_build_tree(q3));
        assert(m.occ() == a.occ() + b.occ());
    }
}

/// The leaf node for one frequency entry.
pub open spec fn spec_leaf(entry: (char, usize)) -> Node {
    Node::Leaf { letter: entry.0, occurences: entry.1 }
}

/// One leaf per frequency entry, in entry order.
pub open spec fn spec_leaves(entries: Seq<(char, usize)>) -> Seq<Node>
    decreases entries.len(),
{
    if entries.len() == 0 {
        Seq::empty()
    } else {
        spec_leaves(entries.drop_last()).push(spec_leaf(entries.last()))
    }
}

pub proof fn lemma_spec_leaves_props(entries: Seq<(char, usize)>)
    ensures
        spec_leaves(entries).len() == entries.len(),
        forall|i: int|
            0 <= i < entries.len() ==> #[trigger] spec_leaves(entries)[i] == (Node::Leaf {
                letter: entries[i].0,
                occurences: entries[i].1,
            }),
    decreases entries.len(),
{
    if entries.len() > 0 {
        lemma_spec_leaves_props(entries.drop_last());
        let s0 = entries.drop_last();
        let node = spec_leaf(entries.last());
        assert(spec_leaves(entries) == spec_leaves(s0).push(node));
        assert forall|i: int| 0 <= i < entries.len() implies #[trigger] spec_leaves(entries)[i]
            == (Node::Leaf { letter: entries[i].0, occurences: entries[i].1 }) by {
            if i < entries.len() - 1 {
                assert(spec_leaves(s0).push(node)[i] == spec_leaves(s0)[i]);
                assert(s0[i] == entries[i]);
            } else {
                assert(spec_leaves(s0).push(node)[i] == node);
            }
        }
    }
}

pub proof fn lemma_total_occ_leaves(entries: Seq<(char, usize)>)
    ensures
        total_occ(spec_leaves(entries)) == sum_counts(entries),
    decreases entries.len(),
{
    if entries.len() > 0 {
        lemma_total_occ_leaves(entries.drop_last());
        let node = spec_leaf(entries.last());
        lemma_total_occ_push(spec_leaves(entries.drop_last()), node);
        assert(spec_leaves(entries) == spec_leaves(entries.drop_last()).push(node));
    }
}

/// Wraps each (symbol, count) entry in a leaf node and loads them into an
/// ordered queue, in entry order.
pub fn build_binary_heap(occurence_map: FrequencyTable) -> (pq: OrderedQueue)
    ensures
        pq@ == spec_leaves(occurence_map@),
{
    let mut pq = OrderedQueue::new();
    let n = occurence_map.entries.len();
    let mut i: usize = 0;
    proof {
        assert(occurence_map@.take(0).len() == 0);
        assert(pq@ =~= spec_leaves(occurence_map@.take(0)));
    }
    while i < n
        invariant
            0 <= i <= n,
            n == occurence_map@.len(),
            pq@ == spec_leaves(occurence_map@.take(i as int)),
        decreases n - i,
    {
        let e = occurence_map.entries[i];
        pq.push(Node::new(e.0, e.1));
        proof {
            assert(occurence_map@.take(i + 1).drop_last() =~= occurence_map@.take(i as int));
            assert(occurence_map@.take(i + 1).last() == occurence_map@[i as int]);
        }
        i = i + 1;
    }
    proof {
        assert(occurence_map@.take(n as int) =~= occurence_map@);
    }
    pq
}

/// Merges the two lowest-count nodes of the queue, over and over, until one
/// node remains: the root of the Huffman tree. The queue is left empty.
pub fn build_huffman_tree(binary_heap: &mut OrderedQueue) -> (root: Node)
    requires
        old(binary_heap)@.len() >= 1,
        total_occ(old(binary_heap)@) <= usize::MAX,
    ensures
        root == spec_build_tree(old(binary_heap)@),
        final(binary_heap)@.len() == 0,
{
    while binary_heap.len() > 1
        invariant
            binary_heap@.len() >= 1,
            total_occ(binary_heap@) <= usize::MAX,
            spec_build_tree(binary_heap@) == spec_build_tree(old(binary_heap)@),
        decreases binary_heap@.len(),
    {
        let ghost q0 = binary_heap@;
        proof {
            lemma_min_occ_upto_props(q0, q0.len() as int);
            lemma_total_occ_remove(q0, min_occ_index(q0));
        }
        let tmp1 = binary_heap.pop().unwrap();
        let ghost q1 = binary_heap@;
        proof {
            lemma_min_occ_upto_props(q1, q1.len() as int);
            lemma_total_occ_remove(q1, min_occ_index(q1));
            lemma_total_occ_nonneg(q1.remove(min_occ_index(q1)));
        }
        let tmp2 = binary_heap.pop().unwrap();
        let occ1 = tmp1.occurences();
        let occ2 = tmp2.occurences();
        let new_node = Node::new_node(occ1 + occ2, tmp1, tmp2);
        binary_heap.push(new_node);
        proof {
            lemma_total_occ_push(q1.remove(min_occ_index(q1)), new_node);
            assert(spec_build_tree(binary_heap@) == spec_build_tree(q0));
        }
    }
    let root = binary_heap.pop().unwrap();
    root
}

} // verus!
