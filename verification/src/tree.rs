//! The Huffman tree: a frequency-weighted binary tree built by repeatedly
//! merging the two lightest nodes of a priority queue, with a deterministic
//! tie-break so that the same input always yields the same tree.

use vstd::prelude::*;

verus! {

/// A node of the Huffman tree: a leaf carries one symbol and its occurrence
/// count; an internal node is the merge of exactly two subtrees and weighs
/// as much as both together. Nodes are never mutated after construction.
pub enum Tree {
    Leaf { weight: u32, symbol: char },
    Internal { weight: u32, left: Box<Tree>, right: Box<Tree> },
}

impl Tree {
    pub open spec fn weight(self) -> u32 {
        match self {
            Tree::Leaf { weight, .. } => weight,
            Tree::Internal { weight, .. } => weight,
        }
    }

    /// Weight consistency, recursively: every internal node weighs exactly
    /// as much as its two children together.
    pub open spec fn wf(self) -> bool
        decreases self,
    {
        match self {
            Tree::Leaf { .. } => true,
            Tree::Internal { weight, left, right } => {
                &&& weight == left.weight() + right.weight()
                &&& left.wf()
                &&& right.wf()
            },
        }
    }

    /// The leaves of the tree in depth-first, left-to-right order, each as
    /// a (symbol, weight) pair.
    pub open spec fn leaves(self) -> Seq<(char, u32)>
        decreases self,
    {
        match self {
            Tree::Leaf { weight, symbol } => seq![(symbol, weight)],
            Tree::Internal { left, right, .. } => left.leaves() + right.leaves(),
        }
    }

    pub fn get_weight(&self) -> (w: u32)
        ensures
            w == self.weight(),
    {
        match self {
            Tree::Leaf { weight, .. } => *weight,
            Tree::Internal { weight, .. } => *weight,
        }
    }
}

/// Extraction preference of the priority queue: `a` strictly precedes `b`
/// when `a` is lighter, or on equal weight when `a` is a leaf and `b` an
/// internal node, or when both are leaves and `a` carries the smaller
/// symbol. Two internal nodes of equal weight have no strict preference;
/// the queue then keeps the one inserted earlier first.
pub open spec fn prefer(a: Tree, b: Tree) -> bool {
    if a.weight() != b.weight() {
        a.weight() < b.weight()
    } else {
        match (a, b) {
            (Tree::Leaf { symbol: sa, .. }, Tree::Leaf { symbol: sb, .. }) => (sa as u32) < (
            sb as u32),
            (Tree::Leaf { .. }, Tree::Internal { .. }) => true,
            _ => false,
        }
    }
}

/// The position the queue extracts next: the earliest entry that no other
/// entry strictly precedes.
pub open spec fn min_index(q: Seq<Tree>) -> int
    recommends
        q.len() >= 1,
    decreases q.len(),
{
    if q.len() <= 1 {
        0
    } else {
        let m = min_index(q.drop_last());
        if prefer(q.last(), q[m]) {
            q.len() - 1
        } else {
            m
        }
    }
}

pub proof fn lemma_min_index_in_range(q: Seq<Tree>)
    requires
        q.len() >= 1,
    ensures
        0 <= min_index(q) < q.len(),
    decreases q.len(),
{
    if q.len() > 1 {
        lemma_min_index_in_range(q.drop_last());
    }
}

fn prefer_exec(a: &Tree, b: &Tree) -> (r: bool)
    ensures
        r == prefer(*a, *b),
{
    let wa = a.get_weight();
    let wb = b.get_weight();
    if wa != wb {
        wa < wb
    } else {
        match (a, b) {
            (Tree::Leaf { symbol: sa, .. }, Tree::Leaf { symbol: sb, .. }) => (*sa as u32) < (
            *sb as u32),
            (Tree::Leaf { .. }, Tree::Internal { .. }) => true,
            _ => false,
        }
    }
}

fn find_min(q: &Vec<Tree>) -> (i: usize)
    requires
        q@.len() >= 1,
    ensures
        i as int == min_index(q@),
{
    let mut best: usize = 0;
    let mut j: usize = 1;
    while j < q.len()
        invariant
            1 <= j <= q@.len(),
            best < j,
            best as int == min_index(q@.take(j as int)),
        decreases q@.len() - j,
    {
        proof {
            let t1 = q@.take(j as int);
            let t2 = q@.take(j as int + 1);
            assert(t2.drop_last() =~= t1);
            assert(t2.last() == q@[j as int]);
            lemma_min_index_in_range(t1);
            assert(t2[min_index(t1)] == q@[min_index(t1)]);
        }
        if prefer_exec(&q[j], &q[best]) {
            best = j;
        }
        j = j + 1;
    }
    proof {
        assert(q@.take(j as int) =~= q@);
    }
    best
}

/// The combined weight of all entries of the queue.
pub open spec fn total_weight(q: Seq<Tree>) -> int
    decreases q.len(),
{
    if q.len() == 0 {
        0
    } else {
        total_weight(q.drop_last()) + q.last().weight()
    }
}

pub proof fn lemma_total_weight_nonneg(q: Seq<Tree>)
    ensures
        total_weight(q) >= 0,
    decreases q.len(),
{
    if q.len() > 0 {
        lemma_total_weight_nonneg(q.drop_last());
    }
}

pub proof fn lemma_total_weight_remove(q: Seq<Tree>, i: int)
    requires
        0 <= i < q.len(),
    ensures
        total_weight(q.remove(i)) == total_weight(q) - q[i].weight(),
    decreases q.len(),
{
    if i == q.len() - 1 {
        assert(q.remove(i) =~= q.drop_last());
    } else {
        assert(q.remove(i).drop_last() =~= q.drop_last().remove(i));
        assert(q.remove(i).last() == q.last());
        lemma_total_weight_remove(q.drop_last(), i);
    }
}

pub proof fn lemma_total_weight_push(q: Seq<Tree>, t: Tree)
    ensures
        total_weight(q.push(t)) == total_weight(q) + t.weight(),
{
    assert(q.push(t).drop_last() =~= q);
}

/// Every entry of the queue is well formed.
pub open spec fn all_wf(q: Seq<Tree>) -> bool
    decreases q.len(),
{
    if q.len() == 0 {
        true
    } else {
        all_wf(q.drop_last()) && q.last().wf()
    }
}

pub proof fn lemma_all_wf_push(q: Seq<Tree>, t: Tree)
    ensures
        all_wf(q.push(t)) == (all_wf(q) && t.wf()),
{
    assert(q.push(t).drop_last() =~= q);
}

pub proof fn lemma_all_wf_remove(q: Seq<Tree>, i: int)
    requires
        0 <= i < q.len(),
        all_wf(q),
    ensures
        all_wf(q.remove(i)),
        q[i].wf(),
    decreases q.len(),
{
    if i == q.len() - 1 {
        assert(q.remove(i) =~= q.drop_last());
    } else {
        assert(q.remove(i).drop_last() =~= q.drop_last().remove(i));
        assert(q.remove(i).last() == q.last());
        lemma_all_wf_remove(q.drop_last(), i);
    }
}

/// The parent node that one merge step makes of two extracted nodes, the
/// first extracted becoming the left child.
pub open spec fn merge(left: Tree, right: Tree) -> Tree {
    Tree::Internal {
        weight: (left.weight() + right.weight()) as u32,
        left: Box::new(left),
        right: Box::new(right),
    }
}

/// What the merge loop makes of a queue: while more than one node remains,
/// the two first-preferred nodes are extracted, merged, and the parent is
/// pushed at the back; the survivor is the root.
pub open spec fn build_from(q: Seq<Tree>) -> Tree
    recommends
        q.len() >= 1,
    decreases q.len(),
    via build_from_decreases
{
    if q.len() <= 1 {
        q[0]
    } else {
        let i = min_index(q);
        let left = q[i];
        let q1 = q.remove(i);
        let j = min_index(q1);
        let right = q1[j];
        let q2 = q1.remove(j);
        build_from(q2.push(merge(left, right)))
    }
}

#[via_fn]
proof fn build_from_decreases(q: Seq<Tree>) {
    if q.len() > 1 {
        lemma_min_index_in_range(q);
        lemma_min_index_in_range(q.remove(min_index(q)));
    }
}

/// The leaf pairs of all entries of the queue, concatenated.
pub open spec fn queue_leaves(q: Seq<Tree>) -> Seq<(char, u32)>
    decreases q.len(),
{
    if q.len() == 0 {
        Seq::empty()
    } else {
        queue_leaves(q.drop_last()) + q.last().leaves()
    }
}

pub proof fn lemma_queue_leaves_push(q: Seq<Tree>, t: Tree)
    ensures
        queue_leaves(q.push(t)) == queue_leaves(q) + t.leaves(),
{
    assert(q.push(t).drop_last() =~= q);
}

pub proof fn lemma_queue_leaves_remove(q: Seq<Tree>, i: int)
    requires
        0 <= i < q.len(),
    ensures
        queue_leaves(q).to_multiset() == queue_leaves(q.remove(i)).to_multiset().add(
            q[i].leaves().to_multiset(),
        ),
    decreases q.len(),
{
    broadcast use vstd::multiset::group_multiset_axioms;

    let d = q.drop_last();
    let l = q.last();
    vstd::seq_lib::lemma_multiset_commutative(queue_leaves(d), l.leaves());
    assert(queue_leaves(q).to_multiset() == queue_leaves(d).to_multiset().add(
        l.leaves().to_multiset(),
    ));
    if i == q.len() - 1 {
        assert(q.remove(i) =~= d);
    } else {
        assert(q.remove(i).drop_last() =~= d.remove(i));
        assert(q.remove(i).last() == l);
        lemma_queue_leaves_remove(d, i);
        vstd::seq_lib::lemma_multiset_commutative(queue_leaves(d.remove(i)), l.leaves());
        assert(queue_leaves(q.remove(i)).to_multiset() == queue_leaves(
            d.remove(i),
        ).to_multiset().add(l.leaves().to_multiset()));
        assert(queue_leaves(q).to_multiset() =~= queue_leaves(q.remove(i)).to_multiset().add(
            q[i].leaves().to_multiset(),
        ));
    }
}

/// What one merge step leaves untouched: the combined weight, the combined
/// leaf pairs, and well-formedness of every entry. By induction the same
/// holds of the whole merge loop.
pub proof fn lemma_build_from_props(q: Seq<Tree>)
    requires
        q.len() >= 1,
        total_weight(q) <= u32::MAX,
        all_wf(q),
    ensures
        build_from(q).wf(),
        build_from(q).weight() == total_weight(q),
        build_from(q).leaves().to_multiset() == queue_leaves(q).to_multiset(),
    decreases q.len(),
{
    broadcast use vstd::multiset::group_multiset_axioms;

    reveal_with_fuel(build_from, 2);
    reveal_with_fuel(total_weight, 2);
    reveal_with_fuel(queue_leaves, 2);
    if q.len() == 1 {
        assert(q.drop_last() =~= Seq::<Tree>::empty());
        assert(q.last() == q[0]);
        assert(queue_leaves(q) == queue_leaves(Seq::<Tree>::empty()) + q[0].leaves());
        assert(queue_leaves(q) =~= q[0].leaves());
    } else {
        let i = min_index(q);
        lemma_min_index_in_range(q);
        let left = q[i];
        let q1 = q.remove(i);
        let j = min_index(q1);
        lemma_min_index_in_range(q1);
        let right = q1[j];
        let q2 = q1.remove(j);
        let m = merge(left, right);
        lemma_all_wf_remove(q, i);
        lemma_all_wf_remove(q1, j);
        lemma_total_weight_remove(q, i);
        lemma_total_weight_remove(q1, j);
        lemma_total_weight_nonneg(q2);
        lemma_total_weight_push(q2, m);
        assert(left.weight() + right.weight() <= total_weight(q));
        assert(m.wf());
        lemma_all_wf_push(q2, m);
        lemma_build_from_props(q2.push(m));
        assert(build_from(q) == build_from(q2.push(m)));
        assert(total_weight(q2.push(m)) == total_weight(q));
        lemma_queue_leaves_remove(q, i);
        lemma_queue_leaves_remove(q1, j);
        lemma_queue_leaves_push(q2, m);
        vstd::seq_lib::lemma_multiset_commutative(queue_leaves(q2), m.leaves());
        vstd::seq_lib::lemma_multiset_commutative(left.leaves(), right.leaves());
        assert(m.leaves().to_multiset() == left.leaves().to_multiset().add(
            right.leaves().to_multiset(),
        ));
        assert(queue_leaves(q2.push(m)).to_multiset() =~= queue_leaves(q).to_multiset());
    }
}

/// One leaf node per frequency entry, in table order.
pub open spec fn leaves_of(ps: Seq<(char, u32)>) -> Seq<Tree>
    decreases ps.len(),
{
    if ps.len() == 0 {
        Seq::empty()
    } else {
        leaves_of(ps.drop_last()).push(Tree::Leaf { weight: ps.last().1, symbol: ps.last().0 })
    }
}

/// A leaf node is well formed, weighs its count, and has itself as its one
/// leaf pair.
pub proof fn lemma_leaf_facts(w: u32, s: char)
    ensures
        (Tree::Leaf { weight: w, symbol: s }).wf(),
        (Tree::Leaf { weight: w, symbol: s }).leaves() == seq![(s, w)],
        (Tree::Leaf { weight: w, symbol: s }).weight() == w,
{
}

/// Builds the Huffman tree from a frequency table: one leaf per entry goes
/// into the priority queue, then the two first-preferred nodes are merged
/// until a single root remains. An empty table yields no tree.
pub fn build_tree(pairs: &Vec<(char, u32)>) -> (r: Option<Tree>)
    requires
        crate::freq::pairs_weight(pairs@) <= u32::MAX,
    ensures
        r is Some <==> pairs@.len() > 0,
        pairs@.len() > 0 ==> r == Some(build_from(leaves_of(pairs@))),
        match r {
            Some(t) => {
                &&& t.wf()
                &&& t.weight() == crate::freq::pairs_weight(pairs@)
                &&& t.leaves().to_multiset() == pairs@.to_multiset()
            },
            None => true,
        },
{
    let mut queue: Vec<Tree> = Vec::new();
    let mut k: usize = 0;
    while k < pairs.len()
        invariant
            k <= pairs@.len(),
            queue@ == leaves_of(pairs@.take(k as int)),
            queue_leaves(queue@) == pairs@.take(k as int),
            total_weight(queue@) == crate::freq::pairs_weight(pairs@.take(k as int)),
            all_wf(queue@),
        decreases pairs@.len() - k,
    {
        let p = pairs[k];
        let ghost t1 = pairs@.take(k as int);
        let ghost t2 = pairs@.take(k as int + 1);
        let ghost qb = queue@;
        proof {
            assert(t2.drop_last() =~= t1);
            assert(t2.last() == pairs@[k as int]);
        }
        let node = Tree::Leaf { weight: p.1, symbol: p.0 };
        let ghost gn: Tree = Tree::Leaf { weight: p.1, symbol: p.0 };
        proof {
            lemma_leaf_facts(p.1, p.0);
        }
        queue.push(node);
        proof {
            assert(queue@ == qb.push(gn));
            assert(leaves_of(t2) == leaves_of(t1).push(Tree::Leaf {
                weight: t2.last().1,
                symbol: t2.last().0,
            }));
            assert(queue@ =~= leaves_of(t2));
            lemma_queue_leaves_push(qb, gn);
            assert((t2.last().0, t2.last().1) == t2.last());
            assert(queue_leaves(queue@) =~= t2);
            lemma_total_weight_push(qb, gn);
            assert(crate::freq::pairs_weight(t2) == crate::freq::pairs_weight(t1) + t2.last().1);
            lemma_all_wf_push(qb, gn);
        }
        k = k + 1;
    }
    proof {
        assert(pairs@.take(k as int) =~= pairs@);
    }
    if queue.len() == 0 {
        return None;
    }
    let ghost q0 = queue@;
    proof {
        lemma_build_from_props(q0);
    }
    while queue.len() > 1
        invariant
            queue@.len() >= 1,
            total_weight(queue@) == total_weight(q0),
            total_weight(q0) <= u32::MAX,
            build_from(queue@) == build_from(q0),
        decreases queue@.len(),
    {
        let ghost qb = queue@;
        let i = find_min(&queue);
        proof {
            lemma_min_index_in_range(qb);
        }
        let left = queue.remove(i);
        let ghost q1 = queue@;
        let j = find_min(&queue);
        proof {
            lemma_min_index_in_range(q1);
        }
        let right = queue.remove(j);
        let ghost q2 = queue@;
        proof {
            lemma_total_weight_remove(qb, i as int);
            lemma_total_weight_remove(q1, j as int);
            lemma_total_weight_nonneg(q2);
            assert(left.weight() + right.weight() <= total_weight(qb));
        }
        let w = left.get_weight() + right.get_weight();
        let node = Tree::Internal { weight: w, left: Box::new(left), right: Box::new(right) };
        queue.push(node);
        proof {
            assert(node == merge(qb[i as int], q1[j as int]));
            lemma_total_weight_push(q2, node);
            assert(build_from(qb) == build_from(queue@));
        }
    }
    let root = queue.remove(0);
    proof {
        assert(build_from(q0).wf());
        assert(build_from(q0).weight() == total_weight(q0));
        assert(build_from(q0).leaves().to_multiset() == queue_leaves(q0).to_multiset());
    }
    Some(root)
}








/// Builds the Huffman tree for a text: counts each distinct character's
/// occurrences, makes one leaf per character, and merges until one root
/// remains. An empty text yields no tree; otherwise the root's weight is
/// the text's length and the leaves are exactly the distinct characters,
/// each weighted by its count.
pub fn huffman_tree_builder(text: &Vec<char>) -> (r: Option<Tree>)
    requires
        text@.len() <= u32::MAX,
    ensures
        r is Some <==> text@.len() > 0,
        text@.len() > 0 ==> r == Some(build_from(leaves_of(crate::freq::frequency_pairs(text@)))),
        match r {
            Some(t) => {
                &&& t.wf()
                &&& t.weight() == text@.len()
                &&& t.leaves().to_multiset() == crate::freq::frequency_pairs(text@).to_multiset()
            },
            None => true,
        },
{
    let pairs = crate::freq::count_frequencies(text);
    proof {
        crate::freq::lemma_pairs_weight_eq_len(text@);
        if text@.len() > 0 {
            assert(crate::freq::count_of(text@, text@.last()) > 0);
            crate::freq::lemma_distinct_contains(text@, text@.last());
            assert(crate::freq::distinct_chars(text@).len() > 0);
        }
    }
    build_tree(&pairs)
}

} // verus!

