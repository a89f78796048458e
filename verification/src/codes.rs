//! Code table generation: walking the Huffman tree depth first and
//! assigning each leaf symbol the bit sequence of its root-to-leaf path,
//! false ('0') for a left branch and true ('1') for a right branch.

use vstd::prelude::*;
use crate::tree::Tree;

verus! {

/// The code table of a tree under a prefix: one (symbol, code) entry per
/// leaf in depth-first left-to-right order, each code being the prefix
/// extended by the branch choices down to that leaf.
pub open spec fn code_entries(t: Tree, prefix: Seq<bool>) -> Seq<(char, Seq<bool>)>
    decreases t,
{
    match t {
        Tree::Leaf { symbol, .. } => seq![(symbol, prefix)],
        Tree::Internal { left, right, .. } => code_entries(*left, prefix.push(false))
            + code_entries(*right, prefix.push(true)),
    }
}

/// The mathematical contents of an executable code table: each entry's
/// code vector seen as a bit sequence.
pub open spec fn table_view(s: Seq<(char, Vec<bool>)>) -> Seq<(char, Seq<bool>)>
    decreases s.len(),
{
    if s.len() == 0 {
        Seq::empty()
    } else {
        table_view(s.drop_last()).push((s.last().0, s.last().1@))
    }
}

pub proof fn lemma_table_view_push(s: Seq<(char, Vec<bool>)>, p: (char, Vec<bool>))
    ensures
        table_view(s.push(p)) == table_view(s).push((p.0, p.1@)),
{
    assert(s.push(p).drop_last() =~= s);
}

/// Copies a bit vector.
fn copy_bits(bits: &Vec<bool>) -> (out: Vec<bool>)
    ensures
        out@ == bits@,
{
    let mut out: Vec<bool> = Vec::new();
    let mut i: usize = 0;
    while i < bits.len()
        invariant
            i <= bits@.len(),
            out@ == bits@.take(i as int),
        decreases bits@.len() - i,
    {
        out.push(bits[i]);
        proof {
            assert(bits@.take(i as int + 1) =~= bits@.take(i as int).push(bits@[i as int]));
        }
        i = i + 1;
    }
    proof {
        assert(bits@.take(i as int) =~= bits@);
    }
    out
}

/// Appends to the table one entry per leaf below `t`, in depth-first
/// order, each code being the current prefix extended by the path to that
/// leaf. The prefix is restored before returning.
fn walk(t: &Tree, prefix: &mut Vec<bool>, table: &mut Vec<(char, Vec<bool>)>)
    ensures
        final(prefix)@ == old(prefix)@,
        table_view(final(table)@) == table_view(old(table)@) + code_entries(*t, old(prefix)@),
    decreases *t,
{
    match t {
        Tree::Leaf { symbol, .. } => {
            let code = copy_bits(prefix);
            let ghost tb = table@;
            table.push((*symbol, code));
            proof {
                lemma_table_view_push(tb, (*symbol, code));
                assert(table_view(table@) =~= table_view(tb) + code_entries(*t, prefix@));
            }
        },
        Tree::Internal { left, right, .. } => {
            let ghost p0 = prefix@;
            let ghost t0 = table@;
            prefix.push(false);
            walk(&**left, prefix, table);
            let _ = prefix.pop();
            proof {
                assert(p0.push(false).drop_last() =~= p0);
                assert(prefix@ == p0);
            }
            prefix.push(true);
            walk(&**right, prefix, table);
            let _ = prefix.pop();
            proof {
                assert(p0.push(true).drop_last() =~= p0);
                assert(prefix@ == p0);
                assert((table_view(t0) + code_entries(**left, p0.push(false))) + code_entries(
                    **right,
                    p0.push(true),
                ) =~= table_view(t0) + (code_entries(**left, p0.push(false)) + code_entries(
                    **right,
                    p0.push(true),
                )));
            }
        },
    }
}

/// Generates the code table of a tree: every leaf symbol mapped to the bit
/// sequence of its root-to-leaf path. A tree that is a single leaf yields
/// the empty code for its symbol.
pub fn generate_binary_table(root: &Tree) -> (table: Vec<(char, Vec<bool>)>)
    ensures
        table_view(table@) == code_entries(*root, Seq::empty()),
{
    let mut prefix: Vec<bool> = Vec::new();
    let mut table: Vec<(char, Vec<bool>)> = Vec::new();
    walk(root, &mut prefix, &mut table);
    proof {
        assert(table_view(Seq::<(char, Vec<bool>)>::empty()) + code_entries(*root, Seq::empty())
            =~= code_entries(*root, Seq::empty()));
    }
    table
}

/// One bit sequence is a prefix of another.
pub open spec fn is_prefix(a: Seq<bool>, b: Seq<bool>) -> bool {
    a.len() <= b.len() && a == b.take(a.len() as int)
}

/// Every code in the table of `t` under `prefix` extends that prefix, and
/// strictly so under an internal node.
pub proof fn lemma_code_extends(t: Tree, prefix: Seq<bool>, i: int)
    requires
        0 <= i < code_entries(t, prefix).len(),
    ensures
        is_prefix(prefix, code_entries(t, prefix)[i].1),
        t is Internal ==> code_entries(t, prefix)[i].1.len() > prefix.len(),
        t is Internal ==> prefix.push(code_entries(t, prefix)[i].1[prefix.len() as int])
            == code_entries(t, prefix)[i].1.take(prefix.len() as int + 1),
    decreases t,
{
    match t {
        Tree::Leaf { .. } => {
            assert(code_entries(t, prefix)[i].1 == prefix);
            assert(prefix.take(prefix.len() as int) =~= prefix);
        },
        Tree::Internal { left, right, .. } => {
            let el = code_entries(*left, prefix.push(false));
            let er = code_entries(*right, prefix.push(true));
            if i < el.len() {
                lemma_code_extends(*left, prefix.push(false), i);
                let c = code_entries(t, prefix)[i].1;
                assert(code_entries(t, prefix)[i] == el[i]);
                assert(prefix.push(false) == c.take(prefix.len() as int + 1));
                assert(c.take(prefix.len() as int) =~= prefix);
                assert(c.take(prefix.len() as int + 1)[prefix.len() as int] == c[prefix.len() as int]);
                assert(c[prefix.len() as int] == false);
            } else {
                lemma_code_extends(*right, prefix.push(true), i - el.len());
                let c = code_entries(t, prefix)[i].1;
                assert(code_entries(t, prefix)[i] == er[i - el.len()]);
                assert(prefix.push(true) == c.take(prefix.len() as int + 1));
                assert(c.take(prefix.len() as int) =~= prefix);
                assert(c.take(prefix.len() as int + 1)[prefix.len() as int] == c[prefix.len() as int]);
                assert(c[prefix.len() as int] == true);
            }
        },
    }
}

/// Prefix-freedom of the code table: the codes of any two distinct entries
/// are such that neither is a prefix of the other. Each leaf contributes
/// exactly one entry, so this covers every pair of distinct symbols. It
/// holds structurally: two root-to-leaf paths in a binary tree whose
/// internal nodes all have two children must diverge at some branch.
pub proof fn lemma_prefix_free(t: Tree, prefix: Seq<bool>, i: int, j: int)
    requires
        0 <= i < code_entries(t, prefix).len(),
        0 <= j < code_entries(t, prefix).len(),
        i != j,
    ensures
        !is_prefix(code_entries(t, prefix)[i].1, code_entries(t, prefix)[j].1),
    decreases t,
{
    match t {
        Tree::Leaf { .. } => {
            assert(i == 0 && j == 0);
        },
        Tree::Internal { left, right, .. } => {
            let el = code_entries(*left, prefix.push(false));
            let er = code_entries(*right, prefix.push(true));
            if i < el.len() && j < el.len() {
                assert(code_entries(t, prefix)[i] == el[i]);
                assert(code_entries(t, prefix)[j] == el[j]);
                lemma_prefix_free(*left, prefix.push(false), i, j);
            } else if i >= el.len() && j >= el.len() {
                assert(code_entries(t, prefix)[i] == er[i - el.len()]);
                assert(code_entries(t, prefix)[j] == er[j - el.len()]);
                lemma_prefix_free(*right, prefix.push(true), i - el.len(), j - el.len());
            } else {
                let li = if i < el.len() {
                    i
                } else {
                    j
                };
                let rj = if i < el.len() {
                    j
                } else {
                    i
                };
                lemma_code_extends(*left, prefix.push(false), li);
                lemma_code_extends(*right, prefix.push(true), rj - el.len());
                let ca = code_entries(t, prefix)[li].1;
                let cb = code_entries(t, prefix)[rj].1;
                assert(code_entries(t, prefix)[li] == el[li]);
                assert(code_entries(t, prefix)[rj] == er[rj - el.len()]);
                assert(ca.take(prefix.len() as int + 1) == prefix.push(false));
                assert(cb.take(prefix.len() as int + 1) == prefix.push(true));
                assert(ca[prefix.len() as int] == false) by {
                    assert(ca.take(prefix.len() as int + 1)[prefix.len() as int] == ca[prefix.len() as int]);
                }
                assert(cb[prefix.len() as int] == true) by {
                    assert(cb.take(prefix.len() as int + 1)[prefix.len() as int] == cb[prefix.len() as int]);
                }
                if is_prefix(ca, cb) {
                    assert(ca[prefix.len() as int] == cb.take(ca.len() as int)[prefix.len() as int]);
                    assert(false);
                }
                if is_prefix(cb, ca) {
                    assert(cb[prefix.len() as int] == ca.take(cb.len() as int)[prefix.len() as int]);
                    assert(false);
                }
            }
        },
    }
}

/// The code of a symbol in a table: the code of its last entry, if any.
/// In a table generated from a tree the leaf symbols are distinct, so the
/// choice of occurrence does not matter.
pub open spec fn lookup(entries: Seq<(char, Seq<bool>)>, c: char) -> Option<Seq<bool>>
    decreases entries.len(),
{
    if entries.len() == 0 {
        None
    } else if entries.last().0 == c {
        Some(entries.last().1)
    } else {
        lookup(entries.drop_last(), c)
    }
}

pub proof fn lemma_lookup_append(a: Seq<(char, Seq<bool>)>, b: Seq<(char, Seq<bool>)>, c: char)
    ensures
        lookup(a + b, c) == (if lookup(b, c) is Some {
            lookup(b, c)
        } else {
            lookup(a, c)
        }),
    decreases b.len(),
{
    if b.len() == 0 {
        assert(a + b =~= a);
    } else {
        assert((a + b).drop_last() =~= a + b.drop_last());
        assert((a + b).last() == b.last());
        lemma_lookup_append(a, b.drop_last(), c);
    }
}

/// A symbol that labels some leaf of the tree is found in the tree's code
/// table.
pub proof fn lemma_lookup_some(t: Tree, prefix: Seq<bool>, c: char, i: int)
    requires
        0 <= i < t.leaves().len(),
        t.leaves()[i].0 == c,
    ensures
        lookup(code_entries(t, prefix), c) is Some,
    decreases t,
{
    match t {
        Tree::Leaf { symbol, .. } => {
            assert(t.leaves()[i] == (symbol, t.weight()));
            assert(code_entries(t, prefix).last() == (symbol, prefix));
        },
        Tree::Internal { left, right, .. } => {
            let el = code_entries(*left, prefix.push(false));
            let er = code_entries(*right, prefix.push(true));
            lemma_lookup_append(el, er, c);
            if i < left.leaves().len() {
                assert(t.leaves()[i] == left.leaves()[i]);
                lemma_lookup_some(*left, prefix.push(false), c, i);
            } else {
                assert(t.leaves()[i] == right.leaves()[i - left.leaves().len()]);
                lemma_lookup_some(*right, prefix.push(true), c, i - left.leaves().len());
            }
        },
    }
}

pub proof fn lemma_table_view_take_step(s: Seq<(char, Vec<bool>)>, k: int)
    requires
        1 <= k <= s.len(),
    ensures
        table_view(s.take(k)) == table_view(s.take(k - 1)).push((s[k - 1].0, s[k - 1].1@)),
{
    assert(s.take(k).drop_last() =~= s.take(k - 1));
    assert(s.take(k).last() == s[k - 1]);
}

/// Finds the code of a symbol in the table, scanning from the back as the
/// table's mathematical lookup does.
pub fn lookup_code(table: &Vec<(char, Vec<bool>)>, c: char) -> (r: Option<Vec<bool>>)
    ensures
        match r {
            Some(v) => lookup(table_view(table@), c) == Some(v@),
            None => lookup(table_view(table@), c) is None,
        },
{
    let mut j: usize = table.len();
    proof {
        assert(table@.take(j as int) =~= table@);
    }
    while j > 0
        invariant
            j <= table@.len(),
            lookup(table_view(table@), c) == lookup(table_view(table@.take(j as int)), c),
        decreases j,
    {
        let ghost j0 = j as int;
        proof {
            lemma_table_view_take_step(table@, j0);
            assert(table_view(table@.take(j0)).drop_last() =~= table_view(table@.take(j0 - 1)));
            assert(table_view(table@.take(j0)).last() == (table@[j0 - 1].0, table@[j0 - 1].1@));
        }
        j = j - 1;
        if table[j].0 == c {
            let found = copy_bits(&table[j].1);
            proof {
                assert(lookup(table_view(table@.take(j0)), c) == Some(table@[j0 - 1].1@));
            }
            return Some(found);
        }
    }
    proof {
        assert(table@.take(0) =~= Seq::<(char, Vec<bool>)>::empty());
    }
    None
}

} // verus!
