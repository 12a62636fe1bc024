//! Huffman trees: the two lightest trees are joined until one tree is left.

use crate::vectors::first_min;
use crate::vectors::indexes_of_two_smallest;
use crate::vectors::lemma_first_min;
use std::collections::HashMap;
use vstd::prelude::*;

verus! {

/// What a node of a Huffman tree is: a symbol, or the join of two trees.
pub enum HuffmanTreeNodeStructureData {
    Leaf(usize),
    Connector { left: Box<HuffmanTreeNode>, right: Box<HuffmanTreeNode> },
}

/// A Huffman tree with the weight of all symbols in it.
pub struct HuffmanTreeNode {
    pub freq: usize,
    pub structure_data: HuffmanTreeNodeStructureData,
}

/// The leaf for the symbol and weight of `entry`.
pub open spec fn leaf_of(entry: (usize, usize)) -> HuffmanTreeNode {
    HuffmanTreeNode { freq: entry.1, structure_data: HuffmanTreeNodeStructureData::Leaf(entry.0) }
}

/// The leaves for the entries, in order.
pub open spec fn leaves_of(freqs: Seq<(usize, usize)>) -> Seq<HuffmanTreeNode> {
    Seq::new(freqs.len(), |i: int| leaf_of(freqs[i]))
}

/// The join of two trees, the first as the left part.
pub open spec fn joined(a: HuffmanTreeNode, b: HuffmanTreeNode) -> HuffmanTreeNode {
    HuffmanTreeNode {
        freq: (a.freq + b.freq) as usize,
        structure_data: HuffmanTreeNodeStructureData::Connector { left: Box::new(a), right: Box::new(b) },
    }
}

/// The weights of the trees of a pool.
pub open spec fn weights(pool: Seq<HuffmanTreeNode>) -> Seq<u64> {
    Seq::new(pool.len(), |i: int| pool[i].freq as u64)
}

/// The sum of the weights of the trees of a pool.
pub open spec fn pool_weight(pool: Seq<HuffmanTreeNode>) -> nat
    decreases pool.len(),
{
    if pool.len() == 0 {
        0
    } else {
        pool_weight(pool.drop_last()) + pool.last().freq as nat
    }
}

/// The pool after one step: the lightest tree and the lightest of the
/// others, each the first of its kind, are taken out, and their join, the
/// lightest as the left part, is put at the end.
pub open spec fn step(pool: Seq<HuffmanTreeNode>) -> Seq<HuffmanTreeNode> {
    let a = first_min(weights(pool), -1);
    let b = first_min(weights(pool), a);
    let (lo, hi) = if a < b {
        (a, b)
    } else {
        (b, a)
    };
    pool.remove(hi).remove(lo).push(joined(pool[a], pool[b]))
}

/// The tree that is left when the steps are taken as long as the pool
/// holds two trees or more.
pub open spec fn merged(pool: Seq<HuffmanTreeNode>) -> HuffmanTreeNode
    decreases pool.len(),
{
    if pool.len() >= 2 && step(pool).len() < pool.len() {
        merged(step(pool))
    } else {
        pool[0]
    }
}

/// Taking a tree out of a pool takes its weight off.
pub proof fn lemma_weight_remove(pool: Seq<HuffmanTreeNode>, i: int)
    requires
        0 <= i < pool.len(),
    ensures
        pool_weight(pool) == pool_weight(pool.remove(i)) + pool[i].freq,
    decreases pool.len(),
{
    let last = pool.len() - 1;
    if i == last {
        assert(pool.remove(i) =~= pool.drop_last());
    } else {
        lemma_weight_remove(pool.drop_last(), i);
        assert(pool.remove(i).drop_last() =~= pool.drop_last().remove(i));
        assert(pool.remove(i).last() == pool.last());
    }
}

/// The Huffman tree of the symbols with their weights: leaves for the
/// entries, joined step by step.
pub fn build_huffman_tree(freqs: &Vec<(usize, usize)>) -> (tree: HuffmanTreeNode)
    requires
        freqs@.len() >= 1,
        pool_weight(leaves_of(freqs@)) <= usize::MAX,
    ensures
        tree == merged(leaves_of(freqs@)),
        tree.freq == pool_weight(leaves_of(freqs@)),
{
    let count: usize = freqs.len();
    let mut node_pool: Vec<HuffmanTreeNode> = Vec::new();
    let mut i: usize = 0;
    while i < count
        invariant
            i <= count,
            count == freqs@.len(),
            node_pool@ == leaves_of(freqs@.take(i as int)),
        decreases count - i,
    {
        let entry = freqs[i];
        node_pool.push(
            HuffmanTreeNode { freq: entry.1, structure_data: HuffmanTreeNodeStructureData::Leaf(entry.0) },
        );
        proof {
            assert(node_pool@ =~= leaves_of(freqs@.take(i + 1)));
        }
        i += 1;
    }
    proof {
        assert(freqs@.take(count as int) =~= freqs@);
    }
    let ghost total = pool_weight(leaves_of(freqs@));
    while node_pool.len() > 1
        invariant
            node_pool@.len() >= 1,
            merged(node_pool@) == merged(leaves_of(freqs@)),
            pool_weight(node_pool@) == total,
            total <= usize::MAX,
        decreases node_pool@.len(),
    {
        let ghost pool = node_pool@;
        let size: usize = node_pool.len();
        let mut keys: Vec<u64> = Vec::new();
        let mut k: usize = 0;
        while k < size
            invariant
                k <= size,
                size == node_pool@.len(),
                node_pool@ == pool,
                keys@ == weights(pool.take(k as int)),
            decreases size - k,
        {
            keys.push(node_pool[k].freq as u64);
            proof {
                assert(keys@ =~= weights(pool.take(k + 1)));
            }
            k += 1;
        }
        proof {
            assert(pool.take(size as int) =~= pool);
            lemma_first_min(weights(pool), -1);
            lemma_first_min(weights(pool), first_min(weights(pool), -1));
        }
        let found = indexes_of_two_smallest(keys.as_slice());
        let a: usize = found.0.unwrap();
        let b: usize = found.1.unwrap();
        let (lo, hi) = if a < b {
            (a, b)
        } else {
            (b, a)
        };
        proof {
            lemma_weight_remove(pool, hi as int);
            lemma_weight_remove(pool.remove(hi as int), lo as int);
            assert(pool.remove(hi as int)[lo as int] == pool[lo as int]);
        }
        let upper = node_pool.remove(hi);
        let lower = node_pool.remove(lo);
        let (smallest, second_smallest) = if a < b {
            (lower, upper)
        } else {
            (upper, lower)
        };
        let ghost rest = node_pool@;
        let freq: usize = smallest.freq + second_smallest.freq;
        node_pool.push(
            HuffmanTreeNode {
                freq,
                structure_data: HuffmanTreeNodeStructureData::Connector {
                    left: Box::new(smallest),
                    right: Box::new(second_smallest),
                },
            },
        );
        proof {
            assert(node_pool@ =~= step(pool));
            assert(node_pool@.drop_last() =~= rest);
        }
    }
    proof {
        assert(node_pool@.drop_last().len() == 0);
        assert(pool_weight(node_pool@.drop_last()) == 0);
    }
    let tree = node_pool.remove(0);
    tree
}

/// How often `c` stands in `text`.
pub open spec fn occurrences(text: Seq<usize>, c: usize) -> nat
    decreases text.len(),
{
    if text.len() == 0 {
        0
    } else {
        occurrences(text.drop_last(), c) + if text.last() == c {
            1nat
        } else {
            0nat
        }
    }
}

/// A symbol occurs as often as the text is long at most, and at least once
/// exactly where it stands in the text.
pub proof fn lemma_occurrences(text: Seq<usize>, c: usize)
    ensures
        occurrences(text, c) <= text.len(),
        occurrences(text, c) > 0 <==> text.contains(c),
    decreases text.len(),
{
    if text.len() > 0 {
        let front = text.drop_last();
        lemma_occurrences(front, c);
        if front.contains(c) {
            let i = front.index_of(c);
            assert(text[i] == c);
        }
        if text.contains(c) && text.last() != c {
            let i = text.index_of(c);
            assert(front[i] == c);
        }
        if text.last() == c {
            assert(text[text.len() - 1] == c);
        }
    }
}

/// Counts how often each symbol stands in the text.
pub fn count_symbol_freqs(text: &[usize]) -> (res: HashMap<usize, usize>)
    ensures
        forall|c: usize| #[trigger] res@.contains_key(c) <==> text@.contains(c),
        forall|c: usize| #[trigger] res@.contains_key(c) ==> res@[c] == occurrences(text@, c),
{
    broadcast use vstd::std_specs::hash::group_hash_axioms;

    let mut res: HashMap<usize, usize> = HashMap::new();
    let size: usize = text.len();
    let mut i: usize = 0;
    while i < size
        invariant
            i <= size,
            size == text@.len(),
            forall|c: usize| #[trigger] res@.contains_key(c) <==> occurrences(text@.take(i as int), c) > 0,
            forall|c: usize| #[trigger] res@.contains_key(c) ==> res@[c] == occurrences(text@.take(i as int), c),
        decreases size - i,
    {
        let c: usize = text[i];
        let ghost before = res@;
        let ghost seen = text@.take(i as int);
        proof {
            assert(text@.take(i + 1).drop_last() =~= seen);
            lemma_occurrences(seen, c);
        }
        let so_far: usize = match res.get(&c) {
            Some(count) => *count,
            None => 0,
        };
        res.insert(c, so_far + 1);
        proof {
            assert forall|d: usize| #[trigger] res@.contains_key(d) <==> occurrences(text@.take(i + 1), d) > 0 by {
                if d != c {
                    assert(res@.contains_key(d) == before.contains_key(d));
                }
            }
            assert forall|d: usize| #[trigger] res@.contains_key(d) implies res@[d] == occurrences(
                text@.take(i + 1),
                d,
            ) by {
                if d != c {
                    assert(before.contains_key(d));
                    assert(res@[d] == before[d]);
                }
            }
        }
        i += 1;
    }
    proof {
        assert(text@.take(size as int) =~= text@);
        assert forall|c: usize| #[trigger] res@.contains_key(c) <==> text@.contains(c) by {
            lemma_occurrences(text@, c);
        }
    }
    res
}

/// The codes as lists: what the code words of a map hold.
pub open spec fn code_lists(codes: Map<usize, Vec<bool>>) -> Map<usize, Seq<bool>> {
    Map::new(|k: usize| codes.contains_key(k), |k: usize| codes[k]@)
}

/// The codes of the symbols of a tree, added to the codes `acc`: the code
/// of a symbol is `prefix` and then the way from the root to its leaf,
/// `false` for left and `true` for right. The left part is taken first.
pub open spec fn codes_of(tree: HuffmanTreeNode, prefix: Seq<bool>, acc: Map<usize, Seq<bool>>) -> Map<
    usize,
    Seq<bool>,
>
    decreases tree,
{
    match tree.structure_data {
        HuffmanTreeNodeStructureData::Leaf(value) => acc.insert(value, prefix),
        HuffmanTreeNodeStructureData::Connector { left, right } => codes_of(
            *right,
            prefix.push(true),
            codes_of(*left, prefix.push(false), acc),
        ),
    }
}

/// Adds the codes of the symbols of `tree` under `code_prefix` to `to`.
pub fn dump_tree_impl(tree: &HuffmanTreeNode, to: &mut HashMap<usize, Vec<bool>>, code_prefix: &mut Vec<bool>)
    ensures
        code_lists(final(to)@) == codes_of(*tree, old(code_prefix)@, code_lists(old(to)@)),
        final(code_prefix)@ == old(code_prefix)@,
    decreases tree,
{
    broadcast use vstd::std_specs::hash::group_hash_axioms;

    match &tree.structure_data {
        HuffmanTreeNodeStructureData::Leaf(value) => {
            let code = code_prefix.clone();
            to.insert(*value, code);
            proof {
                assert(code_lists(to@) =~= code_lists(old(to)@).insert(*value, old(code_prefix)@));
            }
        },
        HuffmanTreeNodeStructureData::Connector { left, right } => {
            code_prefix.push(false);
            dump_tree_impl(left, to, code_prefix);
            let last: usize = code_prefix.len() - 1;
            code_prefix[last] = true;
            proof {
                assert(code_prefix@ =~= old(code_prefix)@.push(true));
            }
            dump_tree_impl(right, to, code_prefix);
            code_prefix.pop();
            proof {
                assert(code_prefix@ =~= old(code_prefix)@);
            }
        },
    }
}

/// The codes of the symbols of `tree`.
pub fn dump_tree(tree: &HuffmanTreeNode) -> (coding: HashMap<usize, Vec<bool>>)
    ensures
        code_lists(coding@) == codes_of(*tree, Seq::empty(), Map::empty()),
{
    broadcast use vstd::std_specs::hash::group_hash_axioms;

    let mut coding: HashMap<usize, Vec<bool>> = HashMap::new();
    let mut code_prefix: Vec<bool> = Vec::new();
    proof {
        assert(code_lists(coding@) =~= Map::<usize, Seq<bool>>::empty());
    }
    dump_tree_impl(tree, &mut coding, &mut code_prefix);
    coding
}

} // verus!
