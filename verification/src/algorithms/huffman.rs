//! The Huffman coder.
//!
//! Every byte that occurs starts as a tree of its own. The two trees that are
//! least by weight, then by byte, then by age are merged, the lesser one to
//! the left, until one tree is left. The codeword of a byte is the path to
//! its leaf: 0 for a step to the left, 1 for a step to the right.

use std::collections::HashMap;
use min_max_heap::MinMaxHeap;
use vstd::multiset::Multiset;
use vstd::prelude::*;
use crate::algorithms::{create_quantity_map, present};
use crate::algorithms::heap::{heap_items, heap_len, heap_new, heap_pop_min, heap_push, item_le};
use crate::bits::{copy_slice, is_bits};
use crate::code_table::{prefix_free, table_view};
use crate::types::{FileStats, Node, Quantity};

verus! {

/// The trees that the coder has made, each at its number. A tree that was
/// merged into another has left its place.
pub type Forest = Seq<Option<Node<Quantity>>>;

/// The tree is a single leaf.
pub open spec fn is_leaf(t: Node<Quantity>) -> bool {
    t.left is None && t.right is None
}

/// The codewords that the tree `t` gives, where `path` leads to its root.
pub open spec fn tree_codes(t: Node<Quantity>, path: Seq<u8>) -> Map<u8, Seq<u8>>
    decreases t,
{
    if is_leaf(t) {
        Map::<u8, Seq<u8>>::empty().insert(t.val.byte, path)
    } else {
        let left = match t.left {
            Some(sub) => tree_codes(*sub, path.push(0)),
            None => Map::empty(),
        };
        let right = match t.right {
            Some(sub) => tree_codes(*sub, path.push(1)),
            None => Map::empty(),
        };
        left.union_prefer_right(right)
    }
}

/// The codewords that the last tree gives. A tree that is a single leaf gives
/// its byte the codeword of one zero bit.
pub open spec fn root_codes(root: Node<Quantity>) -> Map<u8, Seq<u8>> {
    if is_leaf(root) {
        Map::<u8, Seq<u8>>::empty().insert(root.val.byte, seq![0u8])
    } else {
        tree_codes(root, Seq::empty())
    }
}

/// The tree at number `i` is still there.
pub open spec fn live(forest: Forest, i: int) -> bool {
    0 <= i < forest.len() && forest[i] is Some
}

/// What the tree at number `i` is ordered by.
pub open spec fn key_of(forest: Forest, i: int) -> (u128, u8, usize) {
    (forest[i]->0.val.quantity, forest[i]->0.val.byte, i as usize)
}

/// The tree at number `i` is there and none that is there is below it.
pub open spec fn is_min(forest: Forest, i: int) -> bool {
    live(forest, i) && forall|j: int| live(forest, j) ==> item_le(key_of(forest, i), key_of(forest, j))
}

/// The number of the least tree.
pub open spec fn min_slot(forest: Forest) -> int {
    choose|i: int| is_min(forest, i)
}

/// The tree that joins `left` and `right`.
pub open spec fn merged(left: Node<Quantity>, right: Node<Quantity>) -> Node<Quantity> {
    Node {
        val: Quantity { byte: 0, quantity: (left.val.quantity + right.val.quantity) as u128 },
        left: Some(Box::new(left)),
        right: Some(Box::new(right)),
    }
}

/// The forest after the trees at `a` and `b` have been merged.
pub open spec fn merge_at(forest: Forest, a: int, b: int) -> Forest {
    forest.update(a, None).update(b, None).push(Some(merged(forest[a]->0, forest[b]->0)))
}

/// The forest after its two least trees have been merged.
pub open spec fn merge_step(forest: Forest) -> Forest {
    let a = min_slot(forest);
    let b = min_slot(forest.update(a, None));
    merge_at(forest, a, b)
}

/// The forest after `steps` merges.
pub open spec fn merge_all(forest: Forest, steps: nat) -> Forest
    decreases steps,
{
    if steps == 0 {
        forest
    } else {
        merge_all(merge_step(forest), (steps - 1) as nat)
    }
}

/// The tree of a single byte.
pub open spec fn leaf(byte: u8, count: u64) -> Node<Quantity> {
    Node { val: Quantity { byte, quantity: count as u128 }, left: None, right: None }
}

/// The leaves of the bytes below `i` that occur, in the order of the bytes.
pub open spec fn leaves_upto(counts: Seq<u64>, i: nat) -> Forest
    decreases i,
{
    if i == 0 {
        Seq::empty()
    } else {
        let before = leaves_upto(counts, (i - 1) as nat);
        if counts[i - 1] != 0 {
            before.push(Some(leaf((i - 1) as u8, counts[i - 1])))
        } else {
            before
        }
    }
}

/// The last tree of a forest that holds `trees` trees.
pub open spec fn last_tree(forest: Forest, trees: nat) -> Node<Quantity> {
    let merged = merge_all(forest, (trees - 1) as nat);
    merged[min_slot(merged)]->0
}

/// The Huffman tree of the bytes that `counts` counts.
pub open spec fn huffman_root(counts: Seq<u64>) -> Node<Quantity> {
    let start = leaves_upto(counts, 256);
    last_tree(start, start.len())
}

/// The Huffman code of the bytes that `counts` counts.
pub open spec fn huffman_codes(counts: Seq<u64>) -> Map<u8, Seq<u8>> {
    root_codes(huffman_root(counts))
}

/// The weights of the trees that are there, summed up.
pub open spec fn live_weight(forest: Forest) -> nat
    decreases forest.len(),
{
    if forest.len() == 0 {
        0
    } else {
        live_weight(forest.drop_last()) + match forest.last() {
            Some(t) => t.val.quantity as nat,
            None => 0,
        }
    }
}

/// The queue holds one item for each tree that is there, and nothing else.
pub open spec fn heap_matches(forest: Forest, items: Multiset<(u128, u8, usize)>) -> bool {
    forall|item: (u128, u8, usize)|
        #[trigger] items.count(item) == (if live(forest, item.2 as int) && key_of(
            forest,
            item.2 as int,
        ) == item {
            1nat
        } else {
            0nat
        })
}

/// The weights of all trees together: no more than what 256 counts can reach.
pub open spec fn max_weight() -> nat {
    256 * (u64::MAX as nat)
}

/// A tree that leaves takes its weight with it.
pub proof fn lemma_live_weight_remove(forest: Forest, i: int)
    requires
        live(forest, i),
    ensures
        live_weight(forest.update(i, None)) + forest[i]->0.val.quantity == live_weight(forest),
    decreases forest.len(),
{
    let after = forest.update(i, None);
    if i == forest.len() - 1 {
        assert(after.drop_last() =~= forest.drop_last());
    } else {
        assert(after.drop_last() =~= forest.drop_last().update(i, None));
        lemma_live_weight_remove(forest.drop_last(), i);
    }
}

/// A tree that comes brings its weight.
pub proof fn lemma_live_weight_push(forest: Forest, t: Node<Quantity>)
    ensures
        live_weight(forest.push(Some(t))) == live_weight(forest) + t.val.quantity,
{
    assert(forest.push(Some(t)).drop_last() =~= forest);
}

/// Two trees of one forest are not both least.
pub proof fn lemma_min_unique(forest: Forest, i: int, j: int)
    requires
        forest.len() <= usize::MAX,
        is_min(forest, i),
        is_min(forest, j),
    ensures
        i == j,
{
}

/// The item that leaves the queue stands for the least tree.
pub proof fn lemma_popped_is_min(
    forest: Forest,
    items: Multiset<(u128, u8, usize)>,
    item: (u128, u8, usize),
)
    requires
        forest.len() <= usize::MAX,
        heap_matches(forest, items),
        items.contains(item),
        forall|other: (u128, u8, usize)| items.contains(other) ==> item_le(item, other),
    ensures
        is_min(forest, item.2 as int),
        min_slot(forest) == item.2,
        key_of(forest, item.2 as int) == item,
{
    let i = item.2 as int;
    assert(items.count(item) > 0);
    assert forall|j: int| live(forest, j) implies item_le(key_of(forest, i), key_of(forest, j)) by {
        let other = key_of(forest, j);
        assert(other.2 as int == j);
        assert(items.count(other) == 1);
    }
    assert(is_min(forest, i));
    lemma_min_unique(forest, i, min_slot(forest));
}

/// After the least tree has left, queue and forest still match.
pub proof fn lemma_matches_after_pop(
    forest: Forest,
    items: Multiset<(u128, u8, usize)>,
    item: (u128, u8, usize),
)
    requires
        heap_matches(forest, items),
        items.contains(item),
    ensures
        heap_matches(forest.update(item.2 as int, None), items.remove(item)),
        items.remove(item).len() == items.len() - 1,
{
    broadcast use vstd::multiset::group_multiset_axioms;

    let after = forest.update(item.2 as int, None);
    let rest = items.remove(item);
    assert(items.count(item) > 0);
    assert forall|other: (u128, u8, usize)|
        #[trigger] rest.count(other) == (if live(after, other.2 as int) && key_of(
            after,
            other.2 as int,
        ) == other {
            1nat
        } else {
            0nat
        }) by {
        assert(items.count(other) == (if live(forest, other.2 as int) && key_of(
            forest,
            other.2 as int,
        ) == other {
            1nat
        } else {
            0nat
        }));
    }
    assert(Multiset::singleton(item).subset_of(items)) by {
        assert forall|v: (u128, u8, usize)|
            Multiset::singleton(item).count(v) <= #[trigger] items.count(v) by {
            if v != item {
                vstd::multiset::axiom_multiset_singleton_different(item, v);
            }
        }
    }
}

/// After a new tree has come, queue and forest still match.
pub proof fn lemma_matches_after_push(
    forest: Forest,
    items: Multiset<(u128, u8, usize)>,
    t: Node<Quantity>,
)
    requires
        forest.len() < usize::MAX,
        heap_matches(forest, items),
    ensures
        heap_matches(
            forest.push(Some(t)),
            items.insert((t.val.quantity, t.val.byte, forest.len() as usize)),
        ),
        items.insert((t.val.quantity, t.val.byte, forest.len() as usize)).len() == items.len() + 1,
{
    broadcast use vstd::multiset::group_multiset_axioms;
    broadcast use vstd::multiset::group_multiset_properties;

    let item = (t.val.quantity, t.val.byte, forest.len() as usize);
    let after = forest.push(Some(t));
    let more = items.insert(item);
    assert(items.count(item) == 0);
    assert forall|other: (u128, u8, usize)|
        #[trigger] more.count(other) == (if live(after, other.2 as int) && key_of(
            after,
            other.2 as int,
        ) == other {
            1nat
        } else {
            0nat
        }) by {
        assert(items.count(other) == (if live(forest, other.2 as int) && key_of(
            forest,
            other.2 as int,
        ) == other {
            1nat
        } else {
            0nat
        }));
        if other != item && live(forest, other.2 as int) {
            assert(after[other.2 as int] == forest[other.2 as int]);
        }
    }
}

/// Records the codeword of every leaf of `root` in `codes_map`, where
/// `codes_array` holds the path to `root`. The last step of that path is
/// taken off at the end.
pub fn walk_tree_with_action(
    root: &Node<Quantity>,
    codes_array: &mut Vec<u8>,
    codes_map: &mut HashMap<u8, Vec<u8>>,
)
    ensures
        final(codes_array)@ == (if old(codes_array)@.len() > 0 {
            old(codes_array)@.drop_last()
        } else {
            old(codes_array)@
        }),
        table_view(final(codes_map)@) == table_view(old(codes_map)@).union_prefer_right(
            tree_codes(*root, old(codes_array)@),
        ),
    decreases root,
{
    broadcast use vstd::std_specs::hash::group_hash_axioms;

    let ghost path = codes_array@;
    let ghost before = table_view(codes_map@);
    if root.left.is_none() && root.right.is_none() {
        codes_map.insert(root.val.byte, copy_slice(codes_array.as_slice()));
        proof {
            assert(table_view(codes_map@) =~= before.union_prefer_right(tree_codes(*root, path)));
        }
        codes_array.pop();
        return ;
    }
    match &root.left {
        Some(left_subtree) => {
            codes_array.push(0);
            walk_tree_with_action(&**left_subtree, codes_array, codes_map);
            proof {
                assert(path.push(0).drop_last() =~= path);
            }
        },
        None => {},
    }
    let ghost middle = table_view(codes_map@);
    match &root.right {
        Some(right_subtree) => {
            codes_array.push(1);
            walk_tree_with_action(&**right_subtree, codes_array, codes_map);
            proof {
                assert(path.push(1).drop_last() =~= path);
            }
        },
        None => {},
    }
    proof {
        assert(table_view(codes_map@) =~= before.union_prefer_right(tree_codes(*root, path)));
    }
    codes_array.pop();
}

/// Takes the tree at number `i` out of the forest.
fn take_tree(slots: &mut Vec<Option<Node<Quantity>>>, i: usize) -> (tree: Node<Quantity>)
    requires
        live(old(slots)@, i as int),
    ensures
        tree == old(slots)@[i as int]->0,
        final(slots)@ == old(slots)@.update(i as int, None),
{
    slots.push(None);
    let taken = slots.swap_remove(i);
    proof {
        assert(slots@ =~= old(slots)@.update(i as int, None));
    }
    taken.unwrap()
}

/// Merges the trees of `slots`, which `min_heap` orders, into one, and reads
/// the code off it.
pub(crate) fn enc(
    min_heap: MinMaxHeap<(u128, u8, usize)>,
    slots: Vec<Option<Node<Quantity>>>,
) -> (codes: HashMap<u8, Vec<u8>>)
    requires
        heap_matches(slots@, heap_items(min_heap)),
        heap_items(min_heap).len() >= 1,
        live_weight(slots@) <= max_weight(),
        slots.len() + heap_items(min_heap).len() <= usize::MAX,
    ensures
        table_view(codes@) == root_codes(last_tree(slots@, heap_items(min_heap).len())),
{
    broadcast use vstd::std_specs::hash::group_hash_axioms;

    let mut min_heap = min_heap;
    let mut slots = slots;
    let ghost start = slots@;
    let ghost trees = heap_items(min_heap).len();
    let mut codes: HashMap<u8, Vec<u8>> = HashMap::new();

    while heap_len(&min_heap) > 1
        invariant
            heap_matches(slots@, heap_items(min_heap)),
            heap_items(min_heap).len() >= 1,
            live_weight(slots@) <= max_weight(),
            slots.len() + heap_items(min_heap).len() <= usize::MAX,
            last_tree(slots@, heap_items(min_heap).len()) == last_tree(start, trees),
        decreases heap_items(min_heap).len(),
    {
        let ghost forest = slots@;
        let ghost items = heap_items(min_heap);
        let left_item = heap_pop_min(&mut min_heap).unwrap();
        proof {
            lemma_popped_is_min(forest, items, left_item);
            lemma_matches_after_pop(forest, items, left_item);
            lemma_live_weight_remove(forest, left_item.2 as int);
        }
        let left_node = take_tree(&mut slots, left_item.2);
        let ghost forest1 = slots@;
        let ghost items1 = heap_items(min_heap);
        let right_item = heap_pop_min(&mut min_heap).unwrap();
        proof {
            lemma_popped_is_min(forest1, items1, right_item);
            lemma_matches_after_pop(forest1, items1, right_item);
            lemma_live_weight_remove(forest1, right_item.2 as int);
        }
        let right_node = take_tree(&mut slots, right_item.2);

        let mut new_node = Node::new(
            Quantity { byte: 0, quantity: left_node.val.quantity + right_node.val.quantity },
        );

        new_node.push_left(left_node);
        new_node.push_right(right_node);
        proof {
            assert(new_node == merged(left_node, right_node));
            lemma_matches_after_push(slots@, heap_items(min_heap), new_node);
            lemma_live_weight_push(slots@, new_node);
            assert(slots@.push(Some(new_node)) == merge_step(forest));
        }

        heap_push(&mut min_heap, (new_node.val.quantity, new_node.val.byte, slots.len()));
        slots.push(Some(new_node));
    }

    let ghost forest = slots@;
    let ghost items = heap_items(min_heap);
    let root_item = heap_pop_min(&mut min_heap).unwrap();
    proof {
        lemma_popped_is_min(forest, items, root_item);
    }
    let root = take_tree(&mut slots, root_item.2);

    if root.left.is_none() && root.right.is_none() {
        let mut vec: Vec<u8> = Vec::new();
        vec.push(0);
        codes.insert(root.val.byte, vec);
        proof {
            assert(table_view(codes@) =~= root_codes(root));
        }
        return codes;
    }
    match &root.left {
        Some(left_subtree) => {
            let mut vec: Vec<u8> = Vec::new();
            vec.push(0);
            walk_tree_with_action(&**left_subtree, &mut vec, &mut codes);
        },
        None => {},
    }
    match &root.right {
        Some(right_subtree) => {
            let mut vec: Vec<u8> = Vec::new();
            vec.push(1);
            walk_tree_with_action(&**right_subtree, &mut vec, &mut codes);
        },
        None => {},
    }
    proof {
        assert(Seq::<u8>::empty().push(0) =~= seq![0u8]);
        assert(Seq::<u8>::empty().push(1) =~= seq![1u8]);
        assert(table_view(codes@) =~= root_codes(root));
    }
    codes
}

/// The leaves of the bytes below `i` are live, are no more than `i`, and
/// weigh no more than `i` counts can.
pub proof fn lemma_leaves(counts: Seq<u64>, i: nat)
    ensures
        leaves_upto(counts, i).len() <= i,
        live_weight(leaves_upto(counts, i)) <= i * (u64::MAX as nat),
        forall|j: int|
            0 <= j < leaves_upto(counts, i).len() ==> (#[trigger] leaves_upto(counts, i)[j])
                is Some,
        forall|b: int| 0 <= b < i && counts[b] != 0 ==> leaves_upto(counts, i).len() >= 1,
    decreases i,
{
    if i > 0 {
        lemma_leaves(counts, (i - 1) as nat);
        let before = leaves_upto(counts, (i - 1) as nat);
        let now = leaves_upto(counts, i);
        if counts[i - 1] != 0 {
            lemma_live_weight_push(before, leaf((i - 1) as u8, counts[i - 1]));
        }
        assert forall|j: int| 0 <= j < now.len() implies (#[trigger] now[j]) is Some by {
            if j < before.len() {
                assert(before[j] is Some);
            }
        }
        assert(i * (u64::MAX as nat) == (i - 1) * (u64::MAX as nat) + u64::MAX)
            by (nonlinear_arith);
    }
}

/// The Huffman code of the bytes that `stats` counts. At least one byte
/// occurs.
pub fn encode(stats: FileStats) -> (codes: HashMap<u8, Vec<u8>>)
    requires
        exists|b: int| 0 <= b < 256 && stats.0@[b] != 0,
    ensures
        table_view(codes@) == huffman_codes(stats.0@),
{
    let probs = create_quantity_map(&stats.0);
    let mut min_heap = heap_new();
    let mut slots: Vec<Option<Node<Quantity>>> = Vec::new();
    let ghost counts = stats.0@;

    let mut i: usize = 0;
    proof {
        broadcast use vstd::multiset::group_multiset_axioms;

        assert(heap_matches(slots@, heap_items(min_heap)));
    }
    while i < probs.len()
        invariant
            i <= 256,
            probs.len() == 256,
            counts == stats.0@,
            forall|j: int|
                0 <= j < 256 ==> (#[trigger] probs[j]) == (Quantity {
                    byte: j as u8,
                    quantity: counts[j] as u128,
                }),
            slots@ == leaves_upto(counts, i as nat),
            heap_matches(slots@, heap_items(min_heap)),
            heap_items(min_heap).len() == slots.len(),
        decreases 256 - i,
    {
        let probability = probs[i];
        proof {
            lemma_leaves(counts, i as nat);
        }
        if probability.quantity != 0 {
            let node = Node::new(probability);
            proof {
                lemma_matches_after_push(slots@, heap_items(min_heap), node);
                assert(node == leaf(i as u8, counts[i as int]));
            }
            heap_push(&mut min_heap, (probability.quantity, probability.byte, slots.len()));
            slots.push(Some(node));
        }
        i += 1;
    }
    proof {
        lemma_leaves(counts, 256);
    }

    // actual encoding
    enc(min_heap, slots)
}

// ---------------------------------------------------------------------------
// What the code guarantees

/// The bytes at the leaves of `t`.
pub open spec fn leaf_bytes(t: Node<Quantity>) -> Set<u8>
    decreases t,
{
    if is_leaf(t) {
        Set::<u8>::empty().insert(t.val.byte)
    } else {
        let left = match t.left {
            Some(sub) => leaf_bytes(*sub),
            None => Set::empty(),
        };
        let right = match t.right {
            Some(sub) => leaf_bytes(*sub),
            None => Set::empty(),
        };
        left.union(right)
    }
}

/// Every node of `t` is a leaf or has two subtrees, and no byte stands at two
/// leaves.
pub open spec fn proper(t: Node<Quantity>) -> bool
    decreases t,
{
    match (t.left, t.right) {
        (None, None) => true,
        (Some(left), Some(right)) => proper(*left) && proper(*right) && leaf_bytes(
            *left,
        ).disjoint(leaf_bytes(*right)),
        _ => false,
    }
}

/// A tree has a leaf.
pub proof fn lemma_leaf_bytes_inhabited(t: Node<Quantity>) -> (b: u8)
    requires
        proper(t),
    ensures
        leaf_bytes(t).contains(b),
    decreases t,
{
    match (t.left, t.right) {
        (Some(left), Some(right)) => lemma_leaf_bytes_inhabited(*left),
        _ => t.val.byte,
    }
}

/// The codewords of a tree: one for each byte at a leaf, each beginning with
/// the path to the root, none the beginning of another.
pub proof fn lemma_tree_codes(t: Node<Quantity>, path: Seq<u8>)
    requires
        proper(t),
    ensures
        tree_codes(t, path).dom() == leaf_bytes(t),
        forall|b: u8|
            tree_codes(t, path).contains_key(b) ==> path.is_prefix_of(
                #[trigger] tree_codes(t, path)[b],
            ),
        !is_leaf(t) ==> forall|b: u8|
            tree_codes(t, path).contains_key(b) ==> (#[trigger] tree_codes(t, path)[b]).len()
                > path.len(),
        prefix_free(tree_codes(t, path)),
    decreases t,
{
    let codes = tree_codes(t, path);
    match (t.left, t.right) {
        (Some(left), Some(right)) => {
            let l = tree_codes(*left, path.push(0));
            let r = tree_codes(*right, path.push(1));
            lemma_tree_codes(*left, path.push(0));
            lemma_tree_codes(*right, path.push(1));
            assert(codes == l.union_prefer_right(r));
            assert(codes.dom() =~= leaf_bytes(t));
            assert forall|b: u8| codes.contains_key(b) implies path.is_prefix_of(
                #[trigger] codes[b],
            ) && codes[b].len() > path.len() && codes[b][path.len() as int] == (if r.contains_key(
                b,
            ) {
                1u8
            } else {
                0u8
            }) by {
                if r.contains_key(b) {
                    assert(path.push(1).is_prefix_of(r[b]));
                    assert(r[b].subrange(0, path.len() as int + 1)[path.len() as int] == 1);
                    assert(path =~= r[b].subrange(0, path.len() as int));
                } else {
                    assert(l.contains_key(b));
                    assert(path.push(0).is_prefix_of(l[b]));
                    assert(l[b].subrange(0, path.len() as int + 1)[path.len() as int] == 0);
                    assert(path =~= l[b].subrange(0, path.len() as int));
                }
            }
            assert forall|a: u8, b: u8|
                codes.contains_key(a) && codes.contains_key(b) && a != b implies !(
                #[trigger] codes[a]).is_prefix_of(#[trigger] codes[b]) by {
                if r.contains_key(a) != r.contains_key(b) {
                    if codes[a].is_prefix_of(codes[b]) {
                        assert(codes[b].subrange(0, codes[a].len() as int)[path.len() as int]
                            == codes[a][path.len() as int]);
                    }
                } else if r.contains_key(a) {
                    assert(!r[a].is_prefix_of(r[b]));
                } else {
                    assert(!l[a].is_prefix_of(l[b]));
                }
            }
        },
        _ => {
            assert(codes.dom() =~= leaf_bytes(t));
        },
    }
}

/// The trees of the forest are proper and share no byte.
pub open spec fn forest_ok(forest: Forest) -> bool {
    &&& forall|i: int| live(forest, i) ==> proper(#[trigger] forest[i]->0)
    &&& forall|i: int, j: int|
        live(forest, i) && live(forest, j) && i != j ==> leaf_bytes(
            #[trigger] forest[i]->0,
        ).disjoint(leaf_bytes(#[trigger] forest[j]->0))
}

/// The bytes at the leaves of the trees of the forest.
pub open spec fn forest_bytes(forest: Forest) -> Set<u8> {
    Set::new(|b: u8| exists|i: int| live(forest, i) && leaf_bytes(#[trigger] forest[i]->0).contains(b))
}

/// The number of trees in the forest.
pub open spec fn live_count(forest: Forest) -> nat
    decreases forest.len(),
{
    if forest.len() == 0 {
        0
    } else {
        live_count(forest.drop_last()) + if forest.last() is Some {
            1nat
        } else {
            0nat
        }
    }
}

/// A tree that leaves is one tree less.
pub proof fn lemma_live_count_remove(forest: Forest, i: int)
    requires
        live(forest, i),
    ensures
        live_count(forest.update(i, None)) + 1 == live_count(forest),
    decreases forest.len(),
{
    let after = forest.update(i, None);
    if i == forest.len() - 1 {
        assert(after.drop_last() =~= forest.drop_last());
    } else {
        assert(after.drop_last() =~= forest.drop_last().update(i, None));
        lemma_live_count_remove(forest.drop_last(), i);
    }
}

/// A tree that comes is one tree more; an empty place is none.
pub proof fn lemma_live_count_push(forest: Forest, t: Option<Node<Quantity>>)
    ensures
        live_count(forest.push(t)) == live_count(forest) + if t is Some {
            1nat
        } else {
            0nat
        },
{
    assert(forest.push(t).drop_last() =~= forest);
}

/// A forest that counts a tree has one.
pub proof fn lemma_live_exists(forest: Forest) -> (i: int)
    requires
        live_count(forest) > 0,
    ensures
        live(forest, i),
    decreases forest.len(),
{
    if forest.last() is Some {
        forest.len() - 1
    } else {
        lemma_live_exists(forest.drop_last())
    }
}

/// The least tree among those with a number below `k`.
pub proof fn lemma_least_upto(forest: Forest, k: int, witness: int) -> (m: int)
    requires
        0 <= witness < k <= forest.len(),
        live(forest, witness),
    ensures
        live(forest, m),
        m < k,
        forall|j: int| live(forest, j) && j < k ==> item_le(key_of(forest, m), key_of(forest, j)),
    decreases k,
{
    if witness == k - 1 {
        if exists|w: int| 0 <= w < k - 1 && live(forest, w) {
            let w = choose|w: int| 0 <= w < k - 1 && live(forest, w);
            let m = lemma_least_upto(forest, k - 1, w);
            if item_le(key_of(forest, m), key_of(forest, k - 1)) {
                m
            } else {
                k - 1
            }
        } else {
            k - 1
        }
    } else {
        let m = lemma_least_upto(forest, k - 1, witness);
        if live(forest, k - 1) && !item_le(key_of(forest, m), key_of(forest, k - 1)) {
            k - 1
        } else {
            m
        }
    }
}

/// A forest with a tree has a least tree.
pub proof fn lemma_min_exists(forest: Forest)
    requires
        live_count(forest) > 0,
    ensures
        is_min(forest, min_slot(forest)),
{
    let w = lemma_live_exists(forest);
    let m = lemma_least_upto(forest, forest.len() as int, w);
    assert(is_min(forest, m));
}

/// Merging two trees of a forest keeps its trees proper and apart, and keeps
/// its bytes.
pub proof fn lemma_merge_at(forest: Forest, a: int, b: int)
    requires
        forest_ok(forest),
        live(forest, a),
        live(forest, b),
        a != b,
    ensures
        forest_ok(merge_at(forest, a, b)),
        forest_bytes(merge_at(forest, a, b)) == forest_bytes(forest),
        live_count(merge_at(forest, a, b)) + 1 == live_count(forest),
{
    let f1 = forest.update(a, None);
    let f2 = f1.update(b, None);
    let t = merged(forest[a]->0, forest[b]->0);
    let next = merge_at(forest, a, b);
    let n = forest.len() as int;
    lemma_live_count_remove(forest, a);
    lemma_live_count_remove(f1, b);
    lemma_live_count_push(f2, Some(t));
    assert(proper(forest[a]->0));
    assert(proper(forest[b]->0));
    assert(leaf_bytes(forest[a]->0).disjoint(leaf_bytes(forest[b]->0)));
    assert(proper(t));
    assert(leaf_bytes(t) =~= leaf_bytes(forest[a]->0).union(leaf_bytes(forest[b]->0)));
    assert forall|i: int| live(next, i) implies proper(#[trigger] next[i]->0) by {
        if i < n {
            assert(next[i] == forest[i]);
            assert(live(forest, i));
            assert(proper(forest[i]->0));
        } else {
            assert(next[i] == Some(t));
        }
    }
    assert forall|i: int, j: int| live(next, i) && live(next, j) && i != j implies leaf_bytes(
        #[trigger] next[i]->0,
    ).disjoint(leaf_bytes(#[trigger] next[j]->0)) by {
        if i < n && j < n {
            assert(next[i] == forest[i]);
            assert(next[j] == forest[j]);
        } else if i < n {
            assert(next[i] == forest[i]);
            assert(leaf_bytes(forest[i]->0).disjoint(leaf_bytes(forest[a]->0)));
            assert(leaf_bytes(forest[i]->0).disjoint(leaf_bytes(forest[b]->0)));
        } else {
            assert(next[j] == forest[j]);
            assert(leaf_bytes(forest[j]->0).disjoint(leaf_bytes(forest[a]->0)));
            assert(leaf_bytes(forest[j]->0).disjoint(leaf_bytes(forest[b]->0)));
        }
    }
    assert forall|x: u8| forest_bytes(next).contains(x) == forest_bytes(forest).contains(x) by {
        if forest_bytes(next).contains(x) {
            let i = choose|i: int| live(next, i) && leaf_bytes(#[trigger] next[i]->0).contains(x);
            if i < n {
                assert(next[i] == forest[i]);
                assert(live(forest, i) && leaf_bytes(forest[i]->0).contains(x));
            } else if leaf_bytes(forest[a]->0).contains(x) {
                assert(live(forest, a) && leaf_bytes(forest[a]->0).contains(x));
            } else {
                assert(live(forest, b) && leaf_bytes(forest[b]->0).contains(x));
            }
        }
        if forest_bytes(forest).contains(x) {
            let i = choose|i: int|
                live(forest, i) && leaf_bytes(#[trigger] forest[i]->0).contains(x);
            if i == a || i == b {
                assert(live(next, n) && leaf_bytes(next[n]->0).contains(x));
            } else {
                assert(next[i] == forest[i]);
                assert(live(next, i) && leaf_bytes(next[i]->0).contains(x));
            }
        }
    }
    assert(forest_bytes(next) =~= forest_bytes(forest));
}

/// A forest of one tree has no second one.
pub proof fn lemma_single_tree(forest: Forest, i: int, j: int)
    requires
        live_count(forest) == 1,
        live(forest, i),
        live(forest, j),
    ensures
        i == j,
{
    if i != j {
        lemma_live_count_remove(forest, i);
        lemma_live_count_remove(forest.update(i, None), j);
    }
}

/// The last tree of a forest is proper and holds the bytes of the forest.
pub proof fn lemma_last_tree(forest: Forest, trees: nat)
    requires
        forest_ok(forest),
        live_count(forest) == trees,
        trees >= 1,
    ensures
        proper(last_tree(forest, trees)),
        leaf_bytes(last_tree(forest, trees)) == forest_bytes(forest),
    decreases trees,
{
    lemma_min_exists(forest);
    let a = min_slot(forest);
    if trees == 1 {
        assert(merge_all(forest, 0) == forest);
        assert forall|x: u8| forest_bytes(forest).contains(x) implies leaf_bytes(
            forest[a]->0,
        ).contains(x) by {
            let i = choose|i: int|
                live(forest, i) && leaf_bytes(#[trigger] forest[i]->0).contains(x);
            lemma_single_tree(forest, i, a);
        }
        assert(leaf_bytes(forest[a]->0) =~= forest_bytes(forest));
    } else {
        let f1 = forest.update(a, None);
        lemma_live_count_remove(forest, a);
        lemma_min_exists(f1);
        let b = min_slot(f1);
        lemma_merge_at(forest, a, b);
        let next = merge_step(forest);
        lemma_last_tree(next, (trees - 1) as nat);
        assert(merge_all(forest, (trees - 1) as nat) == merge_all(next, (trees - 2) as nat));
    }
}

/// The leaves that the coder starts with are proper and apart, and hold the
/// bytes that occur.
pub proof fn lemma_leaves_ok(counts: Seq<u64>, i: nat)
    requires
        i <= 256,
    ensures
        forest_ok(leaves_upto(counts, i)),
        live_count(leaves_upto(counts, i)) == leaves_upto(counts, i).len(),
        forall|j: int|
            0 <= j < leaves_upto(counts, i).len() ==> {
                let t = (#[trigger] leaves_upto(counts, i)[j]);
                t is Some && is_leaf(t->0) && t->0.val.byte < i && counts[t->0.val.byte as int]
                    != 0
            },
        forall|b: u8| b < i && counts[b as int] != 0 ==> forest_bytes(leaves_upto(counts, i)).contains(b),
    decreases i,
{
    let now = leaves_upto(counts, i);
    if i > 0 {
        let before = leaves_upto(counts, (i - 1) as nat);
        lemma_leaves_ok(counts, (i - 1) as nat);
        if counts[i - 1] != 0 {
            lemma_live_count_push(before, Some(leaf((i - 1) as u8, counts[i - 1])));
        }
        assert forall|j: int| 0 <= j < now.len() implies {
            let t = (#[trigger] now[j]);
            t is Some && is_leaf(t->0) && t->0.val.byte < i && counts[t->0.val.byte as int] != 0
        } by {
            if j < before.len() {
                assert(now[j] == before[j]);
            }
        }
        assert forall|a: int, b: int| live(now, a) && live(now, b) && a != b implies leaf_bytes(
            #[trigger] now[a]->0,
        ).disjoint(leaf_bytes(#[trigger] now[b]->0)) by {
            if a < before.len() {
                assert(now[a] == before[a]);
            }
            if b < before.len() {
                assert(now[b] == before[b]);
            }
        }
        assert forall|b: u8| b < i && counts[b as int] != 0 implies forest_bytes(now).contains(
            b,
        ) by {
            if b < i - 1 {
                assert(forest_bytes(before).contains(b));
                let j = choose|j: int|
                    live(before, j) && leaf_bytes(#[trigger] before[j]->0).contains(b);
                assert(now[j] == before[j]);
                assert(live(now, j) && leaf_bytes(now[j]->0).contains(b));
            } else {
                let j = now.len() - 1;
                assert(live(now, j) && leaf_bytes(now[j]->0).contains(b));
            }
        }
    }
}

/// The Huffman code gives a codeword to each byte that occurs and to no
/// other, and no codeword is the beginning of another. Where a single byte
/// occurs, its codeword is one zero bit.
pub proof fn lemma_huffman_code(counts: Seq<u64>)
    requires
        counts.len() == 256,
        exists|b: int| 0 <= b < 256 && counts[b] != 0,
    ensures
        huffman_codes(counts).dom() == present(counts),
        prefix_free(huffman_codes(counts)),
        forall|b: u8|
            present(counts) == Set::<u8>::empty().insert(b) ==> huffman_codes(counts)
                == Map::<u8, Seq<u8>>::empty().insert(b, seq![0u8]),
{
    let start = leaves_upto(counts, 256);
    lemma_leaves_ok(counts, 256);
    lemma_leaves(counts, 256);
    lemma_last_tree(start, start.len());
    let root = huffman_root(counts);
    let codes = huffman_codes(counts);
    assert forall|b: u8| forest_bytes(start).contains(b) == present(counts).contains(b) by {
        if forest_bytes(start).contains(b) {
            let j = choose|j: int| live(start, j) && leaf_bytes(#[trigger] start[j]->0).contains(b);
        }
    }
    assert(forest_bytes(start) =~= present(counts));
    lemma_tree_codes(root, Seq::empty());
    if is_leaf(root) {
        assert(codes.dom() =~= leaf_bytes(root));
    }
    assert forall|b: u8| present(counts) == Set::<u8>::empty().insert(b) implies codes == Map::<
        u8,
        Seq<u8>,
    >::empty().insert(b, seq![0u8]) by {
        match (root.left, root.right) {
            (Some(left), Some(right)) => {
                let x = lemma_leaf_bytes_inhabited(*left);
                let y = lemma_leaf_bytes_inhabited(*right);
                assert(leaf_bytes(root).contains(x));
                assert(leaf_bytes(root).contains(y));
            },
            _ => {
                assert(leaf_bytes(root).contains(root.val.byte));
            },
        }
    }
}

/// The number of steps from the root of `t` to its farthest leaf.
pub open spec fn height(t: Node<Quantity>) -> nat
    decreases t,
{
    let left = match t.left {
        Some(sub) => 1 + height(*sub),
        None => 0,
    };
    let right = match t.right {
        Some(sub) => 1 + height(*sub),
        None => 0,
    };
    if left >= right {
        left
    } else {
        right
    }
}

/// No codeword of a tree is longer than the path to its root and its height.
pub proof fn lemma_tree_codes_len(t: Node<Quantity>, path: Seq<u8>)
    ensures
        forall|b: u8|
            tree_codes(t, path).contains_key(b) ==> (#[trigger] tree_codes(t, path)[b]).len()
                <= path.len() + height(t),
    decreases t,
{
    let codes = tree_codes(t, path);
    let left = match t.left {
        Some(sub) => tree_codes(*sub, path.push(0)),
        None => Map::empty(),
    };
    let right = match t.right {
        Some(sub) => tree_codes(*sub, path.push(1)),
        None => Map::empty(),
    };
    match t.left {
        Some(sub) => lemma_tree_codes_len(*sub, path.push(0)),
        None => {},
    }
    match t.right {
        Some(sub) => lemma_tree_codes_len(*sub, path.push(1)),
        None => {},
    }
    assert forall|b: u8| codes.contains_key(b) implies (#[trigger] codes[b]).len() <= path.len()
        + height(t) by {
        if !is_leaf(t) {
            if right.contains_key(b) {
                assert(codes[b] == right[b]);
            } else {
                assert(left.contains_key(b));
                assert(codes[b] == left[b]);
            }
        }
    }
}

/// No tree of the forest is higher than `h`.
pub open spec fn forest_height(forest: Forest, h: nat) -> bool {
    forall|i: int| live(forest, i) ==> height(#[trigger] forest[i]->0) <= h
}

/// The last tree of a forest is no higher than its highest tree and the
/// number of merges.
pub proof fn lemma_last_tree_height(forest: Forest, trees: nat, h: nat)
    requires
        live_count(forest) == trees,
        trees >= 1,
        forest_height(forest, h),
    ensures
        height(last_tree(forest, trees)) <= h + trees - 1,
    decreases trees,
{
    lemma_min_exists(forest);
    let a = min_slot(forest);
    if trees == 1 {
        assert(merge_all(forest, 0) == forest);
    } else {
        let f1 = forest.update(a, None);
        lemma_live_count_remove(forest, a);
        lemma_min_exists(f1);
        let b = min_slot(f1);
        let f2 = f1.update(b, None);
        let t = merged(forest[a]->0, forest[b]->0);
        let next = merge_step(forest);
        lemma_live_count_remove(f1, b);
        lemma_live_count_push(f2, Some(t));
        assert(height(forest[a]->0) <= h);
        assert(live(f1, b));
        assert(f1[b] == forest[b]);
        assert(live(forest, b));
        assert(height(forest[b]->0) <= h);
        assert forall|i: int| live(next, i) implies height(#[trigger] next[i]->0) <= h + 1 by {
            if i < forest.len() {
                assert(next[i] == forest[i]);
                assert(live(forest, i));
            }
        }
        lemma_last_tree_height(next, (trees - 1) as nat, h + 1);
        assert(merge_all(forest, (trees - 1) as nat) == merge_all(next, (trees - 2) as nat));
    }
}

/// No codeword of the Huffman code is longer than 255 bits.
pub proof fn lemma_huffman_code_lengths(counts: Seq<u64>)
    requires
        counts.len() == 256,
        exists|b: int| 0 <= b < 256 && counts[b] != 0,
    ensures
        forall|b: u8|
            huffman_codes(counts).contains_key(b) ==> (#[trigger] huffman_codes(counts)[b]).len()
                <= 255,
{
    let start = leaves_upto(counts, 256);
    lemma_leaves_ok(counts, 256);
    lemma_leaves(counts, 256);
    assert(forest_height(start, 0)) by {
        assert forall|i: int| live(start, i) implies height(#[trigger] start[i]->0) <= 0 by {
            assert(is_leaf(start[i]->0));
        }
    }
    lemma_last_tree_height(start, start.len(), 0);
    lemma_tree_codes_len(huffman_root(counts), Seq::empty());
}

/// The codewords of a tree are bits where the path to its root is.
pub proof fn lemma_tree_codes_bits(t: Node<Quantity>, path: Seq<u8>)
    requires
        is_bits(path),
    ensures
        forall|b: u8|
            tree_codes(t, path).contains_key(b) ==> is_bits(#[trigger] tree_codes(t, path)[b]),
    decreases t,
{
    let codes = tree_codes(t, path);
    let left = match t.left {
        Some(sub) => tree_codes(*sub, path.push(0)),
        None => Map::empty(),
    };
    let right = match t.right {
        Some(sub) => tree_codes(*sub, path.push(1)),
        None => Map::empty(),
    };
    assert(is_bits(path.push(0)));
    assert(is_bits(path.push(1)));
    match t.left {
        Some(sub) => lemma_tree_codes_bits(*sub, path.push(0)),
        None => {},
    }
    match t.right {
        Some(sub) => lemma_tree_codes_bits(*sub, path.push(1)),
        None => {},
    }
    assert forall|b: u8| codes.contains_key(b) implies is_bits(#[trigger] codes[b]) by {
        if !is_leaf(t) {
            if right.contains_key(b) {
                assert(codes[b] == right[b]);
            } else {
                assert(left.contains_key(b));
                assert(codes[b] == left[b]);
            }
        }
    }
}

/// The codewords of the Huffman code are bits, at least one each.
pub proof fn lemma_huffman_code_bits(counts: Seq<u64>)
    requires
        counts.len() == 256,
        exists|b: int| 0 <= b < 256 && counts[b] != 0,
    ensures
        forall|b: u8|
            huffman_codes(counts).contains_key(b) ==> is_bits(#[trigger] huffman_codes(counts)[b])
                && huffman_codes(counts)[b].len() >= 1,
{
    let start = leaves_upto(counts, 256);
    lemma_leaves_ok(counts, 256);
    lemma_leaves(counts, 256);
    lemma_last_tree(start, start.len());
    let root = huffman_root(counts);
    lemma_tree_codes(root, Seq::empty());
    lemma_tree_codes_bits(root, Seq::empty());
}

} // verus!
