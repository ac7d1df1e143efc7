//! Giving each node of a lowered tree its instruction index, breadth-first.

use vstd::prelude::*;

use crate::bytecode::{
    NumTree,
    NumberedNode,
    lemma_num_trees_of_index,
    lemma_num_trees_of_push,
    num_tree_of,
    num_trees_of,
};

verus! {
/// The id that the next node at depth `d` gets, with counters `next`.
pub open spec fn next_id(next: Seq<usize>, d: int) -> usize {
    if 0 <= d < next.len() {
        next[d]
    } else {
        0
    }
}

/// The counters once a node at depth `d` has taken its id.
pub open spec fn bump(next: Seq<usize>, d: int) -> Seq<usize> {
    if d < next.len() {
        next.update(d, (next[d] + 1) as usize)
    } else {
        next.push(1)
    }
}

/// Numbers `t`, a node at depth `d`, and the nodes below it: each node takes
/// the counter of its depth, which then moves on by one. Nodes of one depth
/// are met left to right, so each depth's ids are handed out in
/// breadth-first order. Gives the numbered tree and the counters after it.
pub open spec fn number_tree(t: NumTree, d: int, next: Seq<usize>) -> (NumTree, Seq<usize>)
    decreases t,
{
    match t {
        NumTree::Root(ts) => {
            let (f, n) = number_forest(ts, d, next);
            (NumTree::Root(f), n)
        },
        NumTree::Loop { operations, .. } => {
            let (f, n) = number_forest(operations, d + 1, bump(next, d));
            (NumTree::Loop { id: next_id(next, d), operations: f }, n)
        },
        NumTree::Operation { data, .. } => (
            NumTree::Operation { id: next_id(next, d), data },
            bump(next, d),
        ),
    }
}

/// Numbers the siblings `f`, at depth `d`, left to right.
pub open spec fn number_forest(f: Seq<NumTree>, d: int, next: Seq<usize>) -> (
    Seq<NumTree>,
    Seq<usize>,
)
    decreases f,
{
    if f.len() == 0 {
        (f, next)
    } else {
        let (g, n1) = number_forest(f.drop_last(), d, next);
        let (t, n2) = number_tree(f.last(), d, n1);
        (g.push(t), n2)
    }
}

/// How many nodes lie `k` levels below `t` (`t` itself for `k == 0`).
pub open spec fn count_in(t: NumTree, k: int) -> nat
    decreases t,
{
    match t {
        NumTree::Root(ts) => count_at(ts, k),
        NumTree::Loop { operations, .. } => if k == 0 {
            1
        } else {
            count_at(operations, k - 1)
        },
        NumTree::Operation { .. } => if k == 0 {
            1
        } else {
            0
        },
    }
}

/// How many nodes of the forest `f` lie at depth `k` (its own at depth 0).
pub open spec fn count_at(f: Seq<NumTree>, k: int) -> nat
    decreases f,
{
    if f.len() == 0 {
        0
    } else {
        count_at(f.drop_last(), k) + count_in(f.last(), k)
    }
}

/// How many levels `t` spans.
pub open spec fn height(t: NumTree) -> nat
    decreases t,
{
    match t {
        NumTree::Root(ts) => height_all(ts),
        NumTree::Loop { operations, .. } => 1 + height_all(operations),
        NumTree::Operation { .. } => 1,
    }
}

pub open spec fn height_all(f: Seq<NumTree>) -> nat
    decreases f,
{
    if f.len() == 0 {
        0
    } else if height_all(f.drop_last()) >= height(f.last()) {
        height_all(f.drop_last())
    } else {
        height(f.last())
    }
}

/// The id of the first node at depth `d`: the number of nodes above it.
pub open spec fn first_id(f: Seq<NumTree>, d: int) -> nat
    decreases d,
{
    if d <= 0 {
        0
    } else {
        first_id(f, d - 1) + count_at(f, d - 1)
    }
}

/// The number of nodes of `t`, itself included.
pub open spec fn size(t: NumTree) -> nat
    decreases t,
{
    match t {
        NumTree::Root(f) => node_count(f),
        NumTree::Loop { operations, .. } => 1 + node_count(operations),
        NumTree::Operation { .. } => 1,
    }
}

/// The number of nodes of `f` at all depths.
pub open spec fn node_count(f: Seq<NumTree>) -> nat
    decreases f,
{
    if f.len() == 0 {
        0
    } else {
        node_count(f.drop_last()) + size(f.last())
    }
}

/// The nodes of `t` that lie less than `d` levels below it.
spec fn count_above(t: NumTree, d: int) -> nat
    decreases d,
{
    if d <= 0 {
        0
    } else {
        count_above(t, d - 1) + count_in(t, d - 1)
    }
}

proof fn lemma_first_id_push(g: Seq<NumTree>, t: NumTree, d: int)
    ensures
        first_id(g.push(t), d) == first_id(g, d) + count_above(t, d),
    decreases d,
{
    if d > 0 {
        lemma_first_id_push(g, t, d - 1);
        assert(g.push(t).drop_last() =~= g);
    }
}

proof fn lemma_count_above_loop(t: NumTree, d: int)
    requires
        t is Loop,
        d >= 1,
    ensures
        count_above(t, d) == 1 + first_id(t->operations, d - 1),
    decreases d,
{
    if d > 1 {
        lemma_count_above_loop(t, d - 1);
        assert(count_in(t, d - 1) == count_at(t->operations, d - 2));
    } else {
        assert(count_above(t, 0) == 0);
        assert(count_in(t, 0) == 1);
    }
}

proof fn lemma_count_above_root(t: NumTree, d: int)
    requires
        t is Root,
    ensures
        count_above(t, d) == first_id(t->Root_0, d),
    decreases d,
{
    if d > 0 {
        lemma_count_above_root(t, d - 1);
    }
}

proof fn lemma_size_by_levels(t: NumTree, d: int)
    requires
        d >= height(t),
    ensures
        count_above(t, d) == size(t),
    decreases t, d,
{
    match t {
        NumTree::Root(f) => {
            lemma_count_above_root(t, d);
            lemma_node_count_by_levels(f, d);
        },
        NumTree::Loop { operations, .. } => {
            lemma_count_above_loop(t, d);
            lemma_node_count_by_levels(operations, d - 1);
        },
        NumTree::Operation { .. } => {
            if d > 1 {
                lemma_size_by_levels(t, d - 1);
            } else {
                assert(count_above(t, 0) == 0);
            }
        },
    }
}

/// Summing the nodes level by level counts every node once.
proof fn lemma_node_count_by_levels(f: Seq<NumTree>, d: int)
    requires
        d >= height_all(f),
    ensures
        first_id(f, d) == node_count(f),
    decreases f, d,
{
    if f.len() == 0 {
        lemma_first_id_empty(f, d);
    } else {
        let g = f.drop_last();
        let t = f.last();
        lemma_first_id_push(g, t, d);
        assert(g.push(t) =~= f);
        lemma_node_count_by_levels(g, d);
        lemma_size_by_levels(t, d);
    }
}

proof fn lemma_first_id_empty(f: Seq<NumTree>, d: int)
    requires
        f.len() == 0,
    ensures
        first_id(f, d) == 0,
    decreases d,
{
    if d > 0 {
        lemma_first_id_empty(f, d - 1);
    }
}

/// The counters that numbering starts from: each depth begins where the
/// depths above it end.
pub open spec fn first_ids(f: Seq<NumTree>) -> Seq<usize> {
    Seq::new(height_all(f), |d: int| first_id(f, d) as usize)
}

/// `t` numbered breadth-first from 0: a root's children first, then the
/// nodes one level down, and so on.
pub open spec fn numbered(t: NumTree) -> NumTree {
    match t {
        NumTree::Root(f) => NumTree::Root(number_forest(f, 0, first_ids(f)).0),
        _ => t,
    }
}

proof fn lemma_count_tree(t: NumTree, d: int, next: Seq<usize>)
    requires
        0 <= d <= next.len(),
        forall|k: int| d <= k ==> #[trigger] next_id(next, k) + count_in(t, k - d) <= usize::MAX,
    ensures
        number_tree(t, d, next).1.len() == if next.len() >= d + height(t) {
            next.len() as int
        } else {
            d + height(t)
        },
        forall|k: int| 0 <= k < d ==> #[trigger] next_id(number_tree(t, d, next).1, k) == next_id(next, k),
        forall|k: int| d <= k ==> #[trigger] next_id(number_tree(t, d, next).1, k) == next_id(next, k) + count_in(t, k - d),
        forall|k: int| height(t) <= k ==> #[trigger] count_in(t, k) == 0,
    decreases t,
{
    match t {
        NumTree::Root(ts) => {
            lemma_count_forest(ts, d, next);
            assert forall|k: int| height(t) <= k implies #[trigger] count_in(t, k) == 0 by {
                assert(count_at(ts, k) == 0);
            }
        },
        NumTree::Loop { operations, .. } => {
            let b = bump(next, d);
            assert forall|k: int| d + 1 <= k implies #[trigger] next_id(b, k) + count_at(operations, k - (d + 1)) <= usize::MAX by {
                assert(next_id(next, k) + count_in(t, k - d) <= usize::MAX);
            }
            lemma_count_forest(operations, d + 1, b);
            assert(next_id(next, d) + count_in(t, 0) <= usize::MAX);
            assert forall|k: int| height(t) <= k implies #[trigger] count_in(t, k) == 0 by {
                assert(count_at(operations, k - 1) == 0);
            }
        },
        NumTree::Operation { .. } => {
            assert(next_id(next, d) + count_in(t, 0) <= usize::MAX);
        },
    }
}

proof fn lemma_count_forest(f: Seq<NumTree>, d: int, next: Seq<usize>)
    requires
        0 <= d <= next.len(),
        forall|k: int| d <= k ==> #[trigger] next_id(next, k) + count_at(f, k - d) <= usize::MAX,
    ensures
        number_forest(f, d, next).1.len() == if next.len() >= d + height_all(f) {
            next.len() as int
        } else {
            d + height_all(f)
        },
        forall|k: int| 0 <= k < d ==> #[trigger] next_id(number_forest(f, d, next).1, k) == next_id(next, k),
        forall|k: int| d <= k ==> #[trigger] next_id(number_forest(f, d, next).1, k) == next_id(next, k) + count_at(f, k - d),
        forall|k: int| height_all(f) <= k ==> #[trigger] count_at(f, k) == 0,
    decreases f,
{
    if f.len() > 0 {
        let g = f.drop_last();
        let t = f.last();
        assert forall|k: int| d <= k implies #[trigger] next_id(next, k) + count_at(g, k - d) <= usize::MAX by {
            assert(next_id(next, k) + count_at(f, k - d) <= usize::MAX);
        }
        lemma_count_forest(g, d, next);
        let n1 = number_forest(g, d, next).1;
        assert forall|k: int| d <= k implies #[trigger] next_id(n1, k) + count_in(t, k - d) <= usize::MAX by {
            assert(next_id(next, k) + count_at(f, k - d) <= usize::MAX);
        }
        lemma_count_tree(t, d, n1);
        assert forall|k: int| height_all(f) <= k implies #[trigger] count_at(f, k) == 0 by {
            assert(count_at(g, k) == 0);
            assert(count_in(t, k) == 0);
        }
    }
}

proof fn lemma_count_prefix(f: Seq<NumTree>, j: int, k: int)
    requires
        0 <= j <= f.len(),
    ensures
        count_at(f.take(j), k) <= count_at(f, k),
    decreases f.len(),
{
    if j == f.len() {
        assert(f.take(j) =~= f);
    } else {
        assert(f.drop_last().take(j) =~= f.take(j));
        lemma_count_prefix(f.drop_last(), j, k);
    }
}

fn bump_counter(next: &mut Vec<usize>, d: usize)
    requires
        d <= old(next).len(),
        next_id(old(next)@, d as int) < usize::MAX,
    ensures
        final(next)@ == bump(old(next)@, d as int),
{
    if d < next.len() {
        let v = next[d];
        next.set(d, v + 1);
    } else {
        next.push(1);
    }
}

fn number_node(node: &NumberedNode, d: usize, next: &mut Vec<usize>) -> (r: NumberedNode)
    requires
        d <= old(next).len(),
        forall|k: int| d <= k ==> #[trigger] next_id(old(next)@, k) + count_in(node@, k - d) <= usize::MAX,
    ensures
        (r@, final(next)@) == number_tree(node@, d as int, old(next)@),
    decreases node,
{
    match node {
        NumberedNode::Root(ts) => {
            proof {
                assert forall|k: int| d <= k implies #[trigger] next_id(next@, k) + count_at(num_trees_of(ts@), k - d) <= usize::MAX by {
                    assert(next_id(next@, k) + count_in(node@, k - d) <= usize::MAX);
                }
            }
            NumberedNode::Root(number_nodes(ts, d, next))
        },
        NumberedNode::Loop { operations, .. } => {
            let ghost old_next = next@;
            proof {
                assert(next_id(next@, d as int) + count_in(node@, 0) <= usize::MAX);
            }
            let id = if d < next.len() { next[d] } else { 0 };
            bump_counter(next, d);
            assert(next.len() > d);
            proof {
                assert forall|k: int| d + 1 <= k implies #[trigger] next_id(next@, k) + count_at(num_trees_of(operations@), k - (d + 1)) <= usize::MAX by {
                    assert(next_id(old_next, k) + count_in(node@, k - d) <= usize::MAX);
                }
            }
            let ops = number_nodes(operations, d + 1, next);
            NumberedNode::Loop { id, operations: ops }
        },
        NumberedNode::Operation { data, .. } => {
            proof {
                assert(next_id(next@, d as int) + count_in(node@, 0) <= usize::MAX);
            }
            let id = if d < next.len() { next[d] } else { 0 };
            bump_counter(next, d);
            NumberedNode::Operation { id, data: *data }
        },
    }
}

fn number_nodes(nodes: &Vec<NumberedNode>, d: usize, next: &mut Vec<usize>) -> (r: Vec<NumberedNode>)
    requires
        d <= old(next).len(),
        forall|k: int| d <= k ==> #[trigger] next_id(old(next)@, k) + count_at(num_trees_of(nodes@), k - d) <= usize::MAX,
    ensures
        (num_trees_of(r@), final(next)@) == number_forest(num_trees_of(nodes@), d as int, old(next)@),
    decreases nodes,
{
    let ghost f = num_trees_of(nodes@);
    let ghost init = next@;
    let mut out: Vec<NumberedNode> = Vec::new();
    let mut i: usize = 0;
    proof {
        lemma_num_trees_of_index(nodes@);
        assert(f.take(0) =~= Seq::<NumTree>::empty());
    }
    while i < nodes.len()
        invariant
            i <= nodes.len(),
            f == num_trees_of(nodes@),
            f.len() == nodes.len(),
            forall|j: int| 0 <= j < nodes.len() ==> #[trigger] f[j] == num_tree_of(nodes@[j]),
            d <= init.len(),
            forall|k: int| d <= k ==> #[trigger] next_id(init, k) + count_at(f, k - d) <= usize::MAX,
            (num_trees_of(out@), next@) == number_forest(f.take(i as int), d as int, init),
        decreases nodes.len() - i,
    {
        let ghost t = f[i as int];
        let ghost fi = f.take(i as int);
        proof {
            assert(f.take(i + 1).drop_last() =~= fi);
            assert(f.take(i + 1).last() == t);
            assert forall|k: int| d <= k implies #[trigger] next_id(init, k) + count_at(f.take(i + 1), k - d) <= usize::MAX by {
                lemma_count_prefix(f, i + 1, k - d);
            }
            lemma_count_forest(f.take(i + 1), d as int, init);
            lemma_count_forest(fi, d as int, init);
            assert forall|k: int| d <= k implies #[trigger] next_id(next@, k) + count_in(t, k - d) <= usize::MAX by {
                assert(next_id(number_forest(f.take(i + 1), d as int, init).1, k) == next_id(init, k) + count_at(f.take(i + 1), k - d));
            }
        }
        let ghost old_out = out@;
        let n = number_node(&nodes[i], d, next);
        out.push(n);
        proof {
            lemma_num_trees_of_push(old_out, n);
        }
        i += 1;
    }
    assert(f.take(i as int) =~= f);
    out
}

proof fn lemma_height_tree(t: NumTree)
    ensures
        forall|k: int| height(t) <= k ==> #[trigger] count_in(t, k) == 0,
    decreases t,
{
    match t {
        NumTree::Root(ts) => {
            lemma_height_forest(ts);
            assert forall|k: int| height(t) <= k implies #[trigger] count_in(t, k) == 0 by {
                assert(count_at(ts, k) == 0);
            }
        },
        NumTree::Loop { operations, .. } => {
            lemma_height_forest(operations);
            assert forall|k: int| height(t) <= k implies #[trigger] count_in(t, k) == 0 by {
                assert(count_at(operations, k - 1) == 0);
            }
        },
        NumTree::Operation { .. } => {},
    }
}

proof fn lemma_height_forest(f: Seq<NumTree>)
    ensures
        forall|k: int| height_all(f) <= k ==> #[trigger] count_at(f, k) == 0,
    decreases f,
{
    if f.len() > 0 {
        lemma_height_forest(f.drop_last());
        lemma_height_tree(f.last());
        assert forall|k: int| height_all(f) <= k implies #[trigger] count_at(f, k) == 0 by {
            assert(count_at(f.drop_last(), k) == 0);
            assert(count_in(f.last(), k) == 0);
        }
    }
}

proof fn lemma_first_id_bound(f: Seq<NumTree>, k: int)
    requires
        0 <= k,
    ensures
        first_id(f, k) <= node_count(f),
        k < height_all(f) ==> first_id(f, k) + count_at(f, k) <= node_count(f),
    decreases if k >= height_all(f) { k - height_all(f) } else { height_all(f) - k },
{
    lemma_height_forest(f);
    lemma_node_count_by_levels(f, height_all(f) as int);
    if k > height_all(f) {
        lemma_first_id_bound(f, k - 1);
        assert(count_at(f, k - 1) == 0);
    } else if k < height_all(f) {
        lemma_first_id_bound(f, k + 1);
        assert(first_id(f, k + 1) == first_id(f, k) + count_at(f, k));
    }
}

impl NumberedNode {
    /// Gives each node of a root's tree its id, breadth-first from 0, and
    /// returns how many ids were given. Anything else is left as it is.
    pub fn numerize(root_node: &mut Self) -> (r: usize)
        requires
            old(root_node)@ matches NumTree::Root(f) ==> node_count(f) <= usize::MAX,
        ensures
            final(root_node)@ == numbered(old(root_node)@),
            r == match old(root_node)@ {
                NumTree::Root(f) => node_count(f),
                _ => 0,
            },
    {
        let ghost t = root_node@;
        let numbered_nodes = match root_node {
            NumberedNode::Root(nodes) => {
                let ghost f = num_trees_of(nodes@);
                let mut counts: Vec<usize> = Vec::new();
                proof {
                    lemma_height_forest(f);
                    assert forall|k: int| 0 <= k implies #[trigger] next_id(counts@, k) + count_at(f, k - 0) <= usize::MAX by {
                        lemma_first_id_bound(f, k);
                        lemma_first_id_bound(f, k + 1);
                        if k >= height_all(f) {
                            assert(count_at(f, k) == 0);
                        }
                    }
                }
                let ghost empty = counts@;
                let _ = number_nodes(nodes, 0, &mut counts);
                proof {
                    lemma_count_forest(f, 0, empty);
                }
                assert(counts@.len() == height_all(f));
                let mut ids: Vec<usize> = Vec::new();
                let mut sum: usize = 0;
                let mut k: usize = 0;
                while k < counts.len()
                    invariant
                        k <= counts.len(),
                        counts@.len() == height_all(f),
                        forall|j: int| 0 <= j ==> #[trigger] next_id(counts@, j) == count_at(f, j),
                        sum == first_id(f, k as int),
                        ids@ =~= Seq::new(k as nat, |d: int| first_id(f, d) as usize),
                        node_count(f) <= usize::MAX,
                    decreases counts.len() - k,
                {
                    proof {
                        lemma_first_id_bound(f, k as int);
                        assert(next_id(counts@, k as int) == count_at(f, k as int));
                    }
                    ids.push(sum);
                    sum = sum + counts[k];
                    k += 1;
                }
                assert(ids@ =~= first_ids(f));
                proof {
                    lemma_node_count_by_levels(f, height_all(f) as int);
                }
                proof {
                    assert forall|k: int| 0 <= k implies #[trigger] next_id(ids@, k) + count_at(f, k - 0) <= usize::MAX by {
                        lemma_first_id_bound(f, k);
                        lemma_first_id_bound(f, k + 1);
                        if k >= height_all(f) {
                            assert(count_at(f, k) == 0);
                        }
                    }
                }
                let numbered_nodes = number_nodes(nodes, 0, &mut ids);
                Some((numbered_nodes, sum))
            },
            _ => None,
        };
        match numbered_nodes {
            Some((v, n)) => {
                *root_node = NumberedNode::Root(v);
                n
            },
            None => 0,
        }
    }
}

/// Every id in `t` is below `bound`.
pub open spec fn ids_below(t: NumTree, bound: int) -> bool
    decreases t,
{
    match t {
        NumTree::Root(f) => all_ids_below(f, bound),
        NumTree::Loop { id, operations } => id < bound && all_ids_below(operations, bound),
        NumTree::Operation { id, .. } => id < bound,
    }
}

pub open spec fn all_ids_below(f: Seq<NumTree>, bound: int) -> bool
    decreases f,
{
    f.len() == 0 || (all_ids_below(f.drop_last(), bound) && ids_below(f.last(), bound))
}

proof fn lemma_ids_tree(t: NumTree, d: int, next: Seq<usize>, bound: int)
    requires
        0 <= d <= next.len(),
        forall|k: int| d <= k ==> #[trigger] next_id(next, k) + count_in(t, k - d) <= usize::MAX,
        forall|k: int| d <= k ==> #[trigger] next_id(number_tree(t, d, next).1, k) <= bound,
    ensures
        ids_below(number_tree(t, d, next).0, bound),
    decreases t,
{
    lemma_count_tree(t, d, next);
    match t {
        NumTree::Root(ts) => {
            lemma_ids_forest(ts, d, next, bound);
        },
        NumTree::Loop { operations, .. } => {
            let b = bump(next, d);
            assert forall|k: int| d + 1 <= k implies #[trigger] next_id(b, k) + count_at(operations, k - (d + 1)) <= usize::MAX by {
                assert(next_id(next, k) + count_in(t, k - d) <= usize::MAX);
            }
            lemma_count_forest(operations, d + 1, b);
            assert(next_id(number_tree(t, d, next).1, d) <= bound);
            lemma_ids_forest(operations, d + 1, b, bound);
        },
        NumTree::Operation { .. } => {
            assert(next_id(number_tree(t, d, next).1, d) <= bound);
        },
    }
}

proof fn lemma_ids_forest(f: Seq<NumTree>, d: int, next: Seq<usize>, bound: int)
    requires
        0 <= d <= next.len(),
        forall|k: int| d <= k ==> #[trigger] next_id(next, k) + count_at(f, k - d) <= usize::MAX,
        forall|k: int| d <= k ==> #[trigger] next_id(number_forest(f, d, next).1, k) <= bound,
    ensures
        all_ids_below(number_forest(f, d, next).0, bound),
    decreases f,
{
    if f.len() > 0 {
        let g = f.drop_last();
        let t = f.last();
        assert forall|k: int| d <= k implies #[trigger] next_id(next, k) + count_at(g, k - d) <= usize::MAX by {
            assert(next_id(next, k) + count_at(f, k - d) <= usize::MAX);
        }
        lemma_count_forest(g, d, next);
        let n1 = number_forest(g, d, next).1;
        assert forall|k: int| d <= k implies #[trigger] next_id(n1, k) + count_in(t, k - d) <= usize::MAX by {
            assert(next_id(next, k) + count_at(f, k - d) <= usize::MAX);
        }
        lemma_count_tree(t, d, n1);
        assert forall|k: int| d <= k implies #[trigger] next_id(n1, k) <= bound by {
            assert(next_id(number_forest(f, d, next).1, k) <= bound);
        }
        lemma_ids_forest(g, d, next, bound);
        assert(number_forest(f, d, next).1 == number_tree(t, d, n1).1);
        lemma_ids_tree(t, d, n1, bound);
        let r = number_forest(f, d, next).0;
        assert(r.drop_last() =~= number_forest(g, d, next).0);
    }
}

/// Every id of the numbered tree of a root is below its node count.
pub(crate) proof fn lemma_numbered_ids(f: Seq<NumTree>)
    requires
        node_count(f) <= usize::MAX,
    ensures
        all_ids_below(number_forest(f, 0, first_ids(f)).0, node_count(f) as int),
{
    let ids = first_ids(f);
    lemma_height_forest(f);
    assert forall|k: int| 0 <= k implies #[trigger] next_id(ids, k) + count_at(f, k - 0) <= usize::MAX by {
        lemma_first_id_bound(f, k);
        if k >= height_all(f) {
            assert(count_at(f, k) == 0);
        }
    }
    lemma_count_forest(f, 0, ids);
    assert forall|k: int| 0 <= k implies #[trigger] next_id(number_forest(f, 0, ids).1, k) <= node_count(f) by {
        lemma_first_id_bound(f, k);
        if k >= height_all(f) {
            assert(count_at(f, k) == 0);
        }
    }
    lemma_ids_forest(f, 0, ids, node_count(f) as int);
}

/// `t` with every id 0: its shape and instructions alone.
pub open spec fn erase(t: NumTree) -> NumTree
    decreases t,
{
    match t {
        NumTree::Root(f) => NumTree::Root(erase_all(f)),
        NumTree::Loop { operations, .. } => NumTree::Loop { id: 0, operations: erase_all(operations) },
        NumTree::Operation { data, .. } => NumTree::Operation { id: 0, data },
    }
}

pub open spec fn erase_all(f: Seq<NumTree>) -> Seq<NumTree>
    decreases f,
{
    if f.len() == 0 {
        Seq::empty()
    } else {
        erase_all(f.drop_last()).push(erase(f.last()))
    }
}

proof fn lemma_push_eq<A>(s1: Seq<A>, x: A, s2: Seq<A>, y: A)
    requires
        s1.push(x) == s2.push(y),
    ensures
        s1 == s2,
        x == y,
{
    assert(s1 =~= s1.push(x).drop_last());
    assert(s2 =~= s2.push(y).drop_last());
    assert(s1.push(x).last() == x);
    assert(s2.push(y).last() == y);
}

proof fn lemma_erase_all_len(f: Seq<NumTree>)
    ensures
        erase_all(f).len() == f.len(),
    decreases f.len(),
{
    if f.len() > 0 {
        lemma_erase_all_len(f.drop_last());
    }
}

/// Numbering keeps the shape and the instructions.
proof fn lemma_number_tree_shape(t: NumTree, d: int, next: Seq<usize>)
    ensures
        erase(number_tree(t, d, next).0) == erase(t),
    decreases t,
{
    match t {
        NumTree::Root(f) => lemma_number_forest_shape(f, d, next),
        NumTree::Loop { operations, .. } => lemma_number_forest_shape(operations, d + 1, bump(next, d)),
        NumTree::Operation { .. } => {},
    }
}

proof fn lemma_number_forest_shape(f: Seq<NumTree>, d: int, next: Seq<usize>)
    ensures
        erase_all(number_forest(f, d, next).0) == erase_all(f),
    decreases f,
{
    if f.len() > 0 {
        let n1 = number_forest(f.drop_last(), d, next).1;
        lemma_number_forest_shape(f.drop_last(), d, next);
        lemma_number_tree_shape(f.last(), d, n1);
        let r = number_forest(f, d, next).0;
        assert(r.drop_last() =~= number_forest(f.drop_last(), d, next).0);
    }
}

/// Numbering looks at the shape and the instructions alone.
proof fn lemma_number_tree_ignores_ids(t1: NumTree, t2: NumTree, d: int, next: Seq<usize>)
    requires
        erase(t1) == erase(t2),
    ensures
        number_tree(t1, d, next) == number_tree(t2, d, next),
        forall|k: int| #[trigger] count_in(t1, k) == count_in(t2, k),
        height(t1) == height(t2),
    decreases t1,
{
    match t1 {
        NumTree::Root(f1) => {
            assert(t2 is Root);
            let f2 = t2->Root_0;
            lemma_number_forest_ignores_ids(f1, f2, d, next);
            assert forall|k: int| #[trigger] count_in(t1, k) == count_in(t2, k) by {
                assert(count_at(f1, k) == count_at(f2, k));
            }
        },
        NumTree::Loop { operations, .. } => {
            assert(t2 is Loop);
            let f2 = t2->operations;
            lemma_number_forest_ignores_ids(operations, f2, d + 1, bump(next, d));
            assert forall|k: int| #[trigger] count_in(t1, k) == count_in(t2, k) by {
                assert(count_at(operations, k - 1) == count_at(f2, k - 1));
            }
        },
        NumTree::Operation { .. } => {
            assert(t2 is Operation);
        },
    }
}

proof fn lemma_number_forest_ignores_ids(f1: Seq<NumTree>, f2: Seq<NumTree>, d: int, next: Seq<usize>)
    requires
        erase_all(f1) == erase_all(f2),
    ensures
        number_forest(f1, d, next) == number_forest(f2, d, next),
        forall|k: int| #[trigger] count_at(f1, k) == count_at(f2, k),
        height_all(f1) == height_all(f2),
    decreases f1,
{
    lemma_erase_all_len(f1);
    lemma_erase_all_len(f2);
    if f1.len() > 0 {
        lemma_push_eq(erase_all(f1.drop_last()), erase(f1.last()), erase_all(f2.drop_last()), erase(f2.last()));
        lemma_number_forest_ignores_ids(f1.drop_last(), f2.drop_last(), d, next);
        let n1 = number_forest(f1.drop_last(), d, next).1;
        lemma_number_tree_ignores_ids(f1.last(), f2.last(), d, n1);
        assert forall|k: int| #[trigger] count_at(f1, k) == count_at(f2, k) by {
            assert(count_in(f1.last(), k) == count_in(f2.last(), k));
            assert(count_at(f1.drop_last(), k) == count_at(f2.drop_last(), k));
        }
    }
}

/// Numbering a numbered tree again gives every node the id it already has.
pub proof fn lemma_numbering_is_stable(t: NumTree)
    ensures
        numbered(numbered(t)) == numbered(t),
{
    if let NumTree::Root(f) = t {
        let g = number_forest(f, 0, first_ids(f)).0;
        lemma_number_forest_shape(f, 0, first_ids(f));
        lemma_number_forest_ignores_ids(g, f, 0, first_ids(f));
        assert forall|d: int| #[trigger] first_id(g, d) == first_id(f, d) by {
            lemma_first_id_same(g, f, d);
        }
        assert(first_ids(g) =~= first_ids(f));
    }
}

proof fn lemma_first_id_same(f1: Seq<NumTree>, f2: Seq<NumTree>, d: int)
    requires
        forall|k: int| #[trigger] count_at(f1, k) == count_at(f2, k),
    ensures
        first_id(f1, d) == first_id(f2, d),
    decreases d,
{
    if d > 0 {
        lemma_first_id_same(f1, f2, d - 1);
        assert(count_at(f1, d - 1) == count_at(f2, d - 1));
    }
}

} // verus!
