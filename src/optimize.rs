//! The two peephole passes over the program tree.

use vstd::prelude::*;

use crate::tree::{
    Node,
    Tree,
    copy_node,
    copy_nodes,
    lemma_trees_of_index,
    lemma_trees_of_push,
    tree_of,
    trees_of,
};

verus! {

/// `a + b` in the cell arithmetic, modulo 256.
pub open spec fn add_wrapped(a: u8, b: u8) -> u8 {
    ((a + b) % 256) as u8
}

/// Whether two cursor moves merge into one: their sum must still fit.
pub open spec fn fits(a: usize, b: usize) -> bool {
    a + b <= usize::MAX
}

/// One step of the series pass: what the emitted sequence `acc` becomes when
/// `t` is the next node of the input.
pub open spec fn absorb(acc: Seq<Tree>, t: Tree) -> Seq<Tree>
    decreases t,
{
    let n = acc.len();
    let last = acc.last();
    match t {
        Tree::Loop(body) => {
            if n > 0 && last is Loop {
                acc
            } else if body.len() == 0 {
                acc
            } else if series(body).len() == 0 {
                acc
            } else {
                acc.push(Tree::Loop(series(body)))
            }
        },
        Tree::Comment => acc,
        Tree::Inc(a) => match last {
            Tree::Inc(b) if n > 0 => acc.update(n - 1, Tree::Inc(add_wrapped(b, a))),
            _ => acc.push(t),
        },
        Tree::Dec(a) => match last {
            Tree::Dec(b) if n > 0 => acc.update(n - 1, Tree::Dec(add_wrapped(b, a))),
            _ => acc.push(t),
        },
        Tree::IncTapePos(a) => match last {
            Tree::IncTapePos(b) if n > 0 && fits(b, a) => acc.update(
                n - 1,
                Tree::IncTapePos((b + a) as usize),
            ),
            _ => acc.push(t),
        },
        Tree::DecTapePos(a) => match last {
            Tree::DecTapePos(b) if n > 0 && fits(b, a) => acc.update(
                n - 1,
                Tree::DecTapePos((b + a) as usize),
            ),
            _ => acc.push(t),
        },
        _ => acc.push(t),
    }
}

/// The series pass over a sequence of siblings, left to right.
pub open spec fn series(ts: Seq<Tree>) -> Seq<Tree>
    decreases ts,
{
    if ts.len() == 0 {
        Seq::empty()
    } else {
        absorb(series(ts.drop_last()), ts.last())
    }
}

/// The series pass applied to one node.
pub open spec fn series_of(t: Tree) -> Tree {
    match t {
        Tree::Root(ts) => Tree::Root(series(ts)),
        Tree::Loop(ts) => Tree::Loop(series(ts)),
        _ => t,
    }
}

proof fn lemma_series_push(ts: Seq<Tree>, t: Tree)
    ensures
        series(ts.push(t)) == absorb(series(ts), t),
{
    assert(ts.push(t).drop_last() =~= ts);
}

fn series_nodes(nodes: &Vec<Node>) -> (r: Vec<Node>)
    ensures
        trees_of(r@) == series(trees_of(nodes@)),
    decreases nodes,
{
    let mut out: Vec<Node> = Vec::with_capacity(nodes.len());
    let mut i: usize = 0;
    proof {
        lemma_trees_of_index(nodes@);
        assert(trees_of(nodes@).take(0) =~= Seq::<Tree>::empty());
    }
    while i < nodes.len()
        invariant
            i <= nodes.len(),
            trees_of(nodes@).len() == nodes.len(),
            forall|j: int| 0 <= j < nodes.len() ==> #[trigger] trees_of(nodes@)[j] == tree_of(nodes@[j]),
            trees_of(out@) == series(trees_of(nodes@).take(i as int)),
        decreases nodes.len() - i,
    {
        let ghost acc = trees_of(out@);
        let ghost t = tree_of(nodes@[i as int]);
        proof {
            lemma_series_push(trees_of(nodes@).take(i as int), t);
            assert(trees_of(nodes@).take(i + 1) =~= trees_of(nodes@).take(i as int).push(t));
            lemma_trees_of_index(out@);
        }
        let n = out.len();
        let node = &nodes[i];
        let follows_loop = n > 0 && matches!(out[n - 1], Node::Loop(_));
        match node {
            Node::Loop(body) => {
                if follows_loop || body.len() == 0 {
                    proof {
                        lemma_trees_of_index(body@);
                    }
                } else {
                    let ob = series_nodes(body);
                    if ob.len() > 0 {
                        let ghost old_out = out@;
                        let l = Node::Loop(ob);
                        out.push(l);
                        proof {
                            lemma_trees_of_push(old_out, l);
                            lemma_trees_of_index(ob@);
                        }
                    } else {
                        proof {
                            lemma_trees_of_index(ob@);
                        }
                    }
                }
            },
            Node::Comment => {},
            Node::Inc(a) => {
                if n > 0 && matches!(out[n - 1], Node::Inc(_)) {
                    let b = match out[n - 1] { Node::Inc(b) => b, _ => 0 };
                    let sum = b.wrapping_add(*a);
                    out.set(n - 1, Node::Inc(sum));
                    proof {
                        lemma_trees_of_index(out@);
                        assert(trees_of(out@) =~= acc.update(n - 1, Tree::Inc(add_wrapped(b, *a))));
                    }
                } else {
                    let ghost old_out = out@;
                    let c = copy_node(node);
                    out.push(c);
                    proof { lemma_trees_of_push(old_out, c); }
                }
            },
            Node::Dec(a) => {
                if n > 0 && matches!(out[n - 1], Node::Dec(_)) {
                    let b = match out[n - 1] { Node::Dec(b) => b, _ => 0 };
                    let sum = b.wrapping_add(*a);
                    out.set(n - 1, Node::Dec(sum));
                    proof {
                        lemma_trees_of_index(out@);
                        assert(trees_of(out@) =~= acc.update(n - 1, Tree::Dec(add_wrapped(b, *a))));
                    }
                } else {
                    let ghost old_out = out@;
                    let c = copy_node(node);
                    out.push(c);
                    proof { lemma_trees_of_push(old_out, c); }
                }
            },
            Node::IncTapePos(a) => {
                let b = if n > 0 { match out[n - 1] { Node::IncTapePos(b) => b, _ => 0 } } else { 0 };
                if n > 0 && matches!(out[n - 1], Node::IncTapePos(_)) && b <= usize::MAX - *a {
                    out.set(n - 1, Node::IncTapePos(b + *a));
                    proof {
                        lemma_trees_of_index(out@);
                        assert(trees_of(out@) =~= acc.update(n - 1, Tree::IncTapePos((b + *a) as usize)));
                    }
                } else {
                    let ghost old_out = out@;
                    let c = copy_node(node);
                    out.push(c);
                    proof { lemma_trees_of_push(old_out, c); }
                }
            },
            Node::DecTapePos(a) => {
                let b = if n > 0 { match out[n - 1] { Node::DecTapePos(b) => b, _ => 0 } } else { 0 };
                if n > 0 && matches!(out[n - 1], Node::DecTapePos(_)) && b <= usize::MAX - *a {
                    out.set(n - 1, Node::DecTapePos(b + *a));
                    proof {
                        lemma_trees_of_index(out@);
                        assert(trees_of(out@) =~= acc.update(n - 1, Tree::DecTapePos((b + *a) as usize)));
                    }
                } else {
                    let ghost old_out = out@;
                    let c = copy_node(node);
                    out.push(c);
                    proof { lemma_trees_of_push(old_out, c); }
                }
            },
            _ => {
                let ghost old_out = out@;
                let c = copy_node(node);
                out.push(c);
                proof { lemma_trees_of_push(old_out, c); }
            },
        }
        i += 1;
    }
    assert(trees_of(nodes@).take(i as int) =~= trees_of(nodes@));
    out
}

impl Node {
    /// The series pass: merges runs of like operations and drops comments,
    /// empty loops and loops that directly follow a loop, at every depth.
    pub fn optimize_series(&self) -> (r: Node)
        ensures
            r@ == series_of(self@),
    {
        match self {
            Node::Root(nodes) => Node::Root(series_nodes(nodes)),
            Node::Loop(nodes) => Node::Loop(series_nodes(nodes)),
            _ => copy_node(self),
        }
    }
}

/// The composite operation that stands for a loop with the four-node body
/// `a b c d`, if it has one of the recognized shapes.
pub open spec fn pattern4(a: Tree, b: Tree, c: Tree, d: Tree) -> Option<Tree> {
    match (a, b, c, d) {
        (Tree::IncTapePos(r), Tree::Inc(1), Tree::DecTapePos(l), Tree::Dec(1)) if r == l => Some(
            Tree::AddToTheRightAndClear(r),
        ),
        (Tree::Dec(1), Tree::IncTapePos(r), Tree::Inc(1), Tree::DecTapePos(l)) if r == l => Some(
            Tree::AddToTheRightAndClear(r),
        ),
        (Tree::IncTapePos(r), Tree::Dec(1), Tree::DecTapePos(l), Tree::Dec(1)) if r == l => Some(
            Tree::DecFromTheRightAndClear(r),
        ),
        (Tree::Dec(1), Tree::IncTapePos(r), Tree::Dec(1), Tree::DecTapePos(l)) if r == l => Some(
            Tree::DecFromTheRightAndClear(r),
        ),
        (Tree::DecTapePos(l), Tree::Inc(1), Tree::IncTapePos(r), Tree::Dec(1)) if r == l => Some(
            Tree::AddToTheLeftAndClear(l),
        ),
        (Tree::Dec(1), Tree::DecTapePos(l), Tree::Inc(1), Tree::IncTapePos(r)) if r == l => Some(
            Tree::AddToTheLeftAndClear(l),
        ),
        (Tree::DecTapePos(l), Tree::Dec(1), Tree::IncTapePos(r), Tree::Dec(1)) if r == l => Some(
            Tree::DecFromTheLeftAndClear(l),
        ),
        (Tree::Dec(1), Tree::DecTapePos(l), Tree::Dec(1), Tree::IncTapePos(r)) if r == l => Some(
            Tree::DecFromTheLeftAndClear(l),
        ),
        _ => None,
    }
}

/// The composite operation that stands for a loop with body `body`, if the
/// body has one of the recognized shapes.
pub open spec fn pattern(body: Seq<Tree>) -> Option<Tree> {
    if body.len() == 1 {
        match body[0] {
            Tree::Dec(1) => Some(Tree::Clear),
            Tree::Inc(1) => Some(Tree::Clear),
            Tree::IncTapePos(1) => Some(Tree::IncTapePosUntilEmpty),
            Tree::DecTapePos(1) => Some(Tree::DecTapePosUntilEmpty),
            _ => None,
        }
    } else if body.len() == 4 {
        pattern4(body[0], body[1], body[2], body[3])
    } else {
        None
    }
}

/// The pattern pass: each loop whose body has a recognized shape becomes its
/// composite operation; the other loops keep their shape, with their bodies
/// rewritten in turn.
pub open spec fn loops(t: Tree) -> Tree
    decreases t,
{
    match t {
        Tree::Root(ts) => Tree::Root(loops_all(ts)),
        Tree::Loop(body) => match pattern(body) {
            Some(r) => r,
            None => Tree::Loop(loops_all(body)),
        },
        _ => t,
    }
}

/// The pattern pass applied to each node of `ts`.
pub open spec fn loops_all(ts: Seq<Tree>) -> Seq<Tree>
    decreases ts,
{
    if ts.len() == 0 {
        Seq::empty()
    } else {
        loops_all(ts.drop_last()).push(loops(ts.last()))
    }
}

fn match_pattern4(a: &Node, b: &Node, c: &Node, d: &Node) -> (r: Option<Node>)
    ensures
        match r {
            Some(n) => pattern4(a@, b@, c@, d@) == Some(n@),
            None => pattern4(a@, b@, c@, d@) is None,
        },
{
    match (a, b, c, d) {
        (Node::IncTapePos(r), Node::Inc(1), Node::DecTapePos(l), Node::Dec(1)) if *r == *l => Some(
            Node::AddToTheRightAndClear(*r),
        ),
        (Node::Dec(1), Node::IncTapePos(r), Node::Inc(1), Node::DecTapePos(l)) if *r == *l => Some(
            Node::AddToTheRightAndClear(*r),
        ),
        (Node::IncTapePos(r), Node::Dec(1), Node::DecTapePos(l), Node::Dec(1)) if *r == *l => Some(
            Node::DecFromTheRightAndClear(*r),
        ),
        (Node::Dec(1), Node::IncTapePos(r), Node::Dec(1), Node::DecTapePos(l)) if *r == *l => Some(
            Node::DecFromTheRightAndClear(*r),
        ),
        (Node::DecTapePos(l), Node::Inc(1), Node::IncTapePos(r), Node::Dec(1)) if *r == *l => Some(
            Node::AddToTheLeftAndClear(*l),
        ),
        (Node::Dec(1), Node::DecTapePos(l), Node::Inc(1), Node::IncTapePos(r)) if *r == *l => Some(
            Node::AddToTheLeftAndClear(*l),
        ),
        (Node::DecTapePos(l), Node::Dec(1), Node::IncTapePos(r), Node::Dec(1)) if *r == *l => Some(
            Node::DecFromTheLeftAndClear(*l),
        ),
        (Node::Dec(1), Node::DecTapePos(l), Node::Dec(1), Node::IncTapePos(r)) if *r == *l => Some(
            Node::DecFromTheLeftAndClear(*l),
        ),
        _ => None,
    }
}

fn match_pattern(body: &Vec<Node>) -> (r: Option<Node>)
    ensures
        match r {
            Some(n) => pattern(trees_of(body@)) == Some(n@),
            None => pattern(trees_of(body@)) is None,
        },
{
    proof {
        lemma_trees_of_index(body@);
    }
    if body.len() == 1 {
        match &body[0] {
            Node::Dec(1) => Some(Node::Clear),
            Node::Inc(1) => Some(Node::Clear),
            Node::IncTapePos(1) => Some(Node::IncTapePosUntilEmpty),
            Node::DecTapePos(1) => Some(Node::DecTapePosUntilEmpty),
            _ => None,
        }
    } else if body.len() == 4 {
        match_pattern4(&body[0], &body[1], &body[2], &body[3])
    } else {
        None
    }
}

fn loops_nodes(nodes: &Vec<Node>) -> (r: Vec<Node>)
    ensures
        trees_of(r@) == loops_all(trees_of(nodes@)),
    decreases nodes,
{
    let mut out: Vec<Node> = Vec::with_capacity(nodes.len());
    let mut i: usize = 0;
    proof {
        lemma_trees_of_index(nodes@);
        assert(trees_of(nodes@).take(0) =~= Seq::<Tree>::empty());
    }
    while i < nodes.len()
        invariant
            i <= nodes.len(),
            trees_of(nodes@).len() == nodes.len(),
            forall|j: int| 0 <= j < nodes.len() ==> #[trigger] trees_of(nodes@)[j] == tree_of(nodes@[j]),
            trees_of(out@) == loops_all(trees_of(nodes@).take(i as int)),
        decreases nodes.len() - i,
    {
        let ghost t = tree_of(nodes@[i as int]);
        proof {
            let ts = trees_of(nodes@).take(i as int);
            assert(ts.push(t).drop_last() =~= ts);
            assert(trees_of(nodes@).take(i + 1) =~= ts.push(t));
        }
        let r = loops_node(&nodes[i]);
        let ghost old_out = out@;
        out.push(r);
        proof {
            lemma_trees_of_push(old_out, r);
        }
        i += 1;
    }
    assert(trees_of(nodes@).take(i as int) =~= trees_of(nodes@));
    out
}

fn loops_node(node: &Node) -> (r: Node)
    ensures
        r@ == loops(node@),
    decreases node,
{
    match node {
        Node::Root(nodes) => Node::Root(loops_nodes(nodes)),
        Node::Loop(body) => match match_pattern(body) {
            Some(r) => r,
            None => Node::Loop(loops_nodes(body)),
        },
        _ => copy_node(node),
    }
}

impl Node {
    /// The pattern pass: rewrites each loop of a recognized shape into the
    /// composite operation that does the same in one step.
    pub fn optimize_loops(&self) -> (r: Node)
        ensures
            r@ == loops(self@),
    {
        loops_node(self)
    }
}

/// Both passes, series first.
pub open spec fn optimized(t: Tree) -> Tree {
    loops(series_of(t))
}

/// An empty loop changes nothing that the series pass emits.
proof fn lemma_series_skips_empty_loop(a: Seq<Tree>, b: Seq<Tree>)
    ensures
        series(a.push(Tree::Loop(Seq::empty())) + b) == series(a + b),
    decreases b.len(),
{
    let e = Tree::Loop(Seq::empty());
    if b.len() == 0 {
        assert(a.push(e) + b =~= a.push(e));
        assert(a + b =~= a);
        lemma_series_push(a, e);
    } else {
        lemma_series_skips_empty_loop(a, b.drop_last());
        assert((a.push(e) + b).drop_last() =~= a.push(e) + b.drop_last());
        assert((a + b).drop_last() =~= a + b.drop_last());
    }
}

/// A loop right after an empty loop is treated as if the empty loop were
/// not there: the optimized tree is the same with or without it.
pub proof fn lemma_empty_loop_is_transparent(a: Seq<Tree>, b: Seq<Tree>)
    ensures
        optimized(Tree::Root(a + seq![Tree::Loop(Seq::empty())] + b)) == optimized(
            Tree::Root(a + b),
        ),
{
    assert(a + seq![Tree::Loop(Seq::empty())] + b =~= a.push(Tree::Loop(Seq::empty())) + b);
    lemma_series_skips_empty_loop(a, b);
}

/// `t` without its comments, at every depth of its loops.
pub open spec fn strip(t: Tree) -> Seq<Tree>
    decreases t,
{
    match t {
        Tree::Comment => Seq::empty(),
        Tree::Loop(b) => seq![Tree::Loop(strip_all(b))],
        _ => seq![t],
    }
}

pub open spec fn strip_all(ts: Seq<Tree>) -> Seq<Tree>
    decreases ts,
{
    if ts.len() == 0 {
        Seq::empty()
    } else {
        strip_all(ts.drop_last()) + strip(ts.last())
    }
}

/// The series pass gives the same siblings whether or not the comments were
/// removed first.
pub proof fn lemma_series_ignores_comments(ts: Seq<Tree>)
    ensures
        series(strip_all(ts)) == series(ts),
    decreases ts,
{
    if ts.len() > 0 {
        let g = ts.drop_last();
        let t = ts.last();
        lemma_series_ignores_comments(g);
        match t {
            Tree::Comment => {
                assert(strip_all(ts) == strip_all(g) + strip(t));
                assert(strip(t) =~= Seq::<Tree>::empty());
                assert(strip_all(ts) =~= strip_all(g));
                assert(series(ts) == absorb(series(g), t));
            },
            Tree::Loop(body) => {
                lemma_series_ignores_comments(body);
                lemma_series_push(strip_all(g), Tree::Loop(strip_all(body)));
                assert(strip_all(ts) == strip_all(g) + strip(t));
                assert(strip(t) == seq![Tree::Loop(strip_all(body))]);
                assert(strip_all(ts) =~= strip_all(g).push(Tree::Loop(strip_all(body))));
                if body.len() == 0 {
                    assert(strip_all(body) =~= Seq::<Tree>::empty());
                }
                if strip_all(body).len() == 0 {
                    assert(strip_all(body) =~= Seq::<Tree>::empty());
                    assert(series(strip_all(body)) =~= Seq::<Tree>::empty());
                }
                assert(series(ts) == absorb(series(g), t));
                assert(series(strip_all(ts)) == absorb(series(strip_all(g)), Tree::Loop(strip_all(body))));
            },
            _ => {
                lemma_series_push(strip_all(g), t);
                assert(strip_all(ts) == strip_all(g) + strip(t));
                assert(strip(t) == seq![t]);
                assert(strip_all(ts) =~= strip_all(g).push(t));
            },
        }
    }
}

} // verus!
