//! The program tree and its mathematical value.

use vstd::prelude::*;

verus! {

/// A program tree, as parsed and as optimized.
#[derive(PartialEq, Debug)]
pub enum Node {
    /// The whole program.
    Root(Vec<Node>),
    /// Add to the current cell, modulo 256.
    Inc(u8),
    /// Subtract from the current cell, modulo 256.
    Dec(u8),
    /// Move the cursor right.
    IncTapePos(usize),
    /// Move the cursor left.
    DecTapePos(usize),
    /// Move the cursor right until it stands on a zero cell.
    IncTapePosUntilEmpty,
    /// Move the cursor left until it stands on a zero cell.
    DecTapePosUntilEmpty,
    /// Print the current cell.
    PutChar,
    /// Read a byte into the current cell.
    GetChar,
    /// Set the current cell to 0.
    Clear,
    /// Add the current cell to the cell this far right, then clear it.
    AddToTheRightAndClear(usize),
    /// Subtract the current cell from the cell this far right, then clear it.
    DecFromTheRightAndClear(usize),
    /// Add the current cell to the cell this far left, then clear it.
    AddToTheLeftAndClear(usize),
    /// Subtract the current cell from the cell this far left, then clear it.
    DecFromTheLeftAndClear(usize),
    /// A character with no meaning.
    Comment,
    /// Run the body while the current cell is not 0.
    Loop(Vec<Node>),
}

/// The mathematical value of a [`Node`]: the same shape, with sequences in
/// place of vectors.
pub enum Tree {
    Root(Seq<Tree>),
    Inc(u8),
    Dec(u8),
    IncTapePos(usize),
    DecTapePos(usize),
    IncTapePosUntilEmpty,
    DecTapePosUntilEmpty,
    PutChar,
    GetChar,
    Clear,
    AddToTheRightAndClear(usize),
    DecFromTheRightAndClear(usize),
    AddToTheLeftAndClear(usize),
    DecFromTheLeftAndClear(usize),
    Comment,
    Loop(Seq<Tree>),
}

pub open spec fn tree_of(n: Node) -> Tree
    decreases n,
{
    match n {
        Node::Root(v) => Tree::Root(trees_of(v@)),
        Node::Inc(a) => Tree::Inc(a),
        Node::Dec(a) => Tree::Dec(a),
        Node::IncTapePos(a) => Tree::IncTapePos(a),
        Node::DecTapePos(a) => Tree::DecTapePos(a),
        Node::IncTapePosUntilEmpty => Tree::IncTapePosUntilEmpty,
        Node::DecTapePosUntilEmpty => Tree::DecTapePosUntilEmpty,
        Node::PutChar => Tree::PutChar,
        Node::GetChar => Tree::GetChar,
        Node::Clear => Tree::Clear,
        Node::AddToTheRightAndClear(k) => Tree::AddToTheRightAndClear(k),
        Node::DecFromTheRightAndClear(k) => Tree::DecFromTheRightAndClear(k),
        Node::AddToTheLeftAndClear(k) => Tree::AddToTheLeftAndClear(k),
        Node::DecFromTheLeftAndClear(k) => Tree::DecFromTheLeftAndClear(k),
        Node::Comment => Tree::Comment,
        Node::Loop(v) => Tree::Loop(trees_of(v@)),
    }
}

pub open spec fn trees_of(s: Seq<Node>) -> Seq<Tree>
    decreases s,
{
    if s.len() == 0 {
        Seq::empty()
    } else {
        trees_of(s.drop_last()).push(tree_of(s.last()))
    }
}

impl View for Node {
    type V = Tree;

    open spec fn view(&self) -> Tree {
        tree_of(*self)
    }
}

} // verus!

verus! {

pub proof fn lemma_trees_of_index(s: Seq<Node>)
    ensures
        trees_of(s).len() == s.len(),
        forall|i: int| 0 <= i < s.len() ==> #[trigger] trees_of(s)[i] == tree_of(s[i]),
    decreases s.len(),
{
    if s.len() > 0 {
        lemma_trees_of_index(s.drop_last());
    }
}

pub proof fn lemma_trees_of_push(v: Seq<Node>, n: Node)
    ensures
        trees_of(v.push(n)) == trees_of(v).push(tree_of(n)),
{
    assert(v.push(n).drop_last() =~= v);
}

/// A deep copy of `n`.
pub fn copy_node(n: &Node) -> (r: Node)
    ensures
        r@ == n@,
    decreases n,
{
    match n {
        Node::Root(v) => Node::Root(copy_nodes(v)),
        Node::Inc(a) => Node::Inc(*a),
        Node::Dec(a) => Node::Dec(*a),
        Node::IncTapePos(a) => Node::IncTapePos(*a),
        Node::DecTapePos(a) => Node::DecTapePos(*a),
        Node::IncTapePosUntilEmpty => Node::IncTapePosUntilEmpty,
        Node::DecTapePosUntilEmpty => Node::DecTapePosUntilEmpty,
        Node::PutChar => Node::PutChar,
        Node::GetChar => Node::GetChar,
        Node::Clear => Node::Clear,
        Node::AddToTheRightAndClear(k) => Node::AddToTheRightAndClear(*k),
        Node::DecFromTheRightAndClear(k) => Node::DecFromTheRightAndClear(*k),
        Node::AddToTheLeftAndClear(k) => Node::AddToTheLeftAndClear(*k),
        Node::DecFromTheLeftAndClear(k) => Node::DecFromTheLeftAndClear(*k),
        Node::Comment => Node::Comment,
        Node::Loop(v) => Node::Loop(copy_nodes(v)),
    }
}

/// A deep copy of each node of `v`.
pub fn copy_nodes(v: &Vec<Node>) -> (r: Vec<Node>)
    ensures
        trees_of(r@) == trees_of(v@),
    decreases v,
{
    let mut r: Vec<Node> = Vec::new();
    let mut i: usize = 0;
    while i < v.len()
        invariant
            i <= v.len(),
            trees_of(r@) == trees_of(v@.take(i as int)),
        decreases v.len() - i,
    {
        let c = copy_node(&v[i]);
        proof {
            lemma_trees_of_push(r@, c);
            lemma_trees_of_push(v@.take(i as int), v@[i as int]);
            assert(v@.take(i + 1) =~= v@.take(i as int).push(v@[i as int]));
        }
        r.push(c);
        i += 1;
    }
    assert(v@.take(i as int) =~= v@);
    r
}

impl Clone for Node {
    fn clone(&self) -> (r: Node)
        ensures
            r@ == self@,
    {
        copy_node(self)
    }
}

} // verus!
