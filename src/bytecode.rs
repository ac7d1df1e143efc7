//! The flat instruction set, and lowering a tree towards it.

use vstd::prelude::*;

use crate::tree::{Node, Tree, lemma_trees_of_index, tree_of, trees_of};
use crate::layout::linearized;
use crate::numbering::{lemma_numbered_ids, node_count, numbered, size};

verus! {

/// One instruction of the flat program.
#[derive(Copy, Clone, PartialEq, Eq, Debug, Structural)]
pub enum SimOperation {
    Noop,
    Inc(u8),
    Dec(u8),
    IncTapePos(u32),
    DecTapePos(u32),
    IncTapePosUntilEmpty,
    DecTapePosUntilEmpty,
    PutChar,
    GetChar,
    Clear,
    AddToTheRightAndClear(u32),
    DecFromTheRightAndClear(u32),
    AddToTheLeftAndClear(u32),
    DecFromTheLeftAndClear(u32),
    JnzSaveIP { target_ip: u32 },
    JnzRestoreIP { target_ip: u32 },
    EndProgram,
}

/// A program tree on its way to the flat program: each node carries the
/// index of its instruction.
#[derive(PartialEq, Debug)]
pub enum NumberedNode {
    Root(Vec<NumberedNode>),
    Loop { id: usize, operations: Vec<NumberedNode> },
    Operation { id: usize, data: SimOperation },
}

/// The mathematical value of a [`NumberedNode`].
pub enum NumTree {
    Root(Seq<NumTree>),
    Loop { id: usize, operations: Seq<NumTree> },
    Operation { id: usize, data: SimOperation },
}

pub open spec fn num_tree_of(n: NumberedNode) -> NumTree
    decreases n,
{
    match n {
        NumberedNode::Root(v) => NumTree::Root(num_trees_of(v@)),
        NumberedNode::Loop { id, operations } => NumTree::Loop {
            id,
            operations: num_trees_of(operations@),
        },
        NumberedNode::Operation { id, data } => NumTree::Operation { id, data },
    }
}

pub open spec fn num_trees_of(s: Seq<NumberedNode>) -> Seq<NumTree>
    decreases s,
{
    if s.len() == 0 {
        Seq::empty()
    } else {
        num_trees_of(s.drop_last()).push(num_tree_of(s.last()))
    }
}

impl View for NumberedNode {
    type V = NumTree;

    open spec fn view(&self) -> NumTree {
        num_tree_of(*self)
    }
}

pub(crate) proof fn lemma_num_trees_of_index(s: Seq<NumberedNode>)
    ensures
        num_trees_of(s).len() == s.len(),
        forall|i: int| 0 <= i < s.len() ==> #[trigger] num_trees_of(s)[i] == num_tree_of(s[i]),
    decreases s.len(),
{
    if s.len() > 0 {
        lemma_num_trees_of_index(s.drop_last());
    }
}

pub(crate) proof fn lemma_num_trees_of_push(v: Seq<NumberedNode>, n: NumberedNode)
    ensures
        num_trees_of(v.push(n)) == num_trees_of(v).push(num_tree_of(n)),
{
    assert(v.push(n).drop_last() =~= v);
}

/// Every cursor offset and amount of `t` fits an instruction operand, and `t`
/// holds no comment and no nested root.
pub open spec fn lowerable(t: Tree) -> bool
    decreases t,
{
    match t {
        Tree::Root(ts) => lowerable_all(ts),
        Tree::Loop(ts) => lowerable_all(ts),
        Tree::Comment => false,
        Tree::IncTapePos(k) => k <= u32::MAX,
        Tree::DecTapePos(k) => k <= u32::MAX,
        Tree::AddToTheRightAndClear(k) => k <= u32::MAX,
        Tree::DecFromTheRightAndClear(k) => k <= u32::MAX,
        Tree::AddToTheLeftAndClear(k) => k <= u32::MAX,
        Tree::DecFromTheLeftAndClear(k) => k <= u32::MAX,
        _ => true,
    }
}

/// Each node of `ts` is lowerable, and none is a root.
pub open spec fn lowerable_all(ts: Seq<Tree>) -> bool
    decreases ts,
{
    ts.len() == 0 || (lowerable_all(ts.drop_last()) && lowerable(ts.last())
        && ts.last() !is Root)
}

/// The instruction of a leaf node.
pub open spec fn leaf_op(t: Tree) -> SimOperation {
    match t {
        Tree::Inc(a) => SimOperation::Inc(a),
        Tree::Dec(a) => SimOperation::Dec(a),
        Tree::IncTapePos(k) => SimOperation::IncTapePos(k as u32),
        Tree::DecTapePos(k) => SimOperation::DecTapePos(k as u32),
        Tree::IncTapePosUntilEmpty => SimOperation::IncTapePosUntilEmpty,
        Tree::DecTapePosUntilEmpty => SimOperation::DecTapePosUntilEmpty,
        Tree::PutChar => SimOperation::PutChar,
        Tree::GetChar => SimOperation::GetChar,
        Tree::Clear => SimOperation::Clear,
        Tree::AddToTheRightAndClear(k) => SimOperation::AddToTheRightAndClear(k as u32),
        Tree::DecFromTheRightAndClear(k) => SimOperation::DecFromTheRightAndClear(k as u32),
        Tree::AddToTheLeftAndClear(k) => SimOperation::AddToTheLeftAndClear(k as u32),
        Tree::DecFromTheLeftAndClear(k) => SimOperation::DecFromTheLeftAndClear(k as u32),
        _ => SimOperation::Noop,
    }
}

/// A tree with every id 0: the root's children end with `EndProgram`, and each
/// loop body ends with a `Noop` slot, which becomes the loop's back jump.
pub open spec fn lowered(t: Tree) -> NumTree
    decreases t,
{
    match t {
        Tree::Root(ts) => NumTree::Root(
            lowered_all(ts).push(NumTree::Operation { id: 0, data: SimOperation::EndProgram }),
        ),
        Tree::Loop(ts) => NumTree::Loop {
            id: 0,
            operations: lowered_all(ts).push(NumTree::Operation { id: 0, data: SimOperation::Noop }),
        },
        _ => NumTree::Operation { id: 0, data: leaf_op(t) },
    }
}

pub open spec fn lowered_all(ts: Seq<Tree>) -> Seq<NumTree>
    decreases ts,
{
    if ts.len() == 0 {
        Seq::empty()
    } else {
        lowered_all(ts.drop_last()).push(lowered(ts.last()))
    }
}

fn lower_all(nodes: &Vec<Node>) -> (r: Vec<NumberedNode>)
    requires
        lowerable_all(trees_of(nodes@)),
    ensures
        num_trees_of(r@) == lowered_all(trees_of(nodes@)),
    decreases nodes,
{
    let mut out: Vec<NumberedNode> = Vec::new();
    let mut i: usize = 0;
    proof {
        lemma_trees_of_index(nodes@);
        assert(trees_of(nodes@).take(0) =~= Seq::<Tree>::empty());
    }
    while i < nodes.len()
        invariant
            i <= nodes.len(),
            trees_of(nodes@).len() == nodes.len(),
            forall|j: int| 0 <= j < nodes.len() ==> #[trigger] trees_of(nodes@)[j] == tree_of(nodes@[j]),
            lowerable_all(trees_of(nodes@)),
            num_trees_of(out@) == lowered_all(trees_of(nodes@).take(i as int)),
        decreases nodes.len() - i,
    {
        let ghost ts = trees_of(nodes@);
        let ghost t = ts[i as int];
        proof {
            assert(ts.take(i + 1).drop_last() =~= ts.take(i as int));
            lemma_lowerable_prefix(ts, i as int + 1);
        }
        let l = lower(&nodes[i]);
        let ghost old_out = out@;
        out.push(l);
        proof {
            lemma_num_trees_of_push(old_out, l);
        }
        i += 1;
    }
    assert(trees_of(nodes@).take(i as int) =~= trees_of(nodes@));
    out
}

proof fn lemma_lowerable_prefix(ts: Seq<Tree>, k: int)
    requires
        0 <= k <= ts.len(),
        lowerable_all(ts),
    ensures
        lowerable_all(ts.take(k)),
        k > 0 ==> lowerable(ts[k - 1]) && ts[k - 1] !is Root,
    decreases ts.len(),
{
    if k < ts.len() {
        assert(ts.drop_last().take(k) =~= ts.take(k));
        lemma_lowerable_prefix(ts.drop_last(), k);
    } else {
        assert(ts.take(k) =~= ts);
    }
}

fn lower(node: &Node) -> (r: NumberedNode)
    requires
        lowerable(node@),
    ensures
        r@ == lowered(node@),
    decreases node,
{
    match node {
        Node::Root(nodes) => {
            let mut v = lower_all(nodes);
            let ghost old_v = v@;
            let e = NumberedNode::Operation { id: 0, data: SimOperation::EndProgram };
            v.push(e);
            proof { lemma_num_trees_of_push(old_v, e); }
            NumberedNode::Root(v)
        },
        Node::Loop(nodes) => {
            let mut v = lower_all(nodes);
            let ghost old_v = v@;
            let e = NumberedNode::Operation { id: 0, data: SimOperation::Noop };
            v.push(e);
            proof { lemma_num_trees_of_push(old_v, e); }
            NumberedNode::Loop { id: 0, operations: v }
        },
        Node::Inc(a) => NumberedNode::Operation { id: 0, data: SimOperation::Inc(*a) },
        Node::Dec(a) => NumberedNode::Operation { id: 0, data: SimOperation::Dec(*a) },
        Node::IncTapePos(k) => NumberedNode::Operation { id: 0, data: SimOperation::IncTapePos(*k as u32) },
        Node::DecTapePos(k) => NumberedNode::Operation { id: 0, data: SimOperation::DecTapePos(*k as u32) },
        Node::IncTapePosUntilEmpty => NumberedNode::Operation { id: 0, data: SimOperation::IncTapePosUntilEmpty },
        Node::DecTapePosUntilEmpty => NumberedNode::Operation { id: 0, data: SimOperation::DecTapePosUntilEmpty },
        Node::PutChar => NumberedNode::Operation { id: 0, data: SimOperation::PutChar },
        Node::GetChar => NumberedNode::Operation { id: 0, data: SimOperation::GetChar },
        Node::Clear => NumberedNode::Operation { id: 0, data: SimOperation::Clear },
        Node::AddToTheRightAndClear(k) => NumberedNode::Operation { id: 0, data: SimOperation::AddToTheRightAndClear(*k as u32) },
        Node::DecFromTheRightAndClear(k) => NumberedNode::Operation { id: 0, data: SimOperation::DecFromTheRightAndClear(*k as u32) },
        Node::AddToTheLeftAndClear(k) => NumberedNode::Operation { id: 0, data: SimOperation::AddToTheLeftAndClear(*k as u32) },
        Node::DecFromTheLeftAndClear(k) => NumberedNode::Operation { id: 0, data: SimOperation::DecFromTheLeftAndClear(*k as u32) },
        Node::Comment => NumberedNode::Operation { id: 0, data: SimOperation::Noop },
    }
}

impl NumberedNode {
    /// The id of a loop or an operation.
    pub fn get_id(&self) -> (r: usize)
        requires
            self@ !is Root,
        ensures
            r == num_id(self@),
    {
        match self {
            NumberedNode::Loop { id, .. } => *id,
            NumberedNode::Operation { id, .. } => *id,
            NumberedNode::Root(_) => 0,
        }
    }

    /// The tree of `source` with every id 0, ready to be numbered.
    pub fn from(source: &Node) -> (r: Self)
        requires
            lowerable(source@),
        ensures
            r@ == lowered(source@),
    {
        lower(source)
    }
}

/// The id of a loop or an operation.
pub open spec fn num_id(t: NumTree) -> usize {
    match t {
        NumTree::Loop { id, .. } => id,
        NumTree::Operation { id, .. } => id,
        NumTree::Root(_) => 0,
    }
}

/// The flat program of a tree: lowered, numbered breadth-first, and written
/// out with one slot per node. Only a root has one.
pub open spec fn bytecode_of(t: Tree) -> Seq<SimOperation> {
    match lowered(t) {
        NumTree::Root(f) => linearized(numbered(NumTree::Root(f)), node_count(f)),
        _ => Seq::empty(),
    }
}

impl Node {
    /// Compiles a tree to its flat program.
    pub fn compile_bytecode(&self) -> (r: Vec<SimOperation>)
        requires
            lowerable(self@),
            lowered(self@) matches NumTree::Root(f) ==> node_count(f) <= u32::MAX,
        ensures
            r@ == bytecode_of(self@),
    {
        let mut new_tree = NumberedNode::from(self);
        match new_tree {
            NumberedNode::Root(_) => {},
            _ => {
                return Vec::new();
            },
        }
        let ghost l = new_tree@;
        let capacity = NumberedNode::numerize(&mut new_tree);
        proof {
            if let NumTree::Root(f) = l {
                lemma_numbered_ids(f);
            }
        }
        NumberedNode::linearize(&new_tree, capacity)
    }
}

fn is_lowerable(n: &Node) -> (r: bool)
    ensures
        r == lowerable(n@),
    decreases n,
{
    match n {
        Node::Root(v) => all_lowerable(v),
        Node::Loop(v) => all_lowerable(v),
        Node::Comment => false,
        Node::IncTapePos(k) => *k <= u32::MAX as usize,
        Node::DecTapePos(k) => *k <= u32::MAX as usize,
        Node::AddToTheRightAndClear(k) => *k <= u32::MAX as usize,
        Node::DecFromTheRightAndClear(k) => *k <= u32::MAX as usize,
        Node::AddToTheLeftAndClear(k) => *k <= u32::MAX as usize,
        Node::DecFromTheLeftAndClear(k) => *k <= u32::MAX as usize,
        _ => true,
    }
}

fn all_lowerable(v: &Vec<Node>) -> (r: bool)
    ensures
        r == lowerable_all(trees_of(v@)),
    decreases v,
{
    let ghost ts = trees_of(v@);
    proof {
        lemma_trees_of_index(v@);
        assert(ts.take(0) =~= Seq::<Tree>::empty());
    }
    let mut ok = true;
    let mut i: usize = 0;
    while i < v.len()
        invariant
            i <= v.len(),
            ts == trees_of(v@),
            ts.len() == v.len(),
            forall|j: int| 0 <= j < v.len() ==> #[trigger] ts[j] == tree_of(v@[j]),
            ok == lowerable_all(ts.take(i as int)),
        decreases v.len() - i,
    {
        proof {
            assert(ts.take(i + 1).drop_last() =~= ts.take(i as int));
            assert(ts.take(i + 1).last() == tree_of(v@[i as int]));
        }
        let here = is_lowerable(&v[i]) && !matches!(v[i], Node::Root(_));
        ok = ok && here;
        i += 1;
    }
    assert(ts.take(i as int) =~= ts);
    ok
}

/// One more than the largest number of slots a flat program may have.
pub open spec fn slot_limit() -> nat {
    u32::MAX as nat + 1
}

pub open spec fn capped(n: nat) -> nat {
    if n < slot_limit() {
        n
    } else {
        slot_limit()
    }
}

fn capped_size(n: &NumberedNode) -> (r: u64)
    ensures
        r == capped(size(n@)),
    decreases n,
{
    match n {
        NumberedNode::Root(v) => capped_count(v),
        NumberedNode::Loop { operations, .. } => {
            let c = capped_count(operations);
            if c < 4294967296u64 { c + 1 } else { c }
        },
        NumberedNode::Operation { .. } => 1,
    }
}

fn capped_count(v: &Vec<NumberedNode>) -> (r: u64)
    ensures
        r == capped(node_count(num_trees_of(v@))),
    decreases v,
{
    let ghost f = num_trees_of(v@);
    proof {
        lemma_num_trees_of_index(v@);
        assert(f.take(0) =~= Seq::<NumTree>::empty());
    }
    let mut total: u64 = 0;
    let mut i: usize = 0;
    while i < v.len()
        invariant
            i <= v.len(),
            f == num_trees_of(v@),
            f.len() == v.len(),
            forall|j: int| 0 <= j < v.len() ==> #[trigger] f[j] == num_tree_of(v@[j]),
            total == capped(node_count(f.take(i as int))),
        decreases v.len() - i,
    {
        proof {
            assert(f.take(i + 1).drop_last() =~= f.take(i as int));
            assert(f.take(i + 1).last() == num_tree_of(v@[i as int]));
        }
        let c = capped_size(&v[i]);
        total = if total + c < 4294967296u64 { total + c } else { 4294967296u64 };
        i += 1;
    }
    assert(f.take(i as int) =~= f);
    total
}

impl Node {
    /// Whether [`Node::compile_bytecode`] takes this tree: no comments, no
    /// nested roots, operands that fit 32 bits, and few enough nodes that
    /// every instruction index does too.
    pub fn can_compile(&self) -> (r: bool)
        ensures
            r == (lowerable(self@) && (lowered(self@) matches NumTree::Root(f) ==> node_count(f)
                <= u32::MAX)),
    {
        if !is_lowerable(self) {
            return false;
        }
        let l = NumberedNode::from(self);
        match &l {
            NumberedNode::Root(v) => capped_count(v) <= u32::MAX as u64,
            _ => true,
        }
    }
}

fn copy_numbered(n: &NumberedNode) -> (r: NumberedNode)
    ensures
        r@ == n@,
    decreases n,
{
    match n {
        NumberedNode::Root(v) => NumberedNode::Root(copy_numbered_all(v)),
        NumberedNode::Loop { id, operations } => NumberedNode::Loop {
            id: *id,
            operations: copy_numbered_all(operations),
        },
        NumberedNode::Operation { id, data } => NumberedNode::Operation { id: *id, data: *data },
    }
}

fn copy_numbered_all(v: &Vec<NumberedNode>) -> (r: Vec<NumberedNode>)
    ensures
        num_trees_of(r@) == num_trees_of(v@),
    decreases v,
{
    let mut r: Vec<NumberedNode> = Vec::new();
    let mut i: usize = 0;
    while i < v.len()
        invariant
            i <= v.len(),
            num_trees_of(r@) == num_trees_of(v@.take(i as int)),
        decreases v.len() - i,
    {
        let c = copy_numbered(&v[i]);
        proof {
            lemma_num_trees_of_push(r@, c);
            lemma_num_trees_of_push(v@.take(i as int), v@[i as int]);
            assert(v@.take(i + 1) =~= v@.take(i as int).push(v@[i as int]));
        }
        r.push(c);
        i += 1;
    }
    assert(v@.take(i as int) =~= v@);
    r
}

impl Clone for NumberedNode {
    fn clone(&self) -> (r: NumberedNode)
        ensures
            r@ == self@,
    {
        copy_numbered(self)
    }
}

} // verus!
