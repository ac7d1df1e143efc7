//! Writing a numbered tree out as a flat program.

use vstd::prelude::*;

use crate::bytecode::{
    NumTree,
    NumberedNode,
    SimOperation,
    lemma_num_trees_of_index,
    num_id,
    num_tree_of,
    num_trees_of,
};
use crate::numbering::{all_ids_below, ids_below};

verus! {
/// `prog` with `op` in slot `i`, if there is such a slot.
pub open spec fn put(prog: Seq<SimOperation>, i: int, op: SimOperation) -> Seq<SimOperation> {
    if 0 <= i < prog.len() {
        prog.update(i, op)
    } else {
        prog
    }
}

/// The flat program `prog` with the instructions of `t` written at their ids.
/// A loop's slot jumps into its body, whose last slot becomes the jump back;
/// a loop without a body is a `Noop`.
pub open spec fn write_tree(t: NumTree, prog: Seq<SimOperation>) -> Seq<SimOperation>
    decreases t,
{
    match t {
        NumTree::Root(f) => write_forest(f, prog),
        NumTree::Loop { id, operations } => if operations.len() == 0 {
            put(prog, id as int, SimOperation::Noop)
        } else {
            let target = num_id(operations[0]) as u32;
            put(
                write_forest(
                    operations.drop_last(),
                    put(prog, id as int, SimOperation::JnzSaveIP { target_ip: target }),
                ),
                num_id(operations.last()) as int,
                SimOperation::JnzRestoreIP { target_ip: target },
            )
        },
        NumTree::Operation { id, data } => put(prog, id as int, data),
    }
}

pub open spec fn write_forest(f: Seq<NumTree>, prog: Seq<SimOperation>) -> Seq<SimOperation>
    decreases f,
{
    if f.len() == 0 {
        prog
    } else {
        write_tree(f.last(), write_forest(f.drop_last(), prog))
    }
}

/// The flat program of a numbered tree with `capacity` slots.
pub open spec fn linearized(t: NumTree, capacity: nat) -> Seq<SimOperation> {
    write_tree(t, Seq::new(capacity, |i: int| SimOperation::Noop))
}

proof fn lemma_all_ids_below_index(f: Seq<NumTree>, bound: int)
    requires
        all_ids_below(f, bound),
    ensures
        forall|j: int| 0 <= j < f.len() ==> ids_below(#[trigger] f[j], bound),
    decreases f.len(),
{
    if f.len() > 0 {
        lemma_all_ids_below_index(f.drop_last(), bound);
        assert forall|j: int| 0 <= j < f.len() implies ids_below(#[trigger] f[j], bound) by {
            if j < f.len() - 1 {
                assert(f[j] == f.drop_last()[j]);
            }
        }
    }
}

fn id_of(n: &NumberedNode) -> (r: usize)
    ensures
        r == num_id(n@),
{
    match n {
        NumberedNode::Loop { id, .. } => *id,
        NumberedNode::Operation { id, .. } => *id,
        NumberedNode::Root(_) => 0,
    }
}

fn write_node(node: &NumberedNode, prog: &mut Vec<SimOperation>)
    requires
        ids_below(node@, old(prog).len() as int),
        old(prog).len() <= u32::MAX,
    ensures
        final(prog)@ == write_tree(node@, old(prog)@),
        final(prog)@.len() == old(prog)@.len(),
    decreases node,
{
    match node {
        NumberedNode::Root(f) => {
            write_nodes(f, prog);
        },
        NumberedNode::Loop { id, operations } => {
            let ghost ops = num_trees_of(operations@);
            proof {
                lemma_num_trees_of_index(operations@);
                lemma_all_ids_below_index(ops, prog.len() as int);
            }
            if operations.len() == 0 {
                if *id < prog.len() {
                    prog.set(*id, SimOperation::Noop);
                }
            } else {
                proof {
                    assert(ops[0] == num_tree_of(operations@[0]));
                    assert(ids_below(ops[0], prog.len() as int));
                }
                let target = id_of(&operations[0]) as u32;
                if *id < prog.len() {
                    prog.set(*id, SimOperation::JnzSaveIP { target_ip: target });
                }
                write_body(operations, target, prog);
            }
        },
        NumberedNode::Operation { id, data } => {
            if *id < prog.len() {
                prog.set(*id, *data);
            }
        },
    }
}

/// Writes a loop body whose first id is `target`: each node but the last as
/// [`write_node`] does, and the jump back in the last one's slot.
fn write_body(operations: &Vec<NumberedNode>, target: u32, prog: &mut Vec<SimOperation>)
    requires
        operations.len() > 0,
        all_ids_below(num_trees_of(operations@), old(prog).len() as int),
        old(prog).len() <= u32::MAX,
    ensures
        final(prog)@ == put(
            write_forest(num_trees_of(operations@).drop_last(), old(prog)@),
            num_id(num_trees_of(operations@).last()) as int,
            SimOperation::JnzRestoreIP { target_ip: target },
        ),
        final(prog)@.len() == old(prog)@.len(),
    decreases operations,
{
    let ghost ops = num_trees_of(operations@);
    let ghost before = prog@;
    proof {
        lemma_num_trees_of_index(operations@);
        lemma_all_ids_below_index(ops, prog.len() as int);
        assert(ops.take(0) =~= Seq::<NumTree>::empty());
    }
    let last = operations.len() - 1;
    let mut j: usize = 0;
    while j < last
        invariant
            last == operations.len() - 1,
            j <= last,
            ops == num_trees_of(operations@),
            ops.len() == operations.len(),
            forall|i: int| 0 <= i < operations.len() ==> #[trigger] ops[i] == num_tree_of(operations@[i]),
            forall|i: int| 0 <= i < ops.len() ==> ids_below(#[trigger] ops[i], prog.len() as int),
            prog.len() == before.len(),
            prog.len() <= u32::MAX,
            prog@ == write_forest(ops.take(j as int), before),
        decreases last - j,
    {
        proof {
            assert(ops.take(j + 1).drop_last() =~= ops.take(j as int));
            assert(ops[j as int] == num_tree_of(operations@[j as int]));
        }
        write_node(&operations[j], prog);
        j += 1;
    }
    assert(ops.take(j as int) =~= ops.drop_last());
    let last_id = id_of(&operations[last]);
    proof {
        assert(ops[last as int] == num_tree_of(operations@[last as int]));
        assert(ids_below(ops[last as int], prog.len() as int));
    }
    if last_id < prog.len() {
        prog.set(last_id, SimOperation::JnzRestoreIP { target_ip: target });
    }
}

/// Writes every node of `nodes`, as [`write_node`] does.
fn write_nodes(nodes: &Vec<NumberedNode>, prog: &mut Vec<SimOperation>)
    requires
        all_ids_below(num_trees_of(nodes@), old(prog).len() as int),
        old(prog).len() <= u32::MAX,
    ensures
        final(prog)@ == write_forest(num_trees_of(nodes@), old(prog)@),
        final(prog)@.len() == old(prog)@.len(),
    decreases nodes,
{
    let ghost f = num_trees_of(nodes@);
    let ghost initial = prog@;
    proof {
        lemma_num_trees_of_index(nodes@);
        lemma_all_ids_below_index(f, prog.len() as int);
        assert(f.take(0) =~= Seq::<NumTree>::empty());
    }
    let mut i: usize = 0;
    while i < nodes.len()
        invariant
            i <= nodes.len(),
            f == num_trees_of(nodes@),
            f.len() == nodes.len(),
            forall|j: int| 0 <= j < nodes.len() ==> #[trigger] f[j] == num_tree_of(nodes@[j]),
            forall|j: int| 0 <= j < f.len() ==> ids_below(#[trigger] f[j], prog.len() as int),
            prog.len() == initial.len(),
            prog.len() <= u32::MAX,
            prog@ == write_forest(f.take(i as int), initial),
        decreases nodes.len() - i,
    {
        proof {
            assert(f.take(i + 1).drop_last() =~= f.take(i as int));
            assert(f[i as int] == num_tree_of(nodes@[i as int]));
        }
        write_node(&nodes[i], prog);
        i += 1;
    }
    assert(f.take(i as int) =~= f);
}

impl NumberedNode {
    /// The flat program of a numbered tree: `capacity` slots, each holding the
    /// instruction of the node with that id.
    pub(crate) fn linearize(root_node: &Self, capacity: usize) -> (r: Vec<SimOperation>)
        requires
            ids_below(root_node@, capacity as int),
            capacity <= u32::MAX,
        ensures
            r@ == linearized(root_node@, capacity as nat),
    {
        let mut result: Vec<SimOperation> = Vec::new();
        let mut i: usize = 0;
        while i < capacity
            invariant
                i <= capacity,
                result@ =~= Seq::new(i as nat, |j: int| SimOperation::Noop),
            decreases capacity - i,
        {
            result.push(SimOperation::Noop);
            i += 1;
        }
        write_node(root_node, &mut result);
        result
    }
}

} // verus!
