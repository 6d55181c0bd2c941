//! A directory-tree fixture model: a tree of named directories and files,
//! flattened into the ordered list of filesystem operations that
//! materializes it — every directory before anything inside it. Performing
//! the operations is left to the caller; the plan itself is pure.

use vstd::prelude::*;

verus! {

broadcast use vstd::std_specs::vec::axiom_vec_index_decreases;

/// A directory tree to materialize: a directory holds named children, in
/// order; a file holds its contents.
#[derive(PartialEq, Eq, Debug)]
pub enum TreeNode {
    Dir(Vec<(String, TreeNode)>),
    File(String),
}

/// One operation of a materialization plan. A path is the list of name
/// segments below the root, outermost first.
#[derive(PartialEq, Eq, Debug)]
pub enum FsOp {
    MakeDir { path: Vec<String> },
    WriteFile { path: Vec<String>, contents: String },
}

/// A plan operation with its strings viewed as character sequences.
pub enum PlanStep {
    MakeDir { path: Seq<Seq<char>> },
    WriteFile { path: Seq<Seq<char>>, contents: Seq<char> },
}

/// The character-level view of a segment path.
pub open spec fn path_view(path: Seq<String>) -> Seq<Seq<char>> {
    path.map_values(|s: String| s@)
}

/// The character-level view of one operation.
pub open spec fn op_view(op: FsOp) -> PlanStep {
    match op {
        FsOp::MakeDir { path } => PlanStep::MakeDir { path: path_view(path@) },
        FsOp::WriteFile { path, contents } => PlanStep::WriteFile {
            path: path_view(path@),
            contents: contents@,
        },
    }
}

/// The operations that materialize `node` at `path`: the directory or file
/// itself, then, in order, everything under it.
pub open spec fn plan_node(path: Seq<Seq<char>>, node: TreeNode) -> Seq<PlanStep>
    decreases node, 0int,
{
    match node {
        TreeNode::File(contents) => seq![PlanStep::WriteFile { path, contents: contents@ }],
        TreeNode::Dir(entries) => seq![PlanStep::MakeDir { path }] + plan_entries(
            path,
            entries,
            0,
        ),
    }
}

/// The operations for the children of a directory at `path`, from child
/// `i` on.
pub open spec fn plan_entries(
    path: Seq<Seq<char>>,
    entries: Vec<(String, TreeNode)>,
    i: int,
) -> Seq<PlanStep>
    decreases entries, entries@.len() - i,
{
    if i < 0 || i >= entries@.len() {
        Seq::empty()
    } else {
        plan_node(path.push(entries@[i].0@), entries@[i].1) + plan_entries(path, entries, i + 1)
    }
}

/// A fresh path vector with the same segments.
fn clone_path(path: &Vec<String>) -> (copy: Vec<String>)
    ensures
        copy@ == path@,
{
    let mut copy: Vec<String> = Vec::new();
    let mut i: usize = 0;
    while i < path.len()
        invariant
            i <= path@.len(),
            copy@ == path@.take(i as int),
        decreases path@.len() - i,
    {
        copy.push(path[i].clone());
        proof {
            assert(copy@ =~= path@.take(i + 1));
        }
        i = i + 1;
    }
    proof {
        assert(path@.take(path@.len() as int) =~= path@);
    }
    copy
}

/// Appends to `ops` the operations that materialize `node` at `path`.
fn node_ops(path: &Vec<String>, node: &TreeNode, ops: &mut Vec<FsOp>)
    ensures
        final(ops)@.map_values(|op: FsOp| op_view(op)) == old(ops)@.map_values(
            |op: FsOp| op_view(op),
        ) + plan_node(path_view(path@), *node),
    decreases *node,
{
    let ghost base = ops@.map_values(|op: FsOp| op_view(op));
    let ghost pv = path_view(path@);
    match node {
        TreeNode::File(contents) => {
            ops.push(FsOp::WriteFile { path: clone_path(path), contents: contents.clone() });
            proof {
                assert(ops@.map_values(|op: FsOp| op_view(op)) =~= base + plan_node(pv, *node));
            }
        },
        TreeNode::Dir(entries) => {
            ops.push(FsOp::MakeDir { path: clone_path(path) });
            proof {
                assert(ops@.map_values(|op: FsOp| op_view(op)) =~= base + seq![
                    PlanStep::MakeDir { path: pv },
                ]);
                assert(base + seq![PlanStep::MakeDir { path: pv }] + plan_entries(
                    pv,
                    *entries,
                    0,
                ) =~= base + plan_node(pv, *node));
            }
            let mut j: usize = 0;
            while j < entries.len()
                invariant
                    j <= entries@.len(),
                    *node == TreeNode::Dir(*entries),
                    pv == path_view(path@),
                    ops@.map_values(|op: FsOp| op_view(op)) + plan_entries(
                        pv,
                        *entries,
                        j as int,
                    ) == base + plan_node(pv, *node),
                decreases entries@.len() - j,
            {
                let mut child_path = clone_path(path);
                child_path.push(entries[j].0.clone());
                proof {
                    vstd::std_specs::vec::axiom_vec_index_decreases(*entries, j as int);
                    assert(decreases_to!(*node => *entries));
                    assert(decreases_to!((*entries)[j as int] => (*entries)[j as int].1));
                    assert(decreases_to!(*node => (*entries)[j as int].1));
                }
                node_ops(&child_path, &entries[j].1, ops);
                proof {
                    assert(path_view(child_path@) =~= pv.push(entries@[j as int].0@));
                    assert(plan_entries(pv, *entries, j as int) == plan_node(
                        pv.push(entries@[j as int].0@),
                        entries@[j as int].1,
                    ) + plan_entries(pv, *entries, j + 1));
                    assert(ops@.map_values(|op: FsOp| op_view(op)) + plan_entries(
                        pv,
                        *entries,
                        j + 1,
                    ) =~= base + plan_node(pv, *node));
                }
                j = j + 1;
            }
            proof {
                assert(plan_entries(pv, *entries, entries@.len() as int) == Seq::<
                    PlanStep,
                >::empty());
                assert(ops@.map_values(|op: FsOp| op_view(op)) =~= base + plan_node(pv, *node));
            }
        },
    }
}

/// The ordered filesystem operations that materialize a tree whose
/// top-level entries are `entries`. The root directory itself is taken to
/// exist already, as it does for a caller that starts from a freshly made
/// temporary directory.
pub fn tree_ops(entries: &Vec<(String, TreeNode)>) -> (ops: Vec<FsOp>)
    ensures
        ops@.map_values(|op: FsOp| op_view(op)) == plan_entries(
            Seq::<Seq<char>>::empty(),
            *entries,
            0,
        ),
{
    let mut ops: Vec<FsOp> = Vec::new();
    let path: Vec<String> = Vec::new();
    let ghost pv = path_view(path@);
    proof {
        assert(pv =~= Seq::<Seq<char>>::empty());
        assert(ops@.map_values(|op: FsOp| op_view(op)) =~= Seq::<PlanStep>::empty());
    }
    let mut j: usize = 0;
    while j < entries.len()
        invariant
            j <= entries@.len(),
            path@.len() == 0,
            pv == path_view(path@),
            pv == Seq::<Seq<char>>::empty(),
            ops@.map_values(|op: FsOp| op_view(op)) + plan_entries(pv, *entries, j as int)
                == plan_entries(pv, *entries, 0),
        decreases entries@.len() - j,
    {
        let mut child_path = clone_path(&path);
        child_path.push(entries[j].0.clone());
        node_ops(&child_path, &entries[j].1, &mut ops);
        proof {
            assert(path_view(child_path@) =~= pv.push(entries@[j as int].0@));
            assert(plan_entries(pv, *entries, j as int) == plan_node(
                pv.push(entries@[j as int].0@),
                entries@[j as int].1,
            ) + plan_entries(pv, *entries, j + 1));
            assert(ops@.map_values(|op: FsOp| op_view(op)) + plan_entries(pv, *entries, j + 1)
                =~= plan_entries(pv, *entries, 0));
        }
        j = j + 1;
    }
    proof {
        assert(plan_entries(pv, *entries, entries@.len() as int) == Seq::<PlanStep>::empty());
        assert(ops@.map_values(|op: FsOp| op_view(op)) =~= plan_entries(pv, *entries, 0));
    }
    ops
}

} // verus!
