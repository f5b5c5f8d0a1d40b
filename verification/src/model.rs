//! Data model: input `Group` records, output `TreeNode` forest, and the
//! ghost mirrors that contracts are stated over.

use vstd::prelude::*;

verus! {

/// Whether a tree node is an inner folder or a leaf host.
#[derive(Clone, Copy, PartialEq, Eq, Structural, Debug)]
pub enum Kind {
    Folder,
    Host,
}

/// An input record: a named bucket of hosts with nested buckets.
///
/// `path` must be non-empty; the sentinel value `"/"` marks a group whose
/// children are spliced into the parent level instead of being wrapped in a
/// folder of their own.
pub struct Group {
    pub path: String,
    pub hosts: Vec<String>,
    pub subgroups: Vec<Group>,
}

/// A display node. `id` is unique within one build; `children` is always
/// empty for a `Host`.
pub struct TreeNode {
    pub id: u64,
    pub label: String,
    pub kind: Kind,
    pub children: Vec<TreeNode>,
}

/// The only way a build can fail: a group with an empty `path`.
#[derive(Clone, Copy, PartialEq, Eq, Structural, Debug)]
pub enum ValidationError {
    EmptyPath,
}

/// Ghost mirror of `TreeNode`.
#[verifier::ext_equal]
pub struct NodeV {
    pub id: u64,
    pub label: Seq<char>,
    pub kind: Kind,
    pub children: Seq<NodeV>,
}

/// Ghost view of one tree node.
pub open spec fn nview(n: TreeNode) -> NodeV
    decreases n,
{
    NodeV {
        id: n.id,
        label: n.label@,
        kind: n.kind,
        children: nviews(n.children@),
    }
}

/// Ghost view of a sequence of tree nodes, element by element.
pub open spec fn nviews(ns: Seq<TreeNode>) -> Seq<NodeV>
    decreases ns,
{
    if ns.len() == 0 {
        Seq::<NodeV>::empty()
    } else {
        nviews(ns.subrange(0, ns.len() - 1)).push(nview(ns[ns.len() - 1]))
    }
}

/// `nviews` maps the view over the sequence, element by element.
pub broadcast proof fn lemma_nviews_index(ns: Seq<TreeNode>)
    ensures
        (#[trigger] nviews(ns)).len() == ns.len(),
        forall|i: int| 0 <= i < ns.len() ==> nviews(ns)[i] == nview(ns[i]),
    decreases ns,
{
    if ns.len() > 0 {
        lemma_nviews_index(ns.subrange(0, ns.len() - 1));
    }
}

/// The reserved path value that marks a "splice into the parent" group.
pub open spec fn sentinel() -> Seq<char> {
    seq!['/']
}

/// Decides whether `path` is the sentinel marker.
pub fn is_sentinel(path: &String) -> (r: bool)
    ensures
        r == (path@ == sentinel()),
{
    let s: String = "/".to_owned();
    let r = *path == s;
    proof {
        reveal_strlit("/");
        assert("/"@ =~= sentinel());
    }
    r
}

} // verus!
