//! The flattened view: the depth-first, pre-order list of visible rows of a
//! forest, filtered by the set of open folder ids. A folder's children are
//! visible only while the folder is open.

use vstd::prelude::*;

use crate::builder::{ids_node, ids_nodes};
use crate::model::{nview, nviews, lemma_nviews_index, Kind, NodeV, TreeNode};

verus! {

broadcast use crate::model::lemma_nviews_index;

/// One visible row: the id path from a root to the node, the node's label
/// and kind, and its depth (the number of ancestors).
pub struct Row {
    pub path: Vec<u64>,
    pub label: String,
    pub kind: Kind,
    pub depth: usize,
}

/// Ghost mirror of `Row`.
#[verifier::ext_equal]
pub struct RowV {
    pub path: Seq<u64>,
    pub label: Seq<char>,
    pub kind: Kind,
    pub depth: nat,
}

impl View for Row {
    type V = RowV;

    open spec fn view(&self) -> RowV {
        RowV { path: self.path@, label: self.label@, kind: self.kind, depth: self.depth as nat }
    }
}

/// Ghost view of a sequence of rows, element by element.
pub open spec fn rows_view(rs: Seq<Row>) -> Seq<RowV> {
    Seq::new(rs.len(), |i: int| rs[i]@)
}

/// The rows one node contributes: itself, then — only for an open folder —
/// the rows of its children, with the node's id appended to the path.
pub open spec fn flat_node_s(n: NodeV, open: Set<u64>, prefix: Seq<u64>) -> Seq<RowV>
    decreases n, 0int,
{
    let p = prefix.push(n.id);
    let head = seq![RowV { path: p, label: n.label, kind: n.kind, depth: prefix.len() }];
    if n.kind == Kind::Folder && open.contains(n.id) {
        head + flat_nodes_s(n.children, open, p)
    } else {
        head
    }
}

/// The rows a sequence of sibling nodes contributes, in order.
pub open spec fn flat_nodes_s(ns: Seq<NodeV>, open: Set<u64>, prefix: Seq<u64>) -> Seq<RowV>
    decreases ns, 1int,
{
    if ns.len() == 0 {
        Seq::<RowV>::empty()
    } else {
        flat_node_s(ns[0], open, prefix) + flat_nodes_s(
            ns.subrange(1, ns.len() as int),
            open,
            prefix,
        )
    }
}

/// The whole visible view of a forest under an open set.
pub open spec fn rows_of(forest: Seq<TreeNode>, open: Set<u64>) -> Seq<RowV> {
    flat_nodes_s(nviews(forest), open, Seq::<u64>::empty())
}

/// Copies an id path, appending one id.
fn copy_push(p: &Vec<u64>, id: u64) -> (r: Vec<u64>)
    ensures
        r@ == p@.push(id),
{
    let mut r: Vec<u64> = Vec::new();
    let mut i: usize = 0;
    while i < p.len()
        invariant
            i <= p@.len(),
            r@ == p@.subrange(0, i as int),
        decreases p@.len() - i,
    {
        r.push(p[i]);
        proof {
            assert(p@.subrange(0, i as int + 1) =~= p@.subrange(0, i as int).push(p@[i as int]));
        }
        i = i + 1;
    }
    proof {
        assert(p@.subrange(0, p@.len() as int) =~= p@);
    }
    r.push(id);
    r
}

/// Copies an id path.
pub fn copy_ids(p: &Vec<u64>) -> (r: Vec<u64>)
    ensures
        r@ == p@,
{
    let mut r: Vec<u64> = Vec::new();
    let mut i: usize = 0;
    while i < p.len()
        invariant
            i <= p@.len(),
            r@ == p@.subrange(0, i as int),
        decreases p@.len() - i,
    {
        r.push(p[i]);
        proof {
            assert(p@.subrange(0, i as int + 1) =~= p@.subrange(0, i as int).push(p@[i as int]));
        }
        i = i + 1;
    }
    proof {
        assert(p@.subrange(0, p@.len() as int) =~= p@);
    }
    r
}

/// Whether the open list contains `id`.
pub fn open_has(open: &Vec<u64>, id: u64) -> (r: bool)
    ensures
        r == open@.to_set().contains(id),
{
    let mut i: usize = 0;
    while i < open.len()
        invariant
            i <= open@.len(),
            forall|k: int| 0 <= k < i ==> open@[k] != id,
        decreases open@.len() - i,
    {
        if open[i] == id {
            assert(open@.contains(id));
            return true;
        }
        i = i + 1;
    }
    proof {
        assert(!open@.contains(id));
    }
    false
}

/// Emits the rows of one node into `out`.
fn flat_node_x(n: &TreeNode, open: &Vec<u64>, prefix: &Vec<u64>, out: &mut Vec<Row>)
    ensures
        rows_view(final(out)@) == rows_view(old(out)@) + flat_node_s(
            nview(*n),
            open@.to_set(),
            prefix@,
        ),
    decreases *n, 0int,
{
    let path = copy_push(prefix, n.id);
    let row = Row {
        path: copy_push(prefix, n.id),
        label: n.label.clone(),
        kind: n.kind,
        depth: prefix.len(),
    };
    let ghost rv = row@;
    let ghost mid = out@;
    out.push(row);
    proof {
        assert(rows_view(out@) =~= rows_view(mid).push(rv));
    }
    let expand = match n.kind {
        Kind::Folder => open_has(open, n.id),
        Kind::Host => false,
    };
    if expand {
        proof {
            assert(n.children@.subrange(0, n.children@.len() as int) =~= n.children@);
        }
        flat_nodes_x(&n.children, 0, open, &path, out);
        proof {
            assert(nviews(n.children@).subrange(0, n.children@.len() as int) =~= nviews(
                n.children@,
            ));
            assert(rows_view(out@) =~= rows_view(old(out)@) + flat_node_s(
                nview(*n),
                open@.to_set(),
                prefix@,
            ));
        }
    } else {
        proof {
            assert(rows_view(out@) =~= rows_view(old(out)@) + flat_node_s(
                nview(*n),
                open@.to_set(),
                prefix@,
            ));
        }
    }
}

/// Emits the rows of the nodes `ns[i..]` into `out`.
fn flat_nodes_x(ns: &Vec<TreeNode>, i: usize, open: &Vec<u64>, prefix: &Vec<u64>, out: &mut Vec<
    Row,
>)
    requires
        i <= ns@.len(),
    ensures
        rows_view(final(out)@) == rows_view(old(out)@) + flat_nodes_s(
            nviews(ns@).subrange(i as int, ns@.len() as int),
            open@.to_set(),
            prefix@,
        ),
    decreases ns@.subrange(i as int, ns@.len() as int), 1int,
{
    let ghost tail = nviews(ns@).subrange(i as int, ns@.len() as int);
    if i == ns.len() {
        proof {
            assert(rows_view(out@) =~= rows_view(out@) + Seq::<RowV>::empty());
        }
        return ;
    }
    proof {
        assert(tail[0] == nview(ns@[i as int]));
        assert(tail.subrange(1, tail.len() as int) =~= nviews(ns@).subrange(
            i as int + 1,
            ns@.len() as int,
        ));
        let mtail = ns@.subrange(i as int, ns@.len() as int);
        assert(mtail[0] == ns@[i as int]);
        assert(decreases_to!(mtail => mtail[0]));
        assert(mtail.subrange(1, mtail.len() as int) =~= ns@.subrange(
            i as int + 1,
            ns@.len() as int,
        ));
        assert(decreases_to!(mtail => mtail.subrange(1, mtail.len() as int)));
    }
    flat_node_x(&ns[i], open, prefix, out);
    flat_nodes_x(ns, i + 1, open, prefix, out);
    proof {
        assert(rows_view(out@) =~= rows_view(old(out)@) + flat_nodes_s(
            tail,
            open@.to_set(),
            prefix@,
        ));
    }
}

/// The first position in `ns` of a node with id `id`, or `ns.len()` when
/// no node at this level carries it.
pub open spec fn child_slot(ns: Seq<NodeV>, id: u64) -> int
    decreases ns,
{
    if ns.len() == 0 {
        0int
    } else if ns[0].id == id {
        0int
    } else {
        1 + child_slot(ns.subrange(1, ns.len() as int), id)
    }
}

/// Whether the id path `p` names a visible node of the forest: each id in
/// turn names a node one level down, and every folder strictly above the end
/// of the path is open.
pub open spec fn visible_path(ns: Seq<NodeV>, open: Set<u64>, p: Seq<u64>) -> bool
    decreases p.len(),
{
    if p.len() == 0 {
        false
    } else {
        let j = child_slot(ns, p[0]);
        j < ns.len() && (p.len() == 1 || (open.contains(p[0]) && ns[j].kind == Kind::Folder
            && visible_path(ns[j].children, open, p.subrange(1, p.len() as int))))
    }
}

/// Law: with every folder closed, the flattened view is exactly the
/// top-level nodes, one row each, in source order.
pub proof fn lemma_flatten_all_closed(ns: Seq<NodeV>, prefix: Seq<u64>)
    ensures
        flat_nodes_s(ns, Set::<u64>::empty(), prefix).len() == ns.len(),
        forall|i: int|
            0 <= i < ns.len() ==> flat_nodes_s(ns, Set::<u64>::empty(), prefix)[i] == (RowV {
                path: prefix.push(ns[i].id),
                label: ns[i].label,
                kind: ns[i].kind,
                depth: prefix.len(),
            }),
    decreases ns,
{
    if ns.len() > 0 {
        let sub = ns.subrange(1, ns.len() as int);
        lemma_flatten_all_closed(sub, prefix);
        assert(!Set::<u64>::empty().contains(ns[0].id));
        let head = RowV { path: prefix.push(ns[0].id), label: ns[0].label, kind: ns[0].kind, depth: prefix.len() };
        assert(flat_node_s(ns[0], Set::<u64>::empty(), prefix) =~= seq![head]);
        let rest = flat_nodes_s(sub, Set::<u64>::empty(), prefix);
        assert(flat_nodes_s(ns, Set::<u64>::empty(), prefix) == seq![head] + rest);
        assert forall|i: int|
            0 <= i < ns.len() implies flat_nodes_s(ns, Set::<u64>::empty(), prefix)[i] == (RowV {
            path: prefix.push(ns[i].id),
            label: ns[i].label,
            kind: ns[i].kind,
            depth: prefix.len(),
        }) by {
            if i == 0 {
                assert((seq![head] + rest)[0] == head);
            } else {
                assert((seq![head] + rest)[i] == rest[i - 1]);
                assert(sub[i - 1] == ns[i]);
            }
        }
    }
}

/// Every row of one node's contribution reaches deeper than the prefix.
proof fn lemma_row_paths_node(n: NodeV, open: Set<u64>, prefix: Seq<u64>)
    ensures
        forall|i: int|
            0 <= i < flat_node_s(n, open, prefix).len() ==> (#[trigger] flat_node_s(
                n,
                open,
                prefix,
            )[i]).path.len() > prefix.len(),
    decreases n, 0int,
{
    if n.kind == Kind::Folder && open.contains(n.id) {
        lemma_row_paths_nodes(n.children, open, prefix.push(n.id));
    }
}

/// Every visible row's path extends the prefix by at least one id; in
/// particular no row of the full view has an empty path.
pub proof fn lemma_row_paths_nodes(ns: Seq<NodeV>, open: Set<u64>, prefix: Seq<u64>)
    ensures
        forall|i: int|
            0 <= i < flat_nodes_s(ns, open, prefix).len() ==> (#[trigger] flat_nodes_s(
                ns,
                open,
                prefix,
            )[i]).path.len() > prefix.len(),
    decreases ns, 1int,
{
    if ns.len() > 0 {
        lemma_row_paths_node(ns[0], open, prefix);
        lemma_row_paths_nodes(ns.subrange(1, ns.len() as int), open, prefix);
    }
}

/// Law: closing a folder that lies strictly above the selection leaves the
/// folder's own id path visible, so the selection can be relocated to it:
/// the folder's own ancestors are untouched by the removal.
pub proof fn lemma_close_ancestor_visible(ns: Seq<NodeV>, open: Set<u64>, sel: Seq<u64>, k: int)
    requires
        visible_path(ns, open, sel),
        1 <= k < sel.len(),
        sel.no_duplicates(),
    ensures
        visible_path(ns, open.remove(sel[k - 1]), sel.subrange(0, k)),
    decreases k,
{
    let p = sel.subrange(0, k);
    let j = child_slot(ns, sel[0]);
    if k == 1 {
        assert(p[0] == sel[0]);
    } else {
        let sel2 = sel.subrange(1, sel.len() as int);
        assert(sel2.no_duplicates()) by {
            assert forall|a: int, b: int|
                0 <= a < b < sel2.len() implies sel2[a] != sel2[b] by {
                assert(sel2[a] == sel[a + 1]);
                assert(sel2[b] == sel[b + 1]);
            }
        }
        lemma_close_ancestor_visible(ns[j].children, open, sel2, k - 1);
        assert(sel2[k - 2] == sel[k - 1]);
        assert(sel2.subrange(0, k - 1) =~= p.subrange(1, p.len() as int));
        assert(sel[0] != sel[k - 1]);
        assert(open.remove(sel[k - 1]).contains(p[0]));
        assert(p[0] == sel[0]);
    }
}

/// Law: removing an id that is none of the selection's strict ancestors
/// keeps the selection visible — the selection is never left pointing into
/// a hidden subtree.
pub proof fn lemma_close_other_visible(ns: Seq<NodeV>, open: Set<u64>, sel: Seq<u64>, f: u64)
    requires
        visible_path(ns, open, sel),
        forall|j: int| 0 <= j < sel.len() - 1 ==> sel[j] != f,
    ensures
        visible_path(ns, open.remove(f), sel),
    decreases sel.len(),
{
    if sel.len() > 1 {
        let j = child_slot(ns, sel[0]);
        let sel2 = sel.subrange(1, sel.len() as int);
        assert forall|j2: int| 0 <= j2 < sel2.len() - 1 implies sel2[j2] != f by {
            assert(sel2[j2] == sel[j2 + 1]);
        }
        lemma_close_other_visible(ns[j].children, open, sel2, f);
        assert(sel[0] != f);
        assert(open.remove(f).contains(sel[0]));
    }
}

/// One node's rows all extend the node's own path, and are pairwise
/// distinct when the node's subtree ids are unique.
proof fn lemma_flat_node_distinct(n: NodeV, open: Set<u64>, prefix: Seq<u64>)
    requires
        ids_node(n).no_duplicates(),
    ensures
        forall|a: int, b: int|
            0 <= a < b < flat_node_s(n, open, prefix).len() ==> flat_node_s(n, open, prefix)[a].path
                != flat_node_s(n, open, prefix)[b].path,
        forall|i: int|
            0 <= i < flat_node_s(n, open, prefix).len() ==> ((#[trigger] flat_node_s(
                n,
                open,
                prefix,
            )[i]).path.len() > prefix.len() && flat_node_s(n, open, prefix)[i].path.subrange(
                0,
                prefix.len() as int + 1,
            ) == prefix.push(n.id)),
    decreases n, 0int,
{
    let p = prefix.push(n.id);
    let head = RowV { path: p, label: n.label, kind: n.kind, depth: prefix.len() };
    assert(head.path.subrange(0, prefix.len() as int + 1) =~= p);
    if n.kind == Kind::Folder && open.contains(n.id) {
        assert((seq![n.id] + ids_nodes(n.children))[0] == n.id);
        crate::builder::lemma_ids_split_single(n.id, ids_nodes(n.children));
        lemma_flat_nodes_distinct(n.children, open, p);
        let crows = flat_nodes_s(n.children, open, p);
        let rows = flat_node_s(n, open, prefix);
        assert(rows == seq![head] + crows);
        assert forall|i: int|
            0 <= i < rows.len() implies ((#[trigger] rows[i]).path.len() > prefix.len()
            && rows[i].path.subrange(0, prefix.len() as int + 1) == prefix.push(n.id)) by {
            if i > 0 {
                assert(rows[i] == crows[i - 1]);
                assert(crows[i - 1].path.subrange(0, p.len() as int) == p);
            }
        }
        assert forall|a: int, b: int|
            0 <= a < b < rows.len() implies rows[a].path != rows[b].path by {
            if a == 0 {
                assert(rows[b] == crows[b - 1]);
                assert(rows[a].path.len() == prefix.len() as int + 1);
                assert(crows[b - 1].path.len() > p.len());
            } else {
                assert(rows[a] == crows[a - 1]);
                assert(rows[b] == crows[b - 1]);
            }
        }
    }
}

/// Sibling subtrees with unique preorder ids flatten to rows with pairwise
/// distinct paths; every row extends the prefix by one of the subtree ids.
proof fn lemma_flat_nodes_distinct(ns: Seq<NodeV>, open: Set<u64>, prefix: Seq<u64>)
    requires
        ids_nodes(ns).no_duplicates(),
    ensures
        forall|a: int, b: int|
            0 <= a < b < flat_nodes_s(ns, open, prefix).len() ==> flat_nodes_s(
                ns,
                open,
                prefix,
            )[a].path != flat_nodes_s(ns, open, prefix)[b].path,
        forall|i: int|
            0 <= i < flat_nodes_s(ns, open, prefix).len() ==> ((#[trigger] flat_nodes_s(
                ns,
                open,
                prefix,
            )[i]).path.len() > prefix.len() && flat_nodes_s(ns, open, prefix)[i].path.subrange(
                0,
                prefix.len() as int,
            ) == prefix && ids_nodes(ns).contains(
                flat_nodes_s(ns, open, prefix)[i].path[prefix.len() as int],
            )),
    decreases ns, 1int,
{
    if ns.len() > 0 {
        let rest = ns.subrange(1, ns.len() as int);
        crate::builder::lemma_ids_head_split(ns);
        lemma_flat_node_distinct(ns[0], open, prefix);
        lemma_flat_nodes_distinct(rest, open, prefix);
        let arows = flat_node_s(ns[0], open, prefix);
        let brows = flat_nodes_s(rest, open, prefix);
        let rows = flat_nodes_s(ns, open, prefix);
        assert(rows == arows + brows);
        assert(seq![ns[0].id][0] == ns[0].id);
        assert(seq![ns[0].id].contains(ns[0].id));
        assert(ids_node(ns[0]).contains(ns[0].id)) by {
            assert(ids_node(ns[0])[0] == ns[0].id);
        }
        assert forall|i: int|
            0 <= i < arows.len() implies (#[trigger] arows[i]).path[prefix.len() as int] == ns[0].id by {
            assert(arows[i].path.subrange(0, prefix.len() as int + 1) == prefix.push(ns[0].id));
            assert(arows[i].path.subrange(0, prefix.len() as int + 1)[prefix.len() as int] == arows[i].path[prefix.len() as int]);
        }
        assert forall|i: int|
            0 <= i < rows.len() implies ((#[trigger] rows[i]).path.len() > prefix.len()
            && rows[i].path.subrange(0, prefix.len() as int) == prefix && ids_nodes(ns).contains(
            rows[i].path[prefix.len() as int],
        )) by {
            if i < arows.len() {
                assert(rows[i] == arows[i]);
                assert(arows[i].path.subrange(0, prefix.len() as int) =~= arows[i].path.subrange(
                    0,
                    prefix.len() as int + 1,
                ).subrange(0, prefix.len() as int));
                assert(prefix.push(ns[0].id).subrange(0, prefix.len() as int) =~= prefix);
                assert(ids_nodes(ns).contains(ns[0].id)) by {
                    assert(ids_nodes(ns)[0] == ns[0].id);
                }
            } else {
                assert(rows[i] == brows[i - arows.len()]);
                let x = brows[i - arows.len()].path[prefix.len() as int];
                assert(ids_nodes(rest).contains(x));
                let k = choose|k: int| 0 <= k < ids_nodes(rest).len() && ids_nodes(rest)[k] == x;
                assert(ids_nodes(ns)[k + ids_node(ns[0]).len()] == x);
            }
        }
        assert forall|a: int, b: int|
            0 <= a < b < rows.len() implies rows[a].path != rows[b].path by {
            if a < arows.len() && b >= arows.len() {
                assert(rows[a] == arows[a]);
                assert(rows[b] == brows[b - arows.len()]);
                let xb = brows[b - arows.len()].path[prefix.len() as int];
                assert(ids_nodes(rest).contains(xb));
                assert(arows[a].path[prefix.len() as int] == ns[0].id);
                assert(xb != ns[0].id) by {
                    if xb == ns[0].id {
                        assert(ids_node(ns[0]).contains(ns[0].id));
                    }
                }
            } else if b < arows.len() {
                assert(rows[a] == arows[a]);
                assert(rows[b] == arows[b]);
            } else {
                assert(rows[a] == brows[a - arows.len()]);
                assert(rows[b] == brows[b - arows.len()]);
            }
        }
    }
}

/// `child_slot` is the first position carrying `id`: nothing before it
/// does, and it does unless it is `ns.len()`.
proof fn lemma_child_slot(ns: Seq<NodeV>, id: u64)
    ensures
        0 <= child_slot(ns, id) <= ns.len(),
        child_slot(ns, id) < ns.len() ==> ns[child_slot(ns, id)].id == id,
        forall|k: int| 0 <= k < child_slot(ns, id) ==> ns[k].id != id,
    decreases ns,
{
    if ns.len() > 0 && ns[0].id != id {
        let sub = ns.subrange(1, ns.len() as int);
        lemma_child_slot(sub, id);
        assert forall|k: int| 0 <= k < child_slot(ns, id) implies ns[k].id != id by {
            if k > 0 {
                assert(ns[k] == sub[k - 1]);
            }
        }
    }
}

/// Relative to one node with unique subtree ids: each of its rows starts,
/// after the prefix, with the node's own id, and what follows is a visible
/// path among its children.
proof fn lemma_flat_node_rows_visible(n: NodeV, open: Set<u64>, prefix: Seq<u64>)
    requires
        ids_node(n).no_duplicates(),
    ensures
        forall|i: int|
            0 <= i < flat_node_s(n, open, prefix).len() ==> {
                let q = (#[trigger] flat_node_s(n, open, prefix)[i]).path.subrange(
                    prefix.len() as int,
                    flat_node_s(n, open, prefix)[i].path.len() as int,
                );
                &&& flat_node_s(n, open, prefix)[i].path == prefix + q
                &&& q.len() >= 1
                &&& q[0] == n.id
                &&& (q.len() == 1 || (open.contains(n.id) && n.kind == Kind::Folder
                    && visible_path(n.children, open, q.subrange(1, q.len() as int))))
            },
    decreases n, 0int,
{
    let p = prefix.push(n.id);
    let rows = flat_node_s(n, open, prefix);
    assert(p.subrange(prefix.len() as int, p.len() as int) =~= seq![n.id]);
    assert(prefix + seq![n.id] =~= p);
    if n.kind == Kind::Folder && open.contains(n.id) {
        assert((seq![n.id] + ids_nodes(n.children))[0] == n.id);
        crate::builder::lemma_ids_split_single(n.id, ids_nodes(n.children));
        lemma_flat_nodes_rows_visible(n.children, open, p);
        let crows = flat_nodes_s(n.children, open, p);
        assert forall|i: int|
            0 <= i < rows.len() implies {
            let q = (#[trigger] rows[i]).path.subrange(prefix.len() as int, rows[i].path.len() as int);
            &&& rows[i].path == prefix + q
            &&& q.len() >= 1
            &&& q[0] == n.id
            &&& (q.len() == 1 || (open.contains(n.id) && n.kind == Kind::Folder && visible_path(
                n.children,
                open,
                q.subrange(1, q.len() as int),
            )))
        } by {
            if i > 0 {
                assert(rows[i] == crows[i - 1]);
                let q2 = crows[i - 1].path.subrange(p.len() as int, crows[i - 1].path.len() as int);
                assert(crows[i - 1].path == p + q2);
                let q = rows[i].path.subrange(prefix.len() as int, rows[i].path.len() as int);
                assert(q =~= seq![n.id] + q2);
                assert(rows[i].path =~= prefix + q);
                assert(q[0] == n.id);
                assert(q.subrange(1, q.len() as int) =~= q2);
            }
        }
    }
}

/// Relative to sibling subtrees with unique preorder ids: each row's path
/// extends the prefix by a visible path of the subtrees.
proof fn lemma_flat_nodes_rows_visible(ns: Seq<NodeV>, open: Set<u64>, prefix: Seq<u64>)
    requires
        ids_nodes(ns).no_duplicates(),
    ensures
        forall|i: int|
            0 <= i < flat_nodes_s(ns, open, prefix).len() ==> {
                let q = (#[trigger] flat_nodes_s(ns, open, prefix)[i]).path.subrange(
                    prefix.len() as int,
                    flat_nodes_s(ns, open, prefix)[i].path.len() as int,
                );
                &&& flat_nodes_s(ns, open, prefix)[i].path == prefix + q
                &&& visible_path(ns, open, q)
            },
    decreases ns, 1int,
{
    if ns.len() > 0 {
        let rest = ns.subrange(1, ns.len() as int);
        crate::builder::lemma_ids_head_split(ns);
        lemma_flat_node_rows_visible(ns[0], open, prefix);
        lemma_flat_nodes_rows_visible(rest, open, prefix);
        let arows = flat_node_s(ns[0], open, prefix);
        let brows = flat_nodes_s(rest, open, prefix);
        let rows = flat_nodes_s(ns, open, prefix);
        assert(rows == arows + brows);
        assert forall|i: int|
            0 <= i < rows.len() implies {
            let q = (#[trigger] rows[i]).path.subrange(prefix.len() as int, rows[i].path.len() as int);
            &&& rows[i].path == prefix + q
            &&& visible_path(ns, open, q)
        } by {
            let q = rows[i].path.subrange(prefix.len() as int, rows[i].path.len() as int);
            if i < arows.len() {
                assert(rows[i] == arows[i]);
                assert(q[0] == ns[0].id);
                assert(child_slot(ns, q[0]) == 0);
            } else {
                assert(rows[i] == brows[i - arows.len()]);
                assert(visible_path(rest, open, q));
                lemma_child_slot(rest, q[0]);
                let j = child_slot(rest, q[0]);
                assert(rest[j].id == q[0]);
                crate::builder::lemma_top_id_in_ids(rest, j);
                assert(ids_nodes(rest).contains(q[0]));
                assert(ns[0].id != q[0]) by {
                    assert(ids_node(ns[0])[0] == ns[0].id);
                    assert(ids_node(ns[0]).contains(ns[0].id));
                }
                assert(child_slot(ns, q[0]) == 1 + j);
                assert(ns[1 + j] == rest[j]);
                assert(visible_path(ns, open, q));
            }
        }
    }
}

/// Law: every row of the flattened view names a visible node of the
/// forest, so a selection taken from the view always has all of its
/// ancestors in the open set.
pub proof fn lemma_rows_are_visible(forest: Seq<TreeNode>, open: Set<u64>)
    requires
        ids_nodes(nviews(forest)).no_duplicates(),
    ensures
        forall|i: int|
            0 <= i < rows_of(forest, open).len() ==> visible_path(
                nviews(forest),
                open,
                (#[trigger] rows_of(forest, open)[i]).path,
            ),
{
    lemma_flat_nodes_rows_visible(nviews(forest), open, Seq::<u64>::empty());
    assert forall|i: int|
        0 <= i < rows_of(forest, open).len() implies visible_path(
        nviews(forest),
        open,
        (#[trigger] rows_of(forest, open)[i]).path,
    ) by {
        let r = rows_of(forest, open)[i];
        assert(r.path.subrange(0, r.path.len() as int) =~= r.path);
    }
}

/// Law: a forest whose build ids are unique flattens, under any open set,
/// to rows with pairwise distinct paths.
pub proof fn lemma_rows_distinct(forest: Seq<TreeNode>, open: Set<u64>)
    requires
        ids_nodes(nviews(forest)).no_duplicates(),
    ensures
        forall|a: int, b: int|
            0 <= a < b < rows_of(forest, open).len() ==> rows_of(forest, open)[a].path != rows_of(
                forest,
                open,
            )[b].path,
{
    lemma_flat_nodes_distinct(nviews(forest), open, Seq::<u64>::empty());
}

/// Computes the visible rows of `forest` under the open set `open`.
pub fn flatten(forest: &Vec<TreeNode>, open: &Vec<u64>) -> (r: Vec<Row>)
    ensures
        rows_view(r@) == rows_of(forest@, open@.to_set()),
{
    let mut out: Vec<Row> = Vec::new();
    let pre: Vec<u64> = Vec::new();
    flat_nodes_x(forest, 0, open, &pre, &mut out);
    proof {
        assert(nviews(forest@).subrange(0, forest@.len() as int) =~= nviews(forest@));
        assert(rows_view(out@) =~= rows_of(forest@, open@.to_set()));
    }
    out
}

} // verus!
