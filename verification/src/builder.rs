//! The tree builder: turns a forest of `Group` records into a `TreeNode`
//! forest, merging same-labelled sibling folders and hoisting the children of
//! sentinel-path groups into the parent level.
//!
//! The ghost functions `build_group_s` / `build_forest_s` are the
//! specification of the whole algorithm; `build` is proved to return exactly
//! their result (node ids are minted by a counter that the specification
//! threads through as `next`).

use vstd::prelude::*;

use crate::model::{sentinel, nview, nviews, Group, Kind, NodeV, TreeNode, ValidationError};
use crate::model::{is_sentinel, lemma_nviews_index};

verus! {

broadcast use crate::model::lemma_nviews_index;

/// A forest is valid when every group path, recursively, is non-empty.
pub open spec fn ok_group(g: Group) -> bool
    decreases g, 0int,
{
    g.path@.len() > 0 && ok_groups(g.subgroups@)
}

/// Validity of a sequence of sibling groups.
pub open spec fn ok_groups(gs: Seq<Group>) -> bool
    decreases gs, 1int,
{
    gs.len() == 0 || (ok_group(gs[0]) && ok_groups(gs.subrange(1, gs.len() as int)))
}

/// How many node ids a build of `g` mints: one per host, one per
/// non-sentinel group (minted even when the folder is later merged away).
pub open spec fn minted_group(g: Group) -> nat
    decreases g, 0int,
{
    g.hosts@.len() + minted_groups(g.subgroups@) + if g.path@ == sentinel() {
        0nat
    } else {
        1nat
    }
}

/// Ids minted by a sequence of sibling groups.
pub open spec fn minted_groups(gs: Seq<Group>) -> nat
    decreases gs, 1int,
{
    if gs.len() == 0 {
        0nat
    } else {
        minted_group(gs[0]) + minted_groups(gs.subrange(1, gs.len() as int))
    }
}

/// The first position in `acc` holding a folder labelled `label`, or
/// `acc.len()` when there is none.
pub open spec fn folder_slot(acc: Seq<NodeV>, label: Seq<char>) -> int
    decreases acc,
{
    if acc.len() == 0 {
        0int
    } else if acc[0].kind == Kind::Folder && acc[0].label == label {
        0int
    } else {
        1 + folder_slot(acc.subrange(1, acc.len() as int), label)
    }
}

/// Adding one built node to a sibling accumulator: a folder whose label an
/// earlier sibling folder already carries is merged into it (its children
/// are appended, again with merging); everything else is appended.
pub open spec fn add_node_s(acc: Seq<NodeV>, n: NodeV) -> Seq<NodeV>
    decreases n, 0int,
{
    let j = folder_slot(acc, n.label);
    if n.kind == Kind::Folder && j < acc.len() {
        acc.update(j, NodeV { children: add_nodes_s(acc[j].children, n.children), ..acc[j] })
    } else {
        acc.push(n)
    }
}

/// Adds a sequence of built nodes one by one.
pub open spec fn add_nodes_s(acc: Seq<NodeV>, ns: Seq<NodeV>) -> Seq<NodeV>
    decreases ns, 1int,
{
    if ns.len() == 0 {
        acc
    } else {
        add_nodes_s(add_node_s(acc, ns[0]), ns.subrange(1, ns.len() as int))
    }
}

/// One host leaf per entry, ids minted in source order starting at `next`.
pub open spec fn hosts_nodes_s(hosts: Seq<Seq<char>>, next: int) -> Seq<NodeV> {
    Seq::new(
        hosts.len(),
        |i: int|
            NodeV {
                id: (next + i) as u64,
                label: hosts[i],
                kind: Kind::Host,
                children: Seq::empty(),
            },
    )
}

/// What one group builds to: the merged results of its subgroups, then its
/// own hosts; a sentinel group yields that list unwrapped, any other group
/// wraps it in a single fresh folder. Returns the nodes and the next free id.
pub open spec fn build_group_s(g: Group, next: int) -> (Seq<NodeV>, int)
    decreases g, 0int,
{
    let sub = build_forest_s(g.subgroups@, Seq::<NodeV>::empty(), next);
    let kids = sub.0 + hosts_nodes_s(g.hosts.deep_view(), sub.1);
    let n2 = sub.1 + g.hosts@.len();
    if g.path@ == sentinel() {
        (kids, n2)
    } else {
        (
            seq![NodeV { id: n2 as u64, label: g.path@, kind: Kind::Folder, children: kids }],
            n2 + 1,
        )
    }
}

/// Folds a sequence of sibling groups into an accumulator, merging as it
/// goes. Returns the accumulated siblings and the next free id.
pub open spec fn build_forest_s(gs: Seq<Group>, acc: Seq<NodeV>, next: int) -> (Seq<NodeV>, int)
    decreases gs, 1int,
{
    if gs.len() == 0 {
        (acc, next)
    } else {
        let one = build_group_s(gs[0], next);
        build_forest_s(gs.subrange(1, gs.len() as int), add_nodes_s(acc, one.0), one.1)
    }
}

/// The forest a valid input builds to, ids minted from 0.
pub open spec fn built_forest(gs: Seq<Group>) -> Seq<NodeV> {
    build_forest_s(gs, Seq::<NodeV>::empty(), 0).0
}

/// The id counter advances by exactly the minted count of the group.
pub proof fn lemma_minted_group(g: Group, next: int)
    ensures
        build_group_s(g, next).1 == next + minted_group(g),
    decreases g, 0int,
{
    lemma_minted_forest(g.subgroups@, Seq::<NodeV>::empty(), next);
}

/// The id counter advances by exactly the minted count of the sequence.
pub proof fn lemma_minted_forest(gs: Seq<Group>, acc: Seq<NodeV>, next: int)
    ensures
        build_forest_s(gs, acc, next).1 == next + minted_groups(gs),
    decreases gs, 1int,
{
    if gs.len() > 0 {
        lemma_minted_group(gs[0], next);
        lemma_minted_forest(
            gs.subrange(1, gs.len() as int),
            add_nodes_s(acc, build_group_s(gs[0], next).0),
            build_group_s(gs[0], next).1,
        );
    }
}

/// All ids of one node's subtree, in preorder.
pub open spec fn ids_node(n: NodeV) -> Seq<u64>
    decreases n, 0int,
{
    seq![n.id] + ids_nodes(n.children)
}

/// All ids of a sequence of subtrees, in preorder.
pub open spec fn ids_nodes(ns: Seq<NodeV>) -> Seq<u64>
    decreases ns, 1int,
{
    if ns.len() == 0 {
        Seq::<u64>::empty()
    } else {
        ids_node(ns[0]) + ids_nodes(ns.subrange(1, ns.len() as int))
    }
}

/// Every element of `s` lies in `[lo, hi)`.
pub open spec fn ids_in_range(s: Seq<u64>, lo: int, hi: int) -> bool {
    forall|k: int| 0 <= k < s.len() ==> lo <= #[trigger] s[k] < hi
}

/// Two sequences share no element.
pub open spec fn ids_disjoint(a: Seq<u64>, b: Seq<u64>) -> bool {
    forall|x: u64| !(a.contains(x) && b.contains(x))
}

/// Concatenating duplicate-free, disjoint sequences stays duplicate-free.
proof fn lemma_no_dup_concat(a: Seq<u64>, b: Seq<u64>)
    requires
        a.no_duplicates(),
        b.no_duplicates(),
        ids_disjoint(a, b),
    ensures
        (a + b).no_duplicates(),
{
    assert forall|i: int, j: int| 0 <= i < j < (a + b).len() implies (a + b)[i] != (a + b)[j] by {
        if i < a.len() && j >= a.len() {
            assert((a + b)[i] == a[i]);
            assert(a.contains(a[i]));
            assert((a + b)[j] == b[j - a.len()]);
            assert(b.contains(b[j - a.len()]));
        }
    }
}

/// A duplicate-free concatenation has duplicate-free, disjoint halves.
proof fn lemma_no_dup_split(a: Seq<u64>, b: Seq<u64>)
    requires
        (a + b).no_duplicates(),
    ensures
        a.no_duplicates(),
        b.no_duplicates(),
        ids_disjoint(a, b),
{
    assert forall|i: int, j: int| 0 <= i < j < a.len() implies a[i] != a[j] by {
        assert((a + b)[i] == a[i]);
        assert((a + b)[j] == a[j]);
    }
    assert forall|i: int, j: int| 0 <= i < j < b.len() implies b[i] != b[j] by {
        assert((a + b)[i + a.len()] == b[i]);
        assert((a + b)[j + a.len()] == b[j]);
    }
    assert forall|x: u64| !(a.contains(x) && b.contains(x)) by {
        if a.contains(x) && b.contains(x) {
            let i = choose|i: int| 0 <= i < a.len() && a[i] == x;
            let j = choose|j: int| 0 <= j < b.len() && b[j] == x;
            assert((a + b)[i] == x);
            assert((a + b)[j + a.len()] == x);
        }
    }
}

/// A duplicate-free id list headed by `x` has `x` nowhere in its tail.
pub proof fn lemma_ids_split_single(x: u64, rest: Seq<u64>)
    requires
        (seq![x] + rest).no_duplicates(),
    ensures
        rest.no_duplicates(),
        !rest.contains(x),
{
    lemma_no_dup_split(seq![x], rest);
    assert(seq![x][0] == x);
    assert(seq![x].contains(x));
}

/// The preorder ids of a non-empty sequence split around the first subtree.
pub proof fn lemma_ids_head_split(ns: Seq<NodeV>)
    requires
        ns.len() > 0,
        ids_nodes(ns).no_duplicates(),
    ensures
        ids_node(ns[0]).no_duplicates(),
        ids_nodes(ns.subrange(1, ns.len() as int)).no_duplicates(),
        ids_disjoint(ids_node(ns[0]), ids_nodes(ns.subrange(1, ns.len() as int))),
        ids_nodes(ns)[0] == ns[0].id,
        forall|k: int|
            0 <= k < ids_nodes(ns.subrange(1, ns.len() as int)).len() ==> ids_nodes(ns)[k
                + ids_node(ns[0]).len()] == #[trigger] ids_nodes(
                ns.subrange(1, ns.len() as int),
            )[k],
{
    lemma_no_dup_split(ids_node(ns[0]), ids_nodes(ns.subrange(1, ns.len() as int)));
    assert(ids_node(ns[0])[0] == ns[0].id);
}

/// The id of any top-level node appears among the sequence's preorder ids.
pub proof fn lemma_top_id_in_ids(ns: Seq<NodeV>, j: int)
    requires
        0 <= j < ns.len(),
    ensures
        ids_nodes(ns).contains(ns[j].id),
{
    lemma_ids_nodes_split(ns, j);
    let pre = ids_nodes(ns.subrange(0, j));
    assert(ids_node(ns[j])[0] == ns[j].id);
    assert(ids_nodes(ns)[pre.len() as int] == ns[j].id);
}

/// The preorder ids of a sequence split around any one position.
proof fn lemma_ids_nodes_split(ns: Seq<NodeV>, j: int)
    requires
        0 <= j < ns.len(),
    ensures
        ids_nodes(ns) == ids_nodes(ns.subrange(0, j)) + ids_node(ns[j]) + ids_nodes(
            ns.subrange(j + 1, ns.len() as int),
        ),
    decreases j,
{
    if j == 0 {
        assert(ns.subrange(0, 0) =~= Seq::<NodeV>::empty());
        assert(ids_nodes(ns.subrange(0, 0)) + ids_node(ns[0]) =~= ids_node(ns[0]));
    } else {
        let rest = ns.subrange(1, ns.len() as int);
        lemma_ids_nodes_split(rest, j - 1);
        assert(rest[j - 1] == ns[j]);
        assert(rest.subrange(0, j - 1) =~= ns.subrange(1, j));
        assert(rest.subrange(j, rest.len() as int) =~= ns.subrange(j + 1, ns.len() as int));
        assert(ns.subrange(0, j)[0] == ns[0]);
        assert(ns.subrange(0, j).subrange(1, j) =~= ns.subrange(1, j));
        assert(ids_nodes(ns) =~= ids_nodes(ns.subrange(0, j)) + ids_node(ns[j]) + ids_nodes(
            ns.subrange(j + 1, ns.len() as int),
        ));
    }
}

/// Membership in a concatenation is membership in either half.
proof fn lemma_concat_contains(a: Seq<u64>, b: Seq<u64>)
    ensures
        forall|x: u64| (a + b).contains(x) <==> a.contains(x) || b.contains(x),
{
    assert forall|x: u64| (a + b).contains(x) implies a.contains(x) || b.contains(x) by {
        let i = choose|i: int| 0 <= i < (a + b).len() && (a + b)[i] == x;
        if i < a.len() {
            assert(a[i] == x);
        } else {
            assert(b[i - a.len()] == x);
        }
    }
    assert forall|x: u64| a.contains(x) || b.contains(x) implies (a + b).contains(x) by {
        if a.contains(x) {
            let i = choose|i: int| 0 <= i < a.len() && a[i] == x;
            assert((a + b)[i] == x);
        } else {
            let i = choose|i: int| 0 <= i < b.len() && b[i] == x;
            assert((a + b)[i + a.len()] == x);
        }
    }
}

/// Adding one built node neither drops the accumulator's ids into conflict
/// nor invents new ones: the result's ids are duplicate-free and drawn from
/// the two inputs.
proof fn lemma_add_node_ids(acc: Seq<NodeV>, n: NodeV)
    requires
        ids_nodes(acc).no_duplicates(),
        ids_node(n).no_duplicates(),
        ids_disjoint(ids_nodes(acc), ids_node(n)),
    ensures
        ids_nodes(add_node_s(acc, n)).no_duplicates(),
        forall|x: u64|
            ids_nodes(add_node_s(acc, n)).contains(x) ==> ids_nodes(acc).contains(x) || ids_node(
                n,
            ).contains(x),
    decreases n, 0int,
{
    let j = folder_slot(acc, n.label);
    if n.kind == Kind::Folder && j < acc.len() {
        lemma_folder_slot(acc, n.label);
        lemma_ids_nodes_split(acc, j);
        let pre = ids_nodes(acc.subrange(0, j));
        let at = ids_node(acc[j]);
        let post = ids_nodes(acc.subrange(j + 1, acc.len() as int));
        let ca = ids_nodes(acc[j].children);
        let cn = ids_nodes(n.children);
        lemma_no_dup_split(pre + at, post);
        lemma_no_dup_split(pre, at);
        lemma_no_dup_split(seq![acc[j].id], ca);
        lemma_no_dup_split(seq![n.id], cn);
        lemma_concat_contains(pre + at, post);
        lemma_concat_contains(pre, at);
        lemma_concat_contains(seq![acc[j].id], ca);
        lemma_concat_contains(seq![n.id], cn);
        assert forall|x: u64| !(ca.contains(x) && cn.contains(x)) by {
            if ca.contains(x) && cn.contains(x) {
                assert(ids_nodes(acc).contains(x));
                assert(ids_node(n).contains(x));
            }
        }
        lemma_add_nodes_ids(acc[j].children, n.children);
        let merged = ids_nodes(add_nodes_s(acc[j].children, n.children));
        let e_ids = seq![acc[j].id] + merged;
        assert(!merged.contains(acc[j].id)) by {
            if merged.contains(acc[j].id) {
                assert(seq![acc[j].id][0] == acc[j].id);
                assert(seq![acc[j].id].contains(acc[j].id));
                if ca.contains(acc[j].id) {
                    assert(!(seq![acc[j].id].contains(acc[j].id) && ca.contains(acc[j].id)));
                } else {
                    assert(cn.contains(acc[j].id));
                    assert(ids_node(n).contains(acc[j].id));
                    assert(at.contains(acc[j].id));
                    assert((pre + at).contains(acc[j].id));
                    assert(ids_nodes(acc).contains(acc[j].id));
                }
            }
        }
        assert(seq![acc[j].id].no_duplicates());
        assert forall|x: u64| !(seq![acc[j].id].contains(x) && merged.contains(x)) by {
            if seq![acc[j].id].contains(x) {
                assert(x == acc[j].id);
            }
        }
        lemma_no_dup_concat(seq![acc[j].id], merged);
        lemma_concat_contains(seq![acc[j].id], merged);
        let upd = acc.update(j, NodeV { children: add_nodes_s(acc[j].children, n.children), ..acc[j] });
        lemma_ids_nodes_split(upd, j);
        assert(upd.subrange(0, j) =~= acc.subrange(0, j));
        assert(upd.subrange(j + 1, upd.len() as int) =~= acc.subrange(j + 1, acc.len() as int));
        assert(ids_node(upd[j]) == e_ids);
        assert forall|x: u64| !(pre.contains(x) && e_ids.contains(x)) by {
            if pre.contains(x) && e_ids.contains(x) {
                assert((pre + at).contains(x));
                assert(ids_nodes(acc).contains(x));
                if at.contains(x) {
                } else if cn.contains(x) {
                    assert(ids_node(n).contains(x));
                }
            }
        }
        lemma_no_dup_concat(pre, e_ids);
        lemma_concat_contains(pre, e_ids);
        assert forall|x: u64| !((pre + e_ids).contains(x) && post.contains(x)) by {
            if (pre + e_ids).contains(x) && post.contains(x) {
                assert((pre + at).contains(x) || ids_node(n).contains(x)) by {
                    if e_ids.contains(x) {
                        if x == acc[j].id || ca.contains(x) {
                            assert(at.contains(x));
                        } else {
                            assert(cn.contains(x));
                        }
                    }
                }
                assert(ids_nodes(acc).contains(x));
            }
        }
        lemma_no_dup_concat(pre + e_ids, post);
        lemma_concat_contains(pre + e_ids, post);
        assert(ids_nodes(add_node_s(acc, n)) == pre + e_ids + post);
        assert forall|x: u64|
            ids_nodes(add_node_s(acc, n)).contains(x) implies ids_nodes(acc).contains(x)
            || ids_node(n).contains(x) by {
            if (pre + e_ids).contains(x) {
                if pre.contains(x) {
                    assert((pre + at).contains(x));
                    assert(ids_nodes(acc).contains(x));
                } else {
                    assert(e_ids.contains(x));
                    if x == acc[j].id || ca.contains(x) {
                        assert(at.contains(x));
                        assert((pre + at).contains(x));
                        assert(ids_nodes(acc).contains(x));
                    } else {
                        assert(merged.contains(x));
                        assert(cn.contains(x));
                        assert(ids_node(n).contains(x));
                    }
                }
            } else {
                assert(post.contains(x));
                assert(ids_nodes(acc).contains(x));
            }
        }
    } else {
        let pushed = acc.push(n);
        lemma_ids_nodes_split(pushed, acc.len() as int);
        assert(pushed.subrange(0, acc.len() as int) =~= acc);
        assert(pushed.subrange(acc.len() as int + 1, pushed.len() as int) =~= Seq::<NodeV>::empty());
        assert(ids_nodes(pushed) =~= ids_nodes(acc) + ids_node(n) + Seq::<u64>::empty());
        assert(ids_nodes(acc) + ids_node(n) + Seq::<u64>::empty() =~= ids_nodes(acc) + ids_node(n));
        lemma_no_dup_concat(ids_nodes(acc), ids_node(n));
        lemma_concat_contains(ids_nodes(acc), ids_node(n));
    }
}

/// Folding a sequence of built nodes into the accumulator keeps the ids
/// duplicate-free and drawn from the two inputs.
proof fn lemma_add_nodes_ids(acc: Seq<NodeV>, ns: Seq<NodeV>)
    requires
        ids_nodes(acc).no_duplicates(),
        ids_nodes(ns).no_duplicates(),
        ids_disjoint(ids_nodes(acc), ids_nodes(ns)),
    ensures
        ids_nodes(add_nodes_s(acc, ns)).no_duplicates(),
        forall|x: u64|
            ids_nodes(add_nodes_s(acc, ns)).contains(x) ==> ids_nodes(acc).contains(x)
                || ids_nodes(ns).contains(x),
    decreases ns, 1int,
{
    if ns.len() > 0 {
        let rest = ns.subrange(1, ns.len() as int);
        lemma_no_dup_split(ids_node(ns[0]), ids_nodes(rest));
        lemma_concat_contains(ids_node(ns[0]), ids_nodes(rest));
        lemma_add_node_ids(acc, ns[0]);
        let mid = add_node_s(acc, ns[0]);
        assert forall|x: u64| !(ids_nodes(mid).contains(x) && ids_nodes(rest).contains(x)) by {
            if ids_nodes(mid).contains(x) && ids_nodes(rest).contains(x) {
                assert(ids_nodes(ns).contains(x));
            }
        }
        lemma_add_nodes_ids(mid, rest);
    }
}

/// Preorder ids distribute over concatenation of sibling sequences.
proof fn lemma_ids_nodes_concat(a: Seq<NodeV>, b: Seq<NodeV>)
    ensures
        ids_nodes(a + b) == ids_nodes(a) + ids_nodes(b),
    decreases a,
{
    if a.len() == 0 {
        assert(a + b =~= b);
        assert(ids_nodes(a) + ids_nodes(b) =~= ids_nodes(b));
    } else {
        let rest = a.subrange(1, a.len() as int);
        lemma_ids_nodes_concat(rest, b);
        assert((a + b)[0] == a[0]);
        assert((a + b).subrange(1, (a + b).len() as int) =~= rest + b);
        assert(ids_node(a[0]) + (ids_nodes(rest) + ids_nodes(b)) =~= (ids_node(a[0]) + ids_nodes(
            rest,
        )) + ids_nodes(b));
    }
}

/// The host leaves mint consecutive fresh ids.
proof fn lemma_hosts_ids(hosts: Seq<Seq<char>>, next: int)
    requires
        0 <= next,
        next + hosts.len() <= u64::MAX + 1,
    ensures
        ids_nodes(hosts_nodes_s(hosts, next)).no_duplicates(),
        ids_in_range(ids_nodes(hosts_nodes_s(hosts, next)), next, next + hosts.len()),
    decreases hosts.len(),
{
    let hs = hosts_nodes_s(hosts, next);
    if hosts.len() > 0 {
        let hrest = hosts.subrange(1, hosts.len() as int);
        assert(hs[0].children =~= Seq::<NodeV>::empty());
        assert(ids_node(hs[0]) =~= seq![hs[0].id]);
        assert(hs.subrange(1, hs.len() as int) =~= hosts_nodes_s(hrest, next + 1));
        lemma_hosts_ids(hrest, next + 1);
        let rest_ids = ids_nodes(hosts_nodes_s(hrest, next + 1));
        assert(hs[0].id == next);
        assert forall|x: u64| !(seq![hs[0].id].contains(x) && rest_ids.contains(x)) by {
            if seq![hs[0].id].contains(x) && rest_ids.contains(x) {
                let k = choose|k: int| 0 <= k < rest_ids.len() && rest_ids[k] == x;
                assert(next + 1 <= rest_ids[k]);
                assert(x == hs[0].id);
            }
        }
        assert(seq![hs[0].id].no_duplicates());
        lemma_no_dup_concat(seq![hs[0].id], rest_ids);
        assert forall|k: int|
            0 <= k < ids_nodes(hs).len() implies next <= #[trigger] ids_nodes(hs)[k] < next
            + hosts.len() by {
            if k > 0 {
                assert(ids_nodes(hs)[k] == rest_ids[k - 1]);
            }
        }
    }
}

/// The builder mints fresh ids only: everything one group contributes lies
/// in the freshly minted range, without duplicates.
proof fn lemma_build_group_ids(g: Group, next: int)
    requires
        0 <= next,
        next + minted_group(g) <= u64::MAX + 1,
    ensures
        ids_nodes(build_group_s(g, next).0).no_duplicates(),
        ids_in_range(ids_nodes(build_group_s(g, next).0), next, build_group_s(g, next).1),
    decreases g, 0int,
{
    let sub = build_forest_s(g.subgroups@, Seq::<NodeV>::empty(), next);
    lemma_minted_forest(g.subgroups@, Seq::<NodeV>::empty(), next);
    lemma_build_forest_ids(g.subgroups@, Seq::<NodeV>::empty(), next, next);
    let hn = hosts_nodes_s(g.hosts.deep_view(), sub.1);
    lemma_hosts_ids(g.hosts.deep_view(), sub.1);
    let n2 = sub.1 + g.hosts@.len();
    lemma_ids_nodes_concat(sub.0, hn);
    let kid_ids = ids_nodes(sub.0 + hn);
    assert forall|x: u64| !(ids_nodes(sub.0).contains(x) && ids_nodes(hn).contains(x)) by {
        if ids_nodes(sub.0).contains(x) && ids_nodes(hn).contains(x) {
            let k1 = choose|k: int| 0 <= k < ids_nodes(sub.0).len() && ids_nodes(sub.0)[k] == x;
            let k2 = choose|k: int| 0 <= k < ids_nodes(hn).len() && ids_nodes(hn)[k] == x;
            assert(ids_nodes(sub.0)[k1] < sub.1);
            assert(sub.1 <= ids_nodes(hn)[k2]);
        }
    }
    lemma_no_dup_concat(ids_nodes(sub.0), ids_nodes(hn));
    assert(ids_in_range(kid_ids, next, n2)) by {
        assert forall|k: int| 0 <= k < kid_ids.len() implies next <= #[trigger] kid_ids[k]
            < n2 by {
            if k < ids_nodes(sub.0).len() {
                assert(kid_ids[k] == ids_nodes(sub.0)[k]);
            } else {
                assert(kid_ids[k] == ids_nodes(hn)[k - ids_nodes(sub.0).len()]);
            }
        }
    }
    if g.path@ == sentinel() {
    } else {
        let node = NodeV { id: n2 as u64, label: g.path@, kind: Kind::Folder, children: sub.0 + hn };
        let one = seq![node];
        assert(one.subrange(1, 1) =~= Seq::<NodeV>::empty());
        assert(ids_nodes(one) =~= ids_node(node));
        assert(node.id == n2);
        assert(!kid_ids.contains(node.id)) by {
            if kid_ids.contains(node.id) {
                let k = choose|k: int| 0 <= k < kid_ids.len() && kid_ids[k] == node.id;
                assert(kid_ids[k] < n2);
            }
        }
        assert(seq![node.id].no_duplicates());
        assert forall|x: u64| !(seq![node.id].contains(x) && kid_ids.contains(x)) by {
            if seq![node.id].contains(x) {
                assert(x == node.id);
            }
        }
        lemma_no_dup_concat(seq![node.id], kid_ids);
        assert forall|k: int|
            0 <= k < ids_node(node).len() implies next <= #[trigger] ids_node(node)[k] < n2
            + 1 by {
            if k > 0 {
                assert(ids_node(node)[k] == kid_ids[k - 1]);
            }
        }
    }
}

/// Folding sibling groups into an accumulator whose ids sit below the
/// counter keeps all ids duplicate-free and below the advanced counter.
proof fn lemma_build_forest_ids(gs: Seq<Group>, acc: Seq<NodeV>, next: int, lo: int)
    requires
        0 <= lo <= next,
        next + minted_groups(gs) <= u64::MAX + 1,
        ids_nodes(acc).no_duplicates(),
        ids_in_range(ids_nodes(acc), lo, next),
    ensures
        ids_nodes(build_forest_s(gs, acc, next).0).no_duplicates(),
        ids_in_range(
            ids_nodes(build_forest_s(gs, acc, next).0),
            lo,
            build_forest_s(gs, acc, next).1,
        ),
    decreases gs, 1int,
{
    if gs.len() > 0 {
        let rest = gs.subrange(1, gs.len() as int);
        let one = build_group_s(gs[0], next);
        lemma_minted_group(gs[0], next);
        lemma_build_group_ids(gs[0], next);
        assert forall|x: u64| !(ids_nodes(acc).contains(x) && ids_nodes(one.0).contains(x)) by {
            if ids_nodes(acc).contains(x) && ids_nodes(one.0).contains(x) {
                let k1 = choose|k: int| 0 <= k < ids_nodes(acc).len() && ids_nodes(acc)[k] == x;
                let k2 = choose|k: int|
                    0 <= k < ids_nodes(one.0).len() && ids_nodes(one.0)[k] == x;
                assert(ids_nodes(acc)[k1] < next);
                assert(next <= ids_nodes(one.0)[k2]);
            }
        }
        lemma_add_nodes_ids(acc, one.0);
        let acc2 = add_nodes_s(acc, one.0);
        assert(ids_in_range(ids_nodes(acc2), lo, one.1)) by {
            assert forall|k: int|
                0 <= k < ids_nodes(acc2).len() implies lo <= #[trigger] ids_nodes(acc2)[k]
                < one.1 by {
                let x = ids_nodes(acc2)[k];
                assert(ids_nodes(acc2).contains(x));
                if ids_nodes(acc).contains(x) {
                    let k1 = choose|i: int|
                        0 <= i < ids_nodes(acc).len() && ids_nodes(acc)[i] == x;
                    assert(lo <= ids_nodes(acc)[k1] < next);
                } else {
                    assert(ids_nodes(one.0).contains(x));
                    let k2 = choose|i: int|
                        0 <= i < ids_nodes(one.0).len() && ids_nodes(one.0)[i] == x;
                    assert(next <= ids_nodes(one.0)[k2] < one.1);
                }
            }
        }
        lemma_build_forest_ids(rest, acc2, one.1, lo);
    }
}

/// Law: no two nodes in one build share an id — the preorder id list of
/// the built forest is free of duplicates.
pub proof fn lemma_built_forest_ids_unique(gs: Seq<Group>)
    requires
        minted_groups(gs) <= u64::MAX,
    ensures
        ids_nodes(built_forest(gs)).no_duplicates(),
{
    lemma_build_forest_ids(gs, Seq::<NodeV>::empty(), 0, 0);
}

/// Size of one ghost node, counting the node and all its descendants.
pub open spec fn nsize(n: NodeV) -> nat
    decreases n, 0int,
{
    1 + nsizes(n.children)
}

/// Size of a sequence of ghost nodes.
pub open spec fn nsizes(ns: Seq<NodeV>) -> nat
    decreases ns, 1int,
{
    if ns.len() == 0 {
        0nat
    } else {
        nsize(ns[0]) + nsizes(ns.subrange(1, ns.len() as int))
    }
}

/// `folder_slot` is the first matching position: nothing before it matches,
/// and it matches unless it is `acc.len()`.
proof fn lemma_folder_slot(acc: Seq<NodeV>, label: Seq<char>)
    ensures
        0 <= folder_slot(acc, label) <= acc.len(),
        folder_slot(acc, label) < acc.len() ==> acc[folder_slot(acc, label)].kind == Kind::Folder
            && acc[folder_slot(acc, label)].label == label,
        forall|k: int|
            0 <= k < folder_slot(acc, label) ==> !(acc[k].kind == Kind::Folder && acc[k].label
                == label),
    decreases acc,
{
    if acc.len() > 0 && !(acc[0].kind == Kind::Folder && acc[0].label == label) {
        let sub = acc.subrange(1, acc.len() as int);
        lemma_folder_slot(sub, label);
        assert forall|k: int|
            0 <= k < folder_slot(acc, label) implies !(acc[k].kind == Kind::Folder && acc[k].label
            == label) by {
            if k > 0 {
                assert(acc[k] == sub[k - 1]);
            }
        }
    }
}

/// Finds the first folder in `acc` labelled `label`, as `folder_slot` does.
fn folder_slot_x(acc: &Vec<TreeNode>, label: &String) -> (j: usize)
    ensures
        j as int == folder_slot(nviews(acc@), label@),
{
    proof {
        lemma_folder_slot(nviews(acc@), label@);
    }
    let mut i: usize = 0;
    while i < acc.len()
        invariant
            i <= acc.len(),
            forall|k: int|
                0 <= k < i ==> !((#[trigger] nviews(acc@)[k]).kind == Kind::Folder && nviews(
                    acc@,
                )[k].label == label@),
        decreases acc.len() - i,
    {
        let hit = match acc[i].kind {
            Kind::Folder => acc[i].label == *label,
            Kind::Host => false,
        };
        if hit {
            proof {
                lemma_folder_slot(nviews(acc@), label@);
                let s = folder_slot(nviews(acc@), label@);
                assert(nviews(acc@)[i as int].kind == Kind::Folder);
                assert(!(s < i));
                assert(!(s > i)) by {
                    if s > i {
                        assert(!(nviews(acc@)[i as int].kind == Kind::Folder && nviews(
                            acc@,
                        )[i as int].label == label@));
                    }
                }
            }
            return i;
        }
        i += 1;
    }
    proof {
        lemma_folder_slot(nviews(acc@), label@);
        let s = folder_slot(nviews(acc@), label@);
        assert(!(s < acc@.len()));
    }
    acc.len()
}

/// Adds one built node to the accumulator, merging folders by label.
#[verifier::rlimit(80)]
fn add_node(acc: &mut Vec<TreeNode>, n: TreeNode)
    ensures
        nviews(final(acc)@) == add_node_s(nviews(old(acc)@), nview(n)),
    decreases nsize(nview(n)), 0int,
{
    let ghost acc0 = nviews(old(acc)@);
    let j = folder_slot_x(acc, &n.label);
    let is_folder = match n.kind {
        Kind::Folder => true,
        Kind::Host => false,
    };
    if is_folder && j < acc.len() {
        let mut e = acc.remove(j);
        let TreeNode { children: mut cs, .. } = n;
        add_children(&mut e.children, &mut cs);
        proof {
            assert(nview(e) == NodeV {
                children: add_nodes_s(acc0[j as int].children, nview(n).children),
                ..acc0[j as int]
            });
        }
        acc.insert(j, e);
        proof {
            old(acc)@.remove_ensures(j as int);
            old(acc)@.remove(j as int).insert_ensures(j as int, e);
            assert(nviews(acc@) =~= acc0.update(
                j as int,
                NodeV {
                    children: add_nodes_s(acc0[j as int].children, nview(n).children),
                    ..acc0[j as int]
                },
            ));
        }
    } else {
        acc.push(n);
        proof {
            assert(acc@.subrange(0, acc@.len() - 1) =~= old(acc)@);
            assert(nviews(acc@) =~= acc0.push(nview(n)));
        }
    }
}

/// Drains `ns` into the accumulator in order, merging folders by label.
fn add_children(acc: &mut Vec<TreeNode>, ns: &mut Vec<TreeNode>)
    ensures
        nviews(final(acc)@) == add_nodes_s(nviews(old(acc)@), nviews(old(ns)@)),
    decreases nsizes(nviews(ns@)), 1int,
{
    proof {
        lemma_nviews_index(ns@);
    }
    if ns.len() > 0 {
        let n = ns.remove(0);
        proof {
            old(ns)@.remove_ensures(0);
            assert(ns@ =~= old(ns)@.subrange(1, old(ns)@.len() as int));
            assert(nviews(ns@) =~= nviews(old(ns)@).subrange(1, nviews(old(ns)@).len() as int));
            assert(nview(n) == nviews(old(ns)@)[0]);
        }
        add_node(acc, n);
        add_children(acc, ns);
    }
}

/// Builds one group: on success, the nodes it contributes to its parent's
/// level (one folder, or the unwrapped list for a sentinel group) and the
/// next free id.
fn build_group_x(g: &Group, next: u64) -> (r: Result<(Vec<TreeNode>, u64), ValidationError>)
    requires
        next + minted_group(*g) <= u64::MAX,
    ensures
        r is Ok <==> ok_group(*g),
        r matches Ok(p) ==> nviews(p.0@) == build_group_s(*g, next as int).0 && p.1 as int
            == build_group_s(*g, next as int).1,
    decreases *g, 0int,
{
    if g.path.as_str().is_empty() {
        return Err(ValidationError::EmptyPath);
    }
    proof {
        assert(g.subgroups@.subrange(0, g.subgroups@.len() as int) =~= g.subgroups@);
    }
    let mut kids: Vec<TreeNode> = Vec::new();
    let next1 = match build_forest_x(&g.subgroups, 0, &mut kids, next) {
        Ok(n1) => n1,
        Err(e) => { return Err(e) },
    };
    let ghost n1i = next1 as int;
    let ghost subsv = build_forest_s(g.subgroups@, Seq::<NodeV>::empty(), next as int).0;
    let ghost hn = hosts_nodes_s(g.hosts.deep_view(), n1i);
    let ghost extra: int = if g.path@ == sentinel() { 0int } else { 1int };
    proof {
        lemma_minted_forest(g.subgroups@, Seq::<NodeV>::empty(), next as int);
        assert(n1i + g.hosts@.len() + extra <= u64::MAX);
        assert(hn.subrange(0, 0) =~= Seq::<NodeV>::empty());
        assert(nviews(kids@) == subsv + hn.subrange(0, 0));
    }
    let mut next2 = next1;
    let mut h: usize = 0;
    while h < g.hosts.len()
        invariant
            h <= g.hosts@.len(),
            next2 as int == n1i + h,
            n1i + g.hosts@.len() + extra <= u64::MAX,
            extra >= 0,
            hn == hosts_nodes_s(g.hosts.deep_view(), n1i),
            nviews(kids@) == subsv + hn.subrange(0, h as int),
        decreases g.hosts@.len() - h,
    {
        let node = TreeNode {
            id: next2,
            label: g.hosts[h].clone(),
            kind: Kind::Host,
            children: Vec::new(),
        };
        let ghost nv = nview(node);
        let ghost kv = kids@;
        kids.push(node);
        proof {
            assert(nv.children =~= Seq::<NodeV>::empty());
            assert(nv == hn[h as int]);
            assert(kids@.subrange(0, kids@.len() - 1) =~= kv);
            assert(hn.subrange(0, h as int + 1) =~= hn.subrange(0, h as int).push(hn[h as int]));
            assert(nviews(kids@) =~= subsv + hn.subrange(0, h as int + 1));
        }
        next2 = next2 + 1;
        h = h + 1;
    }
    proof {
        assert(hn.subrange(0, g.hosts@.len() as int) =~= hn);
    }
    if is_sentinel(&g.path) {
        Ok((kids, next2))
    } else {
        let node = TreeNode { id: next2, label: g.path.clone(), kind: Kind::Folder, children: kids };
        let ghost nv = nview(node);
        let mut one: Vec<TreeNode> = Vec::new();
        one.push(node);
        proof {
            assert(nviews(one@) =~= seq![nv]);
        }
        Ok((one, next2 + 1))
    }
}

/// Folds the groups `gs[i..]` into the accumulator, merging as it goes.
fn build_forest_x(gs: &Vec<Group>, i: usize, acc: &mut Vec<TreeNode>, next: u64) -> (r: Result<
    u64,
    ValidationError,
>)
    requires
        i <= gs@.len(),
        next + minted_groups(gs@.subrange(i as int, gs@.len() as int)) <= u64::MAX,
    ensures
        r is Ok <==> ok_groups(gs@.subrange(i as int, gs@.len() as int)),
        r matches Ok(n2) ==> nviews(final(acc)@) == build_forest_s(
            gs@.subrange(i as int, gs@.len() as int),
            nviews(old(acc)@),
            next as int,
        ).0 && n2 as int == build_forest_s(
            gs@.subrange(i as int, gs@.len() as int),
            nviews(old(acc)@),
            next as int,
        ).1,
    decreases gs@.subrange(i as int, gs@.len() as int), 1int,
{
    let ghost tail = gs@.subrange(i as int, gs@.len() as int);
    if i == gs.len() {
        return Ok(next);
    }
    proof {
        assert(tail[0] == gs@[i as int]);
        assert(tail.subrange(1, tail.len() as int) =~= gs@.subrange(i as int + 1, gs@.len() as int));
        assert(decreases_to!(tail => tail[0]));
        assert(decreases_to!(tail => tail.subrange(1, tail.len() as int)));
    }
    let one = match build_group_x(&gs[i], next) {
        Ok(p) => p,
        Err(e) => { return Err(e) },
    };
    let (mut items, n1) = one;
    proof {
        lemma_minted_group(gs@[i as int], next as int);
    }
    add_children(acc, &mut items);
    build_forest_x(gs, i + 1, acc, n1)
}

/// Builds the display forest for `forest`: the merged results of the
/// top-level groups, in source order, with fresh ids minted from 0.
///
/// Returns `Err(ValidationError::EmptyPath)` exactly when some group,
/// anywhere in the forest, has an empty path.
pub fn build(forest: &Vec<Group>) -> (r: Result<Vec<TreeNode>, ValidationError>)
    requires
        minted_groups(forest@) <= u64::MAX,
    ensures
        r is Ok <==> ok_groups(forest@),
        r matches Ok(ns) ==> nviews(ns@) == built_forest(forest@),
{
    let mut acc: Vec<TreeNode> = Vec::new();
    proof {
        assert(forest@.subrange(0, forest@.len() as int) =~= forest@);
    }
    match build_forest_x(forest, 0, &mut acc, 0) {
        Ok(_) => Ok(acc),
        Err(e) => Err(e),
    }
}

} // verus!
