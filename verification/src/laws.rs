//! The properties the directory tree guarantees, stated and proved over the
//! tree image: name uniqueness, the non-empty-directory rule, the
//! create/lookup round trip, the dot entries of every listing, same-directory
//! rename, the cross-directory rename rollback, and preservation of acyclic
//! ownership.
use vstd::prelude::*;

use crate::dir::{
    acyclic, chain, cmap, create_node_tr, create_path, edge, ins_pos, lemma_tbl_index,
    lemma_tbl_insert, lemma_tbl_remove, lemma_tbl_unique, lookup_path, node_wf, parent_leaf,
    in_subtree, reaches, remove_node_tr, remove_path, rename_node_tr, rename_tr, resolve_comp,
    tbl_contains,
    tbl_get, tbl_index, tbl_map, tree_wf, virt_entry, NodeView,
};
use crate::path::{first_slash, has_slash, lemma_first_slash, trim_slashes};
use crate::{VfsError, VfsNodeType};

verus! {

// ---------------------------------------------------------------------------
// Name uniqueness.
// ---------------------------------------------------------------------------
/// In a well-formed tree, a directory's child table holds at most one entry
/// per name: two entries with equal names are one entry. Every operation
/// keeps the tree well-formed, so this holds after any sequence of them.
pub proof fn lemma_child_names_unique(v: Seq<NodeView>, d: int)
    requires
        tree_wf(v),
        0 <= d < v.len(),
    ensures
        forall|k1: int, k2: int|
            0 <= k1 < v[d].children.len() && 0 <= k2 < v[d].children.len()
                && v[d].children[k1].0 == v[d].children[k2].0 ==> k1 == k2,
{
    assert(node_wf(v, d));
    lemma_tbl_unique(v[d].children);
}

// ---------------------------------------------------------------------------
// The non-empty-directory rule.
// ---------------------------------------------------------------------------
/// Removing a directory entry whose directory still has children always
/// fails with `DirectoryNotEmpty` and changes nothing; removing it once its
/// table is empty succeeds and takes exactly that name out of the parent's
/// map.
pub proof fn lemma_remove_nonempty_dir(v: Seq<NodeView>, d: int, n: Seq<char>)
    requires
        tree_wf(v),
        0 <= d < v.len(),
        v[d].ty is Dir,
        tbl_contains(v[d].children, n),
        v[tbl_get(v[d].children, n)].ty is Dir,
        v[tbl_get(v[d].children, n)].children.len() > 0,
    ensures
        remove_node_tr(v, d, n) == (v, Err::<(), VfsError>(VfsError::DirectoryNotEmpty)),
{
}

pub proof fn lemma_remove_empty_dir(v: Seq<NodeView>, d: int, n: Seq<char>)
    requires
        tree_wf(v),
        0 <= d < v.len(),
        v[d].ty is Dir,
        tbl_contains(v[d].children, n),
        v[tbl_get(v[d].children, n)].children.len() == 0,
    ensures
        remove_node_tr(v, d, n).1 == Ok::<(), VfsError>(()),
        cmap(remove_node_tr(v, d, n).0, d) == cmap(v, d).remove(n),
{
    assert(node_wf(v, d));
    lemma_tbl_remove(v[d].children, n);
    let t2 = v[d].children.remove(tbl_index(v[d].children, n));
    assert(remove_node_tr(v, d, n).0[d].children == t2);
}

// ---------------------------------------------------------------------------
// The create/lookup round trip.
// ---------------------------------------------------------------------------
/// A plain name (non-empty, not `.` or `..`, without `/`) that is free in a
/// directory can be created as a file there, and looking the same name up
/// afterwards yields exactly the new node, which is a file.
pub proof fn lemma_create_lookup_round_trip(v: Seq<NodeView>, d: int, n: Seq<char>)
    requires
        tree_wf(v),
        0 <= d < v.len(),
        v[d].ty is Dir,
        n.len() > 0,
        n != seq!['.'],
        n != seq!['.', '.'],
        !has_slash(n),
        !tbl_contains(v[d].children, n),
    ensures
        ({
            let (v2, res) = create_node_tr(v, d, n, VfsNodeType::File);
            &&& res == Ok::<(), VfsError>(())
            &&& lookup_path(v2, d, n) == Ok::<int, VfsError>(v.len() as int)
            &&& v2[v.len() as int].ty is File
        }),
{
    assert(node_wf(v, d));
    lemma_tbl_insert(v[d].children, n, v.len() as int);
    let (v2, res) = create_node_tr(v, d, n, VfsNodeType::File);
    assert(n[0] != '/');
    assert(lookup_path(v2, d, n) == resolve_comp(v2, d, n));
    let t2 = v[d].children.insert(ins_pos(v[d].children, n), (n, v.len() as int));
    assert(v2[d].children == t2);
    assert(tbl_contains(t2, n) && tbl_get(t2, n) == v.len() as int) by {
        assert(tbl_map(t2) == tbl_map(v[d].children).insert(n, v.len() as int));
        assert(tbl_map(t2).contains_key(n) == tbl_contains(t2, n));
        assert(tbl_map(t2)[n] == tbl_get(t2, n));
    }
}

// ---------------------------------------------------------------------------
// The dot entries of every listing.
// ---------------------------------------------------------------------------
/// The first two entries of any directory's virtual listing are `.` and
/// `..`, both directories, whatever the directory holds.
pub proof fn lemma_dot_entries(v: Seq<NodeView>, d: int)
    ensures
        virt_entry(v, d, 0) == (seq!['.'], VfsNodeType::Dir),
        virt_entry(v, d, 1) == (seq!['.', '.'], VfsNodeType::Dir),
{
}

// ---------------------------------------------------------------------------
// Same-directory rename.
// ---------------------------------------------------------------------------
/// Renaming an existing entry of a directory to a free plain name succeeds;
/// afterwards the old name is gone, and the new name holds the old entry's
/// node.
pub proof fn lemma_same_dir_rename(v: Seq<NodeView>, d: int, a: Seq<char>, b: Seq<char>)
    requires
        tree_wf(v),
        0 <= d < v.len(),
        v[d].ty is Dir,
        tbl_contains(v[d].children, a),
        !tbl_contains(v[d].children, b),
        a.len() > 0 && a != seq!['.'] && a != seq!['.', '.'] && !has_slash(a),
        b.len() > 0 && b != seq!['.'] && b != seq!['.', '.'] && !has_slash(b),
    ensures
        ({
            let (v2, res) = rename_node_tr(v, d, a, b);
            &&& res == Ok::<(), VfsError>(())
            &&& lookup_path(v2, d, a) == Err::<int, VfsError>(VfsError::NotFound)
            &&& lookup_path(v2, d, b) == Ok::<int, VfsError>(tbl_get(v[d].children, a))
            &&& cmap(v2, d) == cmap(v, d).remove(a).insert(b, cmap(v, d)[a])
        }),
{
    assert(node_wf(v, d));
    lemma_tbl_index(v[d].children, a);
    lemma_tbl_remove(v[d].children, a);
    let id = tbl_get(v[d].children, a);
    let t2 = v[d].children.remove(tbl_index(v[d].children, a));
    assert(!tbl_contains(t2, b)) by {
        assert(tbl_map(t2) == tbl_map(v[d].children).remove(a));
        assert(tbl_map(t2).contains_key(b) == tbl_contains(t2, b));
    }
    lemma_tbl_insert(t2, b, id);
    let t3 = t2.insert(ins_pos(t2, b), (b, id));
    let (v2, res) = rename_node_tr(v, d, a, b);
    assert(v2[d].children == t3);
    assert(a[0] != '/');
    assert(b[0] != '/');
    assert(lookup_path(v2, d, a) == resolve_comp(v2, d, a));
    assert(lookup_path(v2, d, b) == resolve_comp(v2, d, b));
    assert(tbl_map(t3) == tbl_map(v[d].children).remove(a).insert(b, id));
    assert(!tbl_contains(t3, a)) by {
        assert(tbl_map(t3).contains_key(a) == tbl_contains(t3, a));
    }
    assert(tbl_contains(t3, b) && tbl_get(t3, b) == id) by {
        assert(tbl_map(t3).contains_key(b) == tbl_contains(t3, b));
        assert(tbl_map(t3)[b] == tbl_get(t3, b));
    }
    assert(cmap(v, d)[a] == id);
    assert(cmap(v2, d) == cmap(v, d).remove(a).insert(b, id));
}

// ---------------------------------------------------------------------------
// Cross-directory rename rollback.
// ---------------------------------------------------------------------------
/// A cross-directory rename whose destination name is already taken fails
/// with `AlreadyExists` and leaves the tree exactly as it was: the entry is
/// still in the source directory and the destination is untouched.
pub proof fn lemma_cross_rename_rollback(
    v: Seq<NodeView>,
    this: int,
    oldp: Seq<char>,
    newp: Seq<char>,
)
    requires
        tree_wf(v),
        ({
            let (opp, on) = parent_leaf(trim_slashes(oldp));
            let (npp, nn) = parent_leaf(trim_slashes(newp));
            let rop = lookup_path(v, this, opp);
            let rnp = lookup_path(v, this, npp);
            &&& rop is Ok && v[rop->Ok_0].ty is Dir && tbl_contains(v[rop->Ok_0].children, on)
            &&& rnp is Ok && v[rnp->Ok_0].ty is Dir && tbl_contains(v[rnp->Ok_0].children, nn)
            &&& rop->Ok_0 != rnp->Ok_0
            &&& !(v[tbl_get(v[rop->Ok_0].children, on)].ty is Dir && in_subtree(
                v,
                tbl_get(v[rop->Ok_0].children, on),
                rnp->Ok_0,
            ))
        }),
    ensures
        rename_tr(v, this, oldp, newp) == (v, Err::<(), VfsError>(VfsError::AlreadyExists)),
{
}

// ---------------------------------------------------------------------------
// Acyclic ownership.
// ---------------------------------------------------------------------------
/// A fresh tree — one root without children — is acyclic; every later tree
/// arises from it through the operations whose preservation lemmas follow.
pub proof fn lemma_new_tree_acyclic(v: Seq<NodeView>)
    requires
        v.len() == 1,
        v[0].children.len() == 0,
    ensures
        acyclic(v),
{
    assert forall|a: int| !reaches(v, a, a) by {
        if reaches(v, a, a) {
            let p = choose|p: Seq<int>|
                #[trigger] chain(v, p) && p.len() >= 2 && p[0] == a && p.last() == a;
            assert(edge(v, p[0], p[1]));
        }
    }
}

proof fn lemma_chain_sub(v: Seq<NodeView>, p: Seq<int>, a: int, b: int)
    requires
        chain(v, p),
        0 <= a <= b <= p.len(),
    ensures
        chain(v, p.subrange(a, b)),
{
    let q = p.subrange(a, b);
    assert forall|t: int| 0 <= t < q.len() - 1 implies edge(v, #[trigger] q[t], q[t + 1]) by {
        assert(edge(v, p[a + t], p[a + t + 1]));
    }
}

proof fn lemma_chain_concat(v: Seq<NodeView>, p1: Seq<int>, p2: Seq<int>)
    requires
        chain(v, p1),
        chain(v, p2),
        p1.len() > 0 && p2.len() > 0 ==> edge(v, p1.last(), p2[0]),
    ensures
        chain(v, p1 + p2),
{
    let q = p1 + p2;
    assert forall|t: int| 0 <= t < q.len() - 1 implies edge(v, #[trigger] q[t], q[t + 1]) by {
        if t < p1.len() - 1 {
            assert(q[t] == p1[t] && q[t + 1] == p1[t + 1]);
            assert(edge(v, p1[t], p1[t + 1]));
        } else if t == p1.len() - 1 {
            assert(q[t] == p1.last() && q[t + 1] == p2[0]);
        } else {
            assert(q[t] == p2[t - p1.len()] && q[t + 1] == p2[t - p1.len() + 1]);
            assert(edge(v, p2[t - p1.len()], p2[t - p1.len() + 1]));
        }
    }
}

/// If every edge of one tree is an edge of another, acyclicity carries over.
proof fn lemma_acyclic_subset(v1: Seq<NodeView>, v2: Seq<NodeView>)
    requires
        acyclic(v1),
        forall|a: int, b: int| #[trigger] edge(v2, a, b) ==> edge(v1, a, b),
    ensures
        acyclic(v2),
{
    assert forall|a: int| !reaches(v2, a, a) by {
        if reaches(v2, a, a) {
            let p = choose|p: Seq<int>|
                #[trigger] chain(v2, p) && p.len() >= 2 && p[0] == a && p.last() == a;
            assert forall|t: int| 0 <= t < p.len() - 1 implies edge(v1, #[trigger] p[t], p[t + 1]) by {
                assert(edge(v2, p[t], p[t + 1]));
            }
            assert(chain(v1, p));
            assert(reaches(v1, a, a));
        }
    }
}

/// The position of the first step at or after `lo` that is not an edge of
/// `w`.
proof fn first_foreign_step(w: Seq<NodeView>, p: Seq<int>, lo: int) -> (r: int)
    requires
        0 <= lo,
        exists|t: int| lo <= t < p.len() - 1 && !edge(w, #[trigger] p[t], p[t + 1]),
    ensures
        lo <= r < p.len() - 1,
        !edge(w, p[r], p[r + 1]),
        forall|t: int| lo <= t < r ==> edge(w, #[trigger] p[t], p[t + 1]),
    decreases p.len() - lo,
{
    if !edge(w, p[lo], p[lo + 1]) {
        lo
    } else {
        first_foreign_step(w, p, lo + 1)
    }
}

/// Repointing a parent reference touches no child table, so the ownership
/// edges — and with them acyclicity — are untouched.
pub proof fn lemma_set_parent_acyclic(v: Seq<NodeView>, i: int, pa: Option<int>)
    requires
        acyclic(v),
        0 <= i < v.len(),
    ensures
        acyclic(v.update(i, NodeView { parent: pa, ..v[i] })),
{
    let v2 = v.update(i, NodeView { parent: pa, ..v[i] });
    assert forall|a: int, b: int| #[trigger] edge(v2, a, b) implies edge(v, a, b) by {
        assert(v2[a].children == v[a].children);
    }
    lemma_acyclic_subset(v, v2);
}

/// Creating a node cannot close a cycle: the fresh node has no children, so
/// no walk can leave it.
pub proof fn lemma_create_node_acyclic(v: Seq<NodeView>, d: int, n: Seq<char>, ty: VfsNodeType)
    requires
        tree_wf(v),
        0 <= d < v.len(),
        v[d].ty is Dir,
        acyclic(v),
    ensures
        acyclic(create_node_tr(v, d, n, ty).0),
{
    let v2 = create_node_tr(v, d, n, ty).0;
    if !tbl_contains(v[d].children, n) && (ty is File || ty is Dir) {
        let nid = v.len() as int;
        assert(node_wf(v, d));
        lemma_tbl_insert(v[d].children, n, nid);
        let t = v[d].children;
        let pos = ins_pos(t, n);
        let t2 = t.insert(pos, (n, nid));
        crate::dir::lemma_ins_pos(t, n);
        assert(v2[d].children == t2);
        assert(v2[nid].children.len() == 0);
        assert forall|a: int, b: int| #[trigger] edge(v2, a, b) && b != nid implies edge(
            v,
            a,
            b,
        ) by {
            let k = choose|k: int|
                0 <= k < v2[a].children.len() && #[trigger] v2[a].children[k].1 == b;
            if a == d {
                if k < pos {
                    assert(t2[k] == t[k]);
                    assert(v[a].children[k].1 == b);
                } else if k > pos {
                    assert(t2[k] == t[k - 1]);
                    assert(v[a].children[k - 1].1 == b);
                }
            } else if a == nid {
                assert(v2[nid].children.len() == 0);
            } else {
                assert(v2[a].children == v[a].children);
                assert(v[a].children[k].1 == b);
            }
        }
        assert forall|a: int| !reaches(v2, a, a) by {
            if reaches(v2, a, a) {
                let p = choose|p: Seq<int>|
                    #[trigger] chain(v2, p) && p.len() >= 2 && p[0] == a && p.last() == a;
                if exists|q: int| 0 <= q < p.len() && p[q] == nid {
                    let q = choose|q: int| 0 <= q < p.len() && p[q] == nid;
                    if q < p.len() - 1 {
                        assert(edge(v2, p[q], p[q + 1]));
                        assert(false);
                    } else {
                        assert(p[0] == nid);
                        assert(edge(v2, p[0], p[1]));
                        assert(false);
                    }
                } else {
                    assert forall|t: int| 0 <= t < p.len() - 1 implies edge(
                        v,
                        #[trigger] p[t],
                        p[t + 1],
                    ) by {
                        assert(edge(v2, p[t], p[t + 1]));
                        assert(p[t + 1] != nid);
                    }
                    assert(chain(v, p));
                    assert(reaches(v, a, a));
                }
            }
        }
    }
}

/// Removing an entry only discards edges, so no cycle can appear.
pub proof fn lemma_remove_node_acyclic(v: Seq<NodeView>, d: int, n: Seq<char>)
    requires
        tree_wf(v),
        0 <= d < v.len(),
        v[d].ty is Dir,
        acyclic(v),
    ensures
        acyclic(remove_node_tr(v, d, n).0),
{
    let v2 = remove_node_tr(v, d, n).0;
    if tbl_contains(v[d].children, n) {
        let id = tbl_get(v[d].children, n);
        if !(v[id].ty is Dir && v[id].children.len() > 0) {
            assert(node_wf(v, d));
            lemma_tbl_index(v[d].children, n);
            assert forall|a: int, b: int| #[trigger] edge(v2, a, b) implies edge(v, a, b) by {
                let k = choose|k: int|
                    0 <= k < v2[a].children.len() && #[trigger] v2[a].children[k].1 == b;
                if a == d {
                    let pos = tbl_index(v[d].children, n);
                    if k < pos {
                        assert(v[a].children[k].1 == b);
                    } else {
                        assert(v[a].children[k + 1].1 == b);
                    }
                } else {
                    assert(v[a].children[k].1 == b);
                }
            }
            lemma_acyclic_subset(v, v2);
        }
    }
}

/// A same-directory rename keeps the edges exactly, so acyclicity is kept.
pub proof fn lemma_rename_node_acyclic(v: Seq<NodeView>, d: int, a_n: Seq<char>, b_n: Seq<char>)
    requires
        tree_wf(v),
        0 <= d < v.len(),
        v[d].ty is Dir,
        acyclic(v),
    ensures
        acyclic(rename_node_tr(v, d, a_n, b_n).0),
{
    let v2 = rename_node_tr(v, d, a_n, b_n).0;
    if tbl_contains(v[d].children, a_n) && !tbl_contains(v[d].children, b_n) {
        assert(node_wf(v, d));
        lemma_tbl_index(v[d].children, a_n);
        lemma_tbl_remove(v[d].children, a_n);
        let id = tbl_get(v[d].children, a_n);
        let pos = tbl_index(v[d].children, a_n);
        let t2 = v[d].children.remove(pos);
        let p2 = ins_pos(t2, b_n);
        crate::dir::lemma_ins_pos(t2, b_n);
        assert forall|a: int, b: int| #[trigger] edge(v2, a, b) implies edge(v, a, b) by {
            let k = choose|k: int|
                0 <= k < v2[a].children.len() && #[trigger] v2[a].children[k].1 == b;
            if a == d {
                if k == p2 {
                    assert(v[d].children[pos].1 == b);
                } else {
                    let k2 = if k < p2 {
                        k
                    } else {
                        k - 1
                    };
                    assert(v2[a].children[k] == t2[k2]);
                    if k2 < pos {
                        assert(v[a].children[k2].1 == b);
                    } else {
                        assert(v[a].children[k2 + 1].1 == b);
                    }
                }
            } else {
                assert(v[a].children[k].1 == b);
            }
        }
        lemma_acyclic_subset(v, v2);
    }
}

/// Moving an entry from one directory into another cannot close a cycle: a
/// would-be cycle has to pass through the one new edge and then leave the
/// moved node, which a file cannot do at all, and what remains of the cycle
/// would make the destination a descendant of the moved directory — the
/// shape `rename` refuses.
pub proof fn lemma_cross_move_acyclic(
    v: Seq<NodeView>,
    op: int,
    np: int,
    on: Seq<char>,
    nn: Seq<char>,
)
    requires
        tree_wf(v),
        0 <= op < v.len(),
        0 <= np < v.len(),
        v[op].ty is Dir,
        v[np].ty is Dir,
        op != np,
        tbl_contains(v[op].children, on),
        !tbl_contains(v[np].children, nn),
        acyclic(v),
        v[tbl_get(v[op].children, on)].ty is File || (tbl_get(v[op].children, on) != np
            && !reaches(v, tbl_get(v[op].children, on), np)),
    ensures
        ({
            let id = tbl_get(v[op].children, on);
            let t2 = v[op].children.remove(tbl_index(v[op].children, on));
            let v2 = v.update(op, NodeView { children: t2, ..v[op] });
            let t3 = v2[np].children.insert(ins_pos(v2[np].children, nn), (nn, id));
            acyclic(v2.update(np, NodeView { children: t3, ..v2[np] }))
        }),
{
    let id = tbl_get(v[op].children, on);
    let t2 = v[op].children.remove(tbl_index(v[op].children, on));
    let v2 = v.update(op, NodeView { children: t2, ..v[op] });
    let t3 = v2[np].children.insert(ins_pos(v2[np].children, nn), (nn, id));
    let v3 = v2.update(np, NodeView { children: t3, ..v2[np] });
    assert(node_wf(v, op));
    assert(node_wf(v, np));
    lemma_tbl_index(v[op].children, on);
    crate::dir::lemma_ins_pos(v[np].children, nn);
    let pos = tbl_index(v[op].children, on);
    let p3 = ins_pos(v[np].children, nn);
    // Every edge of the new tree is an old edge or the one new edge np -> id.
    assert forall|a: int, b: int| #[trigger] edge(v3, a, b) && !(a == np && b == id) implies edge(
        v,
        a,
        b,
    ) by {
        let k = choose|k: int| 0 <= k < v3[a].children.len() && #[trigger] v3[a].children[k].1 == b;
        if a == np {
            if k == p3 {
                assert(b == id);
            } else {
                let k2 = if k < p3 {
                    k
                } else {
                    k - 1
                };
                assert(v3[a].children[k] == v[np].children[k2]);
                assert(v[a].children[k2].1 == b);
            }
        } else if a == op {
            if k < pos {
                assert(v[a].children[k].1 == b);
            } else {
                assert(v[a].children[k + 1].1 == b);
            }
        } else {
            assert(v[a].children[k].1 == b);
        }
    }
    assert forall|a: int| !reaches(v3, a, a) by {
        if reaches(v3, a, a) {
            let p = choose|p: Seq<int>|
                #[trigger] chain(v3, p) && p.len() >= 2 && p[0] == a && p.last() == a;
            if forall|t: int| 0 <= t < p.len() - 1 ==> edge(v, #[trigger] p[t], p[t + 1]) {
                assert(chain(v, p));
                assert(reaches(v, a, a));
                assert(false);
            } else {
                let w = choose|t: int| 0 <= t < p.len() - 1 && !edge(v, #[trigger] p[t], p[t + 1]);
                assert(!edge(v, p[w], p[w + 1]));
                let t1 = first_foreign_step(v, p, 0);
                assert(edge(v3, p[t1], p[t1 + 1]));
                assert(p[t1] == np && p[t1 + 1] == id);
                if v[id].ty is File {
                    assert(0 <= id < v.len()) by {
                        assert(v[op].children[pos].1 == id);
                    }
                    assert(node_wf(v, id));
                    assert(id != op && id != np);
                    assert(v3[id] == v[id]);
                    assert(v3[id].children.len() == 0);
                    if t1 + 1 < p.len() - 1 {
                        assert(edge(v3, p[t1 + 1], p[t1 + 2]));
                        assert(false);
                    } else {
                        assert(p[t1 + 1] == p.last() && p.last() == p[0]);
                        assert(edge(v3, p[0], p[1]));
                        assert(false);
                    }
                } else if exists|t: int| t1 + 1 <= t < p.len() - 1 && !edge(v, #[trigger] p[t], p[t + 1]) {
                    let t2i = first_foreign_step(v, p, t1 + 1);
                    assert(p[t2i] == np && p[t2i + 1] == id);
                    if t2i == t1 + 1 {
                        assert(p[t1 + 1] == np);
                        assert(false);
                    }
                    let s = p.subrange(t1 + 1, t2i + 1);
                    lemma_chain_sub(v3, p, t1 + 1, t2i + 1);
                    assert forall|t: int| 0 <= t < s.len() - 1 implies edge(
                        v,
                        #[trigger] s[t],
                        s[t + 1],
                    ) by {
                        assert(edge(v, p[t1 + 1 + t], p[t1 + 1 + t + 1]));
                        assert(s[t] == p[t1 + 1 + t] && s[t + 1] == p[t1 + 1 + t + 1]);
                    }
                    assert(chain(v, s));
                    assert(s[0] == id && s.last() == np && s.len() >= 2);
                    assert(reaches(v, id, np));
                    assert(false);
                } else {
                    // The one foreign step: walk the rest of the cycle round.
                    let s1 = p.subrange(t1 + 1, p.len() as int);
                    let s2 = p.subrange(1, t1 + 1);
                    let s = s1 + s2;
                    assert forall|t: int| 0 <= t < s1.len() - 1 implies edge(
                        v,
                        #[trigger] s1[t],
                        s1[t + 1],
                    ) by {
                        assert(s1[t] == p[t1 + 1 + t] && s1[t + 1] == p[t1 + 2 + t]);
                        assert(edge(v, p[t1 + 1 + t], p[t1 + 2 + t]));
                    }
                    assert(chain(v, s1));
                    assert forall|t: int| 0 <= t < s2.len() - 1 implies edge(
                        v,
                        #[trigger] s2[t],
                        s2[t + 1],
                    ) by {
                        assert(s2[t] == p[1 + t] && s2[t + 1] == p[2 + t]);
                        assert(edge(v, p[1 + t], p[2 + t]));
                    }
                    assert(chain(v, s2));
                    if s2.len() > 0 {
                        assert(s1.last() == p.last() && p.last() == p[0]);
                        assert(s2[0] == p[1]);
                        assert(edge(v, p[0], p[1]));
                        assert(edge(v, s1.last(), s2[0]));
                    }
                    lemma_chain_concat(v, s1, s2);
                    assert(s[0] == p[t1 + 1] && p[t1 + 1] == id);
                    assert(s.last() == if s2.len() > 0 {
                        s2.last()
                    } else {
                        s1.last()
                    });
                    assert(s.last() == np) by {
                        if s2.len() > 0 {
                            assert(s2.last() == p[t1]);
                        } else {
                            assert(t1 == 0);
                            assert(s1.last() == p.last() && p.last() == p[0] && p[0] == p[t1]);
                        }
                    }
                    assert(s.len() == p.len() - 1 >= 2) by {
                        if p.len() == 2 {
                            assert(p[t1] == np && p[t1 + 1] == id);
                            assert(p[0] == p.last());
                            assert(false);
                        }
                    }
                    assert(chain(v, s));
                    assert(reaches(v, id, np));
                    assert(false);
                }
            }
        }
    }
}

/// A resolved component of a well-formed tree is a node of the tree.
proof fn lemma_resolve_comp_valid(v: Seq<NodeView>, this: int, name: Seq<char>)
    requires
        tree_wf(v),
        0 <= this < v.len(),
    ensures
        resolve_comp(v, this, name) matches Ok(next) ==> 0 <= next < v.len(),
{
    assert(node_wf(v, this));
    if !(name.len() == 0 || name == seq!['.']) && name != seq!['.', '.'] && tbl_contains(
        v[this].children,
        name,
    ) {
        lemma_tbl_index(v[this].children, name);
    }
}

/// `create` at any path keeps ownership acyclic.
pub proof fn lemma_create_path_acyclic(v: Seq<NodeView>, this: int, p: Seq<char>, ty: VfsNodeType)
    requires
        tree_wf(v),
        0 <= this < v.len(),
        v[this].ty is Dir,
        acyclic(v),
    ensures
        acyclic(create_path(v, this, p, ty).0),
    decreases p.len(),
{
    if p.len() > 0 && p[0] == '/' {
        lemma_create_path_acyclic(v, this, p.skip(1), ty);
    } else if !has_slash(p) {
        if !(p.len() == 0 || p == seq!['.'] || p == seq!['.', '.']) {
            lemma_create_node_acyclic(v, this, p, ty);
        }
    } else {
        lemma_first_slash(p);
        let head = p.take(first_slash(p));
        let rest = p.skip(first_slash(p) + 1);
        lemma_resolve_comp_valid(v, this, head);
        match resolve_comp(v, this, head) {
            Err(_) => {
            },
            Ok(next) => {
                if v[next].ty is Dir {
                    lemma_create_path_acyclic(v, next, rest, ty);
                }
            },
        }
    }
}

/// `remove` at any path keeps ownership acyclic.
pub proof fn lemma_remove_path_acyclic(v: Seq<NodeView>, this: int, p: Seq<char>)
    requires
        tree_wf(v),
        0 <= this < v.len(),
        v[this].ty is Dir,
        acyclic(v),
    ensures
        acyclic(remove_path(v, this, p).0),
    decreases p.len(),
{
    if p.len() > 0 && p[0] == '/' {
        lemma_remove_path_acyclic(v, this, p.skip(1));
    } else if !has_slash(p) {
        if !(p.len() == 0 || p == seq!['.'] || p == seq!['.', '.']) {
            lemma_remove_node_acyclic(v, this, p);
        }
    } else {
        lemma_first_slash(p);
        let head = p.take(first_slash(p));
        let rest = p.skip(first_slash(p) + 1);
        lemma_resolve_comp_valid(v, this, head);
        match resolve_comp(v, this, head) {
            Err(_) => {
            },
            Ok(next) => {
                if v[next].ty is Dir {
                    lemma_remove_path_acyclic(v, next, rest);
                }
            },
        }
    }
}

/// `rename` keeps ownership acyclic on every input: a cross-directory move
/// that would put a directory inside its own subtree is refused, and every
/// other move is covered by the lemmas above.
pub proof fn lemma_rename_acyclic(v: Seq<NodeView>, this: int, oldp: Seq<char>, newp: Seq<char>)
    requires
        tree_wf(v),
        0 <= this < v.len(),
        acyclic(v),
    ensures
        acyclic(rename_tr(v, this, oldp, newp).0),
{
    let (opp, on) = parent_leaf(trim_slashes(oldp));
    let (npp, nn) = parent_leaf(trim_slashes(newp));
    match lookup_path(v, this, opp) {
        Err(_) => {
        },
        Ok(op) => {
            if v[op].ty is Dir {
                match lookup_path(v, this, npp) {
                    Err(_) => {
                    },
                    Ok(np) => {
                        if v[np].ty is Dir {
                            lemma_lookup_path_valid(v, this, opp);
                            lemma_lookup_path_valid(v, this, npp);
                            if op == np {
                                lemma_rename_node_acyclic(v, op, on, nn);
                            } else if tbl_contains(v[op].children, on) && !tbl_contains(
                                v[np].children,
                                nn,
                            ) {
                                let id = tbl_get(v[op].children, on);
                                if !(v[id].ty is Dir && in_subtree(v, id, np)) {
                                    assert(node_wf(v, op));
                                    lemma_tbl_index(v[op].children, on);
                                    assert(0 <= id < v.len()) by {
                                        assert(v[op].children[tbl_index(v[op].children, on)].1
                                            == id);
                                    }
                                    assert(node_wf(v, id));
                                    lemma_cross_move_acyclic(v, op, np, on, nn);
                                }
                            }
                        }
                    },
                }
            }
        },
    }
}

/// A path that resolves at all resolves to a node of the tree.
pub proof fn lemma_lookup_path_valid(v: Seq<NodeView>, this: int, p: Seq<char>)
    requires
        tree_wf(v),
        0 <= this < v.len(),
    ensures
        lookup_path(v, this, p) matches Ok(id) ==> 0 <= id < v.len(),
    decreases p.len(),
{
    if p.len() > 0 && p[0] == '/' {
        lemma_lookup_path_valid(v, this, p.skip(1));
    } else if !has_slash(p) {
        lemma_resolve_comp_valid(v, this, p);
    } else {
        lemma_first_slash(p);
        let head = p.take(first_slash(p));
        let rest = p.skip(first_slash(p) + 1);
        lemma_resolve_comp_valid(v, this, head);
        match resolve_comp(v, this, head) {
            Err(_) => {
            },
            Ok(next) => {
                if v[next].ty is Dir {
                    lemma_lookup_path_valid(v, next, rest);
                }
            },
        }
    }
}

} // verus!
