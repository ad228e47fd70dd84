//! The directory tree: an arena of nodes with name-sorted child tables,
//! parent back-references, and the lookup / create / remove / enumerate /
//! rename operations over slash-separated paths.
use vstd::prelude::*;
use vstd::string::StrSliceExecFns;
use vstd::string::StringExecFns;

use crate::name::{lemma_lex_transitive, lemma_lex_trichotomy, lex_lt, str_eq, str_lt};
use crate::path::{
    first_slash, has_slash, last_slash, lemma_first_slash, lemma_trim_slashes, split_parent_name,
    split_path, trim_slashes,
};
use crate::{VfsError, VfsNodeType};

verus! {

/// The attributes a node reports: its type and a logical size. Directories
/// report a fixed logical size of 4096 and no block count.
pub struct VfsNodeAttr {
    pub ty: VfsNodeType,
    pub size: u64,
    pub blocks: u64,
}

impl VfsNodeAttr {
    /// Directory attributes with the given size and block count.
    pub fn new_dir(size: u64, blocks: u64) -> (r: VfsNodeAttr)
        ensures
            r.ty is Dir,
            r.size == size,
            r.blocks == blocks,
    {
        VfsNodeAttr { ty: VfsNodeType::Dir, size, blocks }
    }

    /// Regular-file attributes with the given size and block count.
    pub fn new_file(size: u64, blocks: u64) -> (r: VfsNodeAttr)
        ensures
            r.ty is File,
            r.size == size,
            r.blocks == blocks,
    {
        VfsNodeAttr { ty: VfsNodeType::File, size, blocks }
    }

    /// The node type the attributes report.
    pub fn file_type(&self) -> (r: VfsNodeType)
        ensures
            r == self.ty,
    {
        self.ty
    }
}

/// One entry of a directory listing: an entry name and the entry's type.
pub struct VfsDirEntry {
    pub name: String,
    pub ty: VfsNodeType,
}

impl VfsDirEntry {
    pub fn new(name: String, ty: VfsNodeType) -> (r: VfsDirEntry)
        ensures
            r.name@ == name@,
            r.ty == ty,
    {
        VfsDirEntry { name, ty }
    }
}

/// One vertex of the tree. A directory owns its children through the entries
/// of its child table; the parent field is a plain non-owning index.
pub struct DirNode {
    /// The node's kind; the tree itself only ever creates `File` and `Dir`.
    pub ty: VfsNodeType,
    /// The arena index of the enclosing directory, absent at a root.
    pub parent: Option<usize>,
    /// The child table, sorted strictly by name.
    pub children: Vec<(String, usize)>,
}

/// The mathematical image of one node.
#[verifier::ext_equal]
pub struct NodeView {
    pub ty: VfsNodeType,
    pub parent: Option<int>,
    pub children: Seq<(Seq<char>, int)>,
}

impl View for DirNode {
    type V = NodeView;

    open spec fn view(&self) -> NodeView {
        NodeView {
            ty: self.ty,
            parent: match self.parent {
                Some(p) => Some(p as int),
                None => None,
            },
            children: tbl_view(self.children@),
        }
    }
}

/// The image of a child table: each entry a name and an arena index.
pub open spec fn tbl_view(t: Seq<(String, usize)>) -> Seq<(Seq<char>, int)> {
    Seq::new(t.len(), |k: int| (t[k].0@, t[k].1 as int))
}

/// The directory tree: an arena of nodes referring to each other by index.
/// Slot 0 is the root directory; removed nodes stay in the arena, detached
/// from every child table, until the whole tree is dropped.
pub struct DirTree {
    pub nodes: Vec<DirNode>,
}

impl View for DirTree {
    type V = Seq<NodeView>;

    open spec fn view(&self) -> Seq<NodeView> {
        Seq::new(self.nodes@.len(), |i: int| self.nodes@[i]@)
    }
}

// ---------------------------------------------------------------------------
// The sorted child table: membership, lookup index, insertion position.
// ---------------------------------------------------------------------------
/// Whether the table holds an entry with the given name.
pub open spec fn tbl_contains(t: Seq<(Seq<char>, int)>, n: Seq<char>) -> bool {
    exists|k: int| 0 <= k < t.len() && t[k].0 == n
}

/// The position of the first entry with the given name.
pub open spec fn tbl_index(t: Seq<(Seq<char>, int)>, n: Seq<char>) -> int
    decreases t.len(),
{
    if t.len() == 0 {
        0
    } else if t[0].0 == n {
        0
    } else {
        1 + tbl_index(t.skip(1), n)
    }
}

/// The node index stored under the given name.
pub open spec fn tbl_get(t: Seq<(Seq<char>, int)>, n: Seq<char>) -> int {
    t[tbl_index(t, n)].1
}

/// The table as a map from names to node indices.
pub open spec fn tbl_map(t: Seq<(Seq<char>, int)>) -> Map<Seq<char>, int> {
    Map::new(|n: Seq<char>| tbl_contains(t, n), |n: Seq<char>| tbl_get(t, n))
}

/// The position where a new entry of the given name belongs: just before the
/// first entry whose name is greater.
pub open spec fn ins_pos(t: Seq<(Seq<char>, int)>, n: Seq<char>) -> int
    decreases t.len(),
{
    if t.len() == 0 {
        0
    } else if lex_lt(n, t[0].0) {
        0
    } else {
        1 + ins_pos(t.skip(1), n)
    }
}

/// Whether the table is sorted strictly by name.
pub open spec fn tbl_sorted(t: Seq<(Seq<char>, int)>) -> bool {
    forall|i: int, j: int| 0 <= i < j < t.len() ==> lex_lt(t[i].0, t[j].0)
}

pub proof fn lemma_tbl_index(t: Seq<(Seq<char>, int)>, n: Seq<char>)
    requires
        tbl_contains(t, n),
    ensures
        0 <= tbl_index(t, n) < t.len(),
        t[tbl_index(t, n)].0 == n,
        forall|j: int| 0 <= j < tbl_index(t, n) ==> t[j].0 != n,
    decreases t.len(),
{
    if t.len() > 0 && t[0].0 != n {
        let w = choose|k: int| 0 <= k < t.len() && t[k].0 == n;
        assert(t.skip(1)[w - 1].0 == n);
        lemma_tbl_index(t.skip(1), n);
        assert forall|j: int| 0 <= j < tbl_index(t, n) implies t[j].0 != n by {
            if j >= 1 {
                assert(t.skip(1)[j - 1].0 != n);
            }
        }
    }
}

/// Within a sorted table, names identify positions.
pub proof fn lemma_tbl_unique(t: Seq<(Seq<char>, int)>)
    requires
        tbl_sorted(t),
    ensures
        forall|k1: int, k2: int|
            0 <= k1 < t.len() && 0 <= k2 < t.len() && t[k1].0 == t[k2].0 ==> k1 == k2,
{
    assert forall|k1: int, k2: int|
        0 <= k1 < t.len() && 0 <= k2 < t.len() && t[k1].0 == t[k2].0 implies k1 == k2 by {
        if k1 < k2 {
            lemma_lex_trichotomy(t[k1].0, t[k2].0);
        }
        if k2 < k1 {
            lemma_lex_trichotomy(t[k2].0, t[k1].0);
        }
    }
}

pub proof fn lemma_ins_pos(t: Seq<(Seq<char>, int)>, n: Seq<char>)
    ensures
        0 <= ins_pos(t, n) <= t.len(),
        forall|j: int| 0 <= j < ins_pos(t, n) ==> !lex_lt(n, t[j].0),
        ins_pos(t, n) < t.len() ==> lex_lt(n, t[ins_pos(t, n)].0),
    decreases t.len(),
{
    if t.len() > 0 && !lex_lt(n, t[0].0) {
        lemma_ins_pos(t.skip(1), n);
        assert forall|j: int| 0 <= j < ins_pos(t, n) implies !lex_lt(n, t[j].0) by {
            if j >= 1 {
                assert(!lex_lt(n, t.skip(1)[j - 1].0));
            }
        }
        if ins_pos(t, n) < t.len() {
            assert(lex_lt(n, t.skip(1)[ins_pos(t, n) - 1].0));
        }
    }
}

/// Inserting a fresh name at its position keeps the table sorted and adds
/// exactly that name to the table's map.
pub proof fn lemma_tbl_insert(t: Seq<(Seq<char>, int)>, n: Seq<char>, id: int)
    requires
        tbl_sorted(t),
        !tbl_contains(t, n),
    ensures
        ({
            let t2 = t.insert(ins_pos(t, n), (n, id));
            &&& tbl_sorted(t2)
            &&& tbl_map(t2) == tbl_map(t).insert(n, id)
            &&& t2.len() == t.len() + 1
        }),
{
    lemma_ins_pos(t, n);
    let p = ins_pos(t, n);
    let t2 = t.insert(p, (n, id));
    assert forall|j: int| 0 <= j < p implies lex_lt(t[j].0, n) by {
        lemma_lex_trichotomy(n, t[j].0);
    }
    assert forall|i: int, j: int| 0 <= i < j < t2.len() implies lex_lt(t2[i].0, t2[j].0) by {
        if i < p && j == p {
        } else if i == p && j > p {
            if j - 1 > p {
                lemma_lex_transitive(n, t[p].0, t[j - 1].0);
            }
        } else if i < p && j > p {
            if j - 1 == p {
                lemma_lex_transitive(t[i].0, n, t[p].0);
            }
        }
    }
    lemma_tbl_unique(t2);
    assert forall|m: Seq<char>| #[trigger] tbl_contains(t2, m) implies m == n || tbl_contains(
        t,
        m,
    ) by {
        let k = choose|k: int| 0 <= k < t2.len() && t2[k].0 == m;
        if k < p {
            assert(t[k].0 == m);
        } else if k > p {
            assert(t[k - 1].0 == m);
        }
    }
    assert forall|m: Seq<char>| m == n || tbl_contains(t, m) implies #[trigger] tbl_contains(
        t2,
        m,
    ) by {
        if m == n {
            assert(t2[p].0 == m);
        } else {
            let k = choose|k: int| 0 <= k < t.len() && t[k].0 == m;
            if k < p {
                assert(t2[k].0 == m);
            } else {
                assert(t2[k + 1].0 == m);
            }
        }
    }
    assert forall|m: Seq<char>| tbl_contains(t2, m) && m != n implies tbl_get(t2, m) == tbl_get(
        t,
        m,
    ) by {
        lemma_tbl_index(t2, m);
        lemma_tbl_unique(t);
        lemma_tbl_index(t, m);
        let k2 = tbl_index(t2, m);
        let k1 = tbl_index(t, m);
        if k1 < p {
            assert(t2[k1].0 == m);
            lemma_tbl_unique(t2);
        } else {
            assert(t2[k1 + 1].0 == m);
            lemma_tbl_unique(t2);
        }
    }
    assert(tbl_contains(t2, n) && tbl_get(t2, n) == id) by {
        lemma_tbl_index(t2, n);
        lemma_tbl_unique(t2);
        assert(t2[p].0 == n);
    }
    assert(tbl_map(t2) =~= tbl_map(t).insert(n, id));
}

/// Removing an entry keeps the table sorted and removes exactly its name
/// from the table's map.
pub proof fn lemma_tbl_remove(t: Seq<(Seq<char>, int)>, n: Seq<char>)
    requires
        tbl_sorted(t),
        tbl_contains(t, n),
    ensures
        ({
            let t2 = t.remove(tbl_index(t, n));
            &&& tbl_sorted(t2)
            &&& tbl_map(t2) == tbl_map(t).remove(n)
            &&& t2.len() == t.len() - 1
        }),
{
    lemma_tbl_index(t, n);
    lemma_tbl_unique(t);
    let p = tbl_index(t, n);
    let t2 = t.remove(p);
    assert forall|m: Seq<char>| #[trigger] tbl_contains(t2, m) implies tbl_contains(t, m) && m
        != n by {
        let k = choose|k: int| 0 <= k < t2.len() && t2[k].0 == m;
        if k < p {
            assert(t[k].0 == m);
        } else {
            assert(t[k + 1].0 == m);
        }
    }
    assert forall|m: Seq<char>| tbl_contains(t, m) && m != n implies #[trigger] tbl_contains(
        t2,
        m,
    ) by {
        let k = choose|k: int| 0 <= k < t.len() && t[k].0 == m;
        if k < p {
            assert(t2[k].0 == m);
        } else {
            assert(t2[k - 1].0 == m);
        }
    }
    assert forall|m: Seq<char>| tbl_contains(t2, m) implies tbl_get(t2, m) == tbl_get(t, m) by {
        lemma_tbl_index(t2, m);
        lemma_tbl_unique(t2);
        lemma_tbl_index(t, m);
        let k1 = tbl_index(t, m);
        if k1 < p {
            assert(t2[k1].0 == m);
        } else {
            assert(t2[k1 - 1].0 == m);
        }
    }
    assert(tbl_map(t2) =~= tbl_map(t).remove(n));
}

// ---------------------------------------------------------------------------
// Transitions of the single-table operations, as functions of the tree image.
// ---------------------------------------------------------------------------
/// What creating a child named `n` of kind `ty` under directory `this` does:
/// the resulting tree and the reported outcome.
pub open spec fn create_node_tr(v: Seq<NodeView>, this: int, n: Seq<char>, ty: VfsNodeType) -> (
    Seq<NodeView>,
    Result<(), VfsError>,
) {
    if tbl_contains(v[this].children, n) {
        (v, Err(VfsError::AlreadyExists))
    } else if !(ty is File || ty is Dir) {
        (v, Err(VfsError::Unsupported))
    } else {
        let t = v[this].children;
        let t2 = t.insert(ins_pos(t, n), (n, v.len() as int));
        let child = NodeView { ty, parent: Some(this), children: Seq::empty() };
        (v.update(this, NodeView { children: t2, ..v[this] }).push(child), Ok(()))
    }
}

/// What removing the child named `n` of directory `this` does. A directory
/// child must itself be childless to go; the node's slot stays in the arena,
/// merely detached from the table.
pub open spec fn remove_node_tr(v: Seq<NodeView>, this: int, n: Seq<char>) -> (
    Seq<NodeView>,
    Result<(), VfsError>,
) {
    if !tbl_contains(v[this].children, n) {
        (v, Err(VfsError::NotFound))
    } else {
        let id = tbl_get(v[this].children, n);
        if v[id].ty is Dir && v[id].children.len() > 0 {
            (v, Err(VfsError::DirectoryNotEmpty))
        } else {
            let t2 = v[this].children.remove(tbl_index(v[this].children, n));
            (v.update(this, NodeView { children: t2, ..v[this] }), Ok(()))
        }
    }
}

/// What renaming the child `old_n` of directory `this` to `new_n` does: the
/// entry moves to its new key, keeping its node.
pub open spec fn rename_node_tr(v: Seq<NodeView>, this: int, old_n: Seq<char>, new_n: Seq<char>) -> (
    Seq<NodeView>,
    Result<(), VfsError>,
) {
    if !tbl_contains(v[this].children, old_n) {
        (v, Err(VfsError::NotFound))
    } else if tbl_contains(v[this].children, new_n) {
        (v, Err(VfsError::AlreadyExists))
    } else {
        let id = tbl_get(v[this].children, old_n);
        let t2 = v[this].children.remove(tbl_index(v[this].children, old_n));
        let t3 = t2.insert(ins_pos(t2, new_n), (new_n, id));
        (v.update(this, NodeView { children: t3, ..v[this] }), Ok(()))
    }
}

/// Removing an entry and inserting its name again restores the table
/// exactly: the insertion position of the name is the slot it came from.
pub proof fn lemma_tbl_remove_insert(t: Seq<(Seq<char>, int)>, n: Seq<char>)
    requires
        tbl_sorted(t),
        tbl_contains(t, n),
    ensures
        ({
            let k = tbl_index(t, n);
            let t2 = t.remove(k);
            ins_pos(t2, n) == k && t2.insert(k, (n, t[k].1)) == t
        }),
{
    lemma_tbl_index(t, n);
    lemma_tbl_remove(t, n);
    let k = tbl_index(t, n);
    let t2 = t.remove(k);
    lemma_ins_pos(t2, n);
    let p = ins_pos(t2, n);
    if p < k {
        assert(t2[p] == t[p]);
        assert(lex_lt(t[p].0, t[k].0));
        lemma_lex_trichotomy(n, t[p].0);
    }
    if p > k {
        assert(t2[k] == t[k + 1]);
        assert(lex_lt(t[k].0, t[k + 1].0));
        assert(!lex_lt(n, t2[k].0));
    }
    assert(ins_pos(t2, n) == k);
    assert((n, t[k].1) == t[k]);
    assert(t2.insert(k, (n, t[k].1)) =~= t);
}

// ---------------------------------------------------------------------------
// Well-formedness of the tree.
// ---------------------------------------------------------------------------
/// What every node of a well-formed tree satisfies: a kind this subsystem
/// produces, in-range references, a sorted child table, and no children on
/// files.
pub open spec fn node_wf(v: Seq<NodeView>, i: int) -> bool {
    &&& (v[i].ty is Dir || v[i].ty is File)
    &&& (v[i].parent matches Some(p) ==> 0 <= p < v.len())
    &&& tbl_sorted(v[i].children)
    &&& (forall|k: int| 0 <= k < v[i].children.len() ==> 0 <= #[trigger] v[i].children[k].1
        < v.len())
    &&& (v[i].ty is File ==> v[i].children.len() == 0)
}

/// Well-formedness of the whole tree.
pub open spec fn tree_wf(v: Seq<NodeView>) -> bool {
    forall|i: int| 0 <= i < v.len() ==> node_wf(v, i)
}

/// The child map of directory `i`: names to arena indices.
pub open spec fn cmap(v: Seq<NodeView>, i: int) -> Map<Seq<char>, int> {
    tbl_map(v[i].children)
}

impl DirTree {
    pub open spec fn wf(&self) -> bool {
        tree_wf(self@)
    }

    pub open spec fn valid(&self, i: int) -> bool {
        0 <= i < self@.len()
    }

    pub open spec fn is_dir(&self, i: int) -> bool {
        self.valid(i) && self@[i].ty is Dir
    }

    /// A fresh tree holding a single root directory without a parent.
    pub fn new() -> (r: DirTree)
        ensures
            r.wf(),
            r@.len() == 1,
            r@[0].ty is Dir,
            r@[0].parent is None,
            r@[0].children.len() == 0,
    {
        let root = DirNode { ty: VfsNodeType::Dir, parent: None, children: Vec::new() };
        let mut nodes: Vec<DirNode> = Vec::new();
        nodes.push(root);
        DirTree { nodes }
    }

    /// Points the node's parent reference somewhere else, or clears it.
    pub fn set_parent(&mut self, this: usize, parent: Option<usize>)
        requires
            old(self).wf(),
            old(self).valid(this as int),
            parent matches Some(p) ==> old(self).valid(p as int),
        ensures
            final(self).wf(),
            final(self)@ == old(self)@.update(
                this as int,
                NodeView {
                    parent: match parent {
                        Some(p) => Some(p as int),
                        None => None,
                    },
                    ..old(self)@[this as int]
                },
            ),
    {
        let mut node = self.nodes.remove(this);
        node.parent = parent;
        self.nodes.insert(this, node);
        proof {
            assert(self@ =~= old(self)@.update(
                this as int,
                NodeView {
                    parent: match parent {
                        Some(p) => Some(p as int),
                        None => None,
                    },
                    ..old(self)@[this as int]
                },
            ));
            assert forall|i: int| 0 <= i < self@.len() implies node_wf(self@, i) by {
                assert(node_wf(old(self)@, i));
            }
        }
    }
}

impl DirTree {
    /// Checks whether a node with the given name exists in directory `this`.
    pub fn exist(&self, this: usize, name: &str) -> (r: bool)
        requires
            self.wf(),
            self.is_dir(this as int),
        ensures
            r == cmap(self@, this as int).contains_key(name@),
    {
        tbl_find(&self.nodes[this].children, name).is_some()
    }

    /// Returns the names of all entries of directory `this`, in table order.
    pub fn get_entries(&self, this: usize) -> (r: Vec<String>)
        requires
            self.wf(),
            self.is_dir(this as int),
        ensures
            r@.len() == self@[this as int].children.len(),
            forall|k: int| 0 <= k < r@.len() ==> r@[k]@ == self@[this as int].children[k].0,
    {
        let ghost tv = self@[this as int].children;
        let len = self.nodes[this].children.len();
        let mut r: Vec<String> = Vec::new();
        let mut k: usize = 0;
        while k < len
        invariant
            k <= len,
            self.wf(),
            self.is_dir(this as int),
            len == self.nodes@[this as int].children@.len(),
            tv == self@[this as int].children,
            r@.len() == k,
            forall|j: int| 0 <= j < k ==> r@[j]@ == tv[j].0,
        decreases len - k,
        {
            r.push(self.nodes[this].children[k].0.clone());
            k += 1;
        }
        r
    }

    /// Creates a new node with the given name and kind in directory `this`.
    /// Only files and directories can be produced; an occupied name is
    /// refused.
    pub fn create_node(&mut self, this: usize, name: &str, ty: VfsNodeType) -> (r: Result<
        (),
        VfsError,
    >)
        requires
            old(self).wf(),
            old(self).is_dir(this as int),
        ensures
            final(self).wf(),
            (final(self)@, r) == create_node_tr(old(self)@, this as int, name@, ty),
    {
        let ghost v = self@;
        let ghost tv = self@[this as int].children;
        let found = tbl_find(&self.nodes[this].children, name);
        if found.is_some() {
            return Err(VfsError::AlreadyExists);
        }
        let type_ok = match ty {
            VfsNodeType::File => true,
            VfsNodeType::Dir => true,
            _ => false,
        };
        if !type_ok {
            return Err(VfsError::Unsupported);
        }
        let nid = self.nodes.len();
        self.nodes.push(DirNode { ty, parent: Some(this), children: Vec::new() });
        let mut node = self.nodes.remove(this);
        proof {
            assert(node_wf(v, this as int));
            assert(node@ == v[this as int]);
            lemma_ins_pos(tv, name@);
        }
        let pos = tbl_insert_pos(&node.children, name);
        node.children.insert(pos, (String::from_str(name), nid));
        self.nodes.insert(this, node);
        proof {
            let t2 = tv.insert(ins_pos(tv, name@), (name@, v.len() as int));
            let child = NodeView { ty, parent: Some(this as int), children: Seq::empty() };
            let v2 = v.update(this as int, NodeView { children: t2, ..v[this as int] }).push(
                child,
            );
            assert(tbl_view(node.children@) =~~= t2);
            assert(self@ =~~= v2);
            lemma_tbl_insert(tv, name@, v.len() as int);
            assert forall|i: int| 0 <= i < v2.len() implies node_wf(v2, i) by {
                if i < v.len() {
                    assert(node_wf(v, i));
                }
            }
        }
        Ok(())
    }

    /// Removes the node with the given name from directory `this`. A
    /// directory child is only removed if it has no children of its own.
    pub fn remove_node(&mut self, this: usize, name: &str) -> (r: Result<(), VfsError>)
        requires
            old(self).wf(),
            old(self).is_dir(this as int),
        ensures
            final(self).wf(),
            (final(self)@, r) == remove_node_tr(old(self)@, this as int, name@),
    {
        let ghost v = self@;
        let ghost tv = self@[this as int].children;
        let found = tbl_find(&self.nodes[this].children, name);
        let k = match found {
            None => {
                return Err(VfsError::NotFound);
            },
            Some(k) => k,
        };
        let id = self.nodes[this].children[k].1;
        proof {
            assert(node_wf(v, this as int));
            assert(tv[k as int].1 == id as int);
        }
        let nonempty_dir = match self.nodes[id].ty {
            VfsNodeType::Dir => self.nodes[id].children.len() > 0,
            _ => false,
        };
        if nonempty_dir {
            return Err(VfsError::DirectoryNotEmpty);
        }
        let mut node = self.nodes.remove(this);
        node.children.remove(k);
        self.nodes.insert(this, node);
        proof {
            let t2 = tv.remove(tbl_index(tv, name@));
            let v2 = v.update(this as int, NodeView { children: t2, ..v[this as int] });
            assert(tbl_view(node.children@) =~~= t2);
            assert(self@ =~~= v2);
            lemma_tbl_remove(tv, name@);
            assert forall|i: int| 0 <= i < v2.len() implies node_wf(v2, i) by {
                assert(node_wf(v, i));
                if i == this as int {
                    assert forall|j: int| 0 <= j < t2.len() implies 0 <= #[trigger] t2[j].1
                        < v2.len() by {
                        if j < tbl_index(tv, name@) {
                            assert(t2[j] == tv[j]);
                        } else {
                            assert(t2[j] == tv[j + 1]);
                        }
                    }
                }
            }
        }
        Ok(())
    }

    /// Moves the entry `old_name` of directory `this` to the key `new_name`,
    /// keeping its node and re-sorting the table.
    pub fn rename_node(&mut self, this: usize, old_name: &str, new_name: &str) -> (r: Result<
        (),
        VfsError,
    >)
        requires
            old(self).wf(),
            old(self).is_dir(this as int),
        ensures
            final(self).wf(),
            (final(self)@, r) == rename_node_tr(old(self)@, this as int, old_name@, new_name@),
    {
        let ghost v = self@;
        let ghost tv = self@[this as int].children;
        let found = tbl_find(&self.nodes[this].children, old_name);
        let k = match found {
            None => {
                return Err(VfsError::NotFound);
            },
            Some(k) => k,
        };
        if tbl_find(&self.nodes[this].children, new_name).is_some() {
            return Err(VfsError::AlreadyExists);
        }
        proof {
            assert(node_wf(v, this as int));
            lemma_tbl_index(tv, old_name@);
            lemma_tbl_remove(tv, old_name@);
        }
        let mut node = self.nodes.remove(this);
        proof {
            assert(node@ == v[this as int]);
        }
        let entry = node.children.remove(k);
        proof {
            let t2 = tv.remove(tbl_index(tv, old_name@));
            assert(tbl_view(node.children@) =~~= t2);
            assert(!tbl_contains(t2, new_name@)) by {
                assert(tbl_map(t2) == tbl_map(tv).remove(old_name@));
                assert(tbl_map(t2).contains_key(new_name@) == tbl_contains(t2, new_name@));
            }
            lemma_ins_pos(t2, new_name@);
        }
        let pos = tbl_insert_pos(&node.children, new_name);
        node.children.insert(pos, (String::from_str(new_name), entry.1));
        self.nodes.insert(this, node);
        proof {
            let id = tbl_get(tv, old_name@);
            let t2 = tv.remove(tbl_index(tv, old_name@));
            let t3 = t2.insert(ins_pos(t2, new_name@), (new_name@, id));
            let v2 = v.update(this as int, NodeView { children: t3, ..v[this as int] });
            assert(tbl_view(node.children@) =~~= t3);
            assert(self@ =~~= v2);
            lemma_tbl_insert(t2, new_name@, id);
            assert forall|i: int| 0 <= i < v2.len() implies node_wf(v2, i) by {
                assert(node_wf(v, i));
                if i == this as int {
                    assert(0 <= id < v.len()) by {
                        lemma_tbl_index(tv, old_name@);
                    }
                    assert forall|j: int| 0 <= j < t3.len() implies 0 <= #[trigger] t3[j].1
                        < v2.len() by {
                        let p = ins_pos(t2, new_name@);
                        if j != p {
                            let j2 = if j < p {
                                j
                            } else {
                                j - 1
                            };
                            assert(t3[j] == t2[j2]);
                            if j2 < tbl_index(tv, old_name@) {
                                assert(t2[j2] == tv[j2]);
                            } else {
                                assert(t2[j2] == tv[j2 + 1]);
                            }
                        }
                    }
                }
            }
        }
        Ok(())
    }

    /// Resolves one path component at directory `this`.
    fn resolve_comp_x(&self, this: usize, name: &str) -> (r: Result<usize, VfsError>)
        requires
            self.wf(),
            self.is_dir(this as int),
        ensures
            match r {
                Ok(id) => resolve_comp(self@, this as int, name@) == Ok::<int, VfsError>(id as int) && self.valid(
                    id as int,
                ),
                Err(e) => resolve_comp(self@, this as int, name@) == Err::<int, VfsError>(e),
            },
    {
        proof {
            assert(seq!['.'].len() == 1 && seq!['.'][0] == '.');
            assert(seq!['.', '.'].len() == 2 && seq!['.', '.'][0] == '.' && seq!['.', '.'][1]
                == '.');
        }
        let len = name.unicode_len();
        if len == 0 {
            return Ok(this);
        }
        if len == 1 && name.get_char(0) == '.' {
            proof {
                assert(name@ =~= seq!['.']);
            }
            return Ok(this);
        }
        if len == 2 && name.get_char(0) == '.' && name.get_char(1) == '.' {
            proof {
                assert(name@ =~= seq!['.', '.']);
            }
            return match self.parent(this) {
                Some(p) => Ok(p),
                None => Err(VfsError::NotFound),
            };
        }
        proof {
            assert(name@ != seq!['.']);
            assert(name@ != seq!['.', '.']);
            assert(node_wf(self@, this as int));
        }
        match tbl_find(&self.nodes[this].children, name) {
            Some(k) => {
                let id = self.nodes[this].children[k].1;
                proof {
                    assert(self@[this as int].children[k as int].1 == id as int);
                }
                Ok(id)
            },
            None => Err(VfsError::NotFound),
        }
    }

    /// Resolves a slash-separated path relative to directory `this` down to
    /// a node, failing where a component is missing or a non-directory is
    /// walked through.
    pub fn lookup(&self, this: usize, path: &str) -> (r: Result<usize, VfsError>)
        requires
            self.wf(),
            self.is_dir(this as int),
        ensures
            match r {
                Ok(id) => lookup_path(self@, this as int, path@) == Ok::<int, VfsError>(id as int) && self.valid(
                    id as int,
                ),
                Err(e) => lookup_path(self@, this as int, path@) == Err::<int, VfsError>(e),
            },
        decreases path@.len(),
    {
        proof {
            lemma_lookup_path_trim(self@, this as int, path@);
            lemma_trim_slashes(path@);
            if has_slash(trim_slashes(path@)) {
                lemma_first_slash(trim_slashes(path@));
            }
        }
        let (name, rest) = split_path(path);
        match rest {
            None => self.resolve_comp_x(this, name),
            Some(rest) => {
                match self.resolve_comp_x(this, name) {
                    Err(e) => Err(e),
                    Ok(next) => {
                        let next_is_dir = match self.nodes[next].ty {
                            VfsNodeType::Dir => true,
                            _ => false,
                        };
                        if next_is_dir {
                            self.lookup(next, rest)
                        } else {
                            Err(VfsError::Unsupported)
                        }
                    },
                }
            },
        }
    }

    /// Creates a node of the given kind at the given path relative to
    /// directory `this`. The final component names the new node; a final
    /// component that always denotes an existing directory succeeds without
    /// work.
    pub fn create(&mut self, this: usize, path: &str, ty: VfsNodeType) -> (r: Result<(), VfsError>)
        requires
            old(self).wf(),
            old(self).is_dir(this as int),
        ensures
            final(self).wf(),
            (final(self)@, r) == create_path(old(self)@, this as int, path@, ty),
        decreases path@.len(),
    {
        proof {
            lemma_create_path_trim(self@, this as int, path@, ty);
            lemma_trim_slashes(path@);
            if has_slash(trim_slashes(path@)) {
                lemma_first_slash(trim_slashes(path@));
            }
        }
        let (name, rest) = split_path(path);
        match rest {
            None => {
                let len = name.unicode_len();
                proof {
                    assert(seq!['.'].len() == 1 && seq!['.'][0] == '.');
                    assert(seq!['.', '.'].len() == 2 && seq!['.', '.'][0] == '.' && seq![
                        '.',
                        '.',
                    ][1] == '.');
                }
                if len == 0 {
                    return Ok(());
                }
                if len == 1 && name.get_char(0) == '.' {
                    proof {
                        assert(name@ =~= seq!['.']);
                    }
                    return Ok(());
                }
                if len == 2 && name.get_char(0) == '.' && name.get_char(1) == '.' {
                    proof {
                        assert(name@ =~= seq!['.', '.']);
                    }
                    return Ok(());
                }
                proof {
                    assert(name@ != seq!['.']);
                    assert(name@ != seq!['.', '.']);
                }
                self.create_node(this, name, ty)
            },
            Some(rest) => {
                match self.resolve_comp_x(this, name) {
                    Err(e) => Err(e),
                    Ok(next) => {
                        let next_is_dir = match self.nodes[next].ty {
                            VfsNodeType::Dir => true,
                            _ => false,
                        };
                        if next_is_dir {
                            self.create(next, rest, ty)
                        } else {
                            Err(VfsError::Unsupported)
                        }
                    },
                }
            },
        }
    }

    /// Removes the node at the given path relative to directory `this`. The
    /// self-denoting final components are rejected; a directory must be
    /// empty to go.
    pub fn remove(&mut self, this: usize, path: &str) -> (r: Result<(), VfsError>)
        requires
            old(self).wf(),
            old(self).is_dir(this as int),
        ensures
            final(self).wf(),
            (final(self)@, r) == remove_path(old(self)@, this as int, path@),
        decreases path@.len(),
    {
        proof {
            lemma_remove_path_trim(self@, this as int, path@);
            lemma_trim_slashes(path@);
            if has_slash(trim_slashes(path@)) {
                lemma_first_slash(trim_slashes(path@));
            }
        }
        let (name, rest) = split_path(path);
        match rest {
            None => {
                let len = name.unicode_len();
                proof {
                    assert(seq!['.'].len() == 1 && seq!['.'][0] == '.');
                    assert(seq!['.', '.'].len() == 2 && seq!['.', '.'][0] == '.' && seq![
                        '.',
                        '.',
                    ][1] == '.');
                }
                if len == 0 {
                    return Err(VfsError::InvalidInput);
                }
                if len == 1 && name.get_char(0) == '.' {
                    proof {
                        assert(name@ =~= seq!['.']);
                    }
                    return Err(VfsError::InvalidInput);
                }
                if len == 2 && name.get_char(0) == '.' && name.get_char(1) == '.' {
                    proof {
                        assert(name@ =~= seq!['.', '.']);
                    }
                    return Err(VfsError::InvalidInput);
                }
                proof {
                    assert(name@ != seq!['.']);
                    assert(name@ != seq!['.', '.']);
                }
                self.remove_node(this, name)
            },
            Some(rest) => {
                match self.resolve_comp_x(this, name) {
                    Err(e) => Err(e),
                    Ok(next) => {
                        let next_is_dir = match self.nodes[next].ty {
                            VfsNodeType::Dir => true,
                            _ => false,
                        };
                        if next_is_dir {
                            self.remove(next, rest)
                        } else {
                            Err(VfsError::Unsupported)
                        }
                    },
                }
            },
        }
    }

    /// Fills `dirents` with entries of the directory's virtual listing
    /// starting at `start_idx`, and says how many slots it filled. The
    /// virtual listing holds `.` and `..` at indices 0 and 1, then the real
    /// children in name order; filling fewer slots than given signals the end
    /// of the directory, so callers paginate by index alone.
    pub fn read_dir(&self, this: usize, start_idx: usize, dirents: &mut Vec<VfsDirEntry>) -> (r:
        Result<usize, VfsError>)
        requires
            self.wf(),
            self.is_dir(this as int),
            start_idx + old(dirents)@.len() <= usize::MAX,
        ensures
            ({
                let total = 2 + self@[this as int].children.len();
                let cap = old(dirents)@.len() as int;
                match r {
                    Ok(n) => {
                        &&& n as int == if start_idx as int >= total {
                            0
                        } else if total - start_idx < cap {
                            total - start_idx
                        } else {
                            cap
                        }
                        &&& final(dirents)@.len() == cap
                        &&& forall|i: int|
                            0 <= i < n ==> (#[trigger] final(dirents)@[i]).name@ == virt_entry(
                                self@,
                                this as int,
                                start_idx + i,
                            ).0 && final(dirents)@[i].ty == virt_entry(
                                self@,
                                this as int,
                                start_idx + i,
                            ).1
                        &&& forall|i: int|
                            n <= i < cap ==> #[trigger] final(dirents)@[i] == old(dirents)@[i]
                    },
                    Err(_) => false,
                }
            }),
    {
        proof {
            assert(node_wf(self@, this as int));
            reveal_strlit(".");
            reveal_strlit("..");
            assert("."@ =~= seq!['.']);
            assert(".."@ =~= seq!['.', '.']);
        }
        let ghost total = 2 + self@[this as int].children.len();
        let cap = dirents.len();
        let clen = self.nodes[this].children.len();
        let mut i: usize = 0;
        while i < cap
            invariant
                0 <= i <= cap,
                self.wf(),
                self.is_dir(this as int),
                start_idx + cap <= usize::MAX,
                total == 2 + self@[this as int].children.len(),
                clen == self@[this as int].children.len(),
                cap == old(dirents)@.len(),
                dirents@.len() == cap,
                i == 0 || start_idx + i <= total,
                forall|k: int|
                    0 <= k < i ==> (#[trigger] dirents@[k]).name@ == virt_entry(
                        self@,
                        this as int,
                        start_idx + k,
                    ).0 && dirents@[k].ty == virt_entry(self@, this as int, start_idx + k).1,
                forall|k: int| i <= k < cap ==> #[trigger] dirents@[k] == old(dirents)@[k],
            decreases cap - i,
        {
            proof {
                assert(node_wf(self@, this as int));
                reveal_strlit(".");
                reveal_strlit("..");
                assert("."@ =~= seq!['.']);
                assert(".."@ =~= seq!['.', '.']);
            }
            let vi = start_idx + i;
            if vi == 0 {
                let e = VfsDirEntry::new(String::from_str("."), VfsNodeType::Dir);
                dirents.set(i, e);
                proof {
                    assert(dirents@[i as int].name@ == virt_entry(self@, this as int, vi as int).0);
                    assert(dirents@[i as int].ty == virt_entry(self@, this as int, vi as int).1);
                }
            } else if vi == 1 {
                let e = VfsDirEntry::new(String::from_str(".."), VfsNodeType::Dir);
                dirents.set(i, e);
                proof {
                    assert(dirents@[i as int].name@ == virt_entry(self@, this as int, vi as int).0);
                    assert(dirents@[i as int].ty == virt_entry(self@, this as int, vi as int).1);
                }
            } else {
                let ci = vi - 2;
                if ci >= clen {
                    return Ok(i);
                }
                let id = self.nodes[this].children[ci].1;
                proof {
                    assert(self@[this as int].children[ci as int].1 == id as int);
                }
                let attr = self.get_attr(id);
                let e = VfsDirEntry::new(self.nodes[this].children[ci].0.clone(), attr.file_type());
                dirents.set(i, e);
                proof {
                    assert(dirents@[i as int].name@ == virt_entry(self@, this as int, vi as int).0);
                    assert(dirents@[i as int].ty == virt_entry(self@, this as int, vi as int).1);
                }
            }
            i += 1;
        }
        Ok(cap)
    }

    /// Decides whether `target` is `root` itself or lies somewhere in
    /// `root`'s subtree, walking the child tables with a visited set.
    #[verifier::rlimit(60)]
    pub fn subtree_contains(&self, root: usize, target: usize) -> (r: bool)
        requires
            self.wf(),
            self.valid(root as int),
            self.valid(target as int),
        ensures
            r == in_subtree(self@, root as int, target as int),
    {
        if target == root {
            return true;
        }
        let n = self.nodes.len();
        let mut visited: Vec<bool> = Vec::new();
        let mut i: usize = 0;
        while i < n
            invariant
                i <= n,
                visited@.len() == i,
                forall|j: int| 0 <= j < i ==> !visited@[j],
            decreases n - i,
        {
            visited.push(false);
            i += 1;
        }
        let mut stack: Vec<usize> = Vec::new();
        visited.set(root, true);
        stack.push(root);
        proof {
            assert(stack@[0] == root);
            assert(seq_has(stack@, root as int));
            lemma_count_false_nonneg(visited@);
        }
        while stack.len() > 0
            invariant
                self.wf(),
                n == self@.len(),
                root < n,
                target < n,
                target != root,
                visited@.len() == n,
                visited@[root as int],
                !visited@[target as int],
                count_false(visited@) >= 0,
                forall|i2: int, j2: int|
                    0 <= i2 < j2 < stack@.len() ==> stack@[i2] != stack@[j2],
                forall|i2: int|
                    0 <= i2 < stack@.len() ==> (#[trigger] stack@[i2]) < n
                        && visited@[stack@[i2] as int],
                forall|y: int|
                    0 <= y < n && #[trigger] visited@[y] ==> y == root || reaches(
                        self@,
                        root as int,
                        y,
                    ),
                forall|y: int, c: int|
                    0 <= y < n && visited@[y] && !seq_has(stack@, y) && #[trigger] edge(
                        self@,
                        y,
                        c,
                    ) ==> 0 <= c < n && visited@[c],
            decreases count_false(visited@), stack@.len(),
        {
            let ghost c0 = count_false(visited@);
            let ghost s0 = stack@.len() as int;
            let ghost pre_stack = stack@;
            let x = match stack.pop() {
                Some(x) => x,
                None => {
                    return false;
                },
            };
            proof {
                assert(!seq_has(stack@, x as int)) by {
                    if seq_has(stack@, x as int) {
                        let i2 = choose|i2: int|
                            0 <= i2 < stack@.len() && stack@[i2] == x as int;
                        assert(pre_stack[i2] == pre_stack[pre_stack.len() - 1]);
                    }
                }
                assert forall|y: int, c: int|
                    0 <= y < n && y != x as int && visited@[y] && !seq_has(stack@, y)
                        && #[trigger] edge(self@, y, c) implies 0 <= c < n && visited@[c] by {
                    assert(!seq_has(pre_stack, y)) by {
                        if seq_has(pre_stack, y) {
                            let i2 = choose|i2: int|
                                0 <= i2 < pre_stack.len() && pre_stack[i2] == y;
                            if i2 < pre_stack.len() - 1 {
                                assert(stack@[i2] == y);
                            }
                        }
                    }
                }
                assert(node_wf(self@, x as int));
            }
            let clen = self.nodes[x].children.len();
            let mut k: usize = 0;
            while k < clen
                invariant
                    self.wf(),
                    n == self@.len(),
                    root < n,
                    target < n,
                    target != root,
                    x < n,
                    k <= clen,
                    clen == self@[x as int].children.len(),
                    visited@.len() == n,
                    visited@[root as int],
                    visited@[x as int],
                    !visited@[target as int],
                    !seq_has(stack@, x as int),
                    count_false(visited@) >= 0,
                    count_false(visited@) <= c0,
                    count_false(visited@) + stack@.len() == c0 + s0 - 1,
                    forall|i2: int, j2: int|
                        0 <= i2 < j2 < stack@.len() ==> stack@[i2] != stack@[j2],
                    forall|i2: int|
                        0 <= i2 < stack@.len() ==> (#[trigger] stack@[i2]) < n
                            && visited@[stack@[i2] as int],
                    forall|y: int|
                        0 <= y < n && #[trigger] visited@[y] ==> y == root || reaches(
                            self@,
                            root as int,
                            y,
                        ),
                    forall|k2: int|
                        0 <= k2 < k ==> 0 <= (#[trigger] self@[x as int].children[k2]).1 < n
                            && visited@[self@[x as int].children[k2].1],
                    forall|y: int, c: int|
                        0 <= y < n && y != x as int && visited@[y] && !seq_has(stack@, y)
                            && #[trigger] edge(self@, y, c) ==> 0 <= c < n && visited@[c],
                decreases clen - k,
            {
                let ghost ps2 = stack@;
                let ghost pv2 = visited@;
                let c = self.nodes[x].children[k].1;
                proof {
                    assert(node_wf(self@, x as int));
                    assert(self@[x as int].children[k as int].1 == c as int);
                    assert(edge(self@, x as int, c as int));
                    lemma_reaches_step(self@, root as int, x as int, c as int);
                }
                if c == target {
                    return true;
                }
                if !visited[c] {
                    proof {
                        lemma_count_false_update(visited@, c as int);
                    }
                    visited.set(c, true);
                    stack.push(c);
                    proof {
                        lemma_count_false_nonneg(visited@);
                        assert(stack@[stack@.len() - 1] == c);
                        assert(seq_has(stack@, c as int));
                        assert forall|y: int, c2: int|
                            0 <= y < n && y != x as int && visited@[y] && !seq_has(stack@, y)
                                && #[trigger] edge(self@, y, c2) implies 0 <= c2 < n
                            && visited@[c2] by {
                            if y == c as int {
                                assert(seq_has(stack@, y));
                            } else {
                                assert(!seq_has(ps2, y)) by {
                                    if seq_has(ps2, y) {
                                        let i2 = choose|i2: int|
                                            0 <= i2 < ps2.len() && ps2[i2] == y;
                                        assert(stack@[i2] == y);
                                    }
                                }
                                assert(pv2[y]);
                                assert(0 <= c2 < n && pv2[c2]);
                            }
                        }
                    }
                }
                k += 1;
            }
            proof {
                assert forall|y: int, c: int|
                    0 <= y < n && visited@[y] && !seq_has(stack@, y) && #[trigger] edge(
                        self@,
                        y,
                        c,
                    ) implies 0 <= c < n && visited@[c] by {
                    if y == x as int {
                        let k2 = choose|k2: int|
                            0 <= k2 < self@[y].children.len() && #[trigger] self@[y].children[k2].1
                                == c;
                        let ci = self@[x as int].children[k2].1;
                        assert(0 <= ci < n && visited@[ci]);
                    }
                }
            }
        }
        proof {
            if reaches(self@, root as int, target as int) {
                let p = choose|p: Seq<int>|
                    #[trigger] chain(self@, p) && p.len() >= 2 && p[0] == root as int && p.last()
                        == target as int;
                assert forall|y: int, c: int|
                    0 <= y < visited@.len() && visited@[y] && #[trigger] edge(self@, y, c) implies 0
                    <= c < visited@.len() && visited@[c] by {
                    assert(!seq_has(stack@, y));
                }
                lemma_closed_set_blocks(self@, visited@, p);
            }
        }
        false
    }

    /// Renames `old_path` to `new_path`, both relative to directory `this`.
    /// Within one parent directory the entry changes key atomically; across
    /// two directories the entry is taken out of the source table and, if
    /// the destination name is free, inserted there — otherwise it is put
    /// back and the whole call is a no-op. Moving a directory into its own
    /// subtree would make it its own descendant, so such a request is
    /// refused before anything is touched.
    #[verifier::rlimit(100)]
    pub fn rename(&mut self, this: usize, old_path: &str, new_path: &str) -> (r: Result<
        (),
        VfsError,
    >)
        requires
            old(self).wf(),
            old(self).is_dir(this as int),
        ensures
            final(self).wf(),
            (final(self)@, r) == rename_tr(old(self)@, this as int, old_path@, new_path@),
    {
        let ghost v = self@;
        let (old_pp, old_name) = match split_parent_name(old_path) {
            Ok(x) => x,
            Err(e) => {
                return Err(e);
            },
        };
        let (new_pp, new_name) = match split_parent_name(new_path) {
            Ok(x) => x,
            Err(e) => {
                return Err(e);
            },
        };
        proof {
            assert(old_pp@ == parent_leaf(trim_slashes(old_path@)).0);
            assert(old_name@ == parent_leaf(trim_slashes(old_path@)).1);
            assert(new_pp@ == parent_leaf(trim_slashes(new_path@)).0);
            assert(new_name@ == parent_leaf(trim_slashes(new_path@)).1);
        }
        let op = match self.lookup(this, old_pp) {
            Ok(x) => x,
            Err(e) => {
                return Err(e);
            },
        };
        let op_is_dir = match self.nodes[op].ty {
            VfsNodeType::Dir => true,
            _ => false,
        };
        if !op_is_dir {
            return Err(VfsError::InvalidInput);
        }
        let np = match self.lookup(this, new_pp) {
            Ok(x) => x,
            Err(e) => {
                return Err(e);
            },
        };
        let np_is_dir = match self.nodes[np].ty {
            VfsNodeType::Dir => true,
            _ => false,
        };
        if !np_is_dir {
            return Err(VfsError::InvalidInput);
        }
        if op == np {
            return self.rename_node(op, old_name, new_name);
        }
        let ghost tv_op = v[op as int].children;
        let ghost tv_np = v[np as int].children;
        let found = tbl_find(&self.nodes[op].children, old_name);
        let k = match found {
            None => {
                return Err(VfsError::NotFound);
            },
            Some(k) => k,
        };
        let id = self.nodes[op].children[k].1;
        proof {
            assert(node_wf(v, op as int));
            lemma_tbl_index(tv_op, old_name@);
            assert(tv_op[k as int].1 == id as int);
            assert(id as int == tbl_get(tv_op, old_name@));
        }
        let id_is_dir = match self.nodes[id].ty {
            VfsNodeType::Dir => true,
            _ => false,
        };
        if id_is_dir && self.subtree_contains(id, np) {
            return Err(VfsError::InvalidInput);
        }
        proof {
            assert(node_wf(v, op as int));
            assert(node_wf(v, np as int));
            lemma_tbl_index(tv_op, old_name@);
            lemma_tbl_remove(tv_op, old_name@);
            lemma_tbl_remove_insert(tv_op, old_name@);
        }
        let mut node = self.nodes.remove(op);
        proof {
            assert(node@ == v[op as int]);
        }
        let entry = node.children.remove(k);
        self.nodes.insert(op, node);
        let ghost t2 = tv_op.remove(tbl_index(tv_op, old_name@));
        let ghost v2 = v.update(op as int, NodeView { children: t2, ..v[op as int] });
        proof {
            assert(self@ =~~= v2);
            assert(entry.0@ == old_name@ && entry.1 as int == tbl_get(tv_op, old_name@));
        }
        if tbl_find(&self.nodes[np].children, new_name).is_some() {
            let mut node = self.nodes.remove(op);
            proof {
                assert(node@ == v2[op as int]);
                assert(!tbl_contains(t2, old_name@)) by {
                    assert(tbl_map(t2) == tbl_map(tv_op).remove(old_name@));
                    assert(tbl_map(t2).contains_key(old_name@) == tbl_contains(t2, old_name@));
                }
            }
            let pos = tbl_insert_pos(&node.children, old_name);
            node.children.insert(pos, entry);
            self.nodes.insert(op, node);
            proof {
                assert(tbl_view(node.children@) =~~= tv_op);
                assert(self@ =~~= v);
            }
            return Err(VfsError::AlreadyExists);
        }
        let mut node = self.nodes.remove(np);
        proof {
            assert(node@ == v2[np as int]);
            assert(v2[np as int].children == tv_np);
            lemma_ins_pos(tv_np, new_name@);
        }
        let pos = tbl_insert_pos(&node.children, new_name);
        node.children.insert(pos, (String::from_str(new_name), entry.1));
        self.nodes.insert(np, node);
        proof {
            let id = tbl_get(tv_op, old_name@);
            let t3 = tv_np.insert(ins_pos(tv_np, new_name@), (new_name@, id));
            let v3 = v2.update(np as int, NodeView { children: t3, ..v2[np as int] });
            assert(tbl_view(node.children@) =~~= t3);
            assert(self@ =~~= v3);
            lemma_tbl_insert(tv_np, new_name@, id);
            assert forall|i: int| 0 <= i < v3.len() implies node_wf(v3, i) by {
                assert(node_wf(v, i));
                if i == op as int {
                    assert forall|j: int| 0 <= j < t2.len() implies 0 <= #[trigger] t2[j].1
                        < v3.len() by {
                        if j < tbl_index(tv_op, old_name@) {
                            assert(t2[j] == tv_op[j]);
                        } else {
                            assert(t2[j] == tv_op[j + 1]);
                        }
                    }
                }
                if i == np as int {
                    assert(0 <= id < v.len());
                    assert forall|j: int| 0 <= j < t3.len() implies 0 <= #[trigger] t3[j].1
                        < v3.len() by {
                        let p = ins_pos(tv_np, new_name@);
                        if j != p {
                            let j2 = if j < p {
                                j
                            } else {
                                j - 1
                            };
                            assert(t3[j] == tv_np[j2]);
                        }
                    }
                }
            }
        }
        Ok(())
    }

    /// The attributes of node `this`: directories report the fixed logical
    /// size 4096, files the empty size handled elsewhere.
    pub fn get_attr(&self, this: usize) -> (r: VfsNodeAttr)
        requires
            self.wf(),
            self.valid(this as int),
        ensures
            r.ty == self@[this as int].ty,
            r.blocks == 0,
            r.size == if self@[this as int].ty is Dir {
                4096int
            } else {
                0int
            },
    {
        proof {
            assert(node_wf(self@, this as int));
        }
        match self.nodes[this].ty {
            VfsNodeType::Dir => VfsNodeAttr::new_dir(4096, 0),
            _ => VfsNodeAttr::new_file(0, 0),
        }
    }

    /// Resolves the node's parent reference, or nothing at a root.
    pub fn parent(&self, this: usize) -> (r: Option<usize>)
        requires
            self.wf(),
            self.valid(this as int),
        ensures
            match r {
                Some(p) => self@[this as int].parent == Some(p as int) && self.valid(p as int),
                None => self@[this as int].parent is None,
            },
    {
        proof {
            assert(node_wf(self@, this as int));
        }
        self.nodes[this].parent
    }
}

// ---------------------------------------------------------------------------
// Path walking: one component of a path resolves against one directory, the
// remainder recurses into the resolved node.
// ---------------------------------------------------------------------------
/// How one path component resolves at directory `this`: the empty name and
/// `.` stay, `..` goes to the parent, anything else goes through the child
/// table.
pub open spec fn resolve_comp(v: Seq<NodeView>, this: int, name: Seq<char>) -> Result<
    int,
    VfsError,
> {
    if name.len() == 0 || name == seq!['.'] {
        Ok(this)
    } else if name == seq!['.', '.'] {
        match v[this].parent {
            Some(p) => Ok(p),
            None => Err(VfsError::NotFound),
        }
    } else if tbl_contains(v[this].children, name) {
        Ok(tbl_get(v[this].children, name))
    } else {
        Err(VfsError::NotFound)
    }
}

/// Where a whole path leads from directory `this`: components resolve left
/// to right, and only directories can be walked through.
pub open spec fn lookup_path(v: Seq<NodeView>, this: int, p: Seq<char>) -> Result<int, VfsError>
    decreases p.len()
    via lookup_path_dec
{
    if p.len() > 0 && p[0] == '/' {
        lookup_path(v, this, p.skip(1))
    } else if !has_slash(p) {
        resolve_comp(v, this, p)
    } else {
        let head = p.take(first_slash(p));
        let rest = p.skip(first_slash(p) + 1);
        match resolve_comp(v, this, head) {
            Err(e) => Err(e),
            Ok(next) => if v[next].ty is Dir {
                lookup_path(v, next, rest)
            } else {
                Err(VfsError::Unsupported)
            },
        }
    }
}

#[via_fn]
proof fn lookup_path_dec(v: Seq<NodeView>, this: int, p: Seq<char>) {
    if !(p.len() > 0 && p[0] == '/') && has_slash(p) {
        lemma_first_slash(p);
    }
}

/// What creating the terminal component does: the names that always denote
/// an existing directory are a no-op success, everything else goes to the
/// child table.
pub open spec fn terminal_create(
    v: Seq<NodeView>,
    this: int,
    name: Seq<char>,
    ty: VfsNodeType,
) -> (Seq<NodeView>, Result<(), VfsError>) {
    if name.len() == 0 || name == seq!['.'] || name == seq!['.', '.'] {
        (v, Ok(()))
    } else {
        create_node_tr(v, this, name, ty)
    }
}

/// What `create` does for a whole path: walk all but the last component as
/// lookup does, then create the leaf. Missing intermediate directories are
/// not created.
pub open spec fn create_path(v: Seq<NodeView>, this: int, p: Seq<char>, ty: VfsNodeType) -> (
    Seq<NodeView>,
    Result<(), VfsError>,
)
    decreases p.len()
    via create_path_dec
{
    if p.len() > 0 && p[0] == '/' {
        create_path(v, this, p.skip(1), ty)
    } else if !has_slash(p) {
        terminal_create(v, this, p, ty)
    } else {
        let head = p.take(first_slash(p));
        let rest = p.skip(first_slash(p) + 1);
        match resolve_comp(v, this, head) {
            Err(e) => (v, Err(e)),
            Ok(next) => if v[next].ty is Dir {
                create_path(v, next, rest, ty)
            } else {
                (v, Err(VfsError::Unsupported))
            },
        }
    }
}

#[via_fn]
proof fn create_path_dec(v: Seq<NodeView>, this: int, p: Seq<char>, ty: VfsNodeType) {
    if !(p.len() > 0 && p[0] == '/') && has_slash(p) {
        lemma_first_slash(p);
    }
}

/// What removing the terminal component does: the self-denoting names are
/// rejected, everything else goes to the child table.
pub open spec fn terminal_remove(v: Seq<NodeView>, this: int, name: Seq<char>) -> (
    Seq<NodeView>,
    Result<(), VfsError>,
) {
    if name.len() == 0 || name == seq!['.'] || name == seq!['.', '.'] {
        (v, Err(VfsError::InvalidInput))
    } else {
        remove_node_tr(v, this, name)
    }
}

/// What `remove` does for a whole path: walk all but the last component as
/// lookup does, then remove the leaf.
pub open spec fn remove_path(v: Seq<NodeView>, this: int, p: Seq<char>) -> (
    Seq<NodeView>,
    Result<(), VfsError>,
)
    decreases p.len()
    via remove_path_dec
{
    if p.len() > 0 && p[0] == '/' {
        remove_path(v, this, p.skip(1))
    } else if !has_slash(p) {
        terminal_remove(v, this, p)
    } else {
        let head = p.take(first_slash(p));
        let rest = p.skip(first_slash(p) + 1);
        match resolve_comp(v, this, head) {
            Err(e) => (v, Err(e)),
            Ok(next) => if v[next].ty is Dir {
                remove_path(v, next, rest)
            } else {
                (v, Err(VfsError::Unsupported))
            },
        }
    }
}

#[via_fn]
proof fn remove_path_dec(v: Seq<NodeView>, this: int, p: Seq<char>) {
    if !(p.len() > 0 && p[0] == '/') && has_slash(p) {
        lemma_first_slash(p);
    }
}

/// The virtual listing of a directory: `.` and `..` at indices 0 and 1,
/// both directories, then the real children in table order, each with its
/// node's type.
pub open spec fn virt_entry(v: Seq<NodeView>, this: int, k: int) -> (Seq<char>, VfsNodeType) {
    if k == 0 {
        (seq!['.'], VfsNodeType::Dir)
    } else if k == 1 {
        (seq!['.', '.'], VfsNodeType::Dir)
    } else {
        (v[this].children[k - 2].0, v[v[this].children[k - 2].1].ty)
    }
}

// ---------------------------------------------------------------------------
// Ownership topology: the child tables as a graph.
// ---------------------------------------------------------------------------
/// A child-table edge: directory `a` holds node `b` in its table.
pub open spec fn edge(v: Seq<NodeView>, a: int, b: int) -> bool {
    0 <= a < v.len() && exists|k: int|
        0 <= k < v[a].children.len() && #[trigger] v[a].children[k].1 == b
}

/// A walk along child-table edges.
pub open spec fn chain(v: Seq<NodeView>, p: Seq<int>) -> bool {
    forall|t: int| 0 <= t < p.len() - 1 ==> edge(v, #[trigger] p[t], p[t + 1])
}

/// Whether `b` is a proper descendant of `a`: a walk of at least one edge
/// leads from `a` to `b`.
pub open spec fn reaches(v: Seq<NodeView>, a: int, b: int) -> bool {
    exists|p: Seq<int>| #[trigger] chain(v, p) && p.len() >= 2 && p[0] == a && p.last() == b
}

/// Acyclic ownership: no node is its own proper descendant.
pub open spec fn acyclic(v: Seq<NodeView>) -> bool {
    forall|a: int| !reaches(v, a, a)
}

/// Whether `b` is `a` itself or lies in `a`'s subtree.
pub open spec fn in_subtree(v: Seq<NodeView>, a: int, b: int) -> bool {
    a == b || reaches(v, a, b)
}

/// Whether the sequence holds the value.
pub open spec fn seq_has(s: Seq<usize>, x: int) -> bool {
    exists|i: int| 0 <= i < s.len() && s[i] == x
}

/// How many entries of the sequence are false.
pub open spec fn count_false(s: Seq<bool>) -> int
    decreases s.len(),
{
    if s.len() == 0 {
        0
    } else {
        count_false(s.drop_last()) + if s.last() {
            0int
        } else {
            1int
        }
    }
}

proof fn lemma_count_false_nonneg(s: Seq<bool>)
    ensures
        count_false(s) >= 0,
    decreases s.len(),
{
    if s.len() > 0 {
        lemma_count_false_nonneg(s.drop_last());
    }
}

proof fn lemma_count_false_update(s: Seq<bool>, i: int)
    requires
        0 <= i < s.len(),
        !s[i],
    ensures
        count_false(s.update(i, true)) == count_false(s) - 1,
    decreases s.len(),
{
    let s2 = s.update(i, true);
    if i == s.len() - 1 {
        assert(s2.drop_last() =~= s.drop_last());
    } else {
        lemma_count_false_update(s.drop_last(), i);
        assert(s2.drop_last() =~= s.drop_last().update(i, true));
        assert(s2.last() == s.last());
    }
}

/// A walk that has arrived at `x` extends along an edge to `c`.
proof fn lemma_reaches_step(v: Seq<NodeView>, a: int, x: int, c: int)
    requires
        a == x || reaches(v, a, x),
        edge(v, x, c),
    ensures
        reaches(v, a, c),
{
    if a == x {
        let p = seq![a, c];
        assert(chain(v, p));
        assert(p[0] == a && p.last() == c);
    } else {
        let p = choose|p: Seq<int>|
            #[trigger] chain(v, p) && p.len() >= 2 && p[0] == a && p.last() == x;
        let q = p.push(c);
        assert forall|t: int| 0 <= t < q.len() - 1 implies edge(v, #[trigger] q[t], q[t + 1]) by {
            if t < p.len() - 1 {
                assert(q[t] == p[t] && q[t + 1] == p[t + 1]);
                assert(edge(v, p[t], p[t + 1]));
            } else {
                assert(q[t] == p.last() && q[t + 1] == c);
            }
        }
        assert(chain(v, q) && q.len() >= 2 && q[0] == a && q.last() == c);
    }
}

/// A set of nodes closed under child edges swallows every walk that starts
/// inside it.
proof fn lemma_closed_set_blocks(v: Seq<NodeView>, vis: Seq<bool>, p: Seq<int>)
    requires
        chain(v, p),
        p.len() >= 1,
        0 <= p[0] < vis.len(),
        vis[p[0]],
        forall|x: int, c: int|
            0 <= x < vis.len() && vis[x] && #[trigger] edge(v, x, c) ==> 0 <= c < vis.len()
                && vis[c],
    ensures
        0 <= p.last() < vis.len() && vis[p.last()],
    decreases p.len(),
{
    if p.len() > 1 {
        assert(edge(v, p[0], p[1]));
        let q = p.skip(1);
        assert forall|t: int| 0 <= t < q.len() - 1 implies edge(v, #[trigger] q[t], q[t + 1]) by {
            assert(edge(v, p[t + 1], p[t + 2]));
        }
        lemma_closed_set_blocks(v, vis, q);
        assert(q.last() == p.last());
    }
}

/// How a trimmed path splits into a parent path and a leaf name: everything
/// before the last `/` (or `/` for an empty prefix, or `.` when there is no
/// slash) and everything after it.
pub open spec fn parent_leaf(t: Seq<char>) -> (Seq<char>, Seq<char>) {
    if has_slash(t) {
        (
            if last_slash(t) == 0 {
                seq!['/']
            } else {
                t.take(last_slash(t))
            },
            t.skip(last_slash(t) + 1),
        )
    } else {
        (seq!['.'], t)
    }
}

/// What `rename` does: both paths split into parent and leaf, both parents
/// resolve from `this` and must be directories; within one directory the
/// entry changes key in place, across directories it moves from the source
/// table to the destination table, and a failure on the way leaves the tree
/// exactly as it was. Moving a directory into its own subtree would make it
/// its own descendant, so such a request is refused as structurally
/// nonsensical and ownership stays acyclic.
pub open spec fn rename_tr(v: Seq<NodeView>, this: int, oldp: Seq<char>, newp: Seq<char>) -> (
    Seq<NodeView>,
    Result<(), VfsError>,
) {
    let (opp, on) = parent_leaf(trim_slashes(oldp));
    let (npp, nn) = parent_leaf(trim_slashes(newp));
    match lookup_path(v, this, opp) {
        Err(e) => (v, Err(e)),
        Ok(op) => if !(v[op].ty is Dir) {
            (v, Err(VfsError::InvalidInput))
        } else {
            match lookup_path(v, this, npp) {
                Err(e) => (v, Err(e)),
                Ok(np) => if !(v[np].ty is Dir) {
                    (v, Err(VfsError::InvalidInput))
                } else if op == np {
                    rename_node_tr(v, op, on, nn)
                } else if !tbl_contains(v[op].children, on) {
                    (v, Err(VfsError::NotFound))
                } else if v[tbl_get(v[op].children, on)].ty is Dir && in_subtree(
                    v,
                    tbl_get(v[op].children, on),
                    np,
                ) {
                    (v, Err(VfsError::InvalidInput))
                } else if tbl_contains(v[np].children, nn) {
                    (v, Err(VfsError::AlreadyExists))
                } else {
                    let id = tbl_get(v[op].children, on);
                    let t2 = v[op].children.remove(tbl_index(v[op].children, on));
                    let v2 = v.update(op, NodeView { children: t2, ..v[op] });
                    let t3 = v2[np].children.insert(
                        ins_pos(v2[np].children, nn),
                        (nn, id),
                    );
                    (v2.update(np, NodeView { children: t3, ..v2[np] }), Ok(()))
                },
            }
        },
    }
}

/// Peeling the leading slashes of a path does not change where it leads.
pub proof fn lemma_lookup_path_trim(v: Seq<NodeView>, this: int, p: Seq<char>)
    ensures
        lookup_path(v, this, p) == lookup_path(v, this, trim_slashes(p)),
    decreases p.len(),
{
    if p.len() > 0 && p[0] == '/' {
        lemma_lookup_path_trim(v, this, p.skip(1));
    }
}

pub proof fn lemma_create_path_trim(v: Seq<NodeView>, this: int, p: Seq<char>, ty: VfsNodeType)
    ensures
        create_path(v, this, p, ty) == create_path(v, this, trim_slashes(p), ty),
    decreases p.len(),
{
    if p.len() > 0 && p[0] == '/' {
        lemma_create_path_trim(v, this, p.skip(1), ty);
    }
}

pub proof fn lemma_remove_path_trim(v: Seq<NodeView>, this: int, p: Seq<char>)
    ensures
        remove_path(v, this, p) == remove_path(v, this, trim_slashes(p)),
    decreases p.len(),
{
    if p.len() > 0 && p[0] == '/' {
        lemma_remove_path_trim(v, this, p.skip(1));
    }
}

// ---------------------------------------------------------------------------
// Executable search helpers over a concrete child table.
// ---------------------------------------------------------------------------
/// Finds the position of a name in a child table.
fn tbl_find(t: &Vec<(String, usize)>, name: &str) -> (r: Option<usize>)
    ensures
        match r {
            Some(k) => k < t@.len() && tbl_view(t@)[k as int].0 == name@ && k as int == tbl_index(
                tbl_view(t@),
                name@,
            ),
            None => !tbl_contains(tbl_view(t@), name@),
        },
{
    let ghost tv = tbl_view(t@);
    let len = t.len();
    let mut k: usize = 0;
    while k < len
        invariant
            k <= len,
            len == t@.len(),
            tv == tbl_view(t@),
            forall|j: int| 0 <= j < k ==> tv[j].0 != name@,
        decreases len - k,
    {
        if str_eq(t[k].0.as_str(), name) {
            proof {
                assert(tv[k as int].0 == name@);
                lemma_tbl_index(tv, name@);
            }
            return Some(k);
        }
        k += 1;
    }
    None
}

/// Finds the position where a fresh name must be inserted to keep the table
/// sorted.
fn tbl_insert_pos(t: &Vec<(String, usize)>, name: &str) -> (r: usize)
    requires
        tbl_sorted(tbl_view(t@)),
        !tbl_contains(tbl_view(t@), name@),
    ensures
        r <= t@.len(),
        r as int == ins_pos(tbl_view(t@), name@),
{
    let ghost tv = tbl_view(t@);
    let len = t.len();
    let mut k: usize = 0;
    while k < len && str_lt(t[k].0.as_str(), name)
        invariant
            k <= len,
            len == t@.len(),
            tv == tbl_view(t@),
            tbl_sorted(tv),
            !tbl_contains(tv, name@),
            forall|j: int| 0 <= j < k ==> lex_lt(tv[j].0, name@),
        decreases len - k,
    {
        k += 1;
    }
    proof {
        lemma_ins_pos(tv, name@);
        let p = ins_pos(tv, name@);
        assert forall|j: int| 0 <= j < k implies !lex_lt(name@, tv[j].0) by {
            lemma_lex_trichotomy(tv[j].0, name@);
        }
        if (k as int) < len {
            assert(tv[k as int].0 != name@);
            lemma_lex_trichotomy(name@, tv[k as int].0);
            assert(lex_lt(name@, tv[k as int].0));
        }
        if p < k {
            assert(lex_lt(tv[p].0, name@));
            assert(lex_lt(name@, tv[p].0));
            lemma_lex_trichotomy(name@, tv[p].0);
        }
        if k < p {
            assert(!lex_lt(name@, tv[k as int].0));
        }
    }
    k
}

} // verus!
