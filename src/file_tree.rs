//! The navigable file tree: lazily loaded children, recursive selection
//! propagation, expansion state and the search-driven visible projection.

use vstd::prelude::*;
use crate::search::{
    double_star, glob_match_search, lemma_double_star_matches_every_node, node_matches,
};
use crate::text::{
    chars_of, lemma_lex_lt_asymmetric, lemma_lex_lt_transitive, lex_lt, lex_lt_exec,
};

verus! {

/// One entry of the navigable tree. A node owns its children.
#[derive(Debug)]
pub struct FileNode {
    pub path: String,
    pub name: String,
    pub is_directory: bool,
    pub is_expanded: bool,
    pub is_selected: bool,
    pub children: Vec<FileNode>,
    pub level: usize,
    pub children_loaded: bool,
}

/// The mathematical value of a node and its whole subtree.
pub struct NodeModel {
    pub path: Seq<char>,
    pub name: Seq<char>,
    pub is_directory: bool,
    pub is_expanded: bool,
    pub is_selected: bool,
    pub children: Seq<NodeModel>,
    pub level: nat,
    pub children_loaded: bool,
}

/// The value of a node and of its whole subtree.
pub open spec fn model_of(n: FileNode) -> NodeModel
    decreases n,
{
    NodeModel {
        path: n.path@,
        name: n.name@,
        is_directory: n.is_directory,
        is_expanded: n.is_expanded,
        is_selected: n.is_selected,
        children: Seq::new(
            n.children@.len(),
            |i: int|
                if 0 <= i < n.children@.len() {
                    model_of(n.children@[i])
                } else {
                    arbitrary()
                },
        ),
        level: n.level as nat,
        children_loaded: n.children_loaded,
    }
}

impl View for FileNode {
    type V = NodeModel;

    open spec fn view(&self) -> NodeModel {
        model_of(*self)
    }
}

/// Every node of the forest, loaded descendants included, selected or not as `sel` says.
pub open spec fn select_all(nodes: Seq<NodeModel>, sel: bool) -> Seq<NodeModel>
    decreases nodes,
{
    Seq::new(
        nodes.len(),
        |i: int|
            if 0 <= i < nodes.len() {
                NodeModel { is_selected: sel, children: select_all(nodes[i].children, sel), ..nodes[i] }
            } else {
                arbitrary()
            },
    )
}

/// The values of a list of sibling nodes.
pub open spec fn forest_view(nodes: Seq<FileNode>) -> Seq<NodeModel> {
    Seq::new(nodes.len(), |i: int| model_of(nodes[i]))
}


/// Sets the selection of every node of the forest, loaded descendants included.
fn set_children_selection(nodes: &mut Vec<FileNode>, selected: bool)
    ensures
        forest_view(final(nodes)@) == select_all(forest_view(old(nodes)@), selected),
    decreases old(nodes)@,
{
    let ghost start = nodes@;
    let mut i: usize = 0;
    while i < nodes.len()
        invariant
            start == old(nodes)@,
            nodes@.len() == start.len(),
            forall|j: int| 0 <= j < i ==> (#[trigger] nodes@[j])@ == select_all(forest_view(start), selected)[j],
            forall|j: int| i <= j < start.len() ==> #[trigger] nodes@[j] == start[j],
        decreases start.len() - i,
    {
        let node = &mut nodes[i];
        node.is_selected = selected;
        proof {
            assert(decreases_to!(start => start[i as int].children@));
        }
        set_children_selection(&mut node.children, selected);
        proof {
            let k = i as int;
            assert(nodes@[k]@.children =~= forest_view(nodes@[k].children@));
            assert(start[k]@.children =~= forest_view(start[k].children@));
            assert(nodes@[k]@ == select_all(forest_view(start), selected)[k]);
        }
        i = i + 1;
    }
    assert(forest_view(nodes@) =~= select_all(forest_view(start), selected));
}


/// What `std::path::Path::file_name` gives for a path: its last component, if any.
pub uninterp spec fn file_name_of(path: Seq<char>) -> Option<Seq<char>>;

/// Relies on `std::path::Path::file_name`: the final component of the path,
/// or `None` where the path ends in `..` or has no component.
#[verifier::external_body]
fn path_file_name(path: &str) -> (r: Option<String>)
    ensures
        match r {
            Some(n) => file_name_of(path@) == Some(n@),
            None => file_name_of(path@) is None,
        },
{
    std::path::Path::new(path).file_name().map(|n| n.to_string_lossy().into_owned())
}

/// The display name of a path: its final component, or the whole path where it has none.
pub open spec fn display_name(path: Seq<char>) -> Seq<char> {
    match file_name_of(path) {
        Some(n) => n,
        None => path,
    }
}

/// A fresh node: collapsed, unselected, with no child loaded yet.
pub open spec fn fresh_model(path: Seq<char>, is_directory: bool, level: nat) -> NodeModel {
    NodeModel {
        path,
        name: display_name(path),
        is_directory,
        is_expanded: false,
        is_selected: false,
        children: Seq::empty(),
        level,
        children_loaded: false,
    }
}

impl FileNode {
    /// A fresh node for `path`, at depth `level`; whether the path is a
    /// directory is read by the caller from the filesystem.
    pub fn new(path: String, level: usize, is_directory: bool) -> (r: FileNode)
        ensures
            r@ == fresh_model(path@, is_directory, level as nat),
    {
        let name = match path_file_name(path.as_str()) {
            Some(n) => n,
            None => path.clone(),
        };
        let r = FileNode {
            path,
            name,
            is_directory,
            is_expanded: false,
            is_selected: false,
            children: Vec::new(),
            level,
            children_loaded: false,
        };
        assert(r@.children =~= Seq::<NodeModel>::empty());
        r
    }
}

/// One entry of a directory listing.
#[derive(Debug, Clone)]
pub struct DirEntry {
    pub path: String,
    pub is_directory: bool,
}

/// A directory could not be listed; `path` is the directory.
#[derive(Debug)]
pub struct ListingError {
    pub path: String,
}

/// `a` sorts before `b` among siblings: directories first, then by name.
pub open spec fn sorts_before(a: NodeModel, b: NodeModel) -> bool {
    (a.is_directory && !b.is_directory) || (a.is_directory == b.is_directory && lex_lt(
        a.name,
        b.name,
    ))
}

/// Where a stable insertion puts `x` in `s`: before the first element that `x` sorts before.
pub open spec fn insert_pos(x: NodeModel, s: Seq<NodeModel>) -> int
    decreases s.len(),
{
    if s.len() == 0 {
        0
    } else if sorts_before(x, s[0]) {
        0
    } else {
        1 + insert_pos(x, s.drop_first())
    }
}

/// The stable sort of `s`, directories first and then by name.
pub open spec fn sort_models(s: Seq<NodeModel>) -> Seq<NodeModel>
    decreases s.len(),
{
    if s.len() == 0 {
        s
    } else {
        let t = sort_models(s.drop_last());
        t.insert(insert_pos(s.last(), t), s.last())
    }
}

/// Fresh nodes at depth `level` for the entries of a listing, in listing order.
pub open spec fn entry_models(entries: Seq<DirEntry>, level: nat) -> Seq<NodeModel> {
    Seq::new(
        entries.len(),
        |i: int| fresh_model(entries[i].path@, entries[i].is_directory, level),
    )
}

/// The depth of a child of a node at depth `level` (kept within `usize`).
pub open spec fn child_level(level: nat) -> nat {
    if level < usize::MAX {
        level + 1
    } else {
        level
    }
}

/// The mutations that address one node of the tree by its path.
#[derive(Clone, Copy)]
pub enum TreeOp {
    /// Set the selection of a node and of all its loaded descendants.
    SelectTree(bool),
    /// Set the selection of a node alone.
    SelectOne(bool),
    /// Expand or collapse a directory node.
    Expand(bool),
    /// Load the children of a directory node not loaded yet.
    Load,
}

/// `op` addresses node `n` when asked for `path`.
pub open spec fn op_applies(op: TreeOp, n: NodeModel, path: Seq<char>) -> bool {
    n.path == path && match op {
        TreeOp::SelectTree(_) => true,
        TreeOp::SelectOne(_) => true,
        TreeOp::Expand(_) => n.is_directory,
        TreeOp::Load => n.is_directory && !n.children_loaded,
    }
}

/// Node `n` after `op`, the listing `entries` giving the children that `Load` creates.
pub open spec fn op_result(op: TreeOp, n: NodeModel, entries: Seq<DirEntry>) -> NodeModel {
    match op {
        TreeOp::SelectTree(s) => NodeModel {
            is_selected: s,
            children: select_all(n.children, s),
            ..n
        },
        TreeOp::SelectOne(s) => NodeModel { is_selected: s, ..n },
        TreeOp::Expand(e) => NodeModel { is_expanded: e, ..n },
        TreeOp::Load => NodeModel {
            children: sort_models(entry_models(entries, child_level(n.level))),
            children_loaded: true,
            ..n
        },
    }
}

/// `k` is the first sibling that `op` addresses, or the number of siblings if none is.
pub open spec fn is_target_index(nodes: Seq<NodeModel>, path: Seq<char>, op: TreeOp, k: int) -> bool {
    &&& 0 <= k <= nodes.len()
    &&& k < nodes.len() ==> op_applies(op, nodes[k], path)
    &&& forall|j: int| 0 <= j < k ==> !op_applies(op, #[trigger] nodes[j], path)
}

/// The first sibling that `op` addresses, or the number of siblings if none is.
pub open spec fn target_index(nodes: Seq<NodeModel>, path: Seq<char>, op: TreeOp) -> int {
    choose|k: int| is_target_index(nodes, path, op, k)
}

/// The forest after `op` on `path`: siblings are scanned in order; the first
/// one addressed is changed and ends the scan of its level, while each one
/// before it has its subtree searched in turn.
pub open spec fn apply_at(
    nodes: Seq<NodeModel>,
    path: Seq<char>,
    op: TreeOp,
    entries: Seq<DirEntry>,
) -> Seq<NodeModel>
    decreases nodes,
{
    let k = target_index(nodes, path, op);
    Seq::new(
        nodes.len(),
        |i: int|
            if 0 <= i < nodes.len() {
                if i < k {
                    NodeModel { children: apply_at(nodes[i].children, path, op, entries), ..nodes[i] }
                } else if i == k {
                    op_result(op, nodes[i], entries)
                } else {
                    nodes[i]
                }
            } else {
                arbitrary()
            },
    )
}

proof fn lemma_target_index(nodes: Seq<NodeModel>, path: Seq<char>, op: TreeOp, k: int)
    requires
        is_target_index(nodes, path, op, k),
    ensures
        target_index(nodes, path, op) == k,
{
    let c = target_index(nodes, path, op);
    assert(is_target_index(nodes, path, op, c));
    if c < k {
        assert(!op_applies(op, nodes[c], path));
    }
    if k < c {
        assert(!op_applies(op, nodes[k], path));
    }
}

/// Whether the exec node addresses `op` at `path`.
fn applies(node: &FileNode, path: &String, op: TreeOp) -> (r: bool)
    ensures
        r == op_applies(op, node@, path@),
{
    if node.path != *path {
        return false;
    }
    match op {
        TreeOp::SelectTree(_) => true,
        TreeOp::SelectOne(_) => true,
        TreeOp::Expand(_) => node.is_directory,
        TreeOp::Load => node.is_directory && !node.children_loaded,
    }
}


/// Whether `a` sorts before `b` among siblings.
fn sorts_before_exec(a: &FileNode, b: &FileNode) -> (r: bool)
    ensures
        r == sorts_before(a@, b@),
{
    if a.is_directory != b.is_directory {
        a.is_directory
    } else {
        lex_lt_exec(&chars_of(a.name.as_str()), &chars_of(b.name.as_str()))
    }
}

proof fn lemma_insert_pos(x: NodeModel, s: Seq<NodeModel>, j: int)
    requires
        0 <= j <= s.len(),
        forall|k: int| 0 <= k < j ==> !sorts_before(x, #[trigger] s[k]),
        j < s.len() ==> sorts_before(x, s[j]),
    ensures
        insert_pos(x, s) == j,
    decreases j,
{
    if j > 0 {
        let t = s.drop_first();
        assert forall|k: int| 0 <= k < j - 1 implies !sorts_before(x, #[trigger] t[k]) by {
            assert(t[k] == s[k + 1]);
        }
        if j - 1 < t.len() {
            assert(t[j - 1] == s[j]);
        }
        lemma_insert_pos(x, t, j - 1);
        assert(!sorts_before(x, s[0]));
    }
}

/// Fresh child nodes at depth `level` for a directory listing, directories
/// first and then by name, entries that tie keeping their listing order.
pub fn build_children(entries: &Vec<DirEntry>, level: usize) -> (r: Vec<FileNode>)
    ensures
        forest_view(r@) == sort_models(entry_models(entries@, level as nat)),
        forall|i: int, j: int|
            0 <= i < j < r@.len() ==> !sorts_before(
                #[trigger] forest_view(r@)[j],
                #[trigger] forest_view(r@)[i],
            ),
{
    let ghost models = entry_models(entries@, level as nat);
    let mut out: Vec<FileNode> = Vec::new();
    let mut i: usize = 0;
    assert(forest_view(out@) =~= sort_models(models.take(0)));
    while i < entries.len()
        invariant
            i <= entries@.len(),
            models == entry_models(entries@, level as nat),
            forest_view(out@) == sort_models(models.take(i as int)),
        decreases entries.len() - i,
    {
        let node = FileNode::new(entries[i].path.clone(), level, entries[i].is_directory);
        let mut j: usize = 0;
        while j < out.len() && !sorts_before_exec(&node, &out[j])
            invariant
                j <= out@.len(),
                forall|k: int| 0 <= k < j ==> !sorts_before(node@, #[trigger] forest_view(out@)[k]),
            decreases out.len() - j,
        {
            j = j + 1;
        }
        proof {
            lemma_insert_pos(node@, forest_view(out@), j as int);
        }
        let ghost before = out@;
        out.insert(j, node);
        proof {
            let t = models.take(i + 1);
            assert(t.drop_last() =~= models.take(i as int));
            assert(t.last() == models[i as int]);
            assert(forest_view(out@) =~= forest_view(before).insert(j as int, models[i as int]));
        }
        i = i + 1;
    }
    assert(models.take(entries@.len() as int) =~= models);
    proof {
        lemma_sort_models_sorted(models);
    }
    out
}

/// Applies `op` to the forest at `path`, building the children that `Load`
/// creates from `entries`.
fn apply_op(nodes: &mut Vec<FileNode>, path: &String, op: TreeOp, entries: &Vec<DirEntry>)
    ensures
        forest_view(final(nodes)@) == apply_at(forest_view(old(nodes)@), path@, op, entries@),
    decreases old(nodes)@,
{
    let ghost start = nodes@;
    let ghost fs = forest_view(start);
    let mut i: usize = 0;
    while i < nodes.len()
        invariant
            start == old(nodes)@,
            fs == forest_view(start),
            nodes@.len() == start.len(),
            i <= start.len(),
            forall|j: int| 0 <= j < i ==> !op_applies(op, #[trigger] fs[j], path@),
            forall|j: int|
                0 <= j < i ==> model_of(#[trigger] nodes@[j]) == (NodeModel {
                    children: apply_at(fs[j].children, path@, op, entries@),
                    ..fs[j]
                }),
            forall|j: int| i <= j < start.len() ==> #[trigger] nodes@[j] == start[j],
        decreases start.len() - i,
    {
        let node = &mut nodes[i];
        if applies(node, path, op) {
            match op {
                TreeOp::SelectTree(sel) => {
                    node.is_selected = sel;
                    set_children_selection(&mut node.children, sel);
                },
                TreeOp::SelectOne(sel) => {
                    node.is_selected = sel;
                },
                TreeOp::Expand(e) => {
                    node.is_expanded = e;
                },
                TreeOp::Load => {
                    let lvl = if node.level < usize::MAX {
                        node.level + 1
                    } else {
                        node.level
                    };
                    node.children = build_children(entries, lvl);
                    node.children_loaded = true;
                },
            }
            proof {
                let k = i as int;
                lemma_target_index(fs, path@, op, k);
                assert(model_of(nodes@[k]).children =~= forest_view(nodes@[k].children@));
                assert(fs[k].children =~= forest_view(start[k].children@));
                assert(model_of(nodes@[k]) == op_result(op, fs[k], entries@));
                assert(forest_view(nodes@) =~= apply_at(fs, path@, op, entries@));
            }
            return;
        }
        proof {
            assert(decreases_to!(start => start[i as int].children@));
        }
        apply_op(&mut node.children, path, op, entries);
        proof {
            let k = i as int;
            assert(model_of(nodes@[k]).children =~= forest_view(nodes@[k].children@));
            assert(fs[k].children =~= forest_view(start[k].children@));
        }
        i = i + 1;
    }
    proof {
        lemma_target_index(fs, path@, op, start.len() as int);
        assert(forest_view(nodes@) =~= apply_at(fs, path@, op, entries@));
    }
}


/// Some node of the forest, at any depth, is addressed by `op` at `path`.
pub open spec fn reaches(nodes: Seq<NodeModel>, path: Seq<char>, op: TreeOp) -> bool
    decreases nodes,
{
    if nodes.len() == 0 {
        false
    } else {
        reaches(nodes.drop_last(), path, op) || op_applies(op, nodes.last(), path) || reaches(
            nodes.last().children,
            path,
            op,
        )
    }
}

/// Whether `op` addresses some node of the forest at `path`.
fn reaches_exec(nodes: &Vec<FileNode>, path: &String, op: TreeOp) -> (r: bool)
    ensures
        r == reaches(forest_view(nodes@), path@, op),
    decreases nodes@,
{
    let ghost fs = forest_view(nodes@);
    let mut i: usize = 0;
    assert(fs.take(0) =~= Seq::<NodeModel>::empty());
    while i < nodes.len()
        invariant
            i <= nodes@.len(),
            fs == forest_view(nodes@),
            !reaches(fs.take(i as int), path@, op),
        decreases nodes.len() - i,
    {
        proof {
            let t = fs.take(i + 1);
            assert(t.drop_last() =~= fs.take(i as int));
            assert(decreases_to!(nodes@ => nodes@[i as int].children@));
            assert(fs[i as int].children =~= forest_view(nodes@[i as int].children@));
        }
        if applies(&nodes[i], path, op) || reaches_exec(&nodes[i].children, path, op) {
            proof {
                lemma_reaches_extend(fs, path@, op, i as int + 1);
            }
            return true;
        }
        i = i + 1;
    }
    assert(fs.take(nodes@.len() as int) =~= fs);
    false
}

proof fn lemma_reaches_extend(fs: Seq<NodeModel>, path: Seq<char>, op: TreeOp, n: int)
    requires
        0 < n <= fs.len(),
        reaches(fs.take(n), path, op),
    ensures
        reaches(fs, path, op),
    decreases fs.len() - n,
{
    if n < fs.len() {
        let t = fs.take(n + 1);
        assert(t.drop_last() =~= fs.take(n));
        lemma_reaches_extend(fs, path, op, n + 1);
    } else {
        assert(fs.take(n) =~= fs);
    }
}

/// The nodes shown for query `q`, depth first and in pre-order: a node is
/// shown when it matches, and its children are visited when it is expanded
/// and either matched or is a directory.
pub open spec fn visible_models(nodes: Seq<NodeModel>, q: Seq<char>) -> Seq<NodeModel>
    decreases nodes,
{
    if nodes.len() == 0 {
        Seq::empty()
    } else {
        let n = nodes.last();
        let m = node_matches(q, n.name, n.path);
        let head: Seq<NodeModel> = if m {
            seq![n]
        } else {
            Seq::empty()
        };
        let below = if n.is_expanded && (m || n.is_directory) {
            visible_models(n.children, q)
        } else {
            Seq::empty()
        };
        visible_models(nodes.drop_last(), q) + head + below
    }
}

/// The values of a list of node references.
pub open spec fn refs_view(v: Seq<&FileNode>) -> Seq<NodeModel> {
    Seq::new(v.len(), |i: int| model_of(*v[i]))
}

/// File tree state: the root-level nodes, the search query and the cursor.
#[derive(Debug)]
pub struct FileTreeState {
    pub file_tree: Vec<FileNode>,
    pub search_query: String,
    pub tree_cursor: usize,
    pub file_tree_scroll: u16,
}

impl Default for FileTreeState {
    fn default() -> (r: FileTreeState)
        ensures
            r.file_tree@.len() == 0,
            r.search_query@.len() == 0,
            r.tree_cursor == 0,
            r.file_tree_scroll == 0,
    {
        FileTreeState {
            file_tree: Vec::new(),
            search_query: String::new(),
            tree_cursor: 0,
            file_tree_scroll: 0,
        }
    }
}

impl FileTreeState {
    /// The value of the whole forest.
    pub open spec fn forest(&self) -> Seq<NodeModel> {
        forest_view(self.file_tree@)
    }

    /// The state differs from `other` at most in its nodes.
    pub open spec fn same_but_tree(&self, other: &Self) -> bool {
        &&& self.search_query == other.search_query
        &&& self.tree_cursor == other.tree_cursor
        &&& self.file_tree_scroll == other.file_tree_scroll
    }

    /// The nodes to display, in display order.
    pub fn get_visible_nodes(&self) -> (r: Vec<&FileNode>)
        ensures
            refs_view(r@) == visible_models(self.forest(), self.search_query@),
    {
        let mut visible: Vec<&FileNode> = Vec::new();
        self.collect_visible_nodes(&self.file_tree, &mut visible);
        assert(refs_view(visible@) =~= Seq::<NodeModel>::empty().add(visible_models(self.forest(), self.search_query@)));
        visible
    }

    /// Whether a node with this name and path is shown for the current query.
    fn node_matches_search(&self, node: &FileNode) -> (r: bool)
        ensures
            r == node_matches(self.search_query@, node.name@, node.path@),
    {
        reveal(node_matches);
        if self.search_query.as_str().is_empty() {
            proof {
                assert(self.search_query@.len() == 0);
            }
            true
        } else {
            glob_match_search(self.search_query.as_str(), node.name.as_str())
                || glob_match_search(self.search_query.as_str(), node.path.as_str())
        }
    }

    fn collect_visible_nodes<'a>(&'a self, nodes: &'a Vec<FileNode>, visible: &mut Vec<&'a FileNode>)
        ensures
            refs_view(final(visible)@) == refs_view(old(visible)@) + visible_models(
                forest_view(nodes@),
                self.search_query@,
            ),
        decreases nodes@,
    {
        let ghost fs = forest_view(nodes@);
        let ghost q = self.search_query@;
        let ghost base = refs_view(visible@);
        let mut i: usize = 0;
        assert(fs.take(0) =~= Seq::<NodeModel>::empty());
        assert(refs_view(visible@) =~= base + visible_models(fs.take(0), q));
        while i < nodes.len()
            invariant
                i <= nodes@.len(),
                fs == forest_view(nodes@),
                q == self.search_query@,
                refs_view(visible@) == base + visible_models(fs.take(i as int), q),
            decreases nodes.len() - i,
        {
            let node = &nodes[i];
            let m = self.node_matches_search(node);
            let ghost before = refs_view(visible@);
            if m {
                visible.push(node);
            }
            let ghost mid = refs_view(visible@);
            proof {
                if m {
                    assert(mid =~= before + seq![fs[i as int]]);
                } else {
                    assert(mid =~= before);
                }
                assert(decreases_to!(nodes@ => nodes@[i as int].children@));
                assert(fs[i as int].children =~= forest_view(nodes@[i as int].children@));
            }
            if node.is_expanded && (m || node.is_directory) {
                self.collect_visible_nodes(&node.children, visible);
            }
            proof {
                let t = fs.take(i + 1);
                assert(t.drop_last() =~= fs.take(i as int));
                assert(t.last() == fs[i as int]);
                let n = fs[i as int];
                let head: Seq<NodeModel> = if m { seq![n] } else { Seq::empty() };
                let below = if n.is_expanded && (m || n.is_directory) {
                    visible_models(n.children, q)
                } else {
                    Seq::empty()
                };
                assert(visible_models(t, q) == visible_models(fs.take(i as int), q) + head + below);
                assert(refs_view(visible@) =~= base + visible_models(t, q));
            }
            i = i + 1;
        }
        assert(fs.take(nodes@.len() as int) =~= fs);
    }

    /// Replaces the whole tree.
    pub fn set_file_tree(&mut self, tree: Vec<FileNode>)
        ensures
            final(self).file_tree == tree,
            final(self).same_but_tree(old(self)),
    {
        self.file_tree = tree;
    }

    /// Sets the selection of the node at `path`. For a directory, every loaded
    /// descendant gets the same selection; for a file, the node alone.
    pub fn update_node_selection(&mut self, path: &str, selected: bool, is_directory: bool)
        ensures
            final(self).forest() == apply_at(
                old(self).forest(),
                path@,
                if is_directory {
                    TreeOp::SelectTree(selected)
                } else {
                    TreeOp::SelectOne(selected)
                },
                Seq::empty(),
            ),
            final(self).same_but_tree(old(self)),
    {
        let p = path.to_owned();
        if is_directory {
            Self::toggle_directory_selection_recursive(&mut self.file_tree, &p, selected);
        } else {
            Self::update_single_node_selection(&mut self.file_tree, &p, selected);
        }
    }

    /// Expands the directory at `path`.
    pub fn expand_directory(&mut self, path: &str)
        ensures
            final(self).forest() == apply_at(old(self).forest(), path@, TreeOp::Expand(true), Seq::empty()),
            final(self).same_but_tree(old(self)),
    {
        let p = path.to_owned();
        Self::set_directory_expanded(&mut self.file_tree, &p, true);
    }

    /// Collapses the directory at `path`.
    pub fn collapse_directory(&mut self, path: &str)
        ensures
            final(self).forest() == apply_at(old(self).forest(), path@, TreeOp::Expand(false), Seq::empty()),
            final(self).same_but_tree(old(self)),
    {
        let p = path.to_owned();
        Self::set_directory_expanded(&mut self.file_tree, &p, false);
    }

    /// Whether some directory at `path` still waits for its children: only
    /// then does the filesystem need to be listed.
    pub fn needs_loading(&self, path: &str) -> (r: bool)
        ensures
            r == reaches(self.forest(), path@, TreeOp::Load),
    {
        let p = path.to_owned();
        reaches_exec(&self.file_tree, &p, TreeOp::Load)
    }

    /// Loads the children of the directory at `path` from its listing, once.
    /// Where no directory at `path` waits for its children this is a no-op
    /// that succeeds, whatever the listing. Otherwise a failed listing is
    /// returned and the tree is left as it was, so that a retry is possible.
    pub fn load_directory_children(
        &mut self,
        path: &str,
        listing: Result<Vec<DirEntry>, ListingError>,
    ) -> (r: Result<(), ListingError>)
        ensures
            !reaches(old(self).forest(), path@, TreeOp::Load) ==> r is Ok && final(self).forest()
                == old(self).forest(),
            reaches(old(self).forest(), path@, TreeOp::Load) ==> match listing {
                Ok(entries) => r is Ok && final(self).forest() == apply_at(
                    old(self).forest(),
                    path@,
                    TreeOp::Load,
                    entries@,
                ),
                Err(e) => r == Err::<(), ListingError>(e) && final(self).forest() == old(self).forest(),
            },
            final(self).same_but_tree(old(self)),
    {
        let p = path.to_owned();
        if !reaches_exec(&self.file_tree, &p, TreeOp::Load) {
            return Ok(());
        }
        match listing {
            Ok(entries) => {
                Self::load_children_for_path(&mut self.file_tree, &p, &entries);
                Ok(())
            },
            Err(e) => Err(e),
        }
    }

    fn toggle_directory_selection_recursive(nodes: &mut Vec<FileNode>, path: &String, selected: bool)
        ensures
            forest_view(final(nodes)@) == apply_at(
                forest_view(old(nodes)@),
                path@,
                TreeOp::SelectTree(selected),
                Seq::empty(),
            ),
    {
        let none: Vec<DirEntry> = Vec::new();
        apply_op(nodes, path, TreeOp::SelectTree(selected), &none);
        assert(none@ =~= Seq::<DirEntry>::empty());
    }

    fn update_single_node_selection(nodes: &mut Vec<FileNode>, path: &String, selected: bool)
        ensures
            forest_view(final(nodes)@) == apply_at(
                forest_view(old(nodes)@),
                path@,
                TreeOp::SelectOne(selected),
                Seq::empty(),
            ),
    {
        let none: Vec<DirEntry> = Vec::new();
        apply_op(nodes, path, TreeOp::SelectOne(selected), &none);
        assert(none@ =~= Seq::<DirEntry>::empty());
    }

    fn set_directory_expanded(nodes: &mut Vec<FileNode>, path: &String, expanded: bool)
        ensures
            forest_view(final(nodes)@) == apply_at(
                forest_view(old(nodes)@),
                path@,
                TreeOp::Expand(expanded),
                Seq::empty(),
            ),
    {
        let none: Vec<DirEntry> = Vec::new();
        apply_op(nodes, path, TreeOp::Expand(expanded), &none);
        assert(none@ =~= Seq::<DirEntry>::empty());
    }

    fn load_children_for_path(nodes: &mut Vec<FileNode>, path: &String, entries: &Vec<DirEntry>)
        ensures
            forest_view(final(nodes)@) == apply_at(
                forest_view(old(nodes)@),
                path@,
                TreeOp::Load,
                entries@,
            ),
    {
        apply_op(nodes, path, TreeOp::Load, entries);
    }
}


proof fn lemma_sort_models_from(s: Seq<NodeModel>)
    ensures
        sort_models(s).len() == s.len(),
        forall|k: int| 0 <= k < s.len() ==> s.contains(#[trigger] sort_models(s)[k]),
    decreases s.len(),
{
    if s.len() > 0 {
        let d = s.drop_last();
        lemma_sort_models_from(d);
        let t = sort_models(d);
        let p = insert_pos(s.last(), t);
        lemma_insert_pos_bounds(s.last(), t);
        assert forall|k: int| 0 <= k < s.len() implies s.contains(#[trigger] sort_models(s)[k]) by {
            if k < p {
                assert(d.contains(t[k]));
                let j = choose|j: int| 0 <= j < d.len() && d[j] == t[k];
                assert(s[j] == d[j]);
            } else if k == p {
                assert(s[s.len() - 1] == s.last());
            } else {
                assert(d.contains(t[k - 1]));
                let j = choose|j: int| 0 <= j < d.len() && d[j] == t[k - 1];
                assert(s[j] == d[j]);
            }
        }
    }
}

proof fn lemma_insert_pos_bounds(x: NodeModel, s: Seq<NodeModel>)
    ensures
        0 <= insert_pos(x, s) <= s.len(),
    decreases s.len(),
{
    if s.len() > 0 {
        lemma_insert_pos_bounds(x, s.drop_first());
    }
}

/// Selecting a directory reaches only the children loaded so far: one not
/// loaded yet gains no child from it, and the children that a later load
/// creates all start unselected, whatever the directory's own selection.
pub proof fn lemma_children_loaded_later_start_unselected(
    n: NodeModel,
    selected: bool,
    entries: Seq<DirEntry>,
)
    requires
        !n.children_loaded,
        n.children.len() == 0,
    ensures
        op_result(TreeOp::SelectTree(selected), n, Seq::empty()).children.len() == 0,
        !op_result(TreeOp::SelectTree(selected), n, Seq::empty()).children_loaded,
        forall|k: int|
            0 <= k < entries.len() ==> !(#[trigger] op_result(
                TreeOp::Load,
                op_result(TreeOp::SelectTree(selected), n, Seq::empty()),
                entries,
            ).children[k]).is_selected,
{
    let n1 = op_result(TreeOp::SelectTree(selected), n, Seq::empty());
    let m = entry_models(entries, child_level(n1.level));
    lemma_sort_models_from(m);
    assert forall|k: int| 0 <= k < entries.len() implies !(#[trigger] op_result(
        TreeOp::Load,
        n1,
        entries,
    ).children[k]).is_selected by {
        assert(m.contains(sort_models(m)[k]));
    }
}


proof fn lemma_sorts_before_order(a: NodeModel, b: NodeModel, c: NodeModel)
    ensures
        !(sorts_before(a, b) && sorts_before(b, a)),
        sorts_before(a, b) && sorts_before(b, c) ==> sorts_before(a, c),
{
    lemma_lex_lt_asymmetric(a.name, b.name);
    if sorts_before(a, b) && sorts_before(b, c) && a.is_directory == b.is_directory
        && b.is_directory == c.is_directory {
        lemma_lex_lt_transitive(a.name, b.name, c.name);
    }
}

/// Loaded children come out in order: no child sorts before one listed
/// ahead of it, that is, directories come first and each group is in
/// ascending order of name.
pub proof fn lemma_sort_models_sorted(s: Seq<NodeModel>)
    ensures
        forall|i: int, j: int|
            0 <= i < j < sort_models(s).len() ==> !sorts_before(
                #[trigger] sort_models(s)[j],
                #[trigger] sort_models(s)[i],
            ),
    decreases s.len(),
{
    if s.len() > 0 {
        let d = s.drop_last();
        let x = s.last();
        lemma_sort_models_sorted(d);
        let t = sort_models(d);
        let p = insert_pos(x, t);
        lemma_insert_pos_bounds(x, t);
        lemma_insert_pos_facts(x, t);
        let r = sort_models(s);
        assert(r == t.insert(p, x));
        assert forall|i: int, j: int| 0 <= i < j < r.len() implies !sorts_before(
            #[trigger] r[j],
            #[trigger] r[i],
        ) by {
            if j < p {
                assert(r[i] == t[i] && r[j] == t[j]);
            } else if j == p {
                assert(r[i] == t[i]);
            } else if i < p {
                assert(r[i] == t[i] && r[j] == t[j - 1]);
                lemma_sorts_before_order(t[j - 1], x, t[i]);
                if sorts_before(t[j - 1], t[i]) {
                    lemma_sorts_before_order(t[j - 1], t[i], x);
                    lemma_sorts_before_order(t[j - 1], t[p], x);
                    assert(!sorts_before(x, t[i]));
                    lemma_sorts_before_order(x, t[i], t[j - 1]);
                }
            } else if i == p {
                assert(r[i] == x && r[j] == t[j - 1]);
                if sorts_before(t[j - 1], x) {
                    lemma_sorts_before_order(t[j - 1], x, t[p]);
                    assert(sorts_before(x, t[p]));
                    assert(sorts_before(t[j - 1], t[p]));
                    if j - 1 > p {
                        assert(!sorts_before(t[j - 1], t[p]));
                    } else {
                        lemma_sorts_before_order(t[p], x, x);
                    }
                }
            } else {
                assert(r[i] == t[i - 1] && r[j] == t[j - 1]);
            }
        }
    }
}

proof fn lemma_insert_pos_facts(x: NodeModel, s: Seq<NodeModel>)
    ensures
        forall|k: int| 0 <= k < insert_pos(x, s) ==> !sorts_before(x, #[trigger] s[k]),
        insert_pos(x, s) < s.len() ==> sorts_before(x, s[insert_pos(x, s)]),
    decreases s.len(),
{
    if s.len() > 0 && !sorts_before(x, s[0]) {
        let t = s.drop_first();
        lemma_insert_pos_facts(x, t);
        lemma_insert_pos_bounds(x, t);
        assert(insert_pos(x, s) == 1 + insert_pos(x, t));
        if insert_pos(x, s) < s.len() {
            assert(s[insert_pos(x, s)] == t[insert_pos(x, t)]);
        }
        assert forall|k: int| 0 <= k < insert_pos(x, s) implies !sorts_before(x, #[trigger] s[k]) by {
            if k > 0 {
                assert(s[k] == t[k - 1]);
            }
        }
    }
}


/// The query `**` shows exactly the nodes that the empty query shows: every
/// node whose ancestors are all expanded, in the same order.
pub proof fn lemma_double_star_shows_all(nodes: Seq<NodeModel>)
    ensures
        visible_models(nodes, double_star()) == visible_models(nodes, Seq::empty()),
    decreases nodes,
{
    if nodes.len() > 0 {
        let n = nodes.last();
        lemma_double_star_matches_every_node(n.name, n.path);
        lemma_double_star_shows_all(nodes.drop_last());
        lemma_double_star_shows_all(n.children);
    }
}


/// `loc` addresses a node of the forest: its first index picks a root, each
/// further index a child of the node picked so far.
pub open spec fn valid_loc(nodes: Seq<NodeModel>, loc: Seq<int>) -> bool
    decreases loc.len(),
{
    &&& loc.len() >= 1
    &&& 0 <= loc[0] < nodes.len()
    &&& loc.len() > 1 ==> valid_loc(nodes[loc[0]].children, loc.drop_first())
}

/// The node that `loc` addresses.
pub open spec fn node_at(nodes: Seq<NodeModel>, loc: Seq<int>) -> NodeModel
    decreases loc.len(),
{
    if loc.len() <= 1 {
        nodes[loc[0]]
    } else {
        node_at(nodes[loc[0]].children, loc.drop_first())
    }
}

/// No two nodes of the forest, at any depth, share a path.
pub open spec fn unique_paths(nodes: Seq<NodeModel>) -> bool {
    forall|l1: Seq<int>, l2: Seq<int>|
        #![trigger valid_loc(nodes, l1), valid_loc(nodes, l2)]
        valid_loc(nodes, l1) && valid_loc(nodes, l2) && node_at(nodes, l1).path == node_at(
            nodes,
            l2,
        ).path ==> l1 == l2
}

proof fn lemma_loc_prepend(nodes: Seq<NodeModel>, i: int, l: Seq<int>)
    requires
        0 <= i < nodes.len(),
        valid_loc(nodes[i].children, l),
    ensures
        valid_loc(nodes, seq![i] + l),
        node_at(nodes, seq![i] + l) == node_at(nodes[i].children, l),
        (seq![i] + l).drop_first() == l,
{
    assert((seq![i] + l).drop_first() =~= l);
}

proof fn lemma_children_unique(nodes: Seq<NodeModel>, i: int)
    requires
        unique_paths(nodes),
        0 <= i < nodes.len(),
    ensures
        unique_paths(nodes[i].children),
{
    let c = nodes[i].children;
    assert forall|l1: Seq<int>, l2: Seq<int>|
        valid_loc(c, l1) && valid_loc(c, l2) && node_at(c, l1).path == node_at(c, l2).path implies l1
        == l2 by {
        lemma_loc_prepend(nodes, i, l1);
        lemma_loc_prepend(nodes, i, l2);
        assert(valid_loc(nodes, seq![i] + l1) && valid_loc(nodes, seq![i] + l2));
    }
}

/// Every node of `select_all(nodes, sel)`, at any depth, has selection `sel`.
proof fn lemma_select_all_everywhere(nodes: Seq<NodeModel>, sel: bool, loc: Seq<int>)
    requires
        valid_loc(nodes, loc),
    ensures
        valid_loc(select_all(nodes, sel), loc),
        node_at(select_all(nodes, sel), loc).is_selected == sel,
    decreases loc.len(),
{
    if loc.len() > 1 {
        lemma_select_all_everywhere(nodes[loc[0]].children, sel, loc.drop_first());
    }
}

/// Where no two nodes share a path, an operation on the path of a node that
/// it addresses changes that node, at any depth, as `op_result` says.
proof fn lemma_op_at(nodes: Seq<NodeModel>, loc: Seq<int>, op: TreeOp, entries: Seq<DirEntry>)
    requires
        unique_paths(nodes),
        valid_loc(nodes, loc),
        op_applies(op, node_at(nodes, loc), node_at(nodes, loc).path),
    ensures
        ({
            let r = apply_at(nodes, node_at(nodes, loc).path, op, entries);
            valid_loc(r, loc) && node_at(r, loc) == op_result(op, node_at(nodes, loc), entries)
        }),
    decreases loc.len(),
{
    let p = node_at(nodes, loc).path;
    let i = loc[0];
    if loc.len() == 1 {
        assert forall|j: int| 0 <= j < i implies !op_applies(op, #[trigger] nodes[j], p) by {
            if nodes[j].path == p {
                assert(valid_loc(nodes, seq![j]));
                assert(node_at(nodes, seq![j]) == nodes[j]);
                assert(seq![j][0] == j);
            }
        }
        assert(is_target_index(nodes, p, op, i));
        lemma_target_index(nodes, p, op, i);
    } else {
        let rest = loc.drop_first();
        assert forall|j: int| 0 <= j < nodes.len() implies !op_applies(op, #[trigger] nodes[j], p) by {
            if nodes[j].path == p {
                assert(valid_loc(nodes, seq![j]));
                assert(node_at(nodes, seq![j]) == nodes[j]);
                assert(seq![j].len() != loc.len());
            }
        }
        assert(is_target_index(nodes, p, op, nodes.len() as int));
        lemma_target_index(nodes, p, op, nodes.len() as int);
        lemma_children_unique(nodes, i);
        lemma_op_at(nodes[i].children, rest, op, entries);
    }
}

/// Selecting a directory by path, where no two nodes share a path, gives
/// the directory and every node of its currently loaded subtree, at any
/// depth, that selection.
pub proof fn lemma_directory_selection_reaches_loaded_subtree(
    nodes: Seq<NodeModel>,
    loc: Seq<int>,
    sub: Seq<int>,
    sel: bool,
)
    requires
        unique_paths(nodes),
        valid_loc(nodes, loc),
        valid_loc(node_at(nodes, loc).children, sub),
    ensures
        ({
            let r = apply_at(
                nodes,
                node_at(nodes, loc).path,
                TreeOp::SelectTree(sel),
                Seq::empty(),
            );
            &&& valid_loc(r, loc)
            &&& node_at(r, loc).is_selected == sel
            &&& valid_loc(node_at(r, loc).children, sub)
            &&& node_at(node_at(r, loc).children, sub).is_selected == sel
        }),
{
    lemma_op_at(nodes, loc, TreeOp::SelectTree(sel), Seq::empty());
    lemma_select_all_everywhere(node_at(nodes, loc).children, sel, sub);
}


/// Where no two nodes share a path, loading a directory not loaded yet, at
/// any depth, gives it children that all start unselected, whatever the
/// selection of the directory or of its ancestors.
pub proof fn lemma_loaded_children_start_unselected(
    nodes: Seq<NodeModel>,
    loc: Seq<int>,
    entries: Seq<DirEntry>,
)
    requires
        unique_paths(nodes),
        valid_loc(nodes, loc),
        node_at(nodes, loc).is_directory,
        !node_at(nodes, loc).children_loaded,
    ensures
        ({
            let r = apply_at(nodes, node_at(nodes, loc).path, TreeOp::Load, entries);
            &&& valid_loc(r, loc)
            &&& node_at(r, loc).children_loaded
            &&& node_at(r, loc).children.len() == entries.len()
            &&& forall|k: int|
                0 <= k < entries.len() ==> !(#[trigger] node_at(r, loc).children[k]).is_selected
        }),
{
    let n = node_at(nodes, loc);
    lemma_op_at(nodes, loc, TreeOp::Load, entries);
    let m = entry_models(entries, child_level(n.level));
    lemma_sort_models_from(m);
    assert forall|k: int| 0 <= k < entries.len() implies !(#[trigger] sort_models(m)[k]).is_selected by {
        assert(m.contains(sort_models(m)[k]));
    }
}


/// No node of the forest, at any depth, has path `p`.
pub open spec fn path_absent(nodes: Seq<NodeModel>, p: Seq<char>) -> bool {
    forall|l: Seq<int>| #[trigger] valid_loc(nodes, l) ==> node_at(nodes, l).path != p
}

/// `loc` is `other` or one of its ancestors' addresses: `other` lies in the
/// subtree that `loc` addresses.
pub open spec fn loc_within(loc: Seq<int>, other: Seq<int>) -> bool {
    loc.len() <= other.len() && other.take(loc.len() as int) == loc
}

/// A selection by a path that no node has changes nothing.
proof fn lemma_select_absent_path(nodes: Seq<NodeModel>, p: Seq<char>, op: TreeOp)
    requires
        op is SelectTree || op is SelectOne,
        path_absent(nodes, p),
    ensures
        apply_at(nodes, p, op, Seq::empty()) == nodes,
    decreases nodes,
{
    assert forall|j: int| 0 <= j < nodes.len() implies !op_applies(op, #[trigger] nodes[j], p) by {
        assert(valid_loc(nodes, seq![j]));
        assert(node_at(nodes, seq![j]) == nodes[j]);
    }
    assert(is_target_index(nodes, p, op, nodes.len() as int));
    lemma_target_index(nodes, p, op, nodes.len() as int);
    assert forall|j: int| 0 <= j < nodes.len() implies apply_at(
        #[trigger] nodes[j].children,
        p,
        op,
        Seq::empty(),
    ) == nodes[j].children by {
        assert forall|l: Seq<int>| #[trigger] valid_loc(nodes[j].children, l) implies node_at(
            nodes[j].children,
            l,
        ).path != p by {
            lemma_loc_prepend(nodes, j, l);
        }
        lemma_select_absent_path(nodes[j].children, p, op);
    }
    assert(apply_at(nodes, p, op, Seq::empty()) =~= nodes);
}

/// Where no two nodes share a path, selecting the node at `loc` (with or
/// without its subtree) leaves every node outside that subtree, at any depth,
/// with its selection, path and expansion as they were.
pub proof fn lemma_selection_keeps_other_nodes(
    nodes: Seq<NodeModel>,
    loc: Seq<int>,
    other: Seq<int>,
    op: TreeOp,
)
    requires
        op is SelectTree || op is SelectOne,
        unique_paths(nodes),
        valid_loc(nodes, loc),
        valid_loc(nodes, other),
        !loc_within(loc, other),
    ensures
        ({
            let r = apply_at(nodes, node_at(nodes, loc).path, op, Seq::empty());
            &&& valid_loc(r, other)
            &&& node_at(r, other).is_selected == node_at(nodes, other).is_selected
            &&& node_at(r, other).path == node_at(nodes, other).path
            &&& node_at(r, other).is_expanded == node_at(nodes, other).is_expanded
            &&& node_at(r, other).children_loaded == node_at(nodes, other).children_loaded
        }),
    decreases other.len(),
{
    let p = node_at(nodes, loc).path;
    let r = apply_at(nodes, p, op, Seq::empty());
    let i = loc[0];
    let o = other[0];
    if loc.len() == 1 {
        assert forall|j: int| 0 <= j < i implies !op_applies(op, #[trigger] nodes[j], p) by {
            if nodes[j].path == p {
                assert(valid_loc(nodes, seq![j]));
                assert(node_at(nodes, seq![j]) == nodes[j]);
                assert(seq![j][0] == j);
            }
        }
        assert(is_target_index(nodes, p, op, i));
        lemma_target_index(nodes, p, op, i);
        if o == i {
            assert(other.take(1) =~= loc);
        }
        if o < i && other.len() > 1 {
            let c = nodes[o].children;
            assert forall|l: Seq<int>| #[trigger] valid_loc(c, l) implies node_at(c, l).path != p by {
                lemma_loc_prepend(nodes, o, l);
                if node_at(c, l).path == p {
                    assert((seq![o] + l)[0] == o);
                }
            }
            lemma_select_absent_path(c, p, op);
        }
    } else {
        let rest = loc.drop_first();
        assert forall|j: int| 0 <= j < nodes.len() implies !op_applies(op, #[trigger] nodes[j], p) by {
            if nodes[j].path == p {
                assert(valid_loc(nodes, seq![j]));
                assert(node_at(nodes, seq![j]) == nodes[j]);
                assert(seq![j].len() != loc.len());
            }
        }
        assert(is_target_index(nodes, p, op, nodes.len() as int));
        lemma_target_index(nodes, p, op, nodes.len() as int);
        if other.len() > 1 {
            let c = nodes[o].children;
            if o == i {
                lemma_children_unique(nodes, i);
                let orest = other.drop_first();
                assert(node_at(c, rest) == node_at(nodes, loc));
                if loc_within(rest, orest) {
                    assert(other.take(loc.len() as int) =~= seq![i] + orest.take(rest.len() as int));
                    assert(loc =~= seq![i] + rest);
                }
                lemma_selection_keeps_other_nodes(c, rest, orest, op);
            } else {
                assert forall|l: Seq<int>| #[trigger] valid_loc(c, l) implies node_at(c, l).path != p by {
                    lemma_loc_prepend(nodes, o, l);
                    if node_at(c, l).path == p {
                        assert((seq![o] + l)[0] == o);
                    }
                }
                lemma_select_absent_path(c, p, op);
            }
        }
    }
}

} // verus!
