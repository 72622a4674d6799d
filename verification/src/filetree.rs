//! The sidebar's file tree: a forest of directory and image nodes in
//! preorder, the list of nodes that are visible given which directories
//! are expanded, and the cursor that moves over that list.
use vstd::prelude::*;
use crate::paths::{is_image_path_spec, name_of, chars_equal, spec_parent, path_parent};
use crate::text::{str_chars, push_str};
use crate::listing::{DirEntry, build_tree_nodes, listing_height, lists_entries, tree_lists, segment_ok, lemma_segment_is_tree, distinct_paths};

verus! {

/// A node of the tree: a directory or an image file.
#[derive(Debug)]
pub struct TreeNode {
    pub name: String,
    pub path: String,
    pub is_dir: bool,
    /// Distance from the root level.
    pub depth: usize,
    /// Id of the parent node (its index in the node list).
    pub parent: Option<usize>,
    /// Ids of the child nodes.
    pub children: Vec<usize>,
}

/// What the sidebar draws for one visible node.
#[derive(Debug, PartialEq, Eq)]
pub struct FileTreeEntry {
    pub name: String,
    pub depth: usize,
    pub is_dir: bool,
    pub is_expanded: bool,
    pub is_cursor: bool,
    pub is_current_image: bool,
}

/// The sidebar tree and its cursor.
#[derive(Debug)]
pub struct SidebarTree {
    nodes: Vec<TreeNode>,
    roots: Vec<usize>,
    visible_nodes: Vec<usize>,
    /// Per node: whether it is an expanded directory.
    expanded: Vec<bool>,
    /// Per node: the index of its path in the image list.
    image_index: Vec<Option<usize>>,
    cursor_visible_index: usize,
}

/// The nodes shown for the subtree rooted at `id`: the node, then (when it
/// is an expanded directory) the subtrees of its children in order.
pub open spec fn subtree(nodes: Seq<TreeNode>, expanded: Seq<bool>, id: int) -> Seq<usize>
    decreases nodes.len() - id, 1int, 0int,
{
    if !(0 <= id < nodes.len()) {
        Seq::empty()
    } else {
        let n = nodes[id];
        seq![id as usize] + if n.is_dir && expanded[id] {
            forest(nodes, expanded, id, n.children@)
        } else {
            Seq::empty()
        }
    }
}

/// The nodes shown for the subtrees of `ids`, children of `parent`, in
/// order. An id that is not after its parent stands for nothing.
pub open spec fn forest(nodes: Seq<TreeNode>, expanded: Seq<bool>, parent: int, ids: Seq<usize>) -> Seq<usize>
    decreases nodes.len() - parent, 0int, ids.len(),
{
    if ids.len() == 0 {
        Seq::empty()
    } else {
        let first = if parent < ids[0] && ids[0] < nodes.len() {
            subtree(nodes, expanded, ids[0] as int)
        } else {
            Seq::empty()
        };
        first + forest(nodes, expanded, parent, ids.drop_first())
    }
}

/// The visible nodes of a tree: the subtrees of its roots.
pub open spec fn visible_of(nodes: Seq<TreeNode>, expanded: Seq<bool>, roots: Seq<usize>) -> Seq<usize> {
    forest(nodes, expanded, -1, roots)
}

/// The tree's shape: children come after their parent and point back to
/// it, parents come before their children, roots are parentless nodes.
pub open spec fn tree_shape(nodes: Seq<TreeNode>, roots: Seq<usize>) -> bool {
    &&& forall|i: int| 0 <= i < roots.len() ==> #[trigger] roots[i] < nodes.len() && nodes[roots[i] as int].parent is None
    &&& forall|id: int, k: int|
        0 <= id < nodes.len() && 0 <= k < nodes[id].children@.len() ==> {
            let c = #[trigger] nodes[id].children@[k];
            id < c < nodes.len() && nodes[c as int].parent == Some(id as usize)
        }
    &&& forall|id: int|
        0 <= id < nodes.len() ==> match #[trigger] nodes[id].parent {
            Some(p) => p < id,
            None => true,
        }
}

/// Every id in a subtree is a node of the tree.
pub proof fn lemma_subtree_ids(nodes: Seq<TreeNode>, expanded: Seq<bool>, id: int)
    ensures
        forall|k: int| 0 <= k < subtree(nodes, expanded, id).len() ==> #[trigger] subtree(nodes, expanded, id)[k] < nodes.len(),
    decreases nodes.len() - id, 1int, 0int,
{
    if 0 <= id < nodes.len() {
        let n = nodes[id];
        if n.is_dir && expanded[id] {
            lemma_forest_ids(nodes, expanded, id, n.children@);
            let f = forest(nodes, expanded, id, n.children@);
            let t = subtree(nodes, expanded, id);
            assert(t == seq![id as usize] + f);
            assert forall|k: int| 0 <= k < t.len() implies #[trigger] t[k] < nodes.len() by {
                if k > 0 {
                    assert(t[k] == f[k - 1]);
                }
            }
        }
    }
}

/// Every id in a forest is a node of the tree.
pub proof fn lemma_forest_ids(nodes: Seq<TreeNode>, expanded: Seq<bool>, parent: int, ids: Seq<usize>)
    ensures
        forall|k: int| 0 <= k < forest(nodes, expanded, parent, ids).len() ==> #[trigger] forest(nodes, expanded, parent, ids)[k] < nodes.len(),
    decreases nodes.len() - parent, 0int, ids.len(),
{
    if ids.len() > 0 {
        let first = if parent < ids[0] && ids[0] < nodes.len() {
            subtree(nodes, expanded, ids[0] as int)
        } else {
            Seq::empty()
        };
        if parent < ids[0] && ids[0] < nodes.len() {
            lemma_subtree_ids(nodes, expanded, ids[0] as int);
        }
        lemma_forest_ids(nodes, expanded, parent, ids.drop_first());
        let rest = forest(nodes, expanded, parent, ids.drop_first());
        let f = forest(nodes, expanded, parent, ids);
        assert(f == first + rest);
        assert forall|k: int| 0 <= k < f.len() implies #[trigger] f[k] < nodes.len() by {
            if k < first.len() {
                assert(f[k] == first[k]);
            } else {
                assert(f[k] == rest[k - first.len()]);
            }
        }
    }
}

/// No two nodes have the same path.
pub open spec fn paths_unique(nodes: Seq<TreeNode>) -> bool {
    forall|i: int, j: int| 0 <= i < j < nodes.len() ==> #[trigger] nodes[i].path@ != #[trigger] nodes[j].path@
}

impl SidebarTree {
    pub closed spec fn node_seq(&self) -> Seq<TreeNode> {
        self.nodes@
    }

    pub closed spec fn root_seq(&self) -> Seq<usize> {
        self.roots@
    }

    pub closed spec fn visible(&self) -> Seq<usize> {
        self.visible_nodes@
    }

    pub closed spec fn expanded_flags(&self) -> Seq<bool> {
        self.expanded@
    }

    pub closed spec fn image_indices(&self) -> Seq<Option<usize>> {
        self.image_index@
    }

    pub closed spec fn cursor(&self) -> nat {
        self.cursor_visible_index as nat
    }

    /// The tree is well formed, the visible list is the one its expansion
    /// state calls for, and the cursor is on a visible node (or 0).
    pub open spec fn wf(&self) -> bool {
        &&& tree_shape(self.node_seq(), self.root_seq())
        &&& paths_unique(self.node_seq())
        &&& tree_linked(self.node_seq(), self.root_seq())
        &&& self.expanded_flags().len() == self.node_seq().len()
        &&& self.image_indices().len() == self.node_seq().len()
        &&& self.visible() == visible_of(self.node_seq(), self.expanded_flags(), self.root_seq())
        &&& forall|k: int| 0 <= k < self.visible().len() ==> #[trigger] self.visible()[k] < self.node_seq().len()
        &&& if self.visible().len() == 0 {
            self.cursor() == 0
        } else {
            self.cursor() < self.visible().len()
        }
    }

    /// The id of the node under the cursor.
    pub open spec fn cursor_node(&self) -> Option<usize> {
        if self.cursor() < self.visible().len() {
            Some(self.visible()[self.cursor() as int])
        } else {
            None
        }
    }

    /// Appends the subtree of `node_id` to the visible list.
    fn push_visible(&mut self, node_id: usize)
        requires
            tree_shape(old(self).nodes@, old(self).roots@),
            old(self).expanded@.len() == old(self).nodes@.len(),
            node_id < old(self).nodes@.len(),
        ensures
            final(self).visible_nodes@ == old(self).visible_nodes@ + subtree(old(self).nodes@, old(self).expanded@, node_id as int),
            final(self).nodes@ == old(self).nodes@,
            final(self).roots@ == old(self).roots@,
            final(self).expanded@ == old(self).expanded@,
            final(self).image_index@ == old(self).image_index@,
            final(self).cursor_visible_index == old(self).cursor_visible_index,
        decreases old(self).nodes@.len() - node_id,
    {
        let ghost start = self.visible_nodes@;
        let ghost nodes = self.nodes@;
        let ghost exp = self.expanded@;
        self.visible_nodes.push(node_id);
        if self.nodes[node_id].is_dir && self.expanded[node_id] {
            let children = self.nodes[node_id].children.clone();
            assert(children@ =~= nodes[node_id as int].children@);
            let mut k: usize = 0;
            assert(children@.skip(0) == children@);
            while k < children.len()
                invariant
                    tree_shape(self.nodes@, self.roots@),
                    self.nodes@ == nodes,
                    nodes == old(self).nodes@,
                    self.expanded@ == exp,
                    exp == old(self).expanded@,
                    exp.len() == nodes.len(),
                    node_id < nodes.len(),
                    children@ == nodes[node_id as int].children@,
                    k <= children.len(),
                    self.roots@ == old(self).roots@,
                    self.image_index@ == old(self).image_index@,
                    self.cursor_visible_index == old(self).cursor_visible_index,
                    self.visible_nodes@ + forest(nodes, exp, node_id as int, children@.skip(k as int))
                        == start + seq![node_id] + forest(nodes, exp, node_id as int, children@),
                decreases children.len() - k,
            {
                let c = children[k];
                assert(node_id < c < nodes.len());
                assert(children@.skip(k as int).drop_first() == children@.skip(k + 1));
                assert(children@.skip(k as int)[0] == c);
                self.push_visible(c);
                k = k + 1;
            }
        }
    }

    /// Recomputes the visible list and keeps the cursor within it.
    fn rebuild_visible(&mut self)
        requires
            tree_shape(old(self).nodes@, old(self).roots@),
            paths_unique(old(self).nodes@),
            tree_linked(old(self).nodes@, old(self).roots@),
            old(self).expanded@.len() == old(self).nodes@.len(),
            old(self).image_index@.len() == old(self).nodes@.len(),
        ensures
            final(self).wf(),
            final(self).nodes@ == old(self).nodes@,
            final(self).roots@ == old(self).roots@,
            final(self).expanded@ == old(self).expanded@,
            final(self).image_index@ == old(self).image_index@,
            final(self).cursor_visible_index == (if final(self).visible_nodes@.len() == 0 {
                0
            } else if old(self).cursor_visible_index < final(self).visible_nodes@.len() {
                old(self).cursor_visible_index as int
            } else {
                final(self).visible_nodes@.len() - 1
            }),
    {
        self.visible_nodes.clear();
        let roots = self.roots.clone();
        assert(roots@ =~= self.roots@);
        let ghost nodes = self.nodes@;
        let ghost exp = self.expanded@;
        let mut k: usize = 0;
        assert(roots@.skip(0) == roots@);
        while k < roots.len()
            invariant
                tree_shape(self.nodes@, self.roots@),
                tree_linked(self.nodes@, self.roots@),
                self.nodes@ == nodes,
                self.expanded@ == exp,
                exp.len() == nodes.len(),
                self.image_index@ == old(self).image_index@,
                self.image_index@.len() == nodes.len(),
                roots@ == self.roots@,
                self.roots@ == old(self).roots@,
                self.cursor_visible_index == old(self).cursor_visible_index,
                k <= roots.len(),
                self.visible_nodes@ + forest(nodes, exp, -1, roots@.skip(k as int))
                    == forest(nodes, exp, -1, roots@),
            decreases roots.len() - k,
        {
            let r = roots[k];
            assert(roots@.skip(k as int).drop_first() == roots@.skip(k + 1));
            assert(roots@.skip(k as int)[0] == r);
            self.push_visible(r);
            k = k + 1;
        }
        proof {
            lemma_forest_ids(nodes, exp, -1, roots@);
            assert(roots@.skip(roots@.len() as int) == Seq::<usize>::empty());
        }
        if self.visible_nodes.len() == 0 {
            self.cursor_visible_index = 0;
        } else if self.cursor_visible_index >= self.visible_nodes.len() {
            self.cursor_visible_index = self.visible_nodes.len() - 1;
        }
    }

    /// The node id under the cursor.
    fn current_node_id(&self) -> (r: Option<usize>)
        requires
            self.wf(),
        ensures
            r == self.cursor_node(),
    {
        if self.cursor_visible_index < self.visible_nodes.len() {
            Some(self.visible_nodes[self.cursor_visible_index])
        } else {
            None
        }
    }

    /// Number of visible nodes.
    pub fn visible_len(&self) -> (r: usize)
        ensures
            r == self.visible().len(),
    {
        self.visible_nodes.len()
    }

    /// Position of the cursor in the visible list.
    pub fn cursor_position(&self) -> (r: usize)
        ensures
            r == self.cursor(),
    {
        self.cursor_visible_index
    }

    /// Moves the cursor by `delta` rows, stopping at either end; returns
    /// whether it moved. Nothing happens on an empty list.
    pub fn move_cursor(&mut self, delta: isize) -> (moved: bool)
        requires
            old(self).wf(),
        ensures
            cursor_set(*old(self), *final(self), clamp_cursor(old(self).cursor() + delta, old(self).visible().len()), moved),
    {
        if self.visible_nodes.len() == 0 {
            return false;
        }
        let old_index = self.cursor_visible_index;
        let last = self.visible_nodes.len() - 1;
        if delta < 0 {
            let back: usize = if delta == isize::MIN {
                isize::MAX as usize + 1
            } else {
                (-delta) as usize
            };
            self.cursor_visible_index = if self.cursor_visible_index > back {
                self.cursor_visible_index - back
            } else {
                0
            };
        } else {
            let fwd: usize = delta as usize;
            let target = if self.cursor_visible_index > usize::MAX - fwd {
                usize::MAX
            } else {
                self.cursor_visible_index + fwd
            };
            self.cursor_visible_index = if target < last {
                target
            } else {
                last
            };
        }
        self.cursor_visible_index != old_index
    }

    /// Moves the cursor to the first visible node; returns whether it moved.
    pub fn move_to_start(&mut self) -> (moved: bool)
        requires
            old(self).wf(),
        ensures
            cursor_set(*old(self), *final(self), 0, moved),
    {
        if self.visible_nodes.len() == 0 {
            return false;
        }
        let old_index = self.cursor_visible_index;
        self.cursor_visible_index = 0;
        self.cursor_visible_index != old_index
    }

    /// Moves the cursor to the last visible node; returns whether it moved.
    pub fn move_to_end(&mut self) -> (moved: bool)
        requires
            old(self).wf(),
        ensures
            cursor_set(*old(self), *final(self), old(self).visible().len() - 1, moved),
    {
        if self.visible_nodes.len() == 0 {
            return false;
        }
        let old_index = self.cursor_visible_index;
        self.cursor_visible_index = self.visible_nodes.len() - 1;
        self.cursor_visible_index != old_index
    }

    /// Moves the cursor by `delta` pages of `rows` rows (the row count as
    /// `rows as isize`, the product saturating); returns whether it moved.
    pub fn move_cursor_page(&mut self, delta: isize, rows: usize) -> (moved: bool)
        requires
            old(self).wf(),
        ensures
            cursor_set(
                *old(self),
                *final(self),
                if rows == 0 {
                    old(self).cursor() as int
                } else {
                    clamp_cursor(old(self).cursor() + page_step(rows, delta), old(self).visible().len())
                },
                moved,
            ),
    {
        if rows == 0 {
            return false;
        }
        let step = page_step_exec(rows, delta);
        self.move_cursor(step)
    }

    /// First visible position shown in a window of `rows` rows that keeps
    /// the cursor centred where it can.
    pub fn visible_start_for_rows(&self, rows: usize) -> (r: usize)
        requires
            self.wf(),
        ensures
            r == window_start(self.cursor(), self.visible().len(), rows as nat),
    {
        if self.visible_nodes.len() <= rows {
            0
        } else {
            let half = rows / 2;
            let a = if self.cursor_visible_index > half {
                self.cursor_visible_index - half
            } else {
                0
            };
            let b = self.visible_nodes.len() - rows;
            if a < b {
                a
            } else {
                b
            }
        }
    }

    /// Puts the cursor on the node shown at screen row `row` (row 0 is the
    /// header; the list fills the `term_height - 2` rows below it); returns
    /// whether the cursor moved.
    pub fn set_cursor_by_screen_row(&mut self, row: u16, term_height: u16) -> (moved: bool)
        requires
            old(self).wf(),
        ensures
            cursor_set(*old(self), *final(self), screen_row_target(*old(self), row, term_height), moved),
    {
        if self.visible_nodes.len() == 0 || row == 0 {
            return false;
        }
        let rows: usize = if term_height >= 2 { (term_height - 2) as usize } else { 0 };
        if rows == 0 {
            return false;
        }
        let viewport_row = (row - 1) as usize;
        if viewport_row >= rows {
            return false;
        }
        let start = self.visible_start_for_rows(rows);
        let new_index = start + viewport_row;
        if new_index >= self.visible_nodes.len() {
            return false;
        }
        let old_index = self.cursor_visible_index;
        self.cursor_visible_index = new_index;
        self.cursor_visible_index != old_index
    }

    /// The image-list index of the file under the cursor (`None` on a
    /// directory, on an empty tree, or for a file not in the list).
    pub fn cursor_image_index(&self) -> (r: Option<usize>)
        requires
            self.wf(),
        ensures
            r == (match self.cursor_node() {
                Some(id) => if self.node_seq()[id as int].is_dir {
                    None
                } else {
                    self.image_indices()[id as int]
                },
                None => None,
            }),
    {
        let node_id = match self.current_node_id() {
            Some(id) => id,
            None => {
                return None;
            },
        };
        if self.nodes[node_id].is_dir {
            None
        } else {
            self.image_index[node_id]
        }
    }

    /// The node with path `path` (the last one, as a path-keyed map built
    /// in node order would hold it).
    fn find_node_by_path(&self, path: &Vec<char>) -> (r: Option<usize>)
        ensures
            match r {
                Some(id) => id as int == last_node_with_path(self.nodes@, path@) && id < self.nodes@.len(),
                None => last_node_with_path(self.nodes@, path@) == -1,
            },
    {
        let mut k: usize = self.nodes.len();
        assert(self.nodes@.take(k as int) == self.nodes@);
        while k > 0
            invariant
                k <= self.nodes@.len(),
                last_node_with_path(self.nodes@, path@) == last_node_with_path(self.nodes@.take(k as int), path@),
            decreases k,
        {
            let ghost t = self.nodes@.take(k as int);
            let p = str_chars(self.nodes[k - 1].path.as_str());
            if chars_equal(p.as_slice(), path.as_slice()) {
                assert(t.last() == self.nodes@[k - 1]);
                return Some(k - 1);
            }
            assert(t.drop_last() == self.nodes@.take(k - 1));
            k = k - 1;
        }
        None
    }

    /// The first position of node `id` in the visible list.
    fn position_in_visible(&self, id: usize) -> (r: Option<usize>)
        ensures
            match r {
                Some(p) => p as int == first_position(self.visible_nodes@, id) && p < self.visible_nodes@.len(),
                None => first_position(self.visible_nodes@, id) == -1,
            },
    {
        let mut k: usize = 0;
        while k < self.visible_nodes.len()
            invariant
                k <= self.visible_nodes@.len(),
                first_position(self.visible_nodes@, id) == first_position_from(self.visible_nodes@, id, k as int),
            decreases self.visible_nodes@.len() - k,
        {
            if self.visible_nodes[k] == id {
                return Some(k);
            }
            k = k + 1;
        }
        None
    }

    /// Puts the cursor on the node with `path`, when it is visible.
    fn set_cursor_to_path(&mut self, path: &Vec<char>)
        requires
            old(self).wf(),
        ensures
            final(self).wf(),
            final(self).node_seq() == old(self).node_seq(),
            final(self).root_seq() == old(self).root_seq(),
            final(self).expanded_flags() == old(self).expanded_flags(),
            final(self).image_indices() == old(self).image_indices(),
            final(self).visible() == old(self).visible(),
            final(self).cursor() == cursor_after_path(old(self).node_seq(), old(self).visible(), path@, old(self).cursor() as int),
    {
        let id = match self.find_node_by_path(path) {
            Some(id) => id,
            None => {
                return;
            },
        };
        match self.position_in_visible(id) {
            Some(pos) => {
                self.cursor_visible_index = pos;
            },
            None => {},
        }
    }

    /// Expands every directory above the node with `path`, so that it
    /// becomes visible; nothing happens when no node has that path.
    fn reveal_path(&mut self, path: &Vec<char>)
        requires
            old(self).wf(),
        ensures
            final(self).wf(),
            final(self).node_seq() == old(self).node_seq(),
            final(self).root_seq() == old(self).root_seq(),
            final(self).image_indices() == old(self).image_indices(),
            ({
                let id = last_node_with_path(old(self).node_seq(), path@);
                if id < 0 {
                    final(self).expanded_flags() == old(self).expanded_flags() && final(self).cursor()
                        == old(self).cursor()
                } else {
                    &&& final(self).expanded_flags() == expand_ancestors(old(self).node_seq(), old(self).expanded_flags(), id)
                    &&& final(self).cursor() == rebuilt_cursor(old(self).cursor() as int, final(self).visible().len())
                }
            }),
    {
        let id = match self.find_node_by_path(path) {
            Some(id) => id,
            None => {
                return;
            },
        };
        let ghost exp0 = self.expanded@;
        let ghost nodes = self.nodes@;
        let mut cur: usize = id;
        loop
            invariant
                tree_shape(self.nodes@, self.roots@),
                tree_linked(self.nodes@, self.roots@),
                self.nodes@ == nodes,
                self.roots@ == old(self).roots@,
                self.image_index@ == old(self).image_index@,
                self.image_index@.len() == nodes.len(),
                self.cursor_visible_index == old(self).cursor_visible_index,
                exp0 == old(self).expanded@,
                exp0.len() == nodes.len(),
                self.expanded@.len() == nodes.len(),
                id < nodes.len(),
                cur < nodes.len(),
                is_ancestor_or_self(nodes, cur as int, id as int),
                forall|k: int| 0 <= k < nodes.len() ==> #[trigger] self.expanded@[k] == (exp0[k] || (is_strict_ancestor(nodes, k, id as int)
                    && !is_strict_ancestor(nodes, k, cur as int))),
            ensures
                nodes[cur as int].parent is None,
                cur < nodes.len(),
                forall|k: int| 0 <= k < nodes.len() ==> #[trigger] self.expanded@[k] == (exp0[k] || (is_strict_ancestor(nodes, k, id as int)
                    && !is_strict_ancestor(nodes, k, cur as int))),
            decreases cur,
        {
            match self.nodes[cur].parent {
                Some(p) => {
                    proof {
                        lemma_ancestor_trans(nodes, p as int, cur as int, id as int);
                        lemma_ancestor_lt(nodes, p as int, p as int);
                    }
                    self.expanded.set(p, true);
                    cur = p;
                },
                None => {
                    break;
                },
            }
        }
        proof {
            assert(self.expanded@ =~= expand_ancestors(nodes, exp0, id as int));
        }
        self.rebuild_visible();
    }

    /// Makes the image at `image_path` visible in the tree and puts the
    /// cursor on it.
    pub fn sync_cursor_to_image(&mut self, image_path: &str)
        requires
            old(self).wf(),
        ensures
            synced_to(*old(self), *final(self), image_path@),
    {
        let p = str_chars(image_path);
        let _ = self.nodes.len();
        self.reveal_path(&p);
        self.set_cursor_to_path(&p);
        proof {
            let id = last_node_with_path(self.nodes@, image_path@);
            lemma_last_node_range(self.nodes@, image_path@);
            if id >= 0 {
                lemma_revealed_node_visible(self.nodes@, old(self).expanded@, self.roots@, id);
            }
        }
    }

    /// Expands or collapses the directory under the cursor, keeping the
    /// cursor on it; returns whether the cursor was on a directory.
    pub fn toggle_current_dir(&mut self) -> (r: bool)
        requires
            old(self).wf(),
        ensures
            dir_toggled(*old(self), *final(self), r),
    {
        let node_id = match self.current_node_id() {
            Some(id) => id,
            None => {
                return false;
            },
        };
        if !self.nodes[node_id].is_dir {
            return false;
        }
        let now = self.expanded[node_id];
        self.set_dir_state(node_id, !now);
        true
    }

    /// Collapses the directory under the cursor; returns whether it was an
    /// expanded directory.
    pub fn collapse_current_dir(&mut self) -> (r: bool)
        requires
            old(self).wf(),
        ensures
            dir_collapsed(*old(self), *final(self), r),
    {
        let node_id = match self.current_node_id() {
            Some(id) => id,
            None => {
                return false;
            },
        };
        if !self.nodes[node_id].is_dir || !self.expanded[node_id] {
            return false;
        }
        self.set_dir_state(node_id, false);
        true
    }

    /// Expands the directory under the cursor; returns whether it was a
    /// collapsed directory.
    pub fn expand_current_dir(&mut self) -> (r: bool)
        requires
            old(self).wf(),
        ensures
            dir_expanded(*old(self), *final(self), r),
    {
        let node_id = match self.current_node_id() {
            Some(id) => id,
            None => {
                return false;
            },
        };
        if !self.nodes[node_id].is_dir || self.expanded[node_id] {
            return false;
        }
        self.set_dir_state(node_id, true);
        true
    }

    /// Sets the expansion of directory `node_id`, rebuilds the visible list
    /// and puts the cursor back on the directory.
    fn set_dir_state(&mut self, node_id: usize, expand: bool)
        requires
            old(self).wf(),
            node_id < old(self).node_seq().len(),
        ensures
            final(self).wf(),
            final(self).node_seq() == old(self).node_seq(),
            final(self).root_seq() == old(self).root_seq(),
            final(self).image_indices() == old(self).image_indices(),
            dir_state_changed(old(self), final(self), node_id as int, expand),
    {
        self.expanded.set(node_id, expand);
        self.rebuild_visible();
        let path = str_chars(self.nodes[node_id].path.as_str());
        self.set_cursor_to_path(&path);
    }

    /// The entries that the sidebar draws, one per visible node.
    pub fn render_entries(&self, current_image_path: Option<&str>) -> (r: Vec<FileTreeEntry>)
        requires
            self.wf(),
        ensures
            r@.len() == self.visible().len(),
            forall|k: int| 0 <= k < r@.len() ==> {
                let n = self.node_seq()[self.visible()[k] as int];
                let e = #[trigger] r@[k];
                &&& e.name@ == n.name@
                &&& e.depth == n.depth
                &&& e.is_dir == n.is_dir
                &&& e.is_expanded == (n.is_dir && self.expanded_flags()[self.visible()[k] as int])
                &&& e.is_cursor == (k == self.cursor())
                &&& e.is_current_image == (!n.is_dir && (current_image_path matches Some(p) && p@ == n.path@))
            },
    {
        let current: Option<Vec<char>> = match current_image_path {
            Some(p) => Some(str_chars(p)),
            None => None,
        };
        let mut out: Vec<FileTreeEntry> = Vec::new();
        let mut k: usize = 0;
        while k < self.visible_nodes.len()
            invariant
                self.wf(),
                k <= self.visible_nodes@.len(),
                out@.len() == k,
                match current_image_path {
                    Some(p) => current matches Some(c) && c@ == p@,
                    None => current is None,
                },
                forall|j: int| 0 <= j < k ==> {
                    let n = self.node_seq()[self.visible()[j] as int];
                    let e = #[trigger] out@[j];
                    &&& e.name@ == n.name@
                    &&& e.depth == n.depth
                    &&& e.is_dir == n.is_dir
                    &&& e.is_expanded == (n.is_dir && self.expanded_flags()[self.visible()[j] as int])
                    &&& e.is_cursor == (j == self.cursor())
                    &&& e.is_current_image == (!n.is_dir && (current_image_path matches Some(p) && p@ == n.path@))
                },
            decreases self.visible_nodes@.len() - k,
        {
            let id = self.visible_nodes[k];
            let node = &self.nodes[id];
            let is_current = if node.is_dir {
                false
            } else {
                match &current {
                    Some(c) => {
                        let np = str_chars(node.path.as_str());
                        chars_equal(np.as_slice(), c.as_slice())
                    },
                    None => false,
                }
            };
            let name = node.name.clone();
            out.push(FileTreeEntry {
                name,
                depth: node.depth,
                is_dir: node.is_dir,
                is_expanded: node.is_dir && self.expanded[id],
                is_cursor: k == self.cursor_visible_index,
                is_current_image: is_current,
            });
            k = k + 1;
        }
        out
    }
}

/// The cursor kept by a rebuild of the visible list: unchanged when still
/// in range, else the last position, and 0 for an empty list.
pub open spec fn rebuilt_cursor(cursor: int, len: nat) -> int {
    if len == 0 {
        0
    } else if cursor < len {
        cursor
    } else {
        len - 1
    }
}

/// The cursor position `target` clamped to `0..len`.
pub open spec fn clamp_cursor(target: int, len: nat) -> int {
    if target < 0 {
        0
    } else if target >= len {
        len - 1
    } else {
        target
    }
}

} // verus!

verus! {

/// `rows as isize`: the row count, wrapped into `isize`.
pub open spec fn isize_wrap(rows: usize) -> int {
    if rows <= isize::MAX {
        rows as int
    } else {
        rows - 2 * (isize::MAX + 1)
    }
}

/// `(rows as isize).saturating_mul(delta)`.
pub open spec fn page_step(rows: usize, delta: isize) -> int {
    let p = isize_wrap(rows) * delta;
    if p > isize::MAX {
        isize::MAX as int
    } else if p < isize::MIN {
        isize::MIN as int
    } else {
        p
    }
}

fn page_step_exec(rows: usize, delta: isize) -> (r: isize)
    ensures
        r == page_step(rows, delta),
{
    let wrapped: i128 = if rows <= isize::MAX as usize {
        rows as i128
    } else {
        rows as i128 - 2 * (isize::MAX as i128 + 1)
    };
    assert(-0x8000_0000_0000_0000i128 <= wrapped <= 0x8000_0000_0000_0000i128);
    let d: i128 = delta as i128;
    assert(wrapped * d <= 0x4000_0000_0000_0000_0000_0000_0000_0000int) by (nonlinear_arith)
        requires
            -0x8000_0000_0000_0000i128 <= wrapped <= 0x8000_0000_0000_0000i128,
            -0x8000_0000_0000_0000i128 <= d <= 0x8000_0000_0000_0000i128,
    ;
    assert(wrapped * d >= -0x4000_0000_0000_0000_0000_0000_0000_0000int) by (nonlinear_arith)
        requires
            -0x8000_0000_0000_0000i128 <= wrapped <= 0x8000_0000_0000_0000i128,
            -0x8000_0000_0000_0000i128 <= d <= 0x8000_0000_0000_0000i128,
    ;
    let p: i128 = wrapped * d;
    if p > isize::MAX as i128 {
        isize::MAX
    } else if p < isize::MIN as i128 {
        isize::MIN
    } else {
        p as isize
    }
}

/// The first position of a `rows`-row window over `len` entries that keeps
/// `cursor` centred where it can.
pub open spec fn window_start(cursor: nat, len: nat, rows: nat) -> int {
    if len <= rows {
        0
    } else {
        let a = if cursor > rows / 2 {
            cursor - rows / 2
        } else {
            0
        };
        if a < len - rows {
            a
        } else {
            len - rows
        }
    }
}


/// The sidebar window shows `rows` entries (all of them when fewer) with
/// the cursor's entry inside it, on the middle row (row `rows / 2`) unless
/// that would scroll past the start or the end of the list, where the
/// window stops at the first or the last entry.
pub proof fn lemma_window_centres_cursor(cursor: nat, len: nat, rows: nat)
    requires
        cursor < len,
        rows >= 1,
    ensures
        ({
            let s = window_start(cursor, len, rows);
            &&& len <= rows ==> s == 0
            &&& len > rows ==> {
                &&& 0 <= s && s + rows <= len
                &&& s <= cursor < s + rows
                &&& rows / 2 <= cursor && cursor + rows - rows / 2 <= len ==> cursor - s == rows / 2
                &&& cursor < rows / 2 ==> s == 0
                &&& cursor + rows - rows / 2 > len ==> s + rows == len
            }
        }),
{
}

} // verus!

verus! {

/// The last node whose path is `path`, or -1.
pub open spec fn last_node_with_path(nodes: Seq<TreeNode>, path: Seq<char>) -> int
    decreases nodes.len(),
{
    if nodes.len() == 0 {
        -1
    } else if nodes.last().path@ == path {
        nodes.len() - 1
    } else {
        last_node_with_path(nodes.drop_last(), path)
    }
}

/// The last node with a path is a node of the tree, or -1.
pub proof fn lemma_last_node_range(nodes: Seq<TreeNode>, path: Seq<char>)
    ensures
        -1 <= last_node_with_path(nodes, path) < nodes.len(),
    decreases nodes.len(),
{
    if nodes.len() > 0 && nodes.last().path@ != path {
        lemma_last_node_range(nodes.drop_last(), path);
    }
}

/// The first position of `id` in `v` at or after `from`, or -1.
pub open spec fn first_position_from(v: Seq<usize>, id: usize, from: int) -> int
    decreases v.len() - from,
{
    if from < 0 || from >= v.len() {
        -1
    } else if v[from] == id {
        from
    } else {
        first_position_from(v, id, from + 1)
    }
}

/// The first position of `id` in `v`, or -1.
pub open spec fn first_position(v: Seq<usize>, id: usize) -> int {
    first_position_from(v, id, 0)
}

/// Where the cursor goes when it is put on the node with `path`: on that
/// node's first visible position, or nowhere new when there is none.
pub open spec fn cursor_after_path(nodes: Seq<TreeNode>, visible: Seq<usize>, path: Seq<char>, cursor: int) -> int {
    let id = last_node_with_path(nodes, path);
    if id >= 0 && first_position(visible, id as usize) >= 0 {
        first_position(visible, id as usize)
    } else {
        cursor
    }
}

/// `a` is a proper ancestor of node `id`.
pub open spec fn is_strict_ancestor(nodes: Seq<TreeNode>, a: int, id: int) -> bool
    decreases id,
{
    if !(0 <= id < nodes.len()) {
        false
    } else {
        match nodes[id].parent {
            Some(p) => p < id && (p == a || is_strict_ancestor(nodes, a, p as int)),
            None => false,
        }
    }
}

/// `a` is node `id` or one of its ancestors.
pub open spec fn is_ancestor_or_self(nodes: Seq<TreeNode>, a: int, id: int) -> bool {
    a == id || is_strict_ancestor(nodes, a, id)
}

/// The expansion flags with every ancestor of `id` expanded.
pub open spec fn expand_ancestors(nodes: Seq<TreeNode>, expanded: Seq<bool>, id: int) -> Seq<bool> {
    Seq::new(expanded.len(), |k: int| expanded[k] || is_strict_ancestor(nodes, k, id))
}

/// An ancestor has a smaller id.
pub proof fn lemma_ancestor_lt(nodes: Seq<TreeNode>, a: int, id: int)
    ensures
        is_strict_ancestor(nodes, a, id) ==> a < id,
    decreases id,
{
    if 0 <= id < nodes.len() {
        if let Some(p) = nodes[id].parent {
            if p < id {
                lemma_ancestor_lt(nodes, a, p as int);
            }
        }
    }
}

/// A proper ancestor of an ancestor-or-self of `id` is a proper ancestor of `id`.
pub proof fn lemma_ancestor_trans(nodes: Seq<TreeNode>, a: int, b: int, id: int)
    requires
        0 <= a,
        0 <= b < nodes.len(),
        nodes[b].parent is Some,
        nodes[b].parent->0 == a,
        a < b,
        is_ancestor_or_self(nodes, b, id),
    ensures
        is_strict_ancestor(nodes, a, id),
    decreases id,
{
    assert(is_strict_ancestor(nodes, a, b));
    if id != b {
        let p = nodes[id].parent->0;
        if p as int != b {
            lemma_ancestor_trans(nodes, a, b, p as int);
        }
    }
}

} // verus!

verus! {

impl SidebarTree {
    /// `after` is `before` with directory `id` set to `expand`, the visible
    /// list rebuilt, and the cursor put back on that directory.
    pub open spec fn dir_state_changed_spec(before: &SidebarTree, after: &SidebarTree, id: int, expand: bool) -> bool {
        let exp = before.expanded_flags().update(id, expand);
        let vis = visible_of(before.node_seq(), exp, before.root_seq());
        let c1 = rebuilt_cursor(before.cursor() as int, vis.len());
        &&& after.expanded_flags() == exp
        &&& after.cursor() == cursor_after_path(before.node_seq(), vis, before.node_seq()[id].path@, c1)
    }
}

/// See `SidebarTree::dir_state_changed_spec`.
pub open spec fn dir_state_changed(before: &SidebarTree, after: &SidebarTree, id: int, expand: bool) -> bool {
    SidebarTree::dir_state_changed_spec(before, after, id, expand)
}

} // verus!

verus! {

/// Every node with a parent is listed among that parent's children, its
/// parent is a directory, and every parentless node is a root.
pub open spec fn tree_linked(nodes: Seq<TreeNode>, roots: Seq<usize>) -> bool {
    &&& forall|id: int|
        0 <= id < nodes.len() && (#[trigger] nodes[id]).parent is Some ==> {
            let p = nodes[id].parent->0 as int;
            &&& 0 <= p < nodes.len()
            &&& nodes[p].is_dir
            &&& nodes[p].children@.contains(id as usize)
        }
    &&& forall|id: int| 0 <= id < nodes.len() && (#[trigger] nodes[id]).parent is None ==> roots.contains(id as usize)
}

/// A subtree starts with its root node.
proof fn lemma_subtree_first(nodes: Seq<TreeNode>, expanded: Seq<bool>, id: int)
    requires
        0 <= id < nodes.len(),
    ensures
        subtree(nodes, expanded, id).len() > 0,
        subtree(nodes, expanded, id)[0] == id as usize,
{
    let rest = if nodes[id].is_dir && expanded[id] {
        forest(nodes, expanded, id, nodes[id].children@)
    } else {
        Seq::empty()
    };
    assert(subtree(nodes, expanded, id) == seq![id as usize] + rest);
    assert((seq![id as usize] + rest)[0] == id as usize);
}

/// A forest holds every node of the subtree of each of its ids.
proof fn lemma_forest_has_subtree(
    nodes: Seq<TreeNode>,
    expanded: Seq<bool>,
    parent: int,
    ids: Seq<usize>,
    j: int,
    x: usize,
)
    requires
        0 <= j < ids.len(),
        parent < ids[j] < nodes.len(),
        subtree(nodes, expanded, ids[j] as int).contains(x),
    ensures
        forest(nodes, expanded, parent, ids).contains(x),
    decreases j,
{
    let first = if parent < ids[0] && ids[0] < nodes.len() {
        subtree(nodes, expanded, ids[0] as int)
    } else {
        Seq::empty()
    };
    let rest = forest(nodes, expanded, parent, ids.drop_first());
    let f = forest(nodes, expanded, parent, ids);
    assert(f == first + rest);
    if j == 0 {
        let k = choose|k: int| 0 <= k < first.len() && first[k] == x;
        assert(f[k] == x);
    } else {
        assert(ids.drop_first()[j - 1] == ids[j]);
        lemma_forest_has_subtree(nodes, expanded, parent, ids.drop_first(), j - 1, x);
        let k = choose|k: int| 0 <= k < rest.len() && rest[k] == x;
        assert(f[first.len() + k] == x);
    }
}

/// In a subtree, the children of a shown expanded directory are shown.
proof fn lemma_subtree_closed(
    nodes: Seq<TreeNode>,
    expanded: Seq<bool>,
    roots: Seq<usize>,
    a: int,
    x: usize,
    c: usize,
)
    requires
        tree_shape(nodes, roots),
        nodes.len() <= usize::MAX,
        expanded.len() == nodes.len(),
        subtree(nodes, expanded, a).contains(x),
        x < nodes.len(),
        nodes[x as int].is_dir && expanded[x as int],
        nodes[x as int].children@.contains(c),
    ensures
        subtree(nodes, expanded, a).contains(c),
    decreases nodes.len() - a, 1int, 0int,
{
    let t = subtree(nodes, expanded, a);
    let kx = choose|k: int| 0 <= k < t.len() && t[k] == x;
    if !(0 <= a < nodes.len()) {
        assert(t.len() == 0);
        assert(false);
    }
    let n = nodes[a];
    let kc = choose|k: int| 0 <= k < nodes[x as int].children@.len() && nodes[x as int].children@[k] == c;
    assert(x < nodes[x as int].children@[kc] < nodes.len());
    if !(n.is_dir && expanded[a]) {
        assert(t == seq![a as usize] + Seq::<usize>::empty());
        assert(t.len() == 1);
        assert(t[0] == a as usize);
        assert(x as int == a);
        assert(false);
    }
    let f = forest(nodes, expanded, a, n.children@);
    assert(t == seq![a as usize] + f);
    if x as int == a {
        lemma_subtree_first(nodes, expanded, c as int);
        assert(subtree(nodes, expanded, c as int)[0] == c);
        assert(subtree(nodes, expanded, c as int).contains(c));
        lemma_forest_has_subtree(nodes, expanded, a, n.children@, kc, c);
        let k = choose|k: int| 0 <= k < f.len() && f[k] == c;
        assert(t[k + 1] == c);
    } else {
        assert(kx > 0);
        assert(f[kx - 1] == x);
        assert(f.contains(x));
        lemma_forest_closed(nodes, expanded, roots, a, n.children@, x, c);
        let m = choose|m: int| 0 <= m < f.len() && f[m] == c;
        assert(t[m + 1] == c);
    }
}

/// In a forest, the children of a shown expanded directory are shown.
proof fn lemma_forest_closed(
    nodes: Seq<TreeNode>,
    expanded: Seq<bool>,
    roots: Seq<usize>,
    parent: int,
    ids: Seq<usize>,
    x: usize,
    c: usize,
)
    requires
        tree_shape(nodes, roots),
        nodes.len() <= usize::MAX,
        expanded.len() == nodes.len(),
        forest(nodes, expanded, parent, ids).contains(x),
        x < nodes.len(),
        nodes[x as int].is_dir && expanded[x as int],
        nodes[x as int].children@.contains(c),
    ensures
        forest(nodes, expanded, parent, ids).contains(c),
    decreases nodes.len() - parent, 0int, ids.len(),
{
    let first = if parent < ids[0] && ids[0] < nodes.len() {
        subtree(nodes, expanded, ids[0] as int)
    } else {
        Seq::empty()
    };
    let rest = forest(nodes, expanded, parent, ids.drop_first());
    let f = forest(nodes, expanded, parent, ids);
    assert(f == first + rest);
    let k = choose|k: int| 0 <= k < f.len() && f[k] == x;
    if k < first.len() {
        assert(first[k] == x);
        lemma_subtree_closed(nodes, expanded, roots, ids[0] as int, x, c);
        let m = choose|m: int| 0 <= m < first.len() && first[m] == c;
        assert(f[m] == c);
    } else {
        assert(rest[k - first.len()] == x);
        lemma_forest_closed(nodes, expanded, roots, parent, ids.drop_first(), x, c);
        let m = choose|m: int| 0 <= m < rest.len() && rest[m] == c;
        assert(f[first.len() + m] == c);
    }
}

/// A node whose ancestors are all expanded is visible.
pub proof fn lemma_visible_when_ancestors_expanded(
    nodes: Seq<TreeNode>,
    expanded: Seq<bool>,
    roots: Seq<usize>,
    n: int,
)
    requires
        tree_shape(nodes, roots),
        tree_linked(nodes, roots),
        nodes.len() <= usize::MAX,
        expanded.len() == nodes.len(),
        0 <= n < nodes.len(),
        forall|a: int| 0 <= a < nodes.len() && is_strict_ancestor(nodes, a, n) ==> #[trigger] expanded[a],
    ensures
        visible_of(nodes, expanded, roots).contains(n as usize),
    decreases n,
{
    let node = nodes[n];
    match node.parent {
        None => {
            assert(roots.contains(n as usize));
            let j = choose|j: int| 0 <= j < roots.len() && roots[j] == n as usize;
            lemma_subtree_first(nodes, expanded, n);
            assert(subtree(nodes, expanded, n).contains(n as usize));
            lemma_forest_has_subtree(nodes, expanded, -1, roots, j, n as usize);
        },
        Some(p) => {
            assert(p < n);
            assert(is_strict_ancestor(nodes, p as int, n));
            assert forall|a: int| 0 <= a < nodes.len() && is_strict_ancestor(nodes, a, p as int) implies #[trigger] expanded[a] by {
                assert(is_strict_ancestor(nodes, a, n));
            }
            lemma_visible_when_ancestors_expanded(nodes, expanded, roots, p as int);
            lemma_forest_closed(nodes, expanded, roots, -1, roots, p, n as usize);
        },
    }
}

/// The first position of an element that occurs in the list holds it.
proof fn lemma_first_position(v: Seq<usize>, id: usize, from: int)
    requires
        0 <= from,
        exists|k: int| from <= k < v.len() && v[k] == id,
    ensures
        from <= first_position_from(v, id, from) < v.len(),
        v[first_position_from(v, id, from)] == id,
    decreases v.len() - from,
{
    if v[from] != id {
        lemma_first_position(v, id, from + 1);
    }
}

/// Revealing a node makes it visible.
pub proof fn lemma_revealed_node_visible(
    nodes: Seq<TreeNode>,
    expanded: Seq<bool>,
    roots: Seq<usize>,
    id: int,
)
    requires
        tree_shape(nodes, roots),
        tree_linked(nodes, roots),
        nodes.len() <= usize::MAX,
        expanded.len() == nodes.len(),
        0 <= id < nodes.len(),
    ensures
        visible_of(nodes, expand_ancestors(nodes, expanded, id), roots).contains(id as usize),
        ({
            let v = visible_of(nodes, expand_ancestors(nodes, expanded, id), roots);
            0 <= first_position(v, id as usize) < v.len() && v[first_position(v, id as usize)] == id
        }),
{
    let e = expand_ancestors(nodes, expanded, id);
    lemma_visible_when_ancestors_expanded(nodes, e, roots, id);
    let v = visible_of(nodes, e, roots);
    let k = choose|k: int| 0 <= k < v.len() && v[k] == id as usize;
    assert(v[k] == id as usize);
    lemma_first_position(v, id as usize, 0);
    assert(first_position(v, id as usize) == first_position_from(v, id as usize, 0));
}

} // verus!

verus! {

/// The last position in `files` whose path is `path`, if any.
pub open spec fn last_index_with_path(files: Seq<String>, path: Seq<char>) -> Option<usize>
    decreases files.len(),
{
    if files.len() == 0 {
        None
    } else if files.last()@ == path {
        Some((files.len() - 1) as usize)
    } else {
        last_index_with_path(files.drop_last(), path)
    }
}

/// The directory whose contents the sidebar shows: the parent of the
/// current image (or of the first one when the index is out of range), or
/// `.` when there is none.
pub open spec fn sidebar_root_spec(files: Seq<String>, current_index: int) -> Seq<char> {
    let chosen = if 0 <= current_index < files.len() {
        Some(files[current_index]@)
    } else if files.len() > 0 {
        Some(files[0]@)
    } else {
        None
    };
    match chosen {
        Some(p) => match spec_parent(p) {
            Some(d) => d,
            None => seq!['.'],
        },
        None => seq!['.'],
    }
}

/// The directory whose listing the sidebar is built from.
pub fn sidebar_root_dir(image_files: &Vec<String>, current_index: usize) -> (r: String)
    ensures
        r@ == sidebar_root_spec(image_files@, current_index as int),
{
    let chosen: Option<&String> = if current_index < image_files.len() {
        Some(&image_files[current_index])
    } else if image_files.len() > 0 {
        Some(&image_files[0])
    } else {
        None
    };
    let parent = match chosen {
        Some(p) => path_parent(p.as_str()),
        None => None,
    };
    match parent {
        Some(d) => d,
        None => {
            let mut s = String::new();
            push_str(&mut s, ".");
            proof {
                reveal_strlit(".");
            }
            s
        },
    }
}

/// The last position in `files` whose path is `path`.
fn last_index_of_path(files: &Vec<String>, path: &String) -> (r: Option<usize>)
    ensures
        r == last_index_with_path(files@, path@),
{
    let mut k: usize = files.len();
    assert(files@.take(k as int) == files@);
    while k > 0
        invariant
            k <= files@.len(),
            last_index_with_path(files@, path@) == last_index_with_path(files@.take(k as int), path@),
        decreases k,
    {
        let ghost t = files@.take(k as int);
        if files[k - 1] == *path {
            assert(t.last() == files@[k - 1]);
            return Some(k - 1);
        }
        assert(t.drop_last() == files@.take(k - 1));
        k = k - 1;
    }
    None
}

/// Per node, the position of its path in the image list.
fn image_index_for_nodes(nodes: &Vec<TreeNode>, image_files: &Vec<String>) -> (r: Vec<Option<usize>>)
    ensures
        r@.len() == nodes@.len(),
        forall|i: int| 0 <= i < nodes@.len() ==> #[trigger] r@[i] == last_index_with_path(image_files@, nodes@[i].path@),
{
    let mut out: Vec<Option<usize>> = Vec::new();
    let mut i: usize = 0;
    while i < nodes.len()
        invariant
            i <= nodes@.len(),
            out@.len() == i,
            forall|j: int| 0 <= j < i ==> #[trigger] out@[j] == last_index_with_path(image_files@, nodes@[j].path@),
        decreases nodes@.len() - i,
    {
        out.push(last_index_of_path(image_files, &nodes[i].path));
        i = i + 1;
    }
    out
}

impl SidebarTree {
    /// Builds the sidebar for the listing of the directory named by
    /// `sidebar_root_dir`: the tree of its subdirectories and image files,
    /// all collapsed, with the current image revealed and under the cursor.
    pub fn from_image_files(
        listing: &Vec<DirEntry>,
        image_files: &Vec<String>,
        current_index: usize,
        extensions: &[String],
    ) -> (r: SidebarTree)
        requires
            listing_height(listing@) <= usize::MAX,
            distinct_paths(listing@),
        ensures
            r.wf(),
            segment_ok(r.node_seq(), 0, r.node_seq().len() as int, None, r.root_seq(), 0),
            lists_entries(r.node_seq(), r.root_seq(), listing@, extensions@.map_values(|e: String| e@)),
            tree_lists(r.node_seq(), r.root_seq(), listing@, extensions@.map_values(|e: String| e@)),
            forall|i: int| 0 <= i < r.node_seq().len() ==> #[trigger] r.image_indices()[i] == last_index_with_path(
                image_files@,
                r.node_seq()[i].path@,
            ),
            ({
                let none = Seq::new(r.node_seq().len(), |i: int| false);
                let id = if current_index < image_files@.len() {
                    last_node_with_path(r.node_seq(), image_files@[current_index as int]@)
                } else {
                    -1
                };
                &&& id < 0 ==> r.expanded_flags() == none && r.cursor() == 0
                &&& id >= 0 ==> r.expanded_flags() == expand_ancestors(r.node_seq(), none, id)
                    && r.cursor_node() == Some(id as usize)
            }),
    {
        let mut nodes: Vec<TreeNode> = Vec::new();
        let roots = build_tree_nodes(listing, None, 0, &mut nodes, extensions);
        proof {
            assert(nodes@.subrange(0, 0) =~= Seq::<TreeNode>::empty());
            lemma_segment_is_tree(nodes@, roots@, 0);
        }
        let n = nodes.len();
        let image_index = image_index_for_nodes(&nodes, image_files);
        let mut expanded: Vec<bool> = Vec::new();
        let mut i: usize = 0;
        while i < n
            invariant
                i <= n,
                expanded@ == Seq::new(i as nat, |j: int| false),
            decreases n - i,
        {
            expanded.push(false);
            i = i + 1;
        }
        let mut tree = SidebarTree {
            nodes,
            roots,
            visible_nodes: Vec::new(),
            expanded,
            image_index,
            cursor_visible_index: 0,
        };
        tree.rebuild_visible();
        if current_index < image_files.len() {
            tree.sync_cursor_to_image(image_files[current_index].as_str());
        }
        tree
    }

    /// Recomputes, per node, the position of its path in `image_files`
    /// (after the image list was re-ordered), then, given the path of the
    /// current image, reveals it and puts the cursor on it.
    pub fn refresh_image_index_map(&mut self, image_files: &Vec<String>, current_path: Option<&str>)
        requires
            old(self).wf(),
        ensures
            match current_path {
                None => reindexed(*old(self), *final(self), image_files@),
                Some(p) => exists|mid: SidebarTree| reindexed(*old(self), mid, image_files@) && synced_to(mid, *final(self), p@),
            },
    {
        self.image_index = image_index_for_nodes(&self.nodes, image_files);
        let ghost mid = *self;
        match current_path {
            Some(p) => {
                self.sync_cursor_to_image(p);
                assert(reindexed(*old(self), mid, image_files@) && synced_to(mid, *self, p@));
            },
            None => {},
        }
    }
}

/// `b` is `a` with the image position of every node recomputed for
/// `files`.
pub open spec fn reindexed(a: SidebarTree, b: SidebarTree, files: Seq<String>) -> bool {
    &&& b.wf()
    &&& b.node_seq() == a.node_seq()
    &&& b.root_seq() == a.root_seq()
    &&& b.expanded_flags() == a.expanded_flags()
    &&& b.visible() == a.visible()
    &&& b.cursor() == a.cursor()
    &&& b.image_indices().len() == b.node_seq().len()
    &&& forall|i: int| 0 <= i < b.node_seq().len() ==> #[trigger] b.image_indices()[i] == last_index_with_path(
        files,
        b.node_seq()[i].path@,
    )
}

} // verus!

verus! {

/// `a` and `b` hold the same tree (nodes, roots and image positions).
pub open spec fn same_tree(a: SidebarTree, b: SidebarTree) -> bool {
    &&& b.node_seq() == a.node_seq()
    &&& b.root_seq() == a.root_seq()
    &&& b.image_indices() == a.image_indices()
}

/// `b` is `a` with the cursor put on position `target` of the unchanged
/// visible list (nowhere, on an empty list); `moved` says whether it moved.
pub open spec fn cursor_set(a: SidebarTree, b: SidebarTree, target: int, moved: bool) -> bool {
    &&& b.wf()
    &&& same_tree(a, b)
    &&& b.expanded_flags() == a.expanded_flags()
    &&& b.visible() == a.visible()
    &&& a.visible().len() == 0 ==> b.cursor() == a.cursor()
    &&& a.visible().len() > 0 ==> b.cursor() == target
    &&& moved == (b.cursor() != a.cursor())
}

/// The visible position shown at screen row `row` of a terminal
/// `term_height` rows high (row 0 is the header; the list fills the
/// `term_height - 2` rows below it), or the cursor itself when that row
/// shows no entry.
pub open spec fn screen_row_target(t: SidebarTree, row: u16, term_height: u16) -> int {
    let rows = if term_height >= 2 {
        term_height - 2
    } else {
        0
    };
    let target = window_start(t.cursor(), t.visible().len(), rows as nat) + row - 1;
    if t.visible().len() == 0 || row == 0 || rows == 0 || row - 1 >= rows || target >= t.visible().len() {
        t.cursor() as int
    } else {
        target
    }
}

/// `b` is `a` after the image at `path` was revealed and put under the
/// cursor: its ancestors are expanded, and the cursor is on it.
pub open spec fn synced_to(a: SidebarTree, b: SidebarTree, path: Seq<char>) -> bool {
    let id = last_node_with_path(a.node_seq(), path);
    let exp = if id < 0 {
        a.expanded_flags()
    } else {
        expand_ancestors(a.node_seq(), a.expanded_flags(), id)
    };
    let vis = visible_of(a.node_seq(), exp, a.root_seq());
    let c1 = if id < 0 {
        a.cursor() as int
    } else {
        rebuilt_cursor(a.cursor() as int, vis.len())
    };
    &&& b.wf()
    &&& same_tree(a, b)
    &&& b.expanded_flags() == exp
    &&& b.cursor() == cursor_after_path(a.node_seq(), vis, path, c1)
    &&& id >= 0 ==> b.cursor_node() == Some(id as usize)
}

/// The directory under the cursor of `a`, if the cursor is on one.
pub open spec fn cursor_dir(a: SidebarTree) -> Option<int> {
    match a.cursor_node() {
        Some(id) => if a.node_seq()[id as int].is_dir {
            Some(id as int)
        } else {
            None
        },
        None => None,
    }
}

/// `b` is `a` after the directory under the cursor was set to `expand`,
/// when `apply` holds; else `b` is `a`. `r` is `apply`.
pub open spec fn dir_set_if(a: SidebarTree, b: SidebarTree, apply: bool, expand: bool, r: bool) -> bool {
    &&& b.wf()
    &&& same_tree(a, b)
    &&& r == apply
    &&& !apply ==> b.expanded_flags() == a.expanded_flags() && b.cursor() == a.cursor()
    &&& apply ==> dir_state_changed(&a, &b, cursor_dir(a)->0, expand)
}

/// `b` is `a` after a toggle of the directory under the cursor.
pub open spec fn dir_toggled(a: SidebarTree, b: SidebarTree, r: bool) -> bool {
    dir_set_if(a, b, cursor_dir(a) is Some, cursor_dir(a) is Some && !a.expanded_flags()[cursor_dir(a)->0], r)
}

/// `b` is `a` after the directory under the cursor was collapsed.
pub open spec fn dir_collapsed(a: SidebarTree, b: SidebarTree, r: bool) -> bool {
    dir_set_if(a, b, cursor_dir(a) is Some && a.expanded_flags()[cursor_dir(a)->0], false, r)
}

/// `b` is `a` after the directory under the cursor was expanded.
pub open spec fn dir_expanded(a: SidebarTree, b: SidebarTree, r: bool) -> bool {
    dir_set_if(a, b, cursor_dir(a) is Some && !a.expanded_flags()[cursor_dir(a)->0], true, r)
}

/// A node shown in a subtree descends from its root, and stays shown when
/// the flag of a node that is not one of its ancestors changes.
proof fn lemma_subtree_flag_free(
    nodes: Seq<TreeNode>,
    roots: Seq<usize>,
    expanded: Seq<bool>,
    a: int,
    x: usize,
    id: int,
    v: bool,
)
    requires
        tree_shape(nodes, roots),
        nodes.len() <= usize::MAX,
        expanded.len() == nodes.len(),
        subtree(nodes, expanded, a).contains(x),
        0 <= id < nodes.len(),
        !is_strict_ancestor(nodes, id, x as int),
    ensures
        subtree(nodes, expanded.update(id, v), a).contains(x),
        is_ancestor_or_self(nodes, a, x as int),
    decreases nodes.len() - a, 1int, 0int,
{
    let e2 = expanded.update(id, v);
    let t = subtree(nodes, expanded, a);
    if !(0 <= a < nodes.len()) {
        assert(t.len() == 0);
        assert(false);
    }
    lemma_subtree_first(nodes, e2, a);
    let t2 = subtree(nodes, e2, a);
    if x as int == a {
        assert(t2[0] == x);
        return;
    }
    let n = nodes[a];
    let k = choose|k: int| 0 <= k < t.len() && t[k] == x;
    if !(n.is_dir && expanded[a]) {
        assert(t == seq![a as usize] + Seq::<usize>::empty());
        assert(t[0] == a as usize);
        assert(false);
    }
    let f = forest(nodes, expanded, a, n.children@);
    assert(t == seq![a as usize] + f);
    assert(k > 0);
    assert(f[k - 1] == x);
    lemma_forest_flag_free(nodes, roots, expanded, a, n.children@, x, id, v);
    let j = choose|j: int|
        0 <= j < n.children@.len() && a < n.children@[j] < nodes.len() && is_ancestor_or_self(
            nodes,
            n.children@[j] as int,
            x as int,
        );
    let c = n.children@[j];
    assert(nodes[c as int].parent == Some(a as usize));
    lemma_ancestor_trans(nodes, a, c as int, x as int);
    assert(a != id);
    assert(e2[a] == expanded[a]);
    let f2 = forest(nodes, e2, a, n.children@);
    assert(t2 == seq![a as usize] + f2);
    let m = choose|m: int| 0 <= m < f2.len() && f2[m] == x;
    assert(t2[m + 1] == x);
}

/// A node shown in a forest descends from one of its ids, and stays shown
/// when the flag of a node that is not one of its ancestors changes.
proof fn lemma_forest_flag_free(
    nodes: Seq<TreeNode>,
    roots: Seq<usize>,
    expanded: Seq<bool>,
    parent: int,
    ids: Seq<usize>,
    x: usize,
    id: int,
    v: bool,
)
    requires
        tree_shape(nodes, roots),
        nodes.len() <= usize::MAX,
        expanded.len() == nodes.len(),
        forest(nodes, expanded, parent, ids).contains(x),
        0 <= id < nodes.len(),
        !is_strict_ancestor(nodes, id, x as int),
    ensures
        forest(nodes, expanded.update(id, v), parent, ids).contains(x),
        exists|j: int|
            0 <= j < ids.len() && parent < ids[j] < nodes.len() && is_ancestor_or_self(nodes, ids[j] as int, x as int),
    decreases nodes.len() - parent, 0int, ids.len(),
{
    let e2 = expanded.update(id, v);
    let f = forest(nodes, expanded, parent, ids);
    if ids.len() == 0 {
        assert(f.len() == 0);
        assert(false);
    }
    let first = if parent < ids[0] && ids[0] < nodes.len() {
        subtree(nodes, expanded, ids[0] as int)
    } else {
        Seq::empty()
    };
    let rest = forest(nodes, expanded, parent, ids.drop_first());
    assert(f == first + rest);
    let first2 = if parent < ids[0] && ids[0] < nodes.len() {
        subtree(nodes, e2, ids[0] as int)
    } else {
        Seq::empty()
    };
    let rest2 = forest(nodes, e2, parent, ids.drop_first());
    let f2 = forest(nodes, e2, parent, ids);
    assert(f2 == first2 + rest2);
    let k = choose|k: int| 0 <= k < f.len() && f[k] == x;
    if k < first.len() {
        assert(first[k] == x);
        lemma_subtree_flag_free(nodes, roots, expanded, ids[0] as int, x, id, v);
        let m = choose|m: int| 0 <= m < first2.len() && first2[m] == x;
        assert(f2[m] == x);
        assert(0 <= 0 < ids.len() && parent < ids[0] < nodes.len() && is_ancestor_or_self(nodes, ids[0] as int, x as int));
    } else {
        assert(rest[k - first.len()] == x);
        lemma_forest_flag_free(nodes, roots, expanded, parent, ids.drop_first(), x, id, v);
        let m = choose|m: int| 0 <= m < rest2.len() && rest2[m] == x;
        assert(f2[first2.len() + m] == x);
        let j = choose|j: int|
            0 <= j < ids.drop_first().len() && parent < ids.drop_first()[j] < nodes.len() && is_ancestor_or_self(
                nodes,
                ids.drop_first()[j] as int,
                x as int,
            );
        assert(ids.drop_first()[j] == ids[j + 1]);
    }
}

/// With no other node on the same path, the last node with a node's path
/// is that node.
proof fn lemma_last_node_unique(nodes: Seq<TreeNode>, id: int)
    requires
        0 <= id < nodes.len(),
        forall|j: int| 0 <= j < nodes.len() && j != id ==> #[trigger] nodes[j].path@ != nodes[id].path@,
    ensures
        last_node_with_path(nodes, nodes[id].path@) == id,
    decreases nodes.len(),
{
    if nodes.len() - 1 != id {
        let d = nodes.drop_last();
        assert(nodes.last().path@ != nodes[id].path@);
        assert(d[id] == nodes[id]);
        assert forall|j: int| 0 <= j < d.len() && j != id implies #[trigger] d[j].path@ != d[id].path@ by {
            assert(d[j] == nodes[j]);
        }
        lemma_last_node_unique(d, id);
    }
}

/// Setting directory `id` of a well-formed tree leaves it shown, and puts
/// the cursor back on it when no other node shares its path.
proof fn lemma_dir_change_keeps_cursor(a: SidebarTree, b: SidebarTree, id: int, expand: bool)
    requires
        a.wf(),
        b.wf(),
        same_tree(a, b),
        a.node_seq().len() <= usize::MAX,
        0 <= id < a.node_seq().len(),
        a.cursor_node() == Some(id as usize),
        forall|j: int|
            0 <= j < a.node_seq().len() && j != id ==> #[trigger] a.node_seq()[j].path@ != a.node_seq()[id].path@,
        dir_state_changed(&a, &b, id, expand),
    ensures
        b.cursor_node() == Some(id as usize),
{
    let nodes = a.node_seq();
    let vis_a = a.visible();
    assert(vis_a[a.cursor() as int] == id as usize);
    assert(vis_a.contains(id as usize));
    lemma_ancestor_lt(nodes, id, id);
    lemma_forest_flag_free(nodes, a.root_seq(), a.expanded_flags(), -1, a.root_seq(), id as usize, id, expand);
    let vis_b = b.visible();
    assert(vis_b == visible_of(nodes, a.expanded_flags().update(id, expand), a.root_seq()));
    assert(vis_b.contains(id as usize));
    lemma_last_node_unique(nodes, id);
    lemma_first_position(vis_b, id as usize, 0);
}

/// Toggling the directory under the cursor twice restores what is
/// expanded and what is shown, with the cursor on that directory again.
pub proof fn lemma_toggle_twice_restores(a: SidebarTree, b: SidebarTree, c: SidebarTree, r1: bool, r2: bool)
    requires
        a.wf(),
        a.node_seq().len() <= usize::MAX,
        cursor_dir(a) is Some,
        dir_toggled(a, b, r1),
        dir_toggled(b, c, r2),
    ensures
        r1 && r2,
        c.expanded_flags() == a.expanded_flags(),
        c.visible() == a.visible(),
        cursor_dir(c) == cursor_dir(a),
{
    let id = cursor_dir(a)->0;
    let cn = a.cursor_node()->0;
    assert(a.visible()[a.cursor() as int] == cn);
    assert(id == cn as int);
    assert(0 <= id < a.node_seq().len());
    let e1 = !a.expanded_flags()[id];
    lemma_dir_change_keeps_cursor(a, b, id, e1);
    assert(cursor_dir(b) == Some(id));
    assert(b.expanded_flags()[id] == e1);
    let e2 = !b.expanded_flags()[id];
    assert(e2 == a.expanded_flags()[id]);
    assert(b.node_seq() == a.node_seq());
    lemma_dir_change_keeps_cursor(b, c, id, e2);
    assert(c.expanded_flags() =~= a.expanded_flags());
}

} // verus!
