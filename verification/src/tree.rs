//! The directory tree shown to the operator: owned parent-to-children nodes
//! with lock, expansion and allow-create flags.
//!
//! Every mutation is specified against [`TreeView`], a ghost mirror of the
//! node structure, so that recursive updates state exactly which flags
//! change and that the shape of the tree is kept.

use vstd::prelude::*;
use crate::path::GuardPath;
use crate::policy::LockRule;

verus! {

/// The `(path, is_dir)` views of a rule list.
pub open spec fn rule_views(rs: Seq<LockRule>) -> Seq<(Seq<Seq<char>>, bool)> {
    Seq::new(rs.len(), |i: int| (rs[i].path@, rs[i].is_dir))
}

/// Appends one rule, tracked at the level of rule views.
pub fn push_rule(v: &mut Vec<LockRule>, path: GuardPath, is_dir: bool)
    ensures
        rule_views(final(v)@) == rule_views(old(v)@).push((path@, is_dir)),
{
    let ghost o = rule_views(v@);
    let ghost pv = path@;
    v.push(LockRule { path, is_dir });
    proof {
        let dv = rule_views(v@);
        assert forall|j: int| 0 <= j < dv.len() implies dv[j] == o.push((pv, is_dir))[j] by {
            if j < o.len() {
                assert(v@[j] == old(v)@[j]);
            } else {
                assert(v@[j].path@ == pv);
            }
        }
        assert(dv =~= o.push((pv, is_dir)));
    }
}

/// The ghost mirror of a tree node.
pub ghost struct TreeView {
    pub path: Seq<Seq<char>>,
    pub name: Seq<char>,
    pub is_dir: bool,
    pub is_expanded: bool,
    pub is_locked: bool,
    pub allow_create_in_locked: bool,
    pub depth: int,
    pub children: Seq<TreeView>,
}

/// One node of the directory tree.
pub struct TreeNode {
    pub path: GuardPath,
    pub name: String,
    pub is_dir: bool,
    pub is_expanded: bool,
    pub is_locked: bool,
    pub allow_create_in_locked: bool,
    pub children: Vec<TreeNode>,
    pub depth: usize,
}

/// The ghost mirror of a node.
pub open spec fn tree_view(n: TreeNode) -> TreeView
    decreases n,
{
    TreeView {
        path: n.path@,
        name: n.name@,
        is_dir: n.is_dir,
        is_expanded: n.is_expanded,
        is_locked: n.is_locked,
        allow_create_in_locked: n.allow_create_in_locked,
        depth: n.depth as int,
        children: tree_views(n.children@),
    }
}

/// The ghost mirrors of a node sequence.
pub open spec fn tree_views(s: Seq<TreeNode>) -> Seq<TreeView>
    decreases s,
{
    if s.len() == 0 {
        Seq::empty()
    } else {
        seq![tree_view(s[0])] + tree_views(s.drop_first())
    }
}

/// Mirroring a sequence keeps its length and is pointwise.
pub proof fn lemma_tree_views_index(s: Seq<TreeNode>)
    ensures
        tree_views(s).len() == s.len(),
        forall|i: int| 0 <= i < s.len() ==> #[trigger] tree_views(s)[i] == tree_view(s[i]),
    decreases s,
{
    if s.len() > 0 {
        lemma_tree_views_index(s.drop_first());
        assert forall|i: int| 0 <= i < s.len() implies #[trigger] tree_views(s)[i] == tree_view(
            s[i],
        ) by {
            if i > 0 {
                assert(tree_views(s)[i] == tree_views(s.drop_first())[i - 1]);
                assert(s.drop_first()[i - 1] == s[i]);
            }
        }
    }
}

/// The node's own fields, apart from the lock flags and children, agree.
pub open spec fn same_node_meta(a: TreeView, b: TreeView) -> bool {
    a.path == b.path && a.name == b.name && a.is_dir == b.is_dir && a.depth == b.depth
}

/// `b` is `a` with itself and every descendant locked and allow-create
/// cleared; everything else is kept.
pub open spec fn lock_view(t: TreeView) -> TreeView
    decreases t,
{
    TreeView {
        path: t.path,
        name: t.name,
        is_dir: t.is_dir,
        is_expanded: t.is_expanded,
        is_locked: true,
        allow_create_in_locked: false,
        depth: t.depth,
        children: lock_views(t.children),
    }
}

/// `lock_view` applied to each element.
pub open spec fn lock_views(s: Seq<TreeView>) -> Seq<TreeView>
    decreases s,
{
    if s.len() == 0 {
        Seq::empty()
    } else {
        seq![lock_view(s[0])] + lock_views(s.drop_first())
    }
}

/// Pointwise description of `lock_views`.
pub proof fn lemma_lock_views_index(s: Seq<TreeView>)
    ensures
        lock_views(s).len() == s.len(),
        forall|i: int| 0 <= i < s.len() ==> #[trigger] lock_views(s)[i] == lock_view(s[i]),
    decreases s,
{
    if s.len() > 0 {
        lemma_lock_views_index(s.drop_first());
        assert forall|i: int| 0 <= i < s.len() implies #[trigger] lock_views(s)[i] == lock_view(
            s[i],
        ) by {
            if i > 0 {
                assert(lock_views(s)[i] == lock_views(s.drop_first())[i - 1]);
                assert(s.drop_first()[i - 1] == s[i]);
            }
        }
    }
}

/// `b` is `a` with itself and every descendant unlocked and allow-create
/// cleared.
pub open spec fn unlock_view(t: TreeView) -> TreeView
    decreases t,
{
    TreeView {
        path: t.path,
        name: t.name,
        is_dir: t.is_dir,
        is_expanded: t.is_expanded,
        is_locked: false,
        allow_create_in_locked: false,
        depth: t.depth,
        children: unlock_views(t.children),
    }
}

/// `unlock_view` applied to each element.
pub open spec fn unlock_views(s: Seq<TreeView>) -> Seq<TreeView>
    decreases s,
{
    if s.len() == 0 {
        Seq::empty()
    } else {
        seq![unlock_view(s[0])] + unlock_views(s.drop_first())
    }
}

/// Pointwise description of `unlock_views`.
pub proof fn lemma_unlock_views_index(s: Seq<TreeView>)
    ensures
        unlock_views(s).len() == s.len(),
        forall|i: int| 0 <= i < s.len() ==> #[trigger] unlock_views(s)[i] == unlock_view(s[i]),
    decreases s,
{
    if s.len() > 0 {
        lemma_unlock_views_index(s.drop_first());
        assert forall|i: int| 0 <= i < s.len() implies #[trigger] unlock_views(s)[i] == unlock_view(
            s[i],
        ) by {
            if i > 0 {
                assert(unlock_views(s)[i] == unlock_views(s.drop_first())[i - 1]);
                assert(s.drop_first()[i - 1] == s[i]);
            }
        }
    }
}

/// Rebuilds a node with every flag set to "locked", recursively.
fn lock_node(n: &TreeNode) -> (r: TreeNode)
    ensures
        tree_view(r) == lock_view(tree_view(*n)),
    decreases *n,
{
    let children = lock_nodes(&n.children);
    let r = TreeNode {
        path: n.path.clone(),
        name: n.name.clone(),
        is_dir: n.is_dir,
        is_expanded: n.is_expanded,
        is_locked: true,
        allow_create_in_locked: false,
        children,
        depth: n.depth,
    };
    proof {
        assert(tree_view(r) =~~= lock_view(tree_view(*n)));
    }
    r
}

/// Rebuilds each node of a list with every flag set to "locked".
fn lock_nodes(nodes: &Vec<TreeNode>) -> (r: Vec<TreeNode>)
    ensures
        tree_views(r@) == lock_views(tree_views(nodes@)),
    decreases *nodes,
{
    let mut out: Vec<TreeNode> = Vec::new();
    let mut i: usize = 0;
    proof {
        lemma_tree_views_index(nodes@);
        lemma_lock_views_index(tree_views(nodes@));
    }
    while i < nodes.len()
        invariant
            i <= nodes.len(),
            out@.len() == i,
            tree_views(nodes@).len() == nodes@.len(),
            lock_views(tree_views(nodes@)).len() == nodes@.len(),
            tree_views(out@).len() == i,
            forall|k: int|
                0 <= k < i ==> #[trigger] tree_views(out@)[k] == lock_views(tree_views(nodes@))[k],
        decreases nodes.len() - i,
    {
        let c = lock_node(&nodes[i]);
        let ghost prev = out@;
        out.push(c);
        proof {
            lemma_tree_views_index(prev);
            lemma_tree_views_index(out@);
            lemma_tree_views_index(nodes@);
            lemma_lock_views_index(tree_views(nodes@));
            assert forall|k: int| 0 <= k < i + 1 implies #[trigger] tree_views(out@)[k]
                == lock_views(tree_views(nodes@))[k] by {
                assert(tree_views(out@)[k] == tree_view(out@[k]));
                if k < i {
                    assert(out@[k] == prev[k]);
                    assert(tree_views(prev)[k] == tree_view(prev[k]));
                } else {
                    assert(out@[k] == c);
                }
            }
        }
        i += 1;
    }
    proof {
        lemma_tree_views_index(out@);
        assert(tree_views(out@) =~= lock_views(tree_views(nodes@)));
    }
    out
}

/// Rebuilds a node with every flag cleared, recursively.
fn unlock_node(n: &TreeNode) -> (r: TreeNode)
    ensures
        tree_view(r) == unlock_view(tree_view(*n)),
    decreases *n,
{
    let children = unlock_nodes(&n.children);
    let r = TreeNode {
        path: n.path.clone(),
        name: n.name.clone(),
        is_dir: n.is_dir,
        is_expanded: n.is_expanded,
        is_locked: false,
        allow_create_in_locked: false,
        children,
        depth: n.depth,
    };
    proof {
        assert(tree_view(r) =~~= unlock_view(tree_view(*n)));
    }
    r
}

/// Rebuilds each node of a list with every flag cleared.
fn unlock_nodes(nodes: &Vec<TreeNode>) -> (r: Vec<TreeNode>)
    ensures
        tree_views(r@) == unlock_views(tree_views(nodes@)),
    decreases *nodes,
{
    let mut out: Vec<TreeNode> = Vec::new();
    let mut i: usize = 0;
    proof {
        lemma_tree_views_index(nodes@);
        lemma_unlock_views_index(tree_views(nodes@));
    }
    while i < nodes.len()
        invariant
            i <= nodes.len(),
            out@.len() == i,
            tree_views(nodes@).len() == nodes@.len(),
            unlock_views(tree_views(nodes@)).len() == nodes@.len(),
            tree_views(out@).len() == i,
            forall|k: int|
                0 <= k < i ==> #[trigger] tree_views(out@)[k] == unlock_views(
                    tree_views(nodes@),
                )[k],
        decreases nodes.len() - i,
    {
        let c = unlock_node(&nodes[i]);
        let ghost prev = out@;
        out.push(c);
        proof {
            lemma_tree_views_index(prev);
            lemma_tree_views_index(out@);
            lemma_tree_views_index(nodes@);
            lemma_unlock_views_index(tree_views(nodes@));
            assert forall|k: int| 0 <= k < i + 1 implies #[trigger] tree_views(out@)[k]
                == unlock_views(tree_views(nodes@))[k] by {
                assert(tree_views(out@)[k] == tree_view(out@[k]));
                if k < i {
                    assert(out@[k] == prev[k]);
                    assert(tree_views(prev)[k] == tree_view(prev[k]));
                } else {
                    assert(out@[k] == c);
                }
            }
        }
        i += 1;
    }
    proof {
        lemma_tree_views_index(out@);
        assert(tree_views(out@) =~= unlock_views(tree_views(nodes@)));
    }
    out
}

impl TreeNode {
    /// A fresh node: collapsed, unlocked, childless.
    pub fn new(path: GuardPath, name: String, is_dir: bool, depth: usize) -> (r: Self)
        ensures
            tree_view(r) == (TreeView {
                path: path@,
                name: name@,
                is_dir,
                is_expanded: false,
                is_locked: false,
                allow_create_in_locked: false,
                depth: depth as int,
                children: Seq::empty(),
            }),
    {
        let r = TreeNode {
            path,
            name,
            is_dir,
            is_expanded: false,
            is_locked: false,
            allow_create_in_locked: false,
            children: Vec::new(),
            depth,
        };
        proof {
            assert(r.children@.len() == 0);
        }
        r
    }

    /// Flips the lock. Locking also locks every child; unlocking clears the
    /// allow-create flag.
    pub fn toggle_lock(&mut self)
        ensures
            same_node_meta(tree_view(*final(self)), tree_view(*old(self))),
            tree_view(*final(self)).is_expanded == tree_view(*old(self)).is_expanded,
            tree_view(*final(self)).is_locked == !old(self).is_locked,
            old(self).is_locked ==> tree_view(*final(self)).children == tree_view(
                *old(self),
            ).children && !final(self).allow_create_in_locked,
            !old(self).is_locked ==> tree_view(*final(self)).children == lock_views(
                tree_view(*old(self)).children,
            ) && final(self).allow_create_in_locked == old(self).allow_create_in_locked,
    {
        if self.is_locked {
            self.is_locked = false;
            self.allow_create_in_locked = false;
        } else {
            self.is_locked = true;
            let locked_children = lock_nodes(&self.children);
            self.children = locked_children;
        }
    }

    /// Flips the allow-create flag of a locked directory.
    pub fn toggle_create_in_locked(&mut self)
        ensures
            old(self).is_dir && old(self).is_locked ==> *final(self) == (TreeNode {
                allow_create_in_locked: !old(self).allow_create_in_locked,
                ..*old(self)
            }),
            !(old(self).is_dir && old(self).is_locked) ==> *final(self) == *old(self),
    {
        if self.is_dir && self.is_locked {
            self.allow_create_in_locked = !self.allow_create_in_locked;
        }
    }

    /// Locks every child subtree; the node's own flags are untouched.
    pub fn lock_all_children(&mut self)
        ensures
            same_node_meta(tree_view(*final(self)), tree_view(*old(self))),
            final(self).is_locked == old(self).is_locked,
            final(self).is_expanded == old(self).is_expanded,
            final(self).allow_create_in_locked == old(self).allow_create_in_locked,
            tree_view(*final(self)).children == lock_views(tree_view(*old(self)).children),
    {
        let locked_children = lock_nodes(&self.children);
        self.children = locked_children;
    }

    /// Flips expansion of a directory.
    pub fn toggle_expand(&mut self)
        ensures
            old(self).is_dir ==> *final(self) == (TreeNode {
                is_expanded: !old(self).is_expanded,
                ..*old(self)
            }),
            !old(self).is_dir ==> *final(self) == *old(self),
    {
        if self.is_dir {
            self.is_expanded = !self.is_expanded;
        }
    }
}

/// The locked files below (and including) a node: the paths of locked
/// non-directory nodes, in depth-first order.
pub open spec fn locked_files_view(t: TreeView) -> Seq<Seq<Seq<char>>>
    decreases t,
{
    (if t.is_locked && !t.is_dir {
        seq![t.path]
    } else {
        Seq::empty()
    }) + locked_files_views(t.children)
}

/// The locked files of a node list, in order.
pub open spec fn locked_files_views(s: Seq<TreeView>) -> Seq<Seq<Seq<char>>>
    decreases s,
{
    if s.len() == 0 {
        Seq::empty()
    } else {
        locked_files_view(s[0]) + locked_files_views(s.drop_first())
    }
}

impl TreeNode {
    /// The paths of all locked files in this subtree, in depth-first order.
    pub fn get_locked_files(&self) -> (r: Vec<GuardPath>)
        ensures
            r.deep_view() == locked_files_view(tree_view(*self)),
    {
        let mut out: Vec<GuardPath> = Vec::new();
        self.collect_locked_files(&mut out);
        assert(out.deep_view() =~= Seq::<Seq<Seq<char>>>::empty() + locked_files_view(
            tree_view(*self),
        ));
        out
    }

    /// Appends the locked files of this subtree to `out`.
    fn collect_locked_files(&self, out: &mut Vec<GuardPath>)
        ensures
            final(out).deep_view() == old(out).deep_view() + locked_files_view(tree_view(*self)),
        decreases *self,
    {
        let ghost base = old(out).deep_view();
        if self.is_locked && !self.is_dir {
            let p = self.path.clone();
            out.push(p);
            proof {
                assert(out.deep_view() =~= base + seq![tree_view(*self).path]) by {
                    assert forall|j: int| 0 <= j < out.deep_view().len() implies out.deep_view()[j]
                        == (base + seq![tree_view(*self).path])[j] by {
                        if j < base.len() {
                            assert(out@[j] == old(out)@[j]);
                        }
                    }
                }
            }
        }
        let mut i: usize = 0;
        proof {
            lemma_tree_views_index(self.children@);
            assert(locked_files_views(tree_views(self.children@).take(0)) =~= Seq::<
                Seq<Seq<char>>,
            >::empty());
        }
        let ghost pre = (if self.is_locked && !self.is_dir {
            seq![tree_view(*self).path]
        } else {
            Seq::<Seq<Seq<char>>>::empty()
        });
        assert(out.deep_view() =~= base + pre);
        while i < self.children.len()
            invariant
                i <= self.children.len(),
                tree_views(self.children@).len() == self.children@.len(),
                forall|k: int|
                    0 <= k < self.children@.len() ==> #[trigger] tree_views(self.children@)[k]
                        == tree_view(self.children@[k]),
                out.deep_view() == base + pre + locked_files_views(
                    tree_views(self.children@).take(i as int),
                ),
            decreases self.children.len() - i,
        {
            let child: &TreeNode = &self.children[i];
            child.collect_locked_files(out);
            proof {
                let cv = tree_views(self.children@);
                lemma_locked_files_views_take(cv, i as int);
                assert(out.deep_view() =~= base + pre + locked_files_views(cv.take(i as int + 1)));
            }
            i += 1;
        }
        proof {
            let cv = tree_views(self.children@);
            assert(cv.take(cv.len() as int) =~= cv);
            assert(locked_files_view(tree_view(*self)) == pre + locked_files_views(cv));
            assert(final(out).deep_view() =~= base + (pre + locked_files_views(cv)));
        }
    }
}

/// Locks a whole subtree, the node itself included.
pub fn lock_all_recursive(node: &mut TreeNode)
    ensures
        tree_view(*final(node)) == lock_view(tree_view(*old(node))),
{
    let rebuilt = lock_node(&*node);
    *node = rebuilt;
}

/// Unlocks a whole subtree, the node itself included.
pub fn unlock_all_recursive(node: &mut TreeNode)
    ensures
        tree_view(*final(node)) == unlock_view(tree_view(*old(node))),
{
    let rebuilt = unlock_node(&*node);
    *node = rebuilt;
}

/// Locks every node strictly below `node`, leaving the node itself alone.
pub fn lock_all_children_recursive(node: &mut TreeNode)
    ensures
        same_node_meta(tree_view(*final(node)), tree_view(*old(node))),
        final(node).is_locked == old(node).is_locked,
        final(node).is_expanded == old(node).is_expanded,
        final(node).allow_create_in_locked == old(node).allow_create_in_locked,
        tree_view(*final(node)).children == lock_views(tree_view(*old(node)).children),
{
    let locked_children = lock_nodes(&node.children);
    node.children = locked_children;
}

/// The node or an ancestor-style match: the rule path equals the node's path
/// or is an ancestor of it.
pub open spec fn path_match_at_or_below(t: Seq<Seq<char>>, p: Seq<Seq<char>>) -> bool {
    t == p || p.is_prefix_of(t)
}

/// The subtree after re-applying a persisted lock at `p`: every node whose
/// path lies at or below `p` has its lock flag set; such a node's children
/// are not descended into.
pub open spec fn restore_locked_view(t: TreeView, p: Seq<Seq<char>>) -> TreeView
    decreases t,
{
    if path_match_at_or_below(t.path, p) {
        TreeView {
            path: t.path,
            name: t.name,
            is_dir: t.is_dir,
            is_expanded: t.is_expanded,
            is_locked: true,
            allow_create_in_locked: t.allow_create_in_locked,
            depth: t.depth,
            children: t.children,
        }
    } else {
        TreeView {
            path: t.path,
            name: t.name,
            is_dir: t.is_dir,
            is_expanded: t.is_expanded,
            is_locked: t.is_locked,
            allow_create_in_locked: t.allow_create_in_locked,
            depth: t.depth,
            children: restore_locked_views(t.children, p),
        }
    }
}

/// `restore_locked_view` applied to each element.
pub open spec fn restore_locked_views(s: Seq<TreeView>, p: Seq<Seq<char>>) -> Seq<TreeView>
    decreases s,
{
    if s.len() == 0 {
        Seq::empty()
    } else {
        seq![restore_locked_view(s[0], p)] + restore_locked_views(s.drop_first(), p)
    }
}

/// Pointwise description of `restore_locked_views`.
pub proof fn lemma_restore_locked_views_index(s: Seq<TreeView>, p: Seq<Seq<char>>)
    ensures
        restore_locked_views(s, p).len() == s.len(),
        forall|i: int|
            0 <= i < s.len() ==> #[trigger] restore_locked_views(s, p)[i] == restore_locked_view(
                s[i],
                p,
            ),
    decreases s,
{
    if s.len() > 0 {
        lemma_restore_locked_views_index(s.drop_first(), p);
        assert forall|i: int|
            0 <= i < s.len() implies #[trigger] restore_locked_views(s, p)[i]
            == restore_locked_view(s[i], p) by {
            if i > 0 {
                assert(restore_locked_views(s, p)[i] == restore_locked_views(s.drop_first(), p)[i
                    - 1]);
                assert(s.drop_first()[i - 1] == s[i]);
            }
        }
    }
}

fn restore_locked_node(n: &TreeNode, p: &GuardPath) -> (r: TreeNode)
    ensures
        tree_view(r) == restore_locked_view(tree_view(*n), p@),
    decreases *n,
{
    if n.path.eq_path(p) || n.path.starts_with(p) {
        let r = TreeNode {
            path: n.path.clone(),
            name: n.name.clone(),
            is_dir: n.is_dir,
            is_expanded: n.is_expanded,
            is_locked: true,
            allow_create_in_locked: n.allow_create_in_locked,
            children: clone_nodes(&n.children),
            depth: n.depth,
        };
        proof {
            assert(tree_view(r) =~~= restore_locked_view(tree_view(*n), p@));
        }
        r
    } else {
        let children = restore_locked_nodes(&n.children, p);
        let r = TreeNode {
            path: n.path.clone(),
            name: n.name.clone(),
            is_dir: n.is_dir,
            is_expanded: n.is_expanded,
            is_locked: n.is_locked,
            allow_create_in_locked: n.allow_create_in_locked,
            children,
            depth: n.depth,
        };
        proof {
            assert(tree_view(r) =~~= restore_locked_view(tree_view(*n), p@));
        }
        r
    }
}

fn restore_locked_nodes(nodes: &Vec<TreeNode>, p: &GuardPath) -> (r: Vec<TreeNode>)
    ensures
        tree_views(r@) == restore_locked_views(tree_views(nodes@), p@),
    decreases *nodes,
{
    let mut out: Vec<TreeNode> = Vec::new();
    let mut i: usize = 0;
    proof {
        lemma_tree_views_index(nodes@);
        lemma_restore_locked_views_index(tree_views(nodes@), p@);
    }
    while i < nodes.len()
        invariant
            i <= nodes.len(),
            out@.len() == i,
            tree_views(nodes@).len() == nodes@.len(),
            restore_locked_views(tree_views(nodes@), p@).len() == nodes@.len(),
            tree_views(out@).len() == i,
            forall|k: int|
                0 <= k < i ==> #[trigger] tree_views(out@)[k] == restore_locked_views(
                    tree_views(nodes@),
                    p@,
                )[k],
        decreases nodes.len() - i,
    {
        let c = restore_locked_node(&nodes[i], p);
        let ghost prev = out@;
        out.push(c);
        proof {
            lemma_tree_views_index(prev);
            lemma_tree_views_index(out@);
            lemma_tree_views_index(nodes@);
            lemma_restore_locked_views_index(tree_views(nodes@), p@);
            assert forall|k: int|
                0 <= k < i + 1 implies #[trigger] tree_views(out@)[k] == restore_locked_views(
                tree_views(nodes@),
                p@,
            )[k] by {
                assert(tree_views(out@)[k] == tree_view(out@[k]));
                if k < i {
                    assert(out@[k] == prev[k]);
                    assert(tree_views(prev)[k] == tree_view(prev[k]));
                } else {
                    assert(out@[k] == c);
                }
            }
        }
        i += 1;
    }
    proof {
        lemma_tree_views_index(out@);
        assert(tree_views(out@) =~= restore_locked_views(tree_views(nodes@), p@));
    }
    out
}

/// Copies a subtree, keeping its ghost mirror.
fn clone_node(n: &TreeNode) -> (r: TreeNode)
    ensures
        tree_view(r) == tree_view(*n),
    decreases *n,
{
    let children = clone_nodes(&n.children);
    let r = TreeNode {
        path: n.path.clone(),
        name: n.name.clone(),
        is_dir: n.is_dir,
        is_expanded: n.is_expanded,
        is_locked: n.is_locked,
        allow_create_in_locked: n.allow_create_in_locked,
        children,
        depth: n.depth,
    };
    proof {
        assert(tree_view(r) =~~= tree_view(*n));
    }
    r
}

/// Copies a node list, keeping its ghost mirrors.
fn clone_nodes(nodes: &Vec<TreeNode>) -> (r: Vec<TreeNode>)
    ensures
        tree_views(r@) == tree_views(nodes@),
    decreases *nodes,
{
    let mut out: Vec<TreeNode> = Vec::new();
    let mut i: usize = 0;
    proof {
        lemma_tree_views_index(nodes@);
    }
    while i < nodes.len()
        invariant
            i <= nodes.len(),
            out@.len() == i,
            tree_views(nodes@).len() == nodes@.len(),
            tree_views(out@).len() == i,
            forall|k: int|
                0 <= k < i ==> #[trigger] tree_views(out@)[k] == tree_views(nodes@)[k],
        decreases nodes.len() - i,
    {
        let c = clone_node(&nodes[i]);
        let ghost prev = out@;
        out.push(c);
        proof {
            lemma_tree_views_index(prev);
            lemma_tree_views_index(out@);
            lemma_tree_views_index(nodes@);
            assert forall|k: int|
                0 <= k < i + 1 implies #[trigger] tree_views(out@)[k] == tree_views(nodes@)[k] by {
                assert(tree_views(out@)[k] == tree_view(out@[k]));
                if k < i {
                    assert(out@[k] == prev[k]);
                    assert(tree_views(prev)[k] == tree_view(prev[k]));
                } else {
                    assert(out@[k] == c);
                }
            }
        }
        i += 1;
    }
    proof {
        lemma_tree_views_index(out@);
        assert(tree_views(out@) =~= tree_views(nodes@));
    }
    out
}

/// Re-applies a persisted lock pattern: marks locked every node whose path
/// is `path` or lies below it, without descending into marked subtrees.
/// Returns whether the node itself matched.
pub fn restore_locked(node: &mut TreeNode, path: &GuardPath) -> (r: bool)
    ensures
        tree_view(*final(node)) == restore_locked_view(tree_view(*old(node)), path@),
        r == path_match_at_or_below(old(node).path@, path@),
{
    let matched = node.path.eq_path(path) || node.path.starts_with(path);
    let rebuilt = restore_locked_node(&*node, path);
    *node = rebuilt;
    matched
}

/// The subtree after an unlock at `p`: a node matching `p` (exactly, or at
/// or below `p` when `exact` is false) loses all its locks; other nodes keep
/// their flags and their children are searched.
pub open spec fn unlock_at_view(t: TreeView, p: Seq<Seq<char>>, exact: bool) -> TreeView
    decreases t,
{
    if (if exact {
        t.path == p
    } else {
        path_match_at_or_below(t.path, p)
    }) {
        unlock_view(t)
    } else {
        TreeView {
            path: t.path,
            name: t.name,
            is_dir: t.is_dir,
            is_expanded: t.is_expanded,
            is_locked: t.is_locked,
            allow_create_in_locked: t.allow_create_in_locked,
            depth: t.depth,
            children: unlock_at_views(t.children, p, exact),
        }
    }
}

/// `unlock_at_view` applied to each element.
pub open spec fn unlock_at_views(s: Seq<TreeView>, p: Seq<Seq<char>>, exact: bool) -> Seq<TreeView>
    decreases s,
{
    if s.len() == 0 {
        Seq::empty()
    } else {
        seq![unlock_at_view(s[0], p, exact)] + unlock_at_views(s.drop_first(), p, exact)
    }
}

/// Pointwise description of `unlock_at_views`.
pub proof fn lemma_unlock_at_views_index(s: Seq<TreeView>, p: Seq<Seq<char>>, exact: bool)
    ensures
        unlock_at_views(s, p, exact).len() == s.len(),
        forall|i: int|
            0 <= i < s.len() ==> #[trigger] unlock_at_views(s, p, exact)[i] == unlock_at_view(
                s[i],
                p,
                exact,
            ),
    decreases s,
{
    if s.len() > 0 {
        lemma_unlock_at_views_index(s.drop_first(), p, exact);
        assert forall|i: int|
            0 <= i < s.len() implies #[trigger] unlock_at_views(s, p, exact)[i] == unlock_at_view(
            s[i],
            p,
            exact,
        ) by {
            if i > 0 {
                assert(unlock_at_views(s, p, exact)[i] == unlock_at_views(
                    s.drop_first(),
                    p,
                    exact,
                )[i - 1]);
                assert(s.drop_first()[i - 1] == s[i]);
            }
        }
    }
}

fn unlock_at_node(n: &TreeNode, p: &GuardPath, exact: bool) -> (r: TreeNode)
    ensures
        tree_view(r) == unlock_at_view(tree_view(*n), p@, exact),
    decreases *n,
{
    let matched = if exact {
        n.path.eq_path(p)
    } else {
        n.path.eq_path(p) || n.path.starts_with(p)
    };
    if matched {
        let r = unlock_node(n);
        proof {
            assert(tree_view(r) =~~= unlock_at_view(tree_view(*n), p@, exact));
        }
        r
    } else {
        let children = unlock_at_nodes(&n.children, p, exact);
        let r = TreeNode {
            path: n.path.clone(),
            name: n.name.clone(),
            is_dir: n.is_dir,
            is_expanded: n.is_expanded,
            is_locked: n.is_locked,
            allow_create_in_locked: n.allow_create_in_locked,
            children,
            depth: n.depth,
        };
        proof {
            assert(tree_view(r) =~~= unlock_at_view(tree_view(*n), p@, exact));
        }
        r
    }
}

fn unlock_at_nodes(nodes: &Vec<TreeNode>, p: &GuardPath, exact: bool) -> (r: Vec<TreeNode>)
    ensures
        tree_views(r@) == unlock_at_views(tree_views(nodes@), p@, exact),
    decreases *nodes,
{
    let mut out: Vec<TreeNode> = Vec::new();
    let mut i: usize = 0;
    proof {
        lemma_tree_views_index(nodes@);
        lemma_unlock_at_views_index(tree_views(nodes@), p@, exact);
    }
    while i < nodes.len()
        invariant
            i <= nodes.len(),
            out@.len() == i,
            tree_views(nodes@).len() == nodes@.len(),
            unlock_at_views(tree_views(nodes@), p@, exact).len() == nodes@.len(),
            tree_views(out@).len() == i,
            forall|k: int|
                0 <= k < i ==> #[trigger] tree_views(out@)[k] == unlock_at_views(
                    tree_views(nodes@),
                    p@,
                    exact,
                )[k],
        decreases nodes.len() - i,
    {
        let c = unlock_at_node(&nodes[i], p, exact);
        let ghost prev = out@;
        out.push(c);
        proof {
            lemma_tree_views_index(prev);
            lemma_tree_views_index(out@);
            lemma_tree_views_index(nodes@);
            lemma_unlock_at_views_index(tree_views(nodes@), p@, exact);
            assert forall|k: int|
                0 <= k < i + 1 implies #[trigger] tree_views(out@)[k] == unlock_at_views(
                tree_views(nodes@),
                p@,
                exact,
            )[k] by {
                assert(tree_views(out@)[k] == tree_view(out@[k]));
                if k < i {
                    assert(out@[k] == prev[k]);
                    assert(tree_views(prev)[k] == tree_view(prev[k]));
                } else {
                    assert(out@[k] == c);
                }
            }
        }
        i += 1;
    }
    proof {
        lemma_tree_views_index(out@);
        assert(tree_views(out@) =~= unlock_at_views(tree_views(nodes@), p@, exact));
    }
    out
}

/// Re-applies a persisted unlock pattern: every node at or below `path`
/// loses its lock and allow-create flags, children included. Returns whether
/// the node itself matched.
pub fn restore_unlocked(node: &mut TreeNode, path: &GuardPath) -> (r: bool)
    ensures
        tree_view(*final(node)) == unlock_at_view(tree_view(*old(node)), path@, false),
        r == path_match_at_or_below(old(node).path@, path@),
{
    let matched = node.path.eq_path(path) || node.path.starts_with(path);
    let rebuilt = unlock_at_node(&*node, path, false);
    *node = rebuilt;
    matched
}

/// Unlocks the node whose path is exactly `path`, together with its whole
/// subtree.
pub fn unlock_path(node: &mut TreeNode, path: &GuardPath)
    ensures
        tree_view(*final(node)) == unlock_at_view(tree_view(*old(node)), path@, true),
{
    let rebuilt = unlock_at_node(&*node, path, true);
    *node = rebuilt;
}

/// A single-node edit applied at one path of the tree.
#[derive(Clone, Copy)]
pub enum NodeEdit {
    /// Mark a locked directory as allowing creation.
    RestoreAllowCreate,
    /// Mark a directory as expanded.
    RestoreExpanded,
    /// Flip a directory's expansion.
    ToggleExpand,
    /// Flip a locked directory's allow-create flag.
    ToggleCreate,
}

/// Whether the edit applies at this node.
pub open spec fn edit_match(t: TreeView, p: Seq<Seq<char>>, op: NodeEdit) -> bool {
    match op {
        NodeEdit::RestoreAllowCreate => t.path == p && t.is_dir && t.is_locked,
        NodeEdit::RestoreExpanded => t.path == p && t.is_dir,
        NodeEdit::ToggleExpand => t.path == p,
        NodeEdit::ToggleCreate => t.path == p,
    }
}

/// The node after the edit; children are untouched.
pub open spec fn edit_apply(t: TreeView, op: NodeEdit) -> TreeView {
    match op {
        NodeEdit::RestoreAllowCreate => TreeView { allow_create_in_locked: true, ..t },
        NodeEdit::RestoreExpanded => TreeView { is_expanded: true, ..t },
        NodeEdit::ToggleExpand => if t.is_dir {
            TreeView { is_expanded: !t.is_expanded, ..t }
        } else {
            t
        },
        NodeEdit::ToggleCreate => if t.is_dir && t.is_locked {
            TreeView { allow_create_in_locked: !t.allow_create_in_locked, ..t }
        } else {
            t
        },
    }
}

/// The subtree after applying the edit at every node matching `p`; a matched
/// node's children are not descended into.
pub open spec fn edit_at_view(t: TreeView, p: Seq<Seq<char>>, op: NodeEdit) -> TreeView
    decreases t,
{
    if edit_match(t, p, op) {
        edit_apply(t, op)
    } else {
        TreeView {
            path: t.path,
            name: t.name,
            is_dir: t.is_dir,
            is_expanded: t.is_expanded,
            is_locked: t.is_locked,
            allow_create_in_locked: t.allow_create_in_locked,
            depth: t.depth,
            children: edit_at_views(t.children, p, op),
        }
    }
}

/// `edit_at_view` applied to each element.
pub open spec fn edit_at_views(s: Seq<TreeView>, p: Seq<Seq<char>>, op: NodeEdit) -> Seq<TreeView>
    decreases s,
{
    if s.len() == 0 {
        Seq::empty()
    } else {
        seq![edit_at_view(s[0], p, op)] + edit_at_views(s.drop_first(), p, op)
    }
}

/// Whether the edit finds a matching node in the subtree.
pub open spec fn edit_found(t: TreeView, p: Seq<Seq<char>>, op: NodeEdit) -> bool
    decreases t,
{
    if edit_match(t, p, op) {
        true
    } else {
        edit_founds(t.children, p, op)
    }
}

/// Whether the edit finds a matching node under any element.
pub open spec fn edit_founds(s: Seq<TreeView>, p: Seq<Seq<char>>, op: NodeEdit) -> bool
    decreases s,
{
    if s.len() == 0 {
        false
    } else {
        edit_found(s[0], p, op) || edit_founds(s.drop_first(), p, op)
    }
}

/// Pointwise description of `edit_at_views`.
pub proof fn lemma_edit_at_views_index(s: Seq<TreeView>, p: Seq<Seq<char>>, op: NodeEdit)
    ensures
        edit_at_views(s, p, op).len() == s.len(),
        forall|i: int|
            0 <= i < s.len() ==> #[trigger] edit_at_views(s, p, op)[i] == edit_at_view(s[i], p, op),
    decreases s,
{
    if s.len() > 0 {
        lemma_edit_at_views_index(s.drop_first(), p, op);
        assert forall|i: int|
            0 <= i < s.len() implies #[trigger] edit_at_views(s, p, op)[i] == edit_at_view(
            s[i],
            p,
            op,
        ) by {
            if i > 0 {
                assert(edit_at_views(s, p, op)[i] == edit_at_views(s.drop_first(), p, op)[i - 1]);
                assert(s.drop_first()[i - 1] == s[i]);
            }
        }
    }
}

proof fn lemma_edit_founds_take(s: Seq<TreeView>, p: Seq<Seq<char>>, op: NodeEdit, i: int)
    requires
        0 <= i < s.len(),
    ensures
        edit_founds(s.take(i + 1), p, op) == (edit_founds(s.take(i), p, op) || edit_found(
            s[i],
            p,
            op,
        )),
    decreases i,
{
    if i == 0 {
        let t1 = s.take(1);
        assert(t1[0] == s[0]);
        assert(t1.drop_first() =~= Seq::<TreeView>::empty());
        assert(edit_founds(s.take(0), p, op) == false);
        assert(edit_founds(t1, p, op) == (edit_found(s[0], p, op) || edit_founds(
            Seq::<TreeView>::empty(),
            p,
            op,
        )));
    } else {
        lemma_edit_founds_take(s.drop_first(), p, op, i - 1);
        assert(s.take(i + 1).drop_first() =~= s.drop_first().take(i));
        assert(s.take(i).drop_first() =~= s.drop_first().take(i - 1));
        assert(s.take(i + 1)[0] == s[0]);
        assert(s.take(i)[0] == s[0]);
        assert(s.drop_first()[i - 1] == s[i]);
        assert(edit_founds(s.take(i + 1), p, op) == (edit_found(s[0], p, op) || edit_founds(
            s.drop_first().take(i),
            p,
            op,
        )));
        assert(edit_founds(s.take(i), p, op) == (edit_found(s[0], p, op) || edit_founds(
            s.drop_first().take(i - 1),
            p,
            op,
        )));
        assert(edit_founds(s.drop_first().take(i), p, op) == (edit_founds(
            s.drop_first().take(i - 1),
            p,
            op,
        ) || edit_found(s[i], p, op)));
    }
}

fn edit_at_node(n: &TreeNode, p: &GuardPath, op: NodeEdit) -> (r: (TreeNode, bool))
    ensures
        tree_view(r.0) == edit_at_view(tree_view(*n), p@, op),
        r.1 == edit_found(tree_view(*n), p@, op),
    decreases *n,
{
    let matched = match op {
        NodeEdit::RestoreAllowCreate => n.path.eq_path(p) && n.is_dir && n.is_locked,
        NodeEdit::RestoreExpanded => n.path.eq_path(p) && n.is_dir,
        NodeEdit::ToggleExpand => n.path.eq_path(p),
        NodeEdit::ToggleCreate => n.path.eq_path(p),
    };
    if matched {
        let (is_expanded, is_locked, allow_create) = match op {
            NodeEdit::RestoreAllowCreate => (n.is_expanded, n.is_locked, true),
            NodeEdit::RestoreExpanded => (true, n.is_locked, n.allow_create_in_locked),
            NodeEdit::ToggleExpand => (
                if n.is_dir {
                    !n.is_expanded
                } else {
                    n.is_expanded
                },
                n.is_locked,
                n.allow_create_in_locked,
            ),
            NodeEdit::ToggleCreate => (
                n.is_expanded,
                n.is_locked,
                if n.is_dir && n.is_locked {
                    !n.allow_create_in_locked
                } else {
                    n.allow_create_in_locked
                },
            ),
        };
        let r = TreeNode {
            path: n.path.clone(),
            name: n.name.clone(),
            is_dir: n.is_dir,
            is_expanded,
            is_locked,
            allow_create_in_locked: allow_create,
            children: clone_nodes(&n.children),
            depth: n.depth,
        };
        proof {
            assert(tree_view(r) =~~= edit_at_view(tree_view(*n), p@, op));
        }
        (r, true)
    } else {
        let (children, found) = edit_at_nodes(&n.children, p, op);
        let r = TreeNode {
            path: n.path.clone(),
            name: n.name.clone(),
            is_dir: n.is_dir,
            is_expanded: n.is_expanded,
            is_locked: n.is_locked,
            allow_create_in_locked: n.allow_create_in_locked,
            children,
            depth: n.depth,
        };
        proof {
            assert(tree_view(r) =~~= edit_at_view(tree_view(*n), p@, op));
        }
        (r, found)
    }
}

fn edit_at_nodes(nodes: &Vec<TreeNode>, p: &GuardPath, op: NodeEdit) -> (r: (Vec<TreeNode>, bool))
    ensures
        tree_views(r.0@) == edit_at_views(tree_views(nodes@), p@, op),
        r.1 == edit_founds(tree_views(nodes@), p@, op),
    decreases *nodes,
{
    let mut out: Vec<TreeNode> = Vec::new();
    let mut any = false;
    let mut i: usize = 0;
    proof {
        lemma_tree_views_index(nodes@);
        lemma_edit_at_views_index(tree_views(nodes@), p@, op);
        assert(tree_views(nodes@).take(0) =~= Seq::<TreeView>::empty());
    }
    while i < nodes.len()
        invariant
            i <= nodes.len(),
            out@.len() == i,
            tree_views(nodes@).len() == nodes@.len(),
            edit_at_views(tree_views(nodes@), p@, op).len() == nodes@.len(),
            tree_views(out@).len() == i,
            forall|k: int|
                0 <= k < i ==> #[trigger] tree_views(out@)[k] == edit_at_views(
                    tree_views(nodes@),
                    p@,
                    op,
                )[k],
            any == edit_founds(tree_views(nodes@).take(i as int), p@, op),
        decreases nodes.len() - i,
    {
        let (c, found) = edit_at_node(&nodes[i], p, op);
        let ghost prev = out@;
        out.push(c);
        if found {
            any = true;
        }
        proof {
            lemma_tree_views_index(prev);
            lemma_tree_views_index(out@);
            lemma_tree_views_index(nodes@);
            lemma_edit_at_views_index(tree_views(nodes@), p@, op);
            lemma_edit_founds_take(tree_views(nodes@), p@, op, i as int);
            assert forall|k: int|
                0 <= k < i + 1 implies #[trigger] tree_views(out@)[k] == edit_at_views(
                tree_views(nodes@),
                p@,
                op,
            )[k] by {
                assert(tree_views(out@)[k] == tree_view(out@[k]));
                if k < i {
                    assert(out@[k] == prev[k]);
                    assert(tree_views(prev)[k] == tree_view(prev[k]));
                } else {
                    assert(out@[k] == c);
                }
            }
        }
        i += 1;
    }
    proof {
        lemma_tree_views_index(out@);
        assert(tree_views(out@) =~= edit_at_views(tree_views(nodes@), p@, op));
        assert(tree_views(nodes@).take(nodes@.len() as int) =~= tree_views(nodes@));
    }
    (out, any)
}

/// Marks the locked directory at exactly `path` as allowing creation.
/// Returns whether such a node was found.
pub fn restore_allow_create(node: &mut TreeNode, path: &GuardPath) -> (r: bool)
    ensures
        tree_view(*final(node)) == edit_at_view(
            tree_view(*old(node)),
            path@,
            NodeEdit::RestoreAllowCreate,
        ),
        r == edit_found(tree_view(*old(node)), path@, NodeEdit::RestoreAllowCreate),
{
    let (rebuilt, found) = edit_at_node(&*node, path, NodeEdit::RestoreAllowCreate);
    *node = rebuilt;
    found
}

/// Marks the directory at exactly `path` as expanded. Returns whether such a
/// node was found.
pub fn restore_expanded(node: &mut TreeNode, path: &GuardPath) -> (r: bool)
    ensures
        tree_view(*final(node)) == edit_at_view(
            tree_view(*old(node)),
            path@,
            NodeEdit::RestoreExpanded,
        ),
        r == edit_found(tree_view(*old(node)), path@, NodeEdit::RestoreExpanded),
{
    let (rebuilt, found) = edit_at_node(&*node, path, NodeEdit::RestoreExpanded);
    *node = rebuilt;
    found
}

/// Flips expansion of the directory at exactly `path`. Returns whether such
/// a node was found.
pub fn toggle_expand_at_path(node: &mut TreeNode, target_path: &GuardPath) -> (r: bool)
    ensures
        tree_view(*final(node)) == edit_at_view(
            tree_view(*old(node)),
            target_path@,
            NodeEdit::ToggleExpand,
        ),
        r == edit_found(tree_view(*old(node)), target_path@, NodeEdit::ToggleExpand),
{
    let (rebuilt, found) = edit_at_node(&*node, target_path, NodeEdit::ToggleExpand);
    *node = rebuilt;
    found
}

/// Flips the allow-create flag of the locked directory at exactly `path`.
/// Returns whether such a node was found.
pub fn toggle_create_in_locked_at_path(node: &mut TreeNode, target_path: &GuardPath) -> (r: bool)
    ensures
        tree_view(*final(node)) == edit_at_view(
            tree_view(*old(node)),
            target_path@,
            NodeEdit::ToggleCreate,
        ),
        r == edit_found(tree_view(*old(node)), target_path@, NodeEdit::ToggleCreate),
{
    let (rebuilt, found) = edit_at_node(&*node, target_path, NodeEdit::ToggleCreate);
    *node = rebuilt;
    found
}

/// The subtree after locking the node at exactly `p` together with all its
/// children; ancestors of `p` are searched, unrelated branches are kept.
pub open spec fn lock_path_view(t: TreeView, p: Seq<Seq<char>>) -> TreeView
    decreases t,
{
    if t.path == p {
        TreeView {
            path: t.path,
            name: t.name,
            is_dir: t.is_dir,
            is_expanded: t.is_expanded,
            is_locked: true,
            allow_create_in_locked: t.allow_create_in_locked,
            depth: t.depth,
            children: lock_views(t.children),
        }
    } else if t.path.is_prefix_of(p) {
        TreeView {
            path: t.path,
            name: t.name,
            is_dir: t.is_dir,
            is_expanded: t.is_expanded,
            is_locked: t.is_locked,
            allow_create_in_locked: t.allow_create_in_locked,
            depth: t.depth,
            children: lock_path_views(t.children, p),
        }
    } else {
        t
    }
}

/// `lock_path_view` applied to each element.
pub open spec fn lock_path_views(s: Seq<TreeView>, p: Seq<Seq<char>>) -> Seq<TreeView>
    decreases s,
{
    if s.len() == 0 {
        Seq::empty()
    } else {
        seq![lock_path_view(s[0], p)] + lock_path_views(s.drop_first(), p)
    }
}

/// Pointwise description of `lock_path_views`.
pub proof fn lemma_lock_path_views_index(s: Seq<TreeView>, p: Seq<Seq<char>>)
    ensures
        lock_path_views(s, p).len() == s.len(),
        forall|i: int|
            0 <= i < s.len() ==> #[trigger] lock_path_views(s, p)[i] == lock_path_view(s[i], p),
    decreases s,
{
    if s.len() > 0 {
        lemma_lock_path_views_index(s.drop_first(), p);
        assert forall|i: int|
            0 <= i < s.len() implies #[trigger] lock_path_views(s, p)[i] == lock_path_view(
            s[i],
            p,
        ) by {
            if i > 0 {
                assert(lock_path_views(s, p)[i] == lock_path_views(s.drop_first(), p)[i - 1]);
                assert(s.drop_first()[i - 1] == s[i]);
            }
        }
    }
}

fn lock_path_node(n: &TreeNode, p: &GuardPath) -> (r: TreeNode)
    ensures
        tree_view(r) == lock_path_view(tree_view(*n), p@),
    decreases *n,
{
    if n.path.eq_path(p) {
        let r = TreeNode {
            path: n.path.clone(),
            name: n.name.clone(),
            is_dir: n.is_dir,
            is_expanded: n.is_expanded,
            is_locked: true,
            allow_create_in_locked: n.allow_create_in_locked,
            children: lock_nodes(&n.children),
            depth: n.depth,
        };
        proof {
            assert(tree_view(r) =~~= lock_path_view(tree_view(*n), p@));
        }
        r
    } else if p.starts_with(&n.path) {
        let children = lock_path_nodes(&n.children, p);
        let r = TreeNode {
            path: n.path.clone(),
            name: n.name.clone(),
            is_dir: n.is_dir,
            is_expanded: n.is_expanded,
            is_locked: n.is_locked,
            allow_create_in_locked: n.allow_create_in_locked,
            children,
            depth: n.depth,
        };
        proof {
            assert(tree_view(r) =~~= lock_path_view(tree_view(*n), p@));
        }
        r
    } else {
        let r = clone_node(n);
        proof {
            assert(tree_view(r) =~~= lock_path_view(tree_view(*n), p@));
        }
        r
    }
}

fn lock_path_nodes(nodes: &Vec<TreeNode>, p: &GuardPath) -> (r: Vec<TreeNode>)
    ensures
        tree_views(r@) == lock_path_views(tree_views(nodes@), p@),
    decreases *nodes,
{
    let mut out: Vec<TreeNode> = Vec::new();
    let mut i: usize = 0;
    proof {
        lemma_tree_views_index(nodes@);
        lemma_lock_path_views_index(tree_views(nodes@), p@);
    }
    while i < nodes.len()
        invariant
            i <= nodes.len(),
            out@.len() == i,
            tree_views(nodes@).len() == nodes@.len(),
            lock_path_views(tree_views(nodes@), p@).len() == nodes@.len(),
            tree_views(out@).len() == i,
            forall|k: int|
                0 <= k < i ==> #[trigger] tree_views(out@)[k] == lock_path_views(
                    tree_views(nodes@),
                    p@,
                )[k],
        decreases nodes.len() - i,
    {
        let c = lock_path_node(&nodes[i], p);
        let ghost prev = out@;
        out.push(c);
        proof {
            lemma_tree_views_index(prev);
            lemma_tree_views_index(out@);
            lemma_tree_views_index(nodes@);
            lemma_lock_path_views_index(tree_views(nodes@), p@);
            assert forall|k: int|
                0 <= k < i + 1 implies #[trigger] tree_views(out@)[k] == lock_path_views(
                tree_views(nodes@),
                p@,
            )[k] by {
                assert(tree_views(out@)[k] == tree_view(out@[k]));
                if k < i {
                    assert(out@[k] == prev[k]);
                    assert(tree_views(prev)[k] == tree_view(prev[k]));
                } else {
                    assert(out@[k] == c);
                }
            }
        }
        i += 1;
    }
    proof {
        lemma_tree_views_index(out@);
        assert(tree_views(out@) =~= lock_path_views(tree_views(nodes@), p@));
    }
    out
}

/// Locks the node at exactly `path` together with its whole subtree.
pub fn lock_path_and_children(node: &mut TreeNode, path: &GuardPath)
    ensures
        tree_view(*final(node)) == lock_path_view(tree_view(*old(node)), path@),
{
    let rebuilt = lock_path_node(&*node, path);
    *node = rebuilt;
}

/// The subtree after marking expanded every node whose path is exactly `p`,
/// descending everywhere.
pub open spec fn expand_at_view(t: TreeView, p: Seq<Seq<char>>) -> TreeView
    decreases t,
{
    TreeView {
        path: t.path,
        name: t.name,
        is_dir: t.is_dir,
        is_expanded: t.is_expanded || t.path == p,
        is_locked: t.is_locked,
        allow_create_in_locked: t.allow_create_in_locked,
        depth: t.depth,
        children: expand_at_views(t.children, p),
    }
}

/// `expand_at_view` applied to each element.
pub open spec fn expand_at_views(s: Seq<TreeView>, p: Seq<Seq<char>>) -> Seq<TreeView>
    decreases s,
{
    if s.len() == 0 {
        Seq::empty()
    } else {
        seq![expand_at_view(s[0], p)] + expand_at_views(s.drop_first(), p)
    }
}

/// Pointwise description of `expand_at_views`.
pub proof fn lemma_expand_at_views_index(s: Seq<TreeView>, p: Seq<Seq<char>>)
    ensures
        expand_at_views(s, p).len() == s.len(),
        forall|i: int|
            0 <= i < s.len() ==> #[trigger] expand_at_views(s, p)[i] == expand_at_view(s[i], p),
    decreases s,
{
    if s.len() > 0 {
        lemma_expand_at_views_index(s.drop_first(), p);
        assert forall|i: int|
            0 <= i < s.len() implies #[trigger] expand_at_views(s, p)[i] == expand_at_view(
            s[i],
            p,
        ) by {
            if i > 0 {
                assert(expand_at_views(s, p)[i] == expand_at_views(s.drop_first(), p)[i - 1]);
                assert(s.drop_first()[i - 1] == s[i]);
            }
        }
    }
}

fn expand_at_node(n: &TreeNode, p: &GuardPath) -> (r: TreeNode)
    ensures
        tree_view(r) == expand_at_view(tree_view(*n), p@),
    decreases *n,
{
    let matched = n.path.eq_path(p);
    let children = expand_at_nodes(&n.children, p);
    let r = TreeNode {
        path: n.path.clone(),
        name: n.name.clone(),
        is_dir: n.is_dir,
        is_expanded: n.is_expanded || matched,
        is_locked: n.is_locked,
        allow_create_in_locked: n.allow_create_in_locked,
        children,
        depth: n.depth,
    };
    proof {
        assert(tree_view(r) =~~= expand_at_view(tree_view(*n), p@));
    }
    r
}

fn expand_at_nodes(nodes: &Vec<TreeNode>, p: &GuardPath) -> (r: Vec<TreeNode>)
    ensures
        tree_views(r@) == expand_at_views(tree_views(nodes@), p@),
    decreases *nodes,
{
    let mut out: Vec<TreeNode> = Vec::new();
    let mut i: usize = 0;
    proof {
        lemma_tree_views_index(nodes@);
        lemma_expand_at_views_index(tree_views(nodes@), p@);
    }
    while i < nodes.len()
        invariant
            i <= nodes.len(),
            out@.len() == i,
            tree_views(nodes@).len() == nodes@.len(),
            expand_at_views(tree_views(nodes@), p@).len() == nodes@.len(),
            tree_views(out@).len() == i,
            forall|k: int|
                0 <= k < i ==> #[trigger] tree_views(out@)[k] == expand_at_views(
                    tree_views(nodes@),
                    p@,
                )[k],
        decreases nodes.len() - i,
    {
        let c = expand_at_node(&nodes[i], p);
        let ghost prev = out@;
        out.push(c);
        proof {
            lemma_tree_views_index(prev);
            lemma_tree_views_index(out@);
            lemma_tree_views_index(nodes@);
            lemma_expand_at_views_index(tree_views(nodes@), p@);
            assert forall|k: int|
                0 <= k < i + 1 implies #[trigger] tree_views(out@)[k] == expand_at_views(
                tree_views(nodes@),
                p@,
            )[k] by {
                assert(tree_views(out@)[k] == tree_view(out@[k]));
                if k < i {
                    assert(out@[k] == prev[k]);
                    assert(tree_views(prev)[k] == tree_view(prev[k]));
                } else {
                    assert(out@[k] == c);
                }
            }
        }
        i += 1;
    }
    proof {
        lemma_tree_views_index(out@);
        assert(tree_views(out@) =~= expand_at_views(tree_views(nodes@), p@));
    }
    out
}

/// Marks expanded every node whose path is exactly `path`, everywhere in the
/// tree.
pub fn restore_expanded_state(node: &mut TreeNode, path: &GuardPath)
    ensures
        tree_view(*final(node)) == expand_at_view(tree_view(*old(node)), path@),
{
    let rebuilt = expand_at_node(&*node, path);
    *node = rebuilt;
}

/// The explicitly locked entries of a subtree: nodes locked while their
/// parent is not, as `(path, is_dir)` pairs in depth-first order.
pub open spec fn collect_locked_view(t: TreeView, parent_locked: bool) -> Seq<
    (Seq<Seq<char>>, bool),
>
    decreases t,
{
    (if t.is_locked && !parent_locked {
        seq![(t.path, t.is_dir)]
    } else {
        Seq::empty()
    }) + collect_locked_views(t.children, t.is_locked || parent_locked)
}

/// `collect_locked_view` over a node list.
pub open spec fn collect_locked_views(s: Seq<TreeView>, parent_locked: bool) -> Seq<
    (Seq<Seq<char>>, bool),
>
    decreases s,
{
    if s.len() == 0 {
        Seq::empty()
    } else {
        collect_locked_view(s[0], parent_locked) + collect_locked_views(
            s.drop_first(),
            parent_locked,
        )
    }
}

/// The unlocked directories sitting under a locked parent, as
/// `(path, true)` pairs in depth-first order.
pub open spec fn collect_unlocked_view(t: TreeView, parent_locked: bool) -> Seq<
    (Seq<Seq<char>>, bool),
>
    decreases t,
{
    (if !t.is_locked && parent_locked && t.is_dir {
        seq![(t.path, true)]
    } else {
        Seq::empty()
    }) + collect_unlocked_views(t.children, t.is_locked || parent_locked)
}

/// `collect_unlocked_view` over a node list.
pub open spec fn collect_unlocked_views(s: Seq<TreeView>, parent_locked: bool) -> Seq<
    (Seq<Seq<char>>, bool),
>
    decreases s,
{
    if s.len() == 0 {
        Seq::empty()
    } else {
        collect_unlocked_view(s[0], parent_locked) + collect_unlocked_views(
            s.drop_first(),
            parent_locked,
        )
    }
}

/// The locked directories that allow creation, as `(path, true)` pairs in
/// depth-first order.
pub open spec fn collect_allow_view(t: TreeView) -> Seq<(Seq<Seq<char>>, bool)>
    decreases t,
{
    (if t.is_dir && t.allow_create_in_locked && t.is_locked {
        seq![(t.path, true)]
    } else {
        Seq::empty()
    }) + collect_allow_views(t.children)
}

/// `collect_allow_view` over a node list.
pub open spec fn collect_allow_views(s: Seq<TreeView>) -> Seq<(Seq<Seq<char>>, bool)>
    decreases s,
{
    if s.len() == 0 {
        Seq::empty()
    } else {
        collect_allow_view(s[0]) + collect_allow_views(s.drop_first())
    }
}

proof fn lemma_collect_locked_views_take(s: Seq<TreeView>, pl: bool, i: int)
    requires
        0 <= i < s.len(),
    ensures
        collect_locked_views(s.take(i + 1), pl) == collect_locked_views(s.take(i), pl)
            + collect_locked_view(s[i], pl),
    decreases i,
{
    if i == 0 {
        let t1 = s.take(1);
        assert(t1[0] == s[0]);
        assert(t1.drop_first() =~= Seq::<TreeView>::empty());
        assert(collect_locked_views(s.take(0), pl) =~= Seq::<(Seq<Seq<char>>, bool)>::empty());
        assert(t1.drop_first() =~= s.take(0));
        assert(collect_locked_views(t1, pl) == collect_locked_view(t1[0], pl) + collect_locked_views(t1.drop_first(), pl));
        assert(collect_locked_views(t1, pl) =~= collect_locked_views(s.take(0), pl)
            + collect_locked_view(s[0], pl));
    } else {
        lemma_collect_locked_views_take(s.drop_first(), pl, i - 1);
        assert(s.take(i + 1).drop_first() =~= s.drop_first().take(i));
        assert(s.take(i).drop_first() =~= s.drop_first().take(i - 1));
        assert(s.take(i + 1)[0] == s[0]);
        assert(s.take(i)[0] == s[0]);
        assert(s.drop_first()[i - 1] == s[i]);
        assert(collect_locked_view(s[0], pl) + (collect_locked_views(s.drop_first().take(i - 1), pl)
            + collect_locked_view(s[i], pl)) =~= (collect_locked_view(s[0], pl)
            + collect_locked_views(s.drop_first().take(i - 1), pl)) + collect_locked_view(
            s[i],
            pl,
        ));
    }
}

proof fn lemma_collect_unlocked_views_take(s: Seq<TreeView>, pl: bool, i: int)
    requires
        0 <= i < s.len(),
    ensures
        collect_unlocked_views(s.take(i + 1), pl) == collect_unlocked_views(s.take(i), pl)
            + collect_unlocked_view(s[i], pl),
    decreases i,
{
    if i == 0 {
        let t1 = s.take(1);
        assert(t1[0] == s[0]);
        assert(t1.drop_first() =~= Seq::<TreeView>::empty());
        assert(collect_unlocked_views(s.take(0), pl) =~= Seq::<(Seq<Seq<char>>, bool)>::empty());
        assert(t1.drop_first() =~= s.take(0));
        assert(collect_unlocked_views(t1, pl) == collect_unlocked_view(t1[0], pl) + collect_unlocked_views(t1.drop_first(), pl));
        assert(collect_unlocked_views(t1, pl) =~= collect_unlocked_views(s.take(0), pl)
            + collect_unlocked_view(s[0], pl));
    } else {
        lemma_collect_unlocked_views_take(s.drop_first(), pl, i - 1);
        assert(s.take(i + 1).drop_first() =~= s.drop_first().take(i));
        assert(s.take(i).drop_first() =~= s.drop_first().take(i - 1));
        assert(s.take(i + 1)[0] == s[0]);
        assert(s.take(i)[0] == s[0]);
        assert(s.drop_first()[i - 1] == s[i]);
        assert(collect_unlocked_view(s[0], pl) + (collect_unlocked_views(
            s.drop_first().take(i - 1),
            pl,
        ) + collect_unlocked_view(s[i], pl)) =~= (collect_unlocked_view(s[0], pl)
            + collect_unlocked_views(s.drop_first().take(i - 1), pl)) + collect_unlocked_view(
            s[i],
            pl,
        ));
    }
}

proof fn lemma_collect_allow_views_take(s: Seq<TreeView>, i: int)
    requires
        0 <= i < s.len(),
    ensures
        collect_allow_views(s.take(i + 1)) == collect_allow_views(s.take(i)) + collect_allow_view(
            s[i],
        ),
    decreases i,
{
    if i == 0 {
        let t1 = s.take(1);
        assert(t1[0] == s[0]);
        assert(t1.drop_first() =~= Seq::<TreeView>::empty());
        assert(collect_allow_views(s.take(0)) =~= Seq::<(Seq<Seq<char>>, bool)>::empty());
        assert(t1.drop_first() =~= s.take(0));
        assert(collect_allow_views(t1) == collect_allow_view(t1[0]) + collect_allow_views(t1.drop_first()));
        assert(collect_allow_views(t1) =~= collect_allow_views(s.take(0)) + collect_allow_view(
            s[0],
        ));
    } else {
        lemma_collect_allow_views_take(s.drop_first(), i - 1);
        assert(s.take(i + 1).drop_first() =~= s.drop_first().take(i));
        assert(s.take(i).drop_first() =~= s.drop_first().take(i - 1));
        assert(s.take(i + 1)[0] == s[0]);
        assert(s.take(i)[0] == s[0]);
        assert(s.drop_first()[i - 1] == s[i]);
        assert(collect_allow_view(s[0]) + (collect_allow_views(s.drop_first().take(i - 1))
            + collect_allow_view(s[i])) =~= (collect_allow_view(s[0]) + collect_allow_views(
            s.drop_first().take(i - 1),
        )) + collect_allow_view(s[i]));
    }
}

/// Gathers the explicit lock state of a tree: locked entries whose parent is
/// not locked, unlocked directories under locked parents, and allow-create
/// directories.
pub fn collect_lock_info(
    node: &TreeNode,
    locked: &mut Vec<LockRule>,
    allow_create: &mut Vec<LockRule>,
    unlocked: &mut Vec<LockRule>,
)
    ensures
        rule_views(final(locked)@) == rule_views(old(locked)@) + collect_locked_view(
            tree_view(*node),
            false,
        ),
        rule_views(final(allow_create)@) == rule_views(old(allow_create)@) + collect_allow_view(
            tree_view(*node),
        ),
        rule_views(final(unlocked)@) == rule_views(old(unlocked)@) + collect_unlocked_view(
            tree_view(*node),
            false,
        ),
{
    collect_lock_info_impl(node, locked, allow_create, unlocked, false);
}

/// As `collect_lock_info`, under a parent whose lock state is
/// `parent_is_locked`.
pub fn collect_lock_info_impl(
    node: &TreeNode,
    locked: &mut Vec<LockRule>,
    allow_create: &mut Vec<LockRule>,
    unlocked: &mut Vec<LockRule>,
    parent_is_locked: bool,
)
    ensures
        rule_views(final(locked)@) == rule_views(old(locked)@) + collect_locked_view(
            tree_view(*node),
            parent_is_locked,
        ),
        rule_views(final(allow_create)@) == rule_views(old(allow_create)@) + collect_allow_view(
            tree_view(*node),
        ),
        rule_views(final(unlocked)@) == rule_views(old(unlocked)@) + collect_unlocked_view(
            tree_view(*node),
            parent_is_locked,
        ),
    decreases *node,
{
    let ghost t = tree_view(*node);
    let ghost base_l = rule_views(old(locked)@);
    let ghost base_a = rule_views(old(allow_create)@);
    let ghost base_u = rule_views(old(unlocked)@);
    if !node.is_locked && parent_is_locked && node.is_dir {
        push_rule(unlocked, node.path.clone(), true);
    }
    if node.is_locked && !parent_is_locked {
        push_rule(locked, node.path.clone(), node.is_dir);
    }
    if node.is_dir && node.allow_create_in_locked && node.is_locked {
        push_rule(allow_create, node.path.clone(), true);
    }
    let ghost pre_l = (if t.is_locked && !parent_is_locked {
        seq![(t.path, t.is_dir)]
    } else {
        Seq::<(Seq<Seq<char>>, bool)>::empty()
    });
    let ghost pre_a = (if t.is_dir && t.allow_create_in_locked && t.is_locked {
        seq![(t.path, true)]
    } else {
        Seq::<(Seq<Seq<char>>, bool)>::empty()
    });
    let ghost pre_u = (if !t.is_locked && parent_is_locked && t.is_dir {
        seq![(t.path, true)]
    } else {
        Seq::<(Seq<Seq<char>>, bool)>::empty()
    });
    proof {
        assert(rule_views(locked@) =~= base_l + pre_l);
        assert(rule_views(allow_create@) =~= base_a + pre_a);
        assert(rule_views(unlocked@) =~= base_u + pre_u);
        lemma_tree_views_index(node.children@);
    }
    let child_locked = node.is_locked || parent_is_locked;
    let mut i: usize = 0;
    while i < node.children.len()
        invariant
            i <= node.children.len(),
            t == tree_view(*node),
            child_locked == (t.is_locked || parent_is_locked),
            tree_views(node.children@).len() == node.children@.len(),
            forall|k: int|
                0 <= k < node.children@.len() ==> #[trigger] tree_views(node.children@)[k]
                    == tree_view(node.children@[k]),
            rule_views(locked@) == base_l + pre_l + collect_locked_views(
                tree_views(node.children@).take(i as int),
                child_locked,
            ),
            rule_views(allow_create@) == base_a + pre_a + collect_allow_views(
                tree_views(node.children@).take(i as int),
            ),
            rule_views(unlocked@) == base_u + pre_u + collect_unlocked_views(
                tree_views(node.children@).take(i as int),
                child_locked,
            ),
        decreases node.children.len() - i,
    {
        let child: &TreeNode = &node.children[i];
        collect_lock_info_impl(child, locked, allow_create, unlocked, child_locked);
        proof {
            let cv = tree_views(node.children@);
            lemma_collect_locked_views_take(cv, child_locked, i as int);
            lemma_collect_unlocked_views_take(cv, child_locked, i as int);
            lemma_collect_allow_views_take(cv, i as int);
            assert(rule_views(locked@) =~= base_l + pre_l + collect_locked_views(
                cv.take(i as int + 1),
                child_locked,
            ));
            assert(rule_views(allow_create@) =~= base_a + pre_a + collect_allow_views(
                cv.take(i as int + 1),
            ));
            assert(rule_views(unlocked@) =~= base_u + pre_u + collect_unlocked_views(
                cv.take(i as int + 1),
                child_locked,
            ));
        }
        i += 1;
    }
    proof {
        let cv = tree_views(node.children@);
        assert(cv.take(cv.len() as int) =~= cv);
        assert(collect_locked_view(t, parent_is_locked) == pre_l + collect_locked_views(
            cv,
            child_locked,
        ));
        assert(collect_allow_view(t) == pre_a + collect_allow_views(cv));
        assert(collect_unlocked_view(t, parent_is_locked) == pre_u + collect_unlocked_views(
            cv,
            child_locked,
        ));
        assert(rule_views(final(locked)@) =~= base_l + (pre_l + collect_locked_views(
            cv,
            child_locked,
        )));
        assert(rule_views(final(allow_create)@) =~= base_a + (pre_a + collect_allow_views(cv)));
        assert(rule_views(final(unlocked)@) =~= base_u + (pre_u + collect_unlocked_views(
            cv,
            child_locked,
        )));
    }
}

/// A hidden name: it starts with a dot and is neither `.` nor `..`.
pub open spec fn hidden_name(n: Seq<char>) -> bool {
    n.len() > 0 && n[0] == '.' && !(n.len() == 1 && n[0] == '.') && !(n.len() == 2 && n[0] == '.'
        && n[1] == '.')
}

/// Whether one ignore pattern matches the path. `path_str` is the
/// slash-joined absolute-style rendering, `name` the last segment.
pub open spec fn pattern_ignores(
    path_str: Seq<char>,
    name: Option<Seq<char>>,
    pat: Seq<char>,
) -> bool {
    if crate::strutil::has_char(pat, '*') {
        if pat.len() > 0 && pat.last() == '*' {
            name matches Some(n) && pat.drop_last().is_prefix_of(n)
        } else if pat.len() >= 2 && pat[0] == '*' && pat[1] == '.' {
            name matches Some(n) && crate::strutil::ext_of(n) == Some(pat.skip(2))
        } else {
            false
        }
    } else if pat.len() > 0 && pat.last() == '/' {
        crate::strutil::contains_seq(path_str, seq!['/'] + pat) || crate::strutil::contains_seq(
            path_str,
            pat,
        )
    } else {
        (name matches Some(n) && n == pat) || crate::strutil::contains_seq(path_str, pat)
    }
}

/// Whether the path should be left out of the tree: a hidden name while
/// hidden files are off, or any ignore pattern matching.
pub open spec fn should_ignore_spec(
    p: Seq<Seq<char>>,
    pats: Seq<Seq<char>>,
    show_hidden: bool,
) -> bool {
    let path_str = seq!['/'] + crate::strutil::join_segs(p);
    let name = if p.len() > 0 {
        Some(p.last())
    } else {
        None
    };
    (!show_hidden && p.len() > 0 && hidden_name(p.last())) || exists|i: int|
        0 <= i < pats.len() && pattern_ignores(path_str, name, pats[i])
}

/// Decides whether a path is left out of the tree, by the hidden-file rule
/// and the ignore patterns.
pub fn should_ignore(path: &GuardPath, patterns: &Vec<String>, show_hidden: bool) -> (r: bool)
    ensures
        r == should_ignore_spec(path@, patterns.deep_view(), show_hidden),
{
    proof {
        reveal_strlit("/");
    }
    let mut path_str: String = "/".to_owned();
    path_str.append(crate::strutil::join_segments(&path.segs).as_str());
    assert(path_str@ =~= seq!['/'] + crate::strutil::join_segs(path@));
    let name: Option<&String> = path.file_name();
    if !show_hidden {
        match name {
            Some(n) => {
                let nlen = n.as_str().unicode_len();
                if nlen > 0 && n.as_str().get_char(0) == '.' {
                    let is_dot = nlen == 1;
                    let is_dotdot = nlen == 2 && n.as_str().get_char(1) == '.';
                    if !is_dot && !is_dotdot {
                        assert(hidden_name(path@.last()));
                        return true;
                    }
                }
            },
            None => {},
        }
    }
    let ghost pv = patterns.deep_view();
    let ghost nv = (if path@.len() > 0 {
        Some(path@.last())
    } else {
        None
    });
    let mut i: usize = 0;
    while i < patterns.len()
        invariant
            i <= patterns.len(),
            patterns.deep_view() == pv,
            pv.len() == patterns.len(),
            path_str@ == seq!['/'] + crate::strutil::join_segs(path@),
            nv == (if path@.len() > 0 {
                Some(path@.last())
            } else {
                None::<Seq<char>>
            }),
            name is Some <==> path@.len() > 0,
            name is Some ==> name->0@ == path@.last(),
            forall|j: int| 0 <= j < i ==> !pattern_ignores(path_str@, nv, pv[j]),
        decreases patterns.len() - i,
    {
        let pat: &String = &patterns[i];
        assert(pat@ == pv[i as int]);
        let plen = pat.as_str().unicode_len();
        let matched: bool;
        if crate::strutil::str_has_char(pat.as_str(), '*') {
            if plen > 0 && pat.as_str().get_char(plen - 1) == '*' {
                let prefix = pat.as_str().substring_char(0, plen - 1);
                assert(prefix@ =~= pat@.drop_last());
                matched = match name {
                    Some(n) => crate::strutil::str_starts_with(n.as_str(), prefix),
                    None => false,
                };
            } else if plen >= 2 && pat.as_str().get_char(0) == '*' && pat.as_str().get_char(1)
                == '.' {
                let ext_pat = pat.as_str().substring_char(2, plen);
                assert(ext_pat@ =~= pat@.skip(2));
                matched = match name {
                    Some(n) => {
                        match crate::strutil::str_extension(n.as_str()) {
                            Some(ext) => crate::strutil::str_eq(ext.as_str(), ext_pat),
                            None => false,
                        }
                    },
                    None => false,
                };
            } else {
                matched = false;
            }
        } else if plen > 0 && pat.as_str().get_char(plen - 1) == '/' {
            let mut slash_pat: String = "/".to_owned();
            slash_pat.append(pat.as_str());
            proof {
                reveal_strlit("/");
                assert(slash_pat@ =~= seq!['/'] + pat@);
            }
            matched = crate::strutil::str_contains(path_str.as_str(), slash_pat.as_str())
                || crate::strutil::str_contains(path_str.as_str(), pat.as_str());
        } else {
            let name_match = match name {
                Some(n) => crate::strutil::str_eq(n.as_str(), pat.as_str()),
                None => false,
            };
            matched = name_match || crate::strutil::str_contains(path_str.as_str(), pat.as_str());
        }
        if matched {
            assert(pattern_ignores(path_str@, nv, pv[i as int]));
            return true;
        }
        assert(!pattern_ignores(path_str@, nv, pv[i as int]));
        i += 1;
    }
    assert(!should_ignore_spec(path@, pv, show_hidden)) by {
        if should_ignore_spec(path@, pv, show_hidden) {
            if !show_hidden && path@.len() > 0 && hidden_name(path@.last()) {
            } else {
                let w = choose|w: int|
                    0 <= w < pv.len() && pattern_ignores(
                        seq!['/'] + crate::strutil::join_segs(path@),
                        nv,
                        pv[w],
                    );
            }
        }
    }
    false
}

proof fn lemma_locked_files_views_take(s: Seq<TreeView>, i: int)
    requires
        0 <= i < s.len(),
    ensures
        locked_files_views(s.take(i + 1)) == locked_files_views(s.take(i)) + locked_files_view(
            s[i],
        ),
    decreases i,
{
    if i == 0 {
        let t1 = s.take(1);
        assert(t1[0] == s[0]);
        assert(t1.drop_first() =~= Seq::<TreeView>::empty());
        assert(locked_files_views(t1) == locked_files_view(s[0]) + locked_files_views(
            Seq::empty(),
        ));
        assert(locked_files_views(s.take(0)) =~= Seq::<Seq<Seq<char>>>::empty());
        assert(locked_files_views(t1) =~= locked_files_views(s.take(0)) + locked_files_view(s[0]));
    } else {
        lemma_locked_files_views_take(s.drop_first(), i - 1);
        assert(s.take(i + 1).drop_first() =~= s.drop_first().take(i));
        assert(s.take(i).drop_first() =~= s.drop_first().take(i - 1));
        assert(s.take(i + 1)[0] == s[0]);
        assert(s.take(i)[0] == s[0]);
        assert(s.drop_first()[i - 1] == s[i]);
        assert(locked_files_views(s.take(i + 1)) == locked_files_view(s[0]) + locked_files_views(
            s.drop_first().take(i),
        ));
        assert(locked_files_views(s.take(i)) == locked_files_view(s[0]) + locked_files_views(
            s.drop_first().take(i - 1),
        ));
        assert(locked_files_view(s[0]) + (locked_files_views(s.drop_first().take(i - 1))
            + locked_files_view(s[i])) =~= (locked_files_view(s[0]) + locked_files_views(
            s.drop_first().take(i - 1),
        )) + locked_files_view(s[i]));
    }
}

} // verus!
