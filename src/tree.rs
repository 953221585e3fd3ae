//! The hierarchy of path components and how a path is merged into it.
use vstd::prelude::*;
use crate::normalize::{clean_path_components, plain_path, plain_names};
use crate::name_order::{name_less, name_lt, lemma_name_lt_total, lemma_name_lt_transitive, lemma_name_lt_irreflexive};

verus! {

/// One path segment with the segments below it.
pub struct TreeNode {
    pub name: String,
    pub children: Vec<TreeNode>,
    pub is_file: bool,
}

/// A path as the sequence of its component names.
pub type PathView = Seq<Seq<char>>;

impl TreeNode {
    /// The children's names are strictly increasing (so unique), files have
    /// no children, and every child is well formed.
    pub open spec fn wf(&self) -> bool
        decreases self,
    {
        &&& (self.is_file ==> self.children@.len() == 0)
        &&& forall|i: int, j: int|
            0 <= i < j < self.children@.len() ==> name_lt(
                #[trigger] self.children@[i].name@,
                #[trigger] self.children@[j].name@,
            )
        &&& forall|i: int| 0 <= i < self.children@.len() ==> (#[trigger] self.children@[i]).wf()
    }

    /// Some child is named `name`.
    pub open spec fn has_child(&self, name: Seq<char>) -> bool {
        exists|j: int| 0 <= j < self.children@.len() && #[trigger] self.children@[j].name@ == name
    }

    /// The child named `name`.
    pub open spec fn child(&self, name: Seq<char>) -> TreeNode
        recommends
            self.has_child(name),
    {
        let j = choose|j: int| 0 <= j < self.children@.len() && #[trigger] self.children@[j].name@ == name;
        self.children@[j]
    }

    /// The node reached from this one along `p`: `Some(is_file)` where there is
    /// one, `None` where there is none (or `p` is empty).
    pub open spec fn kind_at(&self, p: PathView) -> Option<bool>
        decreases p.len(),
    {
        if p.len() == 0 || !self.has_child(p[0]) {
            None
        } else if p.len() == 1 {
            Some(self.child(p[0]).is_file)
        } else {
            self.child(p[0]).kind_at(p.drop_first())
        }
    }

    /// The node at `p` has at least one child.
    pub open spec fn has_children_at(&self, p: PathView) -> bool {
        exists|x: Seq<char>| (#[trigger] self.kind_at(p.push(x))).is_some()
    }

    /// A synthetic root: no name, a directory, no children.
    pub fn new() -> (r: TreeNode)
        ensures
            r.wf(),
            r.name@ == Seq::<char>::empty(),
            !r.is_file,
            r.children@.len() == 0,
    {
        TreeNode { name: String::new(), children: Vec::new(), is_file: false }
    }

    /// A childless node with the given name and kind.
    pub fn new_with_name(name: String, is_file: bool) -> (r: TreeNode)
        ensures
            r.wf(),
            r.name == name,
            r.is_file == is_file,
            r.children@.len() == 0,
    {
        TreeNode { name, children: Vec::new(), is_file }
    }
}

/// The kind a node ends with when a path ends at it: `existing` is its kind
/// before (`None` where it did not exist), `has_children` whether it has any.
pub open spec fn resolved_kind(existing: Option<bool>, has_children: bool, requested_is_file: bool) -> bool {
    match existing {
        None => requested_is_file,
        Some(is_file) => if is_file {
            requested_is_file
        } else {
            requested_is_file && !has_children
        },
    }
}

/// Settles a file/directory claim on a path's final component: a request
/// creates the node as asked, a file may become a directory, and a
/// directory becomes a file only while it has no children.
pub fn resolve_kind(existing: Option<bool>, has_children: bool, requested_is_file: bool) -> (r: bool)
    ensures
        r == resolved_kind(existing, has_children, requested_is_file),
{
    match existing {
        None => requested_is_file,
        Some(is_file) => if is_file {
            requested_is_file
        } else {
            requested_is_file && !has_children
        },
    }
}

/// `q` names a node strictly above the end of `path`.
pub open spec fn strictly_inside(q: PathView, path: PathView) -> bool {
    0 < q.len() < path.len() && path.take(q.len() as int) == q
}

/// The kind at `q` after `path` has been merged into `t` with the final
/// component requested as a file or as a directory.
pub open spec fn inserted_kind(t: TreeNode, path: PathView, requested_is_file: bool, q: PathView) -> Option<bool> {
    if strictly_inside(q, path) {
        Some(false)
    } else if q == path && path.len() > 0 {
        Some(resolved_kind(t.kind_at(q), t.has_children_at(q), requested_is_file))
    } else {
        t.kind_at(q)
    }
}

/// `after` is `before` with `path` merged into it.
pub open spec fn is_merge(before: TreeNode, after: TreeNode, path: PathView, requested_is_file: bool) -> bool {
    forall|q: PathView| #[trigger] after.kind_at(q) == inserted_kind(before, path, requested_is_file, q)
}

proof fn lemma_child_at(n: TreeNode, j: int)
    requires
        n.wf(),
        0 <= j < n.children@.len(),
    ensures
        n.has_child(n.children@[j].name@),
        n.child(n.children@[j].name@) == n.children@[j],
{
    let name = n.children@[j].name@;
    lemma_name_lt_irreflexive(name);
    assert forall|k: int| 0 <= k < n.children@.len() && #[trigger] n.children@[k].name@ == name implies k == j by {
        if k < j {
            assert(name_lt(n.children@[k].name@, n.children@[j].name@));
        } else if k > j {
            assert(name_lt(n.children@[j].name@, n.children@[k].name@));
        }
    }
    assert(n.has_child(name));
}

/// The names of a path's components.
pub open spec fn names_of(v: Seq<String>) -> PathView {
    v.map_values(|s: String| s@)
}

/// The children's names are strictly increasing.
pub open spec fn names_increasing(cs: Seq<TreeNode>) -> bool {
    forall|i: int, j: int| 0 <= i < j < cs.len() ==> name_lt(#[trigger] cs[i].name@, #[trigger] cs[j].name@)
}

pub(crate) proof fn lemma_kind_at_index(n: TreeNode, j: int, q: PathView)
    requires
        n.wf(),
        0 <= j < n.children@.len(),
        q.len() > 0,
        q[0] == n.children@[j].name@,
    ensures
        n.kind_at(q) == (if q.len() == 1 {
            Some(n.children@[j].is_file)
        } else {
            n.children@[j].kind_at(q.drop_first())
        }),
{
    lemma_child_at(n, j);
}

/// Replacing the child at `j` by `c`, of the same name, changes nothing
/// below the other children.
proof fn lemma_kind_at_replaced(old: TreeNode, new: TreeNode, j: int, q: PathView)
    requires
        old.wf(),
        new.wf(),
        0 <= j < old.children@.len(),
        new.children@ == old.children@.update(j, new.children@[j]),
        new.children@[j].name@ == old.children@[j].name@,
        q.len() > 0,
        q[0] != old.children@[j].name@,
    ensures
        new.kind_at(q) == old.kind_at(q),
{
    if old.has_child(q[0]) {
        let k = choose|k: int| 0 <= k < old.children@.len() && #[trigger] old.children@[k].name@ == q[0];
        lemma_kind_at_index(old, k, q);
        lemma_kind_at_index(new, k, q);
    } else if new.has_child(q[0]) {
        let k = choose|k: int| 0 <= k < new.children@.len() && #[trigger] new.children@[k].name@ == q[0];
        assert(old.children@[k].name@ == q[0]);
    }
}

/// Inserting a child `c` at `j`, under a name not yet present, changes
/// nothing below the other children.
proof fn lemma_kind_at_added(old: TreeNode, new: TreeNode, j: int, q: PathView)
    requires
        old.wf(),
        new.wf(),
        0 <= j <= old.children@.len(),
        new.children@ == old.children@.insert(j, new.children@[j]),
        !old.has_child(new.children@[j].name@),
        q.len() > 0,
    ensures
        q[0] != new.children@[j].name@ ==> new.kind_at(q) == old.kind_at(q),
        q[0] == new.children@[j].name@ ==> old.kind_at(q) is None,
{
    if q[0] != new.children@[j].name@ {
        if old.has_child(q[0]) {
            let k = choose|k: int| 0 <= k < old.children@.len() && #[trigger] old.children@[k].name@ == q[0];
            lemma_kind_at_index(old, k, q);
            if k < j {
                lemma_kind_at_index(new, k, q);
            } else {
                assert(new.children@[k + 1] == old.children@[k]);
                lemma_kind_at_index(new, k + 1, q);
            }
        } else if new.has_child(q[0]) {
            let k = choose|k: int| 0 <= k < new.children@.len() && #[trigger] new.children@[k].name@ == q[0];
            if k < j {
                assert(old.children@[k].name@ == q[0]);
            } else {
                assert(k != j);
                assert(old.children@[k - 1].name@ == q[0]);
            }
        }
    }
}

/// Where `name` stands among the sorted children: `(true, j)` where child
/// `j` has that name, otherwise `(false, j)` with `j` the position that keeps
/// the names increasing.
fn find_child(children: &Vec<TreeNode>, name: &String) -> (r: (bool, usize))
    requires
        names_increasing(children@),
    ensures
        r.1 <= children@.len(),
        r.0 ==> r.1 < children@.len() && children@[r.1 as int].name@ == name@,
        !r.0 ==> forall|k: int| 0 <= k < r.1 ==> name_lt(#[trigger] children@[k].name@, name@),
        !r.0 ==> forall|k: int| r.1 <= k < children@.len() ==> name_lt(name@, #[trigger] children@[k].name@),
{
    let mut i: usize = 0;
    while i < children.len() && name_less(&children[i].name, name)
        invariant
            i <= children@.len(),
            names_increasing(children@),
            forall|k: int| 0 <= k < i ==> name_lt(#[trigger] children@[k].name@, name@),
        decreases children@.len() - i,
    {
        i = i + 1;
    }
    if i < children.len() && children[i].name == *name {
        return (true, i);
    }
    proof {
        if i < children@.len() {
            lemma_name_lt_total(children@[i as int].name@, name@);
            assert forall|k: int| i <= k < children@.len() implies name_lt(name@, #[trigger] children@[k].name@) by {
                if k > i {
                    assert(name_lt(children@[i as int].name@, children@[k].name@));
                    lemma_name_lt_transitive(name@, children@[i as int].name@, children@[k].name@);
                }
            }
        }
    }
    (false, i)
}

proof fn lemma_kind_at_same_children(a: TreeNode, b: TreeNode, x: PathView)
    requires
        a.children == b.children,
    ensures
        a.kind_at(x) == b.kind_at(x),
{
}

/// The node at the one-component path `q` has children exactly where the
/// child it names has any.
proof fn lemma_has_children_at_single(n: TreeNode, j: int, q: PathView)
    requires
        n.wf(),
        0 <= j < n.children@.len(),
        q.len() == 1,
        q[0] == n.children@[j].name@,
    ensures
        n.has_children_at(q) == (n.children@[j].children@.len() > 0),
{
    let c = n.children@[j];
    if n.has_children_at(q) {
        let x = choose|x: Seq<char>| (#[trigger] n.kind_at(q.push(x))).is_some();
        lemma_kind_at_index(n, j, q.push(x));
        assert(q.push(x).drop_first() =~= seq![x]);
    }
    if c.children@.len() > 0 {
        let x = c.children@[0].name@;
        lemma_kind_at_index(n, j, q.push(x));
        assert(q.push(x).drop_first() =~= seq![x]);
        lemma_kind_at_index(c, 0, seq![x]);
        assert(n.kind_at(q.push(x)).is_some());
    }
}

/// Below the first component, a merge acts on the child as it acts on the
/// whole hierarchy.
proof fn lemma_inserted_kind_step(pre: TreeNode, d: TreeNode, path: PathView, req: bool, q: PathView)
    requires
        path.len() > 1,
        q.len() > 1,
        q[0] == path[0],
        forall|y: PathView| y.len() > 1 && y[0] == path[0] ==> #[trigger] pre.kind_at(y) == d.kind_at(y.drop_first()),
    ensures
        inserted_kind(pre, path, req, q) == inserted_kind(d, path.drop_first(), req, q.drop_first()),
{
    let qt = q.drop_first();
    let pt = path.drop_first();
    let n = q.len() as int;
    if n < path.len() {
        if path.take(n) == q {
            assert(pt.take(n - 1) =~= qt);
        }
        if pt.take(n - 1) == qt {
            assert forall|k: int| 0 <= k < n implies path.take(n)[k] == q[k] by {
                if k > 0 {
                    assert(qt[k - 1] == q[k]);
                    assert(pt.take(n - 1)[k - 1] == path[k]);
                }
            }
            assert(path.take(n) =~= q);
        }
    }
    if q == path {
        assert(qt =~= pt);
    }
    if qt == pt {
        assert forall|k: int| 0 <= k < n implies path[k] == q[k] by {
            if k > 0 {
                assert(qt[k - 1] == q[k]);
                assert(pt[k - 1] == path[k]);
            }
        }
        assert(q =~= path);
    }
    if pre.has_children_at(q) {
        let x = choose|x: Seq<char>| (#[trigger] pre.kind_at(q.push(x))).is_some();
        assert(q.push(x).drop_first() =~= qt.push(x));
        assert(d.kind_at(qt.push(x)).is_some());
    }
    if d.has_children_at(qt) {
        let x = choose|x: Seq<char>| (#[trigger] d.kind_at(qt.push(x))).is_some();
        assert(q.push(x).drop_first() =~= qt.push(x));
        assert(pre.kind_at(q.push(x)).is_some());
    }
}

/// Merges the components `comps[i..]` into the hierarchy below `node`:
/// every component but the last becomes a directory, and the last one is
/// settled by `resolve_kind` against what was there.
fn insert_from(node: &mut TreeNode, comps: &Vec<String>, i: usize, final_is_file: bool)
    requires
        old(node).wf(),
        !old(node).is_file,
        i < comps@.len(),
    ensures
        final(node).wf(),
        final(node).name == old(node).name,
        final(node).is_file == old(node).is_file,
        final(node).children@.len() > 0,
        forall|q: PathView| #[trigger] final(node).kind_at(q) == inserted_kind(
            *old(node),
            names_of(comps@).skip(i as int),
            final_is_file,
            q,
        ),
    decreases comps@.len() - i,
{
    let ghost pre = *node;
    let ghost path = names_of(comps@).skip(i as int);
    let last = i == comps.len() - 1;
    let (found, j) = find_child(&node.children, &comps[i]);
    if !found {
        let is_file = if last { final_is_file } else { false };
        node.children.insert(j, TreeNode::new_with_name(comps[i].clone(), is_file));
        proof {
            lemma_name_lt_irreflexive(comps@[i as int]@);
            assert(names_increasing(node.children@));
            assert(node.wf());
        }
    }
    let ghost mid = *node;
    assert(mid.children@[j as int].wf());
    let mut c = node.children.remove(j);
    let ghost c0 = c;
    if last {
        if found {
            c.is_file = resolve_kind(Some(c.is_file), c.children.len() > 0, final_is_file);
        }
    } else {
        c.is_file = false;
        assert(c.wf());
        insert_from(&mut c, comps, i + 1, final_is_file);
    }
    node.children.insert(j, c);
    proof {
        assert(node.children@ =~= mid.children@.update(j as int, c));
        assert(c.wf());
        assert(forall|k: int| 0 <= k < node.children@.len() ==> (#[trigger] node.children@[k]).wf());
        assert(names_increasing(node.children@));
        assert(node.wf());
        let name = comps@[i as int]@;
        assert(path[0] == name);
        assert(names_of(comps@).skip(i as int + 1) =~= path.drop_first());
        assert forall|q: PathView| #[trigger] node.kind_at(q) == inserted_kind(pre, path, final_is_file, q) by {
            if q.len() > 0 && q[0] != name {
                lemma_kind_at_replaced(mid, *node, j as int, q);
                if !found {
                    lemma_kind_at_added(pre, mid, j as int, q);
                }
                if q.len() < path.len() {
                    assert(path.take(q.len() as int)[0] == name);
                }
            } else if q.len() > 0 {
                lemma_kind_at_index(*node, j as int, q);
                if found {
                    lemma_kind_at_index(pre, j as int, q);
                } else {
                    lemma_kind_at_added(pre, mid, j as int, q);
                }
                if last {
                    if q.len() > 1 {
                        lemma_kind_at_same_children(c, c0, q.drop_first());
                    }
                    if q.len() == 1 {
                        assert(q =~= path);
                        if found {
                            lemma_has_children_at_single(pre, j as int, q);
                        }
                    }
                } else if q.len() == 1 {
                    assert(path.take(1) =~= q);
                } else {
                    let d = TreeNode { is_file: false, ..c0 };
                    assert forall|y: PathView| y.len() > 1 && y[0] == path[0] implies #[trigger] pre.kind_at(y) == d.kind_at(y.drop_first()) by {
                        lemma_kind_at_same_children(c0, d, y.drop_first());
                        if found {
                            lemma_kind_at_index(pre, j as int, y);
                        } else {
                            lemma_kind_at_added(pre, mid, j as int, y);
                        }
                    }
                    lemma_inserted_kind_step(pre, d, path, final_is_file, q);
                }
            }
        }
    }
}

/// Merges the path `comps` into the hierarchy under `root`; an empty path
/// changes nothing.
pub fn insert_components(root: &mut TreeNode, comps: &Vec<String>, final_is_file: bool)
    requires
        old(root).wf(),
        !old(root).is_file,
    ensures
        final(root).wf(),
        !final(root).is_file,
        final(root).name == old(root).name,
        is_merge(*old(root), *final(root), names_of(comps@), final_is_file),
{
    if comps.len() == 0 {
        return;
    }
    insert_from(root, comps, 0, final_is_file);
    assert(names_of(comps@).skip(0) =~= names_of(comps@));
}

/// Merges `path`, split into its logical names, into the hierarchy under
/// `root`, its final component requested as a file or as a directory.
pub fn add_path_to_tree_with_type(root: &mut TreeNode, path: &str, final_is_file: bool)
    requires
        old(root).wf(),
        !old(root).is_file,
    ensures
        final(root).wf(),
        !final(root).is_file,
        final(root).name == old(root).name,
        plain_path(path@) ==> is_merge(*old(root), *final(root), plain_names(path@), final_is_file),
        exists|p: PathView| is_merge(*old(root), *final(root), p, final_is_file),
{
    let comps = clean_path_components(path);
    insert_components(root, &comps, final_is_file);
    assert(is_merge(*old(root), *root, names_of(comps@), final_is_file));
}

/// Merges `path` into the hierarchy under `root`, its final component
/// taken as a file.
pub fn add_path_to_tree(root: &mut TreeNode, path: &str)
    requires
        old(root).wf(),
        !old(root).is_file,
    ensures
        final(root).wf(),
        !final(root).is_file,
        final(root).name == old(root).name,
        plain_path(path@) ==> is_merge(*old(root), *final(root), plain_names(path@), true),
        exists|p: PathView| is_merge(*old(root), *final(root), p, true),
{
    add_path_to_tree_with_type(root, path, true)
}

} // verus!
