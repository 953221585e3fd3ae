//! The whole listing for a batch of paths, and what it depends on.
use vstd::prelude::*;
use crate::name_order::{name_lt, lemma_name_lt_irreflexive, lemma_name_lt_total, lemma_name_lt_transitive};
use crate::tree::{TreeNode, PathView, strictly_inside, is_merge, names_increasing, lemma_kind_at_index};
use crate::render::{rendered, rendered_from, display_order, kind_indices, entry_line, render_tree};
use crate::tree::insert_components;
use crate::normalize::{clean_path_components, plain_path, plain_names};

verus! {

/// `q` names a node on the way to `p`, or `p` itself.
pub open spec fn reaches(q: PathView, p: PathView) -> bool {
    0 < q.len() <= p.len() && p.take(q.len() as int) == q
}

/// The kind of the node at `q` in the hierarchy of the paths `s`, all of
/// whose final components are requested as files: a directory where some
/// path goes on below it, a file where none does, `None` where no path
/// reaches it.
pub open spec fn batch_kind(s: Set<PathView>, q: PathView) -> Option<bool> {
    if exists|p: PathView| #[trigger] s.contains(p) && reaches(q, p) {
        Some(!exists|p: PathView| #[trigger] s.contains(p) && strictly_inside(q, p))
    } else {
        None
    }
}

/// `t` is a well-formed hierarchy holding exactly the nodes of the paths `s`.
pub open spec fn is_tree_of(t: TreeNode, s: Set<PathView>) -> bool {
    &&& t.wf()
    &&& forall|q: PathView| #[trigger] t.kind_at(q) == batch_kind(s, q)
}

/// Two hierarchies have the same nodes, of the same kinds.
pub open spec fn same_kinds(a: TreeNode, b: TreeNode) -> bool {
    forall|q: PathView| #![trigger a.kind_at(q)] #![trigger b.kind_at(q)] a.kind_at(q) == b.kind_at(q)
}

pub open spec fn header() -> Seq<char> {
    "Directory structure:\n"@
}

/// The lines of the hierarchy of the paths `s`.
pub open spec fn paths_text(s: Set<PathView>) -> Seq<char> {
    let t = choose|t: TreeNode| is_tree_of(t, s);
    rendered(t, Seq::empty())
}

/// Some path of `s` has a name, so its hierarchy has a node.
pub open spec fn has_names(s: Set<PathView>) -> bool {
    exists|p: PathView| #[trigger] s.contains(p) && p.len() > 0
}

/// The listing of a batch of paths: nothing where the hierarchy of its
/// paths has no node (an empty batch among others), otherwise the header,
/// the lines of that hierarchy and a blank line.
pub open spec fn tree_text(cs: Seq<PathView>) -> Seq<char> {
    if has_names(cs.to_set()) {
        header() + paths_text(cs.to_set()) + "\n"@
    } else {
        Seq::empty()
    }
}

/// The hierarchy of some paths has a node exactly where one of the paths
/// has a name.
pub proof fn lemma_tree_has_children(t: TreeNode, s: Set<PathView>)
    requires
        is_tree_of(t, s),
    ensures
        (t.children@.len() > 0) == has_names(s),
{
    if t.children@.len() > 0 {
        let q = seq![t.children@[0].name@];
        lemma_kind_at_index(t, 0, q);
        assert(batch_kind(s, q).is_some());
        let p = choose|p: PathView| #[trigger] s.contains(p) && reaches(q, p);
        assert(s.contains(p) && p.len() > 0);
    }
    if has_names(s) {
        let p = choose|p: PathView| #[trigger] s.contains(p) && p.len() > 0;
        let q = p.take(1);
        assert(reaches(q, p));
        assert(t.kind_at(q).is_some());
    }
}

/// The component names of each path of a batch.
pub open spec fn batch_view(batch: Seq<Vec<String>>) -> Seq<PathView> {
    batch.map_values(|p: Vec<String>| crate::tree::names_of(p@))
}

proof fn lemma_batch_children(t: TreeNode, s: Set<PathView>, q: PathView)
    requires
        is_tree_of(t, s),
        q.len() > 0,
    ensures
        t.has_children_at(q) == exists|p: PathView| #[trigger] s.contains(p) && strictly_inside(q, p),
{
    if t.has_children_at(q) {
        let x = choose|x: Seq<char>| (#[trigger] t.kind_at(q.push(x))).is_some();
        assert(batch_kind(s, q.push(x)).is_some());
        let p = choose|p: PathView| #[trigger] s.contains(p) && reaches(q.push(x), p);
        assert(p.take(q.len() as int) =~= q.push(x).take(q.len() as int));
        assert(q.push(x).take(q.len() as int) =~= q);
        assert(strictly_inside(q, p));
    }
    if exists|p: PathView| #[trigger] s.contains(p) && strictly_inside(q, p) {
        let p = choose|p: PathView| #[trigger] s.contains(p) && strictly_inside(q, p);
        let x = p[q.len() as int];
        assert(p.take(q.len() as int + 1) =~= q.push(x));
        assert(reaches(q.push(x), p));
        assert(t.kind_at(q.push(x)).is_some());
    }
}

/// Merging one more path, as a file, into the hierarchy of some paths gives
/// the hierarchy of those paths and that one.
pub proof fn lemma_batch_step(t: TreeNode, t2: TreeNode, s: Set<PathView>, p: PathView)
    requires
        is_tree_of(t, s),
        t2.wf(),
        is_merge(t, t2, p, true),
    ensures
        is_tree_of(t2, s.insert(p)),
{
    let s2 = s.insert(p);
    assert forall|q: PathView| #[trigger] t2.kind_at(q) == batch_kind(s2, q) by {
        assert(s2.contains(p));
        assert(t2.kind_at(q) == crate::tree::inserted_kind(t, p, true, q));
        assert(t.kind_at(q) == batch_kind(s, q));
        if strictly_inside(q, p) {
            assert(reaches(q, p));
        } else if q == p && p.len() > 0 {
            assert(p.take(p.len() as int) =~= p);
            assert(reaches(q, p));
            lemma_batch_children(t, s, q);
            if exists|r: PathView| #[trigger] s.contains(r) && strictly_inside(q, r) {
                let r = choose|r: PathView| #[trigger] s.contains(r) && strictly_inside(q, r);
                assert(reaches(q, r));
                assert(s2.contains(r));
            }
            if exists|r: PathView| #[trigger] s2.contains(r) && strictly_inside(q, r) {
                let r = choose|r: PathView| #[trigger] s2.contains(r) && strictly_inside(q, r);
                assert(s.contains(r));
            }
        } else {
            if reaches(q, p) {
                if q.len() == p.len() {
                    assert(p.take(p.len() as int) =~= p);
                }
            }
            if exists|r: PathView| #[trigger] s2.contains(r) && reaches(q, r) {
                let r = choose|r: PathView| #[trigger] s2.contains(r) && reaches(q, r);
                assert(s.contains(r));
            }
            if exists|r: PathView| #[trigger] s.contains(r) && reaches(q, r) {
                let r = choose|r: PathView| #[trigger] s.contains(r) && reaches(q, r);
                assert(s2.contains(r));
            }
            if exists|r: PathView| #[trigger] s2.contains(r) && strictly_inside(q, r) {
                let r = choose|r: PathView| #[trigger] s2.contains(r) && strictly_inside(q, r);
                assert(s.contains(r));
            }
            if exists|r: PathView| #[trigger] s.contains(r) && strictly_inside(q, r) {
                let r = choose|r: PathView| #[trigger] s.contains(r) && strictly_inside(q, r);
                assert(s2.contains(r));
            }
        }
    }
}

proof fn lemma_push_to_set(s: Seq<PathView>, p: PathView)
    ensures
        s.push(p).to_set() == s.to_set().insert(p),
{
    assert forall|x: PathView| s.push(p).contains(x) <==> (s.contains(x) || x == p) by {
        if s.push(p).contains(x) {
            let k = choose|k: int| 0 <= k < s.push(p).len() && s.push(p)[k] == x;
            if k < s.len() {
                assert(s[k] == x);
            }
        }
        if s.contains(x) {
            let k = choose|k: int| 0 <= k < s.len() && s[k] == x;
            assert(s.push(p)[k] == x);
        }
        if x == p {
            assert(s.push(p)[s.len() as int] == p);
        }
    }
    assert forall|x: PathView| s.push(p).to_set().contains(x) <==> s.to_set().insert(p).contains(x) by {
        assert(s.push(p).contains(x) <==> (s.contains(x) || x == p));
    }
    assert(s.push(p).to_set() =~= s.to_set().insert(p));
}

/// The names are strictly increasing.
pub open spec fn increasing(s: Seq<Seq<char>>) -> bool {
    forall|i: int, j: int| 0 <= i < j < s.len() ==> name_lt(#[trigger] s[i], #[trigger] s[j])
}

proof fn lemma_tail_members(s: Seq<Seq<char>>)
    requires
        increasing(s),
        s.len() > 0,
    ensures
        forall|x: Seq<char>| #[trigger] s.drop_first().contains(x) <==> (s.contains(x) && x != s[0]),
{
    lemma_name_lt_irreflexive(s[0]);
    assert forall|x: Seq<char>| #[trigger] s.drop_first().contains(x) <==> (s.contains(x) && x != s[0]) by {
        if s.drop_first().contains(x) {
            let k = choose|k: int| 0 <= k < s.drop_first().len() && s.drop_first()[k] == x;
            assert(name_lt(s[0], s[k + 1]));
        }
        if s.contains(x) && x != s[0] {
            let k = choose|k: int| 0 <= k < s.len() && s[k] == x;
            assert(s.drop_first()[k - 1] == x);
        }
    }
}

/// Two increasing sequences of names with the same members are equal.
proof fn lemma_increasing_same_members(sa: Seq<Seq<char>>, sb: Seq<Seq<char>>)
    requires
        increasing(sa),
        increasing(sb),
        forall|x: Seq<char>| sa.contains(x) <==> sb.contains(x),
    ensures
        sa == sb,
    decreases sa.len(),
{
    if sa.len() == 0 || sb.len() == 0 {
        if sa.len() > 0 {
            assert(sb.contains(sa[0]));
        }
        if sb.len() > 0 {
            assert(sa.contains(sb[0]));
        }
        assert(sa =~= sb);
    } else {
        if sa[0] != sb[0] {
            lemma_name_lt_total(sa[0], sb[0]);
            if name_lt(sa[0], sb[0]) {
                assert(sa.contains(sa[0]));
                let k = choose|k: int| 0 <= k < sb.len() && sb[k] == sa[0];
                assert(name_lt(sb[0], sb[k]));
                lemma_name_lt_transitive(sa[0], sb[0], sa[0]);
                lemma_name_lt_irreflexive(sa[0]);
            } else {
                assert(sb.contains(sb[0]));
                let k = choose|k: int| 0 <= k < sa.len() && sa[k] == sb[0];
                assert(name_lt(sa[0], sa[k]));
                lemma_name_lt_transitive(sb[0], sa[0], sb[0]);
                lemma_name_lt_irreflexive(sb[0]);
            }
        }
        lemma_tail_members(sa);
        lemma_tail_members(sb);
        lemma_increasing_same_members(sa.drop_first(), sb.drop_first());
        assert forall|k: int| 0 < k < sa.len() implies sa[k] == sb[k] by {
            assert(sa[k] == sa.drop_first()[k - 1]);
            assert(sb[k] == sb.drop_first()[k - 1]);
        }
        assert(sa =~= sb);
    }
}

/// Hierarchies with the same nodes hold, position by position, children of
/// the same names and kinds, with the same nodes below them.
proof fn lemma_same_children(a: TreeNode, b: TreeNode)
    requires
        a.wf(),
        b.wf(),
        same_kinds(a, b),
    ensures
        a.children@.len() == b.children@.len(),
        forall|i: int| 0 <= i < a.children@.len() ==> #[trigger] a.children@[i].name@ == b.children@[i].name@,
        forall|i: int| 0 <= i < a.children@.len() ==> #[trigger] a.children@[i].is_file == b.children@[i].is_file,
        forall|i: int| 0 <= i < a.children@.len() ==> same_kinds(#[trigger] a.children@[i], b.children@[i]),
{
    let na = a.children@.map_values(|c: TreeNode| c.name@);
    let nb = b.children@.map_values(|c: TreeNode| c.name@);
    assert(names_increasing(a.children@));
    assert(names_increasing(b.children@));
    assert(increasing(na));
    assert(increasing(nb));
    assert forall|x: Seq<char>| na.contains(x) <==> nb.contains(x) by {
        let q = seq![x];
        if na.contains(x) {
            let k = choose|k: int| 0 <= k < na.len() && na[k] == x;
            lemma_kind_at_index(a, k, q);
            assert(b.kind_at(q).is_some());
            assert(b.has_child(x));
            let m = choose|m: int| 0 <= m < b.children@.len() && #[trigger] b.children@[m].name@ == x;
            assert(nb[m] == x);
        }
        if nb.contains(x) {
            let k = choose|k: int| 0 <= k < nb.len() && nb[k] == x;
            lemma_kind_at_index(b, k, q);
            assert(a.kind_at(q).is_some());
            assert(a.has_child(x));
            let m = choose|m: int| 0 <= m < a.children@.len() && #[trigger] a.children@[m].name@ == x;
            assert(na[m] == x);
        }
    }
    lemma_increasing_same_members(na, nb);
    assert forall|i: int| 0 <= i < a.children@.len() implies #[trigger] a.children@[i].name@ == b.children@[i].name@ by {
        assert(na[i] == nb[i]);
    }
    assert forall|i: int| 0 <= i < a.children@.len() implies #[trigger] a.children@[i].is_file == b.children@[i].is_file by {
        assert(na[i] == nb[i]);
        let q = seq![a.children@[i].name@];
        lemma_kind_at_index(a, i, q);
        lemma_kind_at_index(b, i, q);
        assert(a.kind_at(q) == b.kind_at(q));
    }
    assert forall|i: int| 0 <= i < a.children@.len() implies same_kinds(#[trigger] a.children@[i], b.children@[i]) by {
        assert(na[i] == nb[i]);
        let ca = a.children@[i];
        let cb = b.children@[i];
        assert forall|y: PathView| ca.kind_at(y) == cb.kind_at(y) by {
            if y.len() > 0 {
                let q = seq![ca.name@] + y;
                assert(q.drop_first() =~= y);
                lemma_kind_at_index(a, i, q);
                lemma_kind_at_index(b, i, q);
                assert(a.kind_at(q) == b.kind_at(q));
            }
        }
    }
}

proof fn lemma_kind_indices_agree(ca: Seq<TreeNode>, cb: Seq<TreeNode>, files: bool, n: int)
    requires
        ca.len() == cb.len(),
        n <= ca.len(),
        forall|i: int| 0 <= i < ca.len() ==> #[trigger] ca[i].is_file == cb[i].is_file,
    ensures
        kind_indices(ca, files, n) == kind_indices(cb, files, n),
    decreases n,
{
    if n > 0 {
        lemma_kind_indices_agree(ca, cb, files, n - 1);
    }
}

/// Hierarchies with the same nodes are drawn alike.
pub proof fn lemma_render_agree(a: TreeNode, b: TreeNode, prefix: Seq<char>, k: int)
    requires
        a.wf(),
        b.wf(),
        same_kinds(a, b),
    ensures
        rendered_from(a, prefix, k) == rendered_from(b, prefix, k),
    decreases a, display_order(a.children@).len() - k,
{
    lemma_same_children(a, b);
    let len = a.children@.len() as int;
    lemma_kind_indices_agree(a.children@, b.children@, false, len);
    lemma_kind_indices_agree(a.children@, b.children@, true, len);
    let order = display_order(a.children@);
    assert(order == display_order(b.children@));
    if 0 <= k < order.len() && 0 <= order[k] < len {
        let idx = order[k];
        let ca = a.children@[idx];
        let cb = b.children@[idx];
        let last = k == order.len() - 1;
        assert(entry_line(prefix, last, ca) == entry_line(prefix, last, cb));
        assert(ca.wf());
        assert(cb.wf());
        lemma_render_agree(ca, cb, prefix + crate::render::continuation(last), 0);
        lemma_render_agree(a, b, prefix, k + 1);
    }
}

/// The listing of a batch of paths, each given as its component names:
/// nothing for an empty batch, otherwise the header line, one line per node
/// of the merged hierarchy, and a blank line.
pub fn generate_tree_from_components(batch: &Vec<Vec<String>>) -> (r: String)
    ensures
        r@ == tree_text(batch_view(batch@)),
{
    let ghost cs = batch_view(batch@);
    let mut tree = TreeNode::new();
    let mut i: usize = 0;
    proof {
        assert(cs.take(0).to_set() =~= Set::<PathView>::empty());
        assert forall|q: PathView| #[trigger] tree.kind_at(q) == batch_kind(cs.take(0).to_set(), q) by {}
    }
    while i < batch.len()
        invariant
            i <= batch@.len(),
            cs == batch_view(batch@),
            !tree.is_file,
            is_tree_of(tree, cs.take(i as int).to_set()),
        decreases batch@.len() - i,
    {
        let ghost before = tree;
        insert_components(&mut tree, &batch[i], true);
        proof {
            lemma_batch_step(before, tree, cs.take(i as int).to_set(), cs[i as int]);
            assert(cs.take(i + 1) =~= cs.take(i as int).push(cs[i as int]));
            lemma_push_to_set(cs.take(i as int), cs[i as int]);
        }
        i = i + 1;
    }
    proof {
        assert(cs.take(cs.len() as int) =~= cs);
        lemma_tree_has_children(tree, cs.to_set());
    }
    if tree.children.len() == 0 {
        return String::new();
    }
    let mut output = String::new();
    output.append("Directory structure:\n");
    render_tree(&tree, &mut output, "");
    output.append("\n");
    proof {
        reveal_strlit("");
        let t = choose|t: TreeNode| is_tree_of(t, cs.to_set());
        lemma_render_agree(tree, t, Seq::empty(), 0);
        assert(""@ =~= Seq::<char>::empty());
    }
    output
}

/// The directory listing of `paths`: each path is split as the platform
/// splits paths and reduced to its logical names, then all are merged and
/// drawn as by `generate_tree_from_components`.
pub fn generate_tree(paths: &[String]) -> (r: String)
    ensures
        paths@.len() == 0 ==> r@ == Seq::<char>::empty(),
        (forall|i: int| 0 <= i < paths@.len() ==> plain_path(#[trigger] paths@[i]@)) ==> r@ == tree_text(
            paths@.map_values(|p: String| plain_names(p@)),
        ),
        exists|cs: Seq<PathView>|
            cs.len() == paths@.len() && r@ == tree_text(cs) && forall|i: int|
                0 <= i < paths@.len() && plain_path(#[trigger] paths@[i]@) ==> cs[i] == plain_names(paths@[i]@),
{
    let mut batch: Vec<Vec<String>> = Vec::new();
    let mut i: usize = 0;
    while i < paths.len()
        invariant
            i <= paths@.len(),
            batch@.len() == i,
            forall|k: int|
                0 <= k < i && plain_path(#[trigger] paths@[k]@) ==> batch_view(batch@)[k] == plain_names(paths@[k]@),
        decreases paths@.len() - i,
    {
        batch.push(clean_path_components(paths[i].as_str()));
        i = i + 1;
    }
    let r = generate_tree_from_components(&batch);
    assert(batch_view(batch@).len() == paths@.len());
    proof {
        if forall|i: int| 0 <= i < paths@.len() ==> plain_path(#[trigger] paths@[i]@) {
            assert(batch_view(batch@) =~= paths@.map_values(|p: String| plain_names(p@)));
        }
    }
    r
}

/// Batches holding the same paths, in any order and any number of times
/// each, have the same listing.
pub proof fn lemma_order_independent(a: Seq<PathView>, b: Seq<PathView>)
    requires
        a.to_set() == b.to_set(),
    ensures
        tree_text(a) == tree_text(b),
{
}

/// A path listed again changes nothing.
pub proof fn lemma_duplicate_absorbed(cs: Seq<PathView>, p: PathView)
    requires
        cs.contains(p),
    ensures
        tree_text(cs.push(p)) == tree_text(cs),
{
    lemma_push_to_set(cs, p);
    assert(cs.to_set().insert(p) =~= cs.to_set());
    lemma_order_independent(cs.push(p), cs);
}

/// A childless root is the hierarchy of no paths.
pub proof fn lemma_empty_root(t: TreeNode)
    requires
        t.wf(),
        t.children@.len() == 0,
    ensures
        is_tree_of(t, Set::empty()),
{
}

/// Merging two paths as files into the hierarchy of some paths, in either
/// order, gives hierarchies with the same nodes, drawn alike.
pub proof fn lemma_insertion_order_irrelevant(
    t0: TreeNode,
    t1: TreeNode,
    t12: TreeNode,
    t2: TreeNode,
    t21: TreeNode,
    s: Set<PathView>,
    p: PathView,
    q: PathView,
    prefix: Seq<char>,
)
    requires
        is_tree_of(t0, s),
        t1.wf(),
        t12.wf(),
        t2.wf(),
        t21.wf(),
        is_merge(t0, t1, p, true),
        is_merge(t1, t12, q, true),
        is_merge(t0, t2, q, true),
        is_merge(t2, t21, p, true),
    ensures
        same_kinds(t12, t21),
        rendered(t12, prefix) == rendered(t21, prefix),
{
    lemma_batch_step(t0, t1, s, p);
    lemma_batch_step(t1, t12, s.insert(p), q);
    lemma_batch_step(t0, t2, s, q);
    lemma_batch_step(t2, t21, s.insert(q), p);
    assert(s.insert(p).insert(q) =~= s.insert(q).insert(p));
    lemma_render_agree(t12, t21, prefix, 0);
}

/// Merging again, as a file, a path already in the hierarchy of some paths
/// leaves the same nodes, drawn alike.
pub proof fn lemma_reinsert_unchanged(t0: TreeNode, t1: TreeNode, s: Set<PathView>, p: PathView, prefix: Seq<char>)
    requires
        is_tree_of(t0, s),
        s.contains(p),
        t1.wf(),
        is_merge(t0, t1, p, true),
    ensures
        same_kinds(t0, t1),
        rendered(t0, prefix) == rendered(t1, prefix),
{
    lemma_batch_step(t0, t1, s, p);
    assert(s.insert(p) =~= s);
    lemma_render_agree(t0, t1, prefix, 0);
}

} // verus!
