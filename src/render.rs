//! Drawing the hierarchy as text, one line per node.
use vstd::prelude::*;
use crate::tree::TreeNode;

verus! {

/// The positions below `n` of the children of one kind (files or
/// directories), in their stored order; in a well-formed node that is the
/// order of their names.
pub open spec fn kind_indices(cs: Seq<TreeNode>, files: bool, n: int) -> Seq<int>
    decreases n,
{
    if n <= 0 {
        Seq::empty()
    } else if cs[n - 1].is_file == files {
        kind_indices(cs, files, n - 1).push(n - 1)
    } else {
        kind_indices(cs, files, n - 1)
    }
}

/// The order in which siblings are drawn: directories, then files.
pub open spec fn display_order(cs: Seq<TreeNode>) -> Seq<int> {
    kind_indices(cs, false, cs.len() as int) + kind_indices(cs, true, cs.len() as int)
}

pub open spec fn connector(last: bool) -> Seq<char> {
    if last {
        "└── "@
    } else {
        "├── "@
    }
}

/// What a child adds to its parent's prefix for the lines below it.
pub open spec fn continuation(last: bool) -> Seq<char> {
    if last {
        "    "@
    } else {
        "│   "@
    }
}

/// The line that draws `c`: prefix, connector, name, a slash for a
/// directory, newline.
pub open spec fn entry_line(prefix: Seq<char>, last: bool, c: TreeNode) -> Seq<char> {
    prefix + connector(last) + c.name@ + (if c.is_file {
        Seq::<char>::empty()
    } else {
        "/"@
    }) + "\n"@
}

/// The lines of the children of `n` from the `k`-th one drawn onwards, each
/// followed by the lines below it.
pub open spec fn rendered_from(n: TreeNode, prefix: Seq<char>, k: int) -> Seq<char>
    decreases n, display_order(n.children@).len() - k,
{
    let order = display_order(n.children@);
    if 0 <= k < order.len() && 0 <= order[k] < n.children@.len() {
        let c = n.children@[order[k]];
        let last = k == order.len() - 1;
        entry_line(prefix, last, c) + rendered_from(c, prefix + continuation(last), 0) + rendered_from(
            n,
            prefix,
            k + 1,
        )
    } else {
        Seq::empty()
    }
}

/// The lines drawing everything below `n`, each starting with `prefix`.
pub open spec fn rendered(n: TreeNode, prefix: Seq<char>) -> Seq<char> {
    rendered_from(n, prefix, 0)
}

proof fn lemma_kind_indices_bounds(cs: Seq<TreeNode>, files: bool, n: int)
    requires
        0 <= n <= cs.len(),
    ensures
        forall|k: int| 0 <= k < kind_indices(cs, files, n).len() ==> 0 <= #[trigger] kind_indices(cs, files, n)[k] < n,
    decreases n,
{
    if n > 0 {
        lemma_kind_indices_bounds(cs, files, n - 1);
        let prev = kind_indices(cs, files, n - 1);
        assert forall|k: int| 0 <= k < kind_indices(cs, files, n).len() implies 0 <= #[trigger] kind_indices(cs, files, n)[k] < n by {
            if k < prev.len() {
                assert(kind_indices(cs, files, n)[k] == prev[k]);
            }
        }
    }
}

/// The positions of the children in drawing order.
fn display_order_of(children: &Vec<TreeNode>) -> (r: Vec<usize>)
    ensures
        r@.len() == display_order(children@).len(),
        forall|k: int| 0 <= k < r@.len() ==> r@[k] as int == #[trigger] display_order(children@)[k],
        forall|k: int| 0 <= k < r@.len() ==> #[trigger] r@[k] < children@.len(),
{
    let mut r: Vec<usize> = Vec::new();
    let mut i: usize = 0;
    while i < children.len()
        invariant
            i <= children@.len(),
            r@.len() == kind_indices(children@, false, i as int).len(),
            forall|k: int| 0 <= k < r@.len() ==> r@[k] as int == #[trigger] kind_indices(children@, false, i as int)[k],
        decreases children@.len() - i,
    {
        if !children[i].is_file {
            r.push(i);
        }
        i = i + 1;
    }
    let ghost dirs = r@.len();
    let mut i: usize = 0;
    while i < children.len()
        invariant
            i <= children@.len(),
            dirs == kind_indices(children@, false, children@.len() as int).len(),
            r@.len() == dirs + kind_indices(children@, true, i as int).len(),
            forall|k: int| 0 <= k < dirs ==> r@[k] as int == #[trigger] kind_indices(children@, false, children@.len() as int)[k],
            forall|k: int| dirs <= k < r@.len() ==> r@[k] as int == #[trigger] kind_indices(children@, true, i as int)[k - dirs],
        decreases children@.len() - i,
    {
        if children[i].is_file {
            r.push(i);
        }
        i = i + 1;
    }
    proof {
        lemma_kind_indices_bounds(children@, false, children@.len() as int);
        lemma_kind_indices_bounds(children@, true, children@.len() as int);
        assert forall|k: int| 0 <= k < r@.len() implies r@[k] as int == #[trigger] display_order(children@)[k] by {
            if k >= dirs {
                assert(r@[k] as int == kind_indices(children@, true, children@.len() as int)[k - dirs]);
            }
        }
        assert forall|k: int| 0 <= k < r@.len() implies #[trigger] r@[k] < children@.len() by {
            assert(r@[k] as int == display_order(children@)[k]);
        }
    }
    r
}

/// Appends the lines drawing everything below `node`, each starting with
/// `prefix`.
pub fn render_tree(node: &TreeNode, output: &mut String, prefix: &str)
    requires
        node.wf(),
    ensures
        final(output)@ == old(output)@ + rendered(*node, prefix@),
    decreases node, 0int,
{
    let order = display_order_of(&node.children);
    let n = order.len();
    let mut k: usize = 0;
    while k < n
        invariant
            node.wf(),
            n == order@.len(),
            k <= n,
            order@.len() == display_order(node.children@).len(),
            forall|m: int| 0 <= m < order@.len() ==> order@[m] as int == #[trigger] display_order(node.children@)[m],
            forall|m: int| 0 <= m < order@.len() ==> #[trigger] order@[m] < node.children@.len(),
            output@ + rendered_from(*node, prefix@, k as int) == old(output)@ + rendered_from(*node, prefix@, 0),
        decreases n - k,
    {
        let idx = order[k];
        let ghost before = output@;
        assert(order@[k as int] < node.children@.len());
        assert(node.children@[idx as int].wf());
        render_child(&node.children[idx], output, prefix, k == n - 1);
        proof {
            let c = node.children@[idx as int];
            let last = k == n - 1;
            assert(rendered_from(*node, prefix@, k as int) == entry_line(prefix@, last, c) + rendered_from(
                c,
                prefix@ + continuation(last),
                0,
            ) + rendered_from(*node, prefix@, k + 1));
            assert(output@ + rendered_from(*node, prefix@, k + 1) =~= before + rendered_from(*node, prefix@, k as int));
        }
        k = k + 1;
    }
    assert(output@ =~= old(output)@ + rendered_from(*node, prefix@, 0));
}

/// Appends the line drawing `child` and, below it, the lines of its
/// children.
pub fn render_child(child: &TreeNode, output: &mut String, prefix: &str, is_last: bool)
    requires
        child.wf(),
    ensures
        final(output)@ == old(output)@ + entry_line(prefix@, is_last, *child) + rendered(
            *child,
            prefix@ + continuation(is_last),
        ),
    decreases child, 1int,
{
    output.append(prefix);
    output.append(if is_last { "└── " } else { "├── " });
    output.append(child.name.as_str());
    if !child.is_file {
        output.append("/");
    }
    output.append("\n");
    let ghost line = output@;
    let mut next = String::new();
    next.append(prefix);
    next.append(if is_last { "    " } else { "│   " });
    render_tree(child, output, next.as_str());
    assert(line =~= old(output)@ + entry_line(prefix@, is_last, *child));
}

} // verus!
