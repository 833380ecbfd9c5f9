//! The file tree: a nested name-to-subtree mapping built from root-relative
//! paths, and its deterministic ASCII rendering.
//!
//! Children are kept strictly sorted by name, so the structure a set of
//! paths builds does not depend on insertion order. Rendering lists, at each
//! level, the children with children of their own first and the leaves
//! after, each group in name order, as one line per entry with box-drawing
//! connectors.

use vstd::prelude::*;

use crate::text::{chars_to_string, eq_chars, lex_lt, lex_lt_exec, no_newline, string_to_chars};

verus! {

/// The mathematical shape of a file tree: the name and shape of each child,
/// in order.
#[verifier::ext_equal]
pub struct TreeModel {
    pub children: Seq<(Seq<char>, TreeModel)>,
}

/// The tree with no children.
pub open spec fn empty_model() -> TreeModel {
    TreeModel { children: Seq::empty() }
}

/// A file tree node. The root carries no name of its own.
#[derive(Debug)]
pub struct FileTree {
    pub nodes: Vec<(String, FileTree)>,
}

/// The shapes of the first `n` child nodes.
pub open spec fn model_children(nodes: Seq<(String, FileTree)>, n: int) -> Seq<
    (Seq<char>, TreeModel),
>
    decreases nodes, n,
{
    if n <= 0 || n > nodes.len() {
        Seq::empty()
    } else {
        model_children(nodes, n - 1).push((nodes[n - 1].0@, nodes[n - 1].1.model()))
    }
}

/// `model_children` maps each node to its name and shape.
pub proof fn lemma_model_children_index(nodes: Seq<(String, FileTree)>, n: int)
    requires
        0 <= n <= nodes.len(),
    ensures
        model_children(nodes, n).len() == n,
        forall|i: int|
            0 <= i < n ==> #[trigger] model_children(nodes, n)[i] == (
                nodes[i].0@,
                nodes[i].1.model(),
            ),
    decreases n,
{
    if n > 0 {
        lemma_model_children_index(nodes, n - 1);
    }
}

impl FileTree {
    /// The shape of this tree.
    pub open spec fn model(self) -> TreeModel
        decreases self, 0int,
    {
        TreeModel { children: model_children(self.nodes@, self.nodes@.len() as int) }
    }

    /// Each child of the shape is the name and shape of the node there.
    pub proof fn lemma_model_index(self)
        ensures
            self.model().children.len() == self.nodes@.len(),
            forall|i: int|
                0 <= i < self.nodes@.len() ==> #[trigger] self.model().children[i] == (
                    self.nodes@[i].0@,
                    self.nodes@[i].1.model(),
                ),
    {
        lemma_model_children_index(self.nodes@, self.nodes@.len() as int);
    }

    /// An empty tree.
    pub fn new() -> (r: FileTree)
        ensures
            r.model() == empty_model(),
    {
        let r = FileTree { nodes: Vec::new() };
        proof {
            assert(r.model().children =~= empty_model().children);
            assert(r.model() =~= empty_model());
        }
        r
    }
}

impl Default for FileTree {
    /// An empty tree.
    fn default() -> (r: FileTree)
        ensures
            r.model() == empty_model(),
    {
        FileTree::new()
    }
}

/// How many leading children sort strictly below `name`: the position at
/// which `name` belongs.
pub open spec fn child_pos(children: Seq<(Seq<char>, TreeModel)>, name: Seq<char>) -> int
    decreases children.len(),
{
    if children.len() == 0 {
        0
    } else if lex_lt(children[0].0, name) {
        1 + child_pos(children.drop_first(), name)
    } else {
        0
    }
}

/// `child_pos` is the first position whose name does not sort below `name`.
proof fn lemma_child_pos_char(children: Seq<(Seq<char>, TreeModel)>, name: Seq<char>, j: int)
    requires
        0 <= j <= children.len(),
        forall|k: int| 0 <= k < j ==> lex_lt(#[trigger] children[k].0, name),
        j < children.len() ==> !lex_lt(children[j].0, name),
    ensures
        child_pos(children, name) == j,
    decreases children.len(),
{
    if children.len() == 0 {
    } else if j == 0 {
    } else {
        let tail = children.drop_first();
        assert(forall|k: int| 0 <= k < tail.len() ==> #[trigger] tail[k] == children[k + 1]);
        lemma_child_pos_char(tail, name, j - 1);
    }
}

/// The tree after adding one path, given as its components: the walk
/// creates each missing node at its sorted position and reuses the rest.
pub open spec fn model_insert(m: TreeModel, segs: Seq<Seq<char>>) -> TreeModel
    decreases segs.len(),
{
    if segs.len() == 0 {
        m
    } else {
        let name = segs[0];
        let j = child_pos(m.children, name);
        if j < m.children.len() && m.children[j].0 == name {
            TreeModel {
                children: m.children.update(
                    j,
                    (name, model_insert(m.children[j].1, segs.drop_first())),
                ),
            }
        } else {
            TreeModel {
                children: m.children.insert(
                    j,
                    (name, model_insert(empty_model(), segs.drop_first())),
                ),
            }
        }
    }
}

/// The tree after adding every path in order.
pub open spec fn fold_insert(m: TreeModel, paths: Seq<Seq<char>>) -> TreeModel
    decreases paths.len(),
{
    if paths.len() == 0 {
        m
    } else {
        model_insert(
            fold_insert(m, paths.drop_last()),
            crate::paths::split_components(paths.last()),
        )
    }
}

impl FileTree {
    /// Adds one path's components, from index `from` on, below this node.
    #[verifier::loop_isolation(false)]
    fn insert_segs(&mut self, segs: &Vec<Vec<char>>, from: usize)
        requires
            from <= segs@.len(),
        ensures
            final(self).model() == model_insert(
                old(self).model(),
                crate::paths::seq_views(segs@).skip(from as int),
            ),
        decreases segs@.len() - from,
    {
        let ghost m0 = self.model();
        let ghost rest = crate::paths::seq_views(segs@).skip(from as int);
        if from == segs.len() {
            proof {
                assert(rest.len() == 0);
            }
            return ;
        }
        let name = &segs[from];
        proof {
            assert(rest[0] == segs@[from as int]@);
            assert(rest.drop_first() =~= crate::paths::seq_views(segs@).skip(from + 1 as int));
        }
        // Find the sorted position of `name`.
        let mut i: usize = 0;
        let mut stop = false;
        while !stop && i < self.nodes.len()
            invariant
                i <= self.nodes@.len(),
                forall|k: int| 0 <= k < i ==> lex_lt(#[trigger] m0.children[k].0, name@),
                stop ==> i < self.nodes@.len() && !lex_lt(m0.children[i as int].0, name@),
                self.model() == m0,
            decreases self.nodes@.len() - i + (if stop {
                0int
            } else {
                1int
            }),
        {
            let node_name = string_to_chars(self.nodes[i].0.as_str());
            proof {
                self.lemma_model_index();
                assert(m0.children[i as int].0 == self.nodes@[i as int].0@);
            }
            if !lex_lt_exec(&node_name, name) {
                stop = true;
            } else {
                i += 1;
            }
        }
        proof {
            self.lemma_model_index();
            assert(m0.children.len() == self.nodes@.len());
            lemma_child_pos_char(m0.children, name@, i as int);
        }
        let mut equal_here = false;
        if i < self.nodes.len() {
            let node_name = string_to_chars(self.nodes[i].0.as_str());
            equal_here = eq_chars(&node_name, name);
        }
        if equal_here {
            // Walk into the existing child.
            let (nm, mut child) = self.nodes.remove(i);
            let ghost child_m = child.model();
            proof {
                old(self).lemma_model_index();
                assert(child_m == m0.children[i as int].1);
            }
            child.insert_segs(segs, from + 1);
            self.nodes.insert(i, (nm, child));
            proof {
                self.lemma_model_index();
                assert(self.nodes@ =~= old(self).nodes@.update(
                    i as int,
                    (old(self).nodes@[i as int].0, self.nodes@[i as int].1),
                ));
                assert(self.model().children =~~= m0.children.update(
                    i as int,
                    (name@, model_insert(child_m, rest.drop_first())),
                ));
                assert(self.model() =~~= model_insert(m0, rest));
            }
        } else {
            // Create the missing child at its sorted position.
            let mut child = FileTree::new();
            child.insert_segs(segs, from + 1);
            let nm = chars_to_string(name);
            self.nodes.insert(i, (nm, child));
            proof {
                self.lemma_model_index();
                old(self).lemma_model_index();
                assert(self.nodes@ =~= old(self).nodes@.insert(
                    i as int,
                    self.nodes@[i as int],
                ));
                assert(self.model().children =~~= m0.children.insert(
                    i as int,
                    (name@, model_insert(empty_model(), rest.drop_first())),
                ));
                assert(self.model() =~~= model_insert(m0, rest));
            }
        }
    }

    /// Builds the tree of all the given paths; the result does not depend
    /// on their order.
    pub fn create_map(self, paths: Vec<String>) -> (r: FileTree)
        ensures
            r.model() == fold_insert(self.model(), paths@.map_values(|s: String| s@)),
    {
        let ghost all = paths@.map_values(|s: String| s@);
        let ghost m0 = self.model();
        let mut t = self;
        let mut i: usize = 0;
        proof {
            assert(all.subrange(0, 0) =~= Seq::<Seq<char>>::empty());
        }
        while i < paths.len()
            invariant
                i <= paths.len(),
                all == paths@.map_values(|s: String| s@),
                t.model() == fold_insert(m0, all.subrange(0, i as int)),
            decreases paths.len() - i,
        {
            let chars = string_to_chars(paths[i].as_str());
            let segs = crate::paths::split_chars(&chars);
            proof {
                assert(all[i as int] == paths@[i as int]@);
                assert(crate::paths::seq_views(segs@).skip(0) =~= crate::paths::split_components(
                    all[i as int],
                ));
            }
            t.insert_segs(&segs, 0);
            i += 1;
            proof {
                let pre = all.subrange(0, i as int);
                assert(pre.drop_last() =~= all.subrange(0, i - 1));
                assert(pre.last() == all[i - 1]);
            }
        }
        proof {
            assert(all.subrange(0, all.len() as int) =~= all);
        }
        t
    }
}

/// The indices, in order, of the first `n` children whose leafness is
/// `leaf`.
pub open spec fn idxs_where(children: Seq<(Seq<char>, TreeModel)>, leaf: bool, n: int) -> Seq<int>
    decreases n,
{
    if n <= 0 {
        Seq::empty()
    } else {
        idxs_where(children, leaf, n - 1) + if (children[n - 1].1.children.len() == 0) == leaf {
            seq![n - 1]
        } else {
            Seq::empty()
        }
    }
}

/// The order rendering walks a level in: children with children of their
/// own first, then the leaves; each group in stored (name) order.
pub open spec fn order_idx(children: Seq<(Seq<char>, TreeModel)>) -> Seq<int> {
    idxs_where(children, false, children.len() as int) + idxs_where(
        children,
        true,
        children.len() as int,
    )
}

/// Every listed index lies within the first `n`.
proof fn lemma_idxs_where_range(children: Seq<(Seq<char>, TreeModel)>, leaf: bool, n: int)
    ensures
        forall|j: int|
            0 <= j < idxs_where(children, leaf, n).len() ==> 0 <= #[trigger] idxs_where(
                children,
                leaf,
                n,
            )[j] < n,
    decreases n,
{
    if n > 0 {
        lemma_idxs_where_range(children, leaf, n - 1);
        let cur = idxs_where(children, leaf, n);
        let prev = idxs_where(children, leaf, n - 1);
        assert forall|j: int| 0 <= j < cur.len() implies 0 <= #[trigger] cur[j] < n by {
            if j < prev.len() {
                assert(cur[j] == prev[j]);
            } else {
                assert(cur[j] == n - 1);
            }
        }
    }
}

/// The connector that opens an entry's line.
pub open spec fn connector(last: bool) -> Seq<char> {
    if last {
        seq!['└', '─', '─', ' ']
    } else {
        seq!['├', '─', '─', ' ']
    }
}

/// What an entry adds to the prefix of the lines below it.
pub open spec fn prefix_ext(last: bool) -> Seq<char> {
    if last {
        seq![' ', ' ', ' ', ' ']
    } else {
        seq!['│', ' ', ' ', ' ']
    }
}

/// The lines of the first `k` entries of this level, in walk order.
pub open spec fn render_upto(m: TreeModel, prefix: Seq<char>, k: int) -> Seq<Seq<char>>
    decreases m, k, 0int,
{
    if k <= 0 {
        Seq::empty()
    } else {
        render_upto(m, prefix, k - 1) + entry_lines(m, prefix, k - 1)
    }
}

/// The lines of the level's `k`-th entry in walk order: its own line, then
/// the lines of its subtree.
pub open spec fn entry_lines(m: TreeModel, prefix: Seq<char>, k: int) -> Seq<Seq<char>>
    decreases m, k, 1int,
{
    let ord = order_idx(m.children);
    if 0 <= k < ord.len() && 0 <= ord[k] < m.children.len() {
        let e = m.children[ord[k]];
        let last = k == ord.len() - 1;
        seq![prefix + connector(last) + e.0] + render_lines(e.1, prefix + prefix_ext(last))
    } else {
        Seq::empty()
    }
}

/// All lines below a node.
pub open spec fn render_lines(m: TreeModel, prefix: Seq<char>) -> Seq<Seq<char>>
    decreases m, order_idx(m.children).len() + 1, 2int,
{
    render_upto(m, prefix, order_idx(m.children).len() as int)
}

/// The rendered text of a whole tree: the sentinel header, the lines joined
/// by newlines, and the sentinel terminator.
pub open spec fn spec_render(m: TreeModel) -> Seq<char> {
    crate::parsing::block_header() + seq!['\n'] + crate::paths::join_sep(
        render_lines(m, Seq::empty()),
        '\n',
    ) + seq!['\n'] + crate::parsing::block_terminator()
}

/// Collects the indices of this node's children in walk order.
#[verifier::loop_isolation(false)]
fn order_indices(t: &FileTree) -> (ord: Vec<usize>)
    ensures
        ord@.map_values(|u: usize| u as int) == order_idx(t.model().children),
        forall|j: int| 0 <= j < ord@.len() ==> #[trigger] ord@[j] < t.nodes@.len(),
{
    let ghost cs = t.model().children;
    proof {
        t.lemma_model_index();
    }
    let mut ord: Vec<usize> = Vec::new();
    let mut i: usize = 0;
    proof {
        assert(ord@.map_values(|u: usize| u as int) =~= idxs_where(cs, false, 0));
    }
    while i < t.nodes.len()
        invariant
            i <= t.nodes@.len(),
            ord@.map_values(|u: usize| u as int) == idxs_where(cs, false, i as int),
            forall|j: int| 0 <= j < ord@.len() ==> #[trigger] ord@[j] < t.nodes@.len(),
        decreases t.nodes@.len() - i,
    {
        let ghost before = ord@.map_values(|u: usize| u as int);
        proof {
            t.nodes@[i as int].1.lemma_model_index();
            assert(cs[i as int].1.children.len() == t.nodes@[i as int].1.nodes@.len());
        }
        if t.nodes[i].1.nodes.len() > 0 {
            ord.push(i);
            proof {
                assert(ord@.map_values(|u: usize| u as int) =~= before.push(i as int));
            }
        }
        i += 1;
        proof {
            assert(ord@.map_values(|u: usize| u as int) =~= idxs_where(cs, false, i as int));
        }
    }
    let ghost mid = ord@.map_values(|u: usize| u as int);
    let mut i2: usize = 0;
    proof {
        assert(mid + idxs_where(cs, true, 0) =~= mid);
    }
    while i2 < t.nodes.len()
        invariant
            i2 <= t.nodes@.len(),
            ord@.map_values(|u: usize| u as int) == mid + idxs_where(cs, true, i2 as int),
            forall|j: int| 0 <= j < ord@.len() ==> #[trigger] ord@[j] < t.nodes@.len(),
        decreases t.nodes@.len() - i2,
    {
        let ghost before = ord@.map_values(|u: usize| u as int);
        proof {
            t.nodes@[i2 as int].1.lemma_model_index();
            assert(cs[i2 as int].1.children.len() == t.nodes@[i2 as int].1.nodes@.len());
        }
        if t.nodes[i2].1.nodes.len() == 0 {
            ord.push(i2);
            proof {
                assert(ord@.map_values(|u: usize| u as int) =~= before.push(i2 as int));
                assert(ord@.map_values(|u: usize| u as int) =~= mid + idxs_where(
                    cs,
                    true,
                    i2 + 1 as int,
                ));
            }
        } else {
            proof {
                assert(ord@.map_values(|u: usize| u as int) =~= mid + idxs_where(
                    cs,
                    true,
                    i2 + 1 as int,
                ));
            }
        }
        i2 += 1;
    }
    proof {
        assert(cs.len() == t.nodes@.len());
    }
    ord
}

/// Emits the lines below `t` onto `out`, each under `prefix`.
#[verifier::loop_isolation(false)]
fn walk(t: &FileTree, prefix: &Vec<char>, out: &mut Vec<Vec<char>>)
    ensures
        crate::paths::seq_views(final(out)@) == crate::paths::seq_views(old(out)@) + render_lines(
            t.model(),
            prefix@,
        ),
    decreases *t,
{
    let ghost m = t.model();
    let ord = order_indices(t);
    let mut k: usize = 0;
    proof {
        t.lemma_model_index();
        assert(crate::paths::seq_views(out@) + render_upto(m, prefix@, 0)
            =~= crate::paths::seq_views(out@));
    }
    while k < ord.len()
        invariant
            k <= ord@.len(),
            crate::paths::seq_views(out@) == crate::paths::seq_views(old(out)@) + render_upto(
                m,
                prefix@,
                k as int,
            ),
        decreases ord@.len() - k,
    {
        let idx = ord[k];
        let last = k == ord.len() - 1;
        let ghost oi = order_idx(m.children);
        proof {
            assert(oi[k as int] == ord@[k as int] as int);
            assert(0 <= oi[k as int] < m.children.len());
            assert(m.children[oi[k as int]] == (t.nodes@[idx as int].0@, t.nodes@[idx as int].1.model()));
        }
        let mut line = crate::text::copy_chars(prefix);
        if last {
            line.push('└');
        } else {
            line.push('├');
        }
        line.push('─');
        line.push('─');
        line.push(' ');
        let name = string_to_chars(t.nodes[idx].0.as_str());
        crate::text::append_chars(&mut line, &name);
        proof {
            assert(line@ =~= prefix@ + connector(last) + m.children[oi[k as int]].0);
        }
        let ghost before_push = crate::paths::seq_views(out@);
        out.push(line);
        proof {
            assert(crate::paths::seq_views(out@) =~= before_push.push(line@));
        }
        let mut child_prefix = crate::text::copy_chars(prefix);
        if last {
            child_prefix.push(' ');
        } else {
            child_prefix.push('│');
        }
        child_prefix.push(' ');
        child_prefix.push(' ');
        child_prefix.push(' ');
        proof {
            assert(child_prefix@ =~= prefix@ + prefix_ext(last));
        }
        walk(&t.nodes[idx].1, &child_prefix, out);
        k += 1;
        proof {
            assert(entry_lines(m, prefix@, k - 1) == seq![
                prefix@ + connector(last) + m.children[oi[k - 1]].0,
            ] + render_lines(m.children[oi[k - 1]].1, prefix@ + prefix_ext(last)));
            assert(crate::paths::seq_views(out@) =~= crate::paths::seq_views(old(out)@)
                + render_upto(m, prefix@, k as int));
        }
    }
    proof {
        assert(order_idx(m.children).len() == ord@.len());
    }
}

/// A child entry whose name is newline-free, with a clean shape below it.
pub open spec fn clean_entry(e: (Seq<char>, TreeModel)) -> bool
    decreases e, 0int,
{
    no_newline(e.0) && clean_model(e.1)
}

/// No name among the first `n` children, nor below them, holds a newline.
pub open spec fn clean_children(cs: Seq<(Seq<char>, TreeModel)>, n: int) -> bool
    decreases cs, n,
{
    if n <= 0 || n > cs.len() {
        true
    } else {
        clean_children(cs, n - 1) && clean_entry(cs[n - 1])
    }
}

/// No name anywhere in the shape holds a newline.
pub open spec fn clean_model(m: TreeModel) -> bool
    decreases m, 1int,
{
    clean_children(m.children, m.children.len() as int)
}

/// Each of the first `n` children of a clean level is clean.
proof fn lemma_clean_children_index(cs: Seq<(Seq<char>, TreeModel)>, n: int)
    requires
        0 <= n <= cs.len(),
        clean_children(cs, n),
    ensures
        forall|i: int| 0 <= i < n ==> #[trigger] clean_entry(cs[i]),
    decreases n,
{
    if n > 0 {
        lemma_clean_children_index(cs, n - 1);
    }
}

/// A line rendering emits: opens with a box-drawing character or a space,
/// and holds no newline.
pub open spec fn good_line(line: Seq<char>) -> bool {
    &&& line.len() > 0
    &&& (line[0] == '│' || line[0] == '├' || line[0] == '└' || line[0] == ' ')
    &&& no_newline(line)
}

/// Every line of the sequence is good.
pub open spec fn good_lines(lines: Seq<Seq<char>>) -> bool {
    forall|j: int| 0 <= j < lines.len() ==> good_line(#[trigger] lines[j])
}

/// A prefix rendering hands down: newline-free, and opening with a bar or
/// a space when it is not empty.
pub open spec fn good_prefix(prefix: Seq<char>) -> bool {
    no_newline(prefix) && (prefix.len() == 0 || prefix[0] == '│' || prefix[0] == ' ')
}

/// The lines of the first `k` entries of a clean level are good.
proof fn lemma_render_upto_good(m: TreeModel, prefix: Seq<char>, k: int)
    requires
        clean_model(m),
        good_prefix(prefix),
    ensures
        good_lines(render_upto(m, prefix, k)),
    decreases m, k, 0int,
{
    if k > 0 {
        lemma_render_upto_good(m, prefix, k - 1);
        lemma_entry_lines_good(m, prefix, k - 1);
        let a = render_upto(m, prefix, k - 1);
        let b = entry_lines(m, prefix, k - 1);
        assert forall|j: int| 0 <= j < (a + b).len() implies good_line(#[trigger] (a + b)[j]) by {
            if j < a.len() {
                assert((a + b)[j] == a[j]);
            } else {
                assert((a + b)[j] == b[j - a.len()]);
            }
        }
    }
}

/// The lines of a clean level's `k`-th entry are good.
proof fn lemma_entry_lines_good(m: TreeModel, prefix: Seq<char>, k: int)
    requires
        clean_model(m),
        good_prefix(prefix),
    ensures
        good_lines(entry_lines(m, prefix, k)),
    decreases m, k, 1int,
{
    let ord = order_idx(m.children);
    if 0 <= k < ord.len() && 0 <= ord[k] < m.children.len() {
        let e = m.children[ord[k]];
        let last = k == ord.len() - 1;
        lemma_clean_children_index(m.children, m.children.len() as int);
        assert(clean_entry(m.children[ord[k]]));
        assert(no_newline(e.0) && clean_model(e.1));
        let line = prefix + connector(last) + e.0;
        assert(good_line(line)) by {
            assert(connector(last)[0] == '└' || connector(last)[0] == '├');
            if prefix.len() > 0 {
                assert(line[0] == prefix[0]);
            } else {
                assert(line[0] == connector(last)[0]);
            }
            assert forall|i: int| 0 <= i < line.len() implies #[trigger] line[i] != '\n' by {
                if i < prefix.len() {
                    assert(line[i] == prefix[i]);
                } else if i < prefix.len() + 4 {
                    assert(line[i] == connector(last)[i - prefix.len()]);
                    assert(connector(last)[0] != '\n' && connector(last)[1] != '\n'
                        && connector(last)[2] != '\n' && connector(last)[3] != '\n');
                } else {
                    assert(line[i] == e.0[i - prefix.len() - 4]);
                }
            }
        }
        let child_prefix = prefix + prefix_ext(last);
        assert(good_prefix(child_prefix)) by {
            assert(prefix_ext(last)[0] == ' ' || prefix_ext(last)[0] == '│');
            if prefix.len() > 0 {
                assert(child_prefix[0] == prefix[0]);
            } else {
                assert(child_prefix[0] == prefix_ext(last)[0]);
            }
            assert forall|i: int|
                0 <= i < child_prefix.len() implies #[trigger] child_prefix[i] != '\n' by {
                if i < prefix.len() {
                    assert(child_prefix[i] == prefix[i]);
                } else {
                    assert(child_prefix[i] == prefix_ext(last)[i - prefix.len()]);
                    assert(prefix_ext(last)[0] != '\n' && prefix_ext(last)[1] != '\n'
                        && prefix_ext(last)[2] != '\n' && prefix_ext(last)[3] != '\n');
                }
            }
        }
        lemma_render_lines_good(e.1, child_prefix);
        let rest = render_lines(e.1, child_prefix);
        let whole = seq![line] + rest;
        assert forall|j: int| 0 <= j < whole.len() implies good_line(#[trigger] whole[j]) by {
            if j == 0 {
                assert(whole[0] == line);
            } else {
                assert(whole[j] == rest[j - 1]);
            }
        }
    }
}

/// All lines below a clean node are good.
proof fn lemma_render_lines_good(m: TreeModel, prefix: Seq<char>)
    requires
        clean_model(m),
        good_prefix(prefix),
    ensures
        good_lines(render_lines(m, prefix)),
    decreases m, order_idx(m.children).len() + 1, 2int,
{
    lemma_render_upto_good(m, prefix, order_idx(m.children).len() as int);
}

/// In a newline-joined sequence of good lines, whatever follows a newline
/// opens a line, and the first character opens one too.
proof fn lemma_join_good(lines: Seq<Seq<char>>)
    requires
        good_lines(lines),
    ensures
        ({
            let body = crate::paths::join_sep(lines, '\n');
            &&& (body.len() > 0 ==> (body[0] == '│' || body[0] == '├' || body[0] == '└'
                || body[0] == ' '))
            &&& forall|q: int|
                1 <= q < body.len() && body[q - 1] == '\n' ==> (#[trigger] body[q] == '│'
                    || body[q] == '├' || body[q] == '└' || body[q] == ' ')
        }),
    decreases lines.len(),
{
    let body = crate::paths::join_sep(lines, '\n');
    if lines.len() > 0 {
        let first = lines[0];
        let rest = lines.drop_first();
        assert(good_lines(rest)) by {
            assert(forall|j: int|
                0 <= j < rest.len() ==> #[trigger] rest[j] == lines[j + 1]);
        }
        lemma_join_good(rest);
        let tail = crate::paths::join_tail(rest, '\n');
        assert(body == first + tail);
        let rbody = crate::paths::join_sep(rest, '\n');
        if rest.len() > 0 {
            assert(tail == seq!['\n'] + rest[0] + crate::paths::join_tail(
                rest.drop_first(),
                '\n',
            ));
            assert(rbody == rest[0] + crate::paths::join_tail(rest.drop_first(), '\n'));
            assert(tail =~= seq!['\n'] + rbody);
        }
        assert(body[0] == first[0]);
        assert forall|q: int|
            1 <= q < body.len() && body[q - 1] == '\n' implies (#[trigger] body[q] == '│'
            || body[q] == '├' || body[q] == '└' || body[q] == ' ') by {
            if q < first.len() {
                assert(body[q - 1] == first[q - 1]);
                assert(first[q - 1] != '\n');
            } else if q == first.len() {
                assert(body[q - 1] == first[q - 1]);
                assert(first[q - 1] != '\n');
            } else {
                // Inside the tail, which is a newline then the joined rest.
                assert(rest.len() > 0);
                assert(body[q] == tail[q - first.len()]);
                let t = q - first.len();
                assert(tail[t] == (seq!['\n'] + rbody)[t]);
                if t == 0 {
                } else {
                    assert(tail[t] == rbody[t - 1]);
                    if q - 1 == first.len() {
                        // The separator newline: the next character opens
                        // the joined rest.
                        assert(t == 1);
                        assert(rbody[0] == '│' || rbody[0] == '├' || rbody[0] == '└'
                            || rbody[0] == ' ');
                    } else {
                        assert(body[q - 1] == tail[t - 1]);
                        assert(tail[t - 1] == rbody[t - 2]);
                        assert(1 <= t - 1 < rbody.len() && rbody[t - 2] == '\n' ==> (rbody[t
                            - 1] == '│' || rbody[t - 1] == '├' || rbody[t - 1] == '└' || rbody[t
                            - 1] == ' '));
                    }
                }
            }
        }
    }
}

/// The rendering of a clean tree is a block the splice recognises again:
/// it opens with the sentinel header, closes with the sentinel terminator,
/// and holds no earlier terminator.
pub proof fn lemma_render_wf(m: TreeModel)
    requires
        clean_model(m),
    ensures
        crate::parsing::wf_block(spec_render(m)),
{
    crate::parsing::lemma_sentinel_chars();
    let lines = render_lines(m, Seq::empty());
    assert(good_prefix(Seq::empty()));
    lemma_render_lines_good(m, Seq::empty());
    lemma_join_good(lines);
    let body = crate::paths::join_sep(lines, '\n');
    let b = body.len() as int;
    let block = spec_render(m);
    assert(block == crate::parsing::block_header() + seq!['\n'] + body + seq!['\n']
        + crate::parsing::block_terminator());
    assert(block.len() == 22 + b);
    assert forall|j: int| 0 <= j < 14 implies block[j] == crate::parsing::block_header()[j] by {}
    assert(block[14] == '\n');
    assert forall|j: int| 0 <= j < b implies block[15 + j] == body[j] by {}
    assert(block[15 + b] == '\n');
    assert forall|j: int|
        0 <= j < 6 implies block[16 + b + j] == crate::parsing::block_terminator()[j] by {}
    assert(crate::parsing::header_at(block, 0)) by {
        assert(block.subrange(0, 14) =~= crate::parsing::block_header());
    }
    assert(crate::parsing::end_at(block, 16 + b)) by {
        assert(block.subrange(16 + b, 22 + b) =~= crate::parsing::block_terminator());
    }
    assert forall|q: int| 14 <= q < 16 + b implies !crate::parsing::end_at(block, q) by {
        if crate::parsing::end_at(block, q) {
            assert(block.subrange(q, q + 6)[0] == block[q]);
            assert(block[q] == ':');
            if q == 14 {
                assert(block[14] == '\n');
            } else if q == 15 + b {
                assert(block[15 + b] == '\n');
            } else if q == 15 {
                if b == 0 {
                    assert(block[15] == '\n');
                } else {
                    assert(block[15] == body[0]);
                }
            } else {
                assert(16 <= q < 15 + b);
                assert(block[q] == body[q - 15]);
                assert(block[q - 1] == body[q - 16]);
                assert(body[q - 16] == '\n');
                assert(body[q - 15] == '│' || body[q - 15] == '├' || body[q - 15] == '└'
                    || body[q - 15] == ' ');
            }
        }
    }
    crate::parsing::lemma_find_end_is(block, 14, 16 + b);
}

impl FileTree {
    /// Renders the tree: one line per entry with box-drawing connectors,
    /// wrapped in the sentinel header and terminator.
    pub fn render(&self) -> (r: String)
        ensures
            r@ == spec_render(self.model()),
    {
        let mut lines: Vec<Vec<char>> = Vec::new();
        let prefix: Vec<char> = Vec::new();
        proof {
            assert(prefix@ =~= Seq::<char>::empty());
            assert(crate::paths::seq_views(lines@) =~= Seq::<Seq<char>>::empty());
        }
        walk(self, &prefix, &mut lines);
        proof {
            assert(crate::paths::seq_views(lines@) =~= render_lines(
                self.model(),
                Seq::empty(),
            ));
        }
        let body = crate::paths::join_chars_sep(&lines, '\n');
        let mut out = crate::parsing::header_chars();
        out.push('\n');
        crate::text::append_chars(&mut out, &body);
        out.push('\n');
        let term = crate::parsing::terminator_chars();
        crate::text::append_chars(&mut out, &term);
        proof {
            assert(out@ =~= spec_render(self.model()));
        }
        chars_to_string(&out)
    }
}

/// `child_pos` lies within the level.
proof fn lemma_child_pos_range(children: Seq<(Seq<char>, TreeModel)>, name: Seq<char>)
    ensures
        0 <= child_pos(children, name) <= children.len(),
    decreases children.len(),
{
    if children.len() > 0 && lex_lt(children[0].0, name) {
        lemma_child_pos_range(children.drop_first(), name);
    }
}

/// One entry of a clean level is clean.
proof fn lemma_clean_children_at(cs: Seq<(Seq<char>, TreeModel)>, n: int, i: int)
    requires
        0 <= i < n <= cs.len(),
        clean_children(cs, n),
    ensures
        clean_entry(cs[i]),
    decreases n,
{
    if i < n - 1 {
        lemma_clean_children_at(cs, n - 1, i);
    }
}

/// A level whose entries are each clean is clean.
proof fn lemma_clean_children_build(cs: Seq<(Seq<char>, TreeModel)>, n: int)
    requires
        0 <= n <= cs.len(),
        forall|i: int| 0 <= i < n ==> #[trigger] clean_entry(cs[i]),
    ensures
        clean_children(cs, n),
    decreases n,
{
    if n > 0 {
        lemma_clean_children_build(cs, n - 1);
        assert(clean_entry(cs[n - 1]));
    }
}

/// Adding a path of newline-free components keeps the shape clean.
#[verifier::rlimit(50)]
pub proof fn lemma_model_insert_clean(m: TreeModel, segs: Seq<Seq<char>>)
    requires
        clean_model(m),
        forall|j: int| 0 <= j < segs.len() ==> no_newline(#[trigger] segs[j]),
    ensures
        clean_model(model_insert(m, segs)),
    decreases segs.len(),
{
    if segs.len() > 0 {
        let name = segs[0];
        let cs = m.children;
        let j = child_pos(cs, name);
        lemma_child_pos_range(cs, name);
        let rest = segs.drop_first();
        assert(forall|i: int| 0 <= i < rest.len() ==> #[trigger] rest[i] == segs[i + 1]);
        lemma_clean_children_index(cs, cs.len() as int);
        if j < cs.len() && cs[j].0 == name {
            assert(clean_entry(cs[j]));
            lemma_model_insert_clean(cs[j].1, rest);
            let cs2 = cs.update(j, (name, model_insert(cs[j].1, rest)));
            assert forall|i: int| 0 <= i < cs2.len() implies #[trigger] clean_entry(cs2[i]) by {
                if i != j {
                    assert(cs2[i] == cs[i]);
                    lemma_clean_children_at(cs, cs.len() as int, i);
                } else {
                    assert(cs2[i] == (name, model_insert(cs[j].1, rest)));
                    assert(no_newline(segs[0]));
                }
            }
            lemma_clean_children_build(cs2, cs2.len() as int);
        } else {
            assert(clean_model(empty_model())) by {
                assert(clean_children(empty_model().children, 0));
            }
            lemma_model_insert_clean(empty_model(), rest);
            let cs2 = cs.insert(j, (name, model_insert(empty_model(), rest)));
            assert forall|i: int| 0 <= i < cs2.len() implies #[trigger] clean_entry(cs2[i]) by {
                if i < j {
                    assert(cs2[i] == cs[i]);
                    lemma_clean_children_at(cs, cs.len() as int, i);
                } else if i > j {
                    assert(cs2[i] == cs[i - 1]);
                    lemma_clean_children_at(cs, cs.len() as int, i - 1);
                } else {
                    assert(cs2[i] == (name, model_insert(empty_model(), rest)));
                    assert(no_newline(segs[0]));
                }
            }
            lemma_clean_children_build(cs2, cs2.len() as int);
        }
    }
}

/// A tree built from newline-free paths is clean.
pub proof fn lemma_fold_insert_clean(m: TreeModel, paths: Seq<Seq<char>>)
    requires
        clean_model(m),
        forall|i: int| 0 <= i < paths.len() ==> crate::text::no_newline(#[trigger] paths[i]),
    ensures
        clean_model(fold_insert(m, paths)),
    decreases paths.len(),
{
    if paths.len() > 0 {
        let dl = paths.drop_last();
        assert(forall|i: int| 0 <= i < dl.len() ==> #[trigger] dl[i] == paths[i]);
        lemma_fold_insert_clean(m, dl);
        assert(paths[paths.len() - 1] == paths.last());
        crate::paths::lemma_split_clean(paths.last(), Seq::empty());
        lemma_model_insert_clean(
            fold_insert(m, dl),
            crate::paths::split_components(paths.last()),
        );
    }
}

/// The names at one level, in stored order.
pub open spec fn names_of(cs: Seq<(Seq<char>, TreeModel)>) -> Seq<Seq<char>> {
    cs.map_values(|e: (Seq<char>, TreeModel)| e.0)
}

/// Strict ascending lexicographic order.
pub open spec fn strictly_sorted(names: Seq<Seq<char>>) -> bool {
    forall|i: int, j: int| 0 <= i < j < names.len() ==> lex_lt(names[i], names[j])
}

/// A child entry with a well-formed shape below it.
pub open spec fn wf_entry(e: (Seq<char>, TreeModel)) -> bool
    decreases e, 0int,
{
    wf_model(e.1)
}

/// The first `n` children have well-formed shapes.
pub open spec fn wf_kids(cs: Seq<(Seq<char>, TreeModel)>, n: int) -> bool
    decreases cs, n,
{
    if n <= 0 || n > cs.len() {
        true
    } else {
        wf_kids(cs, n - 1) && wf_entry(cs[n - 1])
    }
}

/// A well-formed shape: names strictly sorted at every level.
pub open spec fn wf_model(m: TreeModel) -> bool
    decreases m, 1int,
{
    strictly_sorted(names_of(m.children)) && wf_kids(m.children, m.children.len() as int)
}

/// One entry of a well-formed level is well formed.
proof fn lemma_wf_kids_at(cs: Seq<(Seq<char>, TreeModel)>, n: int, i: int)
    requires
        0 <= i < n <= cs.len(),
        wf_kids(cs, n),
    ensures
        wf_entry(cs[i]),
    decreases n,
{
    if i < n - 1 {
        lemma_wf_kids_at(cs, n - 1, i);
    }
}

/// A level whose entries are each well formed is well formed.
proof fn lemma_wf_kids_build(cs: Seq<(Seq<char>, TreeModel)>, n: int)
    requires
        0 <= n <= cs.len(),
        forall|i: int| 0 <= i < n ==> #[trigger] wf_entry(cs[i]),
    ensures
        wf_kids(cs, n),
    decreases n,
{
    if n > 0 {
        lemma_wf_kids_build(cs, n - 1);
        assert(wf_entry(cs[n - 1]));
    }
}

/// What `child_pos` delimits: everything before it sorts below the name,
/// and the entry there, if any, does not.
proof fn lemma_child_pos_props(cs: Seq<(Seq<char>, TreeModel)>, name: Seq<char>)
    ensures
        0 <= child_pos(cs, name) <= cs.len(),
        forall|k: int|
            0 <= k < child_pos(cs, name) ==> lex_lt(#[trigger] cs[k].0, name),
        child_pos(cs, name) < cs.len() ==> !lex_lt(cs[child_pos(cs, name)].0, name),
    decreases cs.len(),
{
    if cs.len() > 0 && lex_lt(cs[0].0, name) {
        let tail = cs.drop_first();
        assert(forall|k: int| 0 <= k < tail.len() ==> #[trigger] tail[k] == cs[k + 1]);
        lemma_child_pos_props(tail, name);
        assert forall|k: int|
            0 <= k < child_pos(cs, name) implies lex_lt(#[trigger] cs[k].0, name) by {
            if k > 0 {
                assert(tail[k - 1] == cs[k]);
                assert(lex_lt(tail[k - 1].0, name));
            }
        }
    }
}

/// `child_pos` is monotone in the name.
proof fn lemma_child_pos_monotone(cs: Seq<(Seq<char>, TreeModel)>, n1: Seq<char>, n2: Seq<char>)
    requires
        crate::text::lex_leq(n1, n2),
    ensures
        child_pos(cs, n1) <= child_pos(cs, n2),
    decreases cs.len(),
{
    if cs.len() > 0 {
        if lex_lt(cs[0].0, n1) {
            if n1 == n2 {
            } else {
                crate::text::lemma_lex_lt_trans(cs[0].0, n1, n2);
            }
            assert(lex_lt(cs[0].0, n2));
            lemma_child_pos_monotone(cs.drop_first(), n1, n2);
        } else {
            lemma_child_pos_props(cs, n1);
            lemma_child_pos_range(cs, n2);
        }
    }
}

/// Inserting keeps the shape well formed.
pub proof fn lemma_model_insert_wf(m: TreeModel, segs: Seq<Seq<char>>)
    requires
        wf_model(m),
    ensures
        wf_model(model_insert(m, segs)),
    decreases segs.len(),
{
    if segs.len() > 0 {
        let name = segs[0];
        let cs = m.children;
        let j = child_pos(cs, name);
        lemma_child_pos_props(cs, name);
        let rest = segs.drop_first();
        if j < cs.len() && cs[j].0 == name {
            lemma_wf_kids_at(cs, cs.len() as int, j);
            lemma_model_insert_wf(cs[j].1, rest);
            let cs2 = cs.update(j, (name, model_insert(cs[j].1, rest)));
            assert(names_of(cs2) =~= names_of(cs));
            assert forall|i: int| 0 <= i < cs2.len() implies #[trigger] wf_entry(cs2[i]) by {
                if i != j {
                    assert(cs2[i] == cs[i]);
                    lemma_wf_kids_at(cs, cs.len() as int, i);
                } else {
                    assert(cs2[i] == (name, model_insert(cs[j].1, rest)));
                }
            }
            lemma_wf_kids_build(cs2, cs2.len() as int);
        } else {
            assert(wf_model(empty_model())) by {
                assert(wf_kids(empty_model().children, 0));
            }
            lemma_model_insert_wf(empty_model(), rest);
            let cs2 = cs.insert(j, (name, model_insert(empty_model(), rest)));
            // The names stay strictly sorted around the insertion point.
            assert forall|a: int, b: int|
                0 <= a < b < names_of(cs2).len() implies lex_lt(
                names_of(cs2)[a],
                names_of(cs2)[b],
            ) by {
                let na = names_of(cs2)[a];
                let nb = names_of(cs2)[b];
                assert(na == cs2[a].0 && nb == cs2[b].0);
                if a < j && b < j {
                    assert(cs2[a] == cs[a] && cs2[b] == cs[b]);
                    assert(names_of(cs)[a] == cs[a].0 && names_of(cs)[b] == cs[b].0);
                } else if a < j && b == j {
                    assert(cs2[a] == cs[a]);
                    assert(lex_lt(cs[a].0, name));
                } else if a < j && b > j {
                    assert(cs2[a] == cs[a] && cs2[b] == cs[b - 1]);
                    assert(names_of(cs)[a] == cs[a].0 && names_of(cs)[b - 1] == cs[b - 1].0);
                    if a == b - 1 {
                        assert(lex_lt(cs[a].0, name));
                        lemma_name_below(cs, name, b - 1);
                        crate::text::lemma_lex_lt_trans(cs[a].0, name, cs[b - 1].0);
                    } else {
                        assert(lex_lt(names_of(cs)[a], names_of(cs)[b - 1]));
                    }
                } else if a == j {
                    assert(cs2[b] == cs[b - 1]);
                    lemma_name_below(cs, name, b - 1);
                } else {
                    assert(cs2[a] == cs[a - 1] && cs2[b] == cs[b - 1]);
                    assert(names_of(cs)[a - 1] == cs[a - 1].0 && names_of(cs)[b - 1] == cs[b
                        - 1].0);
                }
            }
            assert forall|i: int| 0 <= i < cs2.len() implies #[trigger] wf_entry(cs2[i]) by {
                if i < j {
                    assert(cs2[i] == cs[i]);
                    lemma_wf_kids_at(cs, cs.len() as int, i);
                } else if i > j {
                    assert(cs2[i] == cs[i - 1]);
                    lemma_wf_kids_at(cs, cs.len() as int, i - 1);
                } else {
                    assert(cs2[i] == (name, model_insert(empty_model(), rest)));
                }
            }
            lemma_wf_kids_build(cs2, cs2.len() as int);
        }
    }
}

/// When a name is absent from a sorted level, it sorts below every entry
/// at or after its insertion point.
proof fn lemma_name_below(cs: Seq<(Seq<char>, TreeModel)>, name: Seq<char>, k: int)
    requires
        strictly_sorted(names_of(cs)),
        child_pos(cs, name) <= k < cs.len(),
        !(child_pos(cs, name) < cs.len() && cs[child_pos(cs, name)].0 == name),
    ensures
        lex_lt(name, cs[k].0),
{
    let j = child_pos(cs, name);
    lemma_child_pos_props(cs, name);
    assert(!lex_lt(cs[j].0, name));
    assert(cs[j].0 != name);
    crate::text::lemma_lex_trichotomy(cs[j].0, name);
    assert(lex_lt(name, cs[j].0));
    if j < k {
        assert(names_of(cs)[j] == cs[j].0 && names_of(cs)[k] == cs[k].0);
        assert(lex_lt(cs[j].0, cs[k].0));
        crate::text::lemma_lex_lt_trans(name, cs[j].0, cs[k].0);
    }
}

/// Inserting under two distinct names, the smaller-named path given first,
/// commutes.
proof fn lemma_insert_comm_lt(m: TreeModel, a: Seq<Seq<char>>, b: Seq<Seq<char>>)
    requires
        wf_model(m),
        a.len() > 0,
        b.len() > 0,
        lex_lt(a[0], b[0]),
    ensures
        model_insert(model_insert(m, a), b) == model_insert(model_insert(m, b), a),
{
    let na = a[0];
    let nb = b[0];
    let ra = a.drop_first();
    let rb = b.drop_first();
    let cs = m.children;
    let ja = child_pos(cs, na);
    let jb = child_pos(cs, nb);
    lemma_child_pos_props(cs, na);
    lemma_child_pos_props(cs, nb);
    lemma_child_pos_monotone(cs, na, nb);
    crate::text::lemma_lex_lt_asym(na, nb);
    crate::text::lemma_lex_lt_irrefl(na);
    crate::text::lemma_lex_lt_irrefl(nb);
    let a_exists = ja < cs.len() && cs[ja].0 == na;
    let b_exists = jb < cs.len() && cs[jb].0 == nb;
    assert(wf_model(empty_model())) by {
        assert(wf_kids(empty_model().children, 0));
    }
    if a_exists && b_exists {
        assert(ja != jb);
        let pa = (na, model_insert(cs[ja].1, ra));
        let pb = (nb, model_insert(cs[jb].1, rb));
        let cs1 = cs.update(ja, pa);
        lemma_child_pos_char(cs1, nb, jb);
        assert(cs1[jb] == cs[jb]);
        let cs2 = cs.update(jb, pb);
        lemma_child_pos_char(cs2, na, ja);
        assert(cs2[ja] == cs[ja]);
        assert(cs1.update(jb, pb) =~~= cs2.update(ja, pa));
        assert(model_insert(model_insert(m, a), b) =~~= model_insert(model_insert(m, b), a));
    } else if a_exists && !b_exists {
        assert(ja < cs.len());
        assert(ja != jb || jb >= cs.len() || cs[jb].0 != na || na != nb);
        assert(ja < jb) by {
            if ja == jb && jb < cs.len() {
                assert(!lex_lt(cs[jb].0, nb));
                assert(cs[jb].0 == na);
                assert(false);
            }
        }
        let pa = (na, model_insert(cs[ja].1, ra));
        let qb = (nb, model_insert(empty_model(), rb));
        let cs1 = cs.update(ja, pa);
        lemma_child_pos_char(cs1, nb, jb);
        assert(jb < cs1.len() ==> cs1[jb] == cs[jb]);
        let cs2 = cs.insert(jb, qb);
        lemma_child_pos_char(cs2, na, ja);
        assert(cs2[ja] == cs[ja]);
        assert(cs1.insert(jb, qb) =~~= cs2.update(ja, pa));
        assert(model_insert(model_insert(m, a), b) =~~= model_insert(model_insert(m, b), a));
    } else if !a_exists && b_exists {
        assert(jb < cs.len());
        let qa = (na, model_insert(empty_model(), ra));
        let pb = (nb, model_insert(cs[jb].1, rb));
        let cs1 = cs.insert(ja, qa);
        // After inserting the smaller name, the larger one's slot shifts by
        // one.
        assert forall|k: int| 0 <= k < jb + 1 implies lex_lt(#[trigger] cs1[k].0, nb) by {
            if k < ja {
                assert(cs1[k] == cs[k]);
                assert(lex_lt(cs[k].0, na));
                crate::text::lemma_lex_lt_trans(cs[k].0, na, nb);
            } else if k == ja {
                assert(cs1[k] == qa);
            } else {
                assert(cs1[k] == cs[k - 1]);
                assert(lex_lt(cs[k - 1].0, nb));
            }
        }
        assert(cs1[jb + 1] == cs[jb]);
        lemma_child_pos_char(cs1, nb, jb + 1);
        let cs2 = cs.update(jb, pb);
        lemma_child_pos_char(cs2, na, ja);
        assert(ja < cs2.len() ==> cs2[ja].0 != na) by {
            if ja < cs2.len() {
                if ja == jb {
                    assert(cs2[ja] == pb);
                } else {
                    assert(cs2[ja] == cs[ja]);
                }
            }
        }
        assert(cs1.update(jb + 1, pb) =~~= cs2.insert(ja, qa));
        assert(model_insert(model_insert(m, a), b) =~~= model_insert(model_insert(m, b), a));
    } else {
        let qa = (na, model_insert(empty_model(), ra));
        let qb = (nb, model_insert(empty_model(), rb));
        let cs1 = cs.insert(ja, qa);
        assert forall|k: int| 0 <= k < jb + 1 implies lex_lt(#[trigger] cs1[k].0, nb) by {
            if k < ja {
                assert(cs1[k] == cs[k]);
                assert(lex_lt(cs[k].0, na));
                crate::text::lemma_lex_lt_trans(cs[k].0, na, nb);
            } else if k == ja {
                assert(cs1[k] == qa);
            } else {
                assert(cs1[k] == cs[k - 1]);
                assert(lex_lt(cs[k - 1].0, nb));
            }
        }
        assert(jb + 1 < cs1.len() ==> cs1[jb + 1] == cs[jb]);
        lemma_child_pos_char(cs1, nb, jb + 1);
        assert(jb + 1 < cs1.len() ==> cs1[jb + 1].0 != nb);
        let cs2 = cs.insert(jb, qb);
        assert forall|k: int| 0 <= k < ja implies lex_lt(#[trigger] cs2[k].0, na) by {
            assert(cs2[k] == cs[k]);
        }
        assert(ja < cs2.len() ==> !lex_lt(cs2[ja].0, na) && cs2[ja].0 != na) by {
            if ja < cs2.len() {
                if ja == jb {
                    assert(cs2[ja] == qb);
                } else {
                    assert(ja < jb);
                    assert(cs2[ja] == cs[ja]);
                }
            }
        }
        lemma_child_pos_char(cs2, na, ja);
        assert(cs1.insert(jb + 1, qb) =~~= cs2.insert(ja, qa));
        assert(model_insert(model_insert(m, a), b) =~~= model_insert(model_insert(m, b), a));
    }
}

/// Inserting two paths in either order builds the same shape.
pub proof fn lemma_model_insert_comm(m: TreeModel, a: Seq<Seq<char>>, b: Seq<Seq<char>>)
    requires
        wf_model(m),
    ensures
        model_insert(model_insert(m, a), b) == model_insert(model_insert(m, b), a),
    decreases a.len(),
{
    if a.len() == 0 || b.len() == 0 {
    } else {
        crate::text::lemma_lex_trichotomy(a[0], b[0]);
        if a[0] == b[0] {
            let n = a[0];
            let ra = a.drop_first();
            let rb = b.drop_first();
            let cs = m.children;
            let j = child_pos(cs, n);
            lemma_child_pos_props(cs, n);
            crate::text::lemma_lex_lt_irrefl(n);
            assert(wf_model(empty_model())) by {
                assert(wf_kids(empty_model().children, 0));
            }
            if j < cs.len() && cs[j].0 == n {
                let child = cs[j].1;
                lemma_wf_kids_at(cs, cs.len() as int, j);
                lemma_model_insert_comm(child, ra, rb);
                let cs1 = cs.update(j, (n, model_insert(child, ra)));
                lemma_child_pos_char(cs1, n, j);
                assert(cs1[j] == (n, model_insert(child, ra)));
                let cs2 = cs.update(j, (n, model_insert(child, rb)));
                lemma_child_pos_char(cs2, n, j);
                assert(cs2[j] == (n, model_insert(child, rb)));
                assert(cs1.update(j, (n, model_insert(model_insert(child, ra), rb)))
                    =~~= cs2.update(j, (n, model_insert(model_insert(child, rb), ra))));
                assert(model_insert(model_insert(m, a), b) =~~= model_insert(
                    model_insert(m, b),
                    a,
                ));
            } else {
                lemma_model_insert_comm(empty_model(), ra, rb);
                let cs1 = cs.insert(j, (n, model_insert(empty_model(), ra)));
                assert forall|k: int| 0 <= k < j implies lex_lt(#[trigger] cs1[k].0, n) by {
                    assert(cs1[k] == cs[k]);
                }
                assert(cs1[j] == (n, model_insert(empty_model(), ra)));
                lemma_child_pos_char(cs1, n, j);
                let cs2 = cs.insert(j, (n, model_insert(empty_model(), rb)));
                assert forall|k: int| 0 <= k < j implies lex_lt(#[trigger] cs2[k].0, n) by {
                    assert(cs2[k] == cs[k]);
                }
                assert(cs2[j] == (n, model_insert(empty_model(), rb)));
                lemma_child_pos_char(cs2, n, j);
                assert(cs1.update(j, (n, model_insert(model_insert(empty_model(), ra), rb)))
                    =~~= cs2.update(j, (n, model_insert(model_insert(empty_model(), rb), ra))));
                assert(model_insert(model_insert(m, a), b) =~~= model_insert(
                    model_insert(m, b),
                    a,
                ));
            }
        } else if lex_lt(a[0], b[0]) {
            lemma_insert_comm_lt(m, a, b);
        } else {
            lemma_insert_comm_lt(m, b, a);
        }
    }
}

/// Building keeps the shape well formed.
pub proof fn lemma_fold_insert_wf(m: TreeModel, paths: Seq<Seq<char>>)
    requires
        wf_model(m),
    ensures
        wf_model(fold_insert(m, paths)),
    decreases paths.len(),
{
    if paths.len() > 0 {
        lemma_fold_insert_wf(m, paths.drop_last());
        lemma_model_insert_wf(
            fold_insert(m, paths.drop_last()),
            crate::paths::split_components(paths.last()),
        );
    }
}

/// A path anywhere in the list may as well come last.
proof fn lemma_fold_move_to_end(m: TreeModel, s: Seq<Seq<char>>, w: int)
    requires
        wf_model(m),
        0 <= w < s.len(),
    ensures
        fold_insert(m, s) == model_insert(
            fold_insert(m, s.remove(w)),
            crate::paths::split_components(s[w]),
        ),
    decreases s.len(),
{
    if w == s.len() - 1 {
        assert(s.remove(w) =~= s.drop_last());
        assert(s[w] == s.last());
    } else {
        let dl = s.drop_last();
        assert(dl[w] == s[w]);
        lemma_fold_move_to_end(m, dl, w);
        lemma_fold_insert_wf(m, dl.remove(w));
        lemma_model_insert_comm(
            fold_insert(m, dl.remove(w)),
            crate::paths::split_components(s[w]),
            crate::paths::split_components(s.last()),
        );
        assert(s.remove(w).drop_last() =~= dl.remove(w));
        assert(s.remove(w).last() == s.last());
    }
}

/// Rendering determinism at the structural level: two path lists holding
/// the same paths, in any order and multiplicity-for-multiplicity, build
/// the same tree, so they render the same text.
pub proof fn lemma_fold_insert_permutation(p1: Seq<Seq<char>>, p2: Seq<Seq<char>>)
    requires
        p1.to_multiset() == p2.to_multiset(),
    ensures
        fold_insert(empty_model(), p1) == fold_insert(empty_model(), p2),
    decreases p1.len(),
{
    broadcast use vstd::seq_lib::group_to_multiset_ensures;

    assert(wf_model(empty_model())) by {
        assert(wf_kids(empty_model().children, 0));
    }
    if p1.len() == 0 {
        assert(p1.to_multiset().len() == 0);
        assert(p2.len() == p2.to_multiset().len());
    } else {
        let x = p1.last();
        let dl1 = p1.drop_last();
        assert(p1[p1.len() - 1] == x);
        assert(p1.contains(x));
        assert(p1.to_multiset().count(x) > 0);
        assert(p2.to_multiset().count(x) > 0);
        assert(p2.contains(x));
        let w = choose|w: int| 0 <= w < p2.len() && p2[w] == x;
        lemma_fold_move_to_end(empty_model(), p2, w);
        assert(p1 =~= dl1.push(x));
        assert(p1.to_multiset() == dl1.push(x).to_multiset());
        assert(dl1.push(x).to_multiset() =~= dl1.to_multiset().insert(x));
        assert(p2.remove(w).to_multiset() =~= p2.to_multiset().remove(x));
        assert(dl1.to_multiset() =~= p2.remove(w).to_multiset()) by {
            assert forall|y: Seq<char>|
                dl1.to_multiset().count(y) == p2.remove(w).to_multiset().count(y) by {
                assert(p1.to_multiset().count(y) == dl1.to_multiset().insert(x).count(y));
            }
        }
        lemma_fold_insert_permutation(dl1, p2.remove(w));
    }
}

/// Tree rendering determinism: path lists that hold the same paths render
/// the same text, whatever order they arrive in.
pub proof fn lemma_render_order_independent(p1: Seq<Seq<char>>, p2: Seq<Seq<char>>)
    requires
        p1.to_multiset() == p2.to_multiset(),
    ensures
        spec_render(fold_insert(empty_model(), p1)) == spec_render(
            fold_insert(empty_model(), p2),
        ),
{
    lemma_fold_insert_permutation(p1, p2);
}

} // verus!
