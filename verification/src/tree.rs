//! The collapsible file tree: built from the changed files' paths, with
//! per-directory sums, sorted siblings, and the rows a (filtered) walk of it
//! shows.
use vstd::prelude::*;
use vstd::multiset::Multiset;
use crate::model::{ChangedFile, Status};
use crate::text::{chars_of, string_of_range, str_eq};

verus! {

/// A node of the file tree.
#[derive(Debug, PartialEq, Eq)]
pub enum TreeNode {
    Dir {
        name: String,
        children: Vec<TreeNode>,
        /// Sum of `added` across the subtree.
        added: u64,
        /// Sum of `deleted` across the subtree.
        deleted: u64,
    },
    File(ChangedFile),
}

/// The mathematical form of a tree node.
pub enum TreeV {
    Dir { name: Seq<char>, children: Seq<TreeV>, added: u64, deleted: u64 },
    File(ChangedFile),
}

pub open spec fn node_v(n: TreeNode) -> TreeV
    decreases n,
{
    match n {
        TreeNode::Dir { name, children, added, deleted } => TreeV::Dir {
            name: name@,
            children: forest_v(children@),
            added,
            deleted,
        },
        TreeNode::File(f) => TreeV::File(f),
    }
}

pub open spec fn forest_v(s: Seq<TreeNode>) -> Seq<TreeV>
    decreases s,
{
    if s.len() == 0 {
        seq![]
    } else {
        forest_v(s.drop_last()).push(node_v(s.last()))
    }
}

proof fn lemma_forest_v(s: Seq<TreeNode>)
    ensures
        forest_v(s).len() == s.len(),
        forall|i: int| 0 <= i < s.len() ==> #[trigger] forest_v(s)[i] == node_v(s[i]),
    decreases s.len(),
{
    if s.len() > 0 {
        lemma_forest_v(s.drop_last());
        assert forall|i: int| 0 <= i < s.len() implies #[trigger] forest_v(s)[i] == node_v(s[i]) by {
            if i < s.len() - 1 {
                assert(s.drop_last()[i] == s[i]);
            }
        }
    }
}

/// `forest_v` is taken element by element.
pub proof fn lemma_forest_v_pointwise(s: Seq<TreeNode>)
    ensures
        forest_v(s) == s.map_values(|n: TreeNode| node_v(n)),
{
    lemma_forest_v(s);
    assert(forest_v(s) =~= s.map_values(|n: TreeNode| node_v(n)));
}

// ------------------------------------------------------------ paths

/// The parts of `s` split at `/` when the current part holds `cur`.
pub open spec fn split_acc(s: Seq<char>, cur: Seq<char>) -> Seq<Seq<char>>
    decreases s.len(),
{
    if s.len() == 0 {
        seq![cur]
    } else if s[0] == '/' {
        seq![cur] + split_acc(s.drop_first(), seq![])
    } else {
        split_acc(s.drop_first(), cur.push(s[0]))
    }
}

/// A path split at `/`, as `str::split('/')` gives it (never empty).
pub open spec fn split_path(s: Seq<char>) -> Seq<Seq<char>> {
    split_acc(s, seq![])
}

proof fn lemma_split_nonempty(s: Seq<char>, cur: Seq<char>)
    ensures
        split_acc(s, cur).len() >= 1,
    decreases s.len(),
{
    if s.len() > 0 {
        if s[0] == '/' {
            lemma_split_nonempty(s.drop_first(), seq![]);
        } else {
            lemma_split_nonempty(s.drop_first(), cur.push(s[0]));
        }
    }
}

/// Splits a path at `/`.
pub fn split_path_exec(path: &str) -> (r: Vec<String>)
    ensures
        crate::align::strings_view(r@) == split_path(path@),
        r.len() >= 1,
{
    let cs = chars_of(path);
    let mut out: Vec<String> = Vec::new();
    let mut start: usize = 0;
    let mut i: usize = 0;
    assert(cs@.skip(0) =~= cs@);
    assert(cs@.subrange(0, 0) =~= Seq::<char>::empty());
    while i < cs.len()
        invariant
            cs@ == path@,
            start <= i <= cs.len(),
            crate::align::strings_view(out@) + split_acc(cs@.skip(i as int), cs@.subrange(start as int, i as int))
                == split_path(path@),
        decreases cs.len() - i,
    {
        assert(cs@.skip(i as int).drop_first() =~= cs@.skip(i + 1));
        assert(cs@.skip(i as int)[0] == cs@[i as int]);
        if cs[i] == '/' {
            let part = string_of_range(&cs, start, i);
            proof {
                assert(crate::align::strings_view(out@.push(part)) =~= crate::align::strings_view(out@).push(part@));
                assert(cs@.subrange((i + 1) as int, (i + 1) as int) =~= Seq::<char>::empty());
            }
            out.push(part);
            start = i + 1;
        } else {
            assert(cs@.subrange(start as int, i as int).push(cs@[i as int]) =~= cs@.subrange(start as int, i + 1));
        }
        i += 1;
    }
    assert(cs@.skip(cs.len() as int) =~= Seq::<char>::empty());
    let part = string_of_range(&cs, start, cs.len());
    assert(crate::align::strings_view(out@.push(part)) =~= crate::align::strings_view(out@).push(part@));
    out.push(part);
    out
}

// ------------------------------------------------------------ building

/// Whether a node is a directory with the given name.
pub open spec fn is_dir_named(n: TreeV, name: Seq<char>) -> bool {
    n matches TreeV::Dir { name: m, .. } && m == name
}

/// The first index at or after `i` of a directory with the given name, or
/// the length when there is none.
pub open spec fn find_dir_from(nodes: Seq<TreeV>, name: Seq<char>, i: int) -> int
    decreases nodes.len() - i,
{
    if i >= nodes.len() {
        nodes.len() as int
    } else if is_dir_named(nodes[i], name) {
        i
    } else {
        find_dir_from(nodes, name, i + 1)
    }
}

/// The forest after placing `file` at the path whose remaining parts are
/// `parts`: the last part names the file itself; each part before it is a
/// directory, the first existing one of that name or else a new one appended.
pub open spec fn insert_v(nodes: Seq<TreeV>, parts: Seq<Seq<char>>, file: ChangedFile) -> Seq<TreeV>
    decreases parts.len(),
{
    if parts.len() <= 1 {
        nodes.push(TreeV::File(file))
    } else {
        let j = find_dir_from(nodes, parts[0], 0);
        if j < nodes.len() {
            match nodes[j] {
                TreeV::Dir { name, children, added, deleted } => nodes.update(
                    j,
                    TreeV::Dir { name, children: insert_v(children, parts.drop_first(), file), added, deleted },
                ),
                TreeV::File(_) => nodes,
            }
        } else {
            nodes.push(TreeV::Dir { name: parts[0], children: insert_v(seq![], parts.drop_first(), file), added: 0, deleted: 0 })
        }
    }
}

/// The forest of all files inserted in order, before sums and sorting.
pub open spec fn insert_all(files: Seq<ChangedFile>) -> Seq<TreeV>
    decreases files.len(),
{
    if files.len() == 0 {
        seq![]
    } else {
        insert_v(insert_all(files.drop_last()), split_path(files.last().path@), files.last())
    }
}

fn insert_file(nodes: &mut Vec<TreeNode>, parts: &Vec<String>, idx: usize, file: ChangedFile)
    requires
        idx < parts.len(),
    ensures
        forest_v(final(nodes)@) == insert_v(forest_v(old(nodes)@), crate::align::strings_view(parts@).skip(idx as int), file),
    decreases parts.len() - idx,
{
    let ghost ps = crate::align::strings_view(parts@).skip(idx as int);
    proof {
        lemma_forest_v(nodes@);
    }
    if idx + 1 >= parts.len() {
        nodes.push(TreeNode::File(file));
        proof {
            lemma_forest_v(nodes@);
            assert(forest_v(nodes@) =~= forest_v(old(nodes)@).push(TreeV::File(file)));
        }
        return;
    }
    assert(ps[0] == parts@[idx as int]@);
    assert(ps.drop_first() =~= crate::align::strings_view(parts@).skip(idx + 1));
    let ghost fv = forest_v(nodes@);
    let mut j: usize = 0;
    let mut found = false;
    while j < nodes.len()
        invariant_except_break
            !found,
        invariant
            fv == forest_v(nodes@),
            fv.len() == nodes.len(),
            forall|i: int| 0 <= i < nodes.len() ==> #[trigger] fv[i] == node_v(nodes@[i]),
            idx < parts.len(),
            ps[0] == parts@[idx as int]@,
            j <= nodes.len(),
            find_dir_from(fv, ps[0], 0) == find_dir_from(fv, ps[0], j as int),
        ensures
            !found ==> j == nodes.len(),
            found ==> j < nodes.len() && is_dir_named(fv[j as int], ps[0]),
            find_dir_from(fv, ps[0], 0) == find_dir_from(fv, ps[0], j as int),
        decreases nodes.len() - j,
    {
        let hit = match &nodes[j] {
            TreeNode::Dir { name, .. } => str_eq(name.as_str(), parts[idx].as_str()),
            TreeNode::File(_) => false,
        };
        if hit {
            found = true;
            break;
        }
        j += 1;
    }
    if found {
        assert(find_dir_from(fv, ps[0], 0) == j);
        let node = nodes.remove(j);
        match node {
            TreeNode::Dir { name, mut children, added, deleted } => {
                insert_file(&mut children, parts, idx + 1, file);
                let ghost newnode = TreeNode::Dir { name, children, added, deleted };
                nodes.insert(j, TreeNode::Dir { name, children, added, deleted });
                proof {
                    lemma_forest_v(nodes@);
                    lemma_forest_v(old(nodes)@);
                    assert forall|i: int| 0 <= i < nodes.len() implies #[trigger] forest_v(nodes@)[i] == insert_v(fv, ps, file)[i] by {
                        if i != j {
                            assert(nodes@[i] == old(nodes)@[i]);
                        }
                    }
                    assert(forest_v(nodes@) =~= insert_v(fv, ps, file));
                }
            },
            TreeNode::File(f) => {
                assert(false);
                nodes.insert(j, TreeNode::File(f));
            },
        }
    } else {
        assert(find_dir_from(fv, ps[0], nodes.len() as int) == nodes.len());
        let mut children: Vec<TreeNode> = Vec::new();
        insert_file(&mut children, parts, idx + 1, file);
        let name = parts[idx].clone();
        let ghost pre = nodes@;
        nodes.push(TreeNode::Dir { name, children, added: 0, deleted: 0 });
        proof {
            assert(forest_v(Seq::<TreeNode>::empty()) == Seq::<TreeV>::empty());
            assert(nodes@.drop_last() =~= pre);
            assert(forest_v(nodes@) == forest_v(pre).push(node_v(nodes@.last())));
            assert(ps.len() > 1);
            assert(find_dir_from(fv, ps[0], 0) == fv.len());
            assert(insert_v(fv, ps, file) == fv.push(TreeV::Dir { name: ps[0], children: insert_v(seq![], ps.drop_first(), file), added: 0, deleted: 0 }));
            assert(node_v(nodes@.last()) == TreeV::Dir { name: ps[0], children: insert_v(seq![], ps.drop_first(), file), added: 0, deleted: 0 });
            assert(forest_v(nodes@) =~= insert_v(fv, ps, file));
        }
    }
}

// ------------------------------------------------------------ sums

/// The sum of the files' `added` (or, with `del`, `deleted`) in a subtree;
/// the numbers stored on directories play no part.
pub open spec fn node_sum(n: TreeV, del: bool) -> nat
    decreases n,
{
    match n {
        TreeV::Dir { children, .. } => forest_sum(children, del),
        TreeV::File(f) => if del { f.deleted as nat } else { f.added as nat },
    }
}

/// The file sum over a forest.
pub open spec fn forest_sum(s: Seq<TreeV>, del: bool) -> nat
    decreases s,
{
    if s.len() == 0 {
        0
    } else {
        forest_sum(s.drop_last(), del) + node_sum(s.last(), del)
    }
}

/// The sum of the files' `added` (or `deleted`) in a list of files.
pub open spec fn files_sum(files: Seq<ChangedFile>, del: bool) -> nat
    decreases files.len(),
{
    if files.len() == 0 {
        0
    } else {
        files_sum(files.drop_last(), del) + if del { files.last().deleted as nat } else { files.last().added as nat }
    }
}

/// The number stored on a node: a directory's field, a file's own count.
pub open spec fn stored(n: TreeV, del: bool) -> nat {
    match n {
        TreeV::Dir { added, deleted, .. } => if del { deleted as nat } else { added as nat },
        TreeV::File(f) => if del { f.deleted as nat } else { f.added as nat },
    }
}

/// The sum of the stored numbers over a forest's top level.
pub open spec fn stored_sum(s: Seq<TreeV>, del: bool) -> nat
    decreases s.len(),
{
    if s.len() == 0 {
        0
    } else {
        stored_sum(s.drop_last(), del) + stored(s.last(), del)
    }
}

proof fn lemma_forest_sum_bound(s: Seq<TreeV>, del: bool)
    ensures
        forall|i: int| 0 <= i < s.len() ==> node_sum(#[trigger] s[i], del) <= forest_sum(s, del),
        forall|i: int| 0 <= i <= s.len() ==> #[trigger] forest_sum(s.take(i), del) <= forest_sum(s, del),
    decreases s.len(),
{
    if s.len() > 0 {
        lemma_forest_sum_bound(s.drop_last(), del);
        assert forall|i: int| 0 <= i < s.len() implies node_sum(#[trigger] s[i], del) <= forest_sum(s, del) by {
            if i < s.len() - 1 {
                assert(s.drop_last()[i] == s[i]);
            }
        }
        assert forall|i: int| 0 <= i <= s.len() implies #[trigger] forest_sum(s.take(i), del) <= forest_sum(s, del) by {
            if i < s.len() {
                assert(s.drop_last().take(i) =~= s.take(i));
            } else {
                assert(s.take(i) =~= s);
            }
        }
    } else {
        assert(s.take(0) =~= s);
    }
}

proof fn lemma_forest_sum_update(s: Seq<TreeV>, j: int, x: TreeV, del: bool)
    requires
        0 <= j < s.len(),
    ensures
        forest_sum(s.update(j, x), del) + node_sum(s[j], del) == forest_sum(s, del) + node_sum(x, del),
    decreases s.len(),
{
    if j < s.len() - 1 {
        assert(s.update(j, x).drop_last() =~= s.drop_last().update(j, x));
        lemma_forest_sum_update(s.drop_last(), j, x, del);
    } else {
        assert(s.update(j, x).drop_last() =~= s.drop_last());
    }
}

proof fn lemma_forest_sum_push(s: Seq<TreeV>, x: TreeV, del: bool)
    ensures
        forest_sum(s.push(x), del) == forest_sum(s, del) + node_sum(x, del),
{
    assert(s.push(x).drop_last() =~= s);
}

proof fn lemma_insert_sum(nodes: Seq<TreeV>, parts: Seq<Seq<char>>, file: ChangedFile, del: bool)
    ensures
        forest_sum(insert_v(nodes, parts, file), del) == forest_sum(nodes, del)
            + if del { file.deleted as nat } else { file.added as nat },
    decreases parts.len(),
{
    if parts.len() <= 1 {
        lemma_forest_sum_push(nodes, TreeV::File(file), del);
    } else {
        let j = find_dir_from(nodes, parts[0], 0);
        lemma_find_dir_range(nodes, parts[0], 0);
        if j < nodes.len() {
            match nodes[j] {
                TreeV::Dir { name, children, added, deleted } => {
                    lemma_insert_sum(children, parts.drop_first(), file, del);
                    let x = TreeV::Dir { name, children: insert_v(children, parts.drop_first(), file), added, deleted };
                    lemma_forest_sum_update(nodes, j, x, del);
                },
                TreeV::File(_) => {
                    lemma_find_dir_is_dir(nodes, parts[0], 0);
                },
            }
        } else {
            lemma_insert_sum(seq![], parts.drop_first(), file, del);
            let x = TreeV::Dir { name: parts[0], children: insert_v(seq![], parts.drop_first(), file), added: 0, deleted: 0 };
            lemma_forest_sum_push(nodes, x, del);
        }
    }
}

proof fn lemma_find_dir_range(nodes: Seq<TreeV>, name: Seq<char>, i: int)
    requires
        0 <= i,
    ensures
        find_dir_from(nodes, name, i) <= nodes.len(),
        i <= nodes.len() ==> i <= find_dir_from(nodes, name, i),
    decreases nodes.len() - i,
{
    if i < nodes.len() && !is_dir_named(nodes[i], name) {
        lemma_find_dir_range(nodes, name, i + 1);
    }
}

proof fn lemma_find_dir_is_dir(nodes: Seq<TreeV>, name: Seq<char>, i: int)
    requires
        0 <= i,
        find_dir_from(nodes, name, i) < nodes.len(),
    ensures
        is_dir_named(nodes[find_dir_from(nodes, name, i)], name),
    decreases nodes.len() - i,
{
    if i < nodes.len() && !is_dir_named(nodes[i], name) {
        lemma_find_dir_is_dir(nodes, name, i + 1);
    }
}

/// The sums of all files' counts are those of the files inserted.
pub proof fn lemma_insert_all_sum(files: Seq<ChangedFile>, del: bool)
    ensures
        forest_sum(insert_all(files), del) == files_sum(files, del),
    decreases files.len(),
{
    if files.len() > 0 {
        lemma_insert_all_sum(files.drop_last(), del);
        lemma_insert_sum(insert_all(files.drop_last()), split_path(files.last().path@), files.last(), del);
    }
}

/// A directory with its sums filled in from its subtree.
pub open spec fn aggregate_node(n: TreeV) -> TreeV
    decreases n,
{
    match n {
        TreeV::Dir { name, children, .. } => TreeV::Dir {
            name,
            children: aggregate_v(children),
            added: forest_sum(children, false) as u64,
            deleted: forest_sum(children, true) as u64,
        },
        TreeV::File(f) => TreeV::File(f),
    }
}

/// Each directory's `added`/`deleted` filled with the subtree sums.
pub open spec fn aggregate_v(s: Seq<TreeV>) -> Seq<TreeV>
    decreases s,
{
    if s.len() == 0 {
        seq![]
    } else {
        aggregate_v(s.drop_last()).push(aggregate_node(s.last()))
    }
}

proof fn lemma_aggregate_len(s: Seq<TreeV>)
    ensures
        aggregate_v(s).len() == s.len(),
        forall|i: int| 0 <= i < s.len() ==> #[trigger] aggregate_v(s)[i] == aggregate_node(s[i]),
    decreases s.len(),
{
    if s.len() > 0 {
        lemma_aggregate_len(s.drop_last());
        assert forall|i: int| 0 <= i < s.len() implies #[trigger] aggregate_v(s)[i] == aggregate_node(s[i]) by {
            if i < s.len() - 1 {
                assert(s.drop_last()[i] == s[i]);
            }
        }
    }
}

/// Aggregation leaves the file sums unchanged, and every aggregated node
/// stores the sum of its subtree.
proof fn lemma_aggregate_sums(s: Seq<TreeV>, del: bool)
    ensures
        forest_sum(aggregate_v(s), del) == forest_sum(s, del),
        forest_sum(s, false) <= u64::MAX && forest_sum(s, true) <= u64::MAX ==> stored_sum(aggregate_v(s), del) == forest_sum(s, del),
    decreases s,
{
    if s.len() > 0 {
        lemma_aggregate_sums(s.drop_last(), del);
        let n = s.last();
        match n {
            TreeV::Dir { name, children, .. } => {
                assert(decreases_to!(s => n));
                lemma_aggregate_sums(children, del);
                assert(node_sum(aggregate_node(n), del) == forest_sum(aggregate_v(children), del));
                assert(node_sum(n, del) == forest_sum(children, del));
            },
            TreeV::File(f) => {},
        }
        lemma_forest_sum_bound(s, false);
        lemma_forest_sum_bound(s, true);
        assert(s.take(s.len() - 1) =~= s.drop_last());
        assert(forest_sum(s.take(s.len() - 1), false) <= forest_sum(s, false));
        assert(forest_sum(s.take(s.len() - 1), true) <= forest_sum(s, true));
        assert(node_sum(s[s.len() - 1], false) <= forest_sum(s, false));
        assert(node_sum(s[s.len() - 1], true) <= forest_sum(s, true));
        assert(aggregate_v(s).drop_last() =~= aggregate_v(s.drop_last()));
        assert(aggregate_v(s).last() == aggregate_node(n));
        assert(forest_sum(aggregate_v(s), del) == forest_sum(aggregate_v(s.drop_last()), del) + node_sum(aggregate_node(n), del));
    }
}

/// Fills each directory's `added`/`deleted` with the sums over its subtree.
fn aggregate(nodes_in: Vec<TreeNode>) -> (r: Vec<TreeNode>)
    requires
        forest_sum(forest_v(nodes_in@), false) <= u64::MAX,
        forest_sum(forest_v(nodes_in@), true) <= u64::MAX,
    ensures
        forest_v(r@) == aggregate_v(forest_v(nodes_in@)),
    decreases nodes_in,
{
    let ghost orig = nodes_in@;
    let n0 = nodes_in.len();
    assert(orig.len() == n0);
    let ghost ov = forest_v(orig);
    proof {
        lemma_forest_v(orig);
        lemma_aggregate_len(ov);
        lemma_forest_sum_bound(ov, false);
        lemma_forest_sum_bound(ov, true);
    }
    let mut nodes = nodes_in;
    let mut out: Vec<TreeNode> = Vec::new();
    let mut i: usize = 0;
    while nodes.len() > 0
        invariant
            orig == nodes_in@,
            ov == forest_v(orig),
            ov.len() == orig.len(),
            orig.len() <= usize::MAX,
            forall|k: int| 0 <= k < orig.len() ==> #[trigger] ov[k] == node_v(orig[k]),
            forall|k: int| 0 <= k < orig.len() ==> node_sum(#[trigger] ov[k], false) <= forest_sum(ov, false),
            forall|k: int| 0 <= k < orig.len() ==> node_sum(#[trigger] ov[k], true) <= forest_sum(ov, true),
            forest_sum(ov, false) <= u64::MAX,
            forest_sum(ov, true) <= u64::MAX,
            i + nodes.len() == orig.len(),
            nodes@ == orig.skip(i as int),
            forest_v(out@) == aggregate_v(ov.take(i as int)),
        decreases nodes.len(),
    {
        assert(nodes@[0] == orig[i as int]);
        let n = nodes.remove(0);
        let m = match n {
            TreeNode::Dir { name, children, .. } => {
                proof {
                    assert(n == orig[i as int]);
                    assert(decreases_to!(orig => orig[i as int]));
                    assert(decreases_to!(orig[i as int] => children));
                    assert(decreases_to!(children => children@));
                    assert(decreases_to!(orig => children@));
                    assert(decreases_to!(nodes_in => children));
                    lemma_forest_v(children@);
                }
                let ghost cv = forest_v(children@);
                let kids = aggregate(children);
                proof {
                    lemma_aggregate_sums(cv, false);
                    lemma_aggregate_sums(cv, true);
                    lemma_aggregate_len(cv);
                    lemma_forest_v(kids@);
                }
                let mut a: u64 = 0;
                let mut d: u64 = 0;
                let mut k: usize = 0;
                while k < kids.len()
                    invariant
                        forest_v(kids@) == aggregate_v(cv),
                        forest_v(kids@).len() == kids.len(),
                        forall|q: int| 0 <= q < kids.len() ==> #[trigger] forest_v(kids@)[q] == node_v(kids@[q]),
                        stored_sum(aggregate_v(cv), false) == forest_sum(cv, false),
                        stored_sum(aggregate_v(cv), true) == forest_sum(cv, true),
                        forest_sum(cv, false) <= u64::MAX,
                        forest_sum(cv, true) <= u64::MAX,
                        k <= kids.len(),
                        a == stored_sum(aggregate_v(cv).take(k as int), false),
                        d == stored_sum(aggregate_v(cv).take(k as int), true),
                    decreases kids.len() - k,
                {
                    proof {
                        let t = aggregate_v(cv).take(k + 1);
                        lemma_stored_sum_prefix(aggregate_v(cv), false);
                        lemma_stored_sum_prefix(aggregate_v(cv), true);
                        assert(t.drop_last() =~= aggregate_v(cv).take(k as int));
                        assert(t.last() == node_v(kids@[k as int]));
                        assert(stored_sum(t, false) == a + stored(t.last(), false));
                        assert(stored_sum(t, true) == d + stored(t.last(), true));
                        assert(stored_sum(t, false) <= stored_sum(aggregate_v(cv), false));
                        assert(stored_sum(t, true) <= stored_sum(aggregate_v(cv), true));
                    }
                    match &kids[k] {
                        TreeNode::Dir { added: ca, deleted: cd, .. } => {
                            a = a + *ca;
                            d = d + *cd;
                        },
                        TreeNode::File(f) => {
                            a = a + f.added;
                            d = d + f.deleted;
                        },
                    }
                    k += 1;
                }
                assert(aggregate_v(cv).take(kids.len() as int) =~= aggregate_v(cv));
                TreeNode::Dir { name, children: kids, added: a, deleted: d }
            },
            TreeNode::File(f) => TreeNode::File(f),
        };
        proof {
            assert(node_v(m) == aggregate_node(ov[i as int]));
            assert(out@.push(m).drop_last() =~= out@);
            assert(ov.take(i + 1).drop_last() =~= ov.take(i as int));
        }
        out.push(m);
        i += 1;
        assert(nodes@ =~= orig.skip(i as int));
    }
    assert(ov.take(i as int) =~= ov);
    out
}

proof fn lemma_stored_sum_prefix(s: Seq<TreeV>, del: bool)
    ensures
        forall|i: int| 0 <= i <= s.len() ==> #[trigger] stored_sum(s.take(i), del) <= stored_sum(s, del),
    decreases s.len(),
{
    if s.len() > 0 {
        lemma_stored_sum_prefix(s.drop_last(), del);
        assert forall|i: int| 0 <= i <= s.len() implies #[trigger] stored_sum(s.take(i), del) <= stored_sum(s, del) by {
            if i < s.len() {
                assert(s.drop_last().take(i) =~= s.take(i));
            } else {
                assert(s.take(i) =~= s);
            }
        }
    } else {
        assert(s.take(0) =~= s);
    }
}

// ------------------------------------------------------------ sorting

/// How sibling rows are ordered in the file list.
#[derive(Clone, Copy, Debug, PartialEq, Eq, Structural)]
pub enum SortMode {
    /// By path (directories first, then files alphabetically).
    Path,
    /// By status letter, then path.
    Status,
    /// By added-line count descending, then path.
    Added,
}

/// The rank of a status when sorting by status: its place in the order of
/// the status letters, A, D, M, R, U.
pub open spec fn status_rank_spec(s: Status) -> u8 {
    match s {
        Status::Added => 0,
        Status::Deleted => 1,
        Status::Modified => 2,
        Status::Renamed => 3,
        Status::Untracked => 4,
    }
}

fn status_rank(s: Status) -> (r: u8)
    ensures
        r == status_rank_spec(s),
{
    match s {
        Status::Added => 0,
        Status::Deleted => 1,
        Status::Modified => 2,
        Status::Renamed => 3,
        Status::Untracked => 4,
    }
}

/// Whether file `a` sorts strictly before file `b`.
pub open spec fn file_lt(a: ChangedFile, b: ChangedFile, mode: SortMode) -> bool {
    match mode {
        SortMode::Path => crate::text::seq_lt(a.path@, b.path@),
        SortMode::Status => status_rank_spec(a.status) < status_rank_spec(b.status)
            || (status_rank_spec(a.status) == status_rank_spec(b.status) && crate::text::seq_lt(a.path@, b.path@)),
        SortMode::Added => b.added < a.added || (b.added == a.added && crate::text::seq_lt(a.path@, b.path@)),
    }
}

/// Whether node `a` sorts strictly before node `b`: directories come before
/// files and are ordered by name; files are ordered as the mode says.
pub open spec fn node_lt(a: TreeV, b: TreeV, mode: SortMode) -> bool {
    match (a, b) {
        (TreeV::Dir { name: an, .. }, TreeV::Dir { name: bn, .. }) => crate::text::seq_lt(an, bn),
        (TreeV::Dir { .. }, TreeV::File(_)) => true,
        (TreeV::File(_), TreeV::Dir { .. }) => false,
        (TreeV::File(fa), TreeV::File(fb)) => file_lt(fa, fb, mode),
    }
}

/// `x` placed in sorted `s` after every element it does not sort before.
pub open spec fn insert_sorted(s: Seq<TreeV>, x: TreeV, mode: SortMode) -> Seq<TreeV>
    decreases s.len(),
{
    if s.len() == 0 {
        seq![x]
    } else if node_lt(x, s[0], mode) {
        seq![x] + s
    } else {
        seq![s[0]] + insert_sorted(s.drop_first(), x, mode)
    }
}

/// The stable sort of `s`: elements that do not compare keep their order.
pub open spec fn sort_seq(s: Seq<TreeV>, mode: SortMode) -> Seq<TreeV>
    decreases s.len(),
{
    if s.len() == 0 {
        seq![]
    } else {
        insert_sorted(sort_seq(s.drop_last(), mode), s.last(), mode)
    }
}

/// A forest with every sibling list sorted.
pub open spec fn sort_v(s: Seq<TreeV>, mode: SortMode) -> Seq<TreeV>
    decreases s, 1nat,
{
    sort_seq(sort_kids(s, mode), mode)
}

/// Each node with its subtree sorted, siblings left in place.
pub open spec fn sort_kids(s: Seq<TreeV>, mode: SortMode) -> Seq<TreeV>
    decreases s, 0nat,
{
    if s.len() == 0 {
        seq![]
    } else {
        sort_kids(s.drop_last(), mode).push(sort_node(s.last(), mode))
    }
}

/// A node with its subtree sorted.
pub open spec fn sort_node(n: TreeV, mode: SortMode) -> TreeV
    decreases n, 2nat,
{
    match n {
        TreeV::Dir { name, children, added, deleted } => TreeV::Dir {
            name,
            children: sort_v(children, mode),
            added,
            deleted,
        },
        TreeV::File(f) => TreeV::File(f),
    }
}

fn file_lt_exec(a: &ChangedFile, b: &ChangedFile, mode: SortMode) -> (r: bool)
    ensures
        r == file_lt(*a, *b, mode),
{
    match mode {
        SortMode::Path => crate::text::str_lt(a.path.as_str(), b.path.as_str()),
        SortMode::Status => {
            let ra = status_rank(a.status);
            let rb = status_rank(b.status);
            ra < rb || (ra == rb && crate::text::str_lt(a.path.as_str(), b.path.as_str()))
        },
        SortMode::Added => b.added < a.added || (b.added == a.added && crate::text::str_lt(a.path.as_str(), b.path.as_str())),
    }
}

fn node_lt_exec(a: &TreeNode, b: &TreeNode, mode: SortMode) -> (r: bool)
    ensures
        r == node_lt(node_v(*a), node_v(*b), mode),
{
    match (a, b) {
        (TreeNode::Dir { name: an, .. }, TreeNode::Dir { name: bn, .. }) => crate::text::str_lt(an.as_str(), bn.as_str()),
        (TreeNode::Dir { .. }, TreeNode::File(_)) => true,
        (TreeNode::File(_), TreeNode::Dir { .. }) => false,
        (TreeNode::File(fa), TreeNode::File(fb)) => file_lt_exec(fa, fb, mode),
    }
}

proof fn lemma_insert_sorted_at(s: Seq<TreeV>, x: TreeV, mode: SortMode, p: int)
    requires
        0 <= p <= s.len(),
        forall|q: int| 0 <= q < p ==> !node_lt(x, #[trigger] s[q], mode),
        p == s.len() || node_lt(x, s[p], mode),
    ensures
        insert_sorted(s, x, mode) == s.take(p) + seq![x] + s.skip(p),
    decreases p,
{
    if p == 0 {
        assert(s.take(0) + seq![x] + s.skip(0) =~= seq![x] + s);
        if s.len() == 0 {
            assert(seq![x] + s =~= seq![x]);
        }
    } else {
        assert(!node_lt(x, s[0], mode));
        assert forall|q: int| 0 <= q < p - 1 implies !node_lt(x, #[trigger] s.drop_first()[q], mode) by {
            assert(s.drop_first()[q] == s[q + 1]);
        }
        lemma_insert_sorted_at(s.drop_first(), x, mode, p - 1);
        assert(s.take(p) + seq![x] + s.skip(p) =~= seq![s[0]] + (s.drop_first().take(p - 1) + seq![x] + s.drop_first().skip(p - 1)));
    }
}

/// Sorts a sibling list stably by `node_lt` (insertion sort).
fn sort_siblings(nodes_in: Vec<TreeNode>, mode: SortMode) -> (r: Vec<TreeNode>)
    ensures
        forest_v(r@) == sort_seq(forest_v(nodes_in@), mode),
{
    let ghost orig = nodes_in@;
    let ghost ov = forest_v(orig);
    let n0 = nodes_in.len();
    proof {
        lemma_forest_v(orig);
    }
    let mut nodes = nodes_in;
    let mut out: Vec<TreeNode> = Vec::new();
    let mut i: usize = 0;
    while nodes.len() > 0
        invariant
            ov == forest_v(orig),
            ov.len() == orig.len(),
            orig.len() == n0,
            forall|k: int| 0 <= k < orig.len() ==> #[trigger] ov[k] == node_v(orig[k]),
            i + nodes.len() == orig.len(),
            nodes@ == orig.skip(i as int),
            forest_v(out@) == sort_seq(ov.take(i as int), mode),
        decreases nodes.len(),
    {
        assert(nodes@[0] == orig[i as int]);
        let x = nodes.remove(0);
        let ghost sv = forest_v(out@);
        proof {
            lemma_forest_v(out@);
        }
        let mut p: usize = 0;
        while p < out.len() && !node_lt_exec(&x, &out[p], mode)
            invariant
                sv == forest_v(out@),
                sv.len() == out.len(),
                forall|k: int| 0 <= k < out.len() ==> #[trigger] sv[k] == node_v(out@[k]),
                p <= out.len(),
                forall|q: int| 0 <= q < p ==> !node_lt(node_v(x), #[trigger] sv[q], mode),
            decreases out.len() - p,
        {
            p += 1;
        }
        proof {
            lemma_insert_sorted_at(sv, node_v(x), mode, p as int);
            assert(ov.take(i + 1).drop_last() =~= ov.take(i as int));
            assert(ov.take(i + 1).last() == node_v(x));
        }
        let ghost pre = out@;
        out.insert(p, x);
        proof {
            lemma_forest_v(out@);
            assert(forest_v(out@) =~= sv.take(p as int) + seq![node_v(x)] + sv.skip(p as int)) by {
                assert forall|k: int| 0 <= k < out.len() implies #[trigger] forest_v(out@)[k]
                    == (sv.take(p as int) + seq![node_v(x)] + sv.skip(p as int))[k] by {
                    if k < p {
                        assert(out@[k] == pre[k]);
                    } else if k > p {
                        assert(out@[k] == pre[k - 1]);
                    }
                }
            }
        }
        i += 1;
        assert(nodes@ =~= orig.skip(i as int));
    }
    assert(ov.take(i as int) =~= ov);
    out
}

/// Sorts every sibling list of a forest.
fn sort_tree(nodes_in: Vec<TreeNode>, mode: SortMode) -> (r: Vec<TreeNode>)
    ensures
        forest_v(r@) == sort_v(forest_v(nodes_in@), mode),
    decreases nodes_in,
{
    let ghost orig = nodes_in@;
    let ghost ov = forest_v(orig);
    let n0 = nodes_in.len();
    proof {
        lemma_forest_v(orig);
    }
    let mut nodes = nodes_in;
    let mut out: Vec<TreeNode> = Vec::new();
    let mut i: usize = 0;
    while nodes.len() > 0
        invariant
            orig == nodes_in@,
            ov == forest_v(orig),
            ov.len() == orig.len(),
            orig.len() == n0,
            forall|k: int| 0 <= k < orig.len() ==> #[trigger] ov[k] == node_v(orig[k]),
            i + nodes.len() == orig.len(),
            nodes@ == orig.skip(i as int),
            forest_v(out@) == sort_kids(ov.take(i as int), mode),
        decreases nodes.len(),
    {
        assert(nodes@[0] == orig[i as int]);
        let n = nodes.remove(0);
        let m = match n {
            TreeNode::Dir { name, children, added, deleted } => {
                proof {
                    assert(n == orig[i as int]);
                    assert(decreases_to!(nodes_in => children));
                }
                let kids = sort_tree(children, mode);
                TreeNode::Dir { name, children: kids, added, deleted }
            },
            TreeNode::File(f) => TreeNode::File(f),
        };
        proof {
            assert(node_v(m) == sort_node(ov[i as int], mode));
            assert(out@.push(m).drop_last() =~= out@);
            assert(ov.take(i + 1).drop_last() =~= ov.take(i as int));
        }
        out.push(m);
        i += 1;
        assert(nodes@ =~= orig.skip(i as int));
    }
    assert(ov.take(i as int) =~= ov);
    sort_siblings(out, mode)
}

// ------------------------------------------------------------ building

/// The tree built from a list of files: every file placed at its path, the
/// directories' sums filled in, siblings sorted.
pub open spec fn build_tree_spec(files: Seq<ChangedFile>, sort: SortMode) -> Seq<TreeV> {
    sort_v(aggregate_v(insert_all(files)), sort)
}

/// Builds the file tree of a list of files. The sums of `added` and of
/// `deleted` over all files must fit in `u64`.
pub fn build_tree(files: &[ChangedFile], sort: SortMode) -> (r: Vec<TreeNode>)
    requires
        files_sum(files@, false) <= u64::MAX,
        files_sum(files@, true) <= u64::MAX,
    ensures
        forest_v(r@) == build_tree_spec(files@, sort),
{
    let mut root: Vec<TreeNode> = Vec::new();
    let mut i: usize = 0;
    assert(forest_v(root@) =~= Seq::<TreeV>::empty());
    while i < files.len()
        invariant
            i <= files.len(),
            forest_v(root@) == insert_all(files@.take(i as int)),
        decreases files.len() - i,
    {
        let file = &files[i];
        let parts = split_path_exec(file.path.as_str());
        proof {
            assert(files@.take(i + 1).drop_last() =~= files@.take(i as int));
            assert(files@.take(i + 1).last() == files@[i as int]);
            assert(crate::align::strings_view(parts@).skip(0) =~= crate::align::strings_view(parts@));
        }
        insert_file(&mut root, &parts, 0, file.duplicate());
        i += 1;
    }
    assert(files@.take(files.len() as int) =~= files@);
    proof {
        lemma_insert_all_sum(files@, false);
        lemma_insert_all_sum(files@, true);
    }
    let root = aggregate(root);
    sort_tree(root, sort)
}

/// Wraps a forest under a single root directory named `name`, representing
/// the current directory. The root carries the sums of its children's
/// stored counts, which must fit in `u64`.
pub fn wrap_root(children: Vec<TreeNode>, name: String) -> (r: TreeNode)
    requires
        stored_sum(forest_v(children@), false) <= u64::MAX,
        stored_sum(forest_v(children@), true) <= u64::MAX,
    ensures
        node_v(r) == (TreeV::Dir {
            name: name@,
            children: forest_v(children@),
            added: stored_sum(forest_v(children@), false) as u64,
            deleted: stored_sum(forest_v(children@), true) as u64,
        }),
{
    let ghost cv = forest_v(children@);
    proof {
        lemma_forest_v(children@);
        lemma_stored_sum_prefix(cv, false);
        lemma_stored_sum_prefix(cv, true);
    }
    let mut added: u64 = 0;
    let mut deleted: u64 = 0;
    let mut k: usize = 0;
    while k < children.len()
        invariant
            cv == forest_v(children@),
            cv.len() == children.len(),
            forall|q: int| 0 <= q < children.len() ==> #[trigger] cv[q] == node_v(children@[q]),
            forall|j: int| 0 <= j <= cv.len() ==> #[trigger] stored_sum(cv.take(j), false) <= stored_sum(cv, false),
            forall|j: int| 0 <= j <= cv.len() ==> #[trigger] stored_sum(cv.take(j), true) <= stored_sum(cv, true),
            stored_sum(cv, false) <= u64::MAX,
            stored_sum(cv, true) <= u64::MAX,
            k <= children.len(),
            added == stored_sum(cv.take(k as int), false),
            deleted == stored_sum(cv.take(k as int), true),
        decreases children.len() - k,
    {
        proof {
            let t = cv.take(k + 1);
            assert(t.drop_last() =~= cv.take(k as int));
            assert(t.last() == node_v(children@[k as int]));
            assert(stored_sum(t, false) <= stored_sum(cv, false));
            assert(stored_sum(t, true) <= stored_sum(cv, true));
        }
        match &children[k] {
            TreeNode::Dir { added: a, deleted: d, .. } => {
                added = added + *a;
                deleted = deleted + *d;
            },
            TreeNode::File(f) => {
                added = added + f.added;
                deleted = deleted + f.deleted;
            },
        }
        k += 1;
    }
    assert(cv.take(children.len() as int) =~= cv);
    TreeNode::Dir { name, children, added, deleted }
}

// ------------------------------------------------------------ rows

/// One row of the file list.
#[derive(Clone, Debug, PartialEq, Eq)]
pub enum VisibleRow {
    Dir {
        path: String,
        depth: usize,
        collapsed: bool,
        added: u64,
        deleted: u64,
        /// Tree-guide prefix to draw before the name (e.g. `"  ├─"`).
        guide: String,
    },
    File {
        file: ChangedFile,
        depth: usize,
        /// Tree-guide prefix to draw before the name (e.g. `"  ├─"`).
        guide: String,
    },
}

/// The mathematical form of a list row.
pub enum RowV {
    Dir { path: Seq<char>, depth: usize, collapsed: bool, added: u64, deleted: u64, guide: Seq<char> },
    File { file: ChangedFile, depth: usize, guide: Seq<char> },
}

pub open spec fn vrow_v(r: VisibleRow) -> RowV {
    match r {
        VisibleRow::Dir { path, depth, collapsed, added, deleted, guide } => RowV::Dir {
            path: path@,
            depth,
            collapsed,
            added,
            deleted,
            guide: guide@,
        },
        VisibleRow::File { file, depth, guide } => RowV::File { file, depth, guide: guide@ },
    }
}

pub open spec fn vrows_v(s: Seq<VisibleRow>) -> Seq<RowV> {
    s.map_values(|r: VisibleRow| vrow_v(r))
}

impl VisibleRow {
    /// A field-by-field copy, equal to `self`.
    pub fn duplicate(&self) -> (r: VisibleRow)
        ensures
            r == *self,
    {
        match self {
            VisibleRow::Dir { path, depth, collapsed, added, deleted, guide } => VisibleRow::Dir {
                path: path.clone(),
                depth: *depth,
                collapsed: *collapsed,
                added: *added,
                deleted: *deleted,
                guide: guide.clone(),
            },
            VisibleRow::File { file, depth, guide } => VisibleRow::File {
                file: file.duplicate(),
                depth: *depth,
                guide: guide.clone(),
            },
        }
    }
}

/// The connector drawn before a node: the last sibling closes the branch.
pub open spec fn connector(is_last: bool) -> Seq<char> {
    if is_last {
        seq!['└', '─']
    } else {
        seq!['├', '─']
    }
}

/// The guide segment continuing below a node for its children.
pub open spec fn child_pad(is_last: bool) -> Seq<char> {
    if is_last {
        seq![' ', ' ']
    } else {
        seq!['│', ' ']
    }
}

/// `name` appended to a directory path.
pub open spec fn join_path(prefix: Seq<char>, name: Seq<char>) -> Seq<char> {
    if prefix.len() == 0 {
        name
    } else {
        prefix + seq!['/'] + name
    }
}

/// One level deeper.
pub open spec fn deeper(depth: usize) -> usize {
    if depth < usize::MAX {
        (depth + 1) as usize
    } else {
        depth
    }
}

/// The guide of a node at `depth`: the top level has no connector.
pub open spec fn guide_for(prefix: Seq<char>, depth: usize, is_last: bool) -> Seq<char> {
    if depth == 0 {
        prefix
    } else {
        prefix + connector(is_last)
    }
}

/// The rows of nodes `i..` of a sibling list, walked depth first; the
/// children of a collapsed directory are not shown.
pub open spec fn walk_at(
    nodes: Seq<TreeV>,
    i: int,
    collapsed: Seq<Seq<char>>,
    prefix: Seq<char>,
    path_prefix: Seq<char>,
    depth: usize,
) -> Seq<RowV>
    decreases nodes, nodes.len() - i,
{
    if i < 0 || i >= nodes.len() {
        seq![]
    } else {
        let is_last = i + 1 == nodes.len();
        let guide = guide_for(prefix, depth, is_last);
        let here = match nodes[i] {
            TreeV::Dir { name, children, added, deleted } => {
                let path = join_path(path_prefix, name);
                let c = collapsed.contains(path);
                seq![RowV::Dir { path, depth, collapsed: c, added, deleted, guide }] + if c {
                    Seq::<RowV>::empty()
                } else {
                    walk_at(children, 0, collapsed, prefix + child_pad(is_last), path, deeper(depth))
                }
            },
            TreeV::File(f) => seq![RowV::File { file: f, depth, guide }],
        };
        here + walk_at(nodes, i + 1, collapsed, prefix, path_prefix, depth)
    }
}

/// Whether a list of strings holds `s`.
pub fn contains_str(v: &Vec<String>, s: &str) -> (r: bool)
    ensures
        r == crate::align::strings_view(v@).contains(s@),
{
    let mut i: usize = 0;
    while i < v.len()
        invariant
            i <= v.len(),
            forall|j: int| 0 <= j < i ==> v@[j]@ != s@,
        decreases v.len() - i,
    {
        if str_eq(v[i].as_str(), s) {
            assert(crate::align::strings_view(v@)[i as int] == s@);
            return true;
        }
        i += 1;
    }
    assert forall|j: int| 0 <= j < v.len() implies crate::align::strings_view(v@)[j] != s@ by {
        assert(crate::align::strings_view(v@)[j] == v@[j]@);
    }
    false
}

fn join_path_exec(prefix: &str, name: &str) -> (r: String)
    ensures
        r@ == join_path(prefix@, name@),
{
    if prefix.is_empty() {
        name.to_owned()
    } else {
        let mut s = prefix.to_owned();
        crate::text::push_char(&mut s, '/');
        crate::text::push_str(&mut s, name);
        s
    }
}

fn guide_exec(prefix: &str, depth: usize, is_last: bool) -> (r: String)
    ensures
        r@ == guide_for(prefix@, depth, is_last),
{
    if depth == 0 {
        prefix.to_owned()
    } else {
        let mut s = prefix.to_owned();
        if is_last {
            crate::text::push_char(&mut s, '└');
        } else {
            crate::text::push_char(&mut s, '├');
        }
        crate::text::push_char(&mut s, '─');
        assert(s@ =~= prefix@ + connector(is_last));
        s
    }
}

fn child_prefix_exec(prefix: &str, is_last: bool) -> (r: String)
    ensures
        r@ == prefix@ + child_pad(is_last),
{
    let mut s = prefix.to_owned();
    if is_last {
        crate::text::push_char(&mut s, ' ');
    } else {
        crate::text::push_char(&mut s, '│');
    }
    crate::text::push_char(&mut s, ' ');
    assert(s@ =~= prefix@ + child_pad(is_last));
    s
}

fn deeper_exec(depth: usize) -> (r: usize)
    ensures
        r == deeper(depth),
{
    if depth < usize::MAX {
        depth + 1
    } else {
        depth
    }
}

proof fn lemma_push_vrow(s: Seq<VisibleRow>, r: VisibleRow)
    ensures
        vrows_v(s.push(r)) == vrows_v(s).push(vrow_v(r)),
{
    assert(vrows_v(s.push(r)) =~= vrows_v(s).push(vrow_v(r)));
}

fn walk(
    nodes: &[TreeNode],
    collapsed: &Vec<String>,
    prefix: &str,
    path_prefix: &str,
    depth: usize,
    out: &mut Vec<VisibleRow>,
)
    ensures
        vrows_v(final(out)@) == vrows_v(old(out)@) + walk_at(forest_v(nodes@), 0, crate::align::strings_view(collapsed@), prefix@, path_prefix@, depth),
    decreases nodes@,
{
    let ghost fv = forest_v(nodes@);
    let ghost cv = crate::align::strings_view(collapsed@);
    proof {
        lemma_forest_v(nodes@);
    }
    let count = nodes.len();
    let mut i: usize = 0;
    while i < count
        invariant
            count == nodes.len(),
            fv == forest_v(nodes@),
            fv.len() == nodes.len(),
            forall|k: int| 0 <= k < nodes.len() ==> #[trigger] fv[k] == node_v(nodes@[k]),
            cv == crate::align::strings_view(collapsed@),
            i <= count,
            vrows_v(old(out)@) + walk_at(fv, 0, cv, prefix@, path_prefix@, depth)
                == vrows_v(out@) + walk_at(fv, i as int, cv, prefix@, path_prefix@, depth),
        decreases count - i,
    {
        let is_last = i + 1 == count;
        let guide = guide_exec(prefix, depth, is_last);
        let ghost before = vrows_v(out@);
        match &nodes[i] {
            TreeNode::Dir { name, children, added, deleted } => {
                let path = join_path_exec(path_prefix, name.as_str());
                let is_collapsed = contains_str(collapsed, path.as_str());
                let row = VisibleRow::Dir {
                    path: path.clone(),
                    depth,
                    collapsed: is_collapsed,
                    added: *added,
                    deleted: *deleted,
                    guide,
                };
                proof {
                    lemma_push_vrow(out@, row);
                }
                out.push(row);
                if !is_collapsed {
                    let child_prefix = child_prefix_exec(prefix, is_last);
                    proof {
                        assert(decreases_to!(nodes@ => nodes@[i as int]));
                        assert(decreases_to!(nodes@[i as int] => *children));
                        assert(decreases_to!(*children => children@));
                    }
                    walk(children.as_slice(), collapsed, child_prefix.as_str(), path.as_str(), deeper_exec(depth), out);
                }
            },
            TreeNode::File(f) => {
                let row = VisibleRow::File { file: f.duplicate(), depth, guide };
                proof {
                    lemma_push_vrow(out@, row);
                }
                out.push(row);
            },
        }
        proof {
            assert(walk_at(fv, i as int, cv, prefix@, path_prefix@, depth)
                == (vrows_v(out@).skip(before.len() as int)) + walk_at(fv, i + 1, cv, prefix@, path_prefix@, depth)) by {
                assert(vrows_v(out@) =~= before + vrows_v(out@).skip(before.len() as int));
            }
            assert(vrows_v(out@) =~= before + vrows_v(out@).skip(before.len() as int));
        }
        i += 1;
    }
    assert(vrows_v(out@) + Seq::<RowV>::empty() =~= vrows_v(out@));
}

/// The rows shown for a tree when the directories at the paths in
/// `collapsed` are folded.
pub fn visible_rows(nodes: &[TreeNode], collapsed: &Vec<String>) -> (rows: Vec<VisibleRow>)
    ensures
        vrows_v(rows@) == walk_at(forest_v(nodes@), 0, crate::align::strings_view(collapsed@), seq![], seq![], 0),
{
    let mut rows: Vec<VisibleRow> = Vec::new();
    assert(vrows_v(rows@) =~= Seq::<RowV>::empty());
    let empty = "";
    proof {
        reveal_strlit("");
        assert(empty@ =~= Seq::<char>::empty());
    }
    walk(nodes, collapsed, empty, empty, 0, &mut rows);
    assert(Seq::<RowV>::empty() + walk_at(forest_v(nodes@), 0, crate::align::strings_view(collapsed@), seq![], seq![], 0)
        =~= walk_at(forest_v(nodes@), 0, crate::align::strings_view(collapsed@), seq![], seq![], 0));
    rows
}

/// The paths of all directories of nodes `i..`, in walk order.
pub open spec fn dirs_at(nodes: Seq<TreeV>, i: int, prefix: Seq<char>) -> Seq<Seq<char>>
    decreases nodes, nodes.len() - i,
{
    if i < 0 || i >= nodes.len() {
        seq![]
    } else {
        let here = match nodes[i] {
            TreeV::Dir { name, children, .. } => {
                let p = join_path(prefix, name);
                seq![p] + dirs_at(children, 0, p)
            },
            TreeV::File(_) => Seq::<Seq<char>>::empty(),
        };
        here + dirs_at(nodes, i + 1, prefix)
    }
}

fn collect_dirs(nodes: &[TreeNode], prefix: &str, out: &mut Vec<String>)
    ensures
        crate::align::strings_view(final(out)@) == crate::align::strings_view(old(out)@) + dirs_at(forest_v(nodes@), 0, prefix@),
    decreases nodes@,
{
    let ghost fv = forest_v(nodes@);
    proof {
        lemma_forest_v(nodes@);
    }
    let mut i: usize = 0;
    while i < nodes.len()
        invariant
            fv == forest_v(nodes@),
            fv.len() == nodes.len(),
            forall|k: int| 0 <= k < nodes.len() ==> #[trigger] fv[k] == node_v(nodes@[k]),
            i <= nodes.len(),
            crate::align::strings_view(old(out)@) + dirs_at(fv, 0, prefix@)
                == crate::align::strings_view(out@) + dirs_at(fv, i as int, prefix@),
        decreases nodes.len() - i,
    {
        let ghost before = crate::align::strings_view(out@);
        match &nodes[i] {
            TreeNode::Dir { name, children, .. } => {
                let path = join_path_exec(prefix, name.as_str());
                let pc = path.clone();
                proof {
                    assert(crate::align::strings_view(out@.push(pc)) =~= crate::align::strings_view(out@).push(path@));
                }
                out.push(pc);
                proof {
                    assert(decreases_to!(nodes@ => nodes@[i as int]));
                    assert(decreases_to!(nodes@[i as int] => *children));
                    assert(decreases_to!(*children => children@));
                }
                collect_dirs(children.as_slice(), path.as_str(), out);
            },
            TreeNode::File(_) => {},
        }
        proof {
            assert(crate::align::strings_view(out@) =~= before + crate::align::strings_view(out@).skip(before.len() as int));
        }
        i += 1;
    }
    assert(crate::align::strings_view(out@) + Seq::<Seq<char>>::empty() =~= crate::align::strings_view(out@));
}

/// All directory paths in the tree, in walk order.
pub fn all_dir_paths(nodes: &[TreeNode]) -> (r: Vec<String>)
    ensures
        crate::align::strings_view(r@) == dirs_at(forest_v(nodes@), 0, seq![]),
{
    let mut paths: Vec<String> = Vec::new();
    let empty = "";
    proof {
        reveal_strlit("");
        assert(empty@ =~= Seq::<char>::empty());
        assert(crate::align::strings_view(paths@) =~= Seq::<Seq<char>>::empty());
    }
    collect_dirs(nodes, empty, &mut paths);
    assert(Seq::<Seq<char>>::empty() + dirs_at(forest_v(nodes@), 0, seq![]) =~= dirs_at(forest_v(nodes@), 0, seq![]));
    paths
}

// ------------------------------------------------------------ filtering

/// The number of files in a subtree.
pub open spec fn node_count(n: TreeV) -> nat
    decreases n,
{
    match n {
        TreeV::Dir { children, .. } => forest_count(children),
        TreeV::File(_) => 1,
    }
}

/// The number of files in a forest.
pub open spec fn forest_count(s: Seq<TreeV>) -> nat
    decreases s,
{
    if s.len() == 0 {
        0
    } else {
        forest_count(s.drop_last()) + node_count(s.last())
    }
}

/// The files of nodes `i..`, in walk order.
pub open spec fn files_at(nodes: Seq<TreeV>, i: int) -> Seq<ChangedFile>
    decreases nodes, nodes.len() - i,
{
    if i < 0 || i >= nodes.len() {
        seq![]
    } else {
        let here = match nodes[i] {
            TreeV::Dir { children, .. } => files_at(children, 0),
            TreeV::File(f) => seq![f],
        };
        here + files_at(nodes, i + 1)
    }
}

/// Whether any file of nodes `i..` is kept, the first of them being file
/// number `base` of the walk.
pub open spec fn any_kept(nodes: Seq<TreeV>, i: int, keep: Seq<bool>, base: int) -> bool
    decreases nodes, nodes.len() - i,
{
    if i < 0 || i >= nodes.len() {
        false
    } else {
        let here = match nodes[i] {
            TreeV::Dir { children, .. } => any_kept(children, 0, keep, base),
            TreeV::File(_) => keep[base],
        };
        here || any_kept(nodes, i + 1, keep, base + node_count(nodes[i]))
    }
}

/// The rows of a filtered walk of nodes `i..`: files whose mark in `keep`
/// is set, and directories holding such a file; the guides are drawn over
/// the surviving siblings and nothing is collapsed.
pub open spec fn filt_at(
    nodes: Seq<TreeV>,
    i: int,
    keep: Seq<bool>,
    base: int,
    prefix: Seq<char>,
    path_prefix: Seq<char>,
    depth: usize,
) -> Seq<RowV>
    decreases nodes, nodes.len() - i,
{
    if i < 0 || i >= nodes.len() {
        seq![]
    } else {
        let next = base + node_count(nodes[i]);
        let rest = filt_at(nodes, i + 1, keep, next, prefix, path_prefix, depth);
        let is_last = !any_kept(nodes, i + 1, keep, next);
        let guide = guide_for(prefix, depth, is_last);
        match nodes[i] {
            TreeV::Dir { name, children, added, deleted } => {
                if any_kept(children, 0, keep, base) {
                    let path = join_path(path_prefix, name);
                    seq![RowV::Dir { path, depth, collapsed: false, added, deleted, guide }]
                        + filt_at(children, 0, keep, base, prefix + child_pad(is_last), path, deeper(depth))
                        + rest
                } else {
                    rest
                }
            },
            TreeV::File(f) => {
                if keep[base] {
                    seq![RowV::File { file: f, depth, guide }] + rest
                } else {
                    rest
                }
            },
        }
    }
}

/// The files of a list that `keep` marks, the first of them being file
/// number `base` of the walk.
pub open spec fn kept_files(files: Seq<ChangedFile>, keep: Seq<bool>, base: int) -> Seq<ChangedFile>
    decreases files.len(),
{
    if files.len() == 0 {
        seq![]
    } else {
        (if keep[base] {
            seq![files[0]]
        } else {
            Seq::<ChangedFile>::empty()
        }) + kept_files(files.drop_first(), keep, base + 1)
    }
}

/// The files of the file rows of a list of rows, in order.
pub open spec fn row_files(rows: Seq<RowV>) -> Seq<ChangedFile>
    decreases rows.len(),
{
    if rows.len() == 0 {
        seq![]
    } else {
        (match rows[0] {
            RowV::File { file, .. } => seq![file],
            RowV::Dir { .. } => Seq::<ChangedFile>::empty(),
        }) + row_files(rows.drop_first())
    }
}

proof fn lemma_row_files_concat(a: Seq<RowV>, b: Seq<RowV>)
    ensures
        row_files(a + b) == row_files(a) + row_files(b),
    decreases a.len(),
{
    if a.len() == 0 {
        assert(a + b =~= b);
        assert(row_files(a) + row_files(b) =~= row_files(b));
    } else {
        assert((a + b)[0] == a[0]);
        assert((a + b).drop_first() =~= a.drop_first() + b);
        lemma_row_files_concat(a.drop_first(), b);
        let h = match a[0] {
            RowV::File { file, .. } => seq![file],
            RowV::Dir { .. } => Seq::<ChangedFile>::empty(),
        };
        assert(h + (row_files(a.drop_first()) + row_files(b)) =~= (h + row_files(a.drop_first())) + row_files(b));
    }
}

proof fn lemma_kept_concat(a: Seq<ChangedFile>, b: Seq<ChangedFile>, keep: Seq<bool>, base: int)
    ensures
        kept_files(a + b, keep, base) == kept_files(a, keep, base) + kept_files(b, keep, base + a.len()),
    decreases a.len(),
{
    if a.len() == 0 {
        assert(a + b =~= b);
        assert(kept_files(a, keep, base) + kept_files(b, keep, base) =~= kept_files(b, keep, base));
    } else {
        assert((a + b)[0] == a[0]);
        assert((a + b).drop_first() =~= a.drop_first() + b);
        lemma_kept_concat(a.drop_first(), b, keep, base + 1);
        let h = if keep[base] {
            seq![a[0]]
        } else {
            Seq::<ChangedFile>::empty()
        };
        assert(h + (kept_files(a.drop_first(), keep, base + 1) + kept_files(b, keep, base + a.len())) =~= (h + kept_files(
            a.drop_first(),
            keep,
            base + 1,
        )) + kept_files(b, keep, base + a.len()));
    }
}

proof fn lemma_files_at_step(nodes: Seq<TreeV>, i: int)
    requires
        0 <= i < nodes.len(),
    ensures
        files_at(nodes, i) == (match nodes[i] {
            TreeV::Dir { children, .. } => files_at(children, 0),
            TreeV::File(f) => seq![f],
        }) + files_at(nodes, i + 1),
        (match nodes[i] {
            TreeV::Dir { children, .. } => files_at(children, 0),
            TreeV::File(f) => seq![f],
        }).len() == node_count(nodes[i]),
{
    match nodes[i] {
        TreeV::Dir { children, .. } => {
            lemma_files_count(children, 0);
            assert(children.take(0) =~= Seq::<TreeV>::empty());
        },
        TreeV::File(_) => {},
    }
}

proof fn lemma_none_kept(nodes: Seq<TreeV>, i: int, keep: Seq<bool>, base: int)
    requires
        0 <= i <= nodes.len(),
        !any_kept(nodes, i, keep, base),
    ensures
        kept_files(files_at(nodes, i), keep, base) == Seq::<ChangedFile>::empty(),
    decreases nodes, nodes.len() - i,
{
    if i < nodes.len() {
        lemma_files_at_step(nodes, i);
        let here = match nodes[i] {
            TreeV::Dir { children, .. } => files_at(children, 0),
            TreeV::File(f) => seq![f],
        };
        lemma_kept_concat(here, files_at(nodes, i + 1), keep, base);
        lemma_none_kept(nodes, i + 1, keep, base + node_count(nodes[i]));
        assert(kept_files(Seq::<ChangedFile>::empty(), keep, base + 1) == Seq::<ChangedFile>::empty());
        match nodes[i] {
            TreeV::Dir { children, .. } => {
                lemma_none_kept(children, 0, keep, base);
            },
            TreeV::File(f) => {
                assert(seq![f].drop_first() =~= Seq::<ChangedFile>::empty());
                assert(kept_files(seq![f], keep, base) =~= Seq::<ChangedFile>::empty());
            },
        }
        assert(kept_files(here, keep, base) + kept_files(files_at(nodes, i + 1), keep, base + node_count(nodes[i]))
            =~= Seq::<ChangedFile>::empty());
    } else {
        assert(files_at(nodes, i) == Seq::<ChangedFile>::empty());
    }
}

proof fn lemma_filt_files(
    nodes: Seq<TreeV>,
    i: int,
    keep: Seq<bool>,
    base: int,
    prefix: Seq<char>,
    path_prefix: Seq<char>,
    depth: usize,
)
    requires
        0 <= i <= nodes.len(),
    ensures
        row_files(filt_at(nodes, i, keep, base, prefix, path_prefix, depth)) == kept_files(files_at(nodes, i), keep, base),
    decreases nodes, nodes.len() - i,
{
    if i < nodes.len() {
        let next = base + node_count(nodes[i]);
        let rest = filt_at(nodes, i + 1, keep, next, prefix, path_prefix, depth);
        let is_last = !any_kept(nodes, i + 1, keep, next);
        lemma_filt_files(nodes, i + 1, keep, next, prefix, path_prefix, depth);
        lemma_files_at_step(nodes, i);
        let here = match nodes[i] {
            TreeV::Dir { children, .. } => files_at(children, 0),
            TreeV::File(f) => seq![f],
        };
        lemma_kept_concat(here, files_at(nodes, i + 1), keep, base);
        match nodes[i] {
            TreeV::Dir { name, children, added, deleted } => {
                if any_kept(children, 0, keep, base) {
                    let path = join_path(path_prefix, name);
                    let guide = guide_for(prefix, depth, is_last);
                    let d = seq![RowV::Dir { path, depth, collapsed: false, added, deleted, guide }];
                    let inner = filt_at(children, 0, keep, base, prefix + child_pad(is_last), path, deeper(depth));
                    lemma_filt_files(children, 0, keep, base, prefix + child_pad(is_last), path, deeper(depth));
                    lemma_row_files_concat(d + inner, rest);
                    lemma_row_files_concat(d, inner);
                    assert(d.drop_first() =~= Seq::<RowV>::empty());
                    assert(row_files(Seq::<RowV>::empty()) == Seq::<ChangedFile>::empty());
                    assert(row_files(d) =~= Seq::<ChangedFile>::empty());
                    assert(filt_at(nodes, i, keep, base, prefix, path_prefix, depth) == d + inner + rest);
                    assert(row_files(d) + row_files(inner) + row_files(rest) =~= kept_files(here, keep, base) + kept_files(
                        files_at(nodes, i + 1),
                        keep,
                        next,
                    ));
                } else {
                    lemma_none_kept(children, 0, keep, base);
                    assert(filt_at(nodes, i, keep, base, prefix, path_prefix, depth) == rest);
                    assert(Seq::<ChangedFile>::empty() + kept_files(files_at(nodes, i + 1), keep, next) =~= kept_files(
                        files_at(nodes, i + 1),
                        keep,
                        next,
                    ));
                }
            },
            TreeV::File(f) => {
                assert(seq![f].drop_first() =~= Seq::<ChangedFile>::empty());
                assert(kept_files(Seq::<ChangedFile>::empty(), keep, base + 1) == Seq::<ChangedFile>::empty());
                assert(row_files(Seq::<RowV>::empty()) == Seq::<ChangedFile>::empty());
                if keep[base] {
                    let guide = guide_for(prefix, depth, is_last);
                    let r = seq![RowV::File { file: f, depth, guide }];
                    lemma_row_files_concat(r, rest);
                    assert(r.drop_first() =~= Seq::<RowV>::empty());
                    assert(row_files(r) =~= seq![f]);
                    assert(kept_files(seq![f], keep, base) =~= seq![f]);
                    assert(filt_at(nodes, i, keep, base, prefix, path_prefix, depth) == r + rest);
                } else {
                    assert(kept_files(seq![f], keep, base) =~= Seq::<ChangedFile>::empty());
                    assert(filt_at(nodes, i, keep, base, prefix, path_prefix, depth) == rest);
                    assert(Seq::<ChangedFile>::empty() + kept_files(files_at(nodes, i + 1), keep, next) =~= kept_files(
                        files_at(nodes, i + 1),
                        keep,
                        next,
                    ));
                }
            },
        }
    } else {
        assert(files_at(nodes, i) == Seq::<ChangedFile>::empty());
        assert(filt_at(nodes, i, keep, base, prefix, path_prefix, depth) == Seq::<RowV>::empty());
    }
}

/// A filtered walk shows exactly the files the filter keeps, in walk order.
pub proof fn lemma_filter_shows_kept_files(nodes: Seq<TreeV>, keep: Seq<bool>)
    ensures
        row_files(filt_at(nodes, 0, keep, 0, seq![], seq![], 0)) == kept_files(files_at(nodes, 0), keep, 0),
{
    lemma_filt_files(nodes, 0, keep, 0, seq![], seq![], 0);
}

/// Every directory of a forest holds a file.
pub open spec fn dirs_have_files(s: Seq<TreeV>) -> bool
    decreases s,
{
    if s.len() == 0 {
        true
    } else {
        dirs_have_files(s.drop_last()) && node_has_files(s.last())
    }
}

/// Every directory of a subtree holds a file.
pub open spec fn node_has_files(n: TreeV) -> bool
    decreases n,
{
    match n {
        TreeV::Dir { children, .. } => forest_count(children) > 0 && dirs_have_files(children),
        TreeV::File(_) => true,
    }
}

proof fn lemma_dirs_have_files_pointwise(s: Seq<TreeV>)
    ensures
        dirs_have_files(s) <==> forall|i: int| 0 <= i < s.len() ==> #[trigger] node_has_files(s[i]),
    decreases s.len(),
{
    if s.len() > 0 {
        lemma_dirs_have_files_pointwise(s.drop_last());
        if forall|i: int| 0 <= i < s.len() ==> #[trigger] node_has_files(s[i]) {
            assert forall|i: int| 0 <= i < s.drop_last().len() implies #[trigger] node_has_files(s.drop_last()[i]) by {
                assert(s.drop_last()[i] == s[i]);
            }
            assert(node_has_files(s[s.len() - 1]));
        }
        if dirs_have_files(s) {
            assert forall|i: int| 0 <= i < s.len() implies #[trigger] node_has_files(s[i]) by {
                if i < s.len() - 1 {
                    assert(s.drop_last()[i] == s[i]);
                }
            }
        }
    }
}

/// Whether `keep` marks every one of the `n` files from number `base` on.
pub open spec fn keeps_all(keep: Seq<bool>, base: int, n: int) -> bool {
    &&& 0 <= base
    &&& base + n <= keep.len()
    &&& forall|k: int| base <= k < base + n ==> #[trigger] keep[k]
}

proof fn lemma_all_kept(nodes: Seq<TreeV>, i: int, keep: Seq<bool>, base: int)
    requires
        0 <= i <= nodes.len(),
        dirs_have_files(nodes),
        keeps_all(keep, base, forest_count(nodes.skip(i)) as int),
    ensures
        any_kept(nodes, i, keep, base) == (i < nodes.len()),
    decreases nodes, nodes.len() - i,
{
    if i < nodes.len() {
        lemma_dirs_have_files_pointwise(nodes);
        lemma_count_skip(nodes, i);
        assert(node_has_files(nodes[i]));
        match nodes[i] {
            TreeV::Dir { children, .. } => {
                assert(children.skip(0) =~= children);
                if children.len() == 0 {
                    assert(forest_count(children) == 0);
                }
                lemma_all_kept(children, 0, keep, base);
            },
            TreeV::File(_) => {
                assert(keep[base]);
            },
        }
    }
}

proof fn lemma_filter_all_walk(
    nodes: Seq<TreeV>,
    i: int,
    keep: Seq<bool>,
    base: int,
    prefix: Seq<char>,
    path_prefix: Seq<char>,
    depth: usize,
)
    requires
        0 <= i <= nodes.len(),
        dirs_have_files(nodes),
        keeps_all(keep, base, forest_count(nodes.skip(i)) as int),
    ensures
        filt_at(nodes, i, keep, base, prefix, path_prefix, depth) == walk_at(nodes, i, seq![], prefix, path_prefix, depth),
    decreases nodes, nodes.len() - i,
{
    if i < nodes.len() {
        lemma_dirs_have_files_pointwise(nodes);
        lemma_count_skip(nodes, i);
        let next = base + node_count(nodes[i]);
        assert(keeps_all(keep, next, forest_count(nodes.skip(i + 1)) as int));
        lemma_filter_all_walk(nodes, i + 1, keep, next, prefix, path_prefix, depth);
        lemma_all_kept(nodes, i + 1, keep, next);
        assert(node_has_files(nodes[i]));
        match nodes[i] {
            TreeV::Dir { name, children, .. } => {
                assert(children.skip(0) =~= children);
                if children.len() == 0 {
                    assert(forest_count(children) == 0);
                }
                let is_last = i + 1 == nodes.len();
                let path = join_path(path_prefix, name);
                lemma_all_kept(children, 0, keep, base);
                lemma_filter_all_walk(children, 0, keep, base, prefix + child_pad(is_last), path, deeper(depth));
                assert(!Seq::<Seq<char>>::empty().contains(path));
            },
            TreeV::File(_) => {
                assert(keep[base]);
            },
        }
    }
}

proof fn lemma_insert_has_files(nodes: Seq<TreeV>, parts: Seq<Seq<char>>, file: ChangedFile)
    requires
        dirs_have_files(nodes),
    ensures
        dirs_have_files(insert_v(nodes, parts, file)),
    decreases parts.len(),
{
    lemma_dirs_have_files_pointwise(nodes);
    let r = insert_v(nodes, parts, file);
    if parts.len() <= 1 {
        assert forall|i: int| 0 <= i < r.len() implies #[trigger] node_has_files(r[i]) by {
            if i < nodes.len() {
                assert(r[i] == nodes[i]);
            }
        }
    } else {
        let j = find_dir_from(nodes, parts[0], 0);
        lemma_find_dir_range(nodes, parts[0], 0);
        if j < nodes.len() {
            match nodes[j] {
                TreeV::Dir { name, children, added, deleted } => {
                    assert(node_has_files(nodes[j]));
                    lemma_insert_has_files(children, parts.drop_first(), file);
                    lemma_insert_count(children, parts.drop_first(), file);
                    assert forall|i: int| 0 <= i < r.len() implies #[trigger] node_has_files(r[i]) by {
                        if i != j {
                            assert(r[i] == nodes[i]);
                        }
                    }
                },
                TreeV::File(_) => {},
            }
        } else {
            assert(dirs_have_files(Seq::<TreeV>::empty()));
            lemma_insert_has_files(Seq::<TreeV>::empty(), parts.drop_first(), file);
            lemma_insert_count(Seq::<TreeV>::empty(), parts.drop_first(), file);
            assert(forest_count(Seq::<TreeV>::empty()) == 0);
            assert forall|i: int| 0 <= i < r.len() implies #[trigger] node_has_files(r[i]) by {
                if i < nodes.len() {
                    assert(r[i] == nodes[i]);
                }
            }
        }
    }
    lemma_dirs_have_files_pointwise(r);
}

proof fn lemma_insert_all_has_files(files: Seq<ChangedFile>)
    ensures
        dirs_have_files(insert_all(files)),
    decreases files.len(),
{
    if files.len() > 0 {
        lemma_insert_all_has_files(files.drop_last());
        lemma_insert_has_files(insert_all(files.drop_last()), split_path(files.last().path@), files.last());
    }
}

proof fn lemma_aggregate_has_files(s: Seq<TreeV>)
    requires
        dirs_have_files(s),
    ensures
        dirs_have_files(aggregate_v(s)),
    decreases s,
{
    lemma_dirs_have_files_pointwise(s);
    lemma_aggregate_len(s);
    let a = aggregate_v(s);
    assert forall|i: int| 0 <= i < a.len() implies #[trigger] node_has_files(a[i]) by {
        assert(a[i] == aggregate_node(s[i]));
        assert(node_has_files(s[i]));
        match s[i] {
            TreeV::Dir { children, .. } => {
                assert(decreases_to!(s => s[i]));
                lemma_aggregate_has_files(children);
                lemma_aggregate_count(children);
            },
            TreeV::File(_) => {},
        }
    }
    lemma_dirs_have_files_pointwise(a);
}

proof fn lemma_sort_has_files(s: Seq<TreeV>, mode: SortMode)
    requires
        dirs_have_files(s),
    ensures
        dirs_have_files(sort_v(s, mode)),
    decreases s, 1nat,
{
    lemma_dirs_have_files_pointwise(s);
    let k = sort_kids(s, mode);
    lemma_sort_kids_index(s, mode);
    assert forall|j: int| 0 <= j < k.len() implies #[trigger] node_has_files(k[j]) by {
        assert(k[j] == sort_node(s[j], mode));
        assert(node_has_files(s[j]));
        match s[j] {
            TreeV::Dir { children, .. } => {
                assert(decreases_to!(s => s[j]));
                lemma_sort_has_files(children, mode);
                lemma_sort_v_count(children, mode);
            },
            TreeV::File(_) => {},
        }
    }
    lemma_sort_seq_facts(k, mode, false);
    let r = sort_seq(k, mode);
    assert forall|j: int| 0 <= j < r.len() implies #[trigger] node_has_files(r[j]) by {
        assert(k.contains(r[j]));
        let m = choose|m: int| 0 <= m < k.len() && k[m] == r[j];
        assert(node_has_files(k[m]));
    }
    lemma_dirs_have_files_pointwise(r);
}

/// Every directory of a built tree holds a file.
pub proof fn lemma_build_tree_dirs_have_files(files: Seq<ChangedFile>, sort: SortMode)
    ensures
        dirs_have_files(build_tree_spec(files, sort)),
{
    lemma_insert_all_has_files(files);
    lemma_aggregate_has_files(insert_all(files));
    lemma_sort_has_files(aggregate_v(insert_all(files)), sort);
}

/// The paths of the directory rows of a list of rows, in order.
pub open spec fn row_dir_paths(rows: Seq<RowV>) -> Seq<Seq<char>>
    decreases rows.len(),
{
    if rows.len() == 0 {
        seq![]
    } else {
        (match rows[0] {
            RowV::Dir { path, .. } => seq![path],
            RowV::File { .. } => Seq::<Seq<char>>::empty(),
        }) + row_dir_paths(rows.drop_first())
    }
}

proof fn lemma_row_dir_paths_concat(a: Seq<RowV>, b: Seq<RowV>)
    ensures
        row_dir_paths(a + b) == row_dir_paths(a) + row_dir_paths(b),
    decreases a.len(),
{
    if a.len() == 0 {
        assert(a + b =~= b);
        assert(row_dir_paths(a) + row_dir_paths(b) =~= row_dir_paths(b));
    } else {
        assert((a + b)[0] == a[0]);
        assert((a + b).drop_first() =~= a.drop_first() + b);
        lemma_row_dir_paths_concat(a.drop_first(), b);
        let h = match a[0] {
            RowV::Dir { path, .. } => seq![path],
            RowV::File { .. } => Seq::<Seq<char>>::empty(),
        };
        assert(h + (row_dir_paths(a.drop_first()) + row_dir_paths(b)) =~= (h + row_dir_paths(a.drop_first())) + row_dir_paths(b));
    }
}

proof fn lemma_walk_all(nodes: Seq<TreeV>, i: int, prefix: Seq<char>, path_prefix: Seq<char>, depth: usize)
    requires
        0 <= i <= nodes.len(),
    ensures
        row_files(walk_at(nodes, i, seq![], prefix, path_prefix, depth)) == files_at(nodes, i),
        row_dir_paths(walk_at(nodes, i, seq![], prefix, path_prefix, depth)) == dirs_at(nodes, i, path_prefix),
    decreases nodes, nodes.len() - i,
{
    if i < nodes.len() {
        let rest = walk_at(nodes, i + 1, seq![], prefix, path_prefix, depth);
        lemma_walk_all(nodes, i + 1, prefix, path_prefix, depth);
        let is_last = i + 1 == nodes.len();
        let guide = guide_for(prefix, depth, is_last);
        assert(row_files(Seq::<RowV>::empty()) == Seq::<ChangedFile>::empty());
        assert(row_dir_paths(Seq::<RowV>::empty()) == Seq::<Seq<char>>::empty());
        match nodes[i] {
            TreeV::Dir { name, children, added, deleted } => {
                let path = join_path(path_prefix, name);
                assert(!Seq::<Seq<char>>::empty().contains(path));
                let d = seq![RowV::Dir { path, depth, collapsed: false, added, deleted, guide }];
                let inner = walk_at(children, 0, seq![], prefix + child_pad(is_last), path, deeper(depth));
                lemma_walk_all(children, 0, prefix + child_pad(is_last), path, deeper(depth));
                assert(walk_at(nodes, i, seq![], prefix, path_prefix, depth) == (d + inner) + rest);
                lemma_row_files_concat(d + inner, rest);
                lemma_row_files_concat(d, inner);
                lemma_row_dir_paths_concat(d + inner, rest);
                lemma_row_dir_paths_concat(d, inner);
                assert(d.drop_first() =~= Seq::<RowV>::empty());
                assert(row_files(d) =~= Seq::<ChangedFile>::empty());
                assert(row_dir_paths(d) =~= seq![path]);
                assert(Seq::<ChangedFile>::empty() + files_at(children, 0) + files_at(nodes, i + 1) =~= files_at(children, 0) + files_at(
                    nodes,
                    i + 1,
                ));
            },
            TreeV::File(f) => {
                let r = seq![RowV::File { file: f, depth, guide }];
                assert(walk_at(nodes, i, seq![], prefix, path_prefix, depth) == r + rest);
                lemma_row_files_concat(r, rest);
                lemma_row_dir_paths_concat(r, rest);
                assert(r.drop_first() =~= Seq::<RowV>::empty());
                assert(row_files(r) =~= seq![f]);
                assert(row_dir_paths(r) =~= Seq::<Seq<char>>::empty());
                assert(Seq::<Seq<char>>::empty() + dirs_at(nodes, i + 1, path_prefix) =~= dirs_at(nodes, i + 1, path_prefix));
            },
        }
    } else {
        assert(walk_at(nodes, i, seq![], prefix, path_prefix, depth) == Seq::<RowV>::empty());
    }
}

/// With nothing collapsed, the list shows every file once, in walk order,
/// and a row for every directory: the paths `all_dir_paths` gives, in the
/// same order.
pub proof fn lemma_walk_shows_everything(nodes: Seq<TreeV>)
    ensures
        row_files(walk_at(nodes, 0, seq![], seq![], seq![], 0)) == files_at(nodes, 0),
        row_dir_paths(walk_at(nodes, 0, seq![], seq![], seq![], 0)) == dirs_at(nodes, 0, seq![]),
{
    lemma_walk_all(nodes, 0, seq![], seq![], 0);
}

/// The row of a top-level node with every directory folded.
pub open spec fn folded_top_row(n: TreeV) -> RowV {
    match n {
        TreeV::Dir { name, added, deleted, .. } => RowV::Dir { path: name, depth: 0, collapsed: true, added, deleted, guide: seq![] },
        TreeV::File(f) => RowV::File { file: f, depth: 0, guide: seq![] },
    }
}

proof fn lemma_dirs_at_lists_dir(nodes: Seq<TreeV>, i: int, p: Seq<char>, j: int)
    requires
        0 <= i <= j < nodes.len(),
        nodes[j] is Dir,
    ensures
        dirs_at(nodes, i, p).contains(join_path(p, nodes[j]->name)),
    decreases j - i,
{
    let here = match nodes[i] {
        TreeV::Dir { name, children, .. } => seq![join_path(p, name)] + dirs_at(children, 0, join_path(p, name)),
        TreeV::File(_) => Seq::<Seq<char>>::empty(),
    };
    assert(dirs_at(nodes, i, p) == here + dirs_at(nodes, i + 1, p));
    if j == i {
        assert(here[0] == join_path(p, nodes[j]->name));
        assert((here + dirs_at(nodes, i + 1, p))[0] == here[0]);
    } else {
        lemma_dirs_at_lists_dir(nodes, i + 1, p, j);
        let rest = dirs_at(nodes, i + 1, p);
        let k = choose|k: int| 0 <= k < rest.len() && #[trigger] rest[k] == join_path(p, nodes[j]->name);
        assert((here + rest)[here.len() + k] == rest[k]);
    }
}

proof fn lemma_walk_folded_top(nodes: Seq<TreeV>, i: int, c: Seq<Seq<char>>)
    requires
        0 <= i <= nodes.len(),
        forall|j: int| i <= j < nodes.len() && (#[trigger] nodes[j]) is Dir ==> c.contains(nodes[j]->name),
    ensures
        walk_at(nodes, i, c, seq![], seq![], 0) == nodes.skip(i).map_values(|n: TreeV| folded_top_row(n)),
    decreases nodes.len() - i,
{
    if i < nodes.len() {
        lemma_walk_folded_top(nodes, i + 1, c);
        let is_last = i + 1 == nodes.len();
        assert(guide_for(seq![], 0, is_last) == Seq::<char>::empty());
        match nodes[i] {
            TreeV::Dir { name, .. } => {
                assert(join_path(seq![], name) == name);
                assert(c.contains(name));
            },
            TreeV::File(_) => {},
        }
        assert(walk_at(nodes, i, c, seq![], seq![], 0) == seq![folded_top_row(nodes[i])] + walk_at(nodes, i + 1, c, seq![], seq![], 0));
        assert(nodes.skip(i).map_values(|n: TreeV| folded_top_row(n)) =~= seq![folded_top_row(nodes[i])] + nodes.skip(i + 1).map_values(
            |n: TreeV| folded_top_row(n),
        ));
    } else {
        assert(nodes.skip(i).map_values(|n: TreeV| folded_top_row(n)) =~= Seq::<RowV>::empty());
    }
}

/// Folding every directory (the paths `all_dir_paths` gives) leaves the top
/// level alone: one row per top-level node, in order, at depth 0 with no
/// guide, each directory shown folded.
pub proof fn lemma_fold_all_leaves_top_level(nodes: Seq<TreeV>)
    ensures
        walk_at(nodes, 0, dirs_at(nodes, 0, seq![]), seq![], seq![], 0) == nodes.map_values(|n: TreeV| folded_top_row(n)),
{
    let all = dirs_at(nodes, 0, seq![]);
    assert forall|j: int| 0 <= j < nodes.len() && (#[trigger] nodes[j]) is Dir implies all.contains(nodes[j]->name) by {
        lemma_dirs_at_lists_dir(nodes, 0, seq![], j);
        assert(join_path(seq![], nodes[j]->name) == nodes[j]->name);
    }
    lemma_walk_folded_top(nodes, 0, all);
    assert(nodes.skip(0) =~= nodes);
}

/// The shape of a row's guide: none at the top level; below it two columns
/// per level of depth and a connector (`├─`, or `└─` for a last sibling)
/// at its end. A directory row is marked folded exactly when its path is
/// among the folded paths `c`.
pub open spec fn row_shape_ok(r: RowV, c: Seq<Seq<char>>) -> bool {
    let (depth, guide) = match r {
        RowV::Dir { depth, guide, .. } => (depth, guide),
        RowV::File { depth, guide, .. } => (depth, guide),
    };
    &&& depth < usize::MAX ==> if depth == 0 {
        guide.len() == 0
    } else {
        &&& guide.len() == 2 * depth + 2
        &&& (guide.subrange(2 * depth, 2 * depth + 2) == connector(true) || guide.subrange(2 * depth, 2 * depth + 2) == connector(false))
    }
    &&& r matches RowV::Dir { path, collapsed, .. } ==> collapsed == c.contains(path)
}

proof fn lemma_walk_shape(
    nodes: Seq<TreeV>,
    i: int,
    c: Seq<Seq<char>>,
    prefix: Seq<char>,
    path_prefix: Seq<char>,
    depth: usize,
)
    requires
        0 <= i,
        depth < usize::MAX ==> prefix.len() == 2 * depth,
    ensures
        forall|q: int|
            0 <= q < walk_at(nodes, i, c, prefix, path_prefix, depth).len() ==> row_shape_ok(
                #[trigger] walk_at(nodes, i, c, prefix, path_prefix, depth)[q],
                c,
            ),
    decreases nodes, nodes.len() - i,
{
    if i < nodes.len() {
        let rows = walk_at(nodes, i, c, prefix, path_prefix, depth);
        let rest = walk_at(nodes, i + 1, c, prefix, path_prefix, depth);
        lemma_walk_shape(nodes, i + 1, c, prefix, path_prefix, depth);
        let is_last = i + 1 == nodes.len();
        let guide = guide_for(prefix, depth, is_last);
        if depth < usize::MAX && depth > 0 {
            assert(guide.subrange(2 * depth, 2 * depth + 2) =~= connector(is_last));
        }
        let here = match nodes[i] {
            TreeV::Dir { name, children, added, deleted } => {
                let path = join_path(path_prefix, name);
                let cl = c.contains(path);
                let head = seq![RowV::Dir { path, depth, collapsed: cl, added, deleted, guide }];
                let inner = if cl {
                    Seq::<RowV>::empty()
                } else {
                    walk_at(children, 0, c, prefix + child_pad(is_last), path, deeper(depth))
                };
                if !cl {
                    lemma_walk_shape(children, 0, c, prefix + child_pad(is_last), path, deeper(depth));
                }
                assert(row_shape_ok(head[0], c));
                assert forall|q: int| 0 <= q < (head + inner).len() implies row_shape_ok(#[trigger] (head + inner)[q], c) by {
                    if q > 0 {
                        assert((head + inner)[q] == inner[q - 1]);
                    }
                }
                head + inner
            },
            TreeV::File(f) => {
                let r = seq![RowV::File { file: f, depth, guide }];
                assert(row_shape_ok(r[0], c));
                r
            },
        };
        assert(rows == here + rest);
        assert forall|q: int| 0 <= q < rows.len() implies row_shape_ok(#[trigger] rows[q], c) by {
            if q < here.len() {
                assert(rows[q] == here[q]);
            } else {
                assert(rows[q] == rest[q - here.len()]);
            }
        }
    }
}

/// The rows of the list (see `visible_rows`) have their shape: no guide at
/// the top level, below it two columns per level and a connector, and each
/// directory marked folded exactly when its path is folded.
pub proof fn lemma_walk_rows_shape(nodes: Seq<TreeV>, c: Seq<Seq<char>>)
    ensures
        forall|q: int|
            0 <= q < walk_at(nodes, 0, c, seq![], seq![], 0).len() ==> row_shape_ok(
                #[trigger] walk_at(nodes, 0, c, seq![], seq![], 0)[q],
                c,
            ),
{
    lemma_walk_shape(nodes, 0, c, seq![], seq![], 0);
}

/// A filter that keeps every file shows the whole walk with nothing
/// collapsed, when every directory holds a file.
pub proof fn lemma_filter_keeping_all_is_walk(nodes: Seq<TreeV>, keep: Seq<bool>)
    requires
        dirs_have_files(nodes),
        keep.len() == forest_count(nodes),
        forall|k: int| 0 <= k < keep.len() ==> #[trigger] keep[k],
    ensures
        filt_at(nodes, 0, keep, 0, seq![], seq![], 0) == walk_at(nodes, 0, seq![], seq![], seq![], 0),
{
    assert(nodes.skip(0) =~= nodes);
    lemma_filter_all_walk(nodes, 0, keep, 0, seq![], seq![], 0);
}

proof fn lemma_count_prefix(s: Seq<TreeV>, i: int)
    requires
        0 <= i < s.len(),
    ensures
        forest_count(s.take(i + 1)) == forest_count(s.take(i)) + node_count(s[i]),
        forest_count(s.take(i + 1)) <= forest_count(s),
    decreases s.len(),
{
    assert(s.take(i + 1).drop_last() =~= s.take(i));
    if i + 1 < s.len() {
        lemma_count_prefix(s.drop_last(), i);
        assert(s.drop_last().take(i + 1) =~= s.take(i + 1));
        assert(s.drop_last().take(i) =~= s.take(i));
    } else {
        assert(s.take(i + 1) =~= s);
    }
}

fn collect_files(nodes: &[TreeNode], out: &mut Vec<ChangedFile>)
    ensures
        final(out)@ == old(out)@ + files_at(forest_v(nodes@), 0),
    decreases nodes@,
{
    let ghost fv = forest_v(nodes@);
    proof {
        lemma_forest_v(nodes@);
    }
    let mut i: usize = 0;
    while i < nodes.len()
        invariant
            fv == forest_v(nodes@),
            fv.len() == nodes.len(),
            forall|k: int| 0 <= k < nodes.len() ==> #[trigger] fv[k] == node_v(nodes@[k]),
            i <= nodes.len(),
            old(out)@ + files_at(fv, 0) == out@ + files_at(fv, i as int),
        decreases nodes.len() - i,
    {
        let ghost before = out@;
        match &nodes[i] {
            TreeNode::Dir { children, .. } => {
                proof {
                    assert(decreases_to!(nodes@ => nodes@[i as int]));
                    assert(decreases_to!(nodes@[i as int] => *children));
                    assert(decreases_to!(*children => children@));
                }
                collect_files(children.as_slice(), out);
            },
            TreeNode::File(f) => {
                out.push(f.duplicate());
            },
        }
        proof {
            assert(out@ =~= before + out@.skip(before.len() as int));
        }
        i += 1;
    }
    assert(out@ + Seq::<ChangedFile>::empty() =~= out@);
}

proof fn lemma_files_count(nodes: Seq<TreeV>, i: int)
    requires
        0 <= i <= nodes.len(),
    ensures
        files_at(nodes, i).len() + forest_count(nodes.take(i)) == forest_count(nodes),
    decreases nodes, nodes.len() - i,
{
    if i < nodes.len() {
        lemma_files_count(nodes, i + 1);
        lemma_count_prefix(nodes, i);
        match nodes[i] {
            TreeV::Dir { children, .. } => {
                lemma_files_count(children, 0);
                assert(children.take(0) =~= Seq::<TreeV>::empty());
            },
            TreeV::File(_) => {},
        }
    } else {
        assert(nodes.take(i) =~= nodes);
    }
}

/// The files of a forest in walk order; there are `forest_count` of them.
pub fn files_in_order(nodes: &[TreeNode]) -> (r: Vec<ChangedFile>)
    ensures
        r@ == files_at(forest_v(nodes@), 0),
        r.len() == forest_count(forest_v(nodes@)),
{
    let mut out: Vec<ChangedFile> = Vec::new();
    collect_files(nodes, &mut out);
    proof {
        lemma_files_count(forest_v(nodes@), 0);
        assert(forest_v(nodes@).take(0) =~= Seq::<TreeV>::empty());
        assert(Seq::<ChangedFile>::empty() + files_at(forest_v(nodes@), 0) =~= files_at(forest_v(nodes@), 0));
    }
    out
}

fn any_kept_exec(nodes: &[TreeNode], i: usize, keep: &Vec<bool>, base: usize) -> (r: bool)
    requires
        i <= nodes.len(),
        base + forest_count(forest_v(nodes@).skip(i as int)) <= keep.len(),
    ensures
        r == any_kept(forest_v(nodes@), i as int, keep@, base as int),
    decreases nodes@, nodes.len() - i,
{
    proof {
        lemma_forest_v(nodes@);
    }
    if i >= nodes.len() {
        return false;
    }
    let ghost fv = forest_v(nodes@);
    proof {
        lemma_count_skip(fv, i as int);
    }
    let here = match &nodes[i] {
        TreeNode::Dir { children, .. } => {
            proof {
                assert(decreases_to!(nodes@ => nodes@[i as int]));
                assert(decreases_to!(nodes@[i as int] => *children));
                assert(decreases_to!(*children => children@));
                assert(forest_v(children@).skip(0) =~= forest_v(children@));
            }
            any_kept_exec(children.as_slice(), 0, keep, base)
        },
        TreeNode::File(_) => keep[base],
    };
    if here {
        return true;
    }
    let c = node_count_exec(&nodes[i]);
    any_kept_exec(nodes, i + 1, keep, base + c)
}

proof fn lemma_count_skip(s: Seq<TreeV>, i: int)
    requires
        0 <= i < s.len(),
    ensures
        forest_count(s.skip(i)) == node_count(s[i]) + forest_count(s.skip(i + 1)),
    decreases s.len(),
{
    if i == s.len() - 1 {
        assert(s.skip(i).drop_last() =~= Seq::<TreeV>::empty());
        assert(s.skip(i + 1) =~= Seq::<TreeV>::empty());
    } else {
        lemma_count_skip(s.drop_last(), i);
        assert(s.skip(i).drop_last() =~= s.drop_last().skip(i));
        assert(s.skip(i + 1).drop_last() =~= s.drop_last().skip(i + 1));
        assert(s.skip(i).last() == s.last());
        assert(s.skip(i + 1).last() == s.last());
    }
}

fn forest_count_exec(nodes: &[TreeNode]) -> (r: usize)
    requires
        forest_count(forest_v(nodes@)) <= usize::MAX,
    ensures
        r == forest_count(forest_v(nodes@)),
    decreases nodes@,
{
    let ghost fv = forest_v(nodes@);
    proof {
        lemma_forest_v(nodes@);
    }
    let mut total: usize = 0;
    let mut i: usize = 0;
    while i < nodes.len()
        invariant
            fv == forest_v(nodes@),
            fv.len() == nodes.len(),
            forall|k: int| 0 <= k < nodes.len() ==> #[trigger] fv[k] == node_v(nodes@[k]),
            forest_count(fv) <= usize::MAX,
            i <= nodes.len(),
            total == forest_count(fv.take(i as int)),
        decreases nodes.len() - i,
    {
        proof {
            lemma_count_prefix(fv, i as int);
        }
        let c = match &nodes[i] {
            TreeNode::Dir { children, .. } => {
                proof {
                    assert(decreases_to!(nodes@ => nodes@[i as int]));
                    assert(decreases_to!(nodes@[i as int] => *children));
                    assert(decreases_to!(*children => children@));
                }
                forest_count_exec(children.as_slice())
            },
            TreeNode::File(_) => 1,
        };
        total = total + c;
        i += 1;
    }
    assert(fv.take(nodes.len() as int) =~= fv);
    total
}

fn node_count_exec(n: &TreeNode) -> (r: usize)
    requires
        node_count(node_v(*n)) <= usize::MAX,
    ensures
        r == node_count(node_v(*n)),
{
    match n {
        TreeNode::Dir { children, .. } => forest_count_exec(children.as_slice()),
        TreeNode::File(_) => 1,
    }
}

fn filt_walk(
    nodes: &[TreeNode],
    keep: &Vec<bool>,
    base: usize,
    prefix: &str,
    path_prefix: &str,
    depth: usize,
    out: &mut Vec<VisibleRow>,
)
    requires
        base + forest_count(forest_v(nodes@)) <= keep.len(),
    ensures
        vrows_v(final(out)@) == vrows_v(old(out)@) + filt_at(forest_v(nodes@), 0, keep@, base as int, prefix@, path_prefix@, depth),
    decreases nodes@,
{
    let ghost fv = forest_v(nodes@);
    proof {
        lemma_forest_v(nodes@);
        assert(fv.skip(0) =~= fv);
        assert(fv.take(0) =~= Seq::<TreeV>::empty());
    }
    let mut i: usize = 0;
    let mut b: usize = base;
    while i < nodes.len()
        invariant
            fv == forest_v(nodes@),
            fv.len() == nodes.len(),
            forall|k: int| 0 <= k < nodes.len() ==> #[trigger] fv[k] == node_v(nodes@[k]),
            base + forest_count(fv) <= keep.len(),
            i <= nodes.len(),
            b == base + forest_count(fv.take(i as int)),
            vrows_v(old(out)@) + filt_at(fv, 0, keep@, base as int, prefix@, path_prefix@, depth)
                == vrows_v(out@) + filt_at(fv, i as int, keep@, b as int, prefix@, path_prefix@, depth),
        decreases nodes.len() - i,
    {
        proof {
            lemma_count_prefix(fv, i as int);
            lemma_count_skip(fv, i as int);
            lemma_count_take_skip(fv, i + 1);
        }
        let c = node_count_exec(&nodes[i]);
        let next = b + c;
        assert(next + forest_count(fv.skip(i + 1)) <= keep.len());
        let later = any_kept_exec(nodes, i + 1, keep, next);
        let is_last = !later;
        let guide = guide_exec(prefix, depth, is_last);
        let ghost before = vrows_v(out@);
        match &nodes[i] {
            TreeNode::Dir { name, children, added, deleted } => {
                proof {
                    assert(decreases_to!(nodes@ => nodes@[i as int]));
                    assert(decreases_to!(nodes@[i as int] => *children));
                    assert(decreases_to!(*children => children@));
                    assert(forest_v(children@).skip(0) =~= forest_v(children@));
                }
                if any_kept_exec(children.as_slice(), 0, keep, b) {
                    let path = join_path_exec(path_prefix, name.as_str());
                    let row = VisibleRow::Dir {
                        path: path.clone(),
                        depth,
                        collapsed: false,
                        added: *added,
                        deleted: *deleted,
                        guide,
                    };
                    proof {
                        lemma_push_vrow(out@, row);
                    }
                    out.push(row);
                    let child_prefix = child_prefix_exec(prefix, is_last);
                    filt_walk(children.as_slice(), keep, b, child_prefix.as_str(), path.as_str(), deeper_exec(depth), out);
                }
            },
            TreeNode::File(f) => {
                if keep[b] {
                    let row = VisibleRow::File { file: f.duplicate(), depth, guide };
                    proof {
                        lemma_push_vrow(out@, row);
                    }
                    out.push(row);
                }
            },
        }
        proof {
            assert(vrows_v(out@) =~= before + vrows_v(out@).skip(before.len() as int));
        }
        i += 1;
        b = next;
    }
    assert(vrows_v(out@) + Seq::<RowV>::empty() =~= vrows_v(out@));
}

proof fn lemma_count_take_skip(s: Seq<TreeV>, i: int)
    requires
        0 <= i <= s.len(),
    ensures
        forest_count(s.take(i)) + forest_count(s.skip(i)) == forest_count(s),
    decreases s.len() - i,
{
    if i < s.len() {
        lemma_count_take_skip(s, i + 1);
        lemma_count_prefix(s, i);
        lemma_count_skip(s, i);
    } else {
        assert(s.take(i) =~= s);
        assert(s.skip(i) =~= Seq::<TreeV>::empty());
    }
}

/// Rows for a filtered view where `keep[k]` says whether the `k`-th file of
/// the walk is kept: kept files, and directories with a kept file below them
/// (empty directories are hidden). Guide lines are drawn over the surviving
/// siblings.
pub fn filtered_rows_marked(nodes: &[TreeNode], keep: &Vec<bool>) -> (rows: Vec<VisibleRow>)
    requires
        keep.len() == forest_count(forest_v(nodes@)),
    ensures
        vrows_v(rows@) == filt_at(forest_v(nodes@), 0, keep@, 0, seq![], seq![], 0),
{
    let mut rows: Vec<VisibleRow> = Vec::new();
    let empty = "";
    proof {
        reveal_strlit("");
        assert(empty@ =~= Seq::<char>::empty());
        assert(vrows_v(rows@) =~= Seq::<RowV>::empty());
    }
    filt_walk(nodes, keep, 0, empty, empty, 0, &mut rows);
    assert(Seq::<RowV>::empty() + filt_at(forest_v(nodes@), 0, keep@, 0, seq![], seq![], 0)
        =~= filt_at(forest_v(nodes@), 0, keep@, 0, seq![], seq![], 0));
    rows
}

/// Rows for a filtered view: keeps files matching `pred` and keeps any
/// directory that has a matching descendant (empty dirs are hidden). Guide
/// lines are recomputed over the surviving siblings. `pred` is asked once per
/// file, in walk order.
pub fn filtered_rows<F: Fn(&ChangedFile) -> bool>(nodes: &[TreeNode], pred: &F) -> (rows: Vec<VisibleRow>)
    requires
        forall|f: &ChangedFile| #[trigger] pred.requires((f,)),
    ensures
        exists|keep: Seq<bool>| {
            &&& keep.len() == files_at(forest_v(nodes@), 0).len()
            &&& (forall|k: int| 0 <= k < keep.len() ==> #[trigger] pred.ensures((&files_at(forest_v(nodes@), 0)[k],), keep[k]))
            &&& vrows_v(rows@) == filt_at(forest_v(nodes@), 0, keep, 0, seq![], seq![], 0)
        },
{
    let files = files_in_order(nodes);
    let mut keep: Vec<bool> = Vec::new();
    let mut k: usize = 0;
    while k < files.len()
        invariant
            forall|f: &ChangedFile| #[trigger] pred.requires((f,)),
            k <= files.len(),
            keep.len() == k,
            forall|j: int| 0 <= j < k ==> #[trigger] pred.ensures((&files@[j],), keep@[j]),
        decreases files.len() - k,
    {
        let b = pred(&files[k]);
        keep.push(b);
        k += 1;
    }
    let rows = filtered_rows_marked(nodes, &keep);
    assert(keep@.len() == files_at(forest_v(nodes@), 0).len());
    rows
}

// ------------------------------------------------------------ laws

proof fn lemma_count_push(s: Seq<TreeV>, x: TreeV)
    ensures
        forest_count(s.push(x)) == forest_count(s) + node_count(x),
{
    assert(s.push(x).drop_last() =~= s);
}

proof fn lemma_count_update(s: Seq<TreeV>, j: int, x: TreeV)
    requires
        0 <= j < s.len(),
    ensures
        forest_count(s.update(j, x)) + node_count(s[j]) == forest_count(s) + node_count(x),
    decreases s.len(),
{
    if j < s.len() - 1 {
        assert(s.update(j, x).drop_last() =~= s.drop_last().update(j, x));
        lemma_count_update(s.drop_last(), j, x);
    } else {
        assert(s.update(j, x).drop_last() =~= s.drop_last());
    }
}

proof fn lemma_count_concat(a: Seq<TreeV>, b: Seq<TreeV>)
    ensures
        forest_count(a + b) == forest_count(a) + forest_count(b),
    decreases b.len(),
{
    if b.len() == 0 {
        assert(a + b =~= a);
    } else {
        assert((a + b).drop_last() =~= a + b.drop_last());
        lemma_count_concat(a, b.drop_last());
    }
}

proof fn lemma_insert_count(nodes: Seq<TreeV>, parts: Seq<Seq<char>>, file: ChangedFile)
    ensures
        forest_count(insert_v(nodes, parts, file)) == forest_count(nodes) + 1,
    decreases parts.len(),
{
    if parts.len() <= 1 {
        lemma_count_push(nodes, TreeV::File(file));
    } else {
        let j = find_dir_from(nodes, parts[0], 0);
        lemma_find_dir_range(nodes, parts[0], 0);
        if j < nodes.len() {
            match nodes[j] {
                TreeV::Dir { name, children, added, deleted } => {
                    lemma_insert_count(children, parts.drop_first(), file);
                    let x = TreeV::Dir { name, children: insert_v(children, parts.drop_first(), file), added, deleted };
                    lemma_count_update(nodes, j, x);
                },
                TreeV::File(_) => {
                    lemma_find_dir_is_dir(nodes, parts[0], 0);
                },
            }
        } else {
            lemma_insert_count(seq![], parts.drop_first(), file);
            let x = TreeV::Dir { name: parts[0], children: insert_v(seq![], parts.drop_first(), file), added: 0, deleted: 0 };
            lemma_count_push(nodes, x);
        }
    }
}

proof fn lemma_insert_all_count(files: Seq<ChangedFile>)
    ensures
        forest_count(insert_all(files)) == files.len(),
    decreases files.len(),
{
    if files.len() > 0 {
        lemma_insert_all_count(files.drop_last());
        lemma_insert_count(insert_all(files.drop_last()), split_path(files.last().path@), files.last());
    }
}

proof fn lemma_aggregate_count(s: Seq<TreeV>)
    ensures
        forest_count(aggregate_v(s)) == forest_count(s),
    decreases s,
{
    if s.len() > 0 {
        lemma_aggregate_count(s.drop_last());
        let n = s.last();
        match n {
            TreeV::Dir { children, .. } => {
                assert(decreases_to!(s => n));
                lemma_aggregate_count(children);
                assert(node_count(aggregate_node(n)) == forest_count(aggregate_v(children)));
            },
            TreeV::File(_) => {},
        }
        assert(aggregate_v(s).drop_last() =~= aggregate_v(s.drop_last()));
        assert(aggregate_v(s).last() == aggregate_node(n));
        assert(node_count(aggregate_node(n)) == node_count(n));
        assert(forest_count(aggregate_v(s)) == forest_count(aggregate_v(s.drop_last())) + node_count(aggregate_node(n)));
    }
}

proof fn lemma_insert_sorted_count(s: Seq<TreeV>, x: TreeV, mode: SortMode)
    ensures
        forest_count(insert_sorted(s, x, mode)) == forest_count(s) + node_count(x),
    decreases s.len(),
{
    if s.len() == 0 {
        lemma_count_push(s, x);
        assert(s.push(x) =~= seq![x]);
    } else if node_lt(x, s[0], mode) {
        lemma_count_concat(seq![x], s);
        lemma_count_push(Seq::<TreeV>::empty(), x);
        assert(Seq::<TreeV>::empty().push(x) =~= seq![x]);
    } else {
        lemma_insert_sorted_count(s.drop_first(), x, mode);
        lemma_count_concat(seq![s[0]], insert_sorted(s.drop_first(), x, mode));
        lemma_count_concat(seq![s[0]], s.drop_first());
        assert(seq![s[0]] + s.drop_first() =~= s);
    }
}

proof fn lemma_sort_seq_count(s: Seq<TreeV>, mode: SortMode)
    ensures
        forest_count(sort_seq(s, mode)) == forest_count(s),
    decreases s.len(),
{
    if s.len() > 0 {
        lemma_sort_seq_count(s.drop_last(), mode);
        lemma_insert_sorted_count(sort_seq(s.drop_last(), mode), s.last(), mode);
    }
}

proof fn lemma_sort_v_count(s: Seq<TreeV>, mode: SortMode)
    ensures
        forest_count(sort_v(s, mode)) == forest_count(s),
        forest_count(sort_kids(s, mode)) == forest_count(s),
    decreases s,
{
    if s.len() > 0 {
        lemma_sort_v_count(s.drop_last(), mode);
        let n = s.last();
        match n {
            TreeV::Dir { children, .. } => {
                assert(decreases_to!(s => n));
                lemma_sort_v_count(children, mode);
                assert(node_count(sort_node(n, mode)) == forest_count(sort_v(children, mode)));
            },
            TreeV::File(_) => {},
        }
        assert(node_count(sort_node(n, mode)) == node_count(n));
        assert(sort_kids(s, mode).drop_last() =~= sort_kids(s.drop_last(), mode));
        assert(sort_kids(s, mode).last() == sort_node(n, mode));
        assert(forest_count(sort_kids(s, mode)) == forest_count(sort_kids(s.drop_last(), mode)) + node_count(sort_node(n, mode)));
    } else {
        assert(sort_kids(s, mode) == Seq::<TreeV>::empty());
    }
    lemma_sort_seq_count(sort_kids(s, mode), mode);
    assert(sort_v(s, mode) == sort_seq(sort_kids(s, mode), mode));
}

/// The files below a node, with their multiplicities.
pub open spec fn node_bag(n: TreeV) -> Multiset<ChangedFile>
    decreases n,
{
    match n {
        TreeV::Dir { children, .. } => forest_bag(children),
        TreeV::File(f) => Multiset::empty().insert(f),
    }
}

/// The files in a forest, with their multiplicities.
pub open spec fn forest_bag(s: Seq<TreeV>) -> Multiset<ChangedFile>
    decreases s,
{
    if s.len() == 0 {
        Multiset::empty()
    } else {
        forest_bag(s.drop_last()).add(node_bag(s.last()))
    }
}

proof fn lemma_bag_push(s: Seq<TreeV>, x: TreeV)
    ensures
        forest_bag(s.push(x)) == forest_bag(s).add(node_bag(x)),
{
    assert(s.push(x).drop_last() =~= s);
}

proof fn lemma_bag_update(s: Seq<TreeV>, j: int, x: TreeV)
    requires
        0 <= j < s.len(),
    ensures
        forest_bag(s.update(j, x)).add(node_bag(s[j])) == forest_bag(s).add(node_bag(x)),
    decreases s.len(),
{
    if j < s.len() - 1 {
        assert(s.update(j, x).drop_last() =~= s.drop_last().update(j, x));
        lemma_bag_update(s.drop_last(), j, x);
        let a = forest_bag(s.drop_last().update(j, x));
        let b = forest_bag(s.drop_last());
        let l = node_bag(s.last());
        assert(a.add(node_bag(s[j])) == b.add(node_bag(x)));
        assert(forest_bag(s.update(j, x)) == a.add(l));
        assert(a.add(l).add(node_bag(s[j])) =~= a.add(node_bag(s[j])).add(l));
        assert(b.add(node_bag(x)).add(l) =~= b.add(l).add(node_bag(x)));
    } else {
        assert(s.update(j, x).drop_last() =~= s.drop_last());
        let b = forest_bag(s.drop_last());
        assert(b.add(node_bag(x)).add(node_bag(s[j])) =~= b.add(node_bag(s[j])).add(node_bag(x)));
    }
}

proof fn lemma_insert_bag(nodes: Seq<TreeV>, parts: Seq<Seq<char>>, file: ChangedFile)
    ensures
        forest_bag(insert_v(nodes, parts, file)) == forest_bag(nodes).insert(file),
    decreases parts.len(),
{
    if parts.len() <= 1 {
        lemma_bag_push(nodes, TreeV::File(file));
        assert(forest_bag(nodes).add(Multiset::empty().insert(file)) =~= forest_bag(nodes).insert(file));
    } else {
        let j = find_dir_from(nodes, parts[0], 0);
        lemma_find_dir_range(nodes, parts[0], 0);
        if j < nodes.len() {
            match nodes[j] {
                TreeV::Dir { name, children, added, deleted } => {
                    lemma_insert_bag(children, parts.drop_first(), file);
                    let x = TreeV::Dir { name, children: insert_v(children, parts.drop_first(), file), added, deleted };
                    lemma_bag_update(nodes, j, x);
                    let u = forest_bag(nodes.update(j, x));
                    assert(u.add(forest_bag(children)) == forest_bag(nodes).add(forest_bag(children).insert(file)));
                    assert(u =~= forest_bag(nodes).insert(file)) by {
                        assert forall|f: ChangedFile| #[trigger] u.count(f) == forest_bag(nodes).insert(file).count(f) by {
                            assert(u.add(forest_bag(children)).count(f) == forest_bag(nodes).add(forest_bag(children).insert(file)).count(f));
                        }
                    }
                },
                TreeV::File(_) => {
                    lemma_find_dir_is_dir(nodes, parts[0], 0);
                },
            }
        } else {
            lemma_insert_bag(seq![], parts.drop_first(), file);
            let x = TreeV::Dir { name: parts[0], children: insert_v(seq![], parts.drop_first(), file), added: 0, deleted: 0 };
            lemma_bag_push(nodes, x);
            assert(forest_bag(Seq::<TreeV>::empty()) == Multiset::<ChangedFile>::empty());
            assert(forest_bag(nodes).add(Multiset::empty().insert(file)) =~= forest_bag(nodes).insert(file));
        }
    }
}

proof fn lemma_insert_all_bag(files: Seq<ChangedFile>)
    ensures
        forest_bag(insert_all(files)) == files.to_multiset(),
    decreases files.len(),
{
    broadcast use vstd::seq_lib::to_multiset_build;

    if files.len() == 0 {
        assert(files.to_multiset() =~= Multiset::<ChangedFile>::empty()) by {
            broadcast use vstd::seq_lib::group_to_multiset_ensures;
        }
    } else {
        lemma_insert_all_bag(files.drop_last());
        lemma_insert_bag(insert_all(files.drop_last()), split_path(files.last().path@), files.last());
        assert(files.drop_last().push(files.last()) =~= files);
    }
}

proof fn lemma_aggregate_bag(s: Seq<TreeV>)
    ensures
        forest_bag(aggregate_v(s)) == forest_bag(s),
    decreases s,
{
    if s.len() > 0 {
        lemma_aggregate_bag(s.drop_last());
        let n = s.last();
        match n {
            TreeV::Dir { children, .. } => {
                assert(decreases_to!(s => n));
                lemma_aggregate_bag(children);
            },
            TreeV::File(_) => {},
        }
        assert(aggregate_v(s).drop_last() =~= aggregate_v(s.drop_last()));
        assert(aggregate_v(s).last() == aggregate_node(n));
        assert(node_bag(aggregate_node(n)) == node_bag(n));
    }
}

proof fn lemma_insert_sorted_bag(s: Seq<TreeV>, x: TreeV, mode: SortMode)
    ensures
        forest_bag(insert_sorted(s, x, mode)) == forest_bag(s).add(node_bag(x)),
    decreases s.len(),
{
    if s.len() == 0 {
        lemma_bag_push(s, x);
        assert(s.push(x) =~= seq![x]);
    } else {
        lemma_bag_concat(seq![x], s);
        lemma_bag_push(Seq::<TreeV>::empty(), x);
        assert(Seq::<TreeV>::empty().push(x) =~= seq![x]);
        assert(forest_bag(Seq::<TreeV>::empty()) == Multiset::<ChangedFile>::empty());
        if node_lt(x, s[0], mode) {
            assert(forest_bag(seq![x] + s) =~= forest_bag(s).add(node_bag(x)));
        } else {
            lemma_insert_sorted_bag(s.drop_first(), x, mode);
            lemma_bag_concat(seq![s[0]], s.drop_first());
            lemma_bag_concat(seq![s[0]], insert_sorted(s.drop_first(), x, mode));
            lemma_bag_push(Seq::<TreeV>::empty(), s[0]);
            assert(Seq::<TreeV>::empty().push(s[0]) =~= seq![s[0]]);
            assert(seq![s[0]] + s.drop_first() =~= s);
            assert(forest_bag(insert_sorted(s, x, mode)) =~= forest_bag(s).add(node_bag(x)));
        }
    }
}

proof fn lemma_bag_concat(a: Seq<TreeV>, b: Seq<TreeV>)
    ensures
        forest_bag(a + b) == forest_bag(a).add(forest_bag(b)),
    decreases b.len(),
{
    if b.len() == 0 {
        assert(a + b =~= a);
        assert(forest_bag(a).add(Multiset::empty()) =~= forest_bag(a));
    } else {
        assert((a + b).drop_last() =~= a + b.drop_last());
        lemma_bag_concat(a, b.drop_last());
        assert(forest_bag(a).add(forest_bag(b.drop_last())).add(node_bag(b.last())) =~= forest_bag(a).add(
            forest_bag(b.drop_last()).add(node_bag(b.last())),
        ));
    }
}

proof fn lemma_sort_seq_bag(s: Seq<TreeV>, mode: SortMode)
    ensures
        forest_bag(sort_seq(s, mode)) == forest_bag(s),
    decreases s.len(),
{
    if s.len() > 0 {
        lemma_sort_seq_bag(s.drop_last(), mode);
        lemma_insert_sorted_bag(sort_seq(s.drop_last(), mode), s.last(), mode);
    }
}

proof fn lemma_sort_v_bag(s: Seq<TreeV>, mode: SortMode)
    ensures
        forest_bag(sort_v(s, mode)) == forest_bag(s),
        forest_bag(sort_kids(s, mode)) == forest_bag(s),
    decreases s,
{
    if s.len() > 0 {
        lemma_sort_v_bag(s.drop_last(), mode);
        let n = s.last();
        match n {
            TreeV::Dir { children, .. } => {
                assert(decreases_to!(s => n));
                lemma_sort_v_bag(children, mode);
            },
            TreeV::File(_) => {},
        }
        assert(node_bag(sort_node(n, mode)) == node_bag(n));
        assert(sort_kids(s, mode).drop_last() =~= sort_kids(s.drop_last(), mode));
        assert(sort_kids(s, mode).last() == sort_node(n, mode));
    } else {
        assert(sort_kids(s, mode) == Seq::<TreeV>::empty());
    }
    lemma_sort_seq_bag(sort_kids(s, mode), mode);
    assert(sort_v(s, mode) == sort_seq(sort_kids(s, mode), mode));
}

/// The files in the built tree are exactly the files given, each as often
/// as it was given.
pub proof fn lemma_build_tree_holds_the_files(files: Seq<ChangedFile>, sort: SortMode)
    ensures
        forest_bag(build_tree_spec(files, sort)) == files.to_multiset(),
{
    lemma_insert_all_bag(files);
    lemma_aggregate_bag(insert_all(files));
    lemma_sort_v_bag(aggregate_v(insert_all(files)), sort);
}

/// Every file of a forest sits under the directories its path names: the
/// forest is what the directory reached through the directories `dirs`
/// holds, and each file's path is those directories' names and its own.
pub open spec fn placed_all(s: Seq<TreeV>, dirs: Seq<Seq<char>>) -> bool
    decreases s,
{
    if s.len() == 0 {
        true
    } else {
        placed_all(s.drop_last(), dirs) && placed_node(s.last(), dirs)
    }
}

/// A node placed in the directory reached through `dirs` (see `placed_all`).
pub open spec fn placed_node(n: TreeV, dirs: Seq<Seq<char>>) -> bool
    decreases n,
{
    match n {
        TreeV::Dir { name, children, .. } => placed_all(children, dirs.push(name)),
        TreeV::File(f) => split_path(f.path@) == dirs.push(split_path(f.path@).last()),
    }
}

proof fn lemma_placed_all_pointwise(s: Seq<TreeV>, dirs: Seq<Seq<char>>)
    ensures
        placed_all(s, dirs) <==> forall|i: int| 0 <= i < s.len() ==> #[trigger] placed_node(s[i], dirs),
    decreases s.len(),
{
    if s.len() > 0 {
        lemma_placed_all_pointwise(s.drop_last(), dirs);
        if forall|i: int| 0 <= i < s.len() ==> #[trigger] placed_node(s[i], dirs) {
            assert forall|i: int| 0 <= i < s.drop_last().len() implies #[trigger] placed_node(s.drop_last()[i], dirs) by {
                assert(s.drop_last()[i] == s[i]);
            }
            assert(placed_node(s[s.len() - 1], dirs));
        }
        if placed_all(s, dirs) {
            assert forall|i: int| 0 <= i < s.len() implies #[trigger] placed_node(s[i], dirs) by {
                if i < s.len() - 1 {
                    assert(s.drop_last()[i] == s[i]);
                }
            }
        }
    }
}

proof fn lemma_insert_placed(nodes: Seq<TreeV>, dirs: Seq<Seq<char>>, parts: Seq<Seq<char>>, file: ChangedFile)
    requires
        placed_all(nodes, dirs),
        parts.len() >= 1,
        dirs + parts == split_path(file.path@),
    ensures
        placed_all(insert_v(nodes, parts, file), dirs),
    decreases parts.len(),
{
    lemma_placed_all_pointwise(nodes, dirs);
    if parts.len() <= 1 {
        let r = nodes.push(TreeV::File(file));
        assert(split_path(file.path@).last() == parts[0]);
        assert(dirs.push(parts[0]) =~= dirs + parts);
        lemma_placed_all_pointwise(r, dirs);
        assert forall|i: int| 0 <= i < r.len() implies #[trigger] placed_node(r[i], dirs) by {
            if i < nodes.len() {
                assert(r[i] == nodes[i]);
            }
        }
    } else {
        let j = find_dir_from(nodes, parts[0], 0);
        lemma_find_dir_range(nodes, parts[0], 0);
        assert(dirs.push(parts[0]) + parts.drop_first() =~= dirs + parts);
        if j < nodes.len() {
            lemma_find_dir_is_dir(nodes, parts[0], 0);
            match nodes[j] {
                TreeV::Dir { name, children, added, deleted } => {
                    assert(placed_node(nodes[j], dirs));
                    lemma_insert_placed(children, dirs.push(parts[0]), parts.drop_first(), file);
                    let x = TreeV::Dir { name, children: insert_v(children, parts.drop_first(), file), added, deleted };
                    let r = nodes.update(j, x);
                    assert(placed_node(x, dirs));
                    lemma_placed_all_pointwise(r, dirs);
                    assert forall|i: int| 0 <= i < r.len() implies #[trigger] placed_node(r[i], dirs) by {
                        if i != j {
                            assert(r[i] == nodes[i]);
                        }
                    }
                },
                TreeV::File(_) => {},
            }
        } else {
            assert(placed_all(Seq::<TreeV>::empty(), dirs.push(parts[0])));
            lemma_insert_placed(seq![], dirs.push(parts[0]), parts.drop_first(), file);
            let x = TreeV::Dir { name: parts[0], children: insert_v(seq![], parts.drop_first(), file), added: 0, deleted: 0 };
            let r = nodes.push(x);
            assert(placed_node(x, dirs));
            lemma_placed_all_pointwise(r, dirs);
            assert forall|i: int| 0 <= i < r.len() implies #[trigger] placed_node(r[i], dirs) by {
                if i < nodes.len() {
                    assert(r[i] == nodes[i]);
                }
            }
        }
    }
}

proof fn lemma_insert_all_placed(files: Seq<ChangedFile>)
    ensures
        placed_all(insert_all(files), seq![]),
    decreases files.len(),
{
    if files.len() > 0 {
        lemma_insert_all_placed(files.drop_last());
        let f = files.last();
        lemma_split_nonempty(f.path@, seq![]);
        assert(Seq::<Seq<char>>::empty() + split_path(f.path@) =~= split_path(f.path@));
        lemma_insert_placed(insert_all(files.drop_last()), seq![], split_path(f.path@), f);
    }
}

proof fn lemma_aggregate_placed(s: Seq<TreeV>, dirs: Seq<Seq<char>>)
    requires
        placed_all(s, dirs),
    ensures
        placed_all(aggregate_v(s), dirs),
    decreases s,
{
    if s.len() > 0 {
        lemma_aggregate_placed(s.drop_last(), dirs);
        let n = s.last();
        match n {
            TreeV::Dir { name, children, .. } => {
                assert(decreases_to!(s => n));
                assert(placed_node(n, dirs));
                lemma_aggregate_placed(children, dirs.push(name));
            },
            TreeV::File(_) => {},
        }
        assert(aggregate_v(s).drop_last() =~= aggregate_v(s.drop_last()));
        assert(aggregate_v(s).last() == aggregate_node(n));
        assert(placed_node(aggregate_node(n), dirs));
    }
}

proof fn lemma_sort_kids_placed(s: Seq<TreeV>, dirs: Seq<Seq<char>>, mode: SortMode)
    requires
        placed_all(s, dirs),
    ensures
        placed_all(sort_kids(s, mode), dirs),
    decreases s, 0nat,
{
    if s.len() > 0 {
        lemma_sort_kids_placed(s.drop_last(), dirs, mode);
        let n = s.last();
        match n {
            TreeV::Dir { name, children, .. } => {
                assert(decreases_to!(s => n));
                assert(placed_node(n, dirs));
                lemma_sort_v_placed(children, dirs.push(name), mode);
            },
            TreeV::File(_) => {},
        }
        assert(placed_node(sort_node(n, mode), dirs));
        assert(sort_kids(s, mode).drop_last() =~= sort_kids(s.drop_last(), mode));
        assert(sort_kids(s, mode).last() == sort_node(n, mode));
    } else {
        assert(sort_kids(s, mode) == Seq::<TreeV>::empty());
    }
}

proof fn lemma_sort_v_placed(s: Seq<TreeV>, dirs: Seq<Seq<char>>, mode: SortMode)
    requires
        placed_all(s, dirs),
    ensures
        placed_all(sort_v(s, mode), dirs),
    decreases s, 1nat,
{
    let k = sort_kids(s, mode);
    lemma_sort_kids_placed(s, dirs, mode);
    lemma_sort_seq_facts(k, mode, false);
    lemma_placed_all_pointwise(k, dirs);
    lemma_placed_all_pointwise(sort_seq(k, mode), dirs);
    assert forall|i: int| 0 <= i < sort_seq(k, mode).len() implies #[trigger] placed_node(sort_seq(k, mode)[i], dirs) by {
        let j = choose|j: int| 0 <= j < k.len() && k[j] == sort_seq(k, mode)[i];
        assert(placed_node(k[j], dirs));
    }
}

/// Every file of the built tree sits under the directories its path names:
/// a file reached through directories named `d1`, ..., `dk` has the path
/// `d1/.../dk/name` (split at `/`).
pub proof fn lemma_build_tree_places_files(files: Seq<ChangedFile>, sort: SortMode)
    ensures
        placed_all(build_tree_spec(files, sort), seq![]),
{
    lemma_insert_all_placed(files);
    lemma_aggregate_placed(insert_all(files), seq![]);
    lemma_sort_v_placed(aggregate_v(insert_all(files)), seq![], sort);
}

/// Every file given is in the built tree: the tree holds as many files as
/// were given.
pub proof fn lemma_build_tree_keeps_every_file(files: Seq<ChangedFile>, sort: SortMode)
    ensures
        forest_count(build_tree_spec(files, sort)) == files.len(),
{
    lemma_insert_all_count(files);
    lemma_aggregate_count(insert_all(files));
    lemma_sort_v_count(aggregate_v(insert_all(files)), sort);
}

/// Every directory of a forest stores the sums of its subtree.
pub open spec fn sums_hold(s: Seq<TreeV>) -> bool
    decreases s,
{
    if s.len() == 0 {
        true
    } else {
        sums_hold(s.drop_last()) && sums_hold_node(s.last())
    }
}

proof fn lemma_sums_hold_pointwise(s: Seq<TreeV>)
    ensures
        sums_hold(s) <==> forall|i: int| 0 <= i < s.len() ==> #[trigger] sums_hold_node(s[i]),
    decreases s.len(),
{
    if s.len() > 0 {
        lemma_sums_hold_pointwise(s.drop_last());
        if forall|i: int| 0 <= i < s.len() ==> #[trigger] sums_hold_node(s[i]) {
            assert forall|i: int| 0 <= i < s.drop_last().len() implies #[trigger] sums_hold_node(s.drop_last()[i]) by {
                assert(s.drop_last()[i] == s[i]);
            }
            assert(sums_hold_node(s[s.len() - 1]));
        }
        if sums_hold(s) {
            assert forall|i: int| 0 <= i < s.len() implies #[trigger] sums_hold_node(s[i]) by {
                if i < s.len() - 1 {
                    assert(s.drop_last()[i] == s[i]);
                }
            }
        }
    }
}

pub open spec fn sums_hold_node(n: TreeV) -> bool
    decreases n,
{
    match n {
        TreeV::Dir { children, added, deleted, .. } => {
            &&& added as nat == forest_sum(children, false)
            &&& deleted as nat == forest_sum(children, true)
            &&& sums_hold(children)
        },
        TreeV::File(_) => true,
    }
}

proof fn lemma_sum_concat(a: Seq<TreeV>, b: Seq<TreeV>, del: bool)
    ensures
        forest_sum(a + b, del) == forest_sum(a, del) + forest_sum(b, del),
    decreases b.len(),
{
    if b.len() == 0 {
        assert(a + b =~= a);
    } else {
        assert((a + b).drop_last() =~= a + b.drop_last());
        lemma_sum_concat(a, b.drop_last(), del);
    }
}

proof fn lemma_insert_sorted_facts(s: Seq<TreeV>, x: TreeV, mode: SortMode, del: bool)
    ensures
        forest_sum(insert_sorted(s, x, mode), del) == forest_sum(s, del) + node_sum(x, del),
        forall|k: int| 0 <= k < insert_sorted(s, x, mode).len() ==>
            #[trigger] insert_sorted(s, x, mode)[k] == x || s.contains(insert_sorted(s, x, mode)[k]),
    decreases s.len(),
{
    if s.len() == 0 {
        lemma_forest_sum_push(s, x, del);
        assert(s.push(x) =~= seq![x]);
    } else if node_lt(x, s[0], mode) {
        lemma_sum_concat(seq![x], s, del);
        lemma_forest_sum_push(Seq::<TreeV>::empty(), x, del);
        assert(Seq::<TreeV>::empty().push(x) =~= seq![x]);
        assert forall|k: int| 0 <= k < insert_sorted(s, x, mode).len() implies
            #[trigger] insert_sorted(s, x, mode)[k] == x || s.contains(insert_sorted(s, x, mode)[k]) by {
            if k > 0 {
                assert(insert_sorted(s, x, mode)[k] == s[k - 1]);
            }
        }
    } else {
        let t = insert_sorted(s.drop_first(), x, mode);
        lemma_insert_sorted_facts(s.drop_first(), x, mode, del);
        lemma_sum_concat(seq![s[0]], t, del);
        lemma_sum_concat(seq![s[0]], s.drop_first(), del);
        assert(seq![s[0]] + s.drop_first() =~= s);
        assert forall|k: int| 0 <= k < insert_sorted(s, x, mode).len() implies
            #[trigger] insert_sorted(s, x, mode)[k] == x || s.contains(insert_sorted(s, x, mode)[k]) by {
            if k == 0 {
                assert(s.contains(s[0]));
            } else {
                assert(insert_sorted(s, x, mode)[k] == t[k - 1]);
                if t[k - 1] != x {
                    let j = choose|j: int| 0 <= j < s.drop_first().len() && s.drop_first()[j] == t[k - 1];
                    assert(s[j + 1] == t[k - 1]);
                }
            }
        }
    }
}

proof fn lemma_sort_seq_facts(s: Seq<TreeV>, mode: SortMode, del: bool)
    ensures
        forest_sum(sort_seq(s, mode), del) == forest_sum(s, del),
        forall|k: int| 0 <= k < sort_seq(s, mode).len() ==> s.contains(#[trigger] sort_seq(s, mode)[k]),
    decreases s.len(),
{
    if s.len() > 0 {
        let init = sort_seq(s.drop_last(), mode);
        lemma_sort_seq_facts(s.drop_last(), mode, del);
        lemma_insert_sorted_facts(init, s.last(), mode, del);
        assert forall|k: int| 0 <= k < sort_seq(s, mode).len() implies s.contains(#[trigger] sort_seq(s, mode)[k]) by {
            let y = sort_seq(s, mode)[k];
            if y == s.last() {
                assert(s[s.len() - 1] == y);
            } else {
                let j = choose|j: int| 0 <= j < init.len() && init[j] == y;
                let q = choose|q: int| 0 <= q < s.drop_last().len() && s.drop_last()[q] == init[j];
                assert(s[q] == y);
            }
        }
    }
}

proof fn lemma_sort_sums(s: Seq<TreeV>, mode: SortMode)
    ensures
        forest_sum(sort_v(s, mode), false) == forest_sum(s, false),
        forest_sum(sort_v(s, mode), true) == forest_sum(s, true),
        forest_sum(sort_kids(s, mode), false) == forest_sum(s, false),
        forest_sum(sort_kids(s, mode), true) == forest_sum(s, true),
        sums_hold(s) ==> sums_hold(sort_kids(s, mode)),
        sums_hold(s) ==> sums_hold(sort_v(s, mode)),
    decreases s,
{
    if s.len() > 0 {
        lemma_sort_sums(s.drop_last(), mode);
        let n = s.last();
        match n {
            TreeV::Dir { children, .. } => {
                assert(decreases_to!(s => n));
                lemma_sort_sums(children, mode);
                if sums_hold(s) {
                    assert(sums_hold_node(n));
                    assert(sums_hold(children));
                    assert(sums_hold(sort_v(children, mode)));
                    assert(sums_hold_node(sort_node(n, mode)));
                }
            },
            TreeV::File(_) => {},
        }
        assert(node_sum(sort_node(n, mode), false) == node_sum(n, false));
        assert(node_sum(sort_node(n, mode), true) == node_sum(n, true));
        assert(sort_kids(s, mode).drop_last() =~= sort_kids(s.drop_last(), mode));
        assert(sort_kids(s, mode).last() == sort_node(n, mode));
        if sums_hold(s) {
            assert(sums_hold_node(sort_node(n, mode)));
        }
    } else {
        assert(sort_kids(s, mode) == Seq::<TreeV>::empty());
    }
    let k = sort_kids(s, mode);
    lemma_sort_seq_facts(k, mode, false);
    lemma_sort_seq_facts(k, mode, true);
    assert(sort_v(s, mode) == sort_seq(k, mode));
    if sums_hold(s) {
        lemma_sums_hold_pointwise(k);
        lemma_sums_hold_pointwise(sort_v(s, mode));
        assert forall|i: int| 0 <= i < sort_v(s, mode).len() implies #[trigger] sums_hold_node(sort_v(s, mode)[i]) by {
            let j = choose|j: int| 0 <= j < k.len() && k[j] == sort_v(s, mode)[i];
            assert(sums_hold_node(k[j]));
        }
    }
}

proof fn lemma_aggregate_sums_hold(s: Seq<TreeV>)
    requires
        forest_sum(s, false) <= u64::MAX,
        forest_sum(s, true) <= u64::MAX,
    ensures
        sums_hold(aggregate_v(s)),
    decreases s,
{
    lemma_aggregate_len(s);
    lemma_forest_sum_bound(s, false);
    lemma_forest_sum_bound(s, true);
    lemma_sums_hold_pointwise(aggregate_v(s));
    assert forall|i: int| 0 <= i < aggregate_v(s).len() implies #[trigger] sums_hold_node(aggregate_v(s)[i]) by {
        let n = s[i];
        assert(node_sum(s[i], false) <= forest_sum(s, false));
        assert(node_sum(s[i], true) <= forest_sum(s, true));
        match n {
            TreeV::Dir { children, .. } => {
                assert(decreases_to!(s => n));
                lemma_aggregate_sums_hold(children);
                lemma_aggregate_sums(children, false);
                lemma_aggregate_sums(children, true);
            },
            TreeV::File(_) => {},
        }
    }
}

/// Every directory of a built tree carries the sums of `added` and of
/// `deleted` over the files below it.
pub proof fn lemma_build_tree_sums(files: Seq<ChangedFile>, sort: SortMode)
    requires
        files_sum(files, false) <= u64::MAX,
        files_sum(files, true) <= u64::MAX,
    ensures
        sums_hold(build_tree_spec(files, sort)),
{
    lemma_insert_all_sum(files, false);
    lemma_insert_all_sum(files, true);
    lemma_aggregate_sums_hold(insert_all(files));
    lemma_sort_sums(aggregate_v(insert_all(files)), sort);
}

proof fn lemma_stored_sum_is_forest_sum(s: Seq<TreeV>, del: bool)
    requires
        sums_hold(s),
    ensures
        stored_sum(s, del) == forest_sum(s, del),
    decreases s.len(),
{
    if s.len() > 0 {
        lemma_stored_sum_is_forest_sum(s.drop_last(), del);
        let n = s.last();
        assert(sums_hold_node(n));
        assert(stored(n, del) == node_sum(n, del));
        assert(stored_sum(s, del) == stored_sum(s.drop_last(), del) + stored(n, del));
        assert(forest_sum(s, del) == forest_sum(s.drop_last(), del) + node_sum(n, del));
    }
}

/// The counts stored on the top level of a built tree add up to the totals
/// over all files given.
pub proof fn lemma_build_tree_totals(files: Seq<ChangedFile>, sort: SortMode)
    requires
        files_sum(files, false) <= u64::MAX,
        files_sum(files, true) <= u64::MAX,
    ensures
        stored_sum(build_tree_spec(files, sort), false) == files_sum(files, false),
        stored_sum(build_tree_spec(files, sort), true) == files_sum(files, true),
{
    lemma_build_tree_sums(files, sort);
    lemma_insert_all_sum(files, false);
    lemma_insert_all_sum(files, true);
    lemma_aggregate_sums(insert_all(files), false);
    lemma_aggregate_sums(insert_all(files), true);
    lemma_sort_sums(aggregate_v(insert_all(files)), sort);
    lemma_stored_sum_is_forest_sum(build_tree_spec(files, sort), false);
    lemma_stored_sum_is_forest_sum(build_tree_spec(files, sort), true);
}

/// Whether no directory row of `rows` has path `p`.
pub open spec fn no_dir_row(rows: Seq<RowV>, p: Seq<char>) -> bool {
    forall|k: int| 0 <= k < rows.len() ==> !(#[trigger] rows[k] matches RowV::Dir { path, .. } && path == p)
}

/// Folding a directory that the list shows no row for changes nothing:
/// when the walk with `p` folded shows no directory at `p`, it is the walk
/// without it.
pub proof fn lemma_fold_unseen_dir(
    nodes: Seq<TreeV>,
    i: int,
    collapsed: Seq<Seq<char>>,
    p: Seq<char>,
    prefix: Seq<char>,
    path_prefix: Seq<char>,
    depth: usize,
)
    requires
        no_dir_row(walk_at(nodes, i, collapsed.push(p), prefix, path_prefix, depth), p),
    ensures
        walk_at(nodes, i, collapsed.push(p), prefix, path_prefix, depth) == walk_at(nodes, i, collapsed, prefix, path_prefix, depth),
    decreases nodes, nodes.len() - i,
{
    broadcast use vstd::seq_lib::lemma_seq_contains_after_push;
    if 0 <= i < nodes.len() {
        let cp = collapsed.push(p);
        let is_last = i + 1 == nodes.len();
        let guide = guide_for(prefix, depth, is_last);
        let whole = walk_at(nodes, i, cp, prefix, path_prefix, depth);
        let rest = walk_at(nodes, i + 1, cp, prefix, path_prefix, depth);
        match nodes[i] {
            TreeV::Dir { name, children, added, deleted } => {
                let path = join_path(path_prefix, name);
                let c = cp.contains(path);
                let sub = if c {
                    Seq::<RowV>::empty()
                } else {
                    walk_at(children, 0, cp, prefix + child_pad(is_last), path, deeper(depth))
                };
                let here = seq![RowV::Dir { path, depth, collapsed: c, added, deleted, guide }] + sub;
                assert(whole == here + rest);
                assert(whole[0] == here[0]);
                assert(path != p);
                assert(c == collapsed.contains(path));
                if !c {
                    assert(decreases_to!(nodes => children)) by {
                        assert(decreases_to!(nodes => nodes[i]));
                    }
                    assert forall|k: int| 0 <= k < sub.len() implies !(#[trigger] sub[k] matches RowV::Dir { path, .. } && path == p) by {
                        assert(whole[1 + k] == sub[k]);
                    }
                    lemma_fold_unseen_dir(children, 0, collapsed, p, prefix + child_pad(is_last), path, deeper(depth));
                }
                assert forall|k: int| 0 <= k < rest.len() implies !(#[trigger] rest[k] matches RowV::Dir { path, .. } && path == p) by {
                    assert(whole[here.len() + k] == rest[k]);
                }
            },
            TreeV::File(f) => {
                let here = seq![RowV::File { file: f, depth, guide }];
                assert(whole == here + rest);
                assert forall|k: int| 0 <= k < rest.len() implies !(#[trigger] rest[k] matches RowV::Dir { path, .. } && path == p) by {
                    assert(whole[here.len() + k] == rest[k]);
                }
            },
        }
        lemma_fold_unseen_dir(nodes, i + 1, collapsed, p, prefix, path_prefix, depth);
    }
}

/// Folding never adds rows: a walk with some directories folded shows at
/// most the rows of the walk with none folded.
pub proof fn lemma_folding_never_adds_rows(
    nodes: Seq<TreeV>,
    i: int,
    collapsed: Seq<Seq<char>>,
    prefix: Seq<char>,
    path_prefix: Seq<char>,
    depth: usize,
)
    ensures
        walk_at(nodes, i, collapsed, prefix, path_prefix, depth).len() <= walk_at(nodes, i, seq![], prefix, path_prefix, depth).len(),
    decreases nodes, nodes.len() - i,
{
    if 0 <= i < nodes.len() {
        let is_last = i + 1 == nodes.len();
        match nodes[i] {
            TreeV::Dir { name, children, .. } => {
                let path = join_path(path_prefix, name);
                assert(!Seq::<Seq<char>>::empty().contains(path));
                assert(decreases_to!(nodes => children)) by {
                    assert(decreases_to!(nodes => nodes[i]));
                }
                lemma_folding_never_adds_rows(children, 0, collapsed, prefix + child_pad(is_last), path, deeper(depth));
            },
            TreeV::File(_) => {},
        }
        lemma_folding_never_adds_rows(nodes, i + 1, collapsed, prefix, path_prefix, depth);
    }
}

/// Whether no file comes before a directory in a sibling list.
pub open spec fn dirs_before_files(s: Seq<TreeV>) -> bool {
    forall|a: int, b: int| 0 <= a < b < s.len() ==> !(#[trigger] s[a] is File && #[trigger] s[b] is Dir)
}

/// Every sibling list below the nodes of a forest lists its directories
/// first.
pub open spec fn dirs_first_all(s: Seq<TreeV>) -> bool
    decreases s,
{
    if s.len() == 0 {
        true
    } else {
        dirs_first_all(s.drop_last()) && dirs_first_node(s.last())
    }
}

/// The sibling lists below a node list their directories first.
pub open spec fn dirs_first_node(n: TreeV) -> bool
    decreases n,
{
    match n {
        TreeV::Dir { children, .. } => dirs_before_files(children) && dirs_first_all(children),
        TreeV::File(_) => true,
    }
}

proof fn lemma_dirs_first_all_pointwise(s: Seq<TreeV>)
    ensures
        dirs_first_all(s) <==> forall|i: int| 0 <= i < s.len() ==> #[trigger] dirs_first_node(s[i]),
    decreases s.len(),
{
    if s.len() > 0 {
        lemma_dirs_first_all_pointwise(s.drop_last());
        if forall|i: int| 0 <= i < s.len() ==> #[trigger] dirs_first_node(s[i]) {
            assert forall|i: int| 0 <= i < s.drop_last().len() implies #[trigger] dirs_first_node(s.drop_last()[i]) by {
                assert(s.drop_last()[i] == s[i]);
            }
            assert(dirs_first_node(s[s.len() - 1]));
        }
        if dirs_first_all(s) {
            assert forall|i: int| 0 <= i < s.len() implies #[trigger] dirs_first_node(s[i]) by {
                if i < s.len() - 1 {
                    assert(s.drop_last()[i] == s[i]);
                }
            }
        }
    }
}

proof fn lemma_prepend_dirs_first(y: TreeV, t: Seq<TreeV>)
    requires
        dirs_before_files(t),
        y is File ==> forall|k: int| 0 <= k < t.len() ==> !(#[trigger] t[k] is Dir),
    ensures
        dirs_before_files(seq![y] + t),
{
    let u = seq![y] + t;
    assert forall|a: int, b: int| 0 <= a < b < u.len() implies !(#[trigger] u[a] is File && #[trigger] u[b] is Dir) by {
        if a == 0 {
            assert(u[b] == t[b - 1]);
        } else {
            assert(u[a] == t[a - 1]);
            assert(u[b] == t[b - 1]);
        }
    }
}

proof fn lemma_insert_sorted_dirs_first(s: Seq<TreeV>, x: TreeV, mode: SortMode)
    requires
        dirs_before_files(s),
    ensures
        dirs_before_files(insert_sorted(s, x, mode)),
    decreases s.len(),
{
    lemma_insert_sorted_facts(s, x, mode, false);
    if s.len() == 0 {
        assert(insert_sorted(s, x, mode) == seq![x]);
    } else if node_lt(x, s[0], mode) {
        if x is File {
            assert(s[0] is File);
            assert forall|k: int| 0 <= k < s.len() implies !(#[trigger] s[k] is Dir) by {
                if k > 0 {
                    assert(!(s[0] is File && s[k] is Dir));
                }
            }
        }
        lemma_prepend_dirs_first(x, s);
    } else {
        let rest = s.drop_first();
        assert(dirs_before_files(rest)) by {
            assert forall|a: int, b: int| 0 <= a < b < rest.len() implies !(#[trigger] rest[a] is File && #[trigger] rest[b] is Dir) by {
                assert(rest[a] == s[a + 1]);
                assert(rest[b] == s[b + 1]);
            }
        }
        lemma_insert_sorted_dirs_first(rest, x, mode);
        lemma_insert_sorted_facts(rest, x, mode, false);
        let t = insert_sorted(rest, x, mode);
        if s[0] is File {
            assert(x is File);
            assert forall|k: int| 0 <= k < t.len() implies !(#[trigger] t[k] is Dir) by {
                if t[k] != x {
                    let j = choose|j: int| 0 <= j < rest.len() && rest[j] == t[k];
                    assert(!(s[0] is File && s[j + 1] is Dir));
                }
            }
        }
        lemma_prepend_dirs_first(s[0], t);
    }
}

proof fn lemma_sort_seq_dirs_first(s: Seq<TreeV>, mode: SortMode)
    ensures
        dirs_before_files(sort_seq(s, mode)),
    decreases s.len(),
{
    if s.len() > 0 {
        lemma_sort_seq_dirs_first(s.drop_last(), mode);
        lemma_insert_sorted_dirs_first(sort_seq(s.drop_last(), mode), s.last(), mode);
    }
}

proof fn lemma_sort_kids_dirs_first(s: Seq<TreeV>, mode: SortMode)
    ensures
        dirs_first_all(sort_kids(s, mode)),
    decreases s, 0nat,
{
    if s.len() > 0 {
        lemma_sort_kids_dirs_first(s.drop_last(), mode);
        let n = s.last();
        match n {
            TreeV::Dir { children, .. } => {
                assert(decreases_to!(s => n));
                lemma_sort_v_dirs_first(children, mode);
                assert(dirs_first_node(sort_node(n, mode)));
            },
            TreeV::File(_) => {
                assert(dirs_first_node(sort_node(n, mode)));
            },
        }
        assert(sort_kids(s, mode).drop_last() =~= sort_kids(s.drop_last(), mode));
        assert(sort_kids(s, mode).last() == sort_node(n, mode));
    } else {
        assert(sort_kids(s, mode) == Seq::<TreeV>::empty());
    }
}

/// In a sorted forest every sibling list, at every level, lists its
/// directories before its files.
pub proof fn lemma_sort_v_dirs_first(s: Seq<TreeV>, mode: SortMode)
    ensures
        dirs_before_files(sort_v(s, mode)),
        dirs_first_all(sort_v(s, mode)),
    decreases s, 1nat,
{
    let k = sort_kids(s, mode);
    lemma_sort_kids_dirs_first(s, mode);
    lemma_sort_seq_dirs_first(k, mode);
    lemma_sort_seq_facts(k, mode, false);
    lemma_dirs_first_all_pointwise(k);
    lemma_dirs_first_all_pointwise(sort_seq(k, mode));
    assert forall|i: int| 0 <= i < sort_seq(k, mode).len() implies #[trigger] dirs_first_node(sort_seq(k, mode)[i]) by {
        let j = choose|j: int| 0 <= j < k.len() && k[j] == sort_seq(k, mode)[i];
        assert(dirs_first_node(k[j]));
    }
}

/// The built tree lists directories before files in every sibling list.
/// No node of a sibling list sorts strictly before one listed earlier.
pub open spec fn siblings_sorted(s: Seq<TreeV>, mode: SortMode) -> bool {
    forall|a: int, b: int| 0 <= a < b < s.len() ==> !node_lt(#[trigger] s[b], #[trigger] s[a], mode)
}

/// Every sibling list below the nodes of a forest is sorted.
pub open spec fn sorted_all(s: Seq<TreeV>, mode: SortMode) -> bool
    decreases s,
{
    if s.len() == 0 {
        true
    } else {
        sorted_all(s.drop_last(), mode) && sorted_node(s.last(), mode)
    }
}

/// The sibling lists below a node are sorted.
pub open spec fn sorted_node(n: TreeV, mode: SortMode) -> bool
    decreases n,
{
    match n {
        TreeV::Dir { children, .. } => siblings_sorted(children, mode) && sorted_all(children, mode),
        TreeV::File(_) => true,
    }
}

proof fn lemma_sorted_all_pointwise(s: Seq<TreeV>, mode: SortMode)
    ensures
        sorted_all(s, mode) <==> forall|i: int| 0 <= i < s.len() ==> #[trigger] sorted_node(s[i], mode),
    decreases s.len(),
{
    if s.len() > 0 {
        lemma_sorted_all_pointwise(s.drop_last(), mode);
        if forall|i: int| 0 <= i < s.len() ==> #[trigger] sorted_node(s[i], mode) {
            assert forall|i: int| 0 <= i < s.drop_last().len() implies #[trigger] sorted_node(s.drop_last()[i], mode) by {
                assert(s.drop_last()[i] == s[i]);
            }
            assert(sorted_node(s[s.len() - 1], mode));
        }
        if sorted_all(s, mode) {
            assert forall|i: int| 0 <= i < s.len() implies #[trigger] sorted_node(s[i], mode) by {
                if i < s.len() - 1 {
                    assert(s.drop_last()[i] == s[i]);
                }
            }
        }
    }
}

proof fn lemma_node_lt_irreflexive(a: TreeV, mode: SortMode)
    ensures
        !node_lt(a, a, mode),
{
    match a {
        TreeV::Dir { name, .. } => crate::text::lemma_seq_lt_irreflexive(name),
        TreeV::File(f) => crate::text::lemma_seq_lt_irreflexive(f.path@),
    }
}

proof fn lemma_node_lt_transitive(a: TreeV, b: TreeV, c: TreeV, mode: SortMode)
    requires
        node_lt(a, b, mode),
        node_lt(b, c, mode),
    ensures
        node_lt(a, c, mode),
{
    match (a, b, c) {
        (TreeV::Dir { name: an, .. }, TreeV::Dir { name: bn, .. }, TreeV::Dir { name: cn, .. }) => {
            crate::text::lemma_seq_lt_transitive(an, bn, cn);
        },
        (TreeV::File(fa), TreeV::File(fb), TreeV::File(fc)) => {
            if crate::text::seq_lt(fa.path@, fb.path@) && crate::text::seq_lt(fb.path@, fc.path@) {
                crate::text::lemma_seq_lt_transitive(fa.path@, fb.path@, fc.path@);
            }
        },
        _ => {},
    }
}

proof fn lemma_insert_sorted_sorted(s: Seq<TreeV>, x: TreeV, mode: SortMode)
    requires
        siblings_sorted(s, mode),
    ensures
        siblings_sorted(insert_sorted(s, x, mode), mode),
    decreases s.len(),
{
    let r = insert_sorted(s, x, mode);
    if s.len() == 0 {
    } else if node_lt(x, s[0], mode) {
        assert(r == seq![x] + s);
        assert forall|a: int, b: int| 0 <= a < b < r.len() implies !node_lt(#[trigger] r[b], #[trigger] r[a], mode) by {
            if a == 0 {
                assert(r[b] == s[b - 1]);
                if node_lt(s[b - 1], x, mode) {
                    lemma_node_lt_transitive(s[b - 1], x, s[0], mode);
                    if b - 1 == 0 {
                        lemma_node_lt_irreflexive(s[0], mode);
                    }
                }
            } else {
                assert(r[a] == s[a - 1] && r[b] == s[b - 1]);
            }
        }
    } else {
        let t = insert_sorted(s.drop_first(), x, mode);
        assert forall|a: int, b: int| 0 <= a < b < s.drop_first().len() implies !node_lt(
            #[trigger] s.drop_first()[b],
            #[trigger] s.drop_first()[a],
            mode,
        ) by {
            assert(s.drop_first()[a] == s[a + 1] && s.drop_first()[b] == s[b + 1]);
        }
        lemma_insert_sorted_sorted(s.drop_first(), x, mode);
        lemma_insert_sorted_facts(s.drop_first(), x, mode, false);
        assert(r == seq![s[0]] + t);
        assert forall|a: int, b: int| 0 <= a < b < r.len() implies !node_lt(#[trigger] r[b], #[trigger] r[a], mode) by {
            assert(r[b] == t[b - 1]);
            if a == 0 {
                assert(t[b - 1] == x || s.drop_first().contains(t[b - 1]));
                if t[b - 1] != x {
                    let k = choose|k: int| 0 <= k < s.drop_first().len() && s.drop_first()[k] == t[b - 1];
                    assert(s[k + 1] == t[b - 1]);
                }
            } else {
                assert(r[a] == t[a - 1]);
            }
        }
    }
}

proof fn lemma_sort_seq_sorted(s: Seq<TreeV>, mode: SortMode)
    ensures
        siblings_sorted(sort_seq(s, mode), mode),
    decreases s.len(),
{
    if s.len() > 0 {
        lemma_sort_seq_sorted(s.drop_last(), mode);
        lemma_insert_sorted_sorted(sort_seq(s.drop_last(), mode), s.last(), mode);
    }
}

proof fn lemma_sort_kids_sorted(s: Seq<TreeV>, mode: SortMode)
    ensures
        sorted_all(sort_kids(s, mode), mode),
    decreases s, 0nat,
{
    if s.len() > 0 {
        lemma_sort_kids_sorted(s.drop_last(), mode);
        let n = s.last();
        match n {
            TreeV::Dir { children, .. } => {
                assert(decreases_to!(s => n));
                lemma_sort_v_sorted(children, mode);
                assert(sorted_node(sort_node(n, mode), mode));
            },
            TreeV::File(_) => {
                assert(sorted_node(sort_node(n, mode), mode));
            },
        }
        assert(sort_kids(s, mode).drop_last() =~= sort_kids(s.drop_last(), mode));
        assert(sort_kids(s, mode).last() == sort_node(n, mode));
    } else {
        assert(sort_kids(s, mode) == Seq::<TreeV>::empty());
    }
}

proof fn lemma_sort_v_sorted(s: Seq<TreeV>, mode: SortMode)
    ensures
        siblings_sorted(sort_v(s, mode), mode),
        sorted_all(sort_v(s, mode), mode),
    decreases s, 1nat,
{
    let k = sort_kids(s, mode);
    lemma_sort_kids_sorted(s, mode);
    lemma_sort_seq_sorted(k, mode);
    lemma_sort_seq_facts(k, mode, false);
    lemma_sorted_all_pointwise(k, mode);
    lemma_sorted_all_pointwise(sort_seq(k, mode), mode);
    assert forall|i: int| 0 <= i < sort_seq(k, mode).len() implies #[trigger] sorted_node(sort_seq(k, mode)[i], mode) by {
        let j = choose|j: int| 0 <= j < k.len() && k[j] == sort_seq(k, mode)[i];
        assert(sorted_node(k[j], mode));
    }
}

/// In the tree that `build_tree` gives, and in the children of every
/// directory, no node sorts before one listed earlier (see `node_lt`):
/// directories come first, ordered by name; files follow, ordered by path,
/// by status letter then path, or by added lines (most first) then path,
/// as the sort mode says.
pub proof fn lemma_build_tree_sorted(files: Seq<ChangedFile>, sort: SortMode)
    ensures
        siblings_sorted(build_tree_spec(files, sort), sort),
        sorted_all(build_tree_spec(files, sort), sort),
{
    lemma_sort_v_sorted(aggregate_v(insert_all(files)), sort);
}

/// Whether `a` comes before `b` character by character: at the first
/// position where they differ `a` holds the smaller character, or `a` is a
/// proper prefix of `b`.
pub open spec fn lex_before(a: Seq<char>, b: Seq<char>) -> bool {
    ||| exists|i: int| 0 <= i < a.len() && i < b.len() && a.take(i) == b.take(i) && (#[trigger] a[i] as u32) < (b[i] as u32)
    ||| (a.len() < b.len() && b.take(a.len() as int) == a)
}

/// By path, a sorted sibling list is in lexicographic order: directories
/// first, each name not before the one above it, then files, each path
/// not before the one above it.
pub proof fn lemma_path_order_is_lexicographic(s: Seq<TreeV>)
    requires
        siblings_sorted(s, SortMode::Path),
    ensures
        forall|a: int, b: int|
            0 <= a < b < s.len() ==> {
                &&& !(#[trigger] s[a] is File && #[trigger] s[b] is Dir)
                &&& s[a] matches TreeV::Dir { name: na, .. } ==> (s[b] matches TreeV::Dir { name: nb, .. } ==> !lex_before(nb, na))
                &&& s[a] matches TreeV::File(fa) ==> (s[b] matches TreeV::File(fb) ==> !lex_before(fb.path@, fa.path@))
            },
{
    assert forall|a: int, b: int| 0 <= a < b < s.len() implies {
        &&& !(#[trigger] s[a] is File && #[trigger] s[b] is Dir)
        &&& s[a] matches TreeV::Dir { name: na, .. } ==> (s[b] matches TreeV::Dir { name: nb, .. } ==> !lex_before(nb, na))
        &&& s[a] matches TreeV::File(fa) ==> (s[b] matches TreeV::File(fb) ==> !lex_before(fb.path@, fa.path@))
    } by {
        assert(!node_lt(s[b], s[a], SortMode::Path));
        match (s[a], s[b]) {
            (TreeV::Dir { name: na, .. }, TreeV::Dir { name: nb, .. }) => {
                crate::text::lemma_seq_lt_lexicographic(nb, na);
            },
            (TreeV::File(fa), TreeV::File(fb)) => {
                crate::text::lemma_seq_lt_lexicographic(fb.path@, fa.path@);
            },
            _ => {},
        }
    }
}

/// Sorted by path, the top level of the built tree lists its directories
/// first and then its files in lexicographic order of their paths (and
/// so does every directory's children, see `lemma_build_tree_sorted`).
pub proof fn lemma_build_tree_by_path(files: Seq<ChangedFile>)
    ensures
        forall|a: int, b: int|
            0 <= a < b < build_tree_spec(files, SortMode::Path).len() ==> ((#[trigger] build_tree_spec(files, SortMode::Path)[a]) matches TreeV::File(
                fa,
            ) ==> ((#[trigger] build_tree_spec(files, SortMode::Path)[b]) matches TreeV::File(fb) ==> !lex_before(fb.path@, fa.path@))),
{
    lemma_build_tree_sorted(files, SortMode::Path);
    lemma_path_order_is_lexicographic(build_tree_spec(files, SortMode::Path));
}

pub proof fn lemma_build_tree_dirs_first(files: Seq<ChangedFile>, sort: SortMode)
    ensures
        dirs_before_files(build_tree_spec(files, sort)),
        dirs_first_all(build_tree_spec(files, sort)),
{
    lemma_sort_v_dirs_first(aggregate_v(insert_all(files)), sort);
}

// ------------------------------------------------------------ distinct directory paths

/// A text without `/`.
pub open spec fn no_slash(s: Seq<char>) -> bool {
    forall|k: int| 0 <= k < s.len() ==> s[k] != '/'
}

/// The name of a directory node.
pub open spec fn dir_name(n: TreeV) -> Option<Seq<char>> {
    match n {
        TreeV::Dir { name, .. } => Some(name),
        TreeV::File(_) => None,
    }
}

/// Sibling directories have distinct names, each non-empty and without
/// `/`.
pub open spec fn siblings_ok(s: Seq<TreeV>) -> bool {
    &&& forall|a: int, b: int| 0 <= a < b < s.len() && #[trigger] dir_name(s[a]) is Some ==> dir_name(s[a]) != #[trigger] dir_name(s[b])
    &&& forall|a: int| 0 <= a < s.len() ==> (#[trigger] dir_name(s[a]) matches Some(n) ==> no_slash(n) && n.len() > 0)
}

/// A path whose directory parts (all but the last) are non-empty: no
/// leading `/` and no `//`.
pub open spec fn clean_path(p: Seq<char>) -> bool {
    forall|k: int| 0 <= k < split_path(p).len() - 1 ==> (#[trigger] split_path(p)[k]).len() > 0
}

/// Every sibling list below the nodes of a forest is `siblings_ok`.
pub open spec fn tidy_all(s: Seq<TreeV>) -> bool
    decreases s,
{
    if s.len() == 0 {
        true
    } else {
        tidy_all(s.drop_last()) && tidy_node(s.last())
    }
}

/// Every sibling list below a node is `siblings_ok`.
pub open spec fn tidy_node(n: TreeV) -> bool
    decreases n,
{
    match n {
        TreeV::Dir { children, .. } => siblings_ok(children) && tidy_all(children),
        TreeV::File(_) => true,
    }
}

proof fn lemma_tidy_all_pointwise(s: Seq<TreeV>)
    ensures
        tidy_all(s) <==> forall|i: int| 0 <= i < s.len() ==> #[trigger] tidy_node(s[i]),
    decreases s.len(),
{
    if s.len() > 0 {
        lemma_tidy_all_pointwise(s.drop_last());
        if forall|i: int| 0 <= i < s.len() ==> #[trigger] tidy_node(s[i]) {
            assert forall|i: int| 0 <= i < s.drop_last().len() implies #[trigger] tidy_node(s.drop_last()[i]) by {
                assert(s.drop_last()[i] == s[i]);
            }
            assert(tidy_node(s[s.len() - 1]));
        }
        if tidy_all(s) {
            assert forall|i: int| 0 <= i < s.len() implies #[trigger] tidy_node(s[i]) by {
                if i < s.len() - 1 {
                    assert(s.drop_last()[i] == s[i]);
                }
            }
        }
    }
}

proof fn lemma_find_dir_none(nodes: Seq<TreeV>, name: Seq<char>, i: int)
    requires
        0 <= i,
        find_dir_from(nodes, name, i) >= nodes.len(),
    ensures
        forall|k: int| i <= k < nodes.len() ==> !is_dir_named(#[trigger] nodes[k], name),
    decreases nodes.len() - i,
{
    if i < nodes.len() {
        lemma_find_dir_none(nodes, name, i + 1);
    }
}

proof fn lemma_split_acc_no_slash(s: Seq<char>, cur: Seq<char>)
    requires
        no_slash(cur),
    ensures
        forall|k: int| 0 <= k < split_acc(s, cur).len() ==> no_slash(#[trigger] split_acc(s, cur)[k]),
    decreases s.len(),
{
    if s.len() > 0 {
        if s[0] == '/' {
            lemma_split_acc_no_slash(s.drop_first(), seq![]);
            let r = split_acc(s.drop_first(), seq![]);
            assert(split_acc(s, cur) == seq![cur] + r);
            assert forall|k: int| 0 <= k < split_acc(s, cur).len() implies no_slash(#[trigger] split_acc(s, cur)[k]) by {
                if k > 0 {
                    assert(split_acc(s, cur)[k] == r[k - 1]);
                } else {
                    assert(split_acc(s, cur)[0] == cur);
                }
            }
        } else {
            assert(no_slash(cur.push(s[0]))) by {
                assert forall|k: int| 0 <= k < cur.push(s[0]).len() implies cur.push(s[0])[k] != '/' by {
                    if k < cur.len() {
                        assert(cur.push(s[0])[k] == cur[k]);
                    }
                }
            }
            lemma_split_acc_no_slash(s.drop_first(), cur.push(s[0]));
            assert(split_acc(s, cur) == split_acc(s.drop_first(), cur.push(s[0])));
        }
    } else {
        assert(split_acc(s, cur) == seq![cur]);
        assert(split_acc(s, cur)[0] == cur);
    }
}

proof fn lemma_insert_v_tidy(nodes: Seq<TreeV>, parts: Seq<Seq<char>>, file: ChangedFile)
    requires
        siblings_ok(nodes),
        tidy_all(nodes),
        forall|k: int| 0 <= k < parts.len() ==> no_slash(#[trigger] parts[k]),
        forall|k: int| 0 <= k < parts.len() - 1 ==> (#[trigger] parts[k]).len() > 0,
    ensures
        siblings_ok(insert_v(nodes, parts, file)),
        tidy_all(insert_v(nodes, parts, file)),
    decreases parts.len(),
{
    lemma_tidy_all_pointwise(nodes);
    let r = insert_v(nodes, parts, file);
    if parts.len() <= 1 {
        assert(r == nodes.push(TreeV::File(file)));
        assert forall|a: int, b: int| 0 <= a < b < r.len() && #[trigger] dir_name(r[a]) is Some implies dir_name(r[a]) != #[trigger] dir_name(r[b]) by {
            if b == nodes.len() {
                assert(dir_name(r[b]) is None);
            } else {
                assert(r[a] == nodes[a] && r[b] == nodes[b]);
            }
        }
        assert forall|a: int| 0 <= a < r.len() implies (#[trigger] dir_name(r[a]) matches Some(n) ==> no_slash(n) && n.len() > 0) by {
            if a < nodes.len() {
                assert(r[a] == nodes[a]);
            }
        }
        lemma_tidy_all_pointwise(r);
        assert forall|i: int| 0 <= i < r.len() implies #[trigger] tidy_node(r[i]) by {
            if i < nodes.len() {
                assert(r[i] == nodes[i]);
            }
        }
    } else {
        let rest = parts.drop_first();
        assert forall|k: int| 0 <= k < rest.len() implies no_slash(#[trigger] rest[k]) by {
            assert(rest[k] == parts[k + 1]);
        }
        assert forall|k: int| 0 <= k < rest.len() - 1 implies (#[trigger] rest[k]).len() > 0 by {
            assert(rest[k] == parts[k + 1]);
        }
        assert(parts[0].len() > 0);
        let j = find_dir_from(nodes, parts[0], 0);
        lemma_find_dir_range(nodes, parts[0], 0);
        if j < nodes.len() {
            lemma_find_dir_is_dir(nodes, parts[0], 0);
            match nodes[j] {
                TreeV::Dir { name, children, added, deleted } => {
                    assert(tidy_node(nodes[j]));
                    lemma_insert_v_tidy(children, rest, file);
                    let x = TreeV::Dir { name, children: insert_v(children, rest, file), added, deleted };
                    assert(r == nodes.update(j, x));
                    assert forall|a: int, b: int| 0 <= a < b < r.len() && #[trigger] dir_name(r[a]) is Some implies dir_name(r[a])
                        != #[trigger] dir_name(r[b]) by {
                        assert(dir_name(r[a]) == dir_name(nodes[a]));
                        assert(dir_name(r[b]) == dir_name(nodes[b]));
                    }
                    assert forall|a: int| 0 <= a < r.len() implies (#[trigger] dir_name(r[a]) matches Some(n) ==> no_slash(n) && n.len() > 0) by {
                        assert(dir_name(r[a]) == dir_name(nodes[a]));
                    }
                    lemma_tidy_all_pointwise(r);
                    assert forall|i: int| 0 <= i < r.len() implies #[trigger] tidy_node(r[i]) by {
                        if i != j {
                            assert(r[i] == nodes[i]);
                        }
                    }
                },
                TreeV::File(_) => {},
            }
        } else {
            lemma_find_dir_none(nodes, parts[0], 0);
            assert(siblings_ok(Seq::<TreeV>::empty()));
            assert(tidy_all(Seq::<TreeV>::empty()));
            lemma_insert_v_tidy(seq![], rest, file);
            let x = TreeV::Dir { name: parts[0], children: insert_v(seq![], rest, file), added: 0, deleted: 0 };
            assert(r == nodes.push(x));
            assert forall|a: int, b: int| 0 <= a < b < r.len() && #[trigger] dir_name(r[a]) is Some implies dir_name(r[a])
                != #[trigger] dir_name(r[b]) by {
                if b == nodes.len() {
                    assert(r[a] == nodes[a]);
                    assert(!is_dir_named(nodes[a], parts[0]));
                } else {
                    assert(r[a] == nodes[a] && r[b] == nodes[b]);
                }
            }
            assert forall|a: int| 0 <= a < r.len() implies (#[trigger] dir_name(r[a]) matches Some(n) ==> no_slash(n) && n.len() > 0) by {
                if a < nodes.len() {
                    assert(r[a] == nodes[a]);
                }
            }
            lemma_tidy_all_pointwise(r);
            assert forall|i: int| 0 <= i < r.len() implies #[trigger] tidy_node(r[i]) by {
                if i < nodes.len() {
                    assert(r[i] == nodes[i]);
                }
            }
        }
    }
}

proof fn lemma_insert_all_tidy(files: Seq<ChangedFile>)
    requires
        forall|i: int| 0 <= i < files.len() ==> clean_path(#[trigger] files[i].path@),
    ensures
        siblings_ok(insert_all(files)),
        tidy_all(insert_all(files)),
    decreases files.len(),
{
    if files.len() == 0 {
        assert(insert_all(files) == Seq::<TreeV>::empty());
    } else {
        assert forall|i: int| 0 <= i < files.drop_last().len() implies clean_path(#[trigger] files.drop_last()[i].path@) by {
            assert(files.drop_last()[i] == files[i]);
        }
        assert(clean_path(files[files.len() - 1].path@));
        lemma_insert_all_tidy(files.drop_last());
        lemma_split_acc_no_slash(files.last().path@, seq![]);
        lemma_insert_v_tidy(insert_all(files.drop_last()), split_path(files.last().path@), files.last());
    }
}

proof fn lemma_aggregate_tidy(s: Seq<TreeV>)
    requires
        siblings_ok(s),
        tidy_all(s),
    ensures
        siblings_ok(aggregate_v(s)),
        tidy_all(aggregate_v(s)),
    decreases s,
{
    lemma_aggregate_len(s);
    lemma_tidy_all_pointwise(s);
    lemma_tidy_all_pointwise(aggregate_v(s));
    let r = aggregate_v(s);
    assert forall|k: int| 0 <= k < s.len() implies #[trigger] dir_name(r[k]) == dir_name(s[k]) by {
        assert(r[k] == aggregate_node(s[k]));
    }
    assert forall|a: int, b: int| 0 <= a < b < r.len() && #[trigger] dir_name(r[a]) is Some implies dir_name(r[a]) != #[trigger] dir_name(
        r[b],
    ) by {
        assert(dir_name(r[a]) == dir_name(s[a]));
        assert(dir_name(r[b]) == dir_name(s[b]));
    }
    assert forall|a: int| 0 <= a < r.len() implies (#[trigger] dir_name(r[a]) matches Some(n) ==> no_slash(n) && n.len() > 0) by {
        assert(dir_name(r[a]) == dir_name(s[a]));
    }
    assert forall|k: int| 0 <= k < r.len() implies #[trigger] tidy_node(r[k]) by {
        assert(r[k] == aggregate_node(s[k]));
        assert(tidy_node(s[k]));
        match s[k] {
            TreeV::Dir { children, .. } => {
                assert(decreases_to!(s => children)) by {
                    assert(decreases_to!(s => s[k]));
                }
                lemma_aggregate_tidy(children);
            },
            TreeV::File(_) => {},
        }
    }
}

proof fn lemma_insert_sorted_sibs(s: Seq<TreeV>, x: TreeV, mode: SortMode)
    requires
        siblings_ok(s),
        dir_name(x) is Some ==> forall|k: int| 0 <= k < s.len() ==> #[trigger] dir_name(s[k]) != dir_name(x),
        dir_name(x) matches Some(n) ==> no_slash(n) && n.len() > 0,
    ensures
        siblings_ok(insert_sorted(s, x, mode)),
    decreases s.len(),
{
    let r = insert_sorted(s, x, mode);
    if s.len() == 0 {
        assert(r == seq![x]);
    } else if node_lt(x, s[0], mode) {
        assert(r == seq![x] + s);
        assert forall|a: int, b: int| 0 <= a < b < r.len() && #[trigger] dir_name(r[a]) is Some implies dir_name(r[a])
            != #[trigger] dir_name(r[b]) by {
            assert(r[b] == s[b - 1]);
            if a > 0 {
                assert(r[a] == s[a - 1]);
            }
        }
        assert forall|a: int| 0 <= a < r.len() implies (#[trigger] dir_name(r[a]) matches Some(n) ==> no_slash(n) && n.len() > 0) by {
            if a > 0 {
                assert(r[a] == s[a - 1]);
            }
        }
    } else {
        let rest = s.drop_first();
        assert forall|a: int, b: int| 0 <= a < b < rest.len() && #[trigger] dir_name(rest[a]) is Some implies dir_name(rest[a])
            != #[trigger] dir_name(rest[b]) by {
            assert(rest[a] == s[a + 1] && rest[b] == s[b + 1]);
        }
        assert forall|a: int| 0 <= a < rest.len() implies (#[trigger] dir_name(rest[a]) matches Some(n) ==> no_slash(n) && n.len() > 0) by {
            assert(rest[a] == s[a + 1]);
        }
        if dir_name(x) is Some {
            assert forall|k: int| 0 <= k < rest.len() implies #[trigger] dir_name(rest[k]) != dir_name(x) by {
                assert(rest[k] == s[k + 1]);
            }
        }
        lemma_insert_sorted_sibs(rest, x, mode);
        lemma_insert_sorted_facts(rest, x, mode, false);
        let t = insert_sorted(rest, x, mode);
        assert(r == seq![s[0]] + t);
        assert forall|a: int, b: int| 0 <= a < b < r.len() && #[trigger] dir_name(r[a]) is Some implies dir_name(r[a])
            != #[trigger] dir_name(r[b]) by {
            assert(r[b] == t[b - 1]);
            if a > 0 {
                assert(r[a] == t[a - 1]);
            } else {
                if t[b - 1] != x {
                    let j = choose|j: int| 0 <= j < rest.len() && rest[j] == t[b - 1];
                    assert(s[j + 1] == t[b - 1]);
                }
            }
        }
        assert forall|a: int| 0 <= a < r.len() implies (#[trigger] dir_name(r[a]) matches Some(n) ==> no_slash(n) && n.len() > 0) by {
            if a > 0 {
                assert(r[a] == t[a - 1]);
            }
        }
    }
}

proof fn lemma_sort_seq_sibs(s: Seq<TreeV>, mode: SortMode)
    requires
        siblings_ok(s),
    ensures
        siblings_ok(sort_seq(s, mode)),
    decreases s.len(),
{
    if s.len() == 0 {
        assert(sort_seq(s, mode) == Seq::<TreeV>::empty());
    } else {
        let init = s.drop_last();
        assert forall|a: int, b: int| 0 <= a < b < init.len() && #[trigger] dir_name(init[a]) is Some implies dir_name(init[a])
            != #[trigger] dir_name(init[b]) by {
            assert(init[a] == s[a] && init[b] == s[b]);
        }
        assert forall|a: int| 0 <= a < init.len() implies (#[trigger] dir_name(init[a]) matches Some(n) ==> no_slash(n) && n.len() > 0) by {
            assert(init[a] == s[a]);
        }
        lemma_sort_seq_sibs(init, mode);
        lemma_sort_seq_facts(init, mode, false);
        let q = sort_seq(init, mode);
        if dir_name(s.last()) is Some {
            assert forall|k: int| 0 <= k < q.len() implies #[trigger] dir_name(q[k]) != dir_name(s.last()) by {
                let j = choose|j: int| 0 <= j < init.len() && init[j] == q[k];
                assert(init[j] == s[j]);
                if dir_name(q[k]) is Some {
                    assert(dir_name(s[j]) != dir_name(s[s.len() - 1]));
                }
            }
        }
        assert(dir_name(s.last()) matches Some(n) ==> no_slash(n) && n.len() > 0) by {
            assert(dir_name(s[s.len() - 1]) matches Some(n) ==> no_slash(n) && n.len() > 0);
        }
        lemma_insert_sorted_sibs(q, s.last(), mode);
    }
}

proof fn lemma_sort_kids_index(s: Seq<TreeV>, mode: SortMode)
    ensures
        sort_kids(s, mode).len() == s.len(),
        forall|k: int| 0 <= k < s.len() ==> #[trigger] sort_kids(s, mode)[k] == sort_node(s[k], mode),
    decreases s.len(),
{
    if s.len() > 0 {
        lemma_sort_kids_index(s.drop_last(), mode);
        assert forall|k: int| 0 <= k < s.len() implies #[trigger] sort_kids(s, mode)[k] == sort_node(s[k], mode) by {
            if k < s.len() - 1 {
                assert(s.drop_last()[k] == s[k]);
            }
        }
    } else {
        assert(sort_kids(s, mode) == Seq::<TreeV>::empty());
    }
}

proof fn lemma_sort_v_tidy(s: Seq<TreeV>, mode: SortMode)
    requires
        siblings_ok(s),
        tidy_all(s),
    ensures
        siblings_ok(sort_v(s, mode)),
        tidy_all(sort_v(s, mode)),
    decreases s, 1nat,
{
    let k = sort_kids(s, mode);
    lemma_sort_kids_index(s, mode);
    lemma_tidy_all_pointwise(s);
    assert forall|j: int| 0 <= j < k.len() implies #[trigger] dir_name(k[j]) == dir_name(s[j]) by {
        assert(k[j] == sort_node(s[j], mode));
    }
    assert forall|a: int, b: int| 0 <= a < b < k.len() && #[trigger] dir_name(k[a]) is Some implies dir_name(k[a]) != #[trigger] dir_name(
        k[b],
    ) by {
        assert(dir_name(k[a]) == dir_name(s[a]));
        assert(dir_name(k[b]) == dir_name(s[b]));
    }
    assert forall|a: int| 0 <= a < k.len() implies (#[trigger] dir_name(k[a]) matches Some(n) ==> no_slash(n) && n.len() > 0) by {
        assert(dir_name(k[a]) == dir_name(s[a]));
    }
    assert forall|j: int| 0 <= j < k.len() implies #[trigger] tidy_node(k[j]) by {
        assert(k[j] == sort_node(s[j], mode));
        assert(tidy_node(s[j]));
        match s[j] {
            TreeV::Dir { children, .. } => {
                assert(decreases_to!(s => s[j]));
                lemma_sort_v_tidy(children, mode);
            },
            TreeV::File(_) => {},
        }
    }
    lemma_tidy_all_pointwise(k);
    lemma_sort_seq_sibs(k, mode);
    lemma_sort_seq_facts(k, mode, false);
    lemma_tidy_all_pointwise(sort_seq(k, mode));
    assert forall|i: int| 0 <= i < sort_seq(k, mode).len() implies #[trigger] tidy_node(sort_seq(k, mode)[i]) by {
        let j = choose|j: int| 0 <= j < k.len() && k[j] == sort_seq(k, mode)[i];
        assert(tidy_node(k[j]));
    }
}

/// The tree built from files whose paths have no empty directory part has
/// distinct, non-empty sibling directory names without `/`, at every level.
pub proof fn lemma_build_tree_tidy(files: Seq<ChangedFile>, sort: SortMode)
    requires
        forall|i: int| 0 <= i < files.len() ==> clean_path(#[trigger] files[i].path@),
    ensures
        siblings_ok(build_tree_spec(files, sort)),
        tidy_all(build_tree_spec(files, sort)),
{
    lemma_insert_all_tidy(files);
    lemma_aggregate_tidy(insert_all(files));
    lemma_sort_v_tidy(aggregate_v(insert_all(files)), sort);
}

/// The path of a directory row.
pub open spec fn dir_path_of(r: RowV) -> Option<Seq<char>> {
    match r {
        RowV::Dir { path, .. } => Some(path),
        RowV::File { .. } => None,
    }
}

/// Whether the directory rows of a row list have pairwise distinct paths.
pub open spec fn distinct_dir_paths(w: Seq<RowV>) -> bool {
    forall|a: int, b: int| 0 <= a < b < w.len() && #[trigger] dir_path_of(w[a]) is Some ==> dir_path_of(w[a]) != #[trigger] dir_path_of(
        w[b],
    )
}

/// Whether path `x` is the directory `name` under `pp`, or below it.
pub open spec fn under(x: Seq<char>, pp: Seq<char>, name: Seq<char>) -> bool {
    let b = join_path(pp, name);
    &&& b.len() <= x.len()
    &&& x.take(b.len() as int) == b
    &&& (x.len() == b.len() || x[b.len() as int] == '/')
}

/// Whether path `x` lies under one of the directories `nodes[i..]` at `pp`.
pub open spec fn under_some(x: Seq<char>, nodes: Seq<TreeV>, i: int, pp: Seq<char>) -> bool {
    exists|j: int| i <= j < nodes.len() && (#[trigger] dir_name(nodes[j]) matches Some(n) && under(x, pp, n))
}

proof fn lemma_join_index(pp: Seq<char>, n: Seq<char>, k: int)
    requires
        0 <= k < n.len(),
    ensures
        join_path(pp, n)[(if pp.len() == 0 { 0int } else { pp.len() + 1int }) + k] == n[k],
        join_path(pp, n).len() == (if pp.len() == 0 { 0int } else { pp.len() + 1int }) + n.len(),
{
}

proof fn lemma_under_disjoint(x: Seq<char>, pp: Seq<char>, n1: Seq<char>, n2: Seq<char>)
    requires
        no_slash(n1),
        no_slash(n2),
        n1 != n2,
        under(x, pp, n1),
    ensures
        !under(x, pp, n2),
{
    if under(x, pp, n2) {
        let lead: int = if pp.len() == 0 { 0 } else { pp.len() + 1int };
        let b1 = join_path(pp, n1);
        let b2 = join_path(pp, n2);
        assert(b1.len() == lead + n1.len());
        assert(b2.len() == lead + n2.len());
        assert forall|k: int| 0 <= k < n1.len() implies x[lead + k] == n1[k] by {
            lemma_join_index(pp, n1, k);
            assert(x.take(b1.len() as int)[lead + k] == b1[lead + k]);
        }
        assert forall|k: int| 0 <= k < n2.len() implies x[lead + k] == n2[k] by {
            lemma_join_index(pp, n2, k);
            assert(x.take(b2.len() as int)[lead + k] == b2[lead + k]);
        }
        if n1.len() == n2.len() {
            assert(n1 =~= n2);
        } else if n1.len() < n2.len() {
            assert(x[lead + n1.len()] == n2[n1.len() as int]);
        } else {
            assert(x[lead + n2.len()] == n1[n2.len() as int]);
        }
    }
}

proof fn lemma_under_parent(x: Seq<char>, pp: Seq<char>, n: Seq<char>, m: Seq<char>)
    requires
        n.len() > 0,
        under(x, join_path(pp, n), m),
    ensures
        under(x, pp, n),
        x.len() > join_path(pp, n).len(),
{
    let p = join_path(pp, n);
    assert(p.len() > 0);
    let b = join_path(p, m);
    assert(b == p + seq!['/'] + m);
    assert(x.take(p.len() as int) =~= b.take(p.len() as int));
    assert(b.take(p.len() as int) =~= p);
    assert(x[p.len() as int] == x.take(b.len() as int)[p.len() as int]);
}

/// Two row lists whose directory paths are distinct, each within itself and
/// one from the other, join into a list with distinct directory paths.
pub proof fn lemma_distinct_concat(a: Seq<RowV>, b: Seq<RowV>)
    requires
        distinct_dir_paths(a),
        distinct_dir_paths(b),
        forall|i: int, j: int| 0 <= i < a.len() && 0 <= j < b.len() && #[trigger] dir_path_of(a[i]) is Some ==> dir_path_of(a[i])
            != #[trigger] dir_path_of(b[j]),
    ensures
        distinct_dir_paths(a + b),
{
    let w = a + b;
    assert forall|x: int, y: int| 0 <= x < y < w.len() && #[trigger] dir_path_of(w[x]) is Some implies dir_path_of(w[x])
        != #[trigger] dir_path_of(w[y]) by {
        if y < a.len() {
            assert(w[x] == a[x] && w[y] == a[y]);
        } else if x >= a.len() {
            assert(w[x] == b[x - a.len()] && w[y] == b[y - a.len()]);
        } else {
            assert(w[x] == a[x] && w[y] == b[y - a.len()]);
        }
    }
}

/// In a walk of a forest whose sibling directory names are distinct,
/// non-empty and free of `/` at every level, the directory rows have
/// distinct paths, each lying under one of the walked top directories.
pub proof fn lemma_walk_dir_paths(
    nodes: Seq<TreeV>,
    i: int,
    collapsed: Seq<Seq<char>>,
    prefix: Seq<char>,
    path_prefix: Seq<char>,
    depth: usize,
)
    requires
        siblings_ok(nodes),
        tidy_all(nodes),
        0 <= i,
    ensures
        distinct_dir_paths(walk_at(nodes, i, collapsed, prefix, path_prefix, depth)),
        forall|k: int| 0 <= k < walk_at(nodes, i, collapsed, prefix, path_prefix, depth).len() ==> (#[trigger] dir_path_of(
            walk_at(nodes, i, collapsed, prefix, path_prefix, depth)[k],
        ) matches Some(x) ==> under_some(x, nodes, i, path_prefix)),
    decreases nodes, nodes.len() - i,
{
    let w = walk_at(nodes, i, collapsed, prefix, path_prefix, depth);
    if i < nodes.len() {
        lemma_tidy_all_pointwise(nodes);
        let is_last = i + 1 == nodes.len();
        let guide = guide_for(prefix, depth, is_last);
        let rest = walk_at(nodes, i + 1, collapsed, prefix, path_prefix, depth);
        lemma_walk_dir_paths(nodes, i + 1, collapsed, prefix, path_prefix, depth);
        let here = match nodes[i] {
            TreeV::Dir { name, children, added, deleted } => {
                let path = join_path(path_prefix, name);
                let c = collapsed.contains(path);
                seq![RowV::Dir { path, depth, collapsed: c, added, deleted, guide }] + if c {
                    Seq::<RowV>::empty()
                } else {
                    walk_at(children, 0, collapsed, prefix + child_pad(is_last), path, deeper(depth))
                }
            },
            TreeV::File(f) => seq![RowV::File { file: f, depth, guide }],
        };
        assert(w == here + rest);
        match nodes[i] {
            TreeV::Dir { name, children, added, deleted } => {
                assert(dir_name(nodes[i]) == Some(name));
                let path = join_path(path_prefix, name);
                let c = collapsed.contains(path);
                let sub = if c {
                    Seq::<RowV>::empty()
                } else {
                    walk_at(children, 0, collapsed, prefix + child_pad(is_last), path, deeper(depth))
                };
                let row = seq![RowV::Dir { path, depth, collapsed: c, added, deleted, guide }];
                assert(here == row + sub);
                assert(tidy_node(nodes[i]));
                if !c {
                    assert(decreases_to!(nodes => children)) by {
                        assert(decreases_to!(nodes => nodes[i]));
                    }
                    lemma_walk_dir_paths(children, 0, collapsed, prefix + child_pad(is_last), path, deeper(depth));
                }
                assert forall|k: int| 0 <= k < sub.len() && #[trigger] dir_path_of(sub[k]) is Some implies under(
                    dir_path_of(sub[k])->0,
                    path_prefix,
                    name,
                ) && dir_path_of(sub[k])->0.len() > path.len() by {
                    let x = dir_path_of(sub[k])->0;
                    assert(under_some(x, children, 0, path));
                    let j = choose|j: int| 0 <= j < children.len() && (#[trigger] dir_name(children[j]) matches Some(n) && under(
                        x,
                        path,
                        n,
                    ));
                    let m = dir_name(children[j])->0;
                    lemma_under_parent(x, path_prefix, name, m);
                }
                assert(under(path, path_prefix, name)) by {
                    assert(path.take(path.len() as int) =~= path);
                }
                assert(distinct_dir_paths(row));
                if c {
                    assert(distinct_dir_paths(sub));
                }
                lemma_distinct_concat(row, sub);
                assert forall|k: int| 0 <= k < here.len() && #[trigger] dir_path_of(here[k]) is Some implies under(
                    dir_path_of(here[k])->0,
                    path_prefix,
                    name,
                ) by {
                    if k > 0 {
                        assert(here[k] == sub[k - 1]);
                    }
                }
                assert forall|a: int, b: int| 0 <= a < here.len() && 0 <= b < rest.len() && #[trigger] dir_path_of(here[a]) is Some
                    implies dir_path_of(here[a]) != #[trigger] dir_path_of(rest[b]) by {
                    if dir_path_of(rest[b]) is Some {
                        let y = dir_path_of(rest[b])->0;
                        assert(under_some(y, nodes, i + 1, path_prefix));
                        let j = choose|j: int| i + 1 <= j < nodes.len() && (#[trigger] dir_name(nodes[j]) matches Some(n) && under(
                            y,
                            path_prefix,
                            n,
                        ));
                        let n2 = dir_name(nodes[j])->0;
                        assert(dir_name(nodes[i]) != dir_name(nodes[j]));
                        lemma_under_disjoint(y, path_prefix, n2, name);
                    }
                }
                lemma_distinct_concat(here, rest);
                assert forall|k: int| 0 <= k < w.len() implies (#[trigger] dir_path_of(w[k]) matches Some(x) ==> under_some(
                    x,
                    nodes,
                    i,
                    path_prefix,
                )) by {
                    if k < here.len() {
                        assert(w[k] == here[k]);
                        if dir_path_of(here[k]) is Some {
                            assert(dir_name(nodes[i]) matches Some(n) && under(dir_path_of(here[k])->0, path_prefix, n));
                        }
                    } else {
                        assert(w[k] == rest[k - here.len()]);
                        if dir_path_of(rest[k - here.len()]) is Some {
                            let y = dir_path_of(rest[k - here.len()])->0;
                            assert(under_some(y, nodes, i + 1, path_prefix));
                            let j = choose|j: int| i + 1 <= j < nodes.len() && (#[trigger] dir_name(nodes[j]) matches Some(n) && under(
                                y,
                                path_prefix,
                                n,
                            ));
                            assert(i <= j);
                        }
                    }
                }
            },
            TreeV::File(f) => {
                assert(distinct_dir_paths(here));
                lemma_distinct_concat(here, rest);
                assert forall|k: int| 0 <= k < w.len() implies (#[trigger] dir_path_of(w[k]) matches Some(x) ==> under_some(
                    x,
                    nodes,
                    i,
                    path_prefix,
                )) by {
                    if k >= here.len() {
                        assert(w[k] == rest[k - here.len()]);
                        if dir_path_of(rest[k - here.len()]) is Some {
                            let y = dir_path_of(rest[k - here.len()])->0;
                            assert(under_some(y, nodes, i + 1, path_prefix));
                            let j = choose|j: int| i + 1 <= j < nodes.len() && (#[trigger] dir_name(nodes[j]) matches Some(n) && under(
                                y,
                                path_prefix,
                                n,
                            ));
                            assert(i <= j);
                        }
                    } else {
                        assert(w[k] == here[k]);
                    }
                }
            },
        }
    } else {
        assert(w == Seq::<RowV>::empty());
    }
}

/// A path under a non-empty directory name at `pp` is longer than `pp`.
pub proof fn lemma_under_longer(x: Seq<char>, pp: Seq<char>, n: Seq<char>)
    requires
        n.len() > 0,
        under(x, pp, n),
    ensures
        x.len() > pp.len(),
{
}

} // verus!
