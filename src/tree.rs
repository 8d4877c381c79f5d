//! Assembling a nested directory snapshot from the flat list of entries that a
//! walk of the file system discovered.
use vstd::prelude::*;

verus! {

/// Whether a snapshot node stands for a directory or for a file.
#[derive(PartialEq, Eq, Structural, Clone, Copy, Debug)]
pub enum NodeKind {
    Directory,
    File,
}

/// One entry of a directory snapshot. A directory always carries a (possibly
/// empty) list of children; a file never does.
#[derive(Debug)]
pub struct FileNode {
    pub name: String,
    pub kind: NodeKind,
    pub children: Option<Vec<FileNode>>,
}

/// One object found by a walk: its path relative to the walk's root, one
/// component per element, and whether it is a directory.
#[derive(Clone, Debug)]
pub struct WalkEntry {
    pub path: Vec<String>,
    pub is_dir: bool,
}

/// The components of a path, as character sequences.
pub open spec fn components(p: Seq<String>) -> Seq<Seq<char>> {
    p.map_values(|s: String| s@)
}

impl WalkEntry {
    pub open spec fn path_view(&self) -> Seq<Seq<char>> {
        components(self.path@)
    }
}

/// `e` sits immediately inside the directory `dir`.
pub open spec fn is_child_of(e: WalkEntry, dir: Seq<Seq<char>>) -> bool {
    &&& e.path_view().len() == dir.len() + 1
    &&& e.path_view().subrange(0, dir.len() as int) == dir
}

/// The entries immediately inside `dir`, in the order of the walk.
pub open spec fn children_in(es: Seq<WalkEntry>, dir: Seq<Seq<char>>) -> Seq<WalkEntry>
    decreases es.len(),
{
    if es.len() == 0 {
        Seq::empty()
    } else {
        let rest = children_in(es.drop_last(), dir);
        if is_child_of(es.last(), dir) {
            rest.push(es.last())
        } else {
            rest
        }
    }
}

/// The longest path among the entries: how deep the snapshot can go.
pub open spec fn depth_of(es: Seq<WalkEntry>) -> nat
    decreases es.len(),
{
    if es.len() == 0 {
        0
    } else {
        let d = depth_of(es.drop_last());
        let l = es.last().path_view().len();
        if l > d {
            l
        } else {
            d
        }
    }
}

/// `n` is the snapshot of the entry `e`: same name and kind, and for a
/// directory, children that are the snapshot of what lies inside it.
pub open spec fn node_of(n: FileNode, e: WalkEntry, es: Seq<WalkEntry>, fuel: nat) -> bool
    decreases fuel, 0nat,
{
    &&& n.name@ == e.path_view().last()
    &&& if e.is_dir {
        &&& n.kind == NodeKind::Directory
        &&& n.children is Some
        &&& fuel > 0
        &&& level_of(n.children->0@, es, e.path_view(), (fuel - 1) as nat)
    } else {
        &&& n.kind == NodeKind::File
        &&& n.children is None
    }
}

/// `nodes` is the snapshot of the directory `dir`: one node per entry
/// immediately inside it, in the order of the walk.
pub open spec fn level_of(nodes: Seq<FileNode>, es: Seq<WalkEntry>, dir: Seq<Seq<char>>, fuel: nat) -> bool
    decreases fuel, 1nat,
{
    let ks = children_in(es, dir);
    &&& nodes.len() == ks.len()
    &&& forall|i: int| 0 <= i < nodes.len() ==> node_of(#[trigger] nodes[i], ks[i], es, fuel)
}

/// `nodes` is the snapshot of the walk's root, given everything the walk found.
pub open spec fn file_tree(nodes: Seq<FileNode>, es: Seq<WalkEntry>) -> bool {
    level_of(nodes, es, Seq::empty(), depth_of(es))
}


/// Whether `path` names an entry immediately inside `dir`.
fn is_child_path(path: &Vec<String>, dir: &Vec<String>) -> (r: bool)
    ensures
        r == (components(path@).len() == components(dir@).len() + 1
            && components(path@).subrange(0, dir@.len() as int) == components(dir@)),
{
    if path.len() == 0 || path.len() - 1 != dir.len() {
        return false;
    }
    let mut i: usize = 0;
    while i < dir.len()
        invariant
            i <= dir@.len(),
            path@.len() == dir@.len() + 1,
            forall|k: int| 0 <= k < i ==> path@[k]@ == dir@[k]@,
        decreases dir@.len() - i,
    {
        if path[i] != dir[i] {
            assert(components(path@).subrange(0, dir@.len() as int)[i as int] != components(dir@)[i as int]);
            return false;
        }
        i = i + 1;
    }
    assert(components(path@).subrange(0, dir@.len() as int) =~= components(dir@));
    true
}

proof fn lemma_children_step(es: Seq<WalkEntry>, dir: Seq<Seq<char>>, i: int)
    requires
        0 <= i < es.len(),
    ensures
        children_in(es.take(i + 1), dir) == (if is_child_of(es[i], dir) {
            children_in(es.take(i), dir).push(es[i])
        } else {
            children_in(es.take(i), dir)
        }),
{
    assert(es.take(i + 1).drop_last() =~= es.take(i));
    assert(es.take(i + 1).last() == es[i]);
}

proof fn lemma_depth_step(es: Seq<WalkEntry>, i: int)
    requires
        0 <= i < es.len(),
    ensures
        depth_of(es.take(i + 1)) == (if es[i].path_view().len() > depth_of(es.take(i)) {
            es[i].path_view().len()
        } else {
            depth_of(es.take(i))
        }),
{
    assert(es.take(i + 1).drop_last() =~= es.take(i));
    assert(es.take(i + 1).last() == es[i]);
}

/// The nodes of the directory `dir` and, recursively, of everything below it.
fn build_level(entries: &Vec<WalkEntry>, dir: &Vec<String>, fuel: usize) -> (r: Vec<FileNode>)
    requires
        forall|j: int|
            0 <= j < entries@.len() ==> #[trigger] entries@[j].path_view().len() <= dir@.len() + fuel,
    ensures
        level_of(r@, entries@, components(dir@), fuel as nat),
    decreases fuel,
{
    let ghost es = entries@;
    let ghost d = components(dir@);
    let mut nodes: Vec<FileNode> = Vec::new();
    let mut i: usize = 0;
    while i < entries.len()
        invariant
            i <= es.len(),
            es == entries@,
            d == components(dir@),
            forall|j: int|
                0 <= j < entries@.len() ==> #[trigger] entries@[j].path_view().len() <= dir@.len() + fuel,
            nodes@.len() == children_in(es.take(i as int), d).len(),
            forall|k: int|
                0 <= k < nodes@.len() ==> node_of(
                    #[trigger] nodes@[k],
                    children_in(es.take(i as int), d)[k],
                    es,
                    fuel as nat,
                ),
        decreases es.len() - i,
    {
        proof {
            lemma_children_step(es, d, i as int);
        }
        let entry = &entries[i];
        if is_child_path(&entry.path, dir) {
            assert(is_child_of(es[i as int], d));
            let last = entry.path.len() - 1;
            let name = entry.path[last].clone();
            let node = if entry.is_dir {
                assert(entries@[i as int].path_view().len() <= dir@.len() + fuel);
                let below = build_level(entries, &entry.path, fuel - 1);
                FileNode { name, kind: NodeKind::Directory, children: Some(below) }
            } else {
                FileNode { name, kind: NodeKind::File, children: None }
            };
            nodes.push(node);
        }
        i = i + 1;
    }
    assert(es.take(es.len() as int) =~= es);
    nodes
}

/// The depth of the deepest entry.
fn max_depth(entries: &Vec<WalkEntry>) -> (r: usize)
    ensures
        r as nat == depth_of(entries@),
{
    let mut best: usize = 0;
    let mut i: usize = 0;
    while i < entries.len()
        invariant
            i <= entries@.len(),
            best as nat == depth_of(entries@.take(i as int)),
        decreases entries@.len() - i,
    {
        proof {
            lemma_depth_step(entries@, i as int);
        }
        if entries[i].path.len() > best {
            best = entries[i].path.len();
        }
        i = i + 1;
    }
    assert(entries@.take(entries@.len() as int) =~= entries@);
    best
}

proof fn lemma_depth_bounds(es: Seq<WalkEntry>)
    ensures
        forall|j: int| 0 <= j < es.len() ==> #[trigger] es[j].path_view().len() <= depth_of(es),
    decreases es.len(),
{
    if es.len() > 0 {
        lemma_depth_bounds(es.drop_last());
        assert forall|j: int| 0 <= j < es.len() implies #[trigger] es[j].path_view().len() <= depth_of(es) by {
            if j < es.len() - 1 {
                assert(es[j] == es.drop_last()[j]);
            }
        }
    }
}

/// Builds the nested snapshot of a walk's root from every entry that the walk
/// found under it, each with its path relative to the root. The entries
/// immediately inside a directory become its children, in the order in which
/// the walk found them; a directory with nothing inside gets an empty list.
pub fn assemble_tree(entries: &Vec<WalkEntry>) -> (r: Vec<FileNode>)
    ensures
        file_tree(r@, entries@),
{
    let depth = max_depth(entries);
    let root: Vec<String> = Vec::new();
    proof {
        lemma_depth_bounds(entries@);
        assert(components(root@) =~= Seq::<Seq<char>>::empty());
    }
    build_level(entries, &root, depth)
}

proof fn lemma_children_members(es: Seq<WalkEntry>, dir: Seq<Seq<char>>)
    ensures
        forall|k: int|
            0 <= k < children_in(es, dir).len() ==> is_child_of(#[trigger] children_in(es, dir)[k], dir)
                && exists|j: int| 0 <= j < es.len() && es[j] == children_in(es, dir)[k],
        forall|j: int|
            0 <= j < es.len() && is_child_of(#[trigger] es[j], dir) ==> exists|k: int|
                0 <= k < children_in(es, dir).len() && children_in(es, dir)[k] == es[j],
    decreases es.len(),
{
    if es.len() > 0 {
        let init = es.drop_last();
        lemma_children_members(init, dir);
        let ks = children_in(es, dir);
        let ks0 = children_in(init, dir);
        assert forall|k: int| 0 <= k < ks.len() implies is_child_of(#[trigger] ks[k], dir)
            && exists|j: int| 0 <= j < es.len() && es[j] == ks[k] by {
            if k < ks0.len() {
                assert(ks[k] == ks0[k]);
                let j = choose|j: int| 0 <= j < init.len() && init[j] == ks0[k];
                assert(es[j] == init[j]);
            } else {
                assert(es[es.len() - 1] == ks[k]);
            }
        }
        assert forall|j: int| 0 <= j < es.len() && is_child_of(#[trigger] es[j], dir) implies exists|k: int|
            0 <= k < ks.len() && ks[k] == es[j] by {
            if j < es.len() - 1 {
                assert(init[j] == es[j]);
                let k = choose|k: int| 0 <= k < ks0.len() && ks0[k] == init[j];
                assert(ks[k] == ks0[k]);
            } else {
                assert(ks[ks.len() - 1] == es[j]);
            }
        }
    }
}

/// A directory whose entries are all plain files lists exactly those files, in
/// the order of the walk, each as a file node without children.
pub proof fn lemma_flat_listing(nodes: Seq<FileNode>, es: Seq<WalkEntry>)
    requires
        file_tree(nodes, es),
        forall|j: int| 0 <= j < es.len() ==> (#[trigger] es[j]).path_view().len() == 1 && !es[j].is_dir,
    ensures
        nodes.len() == es.len(),
        forall|i: int|
            0 <= i < nodes.len() ==> (#[trigger] nodes[i]).kind == NodeKind::File && nodes[i].children is None
                && nodes[i].name@ == es[i].path_view()[0],
{
    lemma_all_top_level(es);
    assert forall|i: int| 0 <= i < nodes.len() implies (#[trigger] nodes[i]).kind == NodeKind::File
        && nodes[i].children is None && nodes[i].name@ == es[i].path_view()[0] by {
        assert(node_of(nodes[i], children_in(es, Seq::empty())[i], es, depth_of(es)));
        assert(es[i].path_view().len() == 1);
    }
}

proof fn lemma_all_top_level(es: Seq<WalkEntry>)
    requires
        forall|j: int| 0 <= j < es.len() ==> (#[trigger] es[j]).path_view().len() == 1,
    ensures
        children_in(es, Seq::empty()) == es,
    decreases es.len(),
{
    if es.len() > 0 {
        let init = es.drop_last();
        assert forall|j: int| 0 <= j < init.len() implies (#[trigger] init[j]).path_view().len() == 1 by {
            assert(init[j] == es[j]);
        }
        lemma_all_top_level(init);
        assert(es[es.len() - 1].path_view().len() == 1);
        assert(es.last().path_view().subrange(0, 0) =~= Seq::<Seq<char>>::empty());
        assert(init.push(es.last()) =~= es);
    }
}

/// Nothing appears in a snapshot that the walk did not find: each node of the
/// directory `dir` stands for an entry at `dir` followed by the node's name,
/// with the same kind. This holds at every level of the tree.
pub proof fn lemma_nodes_come_from_entries(
    nodes: Seq<FileNode>,
    es: Seq<WalkEntry>,
    dir: Seq<Seq<char>>,
    fuel: nat,
)
    requires
        level_of(nodes, es, dir, fuel),
    ensures
        forall|i: int|
            0 <= i < nodes.len() ==> exists|j: int|
                0 <= j < es.len() && es[j].path_view() == dir.push((#[trigger] nodes[i]).name@) && (es[j].is_dir
                    <==> nodes[i].kind == NodeKind::Directory),
{
    lemma_children_members(es, dir);
    let ks = children_in(es, dir);
    assert forall|i: int| 0 <= i < nodes.len() implies exists|j: int|
        0 <= j < es.len() && es[j].path_view() == dir.push((#[trigger] nodes[i]).name@) && (es[j].is_dir
            <==> nodes[i].kind == NodeKind::Directory) by {
        assert(node_of(nodes[i], ks[i], es, fuel));
        assert(is_child_of(ks[i], dir));
        let j = choose|j: int| 0 <= j < es.len() && es[j] == ks[i];
        let pv = ks[i].path_view();
        assert(pv =~= pv.subrange(0, dir.len() as int).push(pv.last()));
    }
}

/// Nothing the walk found is left out: every entry immediately inside `dir`,
/// hidden or not, has a node of the same name and kind among `dir`'s nodes.
pub proof fn lemma_every_entry_listed(
    nodes: Seq<FileNode>,
    es: Seq<WalkEntry>,
    dir: Seq<Seq<char>>,
    fuel: nat,
    j: int,
)
    requires
        level_of(nodes, es, dir, fuel),
        0 <= j < es.len(),
        is_child_of(es[j], dir),
    ensures
        exists|i: int|
            0 <= i < nodes.len() && (#[trigger] nodes[i]).name@ == es[j].path_view().last() && (es[j].is_dir
                <==> nodes[i].kind == NodeKind::Directory),
{
    lemma_children_members(es, dir);
    let ks = children_in(es, dir);
    let k = choose|k: int| 0 <= k < ks.len() && ks[k] == es[j];
    assert(node_of(nodes[k], ks[k], es, fuel));
}

/// A directory with nothing inside it (after the walk's filtering) appears as
/// a directory node with an empty list of children.
pub proof fn lemma_empty_directory(
    nodes: Seq<FileNode>,
    es: Seq<WalkEntry>,
    dir: Seq<Seq<char>>,
    fuel: nat,
    i: int,
)
    requires
        level_of(nodes, es, dir, fuel),
        0 <= i < nodes.len(),
        children_in(es, dir)[i].is_dir,
        children_in(es, children_in(es, dir)[i].path_view()).len() == 0,
    ensures
        nodes[i].kind == NodeKind::Directory,
        nodes[i].children is Some,
        nodes[i].children->0@.len() == 0,
{
    assert(node_of(nodes[i], children_in(es, dir)[i], es, fuel));
}

} // verus!
