//! The decisions of the recursive file collection: which path to look at
//! next, and in what order a directory's entries are visited. The caller
//! does the file-system queries and reports what it found.

use vstd::prelude::*;
use crate::paths::text_of;
use crate::text::{chars_of, string_texts};

verus! {

broadcast use vstd::seq_lib::group_to_multiset_ensures;

/// Code-point order of names, which is the byte order of their UTF-8 form
/// (the order of `OsStr`).
pub open spec fn name_le(a: Seq<char>, b: Seq<char>) -> bool
    decreases a.len(),
{
    if a.len() == 0 {
        true
    } else if b.len() == 0 {
        false
    } else if a[0] != b[0] {
        a[0] < b[0]
    } else {
        name_le(a.drop_first(), b.drop_first())
    }
}

/// One entry of a listed directory.
pub struct ListedEntry {
    /// The entry's file name.
    pub name: String,
    /// The entry's full path.
    pub path: String,
}

/// `e` inserted into `sorted` after every entry whose name is not greater.
pub open spec fn insert_by_name(sorted: Seq<ListedEntry>, e: ListedEntry) -> Seq<ListedEntry>
    decreases sorted.len(),
{
    if sorted.len() == 0 {
        seq![e]
    } else if name_le(sorted.last().name@, e.name@) {
        sorted.push(e)
    } else {
        insert_by_name(sorted.drop_last(), e).push(sorted.last())
    }
}

/// Entries in ascending name order; entries with equal names keep their
/// relative order (a stable sort by name).
pub open spec fn sort_by_name(entries: Seq<ListedEntry>) -> Seq<ListedEntry>
    decreases entries.len(),
{
    if entries.len() == 0 {
        seq![]
    } else {
        insert_by_name(sort_by_name(entries.drop_last()), entries.last())
    }
}

/// Whether `entries` are in ascending name order.
pub open spec fn sorted_by_name(entries: Seq<ListedEntry>) -> bool {
    forall|i: int, j: int|
        0 <= i < j < entries.len() ==> name_le(#[trigger] entries[i].name@, #[trigger] entries[j].name@)
}

/// Any two names are ordered one way or the other.
pub proof fn lemma_name_le_total(a: Seq<char>, b: Seq<char>)
    ensures
        name_le(a, b) || name_le(b, a),
    decreases a.len(),
{
    if a.len() > 0 && b.len() > 0 && a[0] == b[0] {
        lemma_name_le_total(a.drop_first(), b.drop_first());
    }
}

/// The name order is transitive.
pub proof fn lemma_name_le_transitive(a: Seq<char>, b: Seq<char>, c: Seq<char>)
    requires
        name_le(a, b),
        name_le(b, c),
    ensures
        name_le(a, c),
    decreases a.len(),
{
    if a.len() > 0 && b.len() > 0 && c.len() > 0 && a[0] == b[0] && b[0] == c[0] {
        lemma_name_le_transitive(a.drop_first(), b.drop_first(), c.drop_first());
    }
}

proof fn lemma_insert_by_name(sorted: Seq<ListedEntry>, e: ListedEntry)
    requires
        sorted_by_name(sorted),
    ensures
        sorted_by_name(insert_by_name(sorted, e)),
        insert_by_name(sorted, e).to_multiset() == sorted.to_multiset().insert(e),
    decreases sorted.len(),
{
    if sorted.len() == 0 {
        assert(insert_by_name(sorted, e).to_multiset() =~= Seq::<ListedEntry>::empty().push(e).to_multiset());
    } else if name_le(sorted.last().name@, e.name@) {
        let r = sorted.push(e);
        assert forall|i: int, j: int| 0 <= i < j < r.len() implies name_le(#[trigger] r[i].name@, #[trigger] r[j].name@) by {
            if j == r.len() - 1 && i < sorted.len() - 1 {
                lemma_name_le_transitive(r[i].name@, sorted.last().name@, e.name@);
            }
        }
    } else {
        let front = sorted.drop_last();
        let last = sorted.last();
        assert(sorted_by_name(front));
        lemma_insert_by_name(front, e);
        let r = insert_by_name(front, e);
        lemma_name_le_total(last.name@, e.name@);
        assert forall|x: ListedEntry| r.contains(x) implies name_le(x.name@, last.name@) by {
            assert(r.to_multiset().count(x) > 0);
            if x != e {
                assert(front.to_multiset().count(x) > 0);
                assert(front.contains(x));
                let k = choose|k: int| 0 <= k < front.len() && front[k] == x;
                assert(sorted[k] == x);
            }
        }
        let out = r.push(last);
        assert forall|i: int, j: int| 0 <= i < j < out.len() implies name_le(#[trigger] out[i].name@, #[trigger] out[j].name@) by {
            if j == out.len() - 1 {
                assert(r.contains(out[i]));
            }
        }
        assert(out.to_multiset() =~= sorted.to_multiset().insert(e)) by {
            assert(sorted =~= front.push(last));
        }
    }
}

/// Sorting by name yields entries in ascending name order that are a
/// rearrangement of the input.
pub proof fn lemma_sort_by_name(entries: Seq<ListedEntry>)
    ensures
        sorted_by_name(sort_by_name(entries)),
        sort_by_name(entries).to_multiset() == entries.to_multiset(),
    decreases entries.len(),
{
    if entries.len() == 0 {
        assert(sort_by_name(entries).to_multiset() =~= entries.to_multiset());
    } else {
        lemma_sort_by_name(entries.drop_last());
        lemma_insert_by_name(sort_by_name(entries.drop_last()), entries.last());
        assert(entries =~= entries.drop_last().push(entries.last()));
    }
}

fn chars_le(a: &Vec<char>, b: &Vec<char>) -> (le: bool)
    ensures
        le == name_le(a@, b@),
{
    let mut i: usize = 0;
    assert(a@.skip(0) =~= a@);
    assert(b@.skip(0) =~= b@);
    while i < a.len() && i < b.len() && a[i] == b[i]
        invariant
            i <= a.len(),
            i <= b.len(),
            name_le(a@, b@) == name_le(a@.skip(i as int), b@.skip(i as int)),
        decreases a.len() - i,
    {
        assert(a@.skip(i as int).drop_first() =~= a@.skip(i + 1));
        assert(b@.skip(i as int).drop_first() =~= b@.skip(i + 1));
        i = i + 1;
    }
    if i == a.len() {
        true
    } else if i == b.len() {
        false
    } else {
        a[i] < b[i]
    }
}

#[verifier::spinoff_prover]
fn insert_position(keys: &Vec<Vec<char>>, key: &Vec<char>, Ghost(sorted): Ghost<Seq<ListedEntry>>, Ghost(e): Ghost<ListedEntry>) -> (pos: usize)
    requires
        keys@.len() == sorted.len(),
        forall|j: int| 0 <= j < sorted.len() ==> #[trigger] keys@[j]@ == sorted[j].name@,
        key@ == e.name@,
    ensures
        pos <= sorted.len(),
        insert_by_name(sorted, e) == sorted.insert(pos as int, e),
{
    let mut pos = keys.len();
    assert(sorted.take(pos as int) =~= sorted);
    assert(sorted.skip(pos as int) =~= Seq::<ListedEntry>::empty());
    while pos > 0 && !chars_le(&keys[pos - 1], key)
        invariant
            pos <= sorted.len(),
            keys@.len() == sorted.len(),
            forall|j: int| 0 <= j < sorted.len() ==> #[trigger] keys@[j]@ == sorted[j].name@,
            key@ == e.name@,
            insert_by_name(sorted, e)
                == insert_by_name(sorted.take(pos as int), e) + sorted.skip(pos as int),
        decreases pos,
    {
        let ghost front = sorted.take(pos as int);
        assert(front.drop_last() =~= sorted.take(pos - 1));
        assert(front.last() == sorted[pos - 1]);
        assert(sorted.skip(pos - 1) =~= seq![sorted[pos - 1]] + sorted.skip(pos as int));
        assert(insert_by_name(sorted.take(pos - 1), e).push(sorted[pos - 1]) + sorted.skip(pos as int)
            =~= insert_by_name(sorted.take(pos - 1), e) + sorted.skip(pos - 1));
        pos = pos - 1;
    }
    assert(insert_by_name(sorted, e) =~= sorted.insert(pos as int, e));
    pos
}

/// The entries sorted by name, as `sort_by_name` defines.
pub fn sorted_entries(entries: Vec<ListedEntry>) -> (sorted: Vec<ListedEntry>)
    ensures
        sorted@ == sort_by_name(entries@),
{
    let ghost all = entries@;
    let mut rest = entries;
    let mut sorted: Vec<ListedEntry> = Vec::new();
    let mut keys: Vec<Vec<char>> = Vec::new();
    let ghost mut k: int = 0;
    assert(all.take(0) =~= Seq::<ListedEntry>::empty());
    while rest.len() > 0
        invariant
            0 <= k <= all.len(),
            rest@ == all.skip(k),
            sorted@ == sort_by_name(all.take(k)),
            keys@.len() == sorted@.len(),
            forall|j: int| 0 <= j < sorted@.len() ==> #[trigger] keys@[j]@ == sorted@[j].name@,
        decreases rest.len(),
    {
        let e = rest.remove(0);
        let key = chars_of(e.name.as_str());
        let pos = insert_position(&keys, &key, Ghost(sorted@), Ghost(e));
        assert(all.take(k + 1).drop_last() =~= all.take(k));
        assert(all.take(k + 1).last() == e);
        sorted.insert(pos, e);
        keys.insert(pos, key);
        proof {
            k = k + 1;
            assert(rest@ =~= all.skip(k));
            assert forall|j: int| 0 <= j < sorted@.len() implies #[trigger] keys@[j]@ == sorted@[j].name@ by {
                if j < pos {
                } else if j > pos {
                }
            }
        }
    }
    assert(all.take(k) =~= all);
    sorted
}

/// The paths of `entries`, last entry first: the order in which a stack
/// that pops from the end hands them out in the entries' order.
pub open spec fn stacked_paths(entries: Seq<ListedEntry>) -> Seq<Seq<char>> {
    Seq::new(entries.len(), |i: int| entries[entries.len() - 1 - i].path@)
}

/// What the file system holds at a path, as the walk comes to know it.
pub enum FsTree {
    /// A file.
    File,
    /// A directory whose entries, in name order, are these.
    Directory(Seq<FsChild>),
    /// Neither a file nor a readable directory.
    Neither,
}

/// A directory entry together with what lies at its path.
pub struct FsChild {
    /// The entry as the directory lists it.
    pub entry: ListedEntry,
    /// What lies at the entry's path.
    pub tree: FsTree,
}

/// The files at and below `path`, where `tree` lies: the path itself when
/// it is a file, else the files of each entry in turn, depth first.
pub open spec fn tree_files(path: Seq<char>, tree: FsTree) -> Seq<Seq<char>>
    decreases tree,
{
    match tree {
        FsTree::File => seq![path],
        FsTree::Directory(children) => forest_files(children),
        FsTree::Neither => seq![],
    }
}

/// The files at and below each child in turn.
pub open spec fn forest_files(children: Seq<FsChild>) -> Seq<Seq<char>>
    decreases children,
{
    if children.len() == 0 {
        seq![]
    } else {
        forest_files(children.drop_last()) + tree_files(children.last().entry.path@, children.last().tree)
    }
}

/// The files still to be found below the pending paths, where `trees`
/// lie: the last pending path's files first.
pub open spec fn pending_files(pending: Seq<Seq<char>>, trees: Seq<FsTree>) -> Seq<Seq<char>>
    decreases pending.len(),
{
    if pending.len() == 0 || trees.len() == 0 {
        seq![]
    } else {
        tree_files(pending.last(), trees.last()) + pending_files(pending.drop_last(), trees.drop_last())
    }
}

/// The entries of children.
pub open spec fn child_entries(children: Seq<FsChild>) -> Seq<ListedEntry> {
    Seq::new(children.len(), |i: int| children[i].entry)
}

/// The trees of children, last child first (the order `stacked_paths` gives their paths).
pub open spec fn stacked_trees(children: Seq<FsChild>) -> Seq<FsTree> {
    Seq::new(children.len(), |i: int| children[children.len() - 1 - i].tree)
}

proof fn lemma_stacked_children(pending: Seq<Seq<char>>, trees: Seq<FsTree>, children: Seq<FsChild>)
    requires
        pending.len() == trees.len(),
    ensures
        pending_files(pending + stacked_paths(child_entries(children)), trees + stacked_trees(children))
            == forest_files(children) + pending_files(pending, trees),
    decreases children.len(),
{
    if children.len() == 0 {
        assert(pending + stacked_paths(child_entries(children)) =~= pending);
        assert(trees + stacked_trees(children) =~= trees);
        assert(forest_files(children) + pending_files(pending, trees) =~= pending_files(pending, trees));
    } else {
        let front = children.drop_last();
        let last = children.last();
        let p2 = pending.push(last.entry.path@);
        let t2 = trees.push(last.tree);
        lemma_stacked_children(p2, t2, front);
        assert(p2 + stacked_paths(child_entries(front)) =~= pending + stacked_paths(child_entries(children)));
        assert(t2 + stacked_trees(front) =~= trees + stacked_trees(children));
        assert(p2.drop_last() =~= pending);
        assert(t2.drop_last() =~= trees);
        assert(forest_files(front) + (tree_files(last.entry.path@, last.tree) + pending_files(pending, trees))
            =~= forest_files(children) + pending_files(pending, trees));
    }
}

/// The walk loses no file and finds none twice: when the caller reports a
/// file at the next path, the files found so far followed by those still
/// to be found below the pending paths stay the same.
pub proof fn lemma_file_visit_keeps_files(pending: Seq<Seq<char>>, trees: Seq<FsTree>, found: Seq<Seq<char>>)
    requires
        pending.len() == trees.len(),
        pending.len() > 0,
        trees.last() == FsTree::File,
    ensures
        found.push(pending.last()) + pending_files(pending.drop_last(), trees.drop_last())
            == found + pending_files(pending, trees),
{
    assert(found.push(pending.last()) + pending_files(pending.drop_last(), trees.drop_last())
        =~= found + pending_files(pending, trees));
}

/// Dropping a path that is neither a file nor a readable directory keeps
/// the files found so far and those still to be found.
pub proof fn lemma_skip_keeps_files(pending: Seq<Seq<char>>, trees: Seq<FsTree>, found: Seq<Seq<char>>)
    requires
        pending.len() == trees.len(),
        pending.len() > 0,
        trees.last() == FsTree::Neither,
    ensures
        found + pending_files(pending.drop_last(), trees.drop_last()) == found + pending_files(pending, trees),
{
    assert(pending_files(pending, trees) =~= pending_files(pending.drop_last(), trees.drop_last()));
}

/// When the caller reports a directory with its entries (in any order),
/// the walk's new pending paths hold exactly the directory's files, in
/// name order of its entries, ahead of what was pending before.
pub proof fn lemma_directory_visit_keeps_files(
    pending: Seq<Seq<char>>,
    trees: Seq<FsTree>,
    found: Seq<Seq<char>>,
    entries: Seq<ListedEntry>,
    children: Seq<FsChild>,
)
    requires
        pending.len() == trees.len(),
        pending.len() > 0,
        trees.last() == FsTree::Directory(children),
        child_entries(children) == sort_by_name(entries),
    ensures
        found + pending_files(
            pending.drop_last() + stacked_paths(sort_by_name(entries)),
            trees.drop_last() + stacked_trees(children),
        ) == found + pending_files(pending, trees),
{
    lemma_stacked_children(pending.drop_last(), trees.drop_last(), children);
    assert(found + (forest_files(children) + pending_files(pending.drop_last(), trees.drop_last()))
        =~= found + pending_files(pending, trees));
}

/// A walk starts with nothing found and the root's files pending, and when
/// nothing is pending, what it found is all there was.
pub proof fn lemma_walk_bounds(root: Seq<char>, tree: FsTree, found: Seq<Seq<char>>)
    ensures
        Seq::<Seq<char>>::empty() + pending_files(seq![root], seq![tree]) == tree_files(root, tree),
        found + pending_files(Seq::<Seq<char>>::empty(), Seq::<FsTree>::empty()) == found,
{
    assert(seq![root].drop_last() =~= Seq::<Seq<char>>::empty());
    assert(seq![tree].drop_last() =~= Seq::<FsTree>::empty());
    assert(seq![root].last() == root);
    assert(seq![tree].last() == tree);
    assert(pending_files(Seq::<Seq<char>>::empty(), Seq::<FsTree>::empty()) == Seq::<Seq<char>>::empty());
    assert(pending_files(seq![root], seq![tree]) =~= tree_files(root, tree) + Seq::<Seq<char>>::empty());
    assert(Seq::<Seq<char>>::empty() + pending_files(seq![root], seq![tree]) =~= tree_files(root, tree));
    assert(found + pending_files(Seq::<Seq<char>>::empty(), Seq::<FsTree>::empty()) =~= found);
}

/// How many paths (files, directories and others) `tree` holds.
pub open spec fn tree_nodes(tree: FsTree) -> nat
    decreases tree,
{
    match tree {
        FsTree::Directory(children) => 1 + forest_nodes(children),
        _ => 1,
    }
}

/// How many paths the children hold.
pub open spec fn forest_nodes(children: Seq<FsChild>) -> nat
    decreases children,
{
    if children.len() == 0 {
        0
    } else {
        forest_nodes(children.drop_last()) + tree_nodes(children.last().tree)
    }
}

/// How many paths the trees hold together.
pub open spec fn pending_nodes(trees: Seq<FsTree>) -> nat
    decreases trees.len(),
{
    if trees.len() == 0 {
        0
    } else {
        pending_nodes(trees.drop_last()) + tree_nodes(trees.last())
    }
}

/// Paths held by trees side by side add up.
pub proof fn lemma_pending_nodes_concat(a: Seq<FsTree>, b: Seq<FsTree>)
    ensures
        pending_nodes(a + b) == pending_nodes(a) + pending_nodes(b),
    decreases b.len(),
{
    if b.len() == 0 {
        assert(a + b =~= a);
    } else {
        lemma_pending_nodes_concat(a, b.drop_last());
        assert((a + b).drop_last() =~= a + b.drop_last());
        assert((a + b).last() == b.last());
    }
}

/// Putting a directory's entries in its place leaves fewer paths pending.
pub proof fn lemma_directory_nodes(trees: Seq<FsTree>, children: Seq<FsChild>)
    requires
        trees.len() > 0,
        trees.last() == FsTree::Directory(children),
    ensures
        pending_nodes(trees.drop_last() + stacked_trees(children)) < pending_nodes(trees),
{
    lemma_stacked_nodes(children);
    lemma_pending_nodes_concat(trees.drop_last(), stacked_trees(children));
}

/// The children's trees, stacked, hold the paths that the children hold.
pub proof fn lemma_stacked_nodes(children: Seq<FsChild>)
    ensures
        pending_nodes(stacked_trees(children)) == forest_nodes(children),
    decreases children.len(),
{
    if children.len() > 0 {
        let front = children.drop_last();
        let t = children.last().tree;
        lemma_stacked_nodes(front);
        assert(stacked_trees(children) =~= seq![t] + stacked_trees(front));
        lemma_pending_nodes_concat(seq![t], stacked_trees(front));
        assert(seq![t].drop_last() =~= Seq::<FsTree>::empty());
        assert(seq![t].last() == t);
        assert(pending_nodes(Seq::<FsTree>::empty()) == 0);
        assert(pending_nodes(seq![t]) == tree_nodes(t));
    }
}

/// What a walk ends having found, from the pending paths (where `trees`
/// lie) with `found` found so far, when each report tells what lies at the
/// path asked about: a file is found, a path that is neither file nor
/// readable directory is dropped, and a directory's entries, in name order,
/// take its place.
pub open spec fn walk_outcome(pending: Seq<Seq<char>>, trees: Seq<FsTree>, found: Seq<Seq<char>>) -> Seq<
    Seq<char>,
>
    decreases pending_nodes(trees),
{
    if pending.len() == 0 || trees.len() == 0 {
        found
    } else {
        match trees.last() {
            FsTree::File => walk_outcome(pending.drop_last(), trees.drop_last(), found.push(pending.last())),
            FsTree::Neither => walk_outcome(pending.drop_last(), trees.drop_last(), found),
            FsTree::Directory(children) => {
                proof {
                    lemma_directory_nodes(trees, children);
                }
                walk_outcome(
                    pending.drop_last() + stacked_paths(child_entries(children)),
                    trees.drop_last() + stacked_trees(children),
                    found,
                )
            },
        }
    }
}

proof fn lemma_walk_outcome(pending: Seq<Seq<char>>, trees: Seq<FsTree>, found: Seq<Seq<char>>)
    requires
        pending.len() == trees.len(),
    ensures
        walk_outcome(pending, trees, found) == found + pending_files(pending, trees),
    decreases pending_nodes(trees),
{
    if pending.len() == 0 {
        assert(found + pending_files(pending, trees) =~= found);
    } else {
        match trees.last() {
            FsTree::File => {
                lemma_file_visit_keeps_files(pending, trees, found);
                lemma_walk_outcome(pending.drop_last(), trees.drop_last(), found.push(pending.last()));
            },
            FsTree::Neither => {
                lemma_skip_keeps_files(pending, trees, found);
                lemma_walk_outcome(pending.drop_last(), trees.drop_last(), found);
            },
            FsTree::Directory(children) => {
                lemma_directory_nodes(trees, children);
                lemma_stacked_children(pending.drop_last(), trees.drop_last(), children);
                lemma_walk_outcome(
                    pending.drop_last() + stacked_paths(child_entries(children)),
                    trees.drop_last() + stacked_trees(children),
                    found,
                );
                assert(found + (forest_files(children) + pending_files(pending.drop_last(), trees.drop_last()))
                    =~= found + pending_files(pending, trees));
            },
        }
    }
}

/// The walk finds every file once and nothing else: started at `root`,
/// where `tree` lies, with each report telling what lies at the path asked
/// about, it ends having found exactly the files at and below the root,
/// depth first, each directory's entries in name order.
pub proof fn lemma_walk_finds_every_file(root: Seq<char>, tree: FsTree)
    ensures
        walk_outcome(seq![root], seq![tree], Seq::<Seq<char>>::empty()) == tree_files(root, tree),
{
    lemma_walk_outcome(seq![root], seq![tree], Seq::<Seq<char>>::empty());
    lemma_walk_bounds(root, tree, Seq::<Seq<char>>::empty());
}

/// The route to each file at and below `tree`: the names of the entries
/// passed on the way down, one route per file in the order `tree_files`
/// lists the files.
pub open spec fn tree_routes(tree: FsTree) -> Seq<Seq<Seq<char>>>
    decreases tree,
{
    match tree {
        FsTree::File => seq![Seq::<Seq<char>>::empty()],
        FsTree::Directory(children) => forest_routes(children),
        FsTree::Neither => seq![],
    }
}

/// The routes below each child in turn, each led by the child's name.
pub open spec fn forest_routes(children: Seq<FsChild>) -> Seq<Seq<Seq<char>>>
    decreases children,
{
    if children.len() == 0 {
        seq![]
    } else {
        forest_routes(children.drop_last()) + below(children.last().entry.name@, tree_routes(children.last().tree))
    }
}

/// `routes`, each led by `name`.
pub open spec fn below(name: Seq<char>, routes: Seq<Seq<Seq<char>>>) -> Seq<Seq<Seq<char>>> {
    Seq::new(routes.len(), |i: int| seq![name] + routes[i])
}

/// Lexicographic order of routes, names compared by `name_le`.
pub open spec fn route_le(r1: Seq<Seq<char>>, r2: Seq<Seq<char>>) -> bool
    decreases r1.len(),
{
    if r1.len() == 0 {
        true
    } else if r2.len() == 0 {
        false
    } else if r1[0] != r2[0] {
        name_le(r1[0], r2[0])
    } else {
        route_le(r1.drop_first(), r2.drop_first())
    }
}

/// Each route comes strictly before every later one.
pub open spec fn routes_ascending(routes: Seq<Seq<Seq<char>>>) -> bool {
    forall|i: int, j: int|
        0 <= i < j < routes.len() ==> route_le(#[trigger] routes[i], #[trigger] routes[j]) && routes[i] != routes[j]
}

/// The children's names, which a directory holds once each, come in
/// strictly increasing name order.
pub open spec fn names_ascending(children: Seq<FsChild>) -> bool {
    forall|k: int, l: int|
        0 <= k < l < children.len() ==> name_le(#[trigger] children[k].entry.name@, #[trigger] children[l].entry.name@)
            && children[k].entry.name@ != children[l].entry.name@
}

/// Every directory at and below `tree` lists its entries in strictly
/// increasing name order.
pub open spec fn tree_names_ascending(tree: FsTree) -> bool
    decreases tree,
{
    match tree {
        FsTree::Directory(children) => forest_names_ascending(children),
        _ => true,
    }
}

/// `children` in strictly increasing name order, and so below each child.
pub open spec fn forest_names_ascending(children: Seq<FsChild>) -> bool
    decreases children,
{
    if children.len() == 0 {
        true
    } else {
        names_ascending(children) && forest_names_ascending(children.drop_last()) && tree_names_ascending(
            children.last().tree,
        )
    }
}

proof fn lemma_below_keeps_order(name: Seq<char>, routes: Seq<Seq<Seq<char>>>)
    requires
        routes_ascending(routes),
    ensures
        routes_ascending(below(name, routes)),
        forall|i: int| 0 <= i < routes.len() ==> (#[trigger] below(name, routes)[i]).len() > 0 && below(name, routes)[i][0] == name,
{
    let b = below(name, routes);
    assert forall|i: int, j: int| 0 <= i < j < b.len() implies route_le(#[trigger] b[i], #[trigger] b[j]) && b[i] != b[j] by {
        assert(b[i].drop_first() =~= routes[i]);
        assert(b[j].drop_first() =~= routes[j]);
        assert(b[i][0] == b[j][0]);
        assert(route_le(routes[i], routes[j]));
    }
    assert forall|i: int| 0 <= i < routes.len() implies (#[trigger] below(name, routes)[i]).len() > 0 && below(name, routes)[i][0] == name by {
        assert(b[i][0] == name);
    }
}

/// Files come out in route order: the walk, visiting each directory's
/// entries in name order and going depth first, finds the files at and
/// below `tree` (its `tree_files`, one per route) so that each file's route
/// comes strictly before that of every file found after it, where every
/// directory lists its entries, which have distinct names, in name order.
pub proof fn lemma_files_in_route_order(path: Seq<char>, tree: FsTree)
    ensures
        tree_routes(tree).len() == tree_files(path, tree).len(),
        tree_names_ascending(tree) ==> routes_ascending(tree_routes(tree)),
    decreases tree,
{
    match tree {
        FsTree::Directory(children) => {
            lemma_forest_in_route_order(children);
        },
        _ => {},
    }
}

proof fn lemma_forest_in_route_order(children: Seq<FsChild>)
    ensures
        forest_routes(children).len() == forest_files(children).len(),
        forest_names_ascending(children) ==> routes_ascending(forest_routes(children)),
        forall|i: int|
            0 <= i < forest_routes(children).len() ==> (#[trigger] forest_routes(children)[i]).len() > 0 && exists|k: int|
                0 <= k < children.len() && forest_routes(children)[i][0] == children[k].entry.name@,
    decreases children,
{
    if children.len() > 0 {
        let front = children.drop_last();
        let last = children.last();
        lemma_forest_in_route_order(front);
        lemma_files_in_route_order(last.entry.path@, last.tree);
        let a = forest_routes(front);
        let sub = tree_routes(last.tree);
        let b = below(last.entry.name@, sub);
        let rs = forest_routes(children);
        assert(rs == a + b);
        assert forall|i: int| 0 <= i < rs.len() implies (#[trigger] rs[i]).len() > 0 && exists|k: int|
            0 <= k < children.len() && rs[i][0] == children[k].entry.name@ by {
            if i < a.len() {
                let k = choose|k: int| 0 <= k < front.len() && a[i][0] == front[k].entry.name@;
                assert(rs[i][0] == children[k].entry.name@);
            } else {
                assert(rs[i] == seq![last.entry.name@] + sub[i - a.len()]);
                assert(rs[i][0] == children[children.len() - 1].entry.name@);
            }
        }
        if forest_names_ascending(children) {
            assert(names_ascending(front)) by {
                assert forall|k: int, l: int| 0 <= k < l < front.len() implies name_le(#[trigger] front[k].entry.name@, #[trigger] front[l].entry.name@)
                    && front[k].entry.name@ != front[l].entry.name@ by {
                    assert(front[k] == children[k]);
                    assert(front[l] == children[l]);
                }
            }
            lemma_below_keeps_order(last.entry.name@, sub);
            assert forall|i: int, j: int| 0 <= i < j < rs.len() implies route_le(#[trigger] rs[i], #[trigger] rs[j]) && rs[i] != rs[j] by {
                if j < a.len() {
                    assert(rs[i] == a[i] && rs[j] == a[j]);
                } else if i >= a.len() {
                    assert(rs[i] == b[i - a.len()] && rs[j] == b[j - a.len()]);
                } else {
                    let k = choose|k: int| 0 <= k < front.len() && a[i][0] == front[k].entry.name@;
                    let n = children.len() - 1;
                    assert(children[k] == front[k]);
                    assert(name_le(children[k].entry.name@, children[n].entry.name@)
                        && children[k].entry.name@ != children[n].entry.name@);
                    assert(rs[j] == b[j - a.len()]);
                    assert(rs[j][0] == last.entry.name@);
                    assert(rs[i][0] == a[i][0]);
                    assert(rs[i][0] != rs[j][0]);
                }
            }
        }
    }
}

/// Recursive collection of the files under a path, one query at a time:
/// the walk names the next path to look at, the caller reports whether it
/// is a file, a directory (with its entries) or neither. Files come out in
/// depth-first order, each directory's entries visited in name order.
pub struct FileWalk {
    pending: Vec<String>,
    files: Vec<String>,
}

impl FileWalk {
    /// Paths still to look at; the last is looked at next.
    pub closed spec fn pending_paths(&self) -> Seq<Seq<char>> {
        string_texts(self.pending@)
    }

    /// Files found so far, in order.
    pub closed spec fn found_files(&self) -> Seq<Seq<char>> {
        string_texts(self.files@)
    }

    /// A walk that starts at `root`.
    pub fn new(root: String) -> (walk: Self)
        ensures
            walk.pending_paths() == seq![root@],
            walk.found_files() == Seq::<Seq<char>>::empty(),
    {
        let mut pending: Vec<String> = Vec::new();
        pending.push(root);
        let walk = FileWalk { pending, files: Vec::new() };
        assert(walk.pending_paths() =~= seq![walk.pending@[0]@]);
        assert(walk.found_files() =~= Seq::<Seq<char>>::empty());
        walk
    }

    /// The path to look at next, or nothing when the walk is over.
    pub fn next_path(&self) -> (next: Option<String>)
        ensures
            text_of(next) == (if self.pending_paths().len() == 0 {
                None
            } else {
                Some(self.pending_paths().last())
            }),
    {
        let n = self.pending.len();
        if n == 0 {
            None
        } else {
            Some(self.pending[n - 1].clone())
        }
    }

    /// Whether every path has been looked at.
    pub fn is_done(&self) -> (done: bool)
        ensures
            done == (self.pending_paths().len() == 0),
    {
        self.pending.len() == 0
    }

    /// The path handed out by `next_path` is a file: it is collected.
    pub fn visit_file(&mut self)
        ensures
            old(self).pending_paths().len() == 0 ==> final(self).pending_paths() == old(self).pending_paths()
                && final(self).found_files() == old(self).found_files(),
            old(self).pending_paths().len() > 0 ==> final(self).pending_paths()
                == old(self).pending_paths().drop_last() && final(self).found_files()
                == old(self).found_files().push(old(self).pending_paths().last()),
    {
        match self.pending.pop() {
            Some(path) => {
                self.files.push(path);
                assert(self.pending_paths() =~= old(self).pending_paths().drop_last());
                assert(self.found_files() =~= old(self).found_files().push(
                    old(self).pending_paths().last(),
                ));
            },
            None => {},
        }
    }

    /// The path handed out by `next_path` is neither a file nor a readable
    /// directory: it is dropped.
    pub fn skip_path(&mut self)
        ensures
            final(self).pending_paths() == (if old(self).pending_paths().len() == 0 {
                old(self).pending_paths()
            } else {
                old(self).pending_paths().drop_last()
            }),
            final(self).found_files() == old(self).found_files(),
    {
        let _ = self.pending.pop();
        assert(self.pending_paths() =~= (if old(self).pending_paths().len() == 0 {
            old(self).pending_paths()
        } else {
            old(self).pending_paths().drop_last()
        }));
    }

    /// The path handed out by `next_path` is a directory holding `entries`:
    /// they are looked at next, in name order, before anything else pending.
    pub fn visit_directory(&mut self, entries: Vec<ListedEntry>)
        ensures
            final(self).pending_paths() == (if old(self).pending_paths().len() == 0 {
                old(self).pending_paths()
            } else {
                old(self).pending_paths().drop_last() + stacked_paths(sort_by_name(entries@))
            }),
            final(self).found_files() == old(self).found_files(),
    {
        if self.pending.len() == 0 {
            return;
        }
        let _ = self.pending.pop();
        let ghost base = self.pending_paths();
        let sorted = sorted_entries(entries);
        let ghost order = sorted@;
        let mut rest = sorted;
        while rest.len() > 0
            invariant
                rest@ == order.take(rest@.len() as int),
                rest@.len() <= order.len(),
                self.pending_paths() == base + stacked_paths(order).take(
                    order.len() - rest@.len(),
                ),
                self.found_files() == old(self).found_files(),
            decreases rest.len(),
        {
            let ghost before = self.pending_paths();
            let ghost m = rest@.len();
            let e = rest.pop().unwrap();
            assert(e == order[m - 1]);
            assert(stacked_paths(order)[order.len() - m] == e.path@);
            self.pending.push(e.path);
            proof {
                assert(self.pending_paths() =~= before.push(e.path@));
                assert(rest@ =~= order.take(rest@.len() as int));
                assert(self.pending_paths() =~= base + stacked_paths(order).take(
                    order.len() - rest@.len(),
                ));
            }
        }
        assert(stacked_paths(order).take(order.len() as int) =~= stacked_paths(order));
    }

    /// The files found, in the order they were found.
    pub fn into_files(self) -> (files: Vec<String>)
        ensures
            string_texts(files@) == self.found_files(),
    {
        self.files
    }
}

} // verus!
