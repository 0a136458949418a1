//! Directory trees, and what a traversal hands out of them.
//!
//! A tree stands for what the file system holds below one directory. Running
//! the walker's steps against a tree gives the sequence of entries that a
//! traversal hands out; the laws at the end say which entries these are.

use crate::dir_walker::{step, WalkAction, WalkEvent, WalkState};
use vstd::multiset::Multiset;
use vstd::prelude::*;

verus! {

/// A file, or a directory with its entries in the order in which it lists
/// them. `N` is what an entry is named by.
pub ghost enum Tree<N> {
    File(N),
    Dir(N, Seq<Tree<N>>),
}

impl<N> Tree<N> {
    /// What the stream of this directory gives; nothing for a file.
    pub open spec fn entries(self) -> Seq<Tree<N>> {
        match self {
            Tree::File(_) => Seq::empty(),
            Tree::Dir(_, entries) => entries,
        }
    }

    /// The number of files and directories in the tree, itself included.
    pub open spec fn size(self) -> nat
        decreases self,
    {
        match self {
            Tree::File(_) => 1,
            Tree::Dir(_, entries) => 1 + size_of(entries),
        }
    }

    /// The regular files of the tree, at any depth, each as often as it
    /// stands there.
    pub open spec fn files(self) -> Multiset<Tree<N>>
        decreases self,
    {
        match self {
            Tree::File(_) => Multiset::singleton(self),
            Tree::Dir(_, entries) => files_of(entries),
        }
    }
}

/// The number of files and directories in a sequence of trees.
pub open spec fn size_of<N>(trees: Seq<Tree<N>>) -> nat
    decreases trees,
{
    if trees.len() == 0 {
        0
    } else {
        size_of(trees.drop_last()) + trees.last().size()
    }
}

/// The regular files in a sequence of trees.
pub open spec fn files_of<N>(trees: Seq<Tree<N>>) -> Multiset<Tree<N>>
    decreases trees,
{
    if trees.len() == 0 {
        Multiset::empty()
    } else {
        files_of(trees.drop_last()).add(trees.last().files())
    }
}

/// The event that a stream gives next: its first entry, or its end.
pub open spec fn next_event<N>(stream: Seq<Tree<N>>) -> WalkEvent<Tree<N>> {
    if stream.len() > 0 {
        WalkEvent::Entry { entry: stream[0], is_dir: stream[0] is Dir }
    } else {
        WalkEvent::EndOfDirectory
    }
}

/// The entries that a traversal in `state` hands out from now on, while
/// `stream` is what the current directory has still to give: the walker is
/// handed one event after the other and each of its answers is carried out.
/// Everything in the tree can be read.
pub open spec fn walk<N>(state: WalkState<Tree<N>>, stream: Seq<Tree<N>>) -> Seq<Tree<N>>
    decreases size_of(state.pending) + size_of(stream), stream.len(),
    via walk_decreases::<N>
{
    let (next, action) = step(state, next_event(stream));
    match action {
        WalkAction::Yield(entry) => seq![entry] + walk(next, stream.skip(1)),
        WalkAction::Pull => walk(next, stream.skip(1)),
        WalkAction::Open(dir) => walk(next, dir.entries()),
        WalkAction::Done | WalkAction::Abort => Seq::empty(),
    }
}

#[via_fn]
proof fn walk_decreases<N>(state: WalkState<Tree<N>>, stream: Seq<Tree<N>>) {
    let (next, action) = step(state, next_event(stream));
    if stream.len() > 0 {
        lemma_size_of_first(stream);
        lemma_size_of_push(state.pending, stream[0]);
    } else if state.pending.len() > 0 {
        assert(size_of(stream) == 0);
        let dir = state.pending.last();
        assert(dir.size() == 1 + size_of(dir.entries()));
    }
}

/// The entries that a traversal of the tree below `root` hands out.
pub open spec fn walk_all<N>(root: Tree<N>, recursive: bool) -> Seq<Tree<N>> {
    walk(WalkState { recursive, pending: seq![root], done: false }, Seq::empty())
}

/// A sequence of trees with one more tree holds the nodes of both.
pub proof fn lemma_size_of_push<N>(trees: Seq<Tree<N>>, tree: Tree<N>)
    ensures
        size_of(trees.push(tree)) == size_of(trees) + tree.size(),
        tree.size() >= 1,
{
    assert(trees.push(tree).drop_last() =~= trees);
}

/// A sequence of trees holds the nodes of its first tree and those of the
/// trees behind it.
pub proof fn lemma_size_of_first<N>(trees: Seq<Tree<N>>)
    requires
        trees.len() > 0,
    ensures
        size_of(trees) == trees[0].size() + size_of(trees.skip(1)),
        trees[0].size() >= 1,
    decreases trees.len(),
{
    if trees.len() == 1 {
        assert(trees.drop_last() =~= Seq::<Tree<N>>::empty());
        assert(trees.skip(1) =~= Seq::<Tree<N>>::empty());
        assert(size_of(trees.drop_last()) == 0);
        assert(size_of(trees.skip(1)) == 0);
    } else {
        lemma_size_of_first(trees.drop_last());
        assert(trees.skip(1).drop_last() =~= trees.drop_last().skip(1));
        assert(trees.skip(1).last() == trees.last());
    }
}

/// The files of a sequence of trees with one more tree are those of both.
pub proof fn lemma_files_of_push<N>(trees: Seq<Tree<N>>, tree: Tree<N>)
    ensures
        files_of(trees.push(tree)) == files_of(trees).add(tree.files()),
{
    assert(trees.push(tree).drop_last() =~= trees);
}

/// The files of a sequence of trees are those of its first tree and those of
/// the trees behind it.
pub proof fn lemma_files_of_first<N>(trees: Seq<Tree<N>>)
    requires
        trees.len() > 0,
    ensures
        files_of(trees) == trees[0].files().add(files_of(trees.skip(1))),
    decreases trees.len(),
{
    if trees.len() == 1 {
        assert(trees.drop_last() =~= Seq::<Tree<N>>::empty());
        assert(trees.skip(1) =~= Seq::<Tree<N>>::empty());
        assert(files_of(trees.drop_last()) == Multiset::<Tree<N>>::empty());
        assert(files_of(trees.skip(1)) == Multiset::<Tree<N>>::empty());
        assert(files_of(trees) =~= trees[0].files().add(files_of(trees.skip(1))));
    } else {
        lemma_files_of_first(trees.drop_last());
        assert(trees.skip(1).drop_last() =~= trees.drop_last().skip(1));
        assert(trees.skip(1).last() == trees.last());
        assert(files_of(trees) =~= trees[0].files().add(files_of(trees.skip(1))));
    }
}

/// Whatever counts among the files of a tree is a file.
pub proof fn lemma_files_hold_files<N>(tree: Tree<N>, entry: Tree<N>)
    requires
        tree.files().count(entry) > 0,
    ensures
        entry is File,
    decreases tree,
{
    match tree {
        Tree::File(_) => {},
        Tree::Dir(_, entries) => {
            lemma_files_of_hold_files(entries, entry);
        },
    }
}

/// Whatever counts among the files of a sequence of trees is a file.
pub proof fn lemma_files_of_hold_files<N>(trees: Seq<Tree<N>>, entry: Tree<N>)
    requires
        files_of(trees).count(entry) > 0,
    ensures
        entry is File,
    decreases trees,
{
    if trees.len() > 0 {
        if trees.last().files().count(entry) > 0 {
            lemma_files_hold_files(trees.last(), entry);
        } else {
            lemma_files_of_hold_files(trees.drop_last(), entry);
        }
    }
}

/// A traversal without recursion that has no directory left to open hands
/// out what the current stream still gives, and nothing else.
pub proof fn lemma_flat_walk<N>(state: WalkState<Tree<N>>, stream: Seq<Tree<N>>)
    requires
        !state.recursive,
        !state.done,
        state.pending.len() == 0,
    ensures
        walk(state, stream) == stream,
    decreases stream.len(),
{
    if stream.len() > 0 {
        lemma_flat_walk(state, stream.skip(1));
        assert(seq![stream[0]] + stream.skip(1) =~= stream);
    }
}

/// A traversal without recursion hands out exactly the entries of the root
/// directory, files and directories alike, in the order in which the
/// directory lists them, and nothing that lies deeper.
pub proof fn lemma_flat_walk_yields_entries<N>(root: Tree<N>)
    ensures
        walk_all(root, false) == root.entries(),
{
    let start = WalkState { recursive: false, pending: seq![root], done: false };
    let opened = WalkState { recursive: false, pending: seq![root].drop_last(), done: false };
    assert(step(start, next_event(Seq::<Tree<N>>::empty())) == (opened, WalkAction::Open(root)));
    lemma_flat_walk(opened, root.entries());
}

/// A recursive traversal whose pending entries are all directories hands
/// out the files of the current stream and of the pending directories, each
/// as often as it stands there.
pub proof fn lemma_recursive_walk<N>(state: WalkState<Tree<N>>, stream: Seq<Tree<N>>)
    requires
        state.recursive,
        !state.done,
        forall|i: int| 0 <= i < state.pending.len() ==> #[trigger] state.pending[i] is Dir,
    ensures
        walk(state, stream).to_multiset() == files_of(stream).add(files_of(state.pending)),
    decreases size_of(state.pending) + size_of(stream), stream.len(),
{
    broadcast use vstd::seq_lib::lemma_multiset_commutative;
    broadcast use vstd::seq_lib::to_multiset_build;

    let (next, action) = step(state, next_event(stream));
    if stream.len() > 0 {
        let first = stream[0];
        let rest = stream.skip(1);
        lemma_size_of_first(stream);
        lemma_size_of_push(state.pending, first);
        lemma_files_of_first(stream);
        lemma_files_of_push(state.pending, first);
        lemma_recursive_walk(next, rest);
        if first is Dir {
            assert(walk(state, stream) == walk(next, rest));
            assert(walk(state, stream).to_multiset() =~= files_of(stream).add(
                files_of(state.pending),
            ));
        } else {
            assert(walk(state, stream) == seq![first] + walk(next, rest));
            lemma_singleton_multiset(first);
            assert(walk(state, stream).to_multiset() =~= files_of(stream).add(
                files_of(state.pending),
            ));
        }
    } else if state.pending.len() > 0 {
        let dir = state.pending.last();
        assert(dir is Dir);
        assert(dir.size() == 1 + size_of(dir.entries()));
        assert(files_of(stream) == Multiset::<Tree<N>>::empty());
        lemma_recursive_walk(next, dir.entries());
        assert(walk(state, stream) == walk(next, dir.entries()));
        assert(next.pending == state.pending.drop_last());
        assert(dir.files() == files_of(dir.entries()));
        assert(files_of(state.pending) == files_of(state.pending.drop_last()).add(dir.files()));
        assert(walk(state, stream).to_multiset() =~= files_of(stream).add(
            files_of(state.pending),
        ));
    } else {
        assert(walk(state, stream) == Seq::<Tree<N>>::empty());
        lemma_empty_multiset::<Tree<N>>();
        assert(walk(state, stream).to_multiset() =~= files_of(stream).add(
            files_of(state.pending),
        ));
    }
}

/// A recursive traversal of the tree below a directory hands out every
/// regular file of the tree exactly as often as it stands there, and
/// nothing else: no directory, and as many entries as the tree has files.
pub proof fn lemma_recursive_walk_yields_files<N>(root: Tree<N>)
    requires
        root is Dir,
    ensures
        walk_all(root, true).to_multiset() == root.files(),
        walk_all(root, true).len() == root.files().len(),
        forall|i: int|
            0 <= i < walk_all(root, true).len() ==> #[trigger] walk_all(root, true)[i] is File,
{
    let start = WalkState { recursive: true, pending: seq![root], done: false };
    let none = Seq::<Tree<N>>::empty();
    lemma_recursive_walk(start, none);
    assert(seq![root].drop_last() =~= none);
    assert(files_of(seq![root]) =~= root.files());
    assert(walk_all(root, true).to_multiset() =~= root.files());
    let out = walk_all(root, true);
    out.to_multiset_ensures();
    assert forall|i: int| 0 <= i < out.len() implies #[trigger] out[i] is File by {
        assert(out.contains(out[i]));
        lemma_files_hold_files(root, out[i]);
    }
}

/// The sequence of one element holds that element once.
proof fn lemma_singleton_multiset<A>(a: A)
    ensures
        seq![a].to_multiset() == Multiset::singleton(a),
{
    lemma_empty_multiset::<A>();
    vstd::seq_lib::to_multiset_build(Seq::<A>::empty(), a);
    assert(Seq::<A>::empty().push(a) =~= seq![a]);
    assert(seq![a].to_multiset() =~= Multiset::singleton(a));
}

/// The empty sequence holds nothing.
proof fn lemma_empty_multiset<A>()
    ensures
        Seq::<A>::empty().to_multiset() == Multiset::<A>::empty(),
{
    let none = Seq::<A>::empty();
    none.to_multiset_ensures();
    assert(none.to_multiset().len() == 0);
    assert forall|a: A| none.to_multiset().count(a) == 0 by {
        assert(!none.contains(a));
    }
    assert(none.to_multiset() =~= Multiset::<A>::empty());
}

} // verus!
