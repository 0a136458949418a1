//! The traversal of a directory tree, as a state machine.
//!
//! A [`DirWalker`] holds the directories that were found and not yet opened.
//! The caller holds the stream of the directory that is being listed and
//! tells the walker what the stream gave; the walker answers with what to do
//! next. `D` is whatever the caller names a directory entry by, such as a
//! path.

use vstd::prelude::*;

verus! {

/// What the stream of the current directory gave.
#[derive(Clone, Debug, PartialEq, Eq)]
pub enum WalkEvent<D> {
    /// The next entry, and whether it is a directory.
    Entry { entry: D, is_dir: bool },
    /// No entry is left, or no directory is open yet.
    EndOfDirectory,
    /// The next entry could not be read, or the directory that was to be
    /// opened could not be.
    Unreadable,
}

/// What the caller is to do next.
#[derive(Clone, Debug, PartialEq, Eq)]
pub enum WalkAction<D> {
    /// Hand this entry out, then ask the current stream for its next entry.
    Yield(D),
    /// Ask the current stream for its next entry.
    Pull,
    /// Open this directory and make its stream the current one.
    Open(D),
    /// The traversal is over.
    Done,
    /// The traversal ends here with the failure that was just met.
    Abort,
}

/// The state of a traversal.
pub ghost struct WalkState<D> {
    /// Whether directories are descended into.
    pub recursive: bool,
    /// The directories that are still to be opened; the last one is opened
    /// first.
    pub pending: Seq<D>,
    /// Whether the traversal is over.
    pub done: bool,
}

/// The state after `event`, and the answer to it.
///
/// * An entry that is a directory is put on the pending directories in a
///   recursive traversal, and nothing is handed out for it.
/// * Any other entry is handed out.
/// * At the end of a directory the pending directory that was found last is
///   opened. If none is pending, the traversal is over.
/// * What cannot be read ends the traversal at once: nothing is skipped in
///   silence, and the directories that were still pending are not opened.
/// * Once the traversal is over it stays so, whatever comes.
pub open spec fn step<D>(state: WalkState<D>, event: WalkEvent<D>) -> (WalkState<D>, WalkAction<D>) {
    if state.done {
        (state, WalkAction::Done)
    } else {
        match event {
            WalkEvent::Entry { entry, is_dir } => if is_dir && state.recursive {
                (WalkState { pending: state.pending.push(entry), ..state }, WalkAction::Pull)
            } else {
                (state, WalkAction::Yield(entry))
            },
            WalkEvent::EndOfDirectory => if state.pending.len() == 0 {
                (WalkState { done: true, ..state }, WalkAction::Done)
            } else {
                (
                    WalkState { pending: state.pending.drop_last(), ..state },
                    WalkAction::Open(state.pending.last()),
                )
            },
            WalkEvent::Unreadable => (WalkState { done: true, ..state }, WalkAction::Abort),
        }
    }
}

/// A traversal of the tree below one directory.
#[derive(Debug)]
pub struct DirWalker<D> {
    recursive: bool,
    path_stack: Vec<D>,
    done: bool,
}

impl<D> View for DirWalker<D> {
    type V = WalkState<D>;

    closed spec fn view(&self) -> WalkState<D> {
        WalkState { recursive: self.recursive, pending: self.path_stack@, done: self.done }
    }
}

impl<D> DirWalker<D> {
    /// A traversal that has `base_dir` to open and nothing else. The first
    /// event to hand it is `EndOfDirectory`, which it answers with the order
    /// to open `base_dir`.
    pub fn new(base_dir: D, recursive: bool) -> (walker: DirWalker<D>)
        ensures
            walker@ == (WalkState { recursive, pending: seq![base_dir], done: false }),
    {
        let mut path_stack: Vec<D> = Vec::new();
        path_stack.push(base_dir);
        let walker = DirWalker { recursive, path_stack, done: false };
        assert(walker@.pending =~= seq![base_dir]);
        walker
    }

    /// Takes what the current stream gave and says what to do next.
    pub fn next(&mut self, event: WalkEvent<D>) -> (action: WalkAction<D>)
        ensures
            (final(self)@, action) == step(old(self)@, event),
    {
        if self.done {
            return WalkAction::Done;
        }
        match event {
            WalkEvent::Entry { entry, is_dir } => {
                if is_dir && self.recursive {
                    self.path_stack.push(entry);
                    WalkAction::Pull
                } else {
                    WalkAction::Yield(entry)
                }
            },
            WalkEvent::EndOfDirectory => {
                match self.path_stack.pop() {
                    Some(dir) => WalkAction::Open(dir),
                    None => {
                        self.done = true;
                        WalkAction::Done
                    },
                }
            },
            WalkEvent::Unreadable => {
                self.done = true;
                WalkAction::Abort
            },
        }
    }

    /// Whether directories are descended into.
    pub fn is_recursive(&self) -> (recursive: bool)
        ensures
            recursive == self@.recursive,
    {
        self.recursive
    }

    /// Whether the traversal is over.
    pub fn is_done(&self) -> (done: bool)
        ensures
            done == self@.done,
    {
        self.done
    }

    /// The number of directories that are still to be opened.
    pub fn pending(&self) -> (n: usize)
        ensures
            n == self@.pending.len(),
    {
        self.path_stack.len()
    }
}

} // verus!
