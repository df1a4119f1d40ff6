//! The directory walk, as a state machine that performs no I/O itself.
//!
//! The walker keeps the stack of directories still to be visited. Whoever
//! drives it holds the one open directory listing: it hands each raw entry of
//! that listing to [`Traverser::classify_entry`], opens the file that comes
//! back for counting, and when the listing runs out asks
//! [`Traverser::next_dir`] for the directory to open next. Subdirectories are
//! pushed on the stack and popped from its end, so the walk is depth-first and
//! needs no recursion, however deep the tree.
use vstd::prelude::*;
use crate::filter::{admits, strings_view, ExtensionFilter};

verus! {

/// What a path or a directory entry is on the file system.
#[derive(Debug, Clone, Copy, PartialEq, Eq, Structural)]
pub enum EntryKind {
    /// A regular file.
    File,
    /// A directory.
    Dir,
    /// Anything else: a symbolic link (never followed), a device, a socket.
    Other,
}

/// One raw entry of a directory listing.
pub struct Entry {
    /// The entry's file name.
    pub name: String,
    /// The entry's full path.
    pub path: String,
    /// What the entry is, as its own metadata tells (links are not followed).
    pub kind: EntryKind,
}

/// Whether a walk with filter `filter` hands out `e` to be counted.
pub open spec fn yields(filter: Option<Seq<Seq<char>>>, e: Entry) -> bool {
    e.kind == EntryKind::File && admits(filter, e.name@)
}

/// The stack of directories to visit after the walk has seen `e`.
pub open spec fn queued_after(pending: Seq<Seq<char>>, e: Entry) -> Seq<Seq<char>> {
    if e.kind == EntryKind::Dir {
        pending.push(e.path@)
    } else {
        pending
    }
}

/// The walker's state: the filter and the stack of directories still to visit.
pub struct Traverser {
    filter: ExtensionFilter,
    pending: Vec<String>,
}

impl Traverser {
    /// The directories still to visit; the last is visited first.
    pub closed spec fn pending(&self) -> Seq<Seq<char>> {
        strings_view(self.pending@)
    }

    /// The suffixes of the walk's filter.
    pub closed spec fn filter(&self) -> Option<Seq<Seq<char>>> {
        self.filter@
    }

    /// Starts a walk of `dirs`. The first root is handed back, to be opened
    /// at once; the others wait on the stack, so the last of them comes next.
    pub fn traverse(dirs: Vec<String>, filter: ExtensionFilter) -> (r: (Traverser, String))
        requires
            dirs@.len() > 0,
        ensures
            r.1@ == dirs@[0]@,
            r.0.pending() == strings_view(dirs@).subrange(1, dirs@.len() as int),
            r.0.filter() == filter@,
    {
        let mut pending = dirs;
        let first = pending.remove(0);
        assert(strings_view(pending@) =~= strings_view(dirs@).subrange(1, dirs@.len() as int));
        (Traverser { filter, pending }, first)
    }

    /// Takes one raw entry of the open listing. A regular file that the
    /// filter admits comes back, to be opened and counted; a directory goes on
    /// the stack; anything else is passed over.
    pub fn classify_entry(&mut self, entry: Entry) -> (r: Option<String>)
        ensures
            final(self).filter() == old(self).filter(),
            final(self).pending() == queued_after(old(self).pending(), entry),
            r is Some <==> yields(old(self).filter(), entry),
            r is Some ==> r->Some_0@ == entry.path@,
    {
        match entry.kind {
            EntryKind::File => {
                if self.filter.accepts(entry.name.as_str()) {
                    Some(entry.path)
                } else {
                    None
                }
            },
            EntryKind::Dir => {
                self.pending.push(entry.path);
                assert(strings_view(self.pending@) =~= strings_view(old(self).pending@).push(
                    entry.path@,
                ));
                None
            },
            EntryKind::Other => None,
        }
    }

    /// The directory to open once the current listing is exhausted: the most
    /// recently queued one. `None` when none is left, which ends the walk.
    pub fn next_dir(&mut self) -> (r: Option<String>)
        ensures
            final(self).filter() == old(self).filter(),
            old(self).pending().len() == 0 ==> r is None && final(self).pending() == old(
                self,
            ).pending(),
            old(self).pending().len() > 0 ==> r is Some && r->Some_0@ == old(self).pending().last()
                && final(self).pending() == old(self).pending().drop_last(),
    {
        let r = self.pending.pop();
        proof {
            if old(self).pending@.len() > 0 {
                assert(strings_view(self.pending@) =~= strings_view(old(self).pending@).drop_last());
            }
        }
        r
    }

    /// Whether directories are still waiting to be visited.
    pub fn has_pending(&self) -> (r: bool)
        ensures
            r == (self.pending().len() > 0),
    {
        self.pending.len() > 0
    }
}

/// The stack after the walk has seen each entry of `entries` in turn.
pub open spec fn pending_after(pending: Seq<Seq<char>>, entries: Seq<Entry>) -> Seq<Seq<char>>
    decreases entries.len(),
{
    if entries.len() == 0 {
        pending
    } else {
        queued_after(pending_after(pending, entries.drop_last()), entries.last())
    }
}

/// The paths the walk hands out while it sees each entry of `entries` in turn.
pub open spec fn yielded(filter: Option<Seq<Seq<char>>>, entries: Seq<Entry>) -> Seq<Seq<char>>
    decreases entries.len(),
{
    if entries.len() == 0 {
        Seq::empty()
    } else {
        let earlier = yielded(filter, entries.drop_last());
        if yields(filter, entries.last()) {
            earlier.push(entries.last().path@)
        } else {
            earlier
        }
    }
}

/// The full path of an entry.
pub open spec fn path_of(e: Entry) -> Seq<char> {
    e.path@
}

/// Going through one directory listing, the walk hands out every regular
/// file of it that the filter admits, each once and in listing order, and
/// nothing else; and it queues every subdirectory of it, each once and in
/// listing order, on top of the directories that were waiting.
pub proof fn lemma_listing_walk(
    pending: Seq<Seq<char>>,
    filter: Option<Seq<Seq<char>>>,
    entries: Seq<Entry>,
)
    ensures
        yielded(filter, entries) == entries.filter(|e: Entry| yields(filter, e)).map_values(
            |e: Entry| path_of(e),
        ),
        pending_after(pending, entries) == pending + entries.filter(
            |e: Entry| e.kind == EntryKind::Dir,
        ).map_values(|e: Entry| path_of(e)),
    decreases entries.len(),
{
    reveal(Seq::filter);
    if entries.len() > 0 {
        lemma_listing_walk(pending, filter, entries.drop_last());
        let fy = entries.drop_last().filter(|e: Entry| yields(filter, e));
        let fd = entries.drop_last().filter(|e: Entry| e.kind == EntryKind::Dir);
        assert(fy.push(entries.last()).map_values(|e: Entry| path_of(e)) =~= fy.map_values(
            |e: Entry| path_of(e),
        ).push(entries.last().path@));
        assert(fd.push(entries.last()).map_values(|e: Entry| path_of(e)) =~= fd.map_values(
            |e: Entry| path_of(e),
        ).push(entries.last().path@));
        assert(pending + fd.push(entries.last()).map_values(|e: Entry| path_of(e)) =~= (pending
            + fd.map_values(|e: Entry| path_of(e))).push(entries.last().path@));
    } else {
        assert(pending + Seq::<Seq<char>>::empty() =~= pending);
    }
}

} // verus!
