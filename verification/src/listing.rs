//! What a traversal reads: the entries of a directory as plain values, each
//! directory with the entries found in it.

use vstd::prelude::*;

verus! {

/// What the metadata of an entry said it is. `Other` stands for an entry
/// that is neither a file nor a directory, or whose metadata was not to be
/// had.
#[derive(Clone, Copy, Debug, PartialEq, Eq, Structural)]
pub enum EntryKind {
    File,
    Directory,
    Other,
}

/// One entry of a directory as it was read: its base name, its kind, its
/// length in bytes and, for a directory that was listed, what it holds.
#[derive(Debug, PartialEq, Eq)]
pub struct Entry {
    pub name: String,
    pub kind: EntryKind,
    pub size: u64,
    pub entries: Vec<Entry>,
}

/// The mathematical value of an entry.
pub struct Listing {
    pub name: Seq<char>,
    pub kind: EntryKind,
    pub size: nat,
    pub entries: Seq<Listing>,
}

impl View for Entry {
    type V = Listing;

    open spec fn view(&self) -> Listing
        decreases self, 0nat,
    {
        Listing {
            name: self.name@,
            kind: self.kind,
            size: self.size as nat,
            entries: first_listings(self.entries@, self.entries@.len()),
        }
    }
}

/// The values of the first `n` entries of a run, one for one.
pub open spec fn first_listings(entries: Seq<Entry>, n: nat) -> Seq<Listing>
    decreases entries, n,
{
    if n == 0 || n > entries.len() {
        Seq::empty()
    } else {
        first_listings(entries, (n - 1) as nat).push(entries[n - 1].view())
    }
}

/// The values of a run of entries, one for one.
pub open spec fn listings(entries: Seq<Entry>) -> Seq<Listing> {
    Seq::new(entries.len(), |i: int| entries[i]@)
}

/// The values of the first `n` entries are the first `n` of the values.
pub proof fn lemma_first_listings(entries: Seq<Entry>, n: nat)
    requires
        n <= entries.len(),
    ensures
        first_listings(entries, n) == listings(entries).take(n as int),
    decreases n,
{
    if n > 0 {
        lemma_first_listings(entries, (n - 1) as nat);
        let prev = first_listings(entries, (n - 1) as nat);
        assert(first_listings(entries, n) == prev.push(entries[n - 1].view()));
    }
    assert(first_listings(entries, n) =~= listings(entries).take(n as int));
}

/// The value of an entry is made of the values of the entries it holds.
pub proof fn lemma_view_entries(entry: Entry)
    ensures
        entry@.entries == listings(entry.entries@),
        entry@.entries.len() == entry.entries@.len(),
{
    lemma_first_listings(entry.entries@, entry.entries@.len());
    assert(listings(entry.entries@).take(entry.entries@.len() as int) =~= listings(
        entry.entries@,
    ));
}

impl Entry {
    /// A file of `size` bytes.
    pub fn file(name: String, size: u64) -> (entry: Entry)
        ensures
            entry@ == (Listing { name: name@, kind: EntryKind::File, size: size as nat, entries: Seq::empty() }),
    {
        Entry { name, kind: EntryKind::File, size, entries: Vec::new() }
    }

    /// A directory with the entries that were found in it. One that was not
    /// or could not be listed holds none.
    pub fn directory(name: String, entries: Vec<Entry>) -> (entry: Entry)
        ensures
            entry@ == (Listing { name: name@, kind: EntryKind::Directory, size: 0, entries: listings(entries@) }),
    {
        let entry = Entry { name, kind: EntryKind::Directory, size: 0, entries };
        proof {
            lemma_view_entries(entry);
        }
        entry
    }

    /// An entry that is neither a file nor a directory, or whose metadata
    /// was not to be had.
    pub fn other(name: String) -> (entry: Entry)
        ensures
            entry@ == (Listing { name: name@, kind: EntryKind::Other, size: 0, entries: Seq::empty() }),
    {
        Entry { name, kind: EntryKind::Other, size: 0, entries: Vec::new() }
    }
}

} // verus!
