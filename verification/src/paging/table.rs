//! A page table: 512 entries living in one physical frame.

use vstd::prelude::*;

use crate::memory::{Frame, MAX_FRAME};
use crate::paging::entry::{Entry, EntryFlags, entry_value, e_link};

verus! {

/// One page table of any level: 512 contiguous entries. Which level a table
/// belongs to is tracked by the mapper that owns it.
pub struct Table {
    pub entries: Vec<Entry>,
}

/// The all-zero table contents.
pub open spec fn zero_table() -> Seq<u64> {
    Seq::new(512nat, |i: int| 0u64)
}

impl Table {
    /// The raw 64-bit words of the entries.
    pub open spec fn view(&self) -> Seq<u64> {
        Seq::new(self.entries@.len(), |i: int| self.entries@[i].0)
    }

    /// A table always has exactly 512 entries.
    pub open spec fn wf(&self) -> bool {
        self.entries@.len() == 512
    }

    /// A fresh, zeroed table.
    pub fn new() -> (t: Table)
        ensures
            t.wf(),
            t@ =~= zero_table(),
    {
        let mut entries: Vec<Entry> = Vec::new();
        let mut i: usize = 0;
        while i < 512
            invariant
                i <= 512,
                entries@.len() == i,
                forall|j: int| 0 <= j < i ==> entries@[j].0 == 0,
            decreases 512 - i,
        {
            entries.push(Entry(0));
            i = i + 1;
        }
        Table { entries }
    }

    /// Clear all entries.
    pub fn zero(&mut self)
        requires
            old(self).wf(),
        ensures
            final(self).wf(),
            final(self)@ =~= zero_table(),
    {
        let mut i: usize = 0;
        while i < 512
            invariant
                i <= 512,
                self.entries@.len() == 512,
                forall|j: int| 0 <= j < i ==> self.entries@[j].0 == 0,
            decreases 512 - i,
        {
            self.entries[i] = Entry(0);
            i = i + 1;
        }
    }

    /// The raw word of entry `index`.
    pub fn entry(&self, index: usize) -> (r: u64)
        requires
            self.wf(),
            index < 512,
        ensures
            r == self@[index as int],
    {
        self.entries[index].0
    }

    /// Point entry `index` at `frame` with the given flags.
    pub fn set_entry(&mut self, index: usize, frame: &Frame, flags: EntryFlags)
        requires
            old(self).wf(),
            index < 512,
            frame.number < MAX_FRAME,
        ensures
            final(self).wf(),
            final(self)@ =~= old(self)@.update(index as int, entry_value(frame.number, flags)),
    {
        let mut e = self.entries[index];
        e.set(frame, flags);
        self.entries[index] = e;
    }

    /// Clear entry `index`.
    pub fn clear_entry(&mut self, index: usize)
        requires
            old(self).wf(),
            index < 512,
        ensures
            final(self).wf(),
            final(self)@ =~= old(self)@.update(index as int, 0u64),
    {
        self.entries[index] = Entry(0);
    }

    /// Virtual address of the next-level table reached through entry `index`,
    /// under recursive mapping: shifting the table's own virtual address left
    /// by one level and placing the index in bits 12..21. `None` when the
    /// entry is no link to a lower table.
    pub fn next_table_address(&self, self_address: u64, index: usize) -> (r: Option<u64>)
        requires
            self.wf(),
            index < 512,
        ensures
            if e_link(self@[index as int]) {
                r == Some::<u64>(((self_address << 9) | ((index as u64) << 12)) as u64)
            } else {
                r is None
            },
    {
        let entry = self.entries[index].0;
        if entry & crate::paging::entry::PRESENT != 0 && entry & crate::paging::entry::HUGE_PAGE == 0 {
            Some((self_address << 9u64) | ((index as u64) << 12u64))
        } else {
            None
        }
    }
}

} // verus!
