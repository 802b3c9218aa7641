//! The write buffer of the distribution phase: lines waiting for their
//! bucket, and the count of their bytes.

use vstd::prelude::*;

verus! {

/// Length of a line in bytes, as it is stored and written.
pub open spec fn line_size(text: Seq<char>) -> nat {
    vstd::utf8::encode_utf8(text).len()
}

/// Bytes held by a sequence of buffered lines.
pub open spec fn byte_total(entries: Seq<(usize, Seq<char>)>) -> nat
    decreases entries.len(),
{
    if entries.len() == 0 {
        0
    } else {
        byte_total(entries.drop_last()) + line_size(entries.last().1)
    }
}

/// A byte count as the buffer keeps it: exact up to the largest machine
/// word, and that word above it.
pub open spec fn capped(n: nat) -> usize {
    if n > usize::MAX {
        usize::MAX
    } else {
        n as usize
    }
}

/// Buffered lines as pairs of bucket and text.
pub open spec fn entries_of(items: Seq<(usize, String)>) -> Seq<(usize, Seq<char>)> {
    Seq::new(items.len(), |i: int| (items[i].0, items[i].1@))
}

/// Lines waiting to be written, each with the bucket it was assigned to.
pub struct LineBuffer {
    lines: Vec<(usize, String)>,
    total_size: usize,
}

impl LineBuffer {
    /// The buffered lines in the order they were added.
    pub closed spec fn entries(&self) -> Seq<(usize, Seq<char>)> {
        entries_of(self.lines@)
    }

    /// The byte count agrees with the lines held.
    pub closed spec fn wf(&self) -> bool {
        self.total_size == capped(byte_total(self.entries()))
    }

    /// An empty buffer.
    pub fn new() -> (buffer: LineBuffer)
        ensures
            buffer.wf(),
            buffer.entries() == Seq::<(usize, Seq<char>)>::empty(),
    {
        let buffer = LineBuffer { lines: Vec::new(), total_size: 0 };
        assert(buffer.entries() =~= Seq::<(usize, Seq<char>)>::empty());
        buffer
    }

    /// Appends `line` for bucket `temp_index`.
    pub fn add_line(&mut self, temp_index: usize, line: String)
        requires
            old(self).wf(),
        ensures
            final(self).wf(),
            final(self).entries() == old(self).entries().push((temp_index, line@)),
    {
        let size: usize = line.as_str().as_bytes().len();
        self.total_size = self.total_size.saturating_add(size);
        self.lines.push((temp_index, line));
        proof {
            let grown = old(self).entries().push((temp_index, line@));
            assert(self.entries() =~= grown);
            assert(grown.drop_last() =~= old(self).entries());
        }
    }

    /// Whether the buffered lines hold at least `max_size` bytes.
    pub fn is_full(&self, max_size: usize) -> (full: bool)
        requires
            self.wf(),
        ensures
            full == (byte_total(self.entries()) >= max_size),
    {
        self.total_size >= max_size
    }

    /// Drops every buffered line.
    pub fn clear(&mut self)
        requires
            old(self).wf(),
        ensures
            final(self).wf(),
            final(self).entries() == Seq::<(usize, Seq<char>)>::empty(),
    {
        self.lines.clear();
        self.total_size = 0;
        assert(self.entries() =~= Seq::<(usize, Seq<char>)>::empty());
    }

    /// Whether no line is buffered.
    pub fn is_empty(&self) -> (empty: bool)
        ensures
            empty == (self.entries().len() == 0),
    {
        self.lines.is_empty()
    }

    /// Hands out the buffered lines and leaves the buffer empty.
    pub fn drain(&mut self) -> (items: Vec<(usize, String)>)
        requires
            old(self).wf(),
        ensures
            final(self).wf(),
            final(self).entries() == Seq::<(usize, Seq<char>)>::empty(),
            entries_of(items@) == old(self).entries(),
    {
        let mut items: Vec<(usize, String)> = Vec::new();
        items.append(&mut self.lines);
        self.total_size = 0;
        assert(self.entries() =~= Seq::<(usize, Seq<char>)>::empty());
        assert(entries_of(items@) =~= old(self).entries());
        items
    }
}

} // verus!
