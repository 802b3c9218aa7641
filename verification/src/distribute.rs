//! The distribution phase: every line that is not blank is assigned to a
//! bucket drawn at random and buffered; when the buffer has grown to its
//! threshold it is handed out as a flush plan.
//!
//! The caller reads the lines and performs the flushes; the decisions are
//! made here.

use crate::buffer::{byte_total, LineBuffer};
use crate::flush::{flush_plan, plan_flush, plan_views, BucketWrite};
use crate::random::Generator;
use crate::text::{blank, is_blank};
use vstd::prelude::*;

verus! {

/// Buffered bytes at which the buffer is flushed: one gibibyte.
pub const MAX_BUFFER_SIZE: usize = 1024 * 1024 * 1024;

/// What a flush plan holds, if there is one.
pub open spec fn planned(plan: Option<Vec<Vec<BucketWrite>>>) -> Option<
    Seq<Seq<(usize, Seq<Seq<char>>)>>,
> {
    match plan {
        Some(p) => Some(plan_views(p@)),
        None => None,
    }
}

/// The buffer and the flush that follow when `line` is assigned to `bucket`:
/// the line joins the buffer, and once the buffer holds `threshold` bytes or
/// more, all of it leaves in one flush.
pub open spec fn after_assign(
    pending: Seq<(usize, Seq<char>)>,
    threshold: usize,
    buckets: usize,
    bucket: usize,
    line: Seq<char>,
) -> (Seq<(usize, Seq<char>)>, Option<Seq<Seq<(usize, Seq<Seq<char>>)>>>) {
    let grown = pending.push((bucket, line));
    if byte_total(grown) >= threshold {
        (Seq::empty(), Some(flush_plan(grown, buckets as nat)))
    } else {
        (grown, None)
    }
}

/// The state of the distribution phase.
pub struct Distributor {
    bucket_count: usize,
    threshold: usize,
    generator: Generator,
    buffer: LineBuffer,
}

impl Distributor {
    /// Number of buckets that lines are scattered over.
    pub closed spec fn buckets(&self) -> usize {
        self.bucket_count
    }

    /// Buffered bytes at which a flush is due.
    pub closed spec fn threshold(&self) -> usize {
        self.threshold
    }

    /// The seed of the generator that draws the buckets.
    pub closed spec fn seed_used(&self) -> Option<u64> {
        self.generator.seed_used()
    }

    /// The lines that wait in the buffer, each with its bucket.
    pub closed spec fn pending(&self) -> Seq<(usize, Seq<char>)> {
        self.buffer.entries()
    }

    /// The byte count of the buffer agrees with the lines it holds.
    pub closed spec fn counted(&self) -> bool {
        self.buffer.wf()
    }

    /// There is a bucket, and every buffered line is assigned to one. With
    /// a threshold above zero the buffer stays below it between two calls.
    pub open spec fn wf(&self) -> bool {
        &&& self.buckets() > 0
        &&& self.counted()
        &&& forall|i: int|
            0 <= i < self.pending().len() ==> (#[trigger] self.pending()[i]).0 < self.buckets()
        &&& self.threshold() > 0 ==> byte_total(self.pending()) < self.threshold()
    }

    /// A distributor over `bucket_count` buckets that flushes at
    /// `MAX_BUFFER_SIZE` bytes.
    pub fn new(bucket_count: usize, seed: Option<u64>) -> (d: Distributor)
        requires
            bucket_count > 0,
        ensures
            d.wf(),
            d.buckets() == bucket_count,
            d.threshold() == MAX_BUFFER_SIZE,
            d.seed_used() == seed,
            d.pending() == Seq::<(usize, Seq<char>)>::empty(),
    {
        Distributor::with_threshold(bucket_count, seed, MAX_BUFFER_SIZE)
    }

    /// A distributor that flushes at `threshold` buffered bytes.
    pub fn with_threshold(bucket_count: usize, seed: Option<u64>, threshold: usize) -> (d:
        Distributor)
        requires
            bucket_count > 0,
        ensures
            d.wf(),
            d.buckets() == bucket_count,
            d.threshold() == threshold,
            d.seed_used() == seed,
            d.pending() == Seq::<(usize, Seq<char>)>::empty(),
    {
        Distributor {
            bucket_count,
            threshold,
            generator: Generator::for_distribution(seed),
            buffer: LineBuffer::new(),
        }
    }

    /// Number of buckets that lines are scattered over.
    pub fn bucket_count(&self) -> (count: usize)
        ensures
            count == self.buckets(),
    {
        self.bucket_count
    }

    /// Buffers `line` for `bucket`. Returns the flush plan when the buffer
    /// has reached the threshold; the buffer is then empty.
    pub fn assign(&mut self, line: String, bucket: usize) -> (plan: Option<Vec<Vec<BucketWrite>>>)
        requires
            old(self).wf(),
            bucket < old(self).buckets(),
        ensures
            final(self).wf(),
            final(self).buckets() == old(self).buckets(),
            final(self).threshold() == old(self).threshold(),
            final(self).seed_used() == old(self).seed_used(),
            (final(self).pending(), planned(plan)) == after_assign(
                old(self).pending(),
                old(self).threshold(),
                old(self).buckets(),
                bucket,
                line@,
            ),
    {
        let ghost before = self.pending();
        self.buffer.add_line(bucket, line);
        assert forall|i: int| 0 <= i < self.pending().len() implies (#[trigger] self.pending()[i]).0
            < self.buckets() by {
            if i < before.len() {
                assert(self.pending()[i] == before[i]);
            }
        }
        if self.buffer.is_full(self.threshold) {
            let plan = self.flush();
            Some(plan)
        } else {
            None
        }
    }

    /// Takes a line as it was read. A blank line is dropped. Any other line
    /// is assigned to a bucket drawn from the generator, as `assign` does.
    pub fn offer(&mut self, line: String) -> (plan: Option<Vec<Vec<BucketWrite>>>)
        requires
            old(self).wf(),
        ensures
            final(self).wf(),
            final(self).buckets() == old(self).buckets(),
            final(self).threshold() == old(self).threshold(),
            final(self).seed_used() == old(self).seed_used(),
            blank(line@) ==> plan is None && final(self).pending() == old(self).pending(),
            !blank(line@) ==> exists|bucket: usize|
                bucket < old(self).buckets() && (final(self).pending(), planned(plan))
                    == #[trigger] after_assign(
                    old(self).pending(),
                    old(self).threshold(),
                    old(self).buckets(),
                    bucket,
                    line@,
                ),
    {
        if is_blank(line.as_str()) {
            None
        } else {
            let bucket: usize = self.generator.draw(self.bucket_count);
            assert(self.pending() == old(self).pending());
            let plan = self.assign(line, bucket);
            assert((self.pending(), planned(plan)) == after_assign(
                old(self).pending(),
                old(self).threshold(),
                old(self).buckets(),
                bucket,
                line@,
            ));
            plan
        }
    }

    /// Ends the phase: the lines still buffered leave in a last flush.
    /// There is no plan when nothing is buffered.
    pub fn finish(&mut self) -> (plan: Option<Vec<Vec<BucketWrite>>>)
        requires
            old(self).wf(),
        ensures
            final(self).wf(),
            final(self).buckets() == old(self).buckets(),
            final(self).threshold() == old(self).threshold(),
            final(self).seed_used() == old(self).seed_used(),
            final(self).pending() == Seq::<(usize, Seq<char>)>::empty(),
            planned(plan) == if old(self).pending().len() == 0 {
                None
            } else {
                Some(flush_plan(old(self).pending(), old(self).buckets() as nat))
            },
    {
        if self.buffer.is_empty() {
            assert(self.buffer.entries() =~= Seq::<(usize, Seq<char>)>::empty());
            None
        } else {
            let plan = self.flush();
            Some(plan)
        }
    }

    /// Empties the buffer into a flush plan.
    fn flush(&mut self) -> (plan: Vec<Vec<BucketWrite>>)
        requires
            old(self).buckets() > 0,
            old(self).counted(),
            forall|i: int|
                0 <= i < old(self).pending().len() ==> (#[trigger] old(self).pending()[i]).0 < old(
                    self,
                ).buckets(),
        ensures
            final(self).wf(),
            final(self).buckets() == old(self).buckets(),
            final(self).threshold() == old(self).threshold(),
            final(self).seed_used() == old(self).seed_used(),
            final(self).pending() == Seq::<(usize, Seq<char>)>::empty(),
            plan_views(plan@) == flush_plan(old(self).pending(), old(self).buckets() as nat),
    {
        let items = self.buffer.drain();
        assert forall|i: int| 0 <= i < items@.len() implies (#[trigger] items@[i]).0
            < self.bucket_count by {
            assert(old(self).pending()[i].0 == items@[i].0);
        }
        plan_flush(items, self.bucket_count)
    }
}

} // verus!
