//! Flushing the write buffer: its lines grouped by bucket, and the groups
//! batched so that only so many bucket files are open at a time.

use crate::batch::{
    batch_at, batch_views, batches, into_batches, lemma_batch_bounds, lemma_batches_cover,
    MAX_OPEN_OUTPUT_FILES,
};
use crate::buffer::entries_of;
use crate::text::texts;
use vstd::prelude::*;

verus! {

/// The lines that `entries` hold for `bucket`, in the order they came.
pub open spec fn bucket_lines(entries: Seq<(usize, Seq<char>)>, bucket: usize) -> Seq<Seq<char>>
    decreases entries.len(),
{
    if entries.len() == 0 {
        Seq::empty()
    } else if entries.last().0 == bucket {
        bucket_lines(entries.drop_last(), bucket).push(entries.last().1)
    } else {
        bucket_lines(entries.drop_last(), bucket)
    }
}

/// The buckets below `count` for which `entries` hold a line, in ascending
/// order, each with its lines.
pub open spec fn groups(entries: Seq<(usize, Seq<char>)>, count: nat) -> Seq<
    (usize, Seq<Seq<char>>),
>
    decreases count,
{
    if count == 0 {
        Seq::empty()
    } else {
        let bucket: usize = (count - 1) as usize;
        let lines = bucket_lines(entries, bucket);
        if lines.len() == 0 {
            groups(entries, (count - 1) as nat)
        } else {
            groups(entries, (count - 1) as nat).push((bucket, lines))
        }
    }
}

/// What a flush writes: the groups of `entries`, batched by the bound on
/// open bucket files.
pub open spec fn flush_plan(entries: Seq<(usize, Seq<char>)>, count: nat) -> Seq<
    Seq<(usize, Seq<Seq<char>>)>,
> {
    batches(groups(entries, count), MAX_OPEN_OUTPUT_FILES as nat)
}

/// What `writes`, carried out in their order, append to `bucket`.
pub open spec fn written(writes: Seq<(usize, Seq<Seq<char>>)>, bucket: usize) -> Seq<Seq<char>>
    decreases writes.len(),
{
    if writes.len() == 0 {
        Seq::empty()
    } else if writes.last().0 == bucket {
        written(writes.drop_last(), bucket) + writes.last().1
    } else {
        written(writes.drop_last(), bucket)
    }
}

/// Lines to append to the temporary file of one bucket.
#[derive(Debug)]
pub struct BucketWrite {
    pub bucket: usize,
    pub lines: Vec<String>,
}

impl View for BucketWrite {
    type V = (usize, Seq<Seq<char>>);

    open spec fn view(&self) -> (usize, Seq<Seq<char>>) {
        (self.bucket, texts(self.lines@))
    }
}

/// The bucket and lines of every write.
pub open spec fn write_views(writes: Seq<BucketWrite>) -> Seq<(usize, Seq<Seq<char>>)> {
    Seq::new(writes.len(), |i: int| writes[i]@)
}

/// The writes of every batch of a plan.
pub open spec fn plan_views(plan: Seq<Vec<BucketWrite>>) -> Seq<Seq<(usize, Seq<Seq<char>>)>> {
    Seq::new(plan.len(), |k: int| write_views(plan[k]@))
}

/// Groups buffered lines by bucket. Buckets come in ascending order, the
/// lines of a bucket in the order they were buffered; a bucket without
/// lines is left out.
pub fn group_by_bucket(items: Vec<(usize, String)>, bucket_count: usize) -> (writes: Vec<
    BucketWrite,
>)
    requires
        forall|i: int| 0 <= i < items@.len() ==> (#[trigger] items@[i]).0 < bucket_count,
    ensures
        write_views(writes@) == groups(entries_of(items@), bucket_count as nat),
{
    let ghost entries = entries_of(items@);
    let mut slots: Vec<Vec<String>> = Vec::new();
    let mut made: usize = 0;
    while made < bucket_count
        invariant
            made <= bucket_count,
            slots@.len() == made,
            forall|j: int| 0 <= j < made ==> (#[trigger] slots@[j])@.len() == 0,
        decreases bucket_count - made,
    {
        slots.push(Vec::new());
        made = made + 1;
    }
    assert forall|j: int| 0 <= j < bucket_count implies texts((#[trigger] slots@[j])@)
        == bucket_lines(entries.take(0), j as usize) by {
        assert(texts(slots@[j]@) =~= Seq::<Seq<char>>::empty());
        assert(entries.take(0) =~= Seq::<(usize, Seq<char>)>::empty());
    }
    for item in it: items
        invariant
            it.seq() == items@,
            entries == entries_of(items@),
            slots@.len() == bucket_count,
            forall|i: int| 0 <= i < items@.len() ==> (#[trigger] items@[i]).0 < bucket_count,
            forall|j: int|
                0 <= j < bucket_count ==> texts((#[trigger] slots@[j])@) == bucket_lines(
                    entries.take(it.index() as int),
                    j as usize,
                ),
    {
        let ghost k: int = it.index() as int;
        let ghost before = slots@;
        assert(item == items@[k]);
        let (bucket, line) = item;
        slots[bucket].push(line);
        proof {
            assert(entries.take(k + 1).drop_last() =~= entries.take(k));
            assert(entries.take(k + 1).last() == (bucket, line@));
            assert forall|j: int| 0 <= j < bucket_count implies texts((#[trigger] slots@[j])@)
                == bucket_lines(entries.take(k + 1), j as usize) by {
                if j == bucket {
                    assert(texts(slots@[j]@) =~= texts(before[j]@).push(line@));
                } else {
                    assert(slots@[j] == before[j]);
                }
            }
        }
    }
    assert(entries.take(items@.len() as int) =~= entries);
    let mut writes: Vec<BucketWrite> = Vec::new();
    let mut bucket: usize = 0;
    let ghost filled = slots@;
    assert(write_views(writes@) =~= groups(entries, 0));
    for lines in it: slots
        invariant
            it.seq() == filled,
            filled.len() == bucket_count,
            bucket == it.index(),
            forall|j: int|
                0 <= j < bucket_count ==> texts((#[trigger] filled[j])@) == bucket_lines(
                    entries,
                    j as usize,
                ),
            write_views(writes@) == groups(entries, bucket as nat),
    {
        assert(lines == filled[bucket as int]);
        if lines.len() > 0 {
            let ghost before = writes@;
            writes.push(BucketWrite { bucket, lines });
            assert(write_views(writes@) =~= write_views(before).push(
                (bucket, texts(lines@)),
            ));
        }
        bucket = bucket + 1;
    }
    writes
}

/// The plan of a flush: the buffered lines grouped by bucket, the groups in
/// batches of at most `MAX_OPEN_OUTPUT_FILES`.
pub fn plan_flush(items: Vec<(usize, String)>, bucket_count: usize) -> (plan: Vec<
    Vec<BucketWrite>,
>)
    requires
        forall|i: int| 0 <= i < items@.len() ==> (#[trigger] items@[i]).0 < bucket_count,
    ensures
        plan_views(plan@) == flush_plan(entries_of(items@), bucket_count as nat),
{
    let writes = group_by_bucket(items, bucket_count);
    let plan = into_batches(writes, MAX_OPEN_OUTPUT_FILES);
    proof {
        let expected = flush_plan(entries_of(items@), bucket_count as nat);
        let size: nat = MAX_OPEN_OUTPUT_FILES as nat;
        assert(batch_views(plan@) == batches(writes@, size));
        assert(plan_views(plan@).len() == expected.len());
        assert forall|k: int| 0 <= k < expected.len() implies plan_views(plan@)[k]
            == expected[k] by {
            assert(plan@[k]@ == batch_views(plan@)[k]);
            assert(write_views(plan@[k]@) =~= expected[k]);
        }
        assert(plan_views(plan@) =~= expected);
    }
    plan
}

/// Whether every write of a plan names a bucket below `count`.
pub open spec fn within(plan: Seq<Seq<(usize, Seq<Seq<char>>)>>, count: nat) -> bool {
    forall|k: int, j: int|
        0 <= k < plan.len() && 0 <= j < plan[k].len() ==> (#[trigger] plan[k][j]).0 < count
}

/// Where a flush falls makes no difference to a bucket: the lines that two
/// runs of entries hold for it are those of the first, then those of the
/// second.
pub proof fn lemma_flush_boundary(
    first: Seq<(usize, Seq<char>)>,
    second: Seq<(usize, Seq<char>)>,
    bucket: usize,
)
    ensures
        bucket_lines(first + second, bucket) == bucket_lines(first, bucket) + bucket_lines(
            second,
            bucket,
        ),
    decreases second.len(),
{
    if second.len() == 0 {
        assert(first + second =~= first);
        assert(bucket_lines(first, bucket) + bucket_lines(second, bucket) =~= bucket_lines(
            first,
            bucket,
        ));
    } else {
        lemma_flush_boundary(first, second.drop_last(), bucket);
        assert((first + second).drop_last() =~= first + second.drop_last());
        assert((first + second).last() == second.last());
        assert(bucket_lines(first + second, bucket) =~= bucket_lines(first, bucket) + bucket_lines(
            second,
            bucket,
        ));
    }
}

/// What writes, carried out one after the other, append to a bucket: the
/// appends of the first writes, then those of the writes that follow.
pub proof fn lemma_written_concat(
    first: Seq<(usize, Seq<Seq<char>>)>,
    second: Seq<(usize, Seq<Seq<char>>)>,
    bucket: usize,
)
    ensures
        written(first + second, bucket) == written(first, bucket) + written(second, bucket),
    decreases second.len(),
{
    if second.len() == 0 {
        assert(first + second =~= first);
        assert(written(first, bucket) + written(second, bucket) =~= written(first, bucket));
    } else {
        lemma_written_concat(first, second.drop_last(), bucket);
        assert((first + second).drop_last() =~= first + second.drop_last());
        assert((first + second).last() == second.last());
        assert(written(first + second, bucket) =~= written(first, bucket) + written(
            second,
            bucket,
        ));
    }
}

/// What the groups of the buckets below `count` append to `bucket`.
proof fn lemma_groups_written(entries: Seq<(usize, Seq<char>)>, count: nat, bucket: usize)
    requires
        count <= usize::MAX + 1,
    ensures
        written(groups(entries, count), bucket) == if bucket < count {
            bucket_lines(entries, bucket)
        } else {
            Seq::empty()
        },
    decreases count,
{
    if count > 0 {
        lemma_groups_written(entries, (count - 1) as nat, bucket);
        let lines = bucket_lines(entries, (count - 1) as usize);
        let front = groups(entries, (count - 1) as nat);
        if lines.len() == 0 {
            if bucket == count - 1 {
                assert(bucket_lines(entries, bucket) =~= Seq::<Seq<char>>::empty());
            }
        } else {
            let all = front.push(((count - 1) as usize, lines));
            assert(all.drop_last() =~= front);
            if bucket == count - 1 {
                assert(written(all, bucket) =~= bucket_lines(entries, bucket));
            }
        }
    }
}

/// A flush, carried out batch by batch and write by write, appends to every
/// bucket the lines that were buffered for it, in the order they were
/// buffered, and nothing else.
pub proof fn lemma_flush_writes_the_buffer(
    entries: Seq<(usize, Seq<char>)>,
    count: usize,
    bucket: usize,
)
    requires
        bucket < count,
    ensures
        written(flush_plan(entries, count as nat).flatten(), bucket) == bucket_lines(
            entries,
            bucket,
        ),
{
    lemma_batches_cover(groups(entries, count as nat), MAX_OPEN_OUTPUT_FILES as nat);
    lemma_groups_written(entries, count as nat, bucket);
}

/// Every group of a flush names a bucket of the run.
proof fn lemma_groups_within(entries: Seq<(usize, Seq<char>)>, count: nat)
    requires
        count <= usize::MAX + 1,
    ensures
        forall|i: int|
            0 <= i < groups(entries, count).len() ==> (#[trigger] groups(entries, count)[i]).0
                < count,
    decreases count,
{
    if count > 0 {
        lemma_groups_within(entries, (count - 1) as nat);
        let front = groups(entries, (count - 1) as nat);
        let all = groups(entries, count);
        assert forall|i: int| 0 <= i < all.len() implies (#[trigger] all[i]).0 < count by {
            if i < front.len() {
                assert(all[i] == front[i]);
            }
        }
    }
}

/// Every write of a flush plan names a bucket of the run.
pub proof fn lemma_plan_within(entries: Seq<(usize, Seq<char>)>, count: usize)
    ensures
        within(flush_plan(entries, count as nat), count as nat),
{
    let all = groups(entries, count as nat);
    let size: nat = MAX_OPEN_OUTPUT_FILES as nat;
    let plan = flush_plan(entries, count as nat);
    lemma_groups_within(entries, count as nat);
    assert forall|k: int, j: int| 0 <= k < plan.len() && 0 <= j < plan[k].len() implies (
    #[trigger] plan[k][j]).0 < count by {
        lemma_batch_bounds(all.len() as int, size as int, k);
        assert(plan[k] == batch_at(all, size, k));
        assert(plan[k][j] == all[k * size + j]);
    }
}

} // verus!
