//! What holds of a run as a whole, proved from the rules of its parts.
//!
//! A run is described by the lines that arrive, the bucket drawn for each
//! line that is not blank, and the order in which the lines of a bucket are
//! emitted. The laws hold for every such choice.

use crate::emit::{
    emitted, lemma_empty_bucket_yields_no_file, lemma_emitted_holds_the_buckets,
    lemma_filled_count, output_lines,
};
use crate::flush::bucket_lines;
use crate::gather::{
    gathered, lemma_gathered_counts, lemma_gathered_empty, lemma_gathered_grows,
    lemma_gathered_is_flatten, lemma_gathered_pointwise,
};
use crate::names::output_name;
use crate::plan::buckets_for;
use crate::rotation::{arrival_order, lemma_arrival_order_permutes};
use crate::text::{
    blank, kept, lemma_kept_holds_no_blank_line, lemma_kept_keeps_all,
    lemma_kept_of_permutation,
};
use vstd::multiset::Multiset;
use vstd::prelude::*;

verus! {

/// The lines of buffered entries, without their buckets.
pub open spec fn lines_of(entries: Seq<(usize, Seq<char>)>) -> Seq<Seq<char>> {
    Seq::new(entries.len(), |i: int| entries[i].1)
}

/// What each of `count` buckets holds once `entries` have been written.
pub open spec fn bucket_contents(entries: Seq<(usize, Seq<char>)>, count: usize) -> Seq<
    Seq<Seq<char>>,
> {
    Seq::new(count as nat, |b: int| bucket_lines(entries, b as usize))
}

/// The lines of a run that are not blank, each with the bucket drawn for it.
pub open spec fn assignments(lines: Seq<Seq<char>>, draws: Seq<usize>) -> Seq<
    (usize, Seq<char>),
> {
    Seq::new(kept(lines).len(), |i: int| (draws[i], kept(lines)[i]))
}

/// Every line assigned to a bucket ends up in a bucket, once: the buckets
/// together hold the assigned lines, each as often as it was assigned.
pub proof fn lemma_buckets_hold_the_lines(entries: Seq<(usize, Seq<char>)>, count: usize)
    requires
        forall|i: int| 0 <= i < entries.len() ==> (#[trigger] entries[i]).0 < count,
    ensures
        bucket_contents(entries, count).flatten().to_multiset() == lines_of(entries).to_multiset(),
    decreases entries.len(),
{
    lemma_buckets_gathered(entries, count);
    lemma_gathered_is_flatten(bucket_contents(entries, count));
}

/// The same, with the lines of the buckets taken together.
proof fn lemma_buckets_gathered(entries: Seq<(usize, Seq<char>)>, count: usize)
    requires
        forall|i: int| 0 <= i < entries.len() ==> (#[trigger] entries[i]).0 < count,
    ensures
        gathered(bucket_contents(entries, count)) == lines_of(entries).to_multiset(),
    decreases entries.len(),
{
    if entries.len() == 0 {
        lemma_gathered_empty(bucket_contents(entries, count));
        assert(lines_of(entries) =~= Seq::<Seq<char>>::empty());
        lines_of(entries).to_multiset_ensures();
        vstd::seq_lib::to_multiset_len(lines_of(entries));
        assert(lines_of(entries).to_multiset() =~= Multiset::<Seq<char>>::empty());
    } else {
        let front = entries.drop_last();
        let bucket = entries.last().0;
        let line = entries.last().1;
        assert forall|i: int| 0 <= i < front.len() implies (#[trigger] front[i]).0 < count by {
            assert(front[i] == entries[i]);
        }
        lemma_buckets_gathered(front, count);
        let before = bucket_contents(front, count);
        assert(entries[entries.len() - 1].0 < count);
        assert(bucket_contents(entries, count) =~= before.update(
            bucket as int,
            before[bucket as int].push(line),
        ));
        lemma_gathered_grows(before, bucket as int, line);
        assert(lines_of(entries) =~= lines_of(front).push(line));
        vstd::seq_lib::to_multiset_build(lines_of(front), line);
    }
}

/// A bucket holds only lines of the entries.
proof fn lemma_bucket_lines_come_from_entries(entries: Seq<(usize, Seq<char>)>, bucket: usize)
    requires
        forall|i: int| 0 <= i < entries.len() ==> !blank((#[trigger] entries[i]).1),
    ensures
        forall|i: int|
            0 <= i < bucket_lines(entries, bucket).len() ==> !blank(
                #[trigger] bucket_lines(entries, bucket)[i],
            ),
    decreases entries.len(),
{
    if entries.len() > 0 {
        assert forall|i: int| 0 <= i < entries.drop_last().len() implies !blank(
            (#[trigger] entries.drop_last()[i]).1,
        ) by {
            assert(entries.drop_last()[i] == entries[i]);
        }
        lemma_bucket_lines_come_from_entries(entries.drop_last(), bucket);
        assert(!blank(entries[entries.len() - 1].1));
        let front = bucket_lines(entries.drop_last(), bucket);
        let all = bucket_lines(entries, bucket);
        assert forall|i: int| 0 <= i < all.len() implies !blank(#[trigger] all[i]) by {
            if i < front.len() {
                assert(all[i] == front[i]);
            }
        }
    }
}

/// A line that was assigned to a bucket is not blank, so the second look
/// for blank lines, when the bucket is read back, drops nothing.
pub proof fn lemma_buckets_hold_no_blank_line(
    lines: Seq<Seq<char>>,
    draws: Seq<usize>,
    bucket: usize,
)
    requires
        draws.len() == kept(lines).len(),
    ensures
        kept(bucket_lines(assignments(lines, draws), bucket)) == bucket_lines(
            assignments(lines, draws),
            bucket,
        ),
{
    let entries = assignments(lines, draws);
    lemma_kept_holds_no_blank_line(lines);
    assert forall|i: int| 0 <= i < entries.len() implies !blank((#[trigger] entries[i]).1) by {
        assert(entries[i].1 == kept(lines)[i]);
    }
    lemma_bucket_lines_come_from_entries(entries, bucket);
    lemma_kept_keeps_all(bucket_lines(entries, bucket));
}

/// No line is lost and none is made. Let `lines` arrive in any order, let `draws` assign a
/// bucket to each of them that is not blank, and let `outputs` hold, for
/// every bucket, the lines of the bucket that are not blank in any order
/// (nothing for a bucket that yields no file). Then the output files
/// together hold the lines that are not blank, each as often as it arrived.
pub proof fn lemma_lines_conserved(
    lines: Seq<Seq<char>>,
    draws: Seq<usize>,
    count: usize,
    outputs: Seq<Seq<Seq<char>>>,
)
    requires
        draws.len() == kept(lines).len(),
        forall|i: int| 0 <= i < draws.len() ==> (#[trigger] draws[i]) < count,
        outputs.len() == count,
        forall|b: int|
            0 <= b < count ==> (#[trigger] outputs[b]).to_multiset() == kept(
                bucket_lines(assignments(lines, draws), b as usize),
            ).to_multiset(),
    ensures
        outputs.flatten().to_multiset() == kept(lines).to_multiset(),
{
    let entries = assignments(lines, draws);
    let contents = bucket_contents(entries, count);
    assert forall|b: int| 0 <= b < count implies (#[trigger] outputs[b]).to_multiset()
        == contents[b].to_multiset() by {
        lemma_buckets_hold_no_blank_line(lines, draws, b as usize);
    }
    lemma_gathered_pointwise(outputs, contents);
    lemma_gathered_is_flatten(outputs);
    assert forall|i: int| 0 <= i < entries.len() implies (#[trigger] entries[i]).0 < count by {
        assert(entries[i].0 == draws[i]);
    }
    lemma_buckets_gathered(entries, count);
    assert(lines_of(entries) =~= kept(lines));
}

/// With more buckets than lines to assign, some bucket receives no line,
/// whatever the draws.
pub proof fn lemma_some_bucket_stays_empty(entries: Seq<(usize, Seq<char>)>, count: usize)
    requires
        forall|i: int| 0 <= i < entries.len() ==> (#[trigger] entries[i]).0 < count,
        entries.len() < count,
    ensures
        exists|b: int| 0 <= b < count && #[trigger] bucket_lines(entries, b as usize).len() == 0,
{
    let contents = bucket_contents(entries, count);
    if forall|b: int| 0 <= b < count ==> (#[trigger] contents[b]).len() > 0 {
        lemma_gathered_counts(contents);
        lemma_buckets_gathered(entries, count);
        vstd::seq_lib::to_multiset_len(lines_of(entries));
        assert(false);
    } else {
        let b = choose|b: int| 0 <= b < count && !((#[trigger] contents[b]).len() > 0);
        assert(bucket_lines(entries, b as usize).len() == 0);
    }
}

/// An input no larger than the ceiling gets one bucket, and the output file
/// of a run with one bucket carries the base name alone.
pub proof fn lemma_small_input_keeps_base_name(total: nat, ceiling: nat, base: Seq<char>)
    requires
        ceiling > 0,
        total <= ceiling,
    ensures
        buckets_for(total, ceiling) == 1,
        output_name(base, buckets_for(total, ceiling), 0) == base + ".jsonl"@,
{
    if total == ceiling {
        assert(total / ceiling == 1 && total % ceiling == 0) by (nonlinear_arith)
            requires
                total == ceiling,
                ceiling > 0,
        ;
    } else {
        assert(total / ceiling == 0 && total % ceiling == total) by (nonlinear_arith)
            requires
                total < ceiling,
                ceiling > 0,
        ;
    }
}

/// Whether `outputs` are the output files of a run on `files` in which
/// `draws` names the bucket of every line that is not blank, in the order
/// in which the lines arrive.
pub open spec fn ran(
    files: Seq<Seq<Seq<char>>>,
    draws: Seq<usize>,
    count: usize,
    base: Seq<char>,
    outputs: Seq<(Seq<char>, Seq<Seq<char>>)>,
) -> bool {
    &&& draws.len() == kept(arrival_order(files)).len()
    &&& forall|i: int| 0 <= i < draws.len() ==> (#[trigger] draws[i]) < count
    &&& emitted(
        bucket_contents(assignments(arrival_order(files), draws), count),
        count as nat,
        base,
        outputs,
    )
}

/// A run loses no line and makes none. Whatever buckets are drawn and in
/// whatever order the lines of a bucket are emitted, the output files
/// together hold the lines of the input files that are not blank, each as
/// often as the input files hold it.
pub proof fn lemma_run_conserves_lines(
    files: Seq<Seq<Seq<char>>>,
    draws: Seq<usize>,
    count: usize,
    base: Seq<char>,
    outputs: Seq<(Seq<char>, Seq<Seq<char>>)>,
)
    requires
        ran(files, draws, count, base, outputs),
    ensures
        output_lines(outputs).flatten().to_multiset() == kept(files.flatten()).to_multiset(),
{
    let order = arrival_order(files);
    let entries = assignments(order, draws);
    let store = bucket_contents(entries, count);
    lemma_emitted_holds_the_buckets(store, count as nat, base, outputs);
    assert forall|i: int| 0 <= i < entries.len() implies (#[trigger] entries[i]).0 < count by {
        assert(entries[i].0 == draws[i]);
    }
    lemma_buckets_hold_the_lines(entries, count);
    assert(lines_of(entries) =~= kept(order));
    lemma_kept_of_permutation(store.flatten(), kept(order));
    lemma_kept_holds_no_blank_line(order);
    lemma_kept_keeps_all(kept(order));
    lemma_arrival_order_permutes(files);
    lemma_kept_of_permutation(order, files.flatten());
}

/// A run never makes more output files than it has buckets, and with more
/// buckets than lines that are not blank it makes fewer: some bucket
/// receives no line and yields no file.
pub proof fn lemma_run_skips_empty_buckets(
    files: Seq<Seq<Seq<char>>>,
    draws: Seq<usize>,
    count: usize,
    base: Seq<char>,
    outputs: Seq<(Seq<char>, Seq<Seq<char>>)>,
)
    requires
        ran(files, draws, count, base, outputs),
    ensures
        outputs.len() <= count,
        kept(files.flatten()).len() < count ==> outputs.len() < count,
{
    let order = arrival_order(files);
    let entries = assignments(order, draws);
    let store = bucket_contents(entries, count);
    lemma_filled_count(store);
    if kept(files.flatten()).len() < count {
        lemma_arrival_order_permutes(files);
        lemma_kept_of_permutation(order, files.flatten());
        vstd::seq_lib::to_multiset_len(kept(order));
        vstd::seq_lib::to_multiset_len(kept(files.flatten()));
        assert forall|i: int| 0 <= i < entries.len() implies (#[trigger] entries[i]).0 < count by {
            assert(entries[i].0 == draws[i]);
        }
        lemma_some_bucket_stays_empty(entries, count);
        let b = choose|b: int|
            0 <= b < count && #[trigger] bucket_lines(entries, b as usize).len() == 0;
        assert(store[b] == bucket_lines(entries, b as usize));
        assert(kept(store[b]) =~= Seq::<Seq<char>>::empty());
        lemma_empty_bucket_yields_no_file(store, b);
    }
}

/// In a run with one bucket the output file, if there is one, carries the
/// base name alone.
pub proof fn lemma_single_bucket_run(
    files: Seq<Seq<Seq<char>>>,
    draws: Seq<usize>,
    base: Seq<char>,
    outputs: Seq<(Seq<char>, Seq<Seq<char>>)>,
)
    requires
        ran(files, draws, 1, base, outputs),
    ensures
        outputs.len() <= 1,
        forall|j: int| 0 <= j < outputs.len() ==> (#[trigger] outputs[j]).0 == base + ".jsonl"@,
{
    lemma_run_skips_empty_buckets(files, draws, 1, base, outputs);
}

/// What the draws decide. Two runs on the same input in which the same
/// buckets are drawn make the same output files: as many, under the same
/// names, each holding the same lines as often. Only the order of the
/// lines within a file is left to the permutation drawn for it.
pub proof fn lemma_same_draws_same_files(
    files: Seq<Seq<Seq<char>>>,
    draws: Seq<usize>,
    count: usize,
    base: Seq<char>,
    one: Seq<(Seq<char>, Seq<Seq<char>>)>,
    other: Seq<(Seq<char>, Seq<Seq<char>>)>,
)
    requires
        ran(files, draws, count, base, one),
        ran(files, draws, count, base, other),
    ensures
        one.len() == other.len(),
        forall|j: int|
            0 <= j < one.len() ==> (#[trigger] one[j]).0 == other[j].0 && one[j].1.to_multiset()
                == other[j].1.to_multiset(),
{
}

} // verus!
