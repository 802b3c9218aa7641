//! A run on lines held in memory: lists of lines in place of files, and
//! the same rotation, distributor and emitter as a run on files.

use crate::buffer::byte_total;
use crate::distribute::{after_assign, planned, Distributor};
use crate::emit::{
    emitted, filled, lemma_filled_within, output_lines, output_views, Emitter, OutputFile,
};
use crate::flush::{
    bucket_lines, lemma_flush_boundary, lemma_flush_writes_the_buffer, lemma_plan_within,
    lemma_written_concat, plan_views, within, write_views, written, BucketWrite,
};
use crate::laws::{
    assignments, bucket_contents, lemma_run_conserves_lines, lemma_run_skips_empty_buckets,
    lemma_single_bucket_run, ran,
};
use crate::names::output_name;
use crate::rotation::{file_texts, read_in_batches};
use crate::text::{blank, kept, texts};
use vstd::prelude::*;

verus! {

/// Carries out a flush on buckets held in memory: every write appends its
/// lines to its bucket.
pub fn append_plan(store: &mut Vec<Vec<String>>, plan: Vec<Vec<BucketWrite>>)
    requires
        within(plan_views(plan@), old(store)@.len()),
    ensures
        final(store)@.len() == old(store)@.len(),
        forall|b: int|
            0 <= b < old(store)@.len() ==> texts((#[trigger] final(store)@[b])@) == texts(
                old(store)@[b]@,
            ) + written(plan_views(plan@).flatten(), b as usize),
{
    let ghost all = plan_views(plan@);
    let total: usize = store.len();
    let ghost count = store@.len();
    assert(all.take(0) =~= Seq::<Seq<(usize, Seq<Seq<char>>)>>::empty());
    assert forall|b: int| 0 <= b < count implies texts((#[trigger] store@[b])@) == texts(
        old(store)@[b]@,
    ) + written(all.take(0).flatten(), b as usize) by {
        assert(texts(store@[b]@) + Seq::<Seq<char>>::empty() =~= texts(store@[b]@));
    }
    for batch in outer: plan
        invariant
            outer.seq() == plan@,
            all == plan_views(plan@),
            within(all, count),
            store@.len() == count,
            count == total,
            count == old(store)@.len(),
            forall|b: int|
                0 <= b < count ==> texts((#[trigger] store@[b])@) == texts(old(store)@[b]@)
                    + written(all.take(outer.index() as int).flatten(), b as usize),
    {
        let ghost k: int = outer.index() as int;
        let ghost writes = write_views(batch@);
        let ghost start = store@;
        assert(all[k] == writes);
        assert(writes.take(0) =~= Seq::<(usize, Seq<Seq<char>>)>::empty());
        assert forall|b: int| 0 <= b < count implies texts((#[trigger] store@[b])@) == texts(
            start[b]@,
        ) + written(writes.take(0), b as usize) by {
            assert(texts(store@[b]@) + Seq::<Seq<char>>::empty() =~= texts(store@[b]@));
        }
        for write in inner: batch
            invariant
                inner.seq() == batch@,
                writes == write_views(batch@),
                store@.len() == count,
                start.len() == count,
                count == total,
                forall|j: int| 0 <= j < writes.len() ==> (#[trigger] writes[j]).0 < count,
                forall|b: int|
                    0 <= b < count ==> texts((#[trigger] store@[b])@) == texts(start[b]@)
                        + written(writes.take(inner.index() as int), b as usize),
        {
            let ghost j: int = inner.index() as int;
            let ghost before = store@;
            let BucketWrite { bucket, lines } = write;
            let mut lines = lines;
            let ghost added = texts(lines@);
            proof {
                assert(writes[j] == (bucket, added));
                assert(writes.take(j + 1).drop_last() =~= writes.take(j));
                assert(writes.take(j + 1).last() == writes[j]);
            }
            store[bucket].append(&mut lines);
            proof {
                assert forall|b: int| 0 <= b < count implies texts((#[trigger] store@[b])@)
                    == texts(start[b]@) + written(writes.take(j + 1), b as usize) by {
                    if b == bucket {
                        assert(texts(store@[b]@) =~= texts(before[b]@) + added);
                        assert(texts(store@[b]@) =~= texts(start[b]@) + (written(
                            writes.take(j),
                            b as usize,
                        ) + added));
                    } else {
                        assert(store@[b] == before[b]);
                    }
                }
            }
        }
        proof {
            assert(writes.take(writes.len() as int) =~= writes);
            assert(all.take(k + 1) =~= all.take(k).push(writes));
            all.take(k).lemma_flatten_push(writes);
            assert forall|b: int| 0 <= b < count implies texts((#[trigger] store@[b])@) == texts(
                old(store)@[b]@,
            ) + written(all.take(k + 1).flatten(), b as usize) by {
                lemma_written_concat(all.take(k).flatten(), writes, b as usize);
                assert(texts(store@[b]@) =~= texts(old(store)@[b]@) + (written(
                    all.take(k).flatten(),
                    b as usize,
                ) + written(writes, b as usize)));
            }
        }
    }
    assert(all.take(plan@.len() as int) =~= all);
}

/// Whether `store` holds, bucket by bucket, the lines of `lines` that are
/// not blank, each in the bucket that `draws` names for it.
pub open spec fn scattered(
    lines: Seq<Seq<char>>,
    draws: Seq<usize>,
    count: usize,
    store: Seq<Seq<Seq<char>>>,
) -> bool {
    &&& draws.len() == kept(lines).len()
    &&& forall|i: int| 0 <= i < draws.len() ==> (#[trigger] draws[i]) < count
    &&& store == bucket_contents(assignments(lines, draws), count)
}

/// Runs the distribution phase on lines held in memory. Every line is
/// offered to the distributor in turn, and every flush it asks for is
/// carried out on buckets held in memory. The buckets are returned.
pub fn scatter(lines: Vec<String>, distributor: &mut Distributor) -> (store: Vec<Vec<String>>)
    requires
        old(distributor).wf(),
        old(distributor).pending().len() == 0,
    ensures
        final(distributor).wf(),
        final(distributor).buckets() == old(distributor).buckets(),
        final(distributor).threshold() == old(distributor).threshold(),
        final(distributor).seed_used() == old(distributor).seed_used(),
        final(distributor).pending().len() == 0,
        store@.len() == old(distributor).buckets(),
        exists|draws: Seq<usize>| #[trigger]
            scattered(texts(lines@), draws, old(distributor).buckets(), file_texts(store@)),
{
    let ghost all = texts(lines@);
    let bucket_count: usize = distributor.bucket_count();
    let ghost threshold = distributor.threshold();
    let mut store: Vec<Vec<String>> = Vec::new();
    let mut made: usize = 0;
    while made < bucket_count
        invariant
            made <= bucket_count,
            store@.len() == made,
            forall|b: int| 0 <= b < made ==> (#[trigger] store@[b])@.len() == 0,
        decreases bucket_count - made,
    {
        store.push(Vec::new());
        made = made + 1;
    }
    let ghost mut draws: Seq<usize> = Seq::empty();
    let ghost mut flushed: Seq<(usize, Seq<char>)> = Seq::empty();
    proof {
        assert(all.take(0) =~= Seq::<Seq<char>>::empty());
        assert(flushed + distributor.pending() =~= assignments(all.take(0), draws));
        assert forall|b: int| 0 <= b < bucket_count implies texts((#[trigger] store@[b])@)
            == bucket_lines(flushed, b as usize) by {
            assert(texts(store@[b]@) =~= Seq::<Seq<char>>::empty());
        }
    }
    for line in it: lines
        invariant
            it.seq() == lines@,
            all == texts(lines@),
            distributor.wf(),
            distributor.buckets() == bucket_count,
            distributor.buckets() == old(distributor).buckets(),
            distributor.threshold() == threshold,
            threshold == old(distributor).threshold(),
            distributor.seed_used() == old(distributor).seed_used(),
            store@.len() == bucket_count,
            draws.len() == kept(all.take(it.index() as int)).len(),
            forall|i: int| 0 <= i < draws.len() ==> (#[trigger] draws[i]) < bucket_count,
            flushed + distributor.pending() == assignments(all.take(it.index() as int), draws),
            forall|b: int|
                0 <= b < bucket_count ==> texts((#[trigger] store@[b])@) == bucket_lines(
                    flushed,
                    b as usize,
                ),
    {
        let ghost k: int = it.index() as int;
        let ghost pending = distributor.pending();
        let ghost text = line@;
        proof {
            assert(all.take(k + 1).drop_last() =~= all.take(k));
            assert(all.take(k + 1).last() == text);
        }
        let plan = distributor.offer(line);
        proof {
            if !blank(text) {
                let bucket = choose|bucket: usize|
                    bucket < bucket_count && (distributor.pending(), planned(plan))
                        == #[trigger] after_assign(pending, threshold, bucket_count, bucket, text);
                let grown = pending.push((bucket, text));
                let earlier = assignments(all.take(k), draws);
                draws = draws.push(bucket);
                assert(assignments(all.take(k + 1), draws) =~= earlier.push((bucket, text)));
                assert(flushed + grown =~= earlier.push((bucket, text)));
                if byte_total(grown) >= threshold {
                    lemma_plan_within(grown, bucket_count);
                }
            }
        }
        match plan {
            Some(writes) => {
                append_plan(&mut store, writes);
                proof {
                    let bucket = draws.last();
                    let buffered = pending.push((bucket, text));
                    assert forall|b: int| 0 <= b < bucket_count implies texts(
                        (#[trigger] store@[b])@,
                    ) == bucket_lines(flushed + buffered, b as usize) by {
                        lemma_flush_writes_the_buffer(buffered, bucket_count, b as usize);
                        lemma_flush_boundary(flushed, buffered, b as usize);
                    }
                    flushed = flushed + buffered;
                    assert(flushed + distributor.pending() =~= flushed);
                }
            },
            None => {},
        }
    }
    proof {
        assert(all.take(lines@.len() as int) =~= all);
    }
    let ghost pending = distributor.pending();
    let last = distributor.finish();
    match last {
        Some(writes) => {
            proof {
                lemma_plan_within(pending, bucket_count);
            }
            append_plan(&mut store, writes);
            proof {
                assert forall|b: int| 0 <= b < bucket_count implies texts((#[trigger] store@[b])@)
                    == bucket_lines(flushed + pending, b as usize) by {
                    lemma_flush_writes_the_buffer(pending, bucket_count, b as usize);
                    lemma_flush_boundary(flushed, pending, b as usize);
                }
            }
        },
        None => {
            proof {
                assert(flushed + pending =~= flushed);
            }
        },
    }
    proof {
        assert(file_texts(store@) =~= bucket_contents(assignments(all, draws), bucket_count));
        assert(scattered(all, draws, bucket_count, file_texts(store@)));
    }
    store
}

/// Runs the emission phase on buckets held in memory: every bucket in
/// turn is handed to the emitter, and the files it makes are collected.
pub fn emit_all(store: Vec<Vec<String>>, emitter: &mut Emitter) -> (outputs: Vec<OutputFile>)
    requires
        old(emitter).wf(),
        old(emitter).position() == 0,
        store@.len() == old(emitter).buckets(),
    ensures
        final(emitter).wf(),
        final(emitter).buckets() == old(emitter).buckets(),
        final(emitter).base() == old(emitter).base(),
        final(emitter).seed_used() == old(emitter).seed_used(),
        final(emitter).position() == old(emitter).buckets(),
        emitted(
            file_texts(store@),
            old(emitter).buckets() as nat,
            old(emitter).base(),
            output_views(outputs@),
        ),
{
    let ghost all = file_texts(store@);
    let ghost count: nat = emitter.buckets() as nat;
    let ghost base = emitter.base();
    let mut outputs: Vec<OutputFile> = Vec::new();
    proof {
        assert(all.take(0) =~= Seq::<Seq<Seq<char>>>::empty());
    }
    for lines in it: store
        invariant
            it.seq() == store@,
            all == file_texts(store@),
            store@.len() == count,
            emitter.wf(),
            emitter.buckets() == count,
            emitter.buckets() == old(emitter).buckets(),
            emitter.base() == base,
            base == old(emitter).base(),
            emitter.seed_used() == old(emitter).seed_used(),
            emitter.position() == it.index(),
            emitted(all.take(it.index() as int), count, base, output_views(outputs@)),
    {
        let ghost k: int = it.index() as int;
        let ghost before = output_views(outputs@);
        let ghost earlier = all.take(k);
        let ghost later = all.take(k + 1);
        proof {
            assert(later.drop_last() =~= earlier);
            assert(later.last() == texts(lines@));
        }
        match emitter.emit(lines) {
            Some(file) => {
                let ghost made = file@;
                outputs.push(file);
                proof {
                    let after = output_views(outputs@);
                    assert(after =~= before.push(made));
                    assert(filled(later) == filled(earlier).push(k));
                    assert forall|j: int| 0 <= j < after.len() implies {
                        &&& (#[trigger] after[j]).0 == output_name(
                            base,
                            count,
                            filled(later)[j] as nat,
                        )
                        &&& after[j].1.to_multiset() == kept(
                            later[filled(later)[j]],
                        ).to_multiset()
                    } by {
                        if j < before.len() {
                            assert(after[j] == before[j]);
                            lemma_filled_within(earlier, j);
                            assert(later[filled(earlier)[j]] == earlier[filled(earlier)[j]]);
                        }
                    }
                }
            },
            None => {
                proof {
                    assert(filled(later) == filled(earlier));
                    assert forall|j: int| 0 <= j < before.len() implies {
                        &&& (#[trigger] before[j]).0 == output_name(
                            base,
                            count,
                            filled(later)[j] as nat,
                        )
                        &&& before[j].1.to_multiset() == kept(
                            later[filled(later)[j]],
                        ).to_multiset()
                    } by {
                        lemma_filled_within(earlier, j);
                        assert(later[filled(earlier)[j]] == earlier[filled(earlier)[j]]);
                    }
                }
            },
        }
    }
    proof {
        assert(all.take(store@.len() as int) =~= all);
    }
    outputs
}

/// A whole run on lines held in memory. `files` are the input files in the
/// order in which they are processed. Their lines are read in the order of
/// arrival and scattered over `bucket_count` buckets, and every bucket that
/// holds a line becomes an output file.
///
/// The output files together hold the lines of the input that are not
/// blank, each as often as the input holds it. There are never more files
/// than buckets, and fewer where there are more buckets than such lines.
/// With one bucket the file carries the base name alone.
pub fn shuffle_lines(
    files: Vec<Vec<String>>,
    output_name: &str,
    bucket_count: usize,
    seed: Option<u64>,
) -> (outputs: Vec<OutputFile>)
    requires
        bucket_count > 0,
    ensures
        exists|draws: Seq<usize>| #[trigger]
            ran(file_texts(files@), draws, bucket_count, output_name@, output_views(outputs@)),
        output_lines(output_views(outputs@)).flatten().to_multiset() == kept(
            file_texts(files@).flatten(),
        ).to_multiset(),
        outputs@.len() <= bucket_count,
        kept(file_texts(files@).flatten()).len() < bucket_count ==> outputs@.len() < bucket_count,
        bucket_count == 1 ==> forall|j: int|
            0 <= j < outputs@.len() ==> (#[trigger] outputs@[j]).name@ == output_name@
                + ".jsonl"@,
{
    let ghost all = file_texts(files@);
    let lines: Vec<String> = read_in_batches(files);
    let mut distributor = Distributor::new(bucket_count, seed);
    let store: Vec<Vec<String>> = scatter(lines, &mut distributor);
    let mut emitter = Emitter::new(bucket_count, output_name, seed);
    let outputs: Vec<OutputFile> = emit_all(store, &mut emitter);
    proof {
        let made = output_views(outputs@);
        let draws = choose|draws: Seq<usize>| #[trigger]
            scattered(texts(lines@), draws, bucket_count, file_texts(store@));
        assert(ran(all, draws, bucket_count, output_name@, made));
        lemma_run_conserves_lines(all, draws, bucket_count, output_name@, made);
        lemma_run_skips_empty_buckets(all, draws, bucket_count, output_name@, made);
        if bucket_count == 1 {
            lemma_single_bucket_run(all, draws, output_name@, made);
            assert forall|j: int| 0 <= j < outputs@.len() implies (#[trigger] outputs@[j]).name@
                == output_name@ + ".jsonl"@ by {
                assert(made[j].0 == outputs@[j].name@);
            }
        }
    }
    outputs
}

} // verus!
