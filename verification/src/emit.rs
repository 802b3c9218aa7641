//! The emission phase: bucket by bucket, in ascending order, the lines of a
//! bucket are permuted and become one output file. A bucket without lines
//! yields no file.
//!
//! The caller reads the temporary file of the bucket that is due, writes
//! the output file it is handed, and removes the temporary file after that.

use crate::gather::{gathered, lemma_gathered_is_flatten};
use crate::names::{output_file_name, output_name};
use crate::random::{next_seed, Generator};
use crate::text::{blank, is_blank, kept, lemma_kept_concat, texts};
use vstd::multiset::Multiset;
use vstd::prelude::*;

verus! {

/// One output file: its name within the output directory, and its lines in
/// the order they are written.
#[derive(Debug)]
pub struct OutputFile {
    pub name: String,
    pub lines: Vec<String>,
}

impl View for OutputFile {
    type V = (Seq<char>, Seq<Seq<char>>);

    open spec fn view(&self) -> (Seq<char>, Seq<Seq<char>>) {
        (self.name@, texts(self.lines@))
    }
}

/// The name and the lines of every output file.
pub open spec fn output_views(outputs: Seq<OutputFile>) -> Seq<(Seq<char>, Seq<Seq<char>>)> {
    Seq::new(outputs.len(), |i: int| outputs[i]@)
}

/// The buckets that yield a file, in ascending order: those that hold a
/// line that is not blank.
pub open spec fn filled(store: Seq<Seq<Seq<char>>>) -> Seq<int>
    decreases store.len(),
{
    if store.len() == 0 {
        Seq::empty()
    } else if kept(store.last()).len() == 0 {
        filled(store.drop_last())
    } else {
        filled(store.drop_last()).push(store.len() - 1)
    }
}

/// Whether `outputs` are the files that the emission phase makes of the
/// buckets `store` in a run of `count` buckets: one file for every bucket
/// that yields one, in ascending order of the buckets, named after its
/// bucket, and holding the lines of the bucket that are not blank, each as
/// often as the bucket does.
pub open spec fn emitted(
    store: Seq<Seq<Seq<char>>>,
    count: nat,
    base: Seq<char>,
    outputs: Seq<(Seq<char>, Seq<Seq<char>>)>,
) -> bool {
    &&& outputs.len() == filled(store).len()
    &&& forall|j: int|
        0 <= j < outputs.len() ==> {
            &&& (#[trigger] outputs[j]).0 == output_name(base, count, filled(store)[j] as nat)
            &&& outputs[j].1.to_multiset() == kept(store[filled(store)[j]]).to_multiset()
        }
}

/// Drops the blank lines of `lines`; the others stay in their order.
pub fn retain_non_blank(lines: Vec<String>) -> (rest: Vec<String>)
    ensures
        texts(rest@) == kept(texts(lines@)),
{
    let ghost all = texts(lines@);
    let mut rest: Vec<String> = Vec::new();
    assert(texts(rest@) =~= kept(all.take(0))) by {
        assert(all.take(0) =~= Seq::<Seq<char>>::empty());
    }
    for line in it: lines
        invariant
            it.seq() == lines@,
            all == texts(lines@),
            texts(rest@) == kept(all.take(it.index() as int)),
    {
        let ghost k: int = it.index() as int;
        let ghost before = rest@;
        assert(all.take(k + 1).drop_last() =~= all.take(k));
        assert(all.take(k + 1).last() == line@);
        if !is_blank(line.as_str()) {
            rest.push(line);
            assert(texts(rest@) =~= texts(before).push(line@));
        }
    }
    assert(all.take(lines@.len() as int) =~= all);
    rest
}

/// The state of the emission phase.
pub struct Emitter {
    bucket_count: usize,
    output_name: String,
    generator: Generator,
    next: usize,
}

impl Emitter {
    /// Number of buckets of the run.
    pub closed spec fn buckets(&self) -> usize {
        self.bucket_count
    }

    /// Base name of the output files.
    pub closed spec fn base(&self) -> Seq<char> {
        self.output_name@
    }

    /// The seed of the generator that permutes the buckets.
    pub closed spec fn seed_used(&self) -> Option<u64> {
        self.generator.seed_used()
    }

    /// The bucket that is due; the bucket count when all are done.
    pub closed spec fn position(&self) -> usize {
        self.next
    }

    /// The position lies within the buckets or just behind them.
    pub open spec fn wf(&self) -> bool {
        self.position() <= self.buckets()
    }

    /// An emitter at the first of `bucket_count` buckets. Its generator is
    /// seeded with the successor of the configured seed.
    pub fn new(bucket_count: usize, output_name: &str, seed: Option<u64>) -> (e: Emitter)
        ensures
            e.wf(),
            e.buckets() == bucket_count,
            e.base() == output_name@,
            e.position() == 0,
            e.seed_used() == match seed {
                Some(s) => Some(next_seed(s)),
                None => None,
            },
    {
        Emitter {
            bucket_count,
            output_name: output_name.to_owned(),
            generator: Generator::for_emission(seed),
            next: 0,
        }
    }

    /// The bucket whose lines are due, or `None` when every bucket is done.
    pub fn current(&self) -> (bucket: Option<usize>)
        requires
            self.wf(),
        ensures
            bucket == if self.position() < self.buckets() {
                Some(self.position())
            } else {
                None
            },
    {
        if self.next < self.bucket_count {
            Some(self.next)
        } else {
            None
        }
    }

    /// Takes the lines of the bucket that is due and moves on to the next
    /// bucket. Blank lines are dropped. Where no line is left there is no
    /// output file. Otherwise the file is named after the bucket and holds
    /// the lines that are left, each as often as the bucket held it, in an
    /// order drawn from the generator.
    pub fn emit(&mut self, lines: Vec<String>) -> (file: Option<OutputFile>)
        requires
            old(self).wf(),
            old(self).position() < old(self).buckets(),
        ensures
            final(self).wf(),
            final(self).buckets() == old(self).buckets(),
            final(self).base() == old(self).base(),
            final(self).seed_used() == old(self).seed_used(),
            final(self).position() == old(self).position() + 1,
            match file {
                None => kept(texts(lines@)).len() == 0,
                Some(f) => {
                    &&& kept(texts(lines@)).len() > 0
                    &&& f.name@ == output_name(
                        old(self).base(),
                        old(self).buckets() as nat,
                        old(self).position() as nat,
                    )
                    &&& texts(f.lines@).to_multiset() == kept(texts(lines@)).to_multiset()
                },
            },
    {
        let bucket: usize = self.next;
        self.next = self.next + 1;
        let mut rest: Vec<String> = retain_non_blank(lines);
        if rest.len() == 0 {
            None
        } else {
            self.generator.shuffle(&mut rest);
            proof {
                texts(rest@).to_multiset_ensures();
                kept(texts(lines@)).to_multiset_ensures();
            }
            let name: String = output_file_name(
                self.output_name.as_str(),
                self.bucket_count,
                bucket,
            );
            Some(OutputFile { name, lines: rest })
        }
    }
}

/// The lines of every output file.
pub open spec fn output_lines(outputs: Seq<(Seq<char>, Seq<Seq<char>>)>) -> Seq<Seq<Seq<char>>> {
    Seq::new(outputs.len(), |j: int| outputs[j].1)
}

/// The lines of every bucket that are not blank.
pub open spec fn kept_each(store: Seq<Seq<Seq<char>>>) -> Seq<Seq<Seq<char>>> {
    Seq::new(store.len(), |b: int| kept(store[b]))
}

/// No more buckets yield a file than there are buckets.
pub proof fn lemma_filled_count(store: Seq<Seq<Seq<char>>>)
    ensures
        filled(store).len() <= store.len(),
    decreases store.len(),
{
    if store.len() > 0 {
        lemma_filled_count(store.drop_last());
    }
}

/// The buckets that yield a file are buckets of the run, in ascending
/// order.
pub proof fn lemma_filled_within(store: Seq<Seq<Seq<char>>>, j: int)
    requires
        0 <= j < filled(store).len(),
    ensures
        0 <= filled(store)[j] < store.len(),
        kept(store[filled(store)[j]]).len() > 0,
        filled(store).len() <= store.len(),
        forall|i: int| 0 <= i < j ==> filled(store)[i] < filled(store)[j],
    decreases store.len(),
{
    if store.len() > 0 {
        let front = store.drop_last();
        lemma_filled_count(front);
        if j < filled(front).len() {
            lemma_filled_within(front, j);
            assert(store[filled(front)[j]] == front[filled(front)[j]]);
            assert forall|i: int| 0 <= i < j implies filled(store)[i] < filled(store)[j] by {
                assert(filled(store)[i] == filled(front)[i]);
            }
        } else {
            assert forall|i: int| 0 <= i < j implies filled(store)[i] < filled(store)[j] by {
                lemma_filled_within(front, i);
            }
        }
    }
}

/// A bucket without lines yields no file, so fewer files are made than
/// there are buckets.
pub proof fn lemma_empty_bucket_yields_no_file(store: Seq<Seq<Seq<char>>>, bucket: int)
    requires
        0 <= bucket < store.len(),
        kept(store[bucket]).len() == 0,
    ensures
        filled(store).len() < store.len(),
    decreases store.len(),
{
    let front = store.drop_last();
    lemma_filled_count(front);
    if bucket < store.len() - 1 {
        assert(front[bucket] == store[bucket]);
        lemma_empty_bucket_yields_no_file(front, bucket);
    }
}

/// Looking for blank lines bucket by bucket, or in all lines at once, keeps
/// the same lines.
proof fn lemma_kept_of_all(store: Seq<Seq<Seq<char>>>)
    ensures
        gathered(kept_each(store)) == kept(store.flatten()).to_multiset(),
    decreases store.len(),
{
    if store.len() == 0 {
        assert(kept_each(store) =~= Seq::<Seq<Seq<char>>>::empty());
        assert(store.flatten() =~= Seq::<Seq<char>>::empty());
        assert(kept(store.flatten()).to_multiset() =~= Multiset::<Seq<char>>::empty()) by {
            vstd::seq_lib::to_multiset_len(kept(store.flatten()));
            kept(store.flatten()).to_multiset_ensures();
        }
    } else {
        let front = store.drop_last();
        let last = store.last();
        lemma_kept_of_all(front);
        assert(kept_each(store).drop_last() =~= kept_each(front));
        assert(kept_each(store).last() == kept(last));
        assert(store =~= front.push(last));
        front.lemma_flatten_push(last);
        lemma_kept_concat(front.flatten(), last);
        vstd::seq_lib::lemma_multiset_commutative(kept(front.flatten()), kept(last));
    }
}

/// The lines of the output files, taken together, are the lines kept of
/// every bucket.
proof fn lemma_emitted_gathers(
    store: Seq<Seq<Seq<char>>>,
    count: nat,
    base: Seq<char>,
    outputs: Seq<(Seq<char>, Seq<Seq<char>>)>,
)
    requires
        emitted(store, count, base, outputs),
    ensures
        gathered(output_lines(outputs)) == gathered(kept_each(store)),
    decreases store.len(),
{
    if store.len() == 0 {
        assert(output_lines(outputs) =~= Seq::<Seq<Seq<char>>>::empty());
        assert(kept_each(store) =~= Seq::<Seq<Seq<char>>>::empty());
    } else {
        let front = store.drop_last();
        let last = store.last();
        assert(kept_each(store).drop_last() =~= kept_each(front));
        assert(kept_each(store).last() == kept(last));
        if kept(last).len() == 0 {
            assert forall|j: int| 0 <= j < outputs.len() implies {
                &&& (#[trigger] outputs[j]).0 == output_name(base, count, filled(front)[j] as nat)
                &&& outputs[j].1.to_multiset() == kept(front[filled(front)[j]]).to_multiset()
            } by {
                lemma_filled_within(front, j);
                assert(store[filled(front)[j]] == front[filled(front)[j]]);
            }
            lemma_emitted_gathers(front, count, base, outputs);
            assert(kept(last).to_multiset() =~= Multiset::<Seq<char>>::empty()) by {
                vstd::seq_lib::to_multiset_len(kept(last));
                kept(last).to_multiset_ensures();
            }
            assert(gathered(kept_each(store)) =~= gathered(kept_each(front)));
        } else {
            let earlier = outputs.drop_last();
            assert(filled(store) == filled(front).push(store.len() - 1));
            assert forall|j: int| 0 <= j < earlier.len() implies {
                &&& (#[trigger] earlier[j]).0 == output_name(base, count, filled(front)[j] as nat)
                &&& earlier[j].1.to_multiset() == kept(front[filled(front)[j]]).to_multiset()
            } by {
                assert(earlier[j] == outputs[j]);
                assert(filled(store)[j] == filled(front)[j]);
                lemma_filled_within(front, j);
                assert(store[filled(front)[j]] == front[filled(front)[j]]);
            }
            lemma_emitted_gathers(front, count, base, earlier);
            assert(output_lines(outputs).drop_last() =~= output_lines(earlier));
            let newest = outputs.last();
            assert(newest == outputs[outputs.len() - 1]);
            assert(filled(store)[outputs.len() - 1] == store.len() - 1);
            assert(output_lines(outputs).last() == newest.1);
            assert(newest.1.to_multiset() == kept(last).to_multiset());
        }
    }
}

/// The output files hold what the buckets hold: all lines of the buckets
/// that are not blank, each as often as the buckets hold it.
pub proof fn lemma_emitted_holds_the_buckets(
    store: Seq<Seq<Seq<char>>>,
    count: nat,
    base: Seq<char>,
    outputs: Seq<(Seq<char>, Seq<Seq<char>>)>,
)
    requires
        emitted(store, count, base, outputs),
    ensures
        output_lines(outputs).flatten().to_multiset() == kept(store.flatten()).to_multiset(),
{
    lemma_emitted_gathers(store, count, base, outputs);
    lemma_gathered_is_flatten(output_lines(outputs));
    lemma_kept_of_all(store);
}

} // verus!
