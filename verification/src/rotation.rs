//! The order in which lines arrive: input files are taken in batches, and
//! the files of a batch are read side by side, one line of each in turn.

use crate::batch::{
    batch_at, batch_count, batch_views, batches, into_batches, lemma_batch_bounds,
    MAX_OPEN_INPUT_FILES,
};
use crate::gather::{gathered, lemma_gathered_concat, lemma_gathered_is_flatten};
use crate::order::{ascending, sort_paths};
use crate::text::texts;
use vstd::multiset::Multiset;
use vstd::prelude::*;

verus! {

/// The input files in the order and the batches in which they are read:
/// sorted by their paths, then cut into batches of `MAX_OPEN_INPUT_FILES`.
pub fn input_batches(input_files: Vec<String>) -> (groups: Vec<Vec<String>>)
    ensures
        exists|sorted: Seq<String>|
            {
                &&& ascending(texts(sorted))
                &&& texts(sorted).to_multiset() == texts(input_files@).to_multiset()
                &&& #[trigger] batches(sorted, MAX_OPEN_INPUT_FILES as nat) == batch_views(
                    groups@,
                )
            },
{
    let sorted: Vec<String> = sort_paths(input_files);
    let groups = into_batches(sorted, MAX_OPEN_INPUT_FILES);
    assert(batches(sorted@, MAX_OPEN_INPUT_FILES as nat) == batch_views(groups@));
    groups
}

/// The round-robin over the readers of one batch of input files.
///
/// In every pass each live reader is asked for one line, in ascending order
/// of the readers. A reader that had no line left is dropped when the pass
/// ends. The rotation is over when no reader is live.
pub struct ReaderRotation {
    live: Vec<usize>,
    cursor: usize,
    survivors: Vec<usize>,
}

impl ReaderRotation {
    /// The readers of the current pass, in the order they are asked.
    pub closed spec fn live(&self) -> Seq<usize> {
        self.live@
    }

    /// How many readers of the current pass have been asked.
    pub closed spec fn asked(&self) -> nat {
        self.cursor as nat
    }

    /// The readers asked in this pass that had a line.
    pub closed spec fn survivors(&self) -> Seq<usize> {
        self.survivors@
    }

    /// Whether no reader is left.
    pub open spec fn finished(&self) -> bool {
        self.live().len() == 0
    }

    /// A pass is under way, or the rotation is over.
    pub open spec fn wf(&self) -> bool {
        &&& self.survivors().len() <= self.asked()
        &&& if self.finished() {
            self.asked() == 0
        } else {
            self.asked() < self.live().len()
        }
    }

    /// A rotation over the readers `0` to `readers - 1`.
    pub fn new(readers: usize) -> (rotation: ReaderRotation)
        ensures
            rotation.wf(),
            rotation.live() == Seq::new(readers as nat, |i: int| i as usize),
            rotation.asked() == 0,
            rotation.survivors() == Seq::<usize>::empty(),
    {
        let mut live: Vec<usize> = Vec::new();
        let mut reader: usize = 0;
        while reader < readers
            invariant
                reader <= readers,
                live@ == Seq::new(reader as nat, |i: int| i as usize),
            decreases readers - reader,
        {
            live.push(reader);
            reader = reader + 1;
            assert(live@ =~= Seq::new(reader as nat, |i: int| i as usize));
        }
        ReaderRotation { live, cursor: 0, survivors: Vec::new() }
    }

    /// The reader to ask next, or `None` when the rotation is over.
    pub fn current(&self) -> (reader: Option<usize>)
        requires
            self.wf(),
        ensures
            reader == if self.finished() {
                None
            } else {
                Some(self.live()[self.asked() as int])
            },
    {
        if self.live.len() == 0 {
            None
        } else {
            Some(self.live[self.cursor])
        }
    }

    /// Records the answer of the current reader: `exhausted` when it had no
    /// line left. Moves on to the next reader; after the last reader of a
    /// pass, the next pass begins with the survivors.
    pub fn advance(&mut self, exhausted: bool)
        requires
            old(self).wf(),
            !old(self).finished(),
        ensures
            final(self).wf(),
            ({
                let reader = old(self).live()[old(self).asked() as int];
                let kept = if exhausted {
                    old(self).survivors()
                } else {
                    old(self).survivors().push(reader)
                };
                if old(self).asked() + 1 < old(self).live().len() {
                    &&& final(self).live() == old(self).live()
                    &&& final(self).asked() == old(self).asked() + 1
                    &&& final(self).survivors() == kept
                } else {
                    &&& final(self).live() == kept
                    &&& final(self).asked() == 0
                    &&& final(self).survivors() == Seq::<usize>::empty()
                }
            }),
    {
        let count: usize = self.live.len();
        if !exhausted {
            let reader: usize = self.live[self.cursor];
            self.survivors.push(reader);
        }
        self.cursor = self.cursor + 1;
        if self.cursor == count {
            let mut next: Vec<usize> = Vec::new();
            next.append(&mut self.survivors);
            self.live = next;
            self.cursor = 0;
        }
    }
}

/// The lines of every file, as texts.
pub open spec fn file_texts(files: Seq<Vec<String>>) -> Seq<Seq<Seq<char>>> {
    Seq::new(files.len(), |i: int| texts(files[i]@))
}

/// The first line of every file that has one, in the order of the files.
pub open spec fn heads(files: Seq<Seq<Seq<char>>>) -> Seq<Seq<char>>
    decreases files.len(),
{
    if files.len() == 0 {
        Seq::empty()
    } else if files.last().len() == 0 {
        heads(files.drop_last())
    } else {
        heads(files.drop_last()).push(files.last()[0])
    }
}

/// The files that have a line, each without its first line.
pub open spec fn tails(files: Seq<Seq<Seq<char>>>) -> Seq<Seq<Seq<char>>>
    decreases files.len(),
{
    if files.len() == 0 {
        Seq::empty()
    } else if files.last().len() == 0 {
        tails(files.drop_last())
    } else {
        tails(files.drop_last()).push(files.last().drop_first())
    }
}

/// Lines and files still to go: every line counts, and so does every file.
pub open spec fn weight(files: Seq<Seq<Seq<char>>>) -> nat
    decreases files.len(),
{
    if files.len() == 0 {
        0
    } else {
        weight(files.drop_last()) + files.last().len() + 1
    }
}

/// The order in which the lines of files that are read side by side
/// arrive: pass after pass, one line of every file that has one left, the
/// files in their order.
pub open spec fn rotated(files: Seq<Seq<Seq<char>>>) -> Seq<Seq<char>>
    decreases weight(files),
    via rotated_decreases
{
    if files.len() == 0 {
        Seq::empty()
    } else {
        heads(files) + rotated(tails(files))
    }
}

#[via_fn]
proof fn rotated_decreases(files: Seq<Seq<Seq<char>>>) {
    lemma_tails_weigh_less(files);
}

/// A pass takes a line from every file or the file itself.
pub proof fn lemma_tails_weigh_less(files: Seq<Seq<Seq<char>>>)
    ensures
        weight(tails(files)) + files.len() <= weight(files),
    decreases files.len(),
{
    if files.len() > 0 {
        lemma_tails_weigh_less(files.drop_last());
        if files.last().len() > 0 {
            let shorter = tails(files.drop_last()).push(files.last().drop_first());
            assert(shorter.drop_last() =~= tails(files.drop_last()));
        }
    }
}

/// Whether the readers come in ascending order, none of them twice, and
/// all below `count`.
pub open spec fn rising(readers: Seq<usize>, count: nat) -> bool {
    &&& forall|i: int, j: int| 0 <= i < j < readers.len() ==> readers[i] < readers[j]
    &&& forall|i: int| 0 <= i < readers.len() ==> (#[trigger] readers[i]) < count
}

/// The lines of `files` in the order in which they arrive when the files
/// are read side by side.
pub fn read_side_by_side(files: &Vec<Vec<String>>) -> (lines: Vec<String>)
    ensures
        texts(lines@) == rotated(file_texts(files@)),
{
    let count: usize = files.len();
    let ghost all = file_texts(files@);
    let mut positions: Vec<usize> = Vec::new();
    let mut made: usize = 0;
    while made < count
        invariant
            made <= count,
            positions@.len() == made,
            forall|r: int| 0 <= r < made ==> positions@[r] == 0,
        decreases count - made,
    {
        positions.push(0);
        made = made + 1;
    }
    let mut rotation = ReaderRotation::new(count);
    let mut lines: Vec<String> = Vec::new();
    let ghost mut remaining: Seq<Seq<Seq<char>>> = all;
    let ghost mut done: Seq<Seq<char>> = Seq::empty();
    let ghost mut next: Seq<Seq<Seq<char>>> = Seq::empty();
    let mut current: Option<usize> = rotation.current();
    proof {
        assert(remaining.take(0) =~= Seq::<Seq<Seq<char>>>::empty());
        assert(texts(lines@) =~= done + heads(remaining.take(0)));
        assert(done + rotated(remaining) =~= rotated(all));
        let live = rotation.live();
        assert forall|i: int| 0 <= i < live.len() implies remaining[i] == all[(
        #[trigger] live[i]) as int].skip(positions@[live[i] as int] as int) by {
            assert(all[i].skip(0) =~= all[i]);
        }
    }
    while current.is_some()
        invariant
            count == files@.len(),
            all == file_texts(files@),
            positions@.len() == count,
            forall|r: int| 0 <= r < count ==> positions@[r] <= (#[trigger] all[r]).len(),
            rotation.wf(),
            current == if rotation.finished() {
                None
            } else {
                Some(rotation.live()[rotation.asked() as int])
            },
            rising(rotation.live(), count as nat),
            rising(rotation.survivors(), count as nat),
            !rotation.finished() ==> forall|j: int|
                0 <= j < rotation.survivors().len() ==> (#[trigger] rotation.survivors()[j])
                    < rotation.live()[rotation.asked() as int],
            remaining.len() == rotation.live().len(),
            forall|i: int|
                rotation.asked() <= i < rotation.live().len() ==> remaining[i] == all[(
                #[trigger] rotation.live()[i]) as int].skip(
                    positions@[rotation.live()[i] as int] as int,
                ),
            next == tails(remaining.take(rotation.asked() as int)),
            next.len() == rotation.survivors().len(),
            forall|j: int|
                0 <= j < rotation.survivors().len() ==> next[j] == all[(
                #[trigger] rotation.survivors()[j]) as int].skip(
                    positions@[rotation.survivors()[j] as int] as int,
                ),
            texts(lines@) == done + heads(remaining.take(rotation.asked() as int)),
            done + rotated(remaining) == rotated(all),
        decreases weight(remaining), rotation.live().len() - rotation.asked(),
    {
        let reader: usize = current.unwrap();
        let ghost at: int = rotation.asked() as int;
        let ghost live = rotation.live();
        let ghost survivors = rotation.survivors();
        let ghost before_lines = texts(lines@);
        let ghost before_positions = positions@;
        let ghost left = remaining[at];
        proof {
                assert(live[at] == reader);
            assert(remaining.take(at + 1).drop_last() =~= remaining.take(at));
            assert(remaining.take(at + 1).last() == left);
            assert(left == all[reader as int].skip(before_positions[reader as int] as int));
        }
        let position: usize = positions[reader];
        let exhausted: bool = position >= files[reader].len();
        if !exhausted {
            let line: String = files[reader][position].clone();
            lines.push(line);
            positions.set(reader, position + 1);
            proof {
                assert(left[0] == line@);
                assert(texts(lines@) =~= before_lines.push(line@));
                assert(left.drop_first() =~= all[reader as int].skip(position + 1));
            }
        }
        rotation.advance(exhausted);
        proof {
            let grown_next = tails(remaining.take(at + 1));
            let kept_readers = if exhausted {
                survivors
            } else {
                survivors.push(reader)
            };
            assert(grown_next.len() == kept_readers.len());
            assert forall|j: int| 0 <= j < kept_readers.len() implies grown_next[j] == all[(
            #[trigger] kept_readers[j]) as int].skip(positions@[kept_readers[j] as int] as int) by {
                if j < survivors.len() {
                    assert(survivors[j] < reader);
                    assert(grown_next[j] == next[j]);
                }
            }
            assert(rising(kept_readers, count as nat)) by {
                assert forall|i: int, j: int| 0 <= i < j < kept_readers.len() implies
                    kept_readers[i] < kept_readers[j] by {
                    if j < survivors.len() {
                    } else {
                        assert(survivors[i] < reader);
                    }
                }
            }
            if at + 1 < live.len() {
                assert forall|i: int| at + 1 <= i < live.len() implies remaining[i] == all[(
                #[trigger] live[i]) as int].skip(positions@[live[i] as int] as int) by {
                    assert(live[at] < live[i]);
                }
                assert forall|j: int| 0 <= j < kept_readers.len() implies (
                #[trigger] kept_readers[j]) < live[at + 1] by {
                    if j < survivors.len() {
                        assert(survivors[j] < reader);
                    }
                }
                next = grown_next;
            } else {
                assert(remaining.take(at + 1) =~= remaining);
                lemma_tails_weigh_less(remaining);
                done = done + heads(remaining);
                remaining = grown_next;
                next = Seq::empty();
                assert(remaining.take(0) =~= Seq::<Seq<Seq<char>>>::empty());
                assert(texts(lines@) =~= done + heads(remaining.take(0)));
            }
        }
        current = rotation.current();
    }
    proof {
        assert(remaining =~= Seq::<Seq<Seq<char>>>::empty());
        assert(remaining.take(0) =~= remaining);
        assert(texts(lines@) =~= done);
        assert(done + rotated(remaining) =~= done);
    }
    lines
}

/// The lines of the first `upto` batches of input files, batch after
/// batch, the files of a batch read side by side.
pub open spec fn arrivals(files: Seq<Seq<Seq<char>>>, upto: nat) -> Seq<Seq<char>>
    decreases upto,
{
    if upto == 0 {
        Seq::empty()
    } else {
        arrivals(files, (upto - 1) as nat) + rotated(
            batch_at(files, MAX_OPEN_INPUT_FILES as nat, upto - 1),
        )
    }
}

/// The order in which the lines of the input files arrive: the files are
/// taken in batches of `MAX_OPEN_INPUT_FILES`, and the files of a batch are
/// read side by side.
pub open spec fn arrival_order(files: Seq<Seq<Seq<char>>>) -> Seq<Seq<char>> {
    arrivals(files, batch_count(files.len(), MAX_OPEN_INPUT_FILES as nat))
}

/// The lines of `files` in the order in which they arrive.
pub fn read_in_batches(files: Vec<Vec<String>>) -> (lines: Vec<String>)
    ensures
        texts(lines@) == arrival_order(file_texts(files@)),
{
    let ghost all = file_texts(files@);
    let ghost size: nat = MAX_OPEN_INPUT_FILES as nat;
    let groups: Vec<Vec<Vec<String>>> = into_batches(files, MAX_OPEN_INPUT_FILES);
    let mut lines: Vec<String> = Vec::new();
    let mut at: usize = 0;
    assert(texts(lines@) =~= arrivals(all, 0));
    while at < groups.len()
        invariant
            at <= groups@.len(),
            all == file_texts(files@),
            size == MAX_OPEN_INPUT_FILES as nat,
            batch_views(groups@) == batches(files@, size),
            texts(lines@) == arrivals(all, at as nat),
        decreases groups@.len() - at,
    {
        let ghost before = texts(lines@);
        let mut more: Vec<String> = read_side_by_side(&groups[at]);
        proof {
            assert(batch_views(groups@).len() == groups@.len());
            assert(batch_views(groups@)[at as int] == groups@[at as int]@);
            assert(batches(files@, size)[at as int] == batch_at(files@, size, at as int));
            lemma_batch_bounds(files@.len() as int, size as int, at as int);
            assert(file_texts(groups@[at as int]@) =~= batch_at(all, size, at as int));
        }
        let ghost added = texts(more@);
        lines.append(&mut more);
        assert(texts(lines@) =~= before + added);
        at = at + 1;
    }
    proof {
        assert(batch_views(groups@).len() == groups@.len());
    }
    lines
}

/// The lines of files are their first lines and the lines that follow.
proof fn lemma_heads_and_tails(files: Seq<Seq<Seq<char>>>)
    ensures
        gathered(files) == heads(files).to_multiset().add(gathered(tails(files))),
    decreases files.len(),
{
    if files.len() == 0 {
        assert(heads(files).to_multiset() =~= Multiset::<Seq<char>>::empty()) by {
            vstd::seq_lib::to_multiset_len(heads(files));
            heads(files).to_multiset_ensures();
        }
        assert(gathered(files) =~= heads(files).to_multiset().add(gathered(tails(files))));
    } else {
        let front = files.drop_last();
        let last = files.last();
        lemma_heads_and_tails(front);
        if last.len() == 0 {
            assert(last.to_multiset() =~= Multiset::<Seq<char>>::empty()) by {
                vstd::seq_lib::to_multiset_len(last);
                last.to_multiset_ensures();
            }
            assert(gathered(files) =~= heads(files).to_multiset().add(gathered(tails(files))));
        } else {
            vstd::seq_lib::to_multiset_build(heads(front), last[0]);
            let shorter = tails(front).push(last.drop_first());
            assert(shorter.drop_last() =~= tails(front));
            assert(last =~= seq![last[0]] + last.drop_first());
            vstd::seq_lib::lemma_multiset_commutative(seq![last[0]], last.drop_first());
            assert(seq![last[0]].to_multiset() =~= Multiset::<Seq<char>>::empty().insert(last[0]))
                by {
                assert(seq![last[0]] =~= Seq::<Seq<char>>::empty().push(last[0]));
                vstd::seq_lib::to_multiset_build(Seq::<Seq<char>>::empty(), last[0]);
                vstd::seq_lib::to_multiset_len(Seq::<Seq<char>>::empty());
                Seq::<Seq<char>>::empty().to_multiset_ensures();
            }
            assert(gathered(files) =~= heads(files).to_multiset().add(gathered(tails(files))));
        }
    }
}

/// The lines that arrive from files read side by side are the lines of
/// the files.
proof fn lemma_rotated_gathers(files: Seq<Seq<Seq<char>>>)
    ensures
        rotated(files).to_multiset() == gathered(files),
    decreases weight(files),
{
    if files.len() == 0 {
        assert(rotated(files).to_multiset() =~= Multiset::<Seq<char>>::empty()) by {
            vstd::seq_lib::to_multiset_len(rotated(files));
            rotated(files).to_multiset_ensures();
        }
    } else {
        lemma_tails_weigh_less(files);
        lemma_rotated_gathers(tails(files));
        lemma_heads_and_tails(files);
        vstd::seq_lib::lemma_multiset_commutative(heads(files), rotated(tails(files)));
    }
}

/// Reading files side by side loses no line and makes none: the lines
/// arrive in another order, each as often as the files hold it.
pub proof fn lemma_rotation_permutes(files: Seq<Seq<Seq<char>>>)
    ensures
        rotated(files).to_multiset() == files.flatten().to_multiset(),
    decreases weight(files),
{
    lemma_rotated_gathers(files);
    lemma_gathered_is_flatten(files);
}

/// The lines of the first batches are the lines of the files in them.
proof fn lemma_arrivals_gather(files: Seq<Seq<Seq<char>>>, upto: nat)
    requires
        upto <= batch_count(files.len(), MAX_OPEN_INPUT_FILES as nat),
    ensures
        arrivals(files, upto).to_multiset() == gathered(
            files.take(
                if upto * MAX_OPEN_INPUT_FILES <= files.len() {
                    upto * MAX_OPEN_INPUT_FILES
                } else {
                    files.len() as int
                },
            ),
        ),
    decreases upto,
{
    let size: nat = MAX_OPEN_INPUT_FILES as nat;
    if upto == 0 {
        assert(0 * MAX_OPEN_INPUT_FILES == 0) by (nonlinear_arith);
        assert(files.take(0) =~= Seq::<Seq<Seq<char>>>::empty());
        assert(arrivals(files, 0).to_multiset() =~= Multiset::<Seq<char>>::empty()) by {
            vstd::seq_lib::to_multiset_len(arrivals(files, 0));
            arrivals(files, 0).to_multiset_ensures();
        }
    } else {
        let k: int = upto - 1;
        lemma_arrivals_gather(files, k as nat);
        lemma_batch_bounds(files.len() as int, size as int, k);
        let from: int = k * size;
        let to: int = if from + size <= files.len() {
            from + size
        } else {
            files.len() as int
        };
        assert(upto * MAX_OPEN_INPUT_FILES == from + size) by (nonlinear_arith)
            requires
                from == (upto - 1) * size,
                size == MAX_OPEN_INPUT_FILES,
        ;
        let batch = batch_at(files, size, k);
        assert(batch == files.subrange(from, to));
        lemma_rotated_gathers(batch);
        vstd::seq_lib::lemma_multiset_commutative(arrivals(files, k as nat), rotated(batch));
        assert(files.take(to) =~= files.take(from) + batch);
        lemma_gathered_concat(files.take(from), batch);
    }
}

/// Reading the input files batch by batch loses no line and makes none.
pub proof fn lemma_arrival_order_permutes(files: Seq<Seq<Seq<char>>>)
    ensures
        arrival_order(files).to_multiset() == files.flatten().to_multiset(),
{
    let size: nat = MAX_OPEN_INPUT_FILES as nat;
    let count = batch_count(files.len(), size);
    lemma_arrivals_gather(files, count);
    if count > 0 {
        lemma_batch_bounds(files.len() as int, size as int, count - 1);
    } else {
        assert(files.len() == 0) by {
            vstd::arithmetic::div_mod::lemma_fundamental_div_mod(files.len() as int, size as int);
        }
    }
    let reach: int = if count * size <= files.len() {
        (count * size) as int
    } else {
        files.len() as int
    };
    assert(reach == files.len()) by {
        if count == 0 {
            assert(0 * size == 0) by (nonlinear_arith);
        }
    }
    assert(files.take(reach) =~= files);
    lemma_gathered_is_flatten(files);
}

} // verus!
