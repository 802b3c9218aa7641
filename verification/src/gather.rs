//! All lines of a list of files, taken together: what a run must neither
//! lose nor make.

use vstd::multiset::Multiset;
use vstd::prelude::*;

verus! {

/// All lines of a list of files, as a multiset.
pub open spec fn gathered(files: Seq<Seq<Seq<char>>>) -> Multiset<Seq<char>>
    decreases files.len(),
{
    if files.len() == 0 {
        Multiset::empty()
    } else {
        gathered(files.drop_last()).add(files.last().to_multiset())
    }
}

/// The lines of files joined end to end are the lines of the files.
pub proof fn lemma_gathered_is_flatten(files: Seq<Seq<Seq<char>>>)
    ensures
        files.flatten().to_multiset() == gathered(files),
    decreases files.len(),
{
    if files.len() == 0 {
        assert(files.flatten() =~= Seq::<Seq<char>>::empty());
        assert(files.flatten().to_multiset() =~= Multiset::<Seq<char>>::empty()) by {
            files.flatten().to_multiset_ensures();
            vstd::seq_lib::to_multiset_len(files.flatten());
        }
    } else {
        let front = files.drop_last();
        lemma_gathered_is_flatten(front);
        assert(files =~= front.push(files.last()));
        front.lemma_flatten_push(files.last());
        vstd::seq_lib::lemma_multiset_commutative(front.flatten(), files.last());
    }
}

/// Files without lines hold no lines.
pub proof fn lemma_gathered_empty(files: Seq<Seq<Seq<char>>>)
    requires
        forall|k: int| 0 <= k < files.len() ==> (#[trigger] files[k]).len() == 0,
    ensures
        gathered(files) == Multiset::<Seq<char>>::empty(),
    decreases files.len(),
{
    if files.len() > 0 {
        assert forall|k: int| 0 <= k < files.drop_last().len() implies (
        #[trigger] files.drop_last()[k]).len() == 0 by {
            assert(files.drop_last()[k] == files[k]);
        }
        lemma_gathered_empty(files.drop_last());
        assert(files.last() == files[files.len() - 1]);
        vstd::seq_lib::to_multiset_len(files.last());
        files.last().to_multiset_ensures();
        assert(files.last().to_multiset() =~= Multiset::<Seq<char>>::empty());
        assert(gathered(files) =~= Multiset::<Seq<char>>::empty());
    }
}

/// One more line in one file is one more line in all.
pub proof fn lemma_gathered_grows(files: Seq<Seq<Seq<char>>>, at: int, line: Seq<char>)
    requires
        0 <= at < files.len(),
    ensures
        gathered(files.update(at, files[at].push(line))) == gathered(files).insert(line),
    decreases files.len(),
{
    let grown = files.update(at, files[at].push(line));
    if at == files.len() - 1 {
        assert(grown.drop_last() =~= files.drop_last());
        vstd::seq_lib::to_multiset_build(files[at], line);
        assert(gathered(grown) =~= gathered(files).insert(line));
    } else {
        lemma_gathered_grows(files.drop_last(), at, line);
        assert(grown.drop_last() =~= files.drop_last().update(at, files[at].push(line)));
        assert(grown.last() == files.last());
        assert(gathered(grown) =~= gathered(files).insert(line));
    }
}

/// The lines of all files are those of the first files and those of the
/// files that follow.
pub proof fn lemma_gathered_concat(first: Seq<Seq<Seq<char>>>, second: Seq<Seq<Seq<char>>>)
    ensures
        gathered(first + second) == gathered(first).add(gathered(second)),
    decreases second.len(),
{
    if second.len() == 0 {
        assert(first + second =~= first);
        assert(gathered(first).add(gathered(second)) =~= gathered(first));
    } else {
        lemma_gathered_concat(first, second.drop_last());
        assert((first + second).drop_last() =~= first + second.drop_last());
        assert((first + second).last() == second.last());
        assert(gathered(first + second) =~= gathered(first).add(gathered(second)));
    }
}

/// Files that hold the same lines one by one hold the same lines together.
pub proof fn lemma_gathered_pointwise(a: Seq<Seq<Seq<char>>>, b: Seq<Seq<Seq<char>>>)
    requires
        a.len() == b.len(),
        forall|k: int| 0 <= k < a.len() ==> (#[trigger] a[k]).to_multiset() == b[k].to_multiset(),
    ensures
        gathered(a) == gathered(b),
    decreases a.len(),
{
    if a.len() > 0 {
        assert forall|k: int| 0 <= k < a.drop_last().len() implies (#[trigger] a.drop_last()[k])
            .to_multiset() == b.drop_last()[k].to_multiset() by {
            assert(a.drop_last()[k] == a[k]);
            assert(b.drop_last()[k] == b[k]);
        }
        lemma_gathered_pointwise(a.drop_last(), b.drop_last());
        assert(a.last() == a[a.len() - 1]);
    }
}

/// Files of which none is empty hold at least as many lines as there are
/// files.
pub proof fn lemma_gathered_counts(files: Seq<Seq<Seq<char>>>)
    requires
        forall|k: int| 0 <= k < files.len() ==> (#[trigger] files[k]).len() > 0,
    ensures
        gathered(files).len() >= files.len(),
    decreases files.len(),
{
    if files.len() > 0 {
        assert forall|k: int| 0 <= k < files.drop_last().len() implies (
        #[trigger] files.drop_last()[k]).len() > 0 by {
            assert(files.drop_last()[k] == files[k]);
        }
        lemma_gathered_counts(files.drop_last());
        vstd::seq_lib::to_multiset_len(files.last());
        assert(files.last() == files[files.len() - 1]);
    }
}

} // verus!
