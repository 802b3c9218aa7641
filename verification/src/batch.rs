//! Batching: a list cut into consecutive runs of bounded length, so that
//! only so many files are open at a time.

use vstd::arithmetic::div_mod::{lemma_fundamental_div_mod_converse, lemma_fundamental_div_mod};
use vstd::prelude::*;

verus! {

/// Most input files that are read side by side.
pub const MAX_OPEN_INPUT_FILES: usize = 16;

/// Most bucket files that are written side by side during a flush.
pub const MAX_OPEN_OUTPUT_FILES: usize = 128;

/// Number of batches for `len` items in batches of `size`.
pub open spec fn batch_count(len: nat, size: nat) -> nat
    recommends
        size > 0,
{
    if len % size == 0 {
        len / size
    } else {
        len / size + 1
    }
}

/// The `k`-th batch of `items`: the items from position `k * size` up to,
/// and not including, position `(k + 1) * size` or the end.
pub open spec fn batch_at<T>(items: Seq<T>, size: nat, k: int) -> Seq<T> {
    let from: int = k * size;
    let to: int = if from + size <= items.len() {
        from + size
    } else {
        items.len() as int
    };
    items.subrange(from, to)
}

/// `items` cut into batches of `size`; only the last may be shorter.
pub open spec fn batches<T>(items: Seq<T>, size: nat) -> Seq<Seq<T>>
    recommends
        size > 0,
{
    Seq::new(batch_count(items.len(), size), |k: int| batch_at(items, size, k))
}

/// The contents of every batch of `groups`.
pub open spec fn batch_views<T>(groups: Seq<Vec<T>>) -> Seq<Seq<T>> {
    Seq::new(groups.len(), |k: int| groups[k]@)
}

/// Cuts `items` into batches of `size`, in order.
pub fn into_batches<T>(items: Vec<T>, size: usize) -> (groups: Vec<Vec<T>>)
    requires
        size > 0,
    ensures
        batch_views(groups@) == batches(items@, size as nat),
{
    let ghost len: int = items.len() as int;
    let mut groups: Vec<Vec<T>> = Vec::new();
    let mut current: Vec<T> = Vec::new();
    for item in it: items
        invariant
            size > 0,
            len == items@.len(),
            it.seq() == items@,
            current@.len() < size,
            it.index() == groups@.len() * size + current@.len(),
            current@ == items@.subrange(groups@.len() * size, it.index() as int),
            forall|k: int|
                0 <= k < groups@.len() ==> (#[trigger] groups@[k])@ == batch_at(
                    items@,
                    size as nat,
                    k,
                ),
    {
        let ghost done: int = it.index() as int;
        let ghost full: int = groups@.len() as int;
        current.push(item);
        assert(current@ =~= items@.subrange(full * size, done + 1));
        if current.len() == size {
            let ghost before = groups@;
            groups.push(current);
            current = Vec::new();
            proof {
                assert((full + 1) * size == full * size + size) by (nonlinear_arith);
                assert(batch_at(items@, size as nat, full) =~= items@.subrange(
                    full * size,
                    done + 1,
                ));
                assert forall|k: int| 0 <= k < groups@.len() implies (#[trigger] groups@[k])@
                    == batch_at(items@, size as nat, k) by {
                    if k < full {
                        assert(groups@[k] == before[k]);
                    }
                }
                assert(current@ =~= items@.subrange((full + 1) * size, done + 1));
            }
        }
    }
    let ghost full: int = groups@.len() as int;
    let ghost rest: int = current@.len() as int;
    proof {
        assert(full * size == size * full) by (nonlinear_arith);
        lemma_fundamental_div_mod_converse(len, size as int, full, rest);
    }
    if current.len() > 0 {
        let ghost before = groups@;
        groups.push(current);
        proof {
            assert((full + 1) * size == full * size + size) by (nonlinear_arith);
            assert(batch_at(items@, size as nat, full) =~= items@.subrange(full * size, len));
            assert forall|k: int| 0 <= k < groups@.len() implies (#[trigger] groups@[k])@
                == batch_at(items@, size as nat, k) by {
                if k < full {
                    assert(groups@[k] == before[k]);
                }
            }
        }
    }
    assert(batch_views(groups@) =~= batches(items@, size as nat));
    groups
}

/// Joined in order, the batches give the list back; none is empty and none
/// is longer than `size`.
pub proof fn lemma_batches_cover<T>(items: Seq<T>, size: nat)
    requires
        size > 0,
    ensures
        batches(items, size).flatten() == items,
        forall|k: int|
            0 <= k < batches(items, size).len() ==> 0 < (#[trigger] batches(items, size)[k]).len()
                <= size,
        forall|k: int|
            0 <= k < batches(items, size).len() - 1 ==> (#[trigger] batches(items, size)[k]).len()
                == size,
{
    let all = batches(items, size);
    let count: int = all.len() as int;
    let len: int = items.len() as int;
    lemma_fundamental_div_mod(len, size as int);
    assert(len == size * (len / (size as int)) + len % (size as int));
    assert forall|k: int| 0 <= k < count implies 0 < (#[trigger] all[k]).len() <= size && (k
        < count - 1 ==> all[k].len() == size) by {
        lemma_batch_bounds(len, size as int, k);
        assert(all[k] == batch_at(items, size, k));
    }
    lemma_batches_prefix(items, size, count);
    let reach: int = if count * size <= len {
        count * size
    } else {
        len
    };
    if count > 0 {
        lemma_batch_bounds(len, size as int, count - 1);
        assert(count - 1 + 1 == count);
        assert(count * size >= len);
    } else {
        assert(len / (size as int) == 0);
        assert(size * (len / (size as int)) == 0) by (nonlinear_arith)
            requires
                len / (size as int) == 0,
        ;
        assert(len == 0);
    }
    assert(reach == len);
    assert(items.take(len) =~= items);
    assert(all.take(count) =~= all);
}

/// Where batch `k` of a list of `len` items begins and ends.
pub proof fn lemma_batch_bounds(len: int, size: int, k: int)
    requires
        size > 0,
        len >= 0,
        0 <= k < batch_count(len as nat, size as nat),
    ensures
        0 <= k * size < len,
        (k + 1) * size == k * size + size,
        k < batch_count(len as nat, size as nat) - 1 ==> (k + 1) * size <= len,
        k == batch_count(len as nat, size as nat) - 1 ==> (k + 1) * size >= len,
{
    lemma_fundamental_div_mod(len, size);
    let q: int = len / size;
    let r: int = len % size;
    assert(len == size * q + r);
    assert(0 <= r < size);
    assert({
        &&& k * size >= 0
        &&& (k + 1) * size == k * size + size
        &&& q * size == size * q
        &&& k >= q ==> k * size >= q * size
        &&& k <= q - 1 ==> (k + 1) * size <= q * size
        &&& k >= q - 1 ==> (k + 1) * size >= q * size
    }) by (nonlinear_arith)
        requires
            size > 0,
            k >= 0,
    ;
}

/// The first `n` batches joined are the items up to the end of batch `n`.
proof fn lemma_batches_prefix<T>(items: Seq<T>, size: nat, n: int)
    requires
        size > 0,
        0 <= n <= batches(items, size).len(),
    ensures
        batches(items, size).take(n).flatten() == items.take(
            if n * size <= items.len() {
                n * size
            } else {
                items.len() as int
            },
        ),
    decreases n,
{
    let all = batches(items, size);
    let len: int = items.len() as int;
    if n == 0 {
        assert(all.take(0) =~= Seq::<Seq<T>>::empty());
        assert(all.take(0).flatten() =~= Seq::<T>::empty());
        assert(0 * size == 0) by (nonlinear_arith);
        assert(items.take(0) =~= Seq::<T>::empty());
    } else {
        lemma_batches_prefix(items, size, n - 1);
        lemma_batch_bounds(len, size as int, n - 1);
        assert((n - 1) * size + size == n * size) by (nonlinear_arith);
        let from: int = (n - 1) * size;
        let to: int = if n * size <= len {
            n * size
        } else {
            len
        };
        assert(all.take(n) =~= all.take(n - 1).push(all[n - 1]));
        all.take(n - 1).lemma_flatten_push(all[n - 1]);
        assert(all[n - 1] == items.subrange(from, to));
        assert(items.take(from) + items.subrange(from, to) =~= items.take(to));
    }
}

} // verus!
