//! The order in which input files are processed: ascending by their paths,
//! compared character by character.

use crate::text::texts;
use vstd::prelude::*;
use vstd::std_specs::iter::IteratorSpec;

verus! {

/// Whether `a` comes before `b`, or equals it, in lexicographic order of
/// the code points.
pub open spec fn precedes(a: Seq<char>, b: Seq<char>) -> bool
    decreases a.len(),
{
    if a.len() == 0 {
        true
    } else if b.len() == 0 {
        false
    } else if a[0] != b[0] {
        (a[0] as u32) < (b[0] as u32)
    } else {
        precedes(a.drop_first(), b.drop_first())
    }
}

/// Whether each text of `items` precedes all that follow it.
pub open spec fn ascending(items: Seq<Seq<char>>) -> bool {
    forall|i: int, j: int| 0 <= i < j < items.len() ==> precedes(items[i], items[j])
}

/// Any text precedes itself.
pub proof fn lemma_precedes_reflexive(a: Seq<char>)
    ensures
        precedes(a, a),
    decreases a.len(),
{
    if a.len() > 0 {
        lemma_precedes_reflexive(a.drop_first());
    }
}

/// Of two texts one precedes the other.
pub proof fn lemma_precedes_total(a: Seq<char>, b: Seq<char>)
    ensures
        precedes(a, b) || precedes(b, a),
    decreases a.len(),
{
    if a.len() > 0 && b.len() > 0 {
        if a[0] == b[0] {
            lemma_precedes_total(a.drop_first(), b.drop_first());
        } else {
            lemma_code_points_differ(a[0], b[0]);
        }
    }
}

/// Different characters have different code points.
proof fn lemma_code_points_differ(x: char, y: char)
    requires
        x != y,
    ensures
        x as u32 != y as u32,
{
    let u: u32 = x as u32;
    let v: u32 = y as u32;
    vstd::utf8::char_u32_cast(x, u);
    vstd::utf8::char_u32_cast(y, v);
}

/// Two texts that precede each other are equal.
pub proof fn lemma_precedes_antisymmetric(a: Seq<char>, b: Seq<char>)
    requires
        precedes(a, b),
        precedes(b, a),
    ensures
        a == b,
    decreases a.len(),
{
    if a.len() == 0 || b.len() == 0 {
        assert(a =~= b);
    } else {
        lemma_precedes_antisymmetric(a.drop_first(), b.drop_first());
        assert(a =~= seq![a[0]] + a.drop_first());
        assert(b =~= seq![b[0]] + b.drop_first());
    }
}

/// What precedes a text precedes all that the text precedes.
pub proof fn lemma_precedes_transitive(a: Seq<char>, b: Seq<char>, c: Seq<char>)
    requires
        precedes(a, b),
        precedes(b, c),
    ensures
        precedes(a, c),
    decreases a.len(),
{
    if a.len() > 0 && b.len() > 0 && c.len() > 0 && a[0] == b[0] && b[0] == c[0] {
        lemma_precedes_transitive(a.drop_first(), b.drop_first(), c.drop_first());
    }
}

/// Compares two texts: whether `a` precedes `b` or equals it.
pub fn text_le(a: &str, b: &str) -> (le: bool)
    ensures
        le == precedes(a@, b@),
{
    let mut left = a.chars();
    let mut right = b.chars();
    let ghost mut used: int = 0;
    assert(a@.skip(0) =~= a@);
    loop
        invariant
            0 <= used <= a@.len(),
            left.remaining() == a@.skip(used),
            precedes(a@, b@) == precedes(left.remaining(), right.remaining()),
        decreases a@.len() - used,
    {
        match left.next() {
            None => {
                return true;
            },
            Some(x) => {
                proof {
                    assert(a@.skip(used).drop_first() =~= a@.skip(used + 1));
                    used = used + 1;
                }
                match right.next() {
                    None => {
                        return false;
                    },
                    Some(y) => {
                        if x != y {
                            return (x as u32) < (y as u32);
                        }
                    },
                }
            },
        }
    }
}

/// Sorts paths into ascending order.
pub fn sort_paths(paths: Vec<String>) -> (sorted: Vec<String>)
    ensures
        ascending(texts(sorted@)),
        texts(sorted@).to_multiset() == texts(paths@).to_multiset(),
{
    let ghost all = texts(paths@);
    let mut sorted: Vec<String> = Vec::new();
    assert(texts(sorted@) =~= all.take(0));
    for path in it: paths
        invariant
            it.seq() == paths@,
            all == texts(paths@),
            ascending(texts(sorted@)),
            texts(sorted@).to_multiset() == all.take(it.index() as int).to_multiset(),
    {
        let ghost k: int = it.index() as int;
        let ghost before = sorted@;
        let ghost old_texts = texts(before);
        let mut low: usize = 0;
        let mut high: usize = sorted.len();
        while low < high
            invariant
                low <= high <= sorted@.len(),
                sorted@ == before,
                old_texts == texts(before),
                ascending(old_texts),
                forall|i: int| 0 <= i < low ==> precedes(#[trigger] old_texts[i], path@),
                forall|j: int|
                    high <= j < old_texts.len() ==> !precedes(#[trigger] old_texts[j], path@),
            decreases high - low,
        {
            let middle: usize = low + (high - low) / 2;
            if text_le(sorted[middle].as_str(), path.as_str()) {
                proof {
                    assert forall|i: int| 0 <= i < middle + 1 implies precedes(
                        #[trigger] old_texts[i],
                        path@,
                    ) by {
                        if i < middle {
                            let pivot = old_texts[middle as int];
                            lemma_precedes_transitive(old_texts[i], pivot, path@);
                        }
                    }
                }
                low = middle + 1;
            } else {
                proof {
                    assert forall|j: int| middle <= j < old_texts.len() implies !precedes(
                        #[trigger] old_texts[j],
                        path@,
                    ) by {
                        if middle < j && precedes(old_texts[j], path@) {
                            let pivot = old_texts[middle as int];
                            lemma_precedes_transitive(pivot, old_texts[j], path@);
                        }
                    }
                }
                high = middle;
            }
        }
        sorted.insert(low, path);
        proof {
            let new_texts = texts(sorted@);
            let p: int = low as int;
            assert(new_texts =~= old_texts.insert(p, path@));
            vstd::seq_lib::to_multiset_insert(old_texts, p, path@);
            assert(all.take(k + 1) =~= all.take(k).push(path@));
            vstd::seq_lib::to_multiset_build(all.take(k), path@);
            assert forall|i: int, j: int| 0 <= i < j < new_texts.len() implies precedes(
                new_texts[i],
                new_texts[j],
            ) by {
                if j < p {
                    assert(new_texts[i] == old_texts[i] && new_texts[j] == old_texts[j]);
                } else if j == p {
                    assert(new_texts[i] == old_texts[i]);
                } else if i < p {
                    assert(new_texts[i] == old_texts[i] && new_texts[j] == old_texts[j - 1]);
                } else if i == p {
                    assert(new_texts[j] == old_texts[j - 1]);
                    lemma_precedes_total(old_texts[j - 1], path@);
                } else {
                    assert(new_texts[i] == old_texts[i - 1] && new_texts[j] == old_texts[j - 1]);
                }
            }
        }
    }
    assert(all.take(paths@.len() as int) =~= all);
    sorted
}

/// An ascending arrangement of given texts is the only one: two ascending
/// sequences that hold the same texts, each as often, are equal.
pub proof fn lemma_ascending_unique(a: Seq<Seq<char>>, b: Seq<Seq<char>>)
    requires
        ascending(a),
        ascending(b),
        a.to_multiset() == b.to_multiset(),
    ensures
        a == b,
    decreases a.len(),
{
    a.to_multiset_ensures();
    b.to_multiset_ensures();
    if a.len() == 0 {
        assert(a =~= b);
    } else {
        let last_a = a.last();
        let last_b = b.last();
        assert(a.to_multiset().count(last_a) > 0) by {
            assert(a.contains(last_a));
        }
        assert(b.contains(last_a));
        assert(a.contains(last_b)) by {
            assert(b.contains(last_b));
            assert(b.to_multiset().count(last_b) > 0);
            assert(a.to_multiset().count(last_b) > 0);
        }
        let i = choose|i: int| 0 <= i < b.len() && b[i] == last_a;
        let j = choose|j: int| 0 <= j < a.len() && a[j] == last_b;
        lemma_precedes_reflexive(last_a);
        lemma_precedes_reflexive(last_b);
        assert(precedes(last_a, last_b));
        assert(precedes(last_b, last_a));
        lemma_precedes_antisymmetric(last_a, last_b);
        assert(a =~= a.drop_last().push(last_a));
        assert(b =~= b.drop_last().push(last_b));
        vstd::seq_lib::to_multiset_build(a.drop_last(), last_a);
        vstd::seq_lib::to_multiset_build(b.drop_last(), last_b);
        assert(a.drop_last().to_multiset() =~= a.to_multiset().remove(last_a));
        assert(b.drop_last().to_multiset() =~= b.to_multiset().remove(last_b));
        assert(ascending(a.drop_last()));
        assert(ascending(b.drop_last()));
        lemma_ascending_unique(a.drop_last(), b.drop_last());
    }
}

} // verus!
