//! Predicates and small operations on the text of a line or a path.

use crate::order::{lemma_precedes_antisymmetric, lemma_precedes_reflexive, text_le};
use vstd::prelude::*;
use vstd::string::*;

verus! {

/// Whether `c` is white space: one of the code points that Unicode classes
/// as `White_Space`.
pub open spec fn is_space(c: char) -> bool {
    let v: u32 = c as u32;
    ||| 0x09 <= v <= 0x0D
    ||| v == 0x20
    ||| v == 0x85
    ||| v == 0xA0
    ||| v == 0x1680
    ||| 0x2000 <= v <= 0x200A
    ||| v == 0x2028
    ||| v == 0x2029
    ||| v == 0x202F
    ||| v == 0x205F
    ||| v == 0x3000
}

/// A line is blank when it holds nothing but white space.
pub open spec fn blank(line: Seq<char>) -> bool {
    forall|i: int| 0 <= i < line.len() ==> is_space(#[trigger] line[i])
}

/// The lines of `lines` that are not blank, in their order.
pub open spec fn kept(lines: Seq<Seq<char>>) -> Seq<Seq<char>>
    decreases lines.len(),
{
    if lines.len() == 0 {
        Seq::empty()
    } else if blank(lines.last()) {
        kept(lines.drop_last())
    } else {
        kept(lines.drop_last()).push(lines.last())
    }
}

/// The text of every string of `lines`.
pub open spec fn texts(lines: Seq<String>) -> Seq<Seq<char>> {
    Seq::new(lines.len(), |i: int| lines[i]@)
}

/// Tells white space from other characters.
pub fn is_whitespace(c: char) -> (b: bool)
    ensures
        b == is_space(c),
{
    let v: u32 = c as u32;
    (0x09 <= v && v <= 0x0D) || v == 0x20 || v == 0x85 || v == 0xA0 || v == 0x1680 || (0x2000 <= v
        && v <= 0x200A) || v == 0x2028 || v == 0x2029 || v == 0x202F || v == 0x205F || v == 0x3000
}

/// Whether a line holds nothing but white space. The empty line is blank.
pub fn is_blank(line: &str) -> (b: bool)
    ensures
        b == blank(line@),
{
    for c in it: line.chars()
        invariant
            it.seq() == line@,
            blank(line@.take(it.index() as int)),
    {
        let ghost k: int = it.index() as int;
        assert(c == line@[k]);
        if !is_whitespace(c) {
            return false;
        }
        assert(blank(line@.take(k + 1))) by {
            let longer: Seq<char> = line@.take(k + 1);
            let shorter: Seq<char> = line@.take(k);
            assert forall|j: int| 0 <= j < longer.len() implies is_space(#[trigger] longer[j]) by {
                if j < k {
                    assert(is_space(shorter[j]));
                }
            }
        }
    }
    assert(line@.take(line@.len() as int) =~= line@);
    true
}

/// `text` without the white space at its end.
pub open spec fn trim_end(text: Seq<char>) -> Seq<char>
    decreases text.len(),
{
    if text.len() > 0 && is_space(text.last()) {
        trim_end(text.drop_last())
    } else {
        text
    }
}

/// `text` without the white space at its start.
pub open spec fn trim_start(text: Seq<char>) -> Seq<char>
    decreases text.len(),
{
    if text.len() > 0 && is_space(text[0]) {
        trim_start(text.drop_first())
    } else {
        text
    }
}

/// `text` without the white space at either end.
pub open spec fn trimmed(text: Seq<char>) -> Seq<char> {
    trim_end(trim_start(text))
}

/// The pieces of `text` between the occurrences of `sep`. Read from the
/// left, a separator opens a new piece and any other character joins the
/// last one; so there is one piece more than there are separators.
pub open spec fn split(text: Seq<char>, sep: char) -> Seq<Seq<char>>
    decreases text.len(),
{
    if text.len() == 0 {
        seq![Seq::empty()]
    } else {
        let before = split(text.drop_last(), sep);
        if text.last() == sep {
            before.push(Seq::empty())
        } else {
            before.drop_last().push(before.last().push(text.last()))
        }
    }
}

/// Whether `text` ends in `suffix`.
pub open spec fn has_suffix(text: Seq<char>, suffix: Seq<char>) -> bool {
    text.len() >= suffix.len() && text.skip(text.len() - suffix.len()) == suffix
}

/// Leading white space is all that `trim_start` removes.
proof fn lemma_trim_start(text: Seq<char>, n: int)
    requires
        0 <= n <= text.len(),
        forall|j: int| 0 <= j < n ==> is_space(#[trigger] text[j]),
        n < text.len() ==> !is_space(text[n]),
    ensures
        trim_start(text) == text.skip(n),
    decreases n,
{
    if n == 0 {
        assert(text.skip(0) =~= text);
    } else {
        assert(is_space(text[0]));
        let rest = text.drop_first();
        assert forall|j: int| 0 <= j < n - 1 implies is_space(#[trigger] rest[j]) by {
            assert(rest[j] == text[j + 1]);
        }
        lemma_trim_start(rest, n - 1);
        assert(rest.skip(n - 1) =~= text.skip(n));
    }
}

/// Trailing white space is all that `trim_end` removes.
proof fn lemma_trim_end(text: Seq<char>, n: int)
    requires
        0 <= n <= text.len(),
        forall|j: int| n <= j < text.len() ==> is_space(#[trigger] text[j]),
        n > 0 ==> !is_space(text[n - 1]),
    ensures
        trim_end(text) == text.take(n),
    decreases text.len() - n,
{
    if n == text.len() {
        assert(text.take(n) =~= text);
    } else {
        assert(is_space(text.last()));
        let rest = text.drop_last();
        lemma_trim_end(rest, n);
        assert(rest.take(n) =~= text.take(n));
    }
}

/// Removes the white space at both ends of `text`.
pub fn trim(text: &str) -> (inner: String)
    ensures
        inner@ == trimmed(text@),
{
    let mut first: usize = 0;
    let mut end: usize = 0;
    let mut seen: bool = false;
    let mut at: usize = 0;
    let len: usize = text.unicode_len();
    for c in it: text.chars()
        invariant
            it.seq() == text@,
            at == it.index(),
            len == text@.len(),
            seen ==> first < end <= at && !is_space(text@[first as int]) && !is_space(
                text@[end - 1],
            ),
            seen ==> forall|j: int| 0 <= j < first ==> is_space(#[trigger] text@[j]),
            seen ==> forall|j: int| end <= j < at ==> is_space(#[trigger] text@[j]),
            !seen ==> forall|j: int| 0 <= j < at ==> is_space(#[trigger] text@[j]),
    {
        assert(c == text@[at as int]);
        if !is_whitespace(c) {
            if !seen {
                first = at;
                seen = true;
            }
            end = at + 1;
        }
        at = at + 1;
    }
    if !seen {
        proof {
            lemma_trim_start(text@, text@.len() as int);
            assert(text@.skip(text@.len() as int) =~= Seq::<char>::empty());
        }
        String::new()
    } else {
        proof {
            lemma_trim_start(text@, first as int);
            let tail = text@.skip(first as int);
            assert forall|j: int| end - first <= j < tail.len() implies is_space(
                #[trigger] tail[j],
            ) by {
                assert(tail[j] == text@[j + first]);
            }
            assert(tail[end - first - 1] == text@[end - 1]);
            lemma_trim_end(tail, end - first);
            assert(tail.take(end - first) =~= text@.subrange(first as int, end as int));
        }
        text.substring_char(first, end).to_owned()
    }
}

/// Cuts `text` at every occurrence of `sep`.
pub fn split_on(text: &str, sep: char) -> (pieces: Vec<String>)
    ensures
        texts(pieces@) == split(text@, sep),
{
    let mut pieces: Vec<String> = Vec::new();
    let mut start: usize = 0;
    let mut at: usize = 0;
    let len: usize = text.unicode_len();
    assert(text@.take(0) =~= Seq::<char>::empty());
    assert(texts(pieces@).push(text@.subrange(0, 0)) =~= split(text@.take(0), sep));
    for c in it: text.chars()
        invariant
            it.seq() == text@,
            at == it.index(),
            len == text@.len(),
            start <= at,
            split(text@.take(at as int), sep) == texts(pieces@).push(
                text@.subrange(start as int, at as int),
            ),
    {
        let ghost before = pieces@;
        let ghost k: int = at as int;
        assert(c == text@[k]);
        assert(text@.take(k + 1).drop_last() =~= text@.take(k));
        assert(text@.take(k + 1).last() == c);
        let ghost open_piece = text@.subrange(start as int, k);
        if c == sep {
            let piece: String = text.substring_char(start, at).to_owned();
            pieces.push(piece);
            start = at + 1;
            assert(texts(pieces@) =~= texts(before).push(open_piece));
            assert(text@.subrange(k + 1, k + 1) =~= Seq::<char>::empty());
        } else {
            assert(texts(before).push(open_piece).drop_last() =~= texts(before));
            assert(open_piece.push(c) =~= text@.subrange(start as int, k + 1));
        }
        at = at + 1;
    }
    let last: String = text.substring_char(start, at).to_owned();
    pieces.push(last);
    proof {
        assert(text@.take(at as int) =~= text@);
        assert(texts(pieces@) =~= split(text@, sep));
    }
    pieces
}

/// Whether two texts are the same.
pub fn same_text(a: &str, b: &str) -> (same: bool)
    ensures
        same == (a@ == b@),
{
    let forth: bool = text_le(a, b);
    let back: bool = text_le(b, a);
    proof {
        if forth && back {
            lemma_precedes_antisymmetric(a@, b@);
        }
        if a@ == b@ {
            lemma_precedes_reflexive(a@);
        }
    }
    forth && back
}

/// Whether `text` ends in `suffix`.
pub fn ends_with(text: &str, suffix: &str) -> (ends: bool)
    ensures
        ends == has_suffix(text@, suffix@),
{
    let len: usize = text.unicode_len();
    let wanted: usize = suffix.unicode_len();
    if len < wanted {
        false
    } else {
        let tail: &str = text.substring_char(len - wanted, len);
        assert(tail@ =~= text@.skip(len - wanted));
        same_text(tail, suffix)
    }
}

/// No line that is kept is blank.
pub proof fn lemma_kept_holds_no_blank_line(lines: Seq<Seq<char>>)
    ensures
        forall|i: int| 0 <= i < kept(lines).len() ==> !blank(#[trigger] kept(lines)[i]),
    decreases lines.len(),
{
    if lines.len() > 0 {
        lemma_kept_holds_no_blank_line(lines.drop_last());
        let front = kept(lines.drop_last());
        assert forall|i: int| 0 <= i < kept(lines).len() implies !blank(
            #[trigger] kept(lines)[i],
        ) by {
            if i < front.len() {
                assert(kept(lines)[i] == front[i]);
            }
        }
    }
}

/// Where no line is blank, all are kept.
pub proof fn lemma_kept_keeps_all(lines: Seq<Seq<char>>)
    requires
        forall|i: int| 0 <= i < lines.len() ==> !blank(#[trigger] lines[i]),
    ensures
        kept(lines) == lines,
    decreases lines.len(),
{
    if lines.len() > 0 {
        assert forall|i: int| 0 <= i < lines.drop_last().len() implies !blank(
            #[trigger] lines.drop_last()[i],
        ) by {
            assert(lines.drop_last()[i] == lines[i]);
        }
        lemma_kept_keeps_all(lines.drop_last());
        assert(!blank(lines[lines.len() - 1]));
        assert(lines =~= lines.drop_last().push(lines.last()));
    } else {
        assert(kept(lines) =~= lines);
    }
}

/// The lines kept of two lists are those kept of the first, then those
/// kept of the second.
pub proof fn lemma_kept_concat(first: Seq<Seq<char>>, second: Seq<Seq<char>>)
    ensures
        kept(first + second) == kept(first) + kept(second),
    decreases second.len(),
{
    if second.len() == 0 {
        assert(first + second =~= first);
        assert(kept(first) + kept(second) =~= kept(first));
    } else {
        lemma_kept_concat(first, second.drop_last());
        assert((first + second).drop_last() =~= first + second.drop_last());
        assert((first + second).last() == second.last());
        assert(kept(first + second) =~= kept(first) + kept(second));
    }
}

/// How often a line is kept: as often as it occurs, unless it is blank.
proof fn lemma_kept_count(lines: Seq<Seq<char>>, line: Seq<char>)
    ensures
        kept(lines).to_multiset().count(line) == if blank(line) {
            0
        } else {
            lines.to_multiset().count(line)
        },
    decreases lines.len(),
{
    broadcast use vstd::multiset::group_multiset_axioms;

    if lines.len() == 0 {
        vstd::seq_lib::to_multiset_len(lines);
        assert(lines.to_multiset().len() == 0);
        assert(lines.to_multiset().count(line) == 0);
        assert(kept(lines) =~= lines);
    } else {
        let front = lines.drop_last();
        let last = lines.last();
        lemma_kept_count(front, line);
        assert(lines =~= front.push(last));
        vstd::seq_lib::to_multiset_build(front, last);
        if !blank(last) {
            vstd::seq_lib::to_multiset_build(kept(front), last);
        }
    }
}

/// Which lines are kept does not depend on their order.
pub proof fn lemma_kept_of_permutation(a: Seq<Seq<char>>, b: Seq<Seq<char>>)
    requires
        a.to_multiset() == b.to_multiset(),
    ensures
        kept(a).to_multiset() == kept(b).to_multiset(),
{
    assert forall|line: Seq<char>|
        kept(a).to_multiset().count(line) == kept(b).to_multiset().count(line) by {
        lemma_kept_count(a, line);
        lemma_kept_count(b, line);
    }
    assert(kept(a).to_multiset() =~= kept(b).to_multiset());
}

} // verus!
