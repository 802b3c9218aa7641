//! File names: the hidden temporary file of a bucket, and the output file
//! that a bucket becomes.

use vstd::prelude::*;
use vstd::string::*;

verus! {

/// Digits that a bucket number is padded to.
pub const NUMBER_WIDTH: usize = 4;

/// The decimal digit for `d`.
pub open spec fn digit(d: nat) -> char
    recommends
        d < 10,
{
    if d == 0 {
        '0'
    } else if d == 1 {
        '1'
    } else if d == 2 {
        '2'
    } else if d == 3 {
        '3'
    } else if d == 4 {
        '4'
    } else if d == 5 {
        '5'
    } else if d == 6 {
        '6'
    } else if d == 7 {
        '7'
    } else if d == 8 {
        '8'
    } else {
        '9'
    }
}

/// `n` in decimal, without leading zeros.
pub open spec fn decimal(n: nat) -> Seq<char>
    decreases n,
{
    if n < 10 {
        seq![digit(n)]
    } else {
        decimal(n / 10).push(digit(n % 10))
    }
}

/// `count` zeros.
pub open spec fn zeros(count: nat) -> Seq<char> {
    Seq::new(count, |i: int| '0')
}

/// `n` in decimal, with zeros in front up to `width` digits.
pub open spec fn padded(n: nat, width: nat) -> Seq<char> {
    let digits = decimal(n);
    if digits.len() >= width {
        digits
    } else {
        zeros((width - digits.len()) as nat) + digits
    }
}

/// Name of the temporary file of bucket `index`: a dot, the base name,
/// `_temp_`, the index padded to four digits, and `.jsonl`.
pub open spec fn temp_name(base: Seq<char>, index: nat) -> Seq<char> {
    "."@ + base + "_temp_"@ + padded(index, NUMBER_WIDTH as nat) + ".jsonl"@
}

/// Name of the output file of bucket `index` out of `bucket_count`. A run
/// with one bucket writes the base name alone. Any other run numbers its
/// files by the bucket, counting from one.
pub open spec fn output_name(base: Seq<char>, bucket_count: nat, index: nat) -> Seq<char> {
    if bucket_count == 1 {
        base + ".jsonl"@
    } else {
        base + "_part_"@ + padded(index + 1, NUMBER_WIDTH as nat) + ".jsonl"@
    }
}

/// The text of one decimal digit.
fn digit_text(d: usize) -> (text: &'static str)
    requires
        d < 10,
    ensures
        text@ == seq![digit(d as nat)],
{
    proof {
        reveal_strlit("0");
        reveal_strlit("1");
        reveal_strlit("2");
        reveal_strlit("3");
        reveal_strlit("4");
        reveal_strlit("5");
        reveal_strlit("6");
        reveal_strlit("7");
        reveal_strlit("8");
        reveal_strlit("9");
    }
    let text: &'static str = if d == 0 {
        "0"
    } else if d == 1 {
        "1"
    } else if d == 2 {
        "2"
    } else if d == 3 {
        "3"
    } else if d == 4 {
        "4"
    } else if d == 5 {
        "5"
    } else if d == 6 {
        "6"
    } else if d == 7 {
        "7"
    } else if d == 8 {
        "8"
    } else {
        "9"
    };
    assert(text@ =~= seq![digit(d as nat)]);
    text
}

/// Appends `n` in decimal.
fn push_decimal(out: &mut String, n: usize)
    ensures
        final(out)@ == old(out)@ + decimal(n as nat),
    decreases n,
{
    if n >= 10 {
        push_decimal(out, n / 10);
    }
    out.append(digit_text(n % 10));
    assert(out@ =~= old(out)@ + decimal(n as nat));
}

/// How many digits numbers below ten thousand have, and that larger ones
/// have more than three.
proof fn lemma_decimal_len(n: nat)
    ensures
        n < 10 ==> decimal(n).len() == 1,
        10 <= n < 100 ==> decimal(n).len() == 2,
        100 <= n < 1000 ==> decimal(n).len() == 3,
        1000 <= n ==> decimal(n).len() >= 4,
    decreases n,
{
    if n >= 10 {
        lemma_decimal_len(n / 10);
    }
}

/// Appends `n` in decimal, padded with zeros to `NUMBER_WIDTH` digits.
fn push_padded(out: &mut String, n: usize)
    ensures
        final(out)@ == old(out)@ + padded(n as nat, NUMBER_WIDTH as nat),
{
    let mut missing: usize = if n < 10 {
        3
    } else if n < 100 {
        2
    } else if n < 1000 {
        1
    } else {
        0
    };
    let ghost wanted: nat = missing as nat;
    proof {
        reveal_strlit("0");
        lemma_decimal_len(n as nat);
    }
    while missing > 0
        invariant
            missing <= wanted,
            out@ == old(out)@ + zeros((wanted - missing) as nat),
            "0"@ == seq!['0'],
        decreases missing,
    {
        let ghost before = out@;
        out.append("0");
        missing = missing - 1;
        assert(out@ =~= old(out)@ + zeros((wanted - missing) as nat));
    }
    push_decimal(out, n);
    assert(out@ =~= old(out)@ + padded(n as nat, NUMBER_WIDTH as nat));
}

/// Name of the temporary file of bucket `index`.
pub fn temp_file_name(output_name: &str, index: usize) -> (name: String)
    ensures
        name@ == temp_name(output_name@, index as nat),
{
    let mut name: String = String::new();
    name.append(".");
    name.append(output_name);
    name.append("_temp_");
    push_padded(&mut name, index);
    name.append(".jsonl");
    assert(name@ =~= temp_name(output_name@, index as nat));
    name
}

/// Name of the output file of bucket `index` in a run of `bucket_count`
/// buckets.
pub fn output_file_name(output_name: &str, bucket_count: usize, index: usize) -> (name: String)
    requires
        index < bucket_count,
    ensures
        name@ == self::output_name(output_name@, bucket_count as nat, index as nat),
{
    let mut name: String = String::new();
    name.append(output_name);
    if bucket_count != 1 {
        name.append("_part_");
        push_padded(&mut name, index + 1);
    }
    name.append(".jsonl");
    assert(name@ =~= self::output_name(output_name@, bucket_count as nat, index as nat));
    name
}

} // verus!
