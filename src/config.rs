//! Reading rule counts and initial cells from text.

use std::collections::HashSet;
use vstd::prelude::*;

verus! {

broadcast use vstd::std_specs::hash::group_hash_axioms;

/// What `str::trim` leaves of `s`.
pub uninterp spec fn trimmed(s: Seq<char>) -> Seq<char>;

/// What `str::trim_end` leaves of `s`.
pub uninterp spec fn trimmed_end(s: Seq<char>) -> Seq<char>;

/// The pieces of `s` between occurrences of `sep`: one more than there are
/// separators, empty pieces kept.
pub open spec fn pieces(s: Seq<char>, sep: char) -> Seq<Seq<char>>
    decreases s.len(),
{
    if s.len() == 0 {
        seq![Seq::empty()]
    } else {
        let ps = pieces(s.drop_last(), sep);
        if s.last() == sep {
            ps.push(Seq::empty())
        } else {
            ps.update(ps.len() - 1, ps.last().push(s.last()))
        }
    }
}

/// `c` is an ASCII decimal digit.
pub open spec fn is_digit(c: char) -> bool {
    '0' <= c && c <= '9'
}

/// The value of a string of decimal digits.
pub open spec fn digits_value(d: Seq<char>) -> int
    decreases d.len(),
{
    if d.len() == 0 {
        0
    } else {
        digits_value(d.drop_last()) * 10 + (d.last() as u32 - '0' as u32)
    }
}

/// The value of one or more decimal digits.
pub open spec fn digits_of(d: Seq<char>) -> Option<int> {
    if d.len() > 0 && forall|i: int| 0 <= i < d.len() ==> is_digit(#[trigger] d[i]) {
        Some(digits_value(d))
    } else {
        None
    }
}

/// The value of an optional `+` followed by decimal digits.
pub open spec fn unsigned_value(s: Seq<char>) -> Option<int> {
    if s.len() > 0 && s[0] == '+' {
        digits_of(s.skip(1))
    } else {
        digits_of(s)
    }
}

/// The `u32` that `s` writes in decimal, if any.
pub open spec fn u32_of(s: Seq<char>) -> Option<u32> {
    match unsigned_value(s) {
        Some(v) => if v <= u32::MAX {
            Some(v as u32)
        } else {
            None
        },
        None => None,
    }
}

/// The `i64` that `s` writes in decimal, with an optional sign, if any.
pub open spec fn i64_of(s: Seq<char>) -> Option<i64> {
    if s.len() > 0 && s[0] == '-' {
        match digits_of(s.skip(1)) {
            Some(v) => if -v >= i64::MIN {
                Some((-v) as i64)
            } else {
                None
            },
            None => None,
        }
    } else {
        match unsigned_value(s) {
            Some(v) => if v <= i64::MAX {
                Some(v as i64)
            } else {
                None
            },
            None => None,
        }
    }
}

/// Relies on `str::trim`: leading and trailing whitespace removed.
#[verifier::external_body]
fn trim(s: &str) -> (r: String)
    ensures
        r@ == trimmed(s@),
{
    s.trim().to_string()
}

/// Relies on `str::trim_end`: trailing whitespace removed.
#[verifier::external_body]
fn trim_end(s: &str) -> (r: String)
    ensures
        r@ == trimmed_end(s@),
{
    s.trim_end().to_string()
}

/// Relies on `str::split` with a `char` pattern: the pieces between the
/// separators, in order.
#[verifier::external_body]
fn split_on(s: &str, sep: char) -> (r: Vec<String>)
    ensures
        r@.len() == pieces(s@, sep).len(),
        forall|i: int| 0 <= i < r@.len() ==> #[trigger] r@[i]@ == pieces(s@, sep)[i],
{
    s.split(sep).map(|p| p.to_string()).collect()
}

/// Relies on `u32`'s `FromStr`: an optional `+` and decimal digits whose
/// value fits.
#[verifier::external_body]
fn parse_u32(s: &str) -> (r: Option<u32>)
    ensures
        r == u32_of(s@),
{
    s.parse::<u32>().ok()
}

/// Relies on `i64`'s `FromStr`: an optional sign and decimal digits whose
/// value fits.
#[verifier::external_body]
fn parse_i64(s: &str) -> (r: Option<i64>)
    ensures
        r == i64_of(s@),
{
    s.parse::<i64>().ok()
}

/// The counts that some piece of `ps` writes.
pub open spec fn counts_in(ps: Seq<Seq<char>>) -> Set<u32> {
    Set::new(|n: u32| exists|i: int| 0 <= i < ps.len() && u32_of(#[trigger] ps[i]) == Some(n))
}

/// The neighbour counts of a comma-separated list; pieces that are not a
/// `u32` are skipped.
pub fn parse_counts(text: &str) -> (r: HashSet<u32>)
    ensures
        r@ == counts_in(pieces(text@, ',')),
{
    let ps = split_on(text, ',');
    let ghost sp = pieces(text@, ',');
    let mut buf: HashSet<u32> = HashSet::new();
    let mut i: usize = 0;
    while i < ps.len()
        invariant
            i <= ps@.len(),
            ps@.len() == sp.len(),
            forall|j: int| 0 <= j < ps@.len() ==> #[trigger] ps@[j]@ == sp[j],
            buf@ == counts_in(sp.take(i as int)),
        decreases ps@.len() - i,
    {
        let ghost before = buf@;
        match parse_u32(ps[i].as_str()) {
            Some(n) => {
                buf.insert(n);
            },
            None => {},
        }
        proof {
            let t = sp.take(i + 1);
            assert(t[i as int] == sp[i as int]);
            assert forall|n: u32| #[trigger] buf@.contains(n) == counts_in(t).contains(n) by {
                if counts_in(t).contains(n) {
                    let j = choose|j: int| 0 <= j < t.len() && u32_of(#[trigger] t[j]) == Some(n);
                    if j < i {
                        assert(sp.take(i as int)[j] == t[j]);
                    }
                }
                if before.contains(n) {
                    let j = choose|j: int| 0 <= j < i && u32_of(#[trigger] sp.take(i as int)[j]) == Some(n);
                    assert(sp.take(i as int)[j] == t[j]);
                }
            }
            assert(buf@ =~= counts_in(t));
        }
        i = i + 1;
    }
    proof {
        assert(sp.take(ps@.len() as int) =~= sp);
    }
    buf
}

/// Replaces `set` by the counts of the comma-separated list `opt`, trimmed,
/// when it holds at least one; otherwise `set` keeps its counts.
pub fn parse_for_hashset(opt: Option<String>, set: &mut HashSet<u32>)
    ensures
        match opt {
            Some(x) => {
                let found = counts_in(pieces(trimmed(x@), ','));
                final(set)@ == if found.is_empty() {
                    old(set)@
                } else {
                    found
                }
            },
            None => final(set)@ == old(set)@,
        },
{
    if let Some(x) = opt {
        let t = trim(x.as_str());
        let buf = parse_counts(t.as_str());
        if !buf.is_empty() {
            *set = buf;
        }
    }
}

/// The numbers that the pieces of `ps` write, in order; the other pieces
/// skipped.
pub open spec fn numbers_in(ps: Seq<Seq<char>>) -> Seq<i64>
    decreases ps.len(),
{
    if ps.len() == 0 {
        Seq::empty()
    } else {
        match i64_of(ps.last()) {
            Some(v) => numbers_in(ps.drop_last()).push(v),
            None => numbers_in(ps.drop_last()),
        }
    }
}

/// The first two of `ns`, when there are two.
pub open spec fn first_pair(ns: Seq<i64>) -> Option<(i64, i64)> {
    if ns.len() >= 2 {
        Some((ns[0], ns[1]))
    } else {
        None
    }
}

/// The cell that a line of space-separated words gives: the first two words
/// that are integers, if there are two.
pub fn life_pair(text: &str) -> (r: Option<(i64, i64)>)
    ensures
        r == first_pair(numbers_in(pieces(text@, ' '))),
{
    let ps = split_on(text, ' ');
    let ghost sp = pieces(text@, ' ');
    let mut nums: Vec<i64> = Vec::new();
    let mut i: usize = 0;
    while i < ps.len()
        invariant
            i <= ps@.len(),
            ps@.len() == sp.len(),
            forall|j: int| 0 <= j < ps@.len() ==> #[trigger] ps@[j]@ == sp[j],
            nums@ == numbers_in(sp.take(i as int)),
        decreases ps@.len() - i,
    {
        match parse_i64(ps[i].as_str()) {
            Some(v) => {
                nums.push(v);
            },
            None => {},
        }
        proof {
            let t = sp.take(i + 1);
            assert(t.drop_last() =~= sp.take(i as int));
            assert(t.last() == sp[i as int]);
        }
        i = i + 1;
    }
    proof {
        assert(sp.take(ps@.len() as int) =~= sp);
    }
    if nums.len() >= 2 {
        Some((nums[0], nums[1]))
    } else {
        None
    }
}

/// The cell that a line of a Life 1.06 file gives, trailing whitespace
/// ignored: the first two integers on it, if there are two.
pub fn parse_life_line(line: &str) -> (r: Option<(i64, i64)>)
    ensures
        r == first_pair(numbers_in(pieces(trimmed_end(line@), ' '))),
{
    let t = trim_end(line);
    life_pair(t.as_str())
}

} // verus!
