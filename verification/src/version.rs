//! Versions written as integers between dots, and their order.

use crate::decimal::{parse_signed, read_signed};
use crate::error::Error;
use crate::text::to_chars;
use std::cmp::Ordering;
use vstd::prelude::*;

verus! {

/// How one version stands to another.
#[derive(Debug, Clone, Copy, PartialEq, Eq, Structural)]
pub enum Rank {
    /// The first is the earlier one.
    Less,
    /// Neither is earlier.
    Equal,
    /// The first is the later one.
    Greater,
}

/// Number of characters in front of the first dot of `s`, or all of them
/// where it has none.
pub open spec fn first_dot(s: Seq<char>) -> nat
    decreases s.len(),
{
    if s.len() == 0 || s[0] == '.' {
        0
    } else {
        1 + first_dot(s.drop_first())
    }
}

/// The parts of `s` between its dots, in order. There is always one part;
/// a part may be empty.
pub open spec fn split_dots(s: Seq<char>) -> Seq<Seq<char>>
    decreases s.len(),
{
    let k = first_dot(s) as int;
    if k >= s.len() {
        seq![s]
    } else {
        seq![s.take(k)] + split_dots(s.skip(k + 1))
    }
}

/// The integer that a part writes, where it writes one that fits 32 bits.
pub open spec fn part_value(part: Seq<char>) -> Option<int> {
    match parse_signed(part) {
        Some(n) => if i32::MIN <= n <= i32::MAX {
            Some(n)
        } else {
            None
        },
        None => None,
    }
}

/// The integer at place `i` of a version: zero behind its last part.
pub open spec fn component(parts: Seq<Seq<char>>, i: int) -> Option<int> {
    if i < parts.len() {
        part_value(parts[i])
    } else {
        Some(0)
    }
}

/// The order of two versions from place `i` on: that of the first place at
/// which they differ. A part that is no integer is an error, but only if
/// no earlier place has decided.
pub open spec fn rank_from(left: Seq<Seq<char>>, right: Seq<Seq<char>>, i: int) -> Result<
    Rank,
    Error,
>
    decreases left.len() + right.len() - i,
{
    if i < 0 || (i >= left.len() && i >= right.len()) {
        Ok(Rank::Equal)
    } else {
        match (component(left, i), component(right, i)) {
            (Some(a), Some(b)) => if a > b {
                Ok(Rank::Greater)
            } else if a < b {
                Ok(Rank::Less)
            } else {
                rank_from(left, right, i + 1)
            },
            _ => Err(Error::InvalidVersion),
        }
    }
}

/// The order of two versions.
pub open spec fn version_rank(left: Seq<char>, right: Seq<char>) -> Result<Rank, Error> {
    rank_from(split_dots(left), split_dots(right), 0)
}

/// Where no dot stands in front of place `k`, and one stands there or the
/// text ends there, `k` is the place of the first dot.
proof fn lemma_first_dot(s: Seq<char>, k: int)
    requires
        0 <= k <= s.len(),
        forall|j: int| 0 <= j < k ==> s[j] != '.',
        k == s.len() || s[k] == '.',
    ensures
        first_dot(s) == k,
    decreases k,
{
    if k > 0 {
        let t = s.drop_first();
        assert forall|j: int| 0 <= j < k - 1 implies t[j] != '.' by {}
        lemma_first_dot(t, k - 1);
    }
}

/// A version whose parts are all integers compares equal to itself.
pub proof fn lemma_rank_reflexive(parts: Seq<Seq<char>>, i: int)
    requires
        0 <= i,
        forall|k: int| i <= k < parts.len() ==> (#[trigger] part_value(parts[k])) is Some,
    ensures
        rank_from(parts, parts, i) == Ok::<Rank, Error>(Rank::Equal),
    decreases parts.len() - i,
{
    if i < parts.len() {
        lemma_rank_reflexive(parts, i + 1);
    }
}

/// Whether `bounds` tells where each part of `chars` begins and ends.
pub open spec fn marks_parts(chars: Seq<char>, bounds: Seq<(usize, usize)>) -> bool {
    &&& bounds.len() == split_dots(chars).len()
    &&& forall|i: int|
        0 <= i < bounds.len() ==> {
            &&& (#[trigger] bounds[i]).0 <= bounds[i].1 <= chars.len()
            &&& chars.subrange(bounds[i].0 as int, bounds[i].1 as int) == split_dots(chars)[i]
        }
}

/// The same order seen from the other side.
pub open spec fn reversed(rank: Result<Rank, Error>) -> Result<Rank, Error> {
    match rank {
        Ok(Rank::Less) => Ok(Rank::Greater),
        Ok(Rank::Equal) => Ok(Rank::Equal),
        Ok(Rank::Greater) => Ok(Rank::Less),
        Err(e) => Err(e),
    }
}

/// Comparing two versions the other way round gives the reversed order,
/// and the same error.
pub proof fn lemma_rank_reversed(left: Seq<Seq<char>>, right: Seq<Seq<char>>, i: int)
    ensures
        rank_from(right, left, i) == reversed(rank_from(left, right, i)),
    decreases left.len() + right.len() - i,
{
    if 0 <= i && (i < left.len() || i < right.len()) {
        lemma_rank_reversed(left, right, i + 1);
    }
}

/// Where each part of `chars` begins and ends.
fn part_bounds(chars: &[char]) -> (bounds: Vec<(usize, usize)>)
    ensures
        marks_parts(chars@, bounds@),
{
    let n: usize = chars.len();
    let mut bounds: Vec<(usize, usize)> = Vec::new();
    let mut start: usize = 0;
    let mut i: usize = 0;
    let ghost mut done: Seq<Seq<char>> = Seq::empty();
    assert(chars@.skip(0) =~= chars@);
    while i < n
        invariant
            n == chars@.len(),
            start <= i <= n,
            forall|j: int| start <= j < i ==> chars@[j] != '.',
            split_dots(chars@) == done + split_dots(chars@.skip(start as int)),
            bounds@.len() == done.len(),
            forall|k: int|
                0 <= k < bounds@.len() ==> {
                    &&& (#[trigger] bounds@[k]).0 <= bounds@[k].1 <= n
                    &&& chars@.subrange(bounds@[k].0 as int, bounds@[k].1 as int) == done[k]
                },
        decreases n - i,
    {
        if chars[i] == '.' {
            proof {
                let tail = chars@.skip(start as int);
                assert forall|j: int| 0 <= j < i - start implies tail[j] != '.' by {}
                lemma_first_dot(tail, i - start);
                assert(tail.skip(i - start + 1) =~= chars@.skip(i + 1));
                done = done.push(tail.take(i - start));
            }
            bounds.push((start, i));
            start = i + 1;
        }
        i += 1;
    }
    proof {
        let tail = chars@.skip(start as int);
        assert forall|j: int| 0 <= j < n - start implies tail[j] != '.' by {}
        lemma_first_dot(tail, n - start);
    }
    bounds.push((start, n));
    bounds
}

/// The integer at place `i` of the version in `chars`, whose parts stand
/// at `bounds`.
fn component_at(chars: &[char], bounds: &Vec<(usize, usize)>, i: usize) -> (value: Option<i32>)
    requires
        marks_parts(chars@, bounds@),
    ensures
        match value {
            Some(v) => component(split_dots(chars@), i as int) == Some(v as int),
            None => component(split_dots(chars@), i as int) is None,
        },
{
    if i < bounds.len() {
        let (lo, hi) = bounds[i];
        read_signed(chars, lo, hi)
    } else {
        Some(0)
    }
}

/// The order of two versions, each a row of integers between dots. Places
/// that one of them lacks count as zero.
pub fn rank_versions(version1: &str, version2: &str) -> (rank: Result<Rank, Error>)
    ensures
        rank == version_rank(version1@, version2@),
{
    let left = to_chars(version1);
    let right = to_chars(version2);
    let left_bounds = part_bounds(left.as_slice());
    let right_bounds = part_bounds(right.as_slice());
    let places: usize = if left_bounds.len() > right_bounds.len() {
        left_bounds.len()
    } else {
        right_bounds.len()
    };
    let ghost lp = split_dots(version1@);
    let ghost rp = split_dots(version2@);
    let mut i: usize = 0;
    while i < places
        invariant
            left@ == version1@,
            right@ == version2@,
            lp == split_dots(left@),
            rp == split_dots(right@),
            marks_parts(left@, left_bounds@),
            marks_parts(right@, right_bounds@),
            places >= lp.len(),
            places >= rp.len(),
            places == lp.len() || places == rp.len(),
            i <= places,
            rank_from(lp, rp, 0) == rank_from(lp, rp, i as int),
        decreases places - i,
    {
        let a = match component_at(left.as_slice(), &left_bounds, i) {
            Some(a) => a,
            None => { return Err(Error::InvalidVersion); },
        };
        let b = match component_at(right.as_slice(), &right_bounds, i) {
            Some(b) => b,
            None => { return Err(Error::InvalidVersion); },
        };
        if a > b {
            return Ok(Rank::Greater);
        }
        if a < b {
            return Ok(Rank::Less);
        }
        i += 1;
    }
    Ok(Rank::Equal)
}

/// The order that a rank names.
pub open spec fn rank_order(rank: Result<Rank, Error>) -> Result<Ordering, Error> {
    match rank {
        Ok(Rank::Less) => Ok(Ordering::Less),
        Ok(Rank::Equal) => Ok(Ordering::Equal),
        Ok(Rank::Greater) => Ok(Ordering::Greater),
        Err(e) => Err(e),
    }
}

/// Compares two versions, each a row of integers between dots, place by
/// place. Places that one of them lacks count as zero. A part that is no
/// integer of 32 bits is an error, unless an earlier place has decided.
pub fn compare_version(version1: &str, version2: &str) -> (order: Result<Ordering, Error>)
    ensures
        order == rank_order(version_rank(version1@, version2@)),
{
    match rank_versions(version1, version2) {
        Ok(Rank::Less) => Ok(Ordering::Less),
        Ok(Rank::Equal) => Ok(Ordering::Equal),
        Ok(Rank::Greater) => Ok(Ordering::Greater),
        Err(e) => Err(e),
    }
}

} // verus!
