//! Texts as sequences of characters: white space, decimal numbers.

use vstd::prelude::*;
use vstd::string::*;

verus! {

/// The characters of `s`, one element each.
pub fn to_chars(s: &str) -> (chars: Vec<char>)
    ensures
        chars@ == s@,
{
    let mut out: Vec<char> = Vec::new();
    for c in it: s.chars()
        invariant
            it.seq() == s@,
            out@ == s@.take(it.index() as int),
    {
        out.push(c);
    }
    out
}

/// White space as Unicode's property `White_Space` has it.
pub open spec fn is_whitespace(c: char) -> bool {
    let u = c as u32;
    ||| 0x09 <= u <= 0x0D
    ||| u == 0x20
    ||| u == 0x85
    ||| u == 0xA0
    ||| u == 0x1680
    ||| 0x2000 <= u <= 0x200A
    ||| u == 0x2028
    ||| u == 0x2029
    ||| u == 0x202F
    ||| u == 0x205F
    ||| u == 0x3000
}

/// Whether `c` is white space.
pub fn is_space(c: char) -> (space: bool)
    ensures
        space == is_whitespace(c),
{
    let u: u32 = c as u32;
    (0x09 <= u && u <= 0x0D) || u == 0x20 || u == 0x85 || u == 0xA0 || u == 0x1680 || (0x2000 <= u
        && u <= 0x200A) || u == 0x2028 || u == 0x2029 || u == 0x202F || u == 0x205F || u
        == 0x3000
}

/// `s` without the white space that opens it.
pub open spec fn trim_start(s: Seq<char>) -> Seq<char>
    decreases s.len(),
{
    if s.len() > 0 && is_whitespace(s[0]) {
        trim_start(s.drop_first())
    } else {
        s
    }
}

/// `s` without the white space that ends it.
pub open spec fn trim_end(s: Seq<char>) -> Seq<char>
    decreases s.len(),
{
    if s.len() > 0 && is_whitespace(s.last()) {
        trim_end(s.drop_last())
    } else {
        s
    }
}

/// `s` without the white space at either end.
pub open spec fn trim(s: Seq<char>) -> Seq<char> {
    trim_end(trim_start(s))
}

/// Where the trimmed text stands in `chars`: from the first index, behind
/// the white space in front, to the second.
pub fn trim_bounds(chars: &[char]) -> (bounds: (usize, usize))
    ensures
        bounds.0 <= bounds.1 <= chars@.len(),
        bounds.0 == chars@.len() - trim_start(chars@).len(),
        chars@.subrange(bounds.0 as int, bounds.1 as int) == trim(chars@),
{
    let n: usize = chars.len();
    let mut a: usize = 0;
    assert(chars@.subrange(0, n as int) =~= chars@);
    while a < n && is_space(chars[a])
        invariant
            n == chars@.len(),
            a <= n,
            trim_start(chars@) == trim_start(chars@.subrange(a as int, n as int)),
        decreases n - a,
    {
        assert(chars@.subrange(a as int, n as int).drop_first() =~= chars@.subrange(
            a + 1,
            n as int,
        ));
        a += 1;
    }
    let mut b: usize = n;
    while b > a && is_space(chars[b - 1])
        invariant
            a <= b <= n,
            n == chars@.len(),
            a == n - trim_start(chars@).len(),
            trim(chars@) == trim_end(chars@.subrange(a as int, b as int)),
        decreases b - a,
    {
        assert(chars@.subrange(a as int, b as int).drop_last() =~= chars@.subrange(
            a as int,
            b - 1,
        ));
        b -= 1;
    }
    (a, b)
}

/// `s` without the white space at either end.
pub fn trimmed(s: &str) -> (inner: &str)
    ensures
        inner@ == trim(s@),
{
    let chars = to_chars(s);
    let (from, to) = trim_bounds(chars.as_slice());
    s.substring_char(from, to)
}

/// Whether the texts in `left` and in `right` are the same once the white
/// space at their ends is set aside.
pub fn same_trimmed(left: &[char], right: &[char]) -> (same: bool)
    ensures
        same == (trim(left@) == trim(right@)),
{
    let (la, lb) = trim_bounds(left);
    let (ra, rb) = trim_bounds(right);
    if lb - la != rb - ra {
        assert(trim(left@).len() != trim(right@).len());
        return false;
    }
    let n: usize = lb - la;
    let mut k: usize = 0;
    while k < n
        invariant
            la + n == lb <= left@.len(),
            ra + n == rb <= right@.len(),
            left@.subrange(la as int, lb as int) == trim(left@),
            right@.subrange(ra as int, rb as int) == trim(right@),
            k <= n,
            forall|j: int| 0 <= j < k ==> trim(left@)[j] == trim(right@)[j],
        decreases n - k,
    {
        assert(trim(left@)[k as int] == left@[la + k]);
        if left[la + k] != right[ra + k] {
            return false;
        }
        k += 1;
    }
    assert(trim(left@) =~= trim(right@));
    true
}

} // verus!
