//! Finding the entries of a container: where a start sentinel stands and a
//! header follows it.

use crate::entry::{magic, magic_slice, MAGIC_LEN};
use crate::header::{id_matches, parse_header, HeaderView, ResourceHead, MAX_HEADER_SIZE};
use crate::search::{find_first, occurs_at};
use vstd::prelude::*;
use vstd::slice::slice_subrange;

verus! {

/// Number of bytes that a window of the usual size shows.
pub const BUFFER_SIZE: usize = 1024 * 512;

/// Number of bytes at the end of a window that the next window shows
/// again: room for a start sentinel and the header behind it.
pub const OVERLAP_SIZE: usize = MAX_HEADER_SIZE + MAGIC_LEN;

/// What is read for the header of an entry that starts at `p`: the bytes
/// behind its sentinel, `MAX_HEADER_SIZE` of them or as many as there are.
pub open spec fn probe(data: Seq<u8>, p: int) -> Seq<u8> {
    let from = p + MAGIC_LEN;
    let to = if from + MAX_HEADER_SIZE <= data.len() {
        from + MAX_HEADER_SIZE
    } else {
        data.len() as int
    };
    data.subrange(from, to)
}

/// The header of the entry that starts at `p`: a start sentinel stands
/// there, and what follows it decodes.
pub open spec fn header_at(data: Seq<u8>, p: int) -> Option<HeaderView> {
    if occurs_at(data, magic(), p) {
        parse_header(probe(data, p))
    } else {
        None
    }
}

/// The entries that start in `data` from `lo` up to, not including, `hi`:
/// each with its place, in the order of their places, each once.
pub open spec fn candidates(data: Seq<u8>, lo: int, hi: int) -> Seq<(int, HeaderView)>
    decreases hi - lo,
{
    if hi <= lo {
        Seq::empty()
    } else {
        let before = candidates(data, lo, hi - 1);
        match header_at(data, hi - 1) {
            Some(h) => before.push((hi - 1, h)),
            None => before,
        }
    }
}

/// An entry that was found: where its start sentinel stands, and its
/// header.
#[derive(Debug, Clone)]
pub struct Located {
    /// Where the start sentinel of the entry begins.
    pub offset: usize,
    /// The header of the entry.
    pub head: ResourceHead,
}

impl View for Located {
    type V = (int, HeaderView);

    open spec fn view(&self) -> (int, HeaderView) {
        (self.offset as int, self.head@)
    }
}

/// What a list of entries found says of each: its place and its header.
pub open spec fn entries(found: Seq<Located>) -> Seq<(int, HeaderView)> {
    found.map_values(|l: Located| l@)
}

/// The first of `found` that carries the identifier `id`.
pub open spec fn first_match(found: Seq<(int, HeaderView)>, id: Seq<char>) -> Option<
    (int, HeaderView),
>
    decreases found.len(),
{
    if found.len() == 0 {
        None
    } else if id_matches(found[0].1, id) {
        Some(found[0])
    } else {
        first_match(found.drop_first(), id)
    }
}

/// The first match of two lists in a row is that of the first list, or
/// else that of the second.
pub proof fn lemma_first_match_concat(
    a: Seq<(int, HeaderView)>,
    b: Seq<(int, HeaderView)>,
    id: Seq<char>,
)
    ensures
        first_match(a + b, id) == match first_match(a, id) {
            Some(e) => Some(e),
            None => first_match(b, id),
        },
    decreases a.len(),
{
    if a.len() == 0 {
    } else {
        assert((a + b).drop_first() =~= a.drop_first() + b);
        lemma_first_match_concat(a.drop_first(), b, id);
    }
}

/// The first match is an entry of the list that carries the identifier,
/// and none that stands before it in the list does.
pub proof fn lemma_first_match_is_first(found: Seq<(int, HeaderView)>, id: Seq<char>)
    ensures
        match first_match(found, id) {
            Some(e) => exists|i: int|
                0 <= i < found.len() && #[trigger] found[i] == e && id_matches(e.1, id)
                    && forall|j: int| 0 <= j < i ==> !id_matches((#[trigger] found[j]).1, id),
            None => forall|j: int| 0 <= j < found.len() ==> !id_matches(
                (#[trigger] found[j]).1,
                id,
            ),
        },
    decreases found.len(),
{
    if found.len() > 0 {
        let rest = found.drop_first();
        lemma_first_match_is_first(rest, id);
        if id_matches(found[0].1, id) {
        } else {
            match first_match(rest, id) {
                Some(e) => {
                    let i = choose|i: int|
                        0 <= i < rest.len() && #[trigger] rest[i] == e && id_matches(e.1, id)
                            && forall|j: int|
                            0 <= j < i ==> !id_matches((#[trigger] rest[j]).1, id);
                    assert forall|j: int| 0 <= j < i + 1 implies !id_matches(
                        (#[trigger] found[j]).1,
                        id,
                    ) by {
                        if j > 0 {
                            assert(found[j] == rest[j - 1]);
                        }
                    }
                },
                None => {
                    assert forall|j: int| 0 <= j < found.len() implies !id_matches(
                        (#[trigger] found[j]).1,
                        id,
                    ) by {
                        if j > 0 {
                            assert(found[j] == rest[j - 1]);
                        }
                    }
                },
            }
        }
    }
}

/// The entries of a range are those of its first part and then those of
/// its second.
pub proof fn lemma_candidates_split(data: Seq<u8>, lo: int, mid: int, hi: int)
    requires
        lo <= mid <= hi,
    ensures
        candidates(data, lo, hi) == candidates(data, lo, mid) + candidates(data, mid, hi),
    decreases hi - mid,
{
    if hi > mid {
        lemma_candidates_split(data, lo, mid, hi - 1);
    }
}

/// A range in which no start sentinel stands holds no entry.
pub proof fn lemma_candidates_none(data: Seq<u8>, lo: int, hi: int)
    requires
        forall|p: int| lo <= p < hi ==> !occurs_at(data, magic(), p),
    ensures
        candidates(data, lo, hi) == Seq::<(int, HeaderView)>::empty(),
    decreases hi - lo,
{
    if hi > lo {
        lemma_candidates_none(data, lo, hi - 1);
    }
}

/// The places of the entries of a range lie in it and rise, and the header
/// listed with a place is the header of the entry there.
pub proof fn lemma_candidates_places(data: Seq<u8>, lo: int, hi: int)
    ensures
        forall|i: int|
            0 <= i < candidates(data, lo, hi).len() ==> {
                let (p, h) = #[trigger] candidates(data, lo, hi)[i];
                lo <= p < hi && header_at(data, p) == Some(h)
            },
        forall|i: int, j: int|
            0 <= i < j < candidates(data, lo, hi).len() ==> (#[trigger] candidates(
                data,
                lo,
                hi,
            )[i]).0 < (#[trigger] candidates(data, lo, hi)[j]).0,
    decreases hi - lo,
{
    if hi > lo {
        lemma_candidates_places(data, lo, hi - 1);
    }
}

/// Every entry that starts in a range is listed among its entries.
pub proof fn lemma_candidates_complete(data: Seq<u8>, lo: int, hi: int, p: int)
    requires
        lo <= p < hi,
        header_at(data, p) is Some,
    ensures
        exists|i: int|
            0 <= i < candidates(data, lo, hi).len() && #[trigger] candidates(data, lo, hi)[i] == (
                p,
                header_at(data, p)->0,
            ),
    decreases hi - lo,
{
    let all = candidates(data, lo, hi);
    if p == hi - 1 {
        assert(all[all.len() - 1] == (p, header_at(data, p)->0));
    } else {
        lemma_candidates_complete(data, lo, hi - 1, p);
        let before = candidates(data, lo, hi - 1);
        let i = choose|i: int|
            0 <= i < before.len() && #[trigger] before[i] == (p, header_at(data, p)->0);
        assert(all[i] == before[i]);
    }
}

/// A needle stands in the tail of a text where it stands in the text, its
/// place counted from where the tail begins.
pub proof fn lemma_occurs_in_tail(data: Seq<u8>, needle: Seq<u8>, from: int, j: int)
    requires
        0 <= from <= data.len(),
        0 <= j,
    ensures
        occurs_at(data.subrange(from, data.len() as int), needle, j) == occurs_at(
            data,
            needle,
            from + j,
        ),
{
    let tail = data.subrange(from, data.len() as int);
    if j + needle.len() <= tail.len() {
        assert(tail.subrange(j, j + needle.len()) =~= data.subrange(
            from + j,
            from + j + needle.len(),
        ));
    }
}

/// The first entry of `window` that starts at `from` or later and before
/// `to`, with its place in the window.
pub fn next_candidate(window: &[u8], from: usize, to: usize) -> (next: Option<Located>)
    requires
        from <= to <= window@.len(),
    ensures
        match next {
            Some(hit) => from <= hit.offset < to && candidates(
                window@,
                from as int,
                hit.offset + 1,
            ) == seq![hit@],
            None => candidates(window@, from as int, to as int) == Seq::<
                (int, HeaderView),
            >::empty(),
        },
{
    let total: usize = window.len();
    let mut at: usize = from;
    while at < to
        invariant
            from <= at <= to <= total,
            total == window@.len(),
            candidates(window@, from as int, at as int) == Seq::<(int, HeaderView)>::empty(),
        decreases to - at,
    {
        let rest = slice_subrange(window, at, total);
        let found = find_first(rest, magic_slice());
        proof {
            assert forall|j: int| 0 <= j implies occurs_at(rest@, magic(), j) == occurs_at(
                window@,
                magic(),
                at + j,
            ) by {
                lemma_occurs_in_tail(window@, magic(), at as int, j);
            }
        }
        let pos: usize = match found {
            Some(rel) => {
                if rel >= to - at {
                    total
                } else {
                    at + rel
                }
            },
            None => total,
        };
        if pos >= to {
            proof {
                assert forall|p: int| at <= p < to implies !occurs_at(window@, magic(), p) by {
                    assert(occurs_at(rest@, magic(), p - at) == occurs_at(window@, magic(), p));
                }
                lemma_candidates_none(window@, at as int, to as int);
                lemma_candidates_split(window@, from as int, at as int, to as int);
            }
            return None;
        }
        proof {
            assert forall|p: int| at <= p < pos implies !occurs_at(window@, magic(), p) by {
                assert(occurs_at(rest@, magic(), p - at) == occurs_at(window@, magic(), p));
            }
            lemma_candidates_none(window@, at as int, pos as int);
            lemma_candidates_split(window@, from as int, at as int, pos as int);
        }
        let start: usize = pos + MAGIC_LEN;
        let end: usize = if total - start >= MAX_HEADER_SIZE {
            start + MAX_HEADER_SIZE
        } else {
            total
        };
        let behind = slice_subrange(window, start, end);
        match ResourceHead::from(behind) {
            Ok(head) => {
                let hit = Located { offset: pos, head };
                return Some(hit);
            },
            Err(_) => {
                at = pos + 1;
            },
        }
    }
    None
}

/// `found` with every place moved on by `by`.
pub open spec fn shift(found: Seq<(int, HeaderView)>, by: int) -> Seq<(int, HeaderView)> {
    found.map_values(|e: (int, HeaderView)| (e.0 + by, e.1))
}

/// What a window shows of an entry is what the container holds of it, as
/// long as the entry starts far enough from the end of the window, or the
/// window ends where the container ends.
pub proof fn lemma_window_header(data: Seq<u8>, window: Seq<u8>, start: int, q: int)
    requires
        0 <= start,
        start + window.len() <= data.len(),
        window == data.subrange(start, start + window.len()),
        0 <= q,
        q + OVERLAP_SIZE <= window.len() || start + window.len() == data.len(),
    ensures
        header_at(window, q) == header_at(data, start + q),
{
    if q + MAGIC_LEN <= window.len() {
        assert(window.subrange(q, q + MAGIC_LEN) =~= data.subrange(
            start + q,
            start + q + MAGIC_LEN,
        ));
        assert(probe(window, q) =~= probe(data, start + q));
    }
}

/// The entries that a window shows in a range are those of the container
/// there, under the conditions of `lemma_window_header`.
pub proof fn lemma_window_candidates(data: Seq<u8>, window: Seq<u8>, start: int, a: int, b: int)
    requires
        0 <= start,
        start + window.len() <= data.len(),
        window == data.subrange(start, start + window.len()),
        0 <= a <= b,
        b - 1 + OVERLAP_SIZE <= window.len() || start + window.len() == data.len(),
    ensures
        shift(candidates(window, a, b), start) == candidates(data, start + a, start + b),
    decreases b - a,
{
    if b > a {
        lemma_window_candidates(data, window, start, a, b - 1);
        lemma_window_header(data, window, start, b - 1);
    }
}

/// Reads a container window by window and hands out its entries one by
/// one. Each window begins `OVERLAP_SIZE` bytes before the end of the one
/// before it, so that every entry is seen whole in one of them; an entry
/// that starts in those last bytes is left to the next window.
#[derive(Debug)]
pub struct Scanner {
    file_len: usize,
    window_size: usize,
    offset: usize,
    cursor: usize,
}

impl Scanner {
    /// Number of bytes in the container.
    pub closed spec fn file_len(&self) -> int {
        self.file_len as int
    }

    /// Number of bytes that a window shows, unless the container ends
    /// before.
    pub closed spec fn window_size(&self) -> int {
        self.window_size as int
    }

    /// Where the current window begins.
    pub closed spec fn window_start(&self) -> int {
        self.offset as int
    }

    /// The place up to which entries have been handed out: none that
    /// starts before it is still to come.
    pub closed spec fn scanned(&self) -> int {
        self.offset + self.cursor
    }

    /// Number of bytes that the current window shows.
    pub open spec fn window_len(&self) -> int {
        if self.window_start() + self.window_size() >= self.file_len() {
            self.file_len() - self.window_start()
        } else {
            self.window_size()
        }
    }

    /// Number of places at the front of the current window whose entries
    /// it hands out: all of them in the last window, all but the overlap
    /// in the others.
    pub open spec fn owned(&self) -> int {
        if self.window_start() + self.window_size() >= self.file_len() {
            self.file_len() - self.window_start()
        } else {
            self.window_size() - OVERLAP_SIZE
        }
    }

    /// Whether every window has been read.
    pub open spec fn finished(&self) -> bool {
        self.window_start() >= self.file_len()
    }

    /// What holds of every scanner.
    pub closed spec fn wf(&self) -> bool {
        &&& self.window_size > OVERLAP_SIZE
        &&& self.offset <= self.file_len
        &&& self.cursor <= self.owned()
        &&& self.offset + self.cursor <= self.file_len
    }

    /// Whether `window` is what the current window shows of `data`.
    pub open spec fn shows(&self, data: Seq<u8>, window: Seq<u8>) -> bool {
        &&& data.len() == self.file_len()
        &&& window == data.subrange(
            self.window_start(),
            self.window_start() + self.window_len(),
        )
    }

    /// A scanner at the start of a container of `file_len` bytes, with
    /// windows of `BUFFER_SIZE` bytes.
    pub fn new(file_len: usize) -> (scanner: Scanner)
        ensures
            scanner.wf(),
            scanner.file_len() == file_len,
            scanner.window_size() == BUFFER_SIZE,
            scanner.window_start() == 0,
            scanner.scanned() == 0,
    {
        Scanner { file_len, window_size: BUFFER_SIZE, offset: 0, cursor: 0 }
    }

    /// A scanner at the start of a container of `file_len` bytes, with
    /// windows of `window_size` bytes. A window must be larger than the
    /// overlap.
    pub fn with_window(file_len: usize, window_size: usize) -> (made: Option<Scanner>)
        ensures
            made is Some <==> window_size > OVERLAP_SIZE,
            made matches Some(scanner) ==> {
                &&& scanner.wf()
                &&& scanner.file_len() == file_len
                &&& scanner.window_size() == window_size
                &&& scanner.window_start() == 0
                &&& scanner.scanned() == 0
            },
    {
        if window_size > OVERLAP_SIZE {
            Some(Scanner { file_len, window_size, offset: 0, cursor: 0 })
        } else {
            None
        }
    }

    /// The window to read next: where it begins and how many bytes it
    /// shows. `None` once the container has been read to its end.
    pub fn window(&self) -> (next: Option<(usize, usize)>)
        requires
            self.wf(),
        ensures
            match next {
                Some((start, len)) => !self.finished() && start == self.window_start() && len
                    == self.window_len() && len > 0,
                None => self.finished() && self.scanned() == self.file_len(),
            },
    {
        if self.offset >= self.file_len {
            None
        } else if self.file_len - self.offset <= self.window_size {
            Some((self.offset, self.file_len - self.offset))
        } else {
            Some((self.offset, self.window_size))
        }
    }

    /// The next entry that the current window hands out, with its place in
    /// the container. `None` when the window has no more to hand out: the
    /// scanner has then moved on to the next window.
    pub fn next(&mut self, window: &[u8]) -> (next: Option<Located>)
        requires
            old(self).wf(),
            !old(self).finished(),
            window@.len() == old(self).window_len(),
        ensures
            final(self).wf(),
            final(self).file_len() == old(self).file_len(),
            final(self).window_size() == old(self).window_size(),
            old(self).scanned() <= final(self).scanned() <= old(self).file_len(),
            match next {
                Some(hit) => {
                    &&& final(self).window_start() == old(self).window_start()
                    &&& old(self).scanned() <= hit.offset
                    &&& final(self).scanned() == hit.offset + 1
                },
                None => {
                    &&& final(self).window_start() == old(self).window_start() + old(
                        self,
                    ).owned()
                    &&& final(self).window_start() > old(self).window_start()
                    &&& final(self).scanned() == final(self).window_start()
                },
            },
            forall|data: Seq<u8>| #[trigger]
                old(self).shows(data, window@) ==> candidates(
                    data,
                    old(self).scanned(),
                    final(self).scanned(),
                ) == match next {
                    Some(hit) => seq![hit@],
                    None => Seq::empty(),
                },
    {
        let last: bool = self.file_len - self.offset <= self.window_size;
        let owned: usize = if last {
            self.file_len - self.offset
        } else {
            self.window_size - OVERLAP_SIZE
        };
        let ghost start = self.offset as int;
        let ghost from = self.cursor as int;
        match next_candidate(window, self.cursor, owned) {
            Some(hit) => {
                let found = Located { offset: self.offset + hit.offset, head: hit.head };
                self.cursor = hit.offset + 1;
                proof {
                    assert forall|data: Seq<u8>| #[trigger]
                        old(self).shows(data, window@) implies candidates(
                        data,
                        old(self).scanned(),
                        final(self).scanned(),
                    ) == seq![found@] by {
                        lemma_window_candidates(data, window@, start, from, hit.offset + 1);
                    }
                }
                Some(found)
            },
            None => {
                self.offset = self.offset + owned;
                self.cursor = 0;
                proof {
                    assert forall|data: Seq<u8>| #[trigger]
                        old(self).shows(data, window@) implies candidates(
                        data,
                        old(self).scanned(),
                        final(self).scanned(),
                    ) == Seq::<(int, HeaderView)>::empty() by {
                        lemma_window_candidates(data, window@, start, from, owned as int);
                    }
                }
                None
            },
        }
    }

    /// Every entry of `data` from where the scanner stands to the end, in
    /// the order of their places.
    pub fn collect(&mut self, data: &[u8]) -> (found: Vec<Located>)
        requires
            old(self).wf(),
            old(self).file_len() == data@.len(),
        ensures
            final(self).wf(),
            final(self).file_len() == old(self).file_len(),
            final(self).window_size() == old(self).window_size(),
            final(self).finished(),
            entries(found@) == candidates(data@, old(self).scanned(), data@.len() as int),
    {
        let mut found: Vec<Located> = Vec::new();
        let ghost from = self.scanned();
        loop
            invariant
                self.wf(),
                self.file_len() == data@.len(),
                self.file_len() == old(self).file_len(),
                self.window_size() == old(self).window_size(),
                from <= self.scanned(),
                entries(found@) == candidates(data@, from, self.scanned()),
            ensures
                self.wf(),
                self.file_len() == old(self).file_len(),
                self.window_size() == old(self).window_size(),
                self.finished(),
                entries(found@) == candidates(data@, from, data@.len() as int),
            decreases self.file_len() - self.window_start(), self.file_len() - self.scanned(),
        {
            let (start, len) = match self.window() {
                Some(w) => w,
                None => { break; },
            };
            let window = slice_subrange(data, start, start + len);
            let ghost before = *self;
            let next = self.next(window);
            proof {
                assert(before.shows(data@, window@));
                lemma_candidates_split(data@, from, before.scanned(), self.scanned());
            }
            if let Some(hit) = next {
                found.push(hit);
            }
        }
        found
    }

    /// The first entry of `data`, from where the scanner stands, that
    /// carries the identifier written in `id`. The scanner then stands
    /// just behind the place of that entry, or at the end.
    pub fn find_id(&mut self, data: &[u8], id: &[char]) -> (found: Option<Located>)
        requires
            old(self).wf(),
            old(self).file_len() == data@.len(),
        ensures
            final(self).wf(),
            final(self).file_len() == old(self).file_len(),
            final(self).window_size() == old(self).window_size(),
            match found {
                Some(hit) => final(self).scanned() == hit.offset + 1 && first_match(
                    candidates(data@, old(self).scanned(), data@.len() as int),
                    id@,
                ) == Some(hit@),
                None => final(self).finished() && first_match(
                    candidates(data@, old(self).scanned(), data@.len() as int),
                    id@,
                ) is None,
            },
    {
        let ghost from = self.scanned();
        loop
            invariant
                self.wf(),
                self.file_len() == data@.len(),
                self.file_len() == old(self).file_len(),
                self.window_size() == old(self).window_size(),
                from == old(self).scanned(),
                from <= self.scanned(),
                first_match(candidates(data@, from, self.scanned()), id@) is None,
            ensures
                self.wf(),
                self.file_len() == old(self).file_len(),
                self.window_size() == old(self).window_size(),
                self.finished(),
                self.scanned() == data@.len(),
                first_match(candidates(data@, from, self.scanned()), id@) is None,
            decreases self.file_len() - self.window_start(), self.file_len() - self.scanned(),
        {
            let (start, len) = match self.window() {
                Some(w) => w,
                None => { break; },
            };
            let window = slice_subrange(data, start, start + len);
            let ghost before = *self;
            let next = self.next(window);
            proof {
                assert(before.shows(data@, window@));
                lemma_candidates_split(data@, from, before.scanned(), self.scanned());
                lemma_first_match_concat(
                    candidates(data@, from, before.scanned()),
                    candidates(data@, before.scanned(), self.scanned()),
                    id@,
                );
            }
            match next {
                Some(hit) => {
                    let ghost one = seq![hit@];
                    assert(first_match(one.drop_first(), id@) is None);
                    if hit.head.has_id(id) {
                        proof {
                            lemma_candidates_split(
                                data@,
                                from,
                                self.scanned(),
                                data@.len() as int,
                            );
                            lemma_first_match_concat(
                                candidates(data@, from, self.scanned()),
                                candidates(data@, self.scanned(), data@.len() as int),
                                id@,
                            );
                        }
                        return Some(hit);
                    }
                },
                None => {},
            }
        }
        None
    }
}

/// Every entry of `data`, in the order of their places, each once: every
/// place at which a start sentinel stands and a header follows it.
pub fn find_resources_config(data: &[u8]) -> (found: Vec<Located>)
    ensures
        entries(found@) == candidates(data@, 0, data@.len() as int),
{
    let mut scanner = Scanner::new(data.len());
    scanner.collect(data)
}

} // verus!
