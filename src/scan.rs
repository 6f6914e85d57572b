//! Byte-level scanning primitives shared by the request parser.

use std::ops::Range;
use vstd::prelude::*;

verus! {

pub const HTAB: u8 = 9;
pub const LF: u8 = 10;
pub const CR: u8 = 13;
pub const SP: u8 = 32;
pub const COLON: u8 = 58;

/// The `tchar` grammar of RFC 9110 (token characters).
pub open spec fn tchar(b: u8) -> bool {
    (65 <= b <= 90) || (97 <= b <= 122) || (48 <= b <= 57) || b == 33 || b == 35
        || b == 36 || b == 37 || b == 38 || b == 39 || b == 42 || b == 43 || b == 45
        || b == 46 || b == 94 || b == 95 || b == 96 || b == 124 || b == 126
}

/// Optional whitespace: a space or a horizontal tab.
pub open spec fn ows(b: u8) -> bool {
    b == SP || b == HTAB
}

/// Every byte of `s` is a token character.
pub open spec fn all_tchar(s: Seq<u8>) -> bool {
    forall|i: int| 0 <= i < s.len() ==> tchar(#[trigger] s[i])
}

/// Index of the first occurrence of `b` in `s` at or after `from`, if any.
pub open spec fn find_from(s: Seq<u8>, from: int, b: u8) -> Option<int>
    decreases s.len() - from,
{
    if from < 0 || from >= s.len() {
        None
    } else if s[from] == b {
        Some(from)
    } else {
        find_from(s, from + 1, b)
    }
}

/// Index of the first occurrence of `b` in `s`.
pub open spec fn first_of(s: Seq<u8>, b: u8) -> Option<int> {
    find_from(s, 0, b)
}

/// `i` is the first index of `s`, at or after `from`, that holds `b`.
pub open spec fn is_first_from(s: Seq<u8>, from: int, b: u8, i: int) -> bool {
    from <= i < s.len() && s[i] == b && forall|j: int| from <= j < i ==> s[j] != b
}

pub proof fn lemma_find_from(s: Seq<u8>, from: int, b: u8)
    requires
        0 <= from,
    ensures
        match find_from(s, from, b) {
            Some(i) => is_first_from(s, from, b, i),
            None => forall|j: int| from <= j < s.len() ==> s[j] != b,
        },
        forall|i: int| is_first_from(s, from, b, i) ==> find_from(s, from, b) == Some(i),
    decreases s.len() - from,
{
    if from < s.len() && s[from] != b {
        lemma_find_from(s, from + 1, b);
        assert forall|i: int| is_first_from(s, from, b, i) implies is_first_from(s, from + 1, b, i) by {}
    }
}

/// Relies on memchr::memchr: the index of the first occurrence of `needle`.
pub assume_specification[ memchr::memchr ](needle: u8, haystack: &[u8]) -> (r: Option<usize>)
    ensures
        match r {
            Some(i) => i < haystack@.len() && haystack@[i as int] == needle && forall|j: int|
                0 <= j < i ==> haystack@[j] != needle,
            None => forall|j: int| 0 <= j < haystack@.len() ==> haystack@[j] != needle,
        },
;

/// Relies on memchr::memchr2: the index of the first occurrence of either needle.
pub assume_specification[ memchr::memchr2 ](needle1: u8, needle2: u8, haystack: &[u8]) -> (r:
    Option<usize>)
    ensures
        match r {
            Some(i) => i < haystack@.len() && (haystack@[i as int] == needle1 || haystack@[i as int]
                == needle2) && forall|j: int|
                0 <= j < i ==> haystack@[j] != needle1 && haystack@[j] != needle2,
            None => forall|j: int|
                0 <= j < haystack@.len() ==> haystack@[j] != needle1 && haystack@[j] != needle2,
        },
;

/// First index of `b` in `s`, as the exact spec `first_of`.
pub fn find_byte(b: u8, s: &[u8]) -> (r: Option<usize>)
    ensures
        r matches Some(i) ==> first_of(s@, b) == Some(i as int) && i < s@.len() && s@[i as int] == b,
        r is None ==> first_of(s@, b) is None,
{
    let r = memchr::memchr(b, s);
    proof {
        lemma_find_from(s@, 0, b);
    }
    r
}

pub fn is_tchar(b: u8) -> (r: bool)
    ensures
        r == tchar(b),
{
    (65 <= b && b <= 90) || (97 <= b && b <= 122) || (48 <= b && b <= 57) || b == 33
        || b == 35 || b == 36 || b == 37 || b == 38 || b == 39 || b == 42 || b == 43
        || b == 45 || b == 46 || b == 94 || b == 95 || b == 96 || b == 124 || b == 126
}

pub fn is_ows(b: u8) -> (r: bool)
    ensures
        r == ows(b),
{
    b == SP || b == HTAB
}


/// The end of the first word of `buf[from..end]`: the first space or tab, or `end`.
pub open spec fn word_end(buf: Seq<u8>, from: int, end: int) -> int
    decreases end - from,
{
    if from >= end {
        end
    } else if ows(buf[from]) {
        from
    } else {
        word_end(buf, from + 1, end)
    }
}

pub proof fn lemma_word_end(buf: Seq<u8>, from: int, end: int)
    requires
        0 <= from <= end <= buf.len(),
    ensures
        from <= word_end(buf, from, end) <= end,
        word_end(buf, from, end) < end ==> ows(buf[word_end(buf, from, end)]),
        forall|j: int| from <= j < word_end(buf, from, end) ==> !ows(buf[j]),
    decreases end - from,
{
    if from < end && !ows(buf[from]) {
        lemma_word_end(buf, from + 1, end);
    }
}

/// Start of `buf[from..end]` once leading spaces and tabs are skipped.
pub open spec fn trim_start(buf: Seq<u8>, from: int, end: int) -> int
    decreases end - from,
{
    if from < end && ows(buf[from]) {
        trim_start(buf, from + 1, end)
    } else {
        from
    }
}

/// End of `buf[from..end]` once trailing spaces and tabs are dropped.
pub open spec fn trim_end(buf: Seq<u8>, from: int, end: int) -> int
    decreases end - from,
{
    if end > from && ows(buf[end - 1]) {
        trim_end(buf, from, end - 1)
    } else {
        end
    }
}

/// A line of a buffer: the bytes `buf[line_start..line_end]`, without the line terminator.
pub struct ReaderLine<'a> {
    pub buf: &'a [u8],
    pub line_start: usize,
    pub line_end: usize,
}

impl<'a> ReaderLine<'a> {
    pub open spec fn wf(&self) -> bool {
        self.line_start <= self.line_end <= self.buf@.len()
    }

    /// The bytes of the line that are not consumed yet.
    pub open spec fn rest(&self) -> Seq<u8> {
        self.buf@.subrange(self.line_start as int, self.line_end as int)
    }

    pub fn new(buf: &'a [u8], line_start: usize, line_end: usize) -> (r: Self)
        requires
            line_start <= line_end <= buf@.len(),
        ensures
            r.wf(),
            r.buf@ == buf@,
            r.line_start == line_start,
            r.line_end == line_end,
    {
        ReaderLine { buf, line_start, line_end }
    }

    pub fn is_empty(&self) -> (r: bool)
        requires
            self.wf(),
        ensures
            r == (self.rest().len() == 0),
    {
        self.line_start >= self.line_end
    }

    pub fn range(&self) -> (r: Range<usize>)
        ensures
            r.start == self.line_start,
            r.end == self.line_end,
    {
        self.line_start..self.line_end
    }

    pub fn as_slice(&self) -> (r: &[u8])
        requires
            self.wf(),
        ensures
            r@ == self.rest(),
    {
        &self.buf[self.line_start..self.line_end]
    }

    /// Consumes the next word, up to the next space or tab or the end of the line.
    pub fn next_word(&mut self) -> (r: Option<Range<usize>>)
        requires
            old(self).wf(),
        ensures
            final(self).wf(),
            final(self).buf@ == old(self).buf@,
            final(self).line_end == old(self).line_end,
            old(self).line_start >= old(self).line_end ==> r is None && *final(self) == *old(self),
            old(self).line_start < old(self).line_end ==> {
                let w = word_end(old(self).buf@, old(self).line_start as int, old(self).line_end as int);
                &&& r matches Some(rg) && rg.start == old(self).line_start && rg.end == w
                &&& final(self).line_start == if w < old(self).line_end { w + 1 } else { w }
            },
    {
        if self.line_start >= self.line_end {
            return None;
        }
        let start = self.line_start;
        let ghost b = self.buf@;
        proof {
            lemma_word_end(b, start as int, self.line_end as int);
        }
        let sp = memchr::memchr2(SP, HTAB, self.as_slice());
        match sp {
            Some(sp) => {
                proof {
                    assert(b[start + sp] == self.rest()[sp as int]);
                    assert forall|j: int| start <= j < start + sp implies !ows(b[j]) by {
                        assert(b[j] == self.rest()[j - start]);
                    }
                    lemma_word_end_exact(b, start as int, self.line_end as int, start + sp);
                }
                self.line_start = start + sp + 1;
                Some(start..start + sp)
            },
            None => {
                proof {
                    assert forall|j: int| start <= j < self.line_end implies !ows(b[j]) by {
                        assert(b[j] == self.rest()[j - start]);
                    }
                    lemma_word_end_exact(b, start as int, self.line_end as int, self.line_end as int);
                }
                let end = self.line_end;
                self.line_start = end;
                Some(start..end)
            },
        }
    }

    /// Consumes up to and including the next occurrence of `byte`, returning the range before
    /// it; nothing is consumed when `byte` does not occur in the rest of the line.
    pub fn next(&mut self, byte: u8) -> (r: Option<Range<usize>>)
        requires
            old(self).wf(),
        ensures
            final(self).wf(),
            final(self).buf@ == old(self).buf@,
            final(self).line_end == old(self).line_end,
            match first_of(old(self).rest(), byte) {
                Some(i) => {
                    &&& old(self).line_start < old(self).line_end
                    &&& r matches Some(rg) && rg.start == old(self).line_start && rg.end
                        == old(self).line_start + i
                    &&& final(self).line_start == old(self).line_start + i + 1
                },
                None => r is None && *final(self) == *old(self),
            },
    {
        if self.line_start >= self.line_end {
            return None;
        }
        let start = self.line_start;
        let found = find_byte(byte, self.as_slice());
        match found {
            Some(i) => {
                proof {
                    lemma_find_from(self.rest(), 0, byte);
                }
                self.line_start = start + i + 1;
                Some(start..start + i)
            },
            None => None,
        }
    }

    /// The range of the rest of the line without leading and trailing spaces and tabs.
    pub fn trim(&self) -> (r: Range<usize>)
        requires
            self.wf(),
        ensures
            r.start == trim_start(self.buf@, self.line_start as int, self.line_end as int),
            r.end == trim_end(self.buf@, r.start as int, self.line_end as int),
    {
        let mut start = self.line_start;
        let mut end = self.line_end;
        while start < end && is_ows(self.buf[start])
            invariant
                self.wf(),
                self.line_start <= start <= end == self.line_end,
                trim_start(self.buf@, start as int, end as int) == trim_start(
                    self.buf@,
                    self.line_start as int,
                    self.line_end as int,
                ),
            decreases end - start,
        {
            start += 1;
        }
        let ghost s0 = start;
        while end > start && is_ows(self.buf[end - 1])
            invariant
                self.wf(),
                s0 == start <= end <= self.line_end,
                trim_end(self.buf@, start as int, end as int) == trim_end(
                    self.buf@,
                    start as int,
                    self.line_end as int,
                ),
            decreases end,
        {
            end -= 1;
        }
        start..end
    }
}

pub proof fn lemma_word_end_exact(buf: Seq<u8>, from: int, end: int, w: int)
    requires
        0 <= from <= w <= end <= buf.len(),
        w < end ==> ows(buf[w]),
        forall|j: int| from <= j < w ==> !ows(buf[j]),
    ensures
        word_end(buf, from, end) == w,
    decreases end - from,
{
    if from < w {
        lemma_word_end_exact(buf, from + 1, end, w);
    }
}

} // verus!
