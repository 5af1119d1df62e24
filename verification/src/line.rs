//! Where a line ends: the terminator is a carriage return directly followed
//! by a line feed, and a line runs up to and including its terminator.

use vstd::prelude::*;
use vstd::slice::slice_subrange;

verus! {

/// Carriage return, the first byte of a terminator.
pub const CR: u8 = 0x0d;

/// Line feed, the second byte of a terminator.
pub const LF: u8 = 0x0a;

/// A terminator starts at index `i` of `s`.
pub open spec fn crlf_at(s: Seq<u8>, i: int) -> bool {
    &&& 0 <= i
    &&& i + 1 < s.len()
    &&& s[i] == CR
    &&& s[i + 1] == LF
}

/// `s` holds no terminator: at most a line that is not finished yet.
pub open spec fn unterminated(s: Seq<u8>) -> bool {
    forall|i: int| !crlf_at(s, i)
}

/// The first line of `s` ends at `end`: the first terminator of `s` occupies
/// the two bytes just before `end`.
pub open spec fn is_line_end(s: Seq<u8>, end: int) -> bool {
    &&& crlf_at(s, end - 2)
    &&& forall|i: int| i < end - 2 ==> !crlf_at(s, i)
}

/// `s` is one complete line: its only terminator is at its very end.
pub open spec fn is_line(s: Seq<u8>) -> bool {
    is_line_end(s, s.len() as int)
}

/// A sequence has at most one first line.
pub proof fn lemma_line_end_unique(s: Seq<u8>, a: int, b: int)
    requires
        is_line_end(s, a),
        is_line_end(s, b),
    ensures
        a == b,
{
    if a < b {
        assert(!crlf_at(s, a - 2));
    } else if b < a {
        assert(!crlf_at(s, b - 2));
    }
}

/// A first line and the lack of any terminator exclude each other, and a
/// line end lies inside the sequence, behind at least two bytes.
pub proof fn lemma_line_end_bounds(s: Seq<u8>, end: int)
    requires
        is_line_end(s, end),
    ensures
        2 <= end <= s.len(),
        !unterminated(s),
{
    assert(crlf_at(s, end - 2));
}

/// Bytes that arrive later do not move the end of a line that is already
/// complete: the first line of a prefix is the first line of the whole.
pub proof fn lemma_line_end_of_prefix(prefix: Seq<u8>, s: Seq<u8>, end: int)
    requires
        prefix.is_prefix_of(s),
        is_line_end(prefix, end),
    ensures
        is_line_end(s, end),
        s.take(end) == prefix.take(end),
{
    assert(crlf_at(prefix, end - 2));
    assert forall|i: int| i < end - 2 implies !crlf_at(s, i) by {
        if crlf_at(s, i) {
            assert(crlf_at(prefix, i));
        }
    }
    assert(s.take(end) =~= prefix.take(end));
}

/// The bytes up to the end of the first line are one complete line: what a
/// read hands out is never a part of a line.
pub proof fn lemma_first_line_is_line(s: Seq<u8>, end: int)
    requires
        is_line_end(s, end),
    ensures
        is_line(s.take(end)),
{
    lemma_line_end_bounds(s, end);
    let line = s.take(end);
    assert(crlf_at(s, end - 2));
    assert(crlf_at(line, end - 2));
    assert forall|i: int| i < end - 2 implies !crlf_at(line, i) by {
        if crlf_at(line, i) {
            assert(crlf_at(s, i));
        }
    }
}

/// Where the scan may resume after `known` bytes were found to hold no
/// terminator: one byte back, since the last of them may be the carriage return
/// of a terminator whose line feed came later.
pub open spec fn resume_at(known: int) -> int {
    if known > 0 {
        known - 1
    } else {
        0
    }
}

/// Scanning from the resume point on finds the same as scanning everything:
/// when the first `known` bytes of `s` hold no terminator, the first line of `s`
/// ends where the first line of the rest does, and `s` holds a terminator only
/// if the rest does.
pub proof fn lemma_resume_scan(s: Seq<u8>, known: int)
    requires
        0 <= known <= s.len(),
        unterminated(s.take(known)),
    ensures
        forall|end: int|
            is_line_end(s.skip(resume_at(known)), end) ==> is_line_end(s, resume_at(known) + end),
        unterminated(s.skip(resume_at(known))) ==> unterminated(s),
{
    let from = resume_at(known);
    let head = s.take(known);
    let tail = s.skip(from);
    assert forall|i: int| i < from implies !crlf_at(s, i) by {
        if crlf_at(s, i) {
            assert(crlf_at(head, i));
        }
    }
    assert forall|i: int| from <= i implies crlf_at(s, i) == crlf_at(tail, i - from) by {}
    assert forall|end: int| is_line_end(tail, end) implies is_line_end(s, from + end) by {
        assert(crlf_at(tail, end - 2));
        assert(crlf_at(s, from + end - 2));
        assert forall|i: int| i < from + end - 2 implies !crlf_at(s, i) by {
            if from <= i {
                assert(!crlf_at(tail, i - from));
            }
        }
    }
    if unterminated(tail) {
        assert forall|i: int| !crlf_at(s, i) by {
            if from <= i {
                assert(!crlf_at(tail, i - from));
            }
        }
    }
}

/// Finds the end of the first line in `buf`: the index just behind the first
/// carriage return that a line feed follows directly. `None` says that `buf`
/// holds no terminator.
pub fn get_line(buf: &[u8]) -> (found: Option<usize>)
    ensures
        match found {
            Some(end) => is_line_end(buf@, end as int),
            None => unterminated(buf@),
        },
{
    let len = buf.len();
    let mut i: usize = 0;
    while i < len
        invariant
            len == buf@.len(),
            i <= len,
            forall|j: int| j < i ==> !crlf_at(buf@, j),
        decreases len - i,
    {
        if buf[i] == CR && i + 1 < len && buf[i + 1] == LF {
            return Some(i + 2);
        }
        i += 1;
    }
    None
}

/// Finds the end of the first line in `buf[..filled]`, of which the first
/// `known` bytes are known to hold no terminator. Only the bytes from the resume
/// point on are looked at.
pub fn get_line_from(buf: &[u8], known: usize, filled: usize) -> (found: Option<usize>)
    requires
        known <= filled <= buf@.len(),
        unterminated(buf@.take(known as int)),
    ensures
        match found {
            Some(end) => is_line_end(buf@.take(filled as int), end as int),
            None => unterminated(buf@.take(filled as int)),
        },
{
    let from = if known > 0 {
        known - 1
    } else {
        0
    };
    let tail = slice_subrange(buf, from, filled);
    let found = get_line(tail);
    proof {
        let s = buf@.take(filled as int);
        assert(s.take(known as int) =~= buf@.take(known as int));
        assert(s.skip(from as int) =~= tail@);
        lemma_resume_scan(s, known as int);
    }
    match found {
        Some(end) => {
            proof {
                lemma_line_end_bounds(tail@, end as int);
            }
            Some(from + end)
        },
        None => None,
    }
}

} // verus!
