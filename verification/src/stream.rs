//! What the reader does to the stream of bytes that passes through it, stated
//! over the terms that the contracts of the reader use: `is_line_end` and
//! `unterminated` for what a read finds, `let_go` and `consumed` for what
//! `consume` leaves, `took_in` and `line_read` for what a read of a line adds
//! and answers, and `anchored` for the reader's view with its history.
//!
//! The first part holds of any bytes. The second part, from `delivers` on,
//! holds of a source that keeps a log of its reads and delivers given bytes.

use crate::line::{
    crlf_at, is_line, is_line_end, lemma_line_end_bounds, lemma_line_end_of_prefix,
    lemma_line_end_unique, unterminated, CR, LF,
};
use crate::error::ReadError;
use crate::reader::{
    anchored, consumed, lesser, let_go, line_read, released, took_in, ReaderView,
};
use crate::source::{goes_on, handed, lemma_handed_push, reads_since, ByteSource, Exchange};
use vstd::prelude::*;

verus! {

/// Reading lines off the front of `s`, one after another, gives `lines` and
/// leaves `rest`: one step is what a read of a line and the release of that
/// line do to the bytes that are still to come.
pub open spec fn splits_into(s: Seq<u8>, lines: Seq<Seq<u8>>, rest: Seq<u8>) -> bool
    decreases lines.len(),
{
    if lines.len() == 0 {
        s == rest
    } else {
        &&& is_line_end(s, lines[0].len() as int)
        &&& s.take(lines[0].len() as int) == lines[0]
        &&& splits_into(s.skip(lines[0].len() as int), lines.drop_first(), rest)
    }
}

/// Releasing moves bytes from the buffer to what has passed, and nothing
/// else: the buffer shrinks by the amount, or to nothing where less was held,
/// and stays the end of the history.
pub proof fn lemma_release_passes<C>(before: ReaderView<C>, after: ReaderView<C>, amount: int)
    requires
        anchored(before),
        0 <= amount,
        let_go(before, after, amount),
    ensures
        anchored(after),
        after.buffered.len() == before.buffered.len() - lesser(
            amount as nat,
            before.buffered.len(),
        ),
        after.passed() == before.passed() + before.buffered.take(
            lesser(amount as nat, before.buffered.len()) as int,
        ),
{
    let gone = lesser(amount as nat, before.buffered.len()) as int;
    assert(after.buffered =~= before.buffered.skip(gone));
    assert(after.passed() =~= before.passed() + before.buffered.take(gone));
}

/// Taking in more leaves what has passed as it was: the new bytes come behind
/// the buffered ones.
pub proof fn lemma_intake_keeps_passed<C>(before: ReaderView<C>, after: ReaderView<C>)
    requires
        anchored(before),
        took_in(before, after),
    ensures
        anchored(after),
        after.passed() == before.passed(),
{
    assert(after.buffered =~= before.buffered + after.buffered.skip(
        before.buffered.len() as int,
    ));
    assert(after.passed() =~= before.passed());
}

/// A line that was read and then released with its own length leaves the
/// buffer shorter by exactly that length, and the line that is read next lies
/// in the history directly behind it: no byte is handed out twice, none is
/// skipped.
pub proof fn lemma_line_after_line<C>(
    read: ReaderView<C>,
    freed: ReaderView<C>,
    next: ReaderView<C>,
    first: int,
    second: int,
)
    requires
        anchored(read),
        is_line_end(read.buffered, first),
        let_go(read, freed, first),
        took_in(freed, next),
        is_line_end(next.buffered, second),
    ensures
        freed.buffered.len() == read.buffered.len() - first,
        read.buffered.take(first) == next.received.subrange(
            read.passed().len() as int,
            read.passed().len() + first,
        ),
        next.buffered.take(second) == next.received.subrange(
            read.passed().len() + first,
            read.passed().len() + first + second,
        ),
{
    lemma_line_end_bounds(read.buffered, first);
    lemma_line_end_bounds(next.buffered, second);
    lemma_release_passes(read, freed, first);
    lemma_intake_keeps_passed(freed, next);
    let start = read.passed().len() as int;
    assert(next.received =~= next.passed() + next.buffered);
    assert(next.passed() =~= read.passed() + read.buffered.take(first));
    assert(read.buffered.take(first) =~= next.received.subrange(start, start + first));
    assert(next.buffered.take(second) =~= next.received.subrange(
        start + first,
        start + first + second,
    ));
}

/// Release, intake and release again: what is buffered in the end is the
/// history behind everything that was released, so nothing of what was
/// released shows in a later read, however often the buffer was compacted.
pub proof fn lemma_released_stay_out<C>(
    start: ReaderView<C>,
    freed: ReaderView<C>,
    refilled: ReaderView<C>,
    end: ReaderView<C>,
    first: int,
    second: int,
)
    requires
        anchored(start),
        0 <= first,
        0 <= second,
        let_go(start, freed, first),
        took_in(freed, refilled),
        let_go(refilled, end, second),
    ensures
        anchored(end),
        end.passed() == start.passed() + start.buffered.take(
            lesser(first as nat, start.buffered.len()) as int,
        ) + refilled.buffered.take(lesser(second as nat, refilled.buffered.len()) as int),
        end.buffered == end.received.skip(
            (start.passed().len() + lesser(first as nat, start.buffered.len()) + lesser(
                second as nat,
                refilled.buffered.len(),
            )) as int,
        ),
{
    lemma_release_passes(start, freed, first);
    lemma_intake_keeps_passed(freed, refilled);
    lemma_release_passes(refilled, end, second);
    assert(end.received =~= end.passed() + end.buffered);
    assert(end.buffered =~= end.received.skip(end.passed().len() as int));
}

/// Complete lines written one after another are read back one by one, each as
/// it was written, in the order in which they were written, and what follows
/// them is left.
pub proof fn lemma_round_trip(lines: Seq<Seq<u8>>, rest: Seq<u8>)
    requires
        forall|i: int| 0 <= i < lines.len() ==> is_line(#[trigger] lines[i]),
    ensures
        splits_into(lines.flatten() + rest, lines, rest),
    decreases lines.len(),
{
    if lines.len() == 0 {
        assert(lines.flatten() + rest =~= rest);
    } else {
        let head = lines[0];
        let tail = lines.drop_first();
        let s = lines.flatten() + rest;
        assert(is_line(head));
        assert(head.is_prefix_of(s));
        lemma_line_end_of_prefix(head, s, head.len() as int);
        assert(s.take(head.len() as int) =~= head);
        assert(s.skip(head.len() as int) =~= tail.flatten() + rest);
        assert forall|i: int| 0 <= i < tail.len() implies is_line(#[trigger] tail[i]) by {
            assert(tail[i] == lines[i + 1]);
        }
        lemma_round_trip(tail, rest);
    }
}

/// One round of reading and releasing, held against the bytes that are still
/// to come: whatever part of them is buffered, the line that is read is the
/// line that was written first, and once it is released the buffer holds the
/// start of what remains, which splits into the lines that were written after
/// it.
pub proof fn lemma_line_read_is_first_written(
    to_come: Seq<u8>,
    lines: Seq<Seq<u8>>,
    rest: Seq<u8>,
    buffered: Seq<u8>,
    end: int,
)
    requires
        splits_into(to_come, lines, rest),
        lines.len() > 0,
        buffered.is_prefix_of(to_come),
        is_line_end(buffered, end),
    ensures
        buffered.take(end) == lines[0],
        released(buffered, end).is_prefix_of(to_come.skip(end)),
        splits_into(to_come.skip(end), lines.drop_first(), rest),
{
    lemma_line_end_bounds(buffered, end);
    lemma_line_end_of_prefix(buffered, to_come, end);
    lemma_line_end_unique(to_come, end, lines[0].len() as int);
    assert(released(buffered, end) =~= to_come.skip(end).take(buffered.len() - end));
}

/// A stream splits into a given number of lines in one way only: the lines
/// that come out are the lines that went in, and no others.
pub proof fn lemma_split_unique(
    s: Seq<u8>,
    lines: Seq<Seq<u8>>,
    rest: Seq<u8>,
    others: Seq<Seq<u8>>,
    other_rest: Seq<u8>,
)
    requires
        splits_into(s, lines, rest),
        splits_into(s, others, other_rest),
        lines.len() == others.len(),
    ensures
        lines == others,
        rest == other_rest,
    decreases lines.len(),
{
    if lines.len() == 0 {
        assert(lines =~= others);
    } else {
        lemma_line_end_unique(s, lines[0].len() as int, others[0].len() as int);
        lemma_split_unique(
            s.skip(lines[0].len() as int),
            lines.drop_first(),
            rest,
            others.drop_first(),
            other_rest,
        );
        assert(lines =~= seq![lines[0]] + lines.drop_first());
        assert(others =~= seq![others[0]] + others.drop_first());
    }
}

/// A line that is as long as the buffer, terminator included, or shorter,
/// fits: a buffer that is full of the stream's first bytes holds its
/// terminator, so the line is not refused as too long.
pub proof fn lemma_line_that_fits(stream: Seq<u8>, end: int, buffered: Seq<u8>, capacity: nat)
    requires
        is_line_end(stream, end),
        end <= capacity,
        buffered.is_prefix_of(stream),
        buffered.len() == capacity,
    ensures
        !unterminated(buffered),
        is_line_end(buffered, end),
{
    lemma_line_end_bounds(stream, end);
    assert(crlf_at(stream, end - 2));
    assert(crlf_at(buffered, end - 2));
    assert forall|i: int| i < end - 2 implies !crlf_at(buffered, i) by {
        if crlf_at(buffered, i) {
            assert(crlf_at(stream, i));
        }
    }
}

/// A line that is longer than the buffer, be it by one byte, does not fit:
/// whatever part of the stream is buffered holds no terminator, so no line is
/// handed out, and a full buffer refuses the line as too long.
pub proof fn lemma_line_that_overflows(
    stream: Seq<u8>,
    end: int,
    buffered: Seq<u8>,
    capacity: nat,
)
    requires
        is_line_end(stream, end),
        end > capacity,
        buffered.is_prefix_of(stream),
        buffered.len() <= capacity,
    ensures
        unterminated(buffered),
{
    assert forall|i: int| !crlf_at(buffered, i) by {
        if crlf_at(buffered, i) {
            assert(crlf_at(stream, i));
        }
    }
}

/// Whatever part of a stream without terminator is buffered holds none
/// either.
pub proof fn lemma_line_that_overflows_prefix(stream: Seq<u8>, buffered: Seq<u8>)
    requires
        unterminated(stream),
        buffered.is_prefix_of(stream),
    ensures
        unterminated(buffered),
{
    assert forall|i: int| !crlf_at(buffered, i) by {
        if crlf_at(buffered, i) {
            assert(crlf_at(stream, i));
        }
    }
}

/// A terminator whose carriage return came with one read and whose line feed
/// came with the next ends the line all the same: directly behind that line
/// feed.
pub proof fn lemma_split_terminator(held: Seq<u8>, fresh: Seq<u8>)
    requires
        unterminated(held),
        held.len() > 0,
        held.last() == CR,
        fresh.len() > 0,
        fresh[0] == LF,
    ensures
        is_line_end(held + fresh, held.len() as int + 1),
{
    let s = held + fresh;
    assert(crlf_at(s, held.len() - 1));
    assert forall|i: int| i < held.len() - 1 implies !crlf_at(s, i) by {
        if crlf_at(s, i) {
            assert(crlf_at(held, i));
        }
    }
}

/// When the source runs dry in the middle of a line, what is buffered has no
/// first line, whatever length one may try: there is nothing that could be
/// handed out as a line.
pub proof fn lemma_unterminated_has_no_line(buffered: Seq<u8>, end: int)
    requires
        unterminated(buffered),
    ensures
        !is_line_end(buffered, end),
{
    if is_line_end(buffered, end) {
        lemma_line_end_bounds(buffered, end);
    }
}

/// The reads of `run` were answered by a source that hands out the bytes of
/// `to_come`, in their order and in pieces of any size, and then runs dry: no
/// read fails, each gives bytes that come next in `to_come`, and a read that is
/// offered room gives none only when all of `to_come` is handed out.
pub open spec fn delivers(to_come: Seq<u8>, run: Seq<Exchange>) -> bool
    decreases run.len(),
{
    if run.len() == 0 {
        true
    } else {
        let earlier = run.drop_last();
        &&& delivers(to_come, earlier)
        &&& match run.last().given {
            Some(bytes) => {
                &&& (handed(earlier) + bytes).is_prefix_of(to_come)
                &&& bytes.len() == 0 ==> run.last().room == 0 || handed(earlier) == to_come
            },
            None => false,
        }
    }
}

/// What such a source has handed out is the start of what it had to hand out.
pub proof fn lemma_delivers_prefix(to_come: Seq<u8>, run: Seq<Exchange>)
    requires
        delivers(to_come, run),
    ensures
        handed(run).is_prefix_of(to_come),
{
}

/// What a read of a line answers is fixed by the bytes that are buffered, the
/// size of the buffer and the bytes that the source delivers, whatever the
/// pieces in which it delivers them. With `stream` for the buffered bytes and
/// then those that the source has to deliver:
///
/// - where the first line of `stream` ends within the buffer's size, the
///   answer is that line;
/// - where the first bytes of `stream`, as many as the buffer takes, hold no
///   terminator, the answer is that the line is too long;
/// - where all of `stream` holds no terminator and is shorter than the
///   buffer, the answer is that the line is not terminated, and all of `stream`
///   is buffered.
///
/// One of the three holds of every stream. What is buffered afterwards is the
/// start of `stream` in each case.
pub proof fn lemma_line_from_stream<C: ByteSource>(
    before: ReaderView<C>,
    after: ReaderView<C>,
    answer: Result<Seq<u8>, ReadError<C::Fault>>,
    to_come: Seq<u8>,
    end: int,
)
    requires
        line_read(before, after, answer),
        before.source.reads() is Some,
        delivers(to_come, reads_since(before.source.reads(), after.source.reads())),
    ensures
        after.buffered == before.buffered + handed(
            reads_since(before.source.reads(), after.source.reads()),
        ),
        after.buffered.is_prefix_of(before.buffered + to_come),
        is_line_end(before.buffered + to_come, end) && end <= before.capacity() ==> answer == Ok::<
            Seq<u8>,
            ReadError<C::Fault>,
        >((before.buffered + to_come).take(end)),
        unterminated((before.buffered + to_come).take(before.capacity() as int)) && (
        before.buffered + to_come).len() >= before.capacity() ==> answer == Err::<
            Seq<u8>,
            ReadError<C::Fault>,
        >(
            ReadError::LineTooLong {
                capacity: before.capacity() as usize,
                buffered: before.capacity() as usize,
            },
        ),
        unterminated(before.buffered + to_come) && (before.buffered + to_come).len()
            < before.capacity() ==> {
            &&& answer == Err::<Seq<u8>, ReadError<C::Fault>>(
                ReadError::UnterminatedLine {
                    buffered: (before.buffered + to_come).len() as usize,
                },
            )
            &&& after.buffered == before.buffered + to_come
        },
{
    let stream = before.buffered + to_come;
    let capacity = before.capacity();
    let run = reads_since(before.source.reads(), after.source.reads());
    lemma_delivers_prefix(to_come, run);
    assert(after.buffered =~= before.buffered + handed(run));
    assert(after.buffered.is_prefix_of(stream));
    // What the last read says where it found the source dry: all was delivered.
    if run.len() > 0 && run.last().ran_dry() {
        assert(handed(run) =~= handed(run.drop_last()));
        assert(after.buffered =~= stream);
    }
    match answer {
        Ok(line) => {
            lemma_line_end_bounds(after.buffered, line.len() as int);
            lemma_line_end_of_prefix(after.buffered, stream, line.len() as int);
            if is_line_end(stream, end) {
                lemma_line_end_unique(stream, end, line.len() as int);
            }
            if unterminated(stream.take(capacity as int)) && stream.len() >= capacity {
                assert(after.buffered.is_prefix_of(stream.take(capacity as int)));
                lemma_line_that_overflows_prefix(stream.take(capacity as int), after.buffered);
            }
            if unterminated(stream) {
                lemma_line_that_overflows_prefix(stream, after.buffered);
            }
        },
        Err(ReadError::LineTooLong { capacity: size, buffered }) => {
            if is_line_end(stream, end) && end <= capacity {
                lemma_line_that_fits(stream, end, after.buffered, capacity);
            }
        },
        Err(ReadError::UnterminatedLine { buffered }) => {
            if is_line_end(stream, end) {
                lemma_line_end_bounds(stream, end);
            }
        },
        Err(ReadError::SourceError(_)) => {},
        Err(ReadError::ShortRead { .. }) => {},
    }
}

/// Where the source cuts its pieces does not change what a read of a line
/// answers: two readers that hold the same bytes in buffers of the same size,
/// and whose sources deliver the same bytes, answer the same, be it a line or
/// an error.
pub proof fn lemma_cut_does_not_matter<C: ByteSource>(
    before: ReaderView<C>,
    after: ReaderView<C>,
    answer: Result<Seq<u8>, ReadError<C::Fault>>,
    other_before: ReaderView<C>,
    other_after: ReaderView<C>,
    other_answer: Result<Seq<u8>, ReadError<C::Fault>>,
    to_come: Seq<u8>,
)
    requires
        line_read(before, after, answer),
        line_read(other_before, other_after, other_answer),
        before.buffered == other_before.buffered,
        before.capacity() == other_before.capacity(),
        before.source.reads() is Some,
        other_before.source.reads() is Some,
        delivers(to_come, reads_since(before.source.reads(), after.source.reads())),
        delivers(
            to_come,
            reads_since(other_before.source.reads(), other_after.source.reads()),
        ),
    ensures
        answer == other_answer,
{
    let stream = before.buffered + to_come;
    let capacity = before.capacity();
    lemma_line_from_stream(before, after, answer, to_come, 0);
    match answer {
        Ok(line) => {
            let end = line.len() as int;
            lemma_line_end_bounds(after.buffered, end);
            lemma_line_end_of_prefix(after.buffered, stream, end);
            lemma_line_from_stream(other_before, other_after, other_answer, to_come, end);
        },
        Err(ReadError::LineTooLong { capacity: size, buffered }) => {
            assert(after.buffered =~= stream.take(capacity as int));
            lemma_line_from_stream(other_before, other_after, other_answer, to_come, 0);
        },
        Err(ReadError::UnterminatedLine { buffered }) => {
            let run = reads_since(before.source.reads(), after.source.reads());
            lemma_delivers_prefix(to_come, run);
            assert(handed(run) =~= handed(run.drop_last()));
            assert(after.buffered =~= stream);
            lemma_line_from_stream(other_before, other_after, other_answer, to_come, 0);
        },
        Err(ReadError::SourceError(_)) => {},
        Err(ReadError::ShortRead { .. }) => {},
    }
}

/// A run of reads that such a source answered can be cut in two at any
/// read: the first part was answered by a source that delivers the same bytes,
/// the second by one that delivers what the first part left of them.
pub proof fn lemma_delivers_split(to_come: Seq<u8>, run: Seq<Exchange>, at: int)
    requires
        delivers(to_come, run),
        0 <= at <= run.len(),
    ensures
        delivers(to_come, run.take(at)),
        handed(run.take(at)).is_prefix_of(to_come),
        handed(run) == handed(run.take(at)) + handed(run.skip(at)),
        delivers(to_come.skip(handed(run.take(at)).len() as int), run.skip(at)),
    decreases run.len(),
{
    if at == run.len() {
        assert(run.take(at) =~= run);
        assert(run.skip(at) =~= Seq::<Exchange>::empty());
        assert(handed(run) + Seq::<u8>::empty() =~= handed(run));
    } else {
        let earlier = run.drop_last();
        let last = run.last();
        lemma_delivers_split(to_come, earlier, at);
        assert(run.take(at) =~= earlier.take(at));
        assert(run.skip(at) =~= earlier.skip(at).push(last));
        assert(run.skip(at).drop_last() =~= earlier.skip(at));
        lemma_handed_push(earlier.skip(at), last);
        let first = handed(earlier.take(at));
        let second = handed(earlier.skip(at));
        let left = to_come.skip(first.len() as int);
        match last.given {
            Some(bytes) => {
                let whole = handed(earlier) + bytes;
                let part = second + bytes;
                assert(handed(run) =~= first + part);
                assert(whole =~= first + part);
                assert(whole == to_come.subrange(0, whole.len() as int));
                assert forall|i: int| 0 <= i < part.len() implies part[i] == left[i] by {
                    assert(whole[first.len() + i] == part[i]);
                    assert(whole[first.len() + i] == to_come[first.len() + i]);
                }
                assert(part =~= left.subrange(0, part.len() as int));
                if bytes.len() == 0 && last.room != 0 {
                    assert(handed(earlier) == to_come);
                    assert(second =~= left);
                }
            },
            None => {},
        }
    }
}

/// A log that goes on twice has gone on.
pub proof fn lemma_goes_on_twice(
    first: Option<Seq<Exchange>>,
    second: Option<Seq<Exchange>>,
    third: Option<Seq<Exchange>>,
)
    requires
        goes_on(first, second),
        goes_on(second, third),
    ensures
        goes_on(first, third),
        first is Some ==> reads_since(first, third) == reads_since(first, second) + reads_since(
            second,
            third,
        ),
{
    if let Some(log) = first {
        let mid = second->Some_0;
        let now = third->Some_0;
        assert(log.is_prefix_of(now));
        assert(now.skip(log.len() as int) =~= mid.skip(log.len() as int) + now.skip(
            mid.len() as int,
        ));
    }
}

/// One round of a caller that reads line by line: the reader after the read,
/// what the read answered, and the reader after the release that followed.
pub struct Round<C: ByteSource> {
    pub read: ReaderView<C>,
    pub answer: Result<Seq<u8>, ReadError<C::Fault>>,
    pub freed: ReaderView<C>,
}

/// A caller went through `rounds` with a reader that was `start`: in each
/// round it read a line and then released as many bytes as the line of `lines`
/// has whose turn it was.
pub open spec fn read_and_released<C: ByteSource>(
    start: ReaderView<C>,
    rounds: Seq<Round<C>>,
    lines: Seq<Seq<u8>>,
) -> bool
    decreases rounds.len(),
{
    if rounds.len() == 0 {
        true
    } else {
        &&& lines.len() > 0
        &&& line_read(start, rounds[0].read, rounds[0].answer)
        &&& consumed(rounds[0].read, rounds[0].freed, lines[0].len() as int)
        &&& read_and_released(rounds[0].freed, rounds.drop_first(), lines.drop_first())
    }
}

/// The reader as the rounds leave it.
pub open spec fn left_by<C: ByteSource>(start: ReaderView<C>, rounds: Seq<Round<C>>) -> ReaderView<
    C,
> {
    if rounds.len() == 0 {
        start
    } else {
        rounds.last().freed
    }
}

/// Through all the rounds the source's log goes on and the buffer keeps its
/// size.
pub proof fn lemma_rounds_go_on<C: ByteSource>(
    start: ReaderView<C>,
    rounds: Seq<Round<C>>,
    lines: Seq<Seq<u8>>,
)
    requires
        read_and_released(start, rounds, lines),
    ensures
        goes_on(start.source.reads(), left_by(start, rounds).source.reads()),
        left_by(start, rounds).capacity() == start.capacity(),
    decreases rounds.len(),
{
    if rounds.len() == 0 {
        if let Some(log) = start.source.reads() {
            assert(log.is_prefix_of(log));
        }
    } else {
        let first = rounds[0];
        lemma_rounds_go_on(first.freed, rounds.drop_first(), lines.drop_first());
        if rounds.len() > 1 {
            assert(rounds.drop_first().last() == rounds.last());
        }
        lemma_goes_on_twice(
            start.source.reads(),
            first.read.source.reads(),
            left_by(start, rounds).source.reads(),
        );
    }
}

/// The first of the rounds, for `lemma_lines_read_back`: its read answers
/// with the first line, and after its release the reader and the source stand
/// to the other lines as they stood to all lines before.
proof fn lemma_first_round<C: ByteSource>(
    start: ReaderView<C>,
    rounds: Seq<Round<C>>,
    lines: Seq<Seq<u8>>,
    to_come: Seq<u8>,
)
    requires
        rounds.len() == lines.len(),
        rounds.len() > 0,
        read_and_released(start, rounds, lines),
        start.source.reads() is Some,
        delivers(
            to_come,
            reads_since(start.source.reads(), left_by(start, rounds).source.reads()),
        ),
        start.buffered + to_come == lines.flatten(),
        is_line(lines[0]),
        lines[0].len() <= start.capacity(),
    ensures
        rounds[0].answer == Ok::<Seq<u8>, ReadError<C::Fault>>(lines[0]),
        rounds[0].freed.source.reads() is Some,
        rounds[0].freed.capacity() == start.capacity(),
        left_by(rounds[0].freed, rounds.drop_first()) == left_by(start, rounds),
        handed(reads_since(start.source.reads(), rounds[0].read.source.reads())).is_prefix_of(
            to_come,
        ),
        delivers(
            to_come.skip(
                handed(
                    reads_since(start.source.reads(), rounds[0].read.source.reads()),
                ).len() as int,
            ),
            reads_since(
                rounds[0].freed.source.reads(),
                left_by(start, rounds).source.reads(),
            ),
        ),
        rounds[0].freed.buffered + to_come.skip(
            handed(reads_since(start.source.reads(), rounds[0].read.source.reads())).len() as int,
        ) == lines.drop_first().flatten(),
{
    let first = rounds[0];
    let line = lines[0];
    let end = line.len() as int;
    let later = rounds.drop_first();
    let others = lines.drop_first();
    let stream = start.buffered + to_come;
    let last = left_by(start, rounds);
    let total = reads_since(start.source.reads(), last.source.reads());
    let run = reads_since(start.source.reads(), first.read.source.reads());
    let rest = reads_since(first.freed.source.reads(), last.source.reads());
    let left = to_come.skip(handed(run).len() as int);

    // The reads of the first round are the first of all the reads.
    assert(left_by(first.freed, later) == last) by {
        if later.len() > 0 {
            assert(later.last() == rounds.last());
        }
    }
    assert(delivers(to_come, run) && delivers(left, rest) && handed(run).is_prefix_of(to_come))
        by {
        lemma_rounds_go_on(first.freed, later, others);
        lemma_goes_on_twice(
            start.source.reads(),
            first.read.source.reads(),
            last.source.reads(),
        );
        assert(total == run + rest);
        assert(total.take(run.len() as int) =~= run);
        assert(total.skip(run.len() as int) =~= rest);
        lemma_delivers_split(to_come, total, run.len() as int);
    }

    // The first line of the stream is the line whose turn it is.
    assert(is_line_end(stream, end) && stream.take(end) == line && stream.skip(end)
        == others.flatten()) by {
        assert(stream =~= line + others.flatten());
        assert(line.is_prefix_of(stream));
        lemma_line_end_of_prefix(line, stream, end);
        assert(stream.take(end) =~= line);
        assert(stream.skip(end) =~= others.flatten());
    }
    lemma_line_from_stream(start, first.read, first.answer, to_come, end);
    lemma_line_end_bounds(first.read.buffered, end);

    // What is buffered after the release, and what is then still to come, are
    // the other lines.
    assert(first.freed.buffered + left == others.flatten()) by {
        assert(first.read.buffered + left =~= stream);
        assert(first.freed.buffered =~= first.read.buffered.skip(end));
        assert(first.freed.buffered + left =~= stream.skip(end));
    }
}

/// Complete lines that a source delivers are read back whole and in order,
/// whatever the pieces in which it delivers them: when what is buffered and what
/// the source delivers are, one behind the other, the lines of `lines`, each of
/// which fits the buffer, and the caller reads a line and releases it, round by
/// round and once for each line, then each read answers with the line whose
/// turn it is, and after the last release nothing is buffered. No byte is lost,
/// none comes twice, none comes out of its place.
pub proof fn lemma_lines_read_back<C: ByteSource>(
    start: ReaderView<C>,
    rounds: Seq<Round<C>>,
    lines: Seq<Seq<u8>>,
    to_come: Seq<u8>,
)
    requires
        rounds.len() == lines.len(),
        read_and_released(start, rounds, lines),
        start.source.reads() is Some,
        delivers(
            to_come,
            reads_since(start.source.reads(), left_by(start, rounds).source.reads()),
        ),
        start.buffered + to_come == lines.flatten(),
        forall|i: int|
            0 <= i < lines.len() ==> is_line(#[trigger] lines[i]) && lines[i].len()
                <= start.capacity(),
    ensures
        forall|i: int|
            0 <= i < rounds.len() ==> (#[trigger] rounds[i]).answer == Ok::<
                Seq<u8>,
                ReadError<C::Fault>,
            >(lines[i]),
        left_by(start, rounds).buffered.len() == 0,
    decreases rounds.len(),
{
    if rounds.len() == 0 {
        assert(lines.flatten() =~= Seq::<u8>::empty());
        assert((start.buffered + to_come).len() == 0);
    } else {
        let first = rounds[0];
        let later = rounds.drop_first();
        let others = lines.drop_first();
        let run = reads_since(start.source.reads(), first.read.source.reads());
        let left = to_come.skip(handed(run).len() as int);
        assert(is_line(lines[0]) && lines[0].len() <= start.capacity());
        lemma_first_round(start, rounds, lines, to_come);
        assert forall|i: int| 0 <= i < others.len() implies is_line(#[trigger] others[i])
            && others[i].len() <= first.freed.capacity() by {
            assert(others[i] == lines[i + 1]);
        }
        lemma_lines_read_back(first.freed, later, others, left);
        assert forall|i: int| 0 <= i < rounds.len() implies (#[trigger] rounds[i]).answer
            == Ok::<Seq<u8>, ReadError<C::Fault>>(lines[i]) by {
            if i > 0 {
                assert(rounds[i] == later[i - 1]);
                assert(lines[i] == others[i - 1]);
            }
        }
    }
}

} // verus!
