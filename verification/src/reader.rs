//! The reader: a source, a buffer of fixed size, and the count of bytes at the
//! front of the buffer that were received and not released yet.
//!
//! The contracts speak of the reader's history too: `received`, every byte
//! that the reader took in from its source, oldest first. What is buffered is
//! always the end of that history, and what lies before it has passed: it was
//! released by `consume` or handed out by `read_exact`. Where the source keeps a
//! log of its reads, the contracts say which reads were made: how much room each
//! was offered, that the bytes they gave are the bytes that were taken in, and
//! which of them decided the answer.

use crate::error::ReadError;
use crate::line::{
    get_line, get_line_from, is_line, is_line_end, lemma_first_line_is_line,
    lemma_line_end_bounds, unterminated,
};
use crate::source::{
    exchange, goes_on, handed, lemma_handed_push, noted, reads_since, ByteSource, Exchange,
};
use vstd::prelude::*;
use vstd::slice::slice_subrange;

verus! {

/// Reads lines from a source through a buffer whose size is fixed when the
/// reader is made. A line is handed out as a slice of the buffer, and stays
/// at the front of the buffer until `consume` releases it.
pub struct MyBufReader<C> {
    inner: C,
    filled: usize,
    buf: Vec<u8>,
    received: Ghost<Seq<u8>>,
}

/// A reader as its callers see it.
pub struct ReaderView<C> {
    /// The source that the reader owns.
    pub source: C,
    /// The bytes that were received and not released yet, oldest first.
    pub buffered: Seq<u8>,
    /// The rest of the buffer: room for what the next read brings. What it
    /// holds means nothing until a read has written it.
    pub spare: Seq<u8>,
    /// Every byte that the reader took in from its source, into the buffer or
    /// into the region of a `read_exact`, oldest first.
    pub received: Seq<u8>,
}

impl<C> ReaderView<C> {
    /// The size of the buffer.
    pub open spec fn capacity(self) -> nat {
        self.buffered.len() + self.spare.len()
    }

    /// The bytes that were received and are buffered no more.
    pub open spec fn passed(self) -> Seq<u8> {
        self.received.take(self.received.len() - self.buffered.len())
    }
}

/// The part of `after` that lies behind its first `before.len()` bytes: what
/// was added to make `after` out of `before`.
pub open spec fn gained(before: Seq<u8>, after: Seq<u8>) -> Seq<u8> {
    after.skip(before.len() as int)
}

/// What is left of `buffered` when `amount` bytes are released: more than
/// are held releases all.
pub open spec fn released(buffered: Seq<u8>, amount: int) -> Seq<u8> {
    if amount <= buffered.len() {
        buffered.skip(amount)
    } else {
        Seq::empty()
    }
}

/// What is buffered is the end of what was received: the part of a reader's
/// well-formedness that its view shows.
pub open spec fn anchored<C>(view: ReaderView<C>) -> bool {
    view.buffered.is_suffix_of(view.received)
}

/// `after` is `before` with `amount` bytes released, as `consume` leaves it.
pub open spec fn let_go<C>(before: ReaderView<C>, after: ReaderView<C>, amount: int) -> bool {
    &&& after.received == before.received
    &&& after.buffered == released(before.buffered, amount)
}

/// What a release of `amount` bytes leaves: `after` for the reader that was
/// `before`. The bytes are let go, and source and size stay as they were.
pub open spec fn consumed<C>(before: ReaderView<C>, after: ReaderView<C>, amount: int) -> bool {
    &&& after.source == before.source
    &&& after.capacity() == before.capacity()
    &&& let_go(before, after, amount)
}

/// Between `before` and `after` the buffer kept its size and what it held, and
/// gained behind that the bytes that were received meanwhile, those and no
/// others.
pub open spec fn took_in<C>(before: ReaderView<C>, after: ReaderView<C>) -> bool {
    &&& after.capacity() == before.capacity()
    &&& before.buffered.is_prefix_of(after.buffered)
    &&& after.received == before.received + gained(before.buffered, after.buffered)
}

/// `before` with the first `count` bytes of its spare room taken in: they
/// count as received and are buffered behind what was buffered.
pub open spec fn absorbed<C>(before: ReaderView<C>, count: nat) -> ReaderView<C> {
    ReaderView {
        source: before.source,
        buffered: before.buffered + before.spare.take(count as int),
        spare: before.spare.skip(count as int),
        received: before.received + before.spare.take(count as int),
    }
}

/// `run` is a run of reads that fill a region which holds `start` bytes and
/// takes `limit`: each read was made while room was left and was offered all of
/// it, each gave no more than it was offered, and each but the last gave at
/// least one byte. No read follows one that failed or found the source dry.
pub open spec fn filling(start: nat, limit: nat, run: Seq<Exchange>) -> bool
    decreases run.len(),
{
    if run.len() == 0 {
        true
    } else {
        let earlier = run.drop_last();
        &&& filling(start, limit, earlier)
        &&& earlier.len() > 0 ==> earlier.last().gave_bytes()
        &&& start + handed(earlier).len() < limit
        &&& run.last().room == limit - start - handed(earlier).len()
        &&& run.last().given matches Some(bytes) ==> bytes.len() <= run.last().room
    }
}

/// No read was made, or the last one gave bytes.
pub open spec fn ended_with_bytes(run: Seq<Exchange>) -> bool {
    run.len() == 0 || run.last().gave_bytes()
}

/// The reads that a source with a log answered while a line was read, between
/// `before` and `after`: they filled the spare room, one after the other, each
/// was made only while no terminator was buffered, their bytes are what the
/// buffer gained, and none was made where a line was buffered already or no
/// room was left.
pub open spec fn line_reads<C: ByteSource>(before: ReaderView<C>, after: ReaderView<C>) -> bool {
    let run = reads_since(before.source.reads(), after.source.reads());
    before.source.reads() is Some ==> {
        &&& filling(before.buffered.len(), before.capacity(), run)
        &&& handed(run) == gained(before.buffered, after.buffered)
        &&& run.len() > 0 ==> run[0].room == before.spare.len()
        &&& run.len() > 0 ==> unterminated(before.buffered + handed(run.drop_last()))
        &&& run.len() == 0 <==> !unterminated(before.buffered) || before.spare.len() == 0
    }
}

/// What a read of a line leaves and answers: `after` for the reader that was
/// `before`, and `answer` with the line's bytes in place of the slice.
///
/// The buffer gains what was received and nothing else, the source is asked as
/// `line_reads` says, and a reader that holds a line or has no room is left as
/// it was. The answer is the first line of what is then buffered, where there is
/// one. Where there is none, it says why no more was read: the buffer is full,
/// the last read found the source dry, or the last read failed.
pub open spec fn line_read<C: ByteSource>(
    before: ReaderView<C>,
    after: ReaderView<C>,
    answer: Result<Seq<u8>, ReadError<C::Fault>>,
) -> bool {
    let run = reads_since(before.source.reads(), after.source.reads());
    &&& took_in(before, after)
    &&& goes_on(before.source.reads(), after.source.reads())
    &&& line_reads(before, after)
    &&& !unterminated(before.buffered) || before.spare.len() == 0 ==> after == before
    &&& match answer {
        Ok(line) => {
            &&& is_line(line)
            &&& is_line_end(after.buffered, line.len() as int)
            &&& line == after.buffered.take(line.len() as int)
            &&& ended_with_bytes(run)
        },
        Err(ReadError::LineTooLong { capacity, buffered }) => {
            &&& unterminated(after.buffered)
            &&& after.spare.len() == 0
            &&& capacity == after.capacity()
            &&& buffered == after.buffered.len()
            &&& ended_with_bytes(run)
        },
        Err(ReadError::UnterminatedLine { buffered }) => {
            &&& unterminated(after.buffered)
            &&& after.spare.len() > 0
            &&& buffered == after.buffered.len()
            &&& before.source.reads() is Some ==> run.len() > 0 && run.last().ran_dry()
        },
        Err(ReadError::SourceError(_)) => {
            &&& unterminated(after.buffered)
            &&& after.spare.len() > 0
            &&& before.source.reads() is Some ==> run.len() > 0 && run.last().failed()
        },
        Err(ReadError::ShortRead { .. }) => false,
    }
}

/// The reads that a source with a log answered while a region of `wanted`
/// bytes was filled, between `before` and `after`: they filled what the
/// buffered bytes had left of the region, one after the other, their bytes are
/// what was received, and none was made where the buffered bytes sufficed.
pub open spec fn exact_reads<C: ByteSource>(
    before: ReaderView<C>,
    after: ReaderView<C>,
    wanted: nat,
) -> bool {
    let run = reads_since(before.source.reads(), after.source.reads());
    before.source.reads() is Some ==> {
        &&& filling(lesser(wanted, before.buffered.len()), wanted, run)
        &&& handed(run) == gained(before.received, after.received)
        &&& run.len() > 0 ==> run[0].room == wanted - before.buffered.len()
        &&& run.len() == 0 <==> wanted <= before.buffered.len()
    }
}

/// One more read goes behind a run that filled so far, where the run left
/// room and ended with bytes, and the read was offered the room that was left.
pub proof fn lemma_filling_push(start: nat, limit: nat, run: Seq<Exchange>, last: Exchange)
    requires
        filling(start, limit, run),
        ended_with_bytes(run),
        start + handed(run).len() < limit,
        last.room == limit - start - handed(run).len(),
        last.given matches Some(bytes) ==> bytes.len() <= last.room,
    ensures
        filling(start, limit, run.push(last)),
{
    assert(run.push(last).drop_last() =~= run);
}

/// The first read of a run was offered all the room that there was.
pub proof fn lemma_filling_first(start: nat, limit: nat, run: Seq<Exchange>)
    requires
        filling(start, limit, run),
        run.len() > 0,
    ensures
        run[0].room == limit - start,
    decreases run.len(),
{
    if run.len() > 1 {
        lemma_filling_first(start, limit, run.drop_last());
    } else {
        assert(run.drop_last().len() == 0);
    }
}

/// The reads since `before`, when one more read was noted behind `now`.
pub proof fn lemma_reads_since_push(before: Seq<Exchange>, now: Seq<Exchange>, last: Exchange)
    requires
        before.is_prefix_of(now),
    ensures
        before.is_prefix_of(now.push(last)),
        reads_since(Some(before), Some(now.push(last))) == reads_since(
            Some(before),
            Some(now),
        ).push(last),
{
    assert(now.push(last).skip(before.len() as int) =~= now.skip(before.len() as int).push(last));
}

/// The lesser of two lengths.
pub open spec fn lesser(a: nat, b: nat) -> nat {
    if a <= b {
        a
    } else {
        b
    }
}

/// How many bytes of `out` were written when it was filled from `held` first
/// and then with `direct`: as many of `held` as `out` takes, and all of `direct`.
pub open spec fn from_both(out: Seq<u8>, held: Seq<u8>, direct: Seq<u8>) -> nat {
    lesser(out.len(), held.len()) + direct.len()
}

/// `out` starts with the bytes of `held`, as many as it takes, and goes on
/// with `direct`.
pub open spec fn filled_from(out: Seq<u8>, held: Seq<u8>, direct: Seq<u8>) -> bool {
    &&& from_both(out, held, direct) <= out.len()
    &&& out.take(from_both(out, held, direct) as int) == held.take(
        lesser(out.len(), held.len()) as int,
    ) + direct
}

impl<C> View for MyBufReader<C> {
    type V = ReaderView<C>;

    closed spec fn view(&self) -> ReaderView<C> {
        ReaderView {
            source: self.inner,
            buffered: self.buf@.take(self.filled as int),
            spare: self.buf@.skip(self.filled as int),
            received: self.received@,
        }
    }
}

/// What one read means to a transfer of `requested` bytes of which
/// `delivered` have arrived: a fault is handed on, no byte at all says that the
/// source ran dry before the transfer was complete, and `count` bytes, or as
/// many of them as were still wanted, add to what has arrived.
pub fn tally<F>(requested: usize, delivered: usize, outcome: Result<usize, F>) -> (progress: Result<
    usize,
    ReadError<F>,
>)
    requires
        delivered <= requested,
    ensures
        progress == match outcome {
            Err(fault) => Err::<usize, ReadError<F>>(ReadError::SourceError(fault)),
            Ok(count) => if count == 0 {
                Err::<usize, ReadError<F>>(ReadError::ShortRead { requested, delivered })
            } else {
                Ok::<usize, ReadError<F>>(
                    (delivered + lesser(count as nat, (requested - delivered) as nat)) as usize,
                )
            },
        },
{
    match outcome {
        Err(fault) => Err(ReadError::SourceError(fault)),
        Ok(count) => {
            if count == 0 {
                Err(ReadError::ShortRead { requested, delivered })
            } else if count <= requested - delivered {
                Ok(delivered + count)
            } else {
                Ok(requested)
            }
        },
    }
}

impl<C: ByteSource> MyBufReader<C> {
    /// The fill count lies within the buffer, and what is buffered is the end
    /// of what was received. Every reader that this module hands out is well
    /// formed, and every operation keeps it so.
    pub closed spec fn wf(&self) -> bool {
        &&& self.filled <= self.buf@.len()
        &&& self@.buffered.is_suffix_of(self@.received)
    }

    /// What well-formedness means to a caller: the bytes that passed and the
    /// bytes that are buffered make up, in this order, all that was received.
    pub proof fn lemma_wf_view(&self)
        requires
            self.wf(),
        ensures
            anchored(self@),
            self@.received == self@.passed() + self@.buffered,
    {
        assert(self@.received =~= self@.passed() + self@.buffered);
    }

    /// A reader over `inner` with a buffer of `capacity` bytes, none of them
    /// filled. The capacity must cover the longest line that is to be read,
    /// terminator included.
    pub fn with_capacity(capacity: usize, inner: C) -> (reader: Self)
        ensures
            reader.wf(),
            reader@.source == inner,
            reader@.buffered == Seq::<u8>::empty(),
            reader@.received == Seq::<u8>::empty(),
            reader@.spare == Seq::new(capacity as nat, |i: int| 0u8),
    {
        let buf = vec![0u8; capacity];
        let reader = MyBufReader { inner, filled: 0, buf, received: Ghost(Seq::empty()) };
        assert(reader@.buffered =~= Seq::<u8>::empty());
        assert(reader@.spare =~= Seq::new(capacity as nat, |i: int| 0u8));
        reader
    }

    /// The source, for the caller to use between reads: to send a request, say.
    /// The buffer is not touched.
    pub fn get_mut(&mut self) -> (source: &mut C)
        requires
            old(self).wf(),
        ensures
            *source == old(self)@.source,
            final(self).wf(),
            final(self)@ == (ReaderView { source: *final(source), ..old(self)@ }),
    {
        &mut self.inner
    }

    /// The size of the buffer.
    pub fn capacity(&self) -> (capacity: usize)
        requires
            self.wf(),
        ensures
            capacity == self@.capacity(),
    {
        self.buf.len()
    }

    /// The bytes that were received and not released yet.
    pub fn buffer(&self) -> (buffered: &[u8])
        requires
            self.wf(),
        ensures
            buffered@ == self@.buffered,
    {
        slice_subrange(self.buf.as_slice(), 0, self.filled)
    }

    /// Releases the first `amount` buffered bytes, or all of them where fewer
    /// are held, and moves what is left to the front of the buffer.
    pub fn consume(&mut self, amount: usize)
        requires
            old(self).wf(),
        ensures
            final(self).wf(),
            consumed(old(self)@, final(self)@, amount as int),
    {
        let gone = if amount <= self.filled {
            amount
        } else {
            self.filled
        };
        let left = self.filled - gone;
        let mut i: usize = 0;
        while i < left
            invariant
                i <= left,
                left + gone == self.filled,
                self.filled <= self.buf@.len(),
                self.filled == old(self).filled,
                self.inner == old(self).inner,
                self.received == old(self).received,
                self.buf@.len() == old(self).buf@.len(),
                forall|j: int| 0 <= j < i ==> self.buf@[j] == old(self).buf@[j + gone],
                forall|j: int| i <= j < self.buf@.len() ==> self.buf@[j] == old(self).buf@[j],
            decreases left - i,
        {
            let byte = self.buf[i + gone];
            self.buf[i] = byte;
            i += 1;
        }
        self.filled = left;
        assert(self@.buffered =~= released(old(self)@.buffered, amount as int));
    }

    /// Asks the source once for bytes into the spare room, all of it, and
    /// hands on what it answers: the bytes that the source gave lie at the front
    /// of the spare room afterwards. Nothing becomes buffered by this: `absorb`
    /// takes the answer in.
    ///
    /// There must be spare room: a source that is offered none can say nothing
    /// by its answer.
    pub fn fetch(&mut self) -> (outcome: Result<usize, C::Fault>)
        requires
            old(self).wf(),
            old(self)@.spare.len() > 0,
        ensures
            final(self).wf(),
            final(self)@.buffered == old(self)@.buffered,
            final(self)@.received == old(self)@.received,
            final(self)@.spare.len() == old(self)@.spare.len(),
            noted(
                old(self)@.source.reads(),
                final(self)@.source.reads(),
                final(self)@.spare,
                outcome,
            ),
    {
        let start = self.filled;
        let (_, room) = self.buf.as_mut_slice().split_at_mut(start);
        let outcome = self.inner.read(room);
        assert(self@.buffered =~= old(self)@.buffered);
        assert(self@.spare =~= room@);
        outcome
    }

    /// Takes in what one read into the spare room gave, when no terminator was
    /// buffered before it: a fault is handed on, no byte at all says that the
    /// source ran dry in the middle of a line, and `count` bytes count as
    /// received, become buffered and are searched for the terminator.
    /// `Ok(Some(end))` gives the end of the line that is now complete, `Ok(None)`
    /// says that more is needed. A count beyond the spare room, which no source
    /// should give, is taken for the room's size.
    ///
    /// The search starts at the last byte that was buffered before, so that a
    /// terminator is found whose two bytes came with two reads.
    pub fn absorb(&mut self, outcome: Result<usize, C::Fault>) -> (step: Result<
        Option<usize>,
        ReadError<C::Fault>,
    >)
        requires
            old(self).wf(),
            unterminated(old(self)@.buffered),
        ensures
            final(self).wf(),
            match outcome {
                Err(fault) => {
                    &&& step == Err::<Option<usize>, ReadError<C::Fault>>(
                        ReadError::SourceError(fault),
                    )
                    &&& final(self)@ == old(self)@
                },
                Ok(count) => if count == 0 {
                    &&& step == Err::<Option<usize>, ReadError<C::Fault>>(
                        ReadError::UnterminatedLine { buffered: old(self)@.buffered.len() as usize },
                    )
                    &&& final(self)@ == old(self)@
                } else {
                    &&& final(self)@ == absorbed(
                        old(self)@,
                        lesser(count as nat, old(self)@.spare.len()),
                    )
                    &&& match step {
                        Ok(Some(end)) => is_line_end(final(self)@.buffered, end as int),
                        Ok(None) => unterminated(final(self)@.buffered),
                        Err(_) => false,
                    }
                },
            },
    {
        match outcome {
            Err(fault) => Err(ReadError::SourceError(fault)),
            Ok(count) => {
                if count == 0 {
                    Err(ReadError::UnterminatedLine { buffered: self.filled })
                } else {
                    let known = self.filled;
                    let room = self.buf.len() - known;
                    let taken = if count <= room {
                        count
                    } else {
                        room
                    };
                    self.filled = known + taken;
                    proof {
                        let fresh = old(self)@.spare.take(taken as int);
                        self.received = Ghost(self.received@ + fresh);
                        assert(self@.buffered =~= old(self)@.buffered + fresh);
                        assert(self@.spare =~= old(self)@.spare.skip(taken as int));
                        assert(self.buf@.take(known as int) =~= old(self)@.buffered);
                        assert(self@.buffered.is_suffix_of(self@.received));
                    }
                    Ok(get_line_from(self.buf.as_slice(), known, self.filled))
                }
            },
        }
    }

    /// Fills `out`: with buffered bytes first, which are thereby released, and
    /// where those do not suffice, with bytes that the source puts into `out`
    /// directly, read by read, past the buffer: each read is offered all of `out`
    /// that is not filled yet. Nothing is looked at for terminators.
    ///
    /// When the source fails or runs dry before `out` is full, the bytes that
    /// were delivered until then are in `out` and gone from buffer and source:
    /// the error says so, it is not made good.
    pub fn read_exact(&mut self, out: &mut [u8]) -> (answer: Result<(), ReadError<C::Fault>>)
        requires
            old(self).wf(),
        ensures
            final(self).wf(),
            final(self)@.capacity() == old(self)@.capacity(),
            final(self)@.buffered == released(old(self)@.buffered, old(out)@.len() as int),
            final(out)@.len() == old(out)@.len(),
            old(self)@.received.is_prefix_of(final(self)@.received),
            goes_on(old(self)@.source.reads(), final(self)@.source.reads()),
            exact_reads(old(self)@, final(self)@, old(out)@.len()),
            old(out)@.len() <= old(self)@.buffered.len() ==> {
                &&& answer is Ok
                &&& final(self)@.source == old(self)@.source
                &&& final(self)@.received == old(self)@.received
            },
            filled_from(
                final(out)@,
                old(self)@.buffered,
                gained(old(self)@.received, final(self)@.received),
            ),
            match answer {
                Ok(_) => {
                    &&& final(out)@.len() == from_both(
                        final(out)@,
                        old(self)@.buffered,
                        gained(old(self)@.received, final(self)@.received),
                    )
                    &&& ended_with_bytes(
                        reads_since(old(self)@.source.reads(), final(self)@.source.reads()),
                    )
                },
                Err(ReadError::ShortRead { requested, delivered }) => {
                    &&& requested == final(out)@.len()
                    &&& delivered < requested
                    &&& delivered == from_both(
                        final(out)@,
                        old(self)@.buffered,
                        gained(old(self)@.received, final(self)@.received),
                    )
                    &&& old(self)@.source.reads() is Some ==> {
                        let run = reads_since(
                            old(self)@.source.reads(),
                            final(self)@.source.reads(),
                        );
                        run.len() > 0 && run.last().ran_dry()
                    }
                },
                Err(ReadError::SourceError(_)) => {
                    &&& from_both(
                        final(out)@,
                        old(self)@.buffered,
                        gained(old(self)@.received, final(self)@.received),
                    ) < final(out)@.len()
                    &&& old(self)@.source.reads() is Some ==> {
                        let run = reads_since(
                            old(self)@.source.reads(),
                            final(self)@.source.reads(),
                        );
                        run.len() > 0 && run.last().failed()
                    }
                },
                Err(_) => false,
            },
    {
        let wanted = out.len();
        let taken = if wanted <= self.filled {
            wanted
        } else {
            self.filled
        };
        let mut i: usize = 0;
        while i < taken
            invariant
                i <= taken,
                taken <= self.filled,
                taken <= wanted,
                self.wf(),
                self@ == old(self)@,
                out@.len() == wanted,
                out@.take(i as int) == self@.buffered.take(i as int),
            decreases taken - i,
        {
            out[i] = self.buf[i];
            i += 1;
            assert(out@.take(i as int) =~= self@.buffered.take(i as int));
        }
        self.consume(taken);
        let mut done: usize = taken;
        proof {
            assert(gained(old(self)@.received, self@.received) =~= Seq::<u8>::empty());
            assert(out@.take(done as int) =~= old(self)@.buffered.take(taken as int)
                + Seq::<u8>::empty());
            if let Some(log) = old(self)@.source.reads() {
                assert(log.skip(log.len() as int) =~= Seq::<Exchange>::empty());
            }
        }
        while done < wanted
            invariant
                wanted == old(out)@.len(),
                out@.len() == wanted,
                taken <= done <= wanted,
                taken == lesser(wanted as nat, old(self)@.buffered.len()),
                self.wf(),
                self@.capacity() == old(self)@.capacity(),
                self@.buffered == released(old(self)@.buffered, wanted as int),
                done == taken ==> self@.source == old(self)@.source && self@.received == old(
                    self,
                )@.received,
                old(self)@.received.is_prefix_of(self@.received),
                done == taken + gained(old(self)@.received, self@.received).len(),
                out@.take(done as int) == old(self)@.buffered.take(taken as int) + gained(
                    old(self)@.received,
                    self@.received,
                ),
                goes_on(old(self)@.source.reads(), self@.source.reads()),
                old(self)@.source.reads() is Some ==> {
                    let run = reads_since(old(self)@.source.reads(), self@.source.reads());
                    &&& filling(taken as nat, wanted as nat, run)
                    &&& ended_with_bytes(run)
                    &&& handed(run) == gained(old(self)@.received, self@.received)
                    &&& run.len() > 0 ==> run[0].room == wanted - old(self)@.buffered.len()
                    &&& run.len() == 0 <==> done == taken
                },
            decreases wanted - done,
        {
            let ghost before = self@;
            let ghost filled = out@.take(done as int);
            let (_, rest) = out.split_at_mut(done);
            let outcome = self.inner.read(rest);
            let ghost given = outcome;
            assert(out@.take(done as int) =~= filled);
            assert(out@.skip(done as int) =~= rest@);
            proof {
                if let Some(log) = old(self)@.source.reads() {
                    let now = before.source.reads()->Some_0;
                    let run = reads_since(Some(log), Some(now));
                    let last = exchange(rest@, given);
                    lemma_reads_since_push(log, now, last);
                    lemma_filling_push(taken as nat, wanted as nat, run, last);
                    lemma_filling_first(taken as nat, wanted as nat, run.push(last));
                    lemma_handed_push(run, last);
                    assert(handed(run) + Seq::<u8>::empty() =~= handed(run));
                    assert(rest@.take(0) =~= Seq::<u8>::empty());
                }
            }
            match tally(wanted, done, outcome) {
                Err(error) => {
                    return Err(error);
                },
                Ok(reached) => {
                    proof {
                        let start = old(self)@.received;
                        let fresh = out@.subrange(done as int, reached as int);
                        self.received = Ghost(before.received + fresh);
                        assert(self@.buffered =~= Seq::<u8>::empty());
                        assert(gained(start, self@.received) =~= gained(start, before.received)
                            + fresh);
                        assert(out@.take(reached as int) =~= filled + fresh);
                        assert(filled + fresh =~= old(self)@.buffered.take(taken as int) + gained(
                            start,
                            self@.received,
                        ));
                        if old(self)@.source.reads() is Some {
                            assert(fresh =~= rest@.take(given->Ok_0 as int));
                        }
                    }
                    done = reached;
                },
            }
        }
        Ok(())
    }

    /// Hands out the first line: the buffered bytes up to and including the
    /// first terminator. The source is asked for more, read by read and each time
    /// into all the spare room, only while no terminator is buffered and the
    /// buffer has room, and what it gives stays buffered whatever the answer. The
    /// line stays buffered too, until `consume` releases it.
    ///
    /// No line is owed when the source fails, when it runs dry before the
    /// terminator came, or when the buffer is full without one: the line is then
    /// longer than the buffer.
    pub fn read_line(&mut self) -> (answer: Result<&[u8], ReadError<C::Fault>>)
        requires
            old(self).wf(),
        ensures
            final(self).wf(),
            line_read(
                old(self)@,
                final(self)@,
                match answer {
                    Ok(line) => Ok::<Seq<u8>, ReadError<C::Fault>>(line@),
                    Err(error) => Err::<Seq<u8>, ReadError<C::Fault>>(error),
                },
            ),
    {
        let mut found = get_line(slice_subrange(self.buf.as_slice(), 0, self.filled));
        proof {
            assert(gained(self@.buffered, self@.buffered) =~= Seq::<u8>::empty());
            if let Some(log) = self@.source.reads() {
                assert(log.skip(log.len() as int) =~= Seq::<Exchange>::empty());
            }
        }
        while found.is_none()
            invariant
                self.wf(),
                took_in(old(self)@, self@),
                !unterminated(old(self)@.buffered) || old(self)@.spare.len() == 0 ==> self@ == old(
                    self,
                )@,
                match found {
                    Some(end) => is_line_end(self@.buffered, end as int),
                    None => unterminated(self@.buffered),
                },
                goes_on(old(self)@.source.reads(), self@.source.reads()),
                old(self)@.source.reads() is Some ==> {
                    let run = reads_since(old(self)@.source.reads(), self@.source.reads());
                    &&& filling(old(self)@.buffered.len(), old(self)@.capacity(), run)
                    &&& ended_with_bytes(run)
                    &&& handed(run) == gained(old(self)@.buffered, self@.buffered)
                    &&& run.len() > 0 ==> run[0].room == old(self)@.spare.len()
                    &&& run.len() > 0 ==> unterminated(old(self)@.buffered + handed(run.drop_last()))
                    &&& run.len() == 0 ==> self@ == old(self)@
                },
            decreases self@.spare.len(),
        {
            let capacity = self.buf.len();
            if self.filled == capacity {
                return Err(ReadError::LineTooLong { capacity, buffered: self.filled });
            }
            let ghost before = self@;
            let outcome = self.fetch();
            let ghost read = self@;
            let ghost given = outcome;
            proof {
                if let Some(log) = old(self)@.source.reads() {
                    let now = before.source.reads()->Some_0;
                    let run = reads_since(Some(log), Some(now));
                    let last = exchange(read.spare, given);
                    lemma_reads_since_push(log, now, last);
                    lemma_filling_push(
                        old(self)@.buffered.len(),
                        old(self)@.capacity(),
                        run,
                        last,
                    );
                    lemma_handed_push(run, last);
                    lemma_filling_first(
                        old(self)@.buffered.len(),
                        old(self)@.capacity(),
                        run.push(last),
                    );
                    assert(run.push(last).drop_last() =~= run);
                    assert(old(self)@.buffered + handed(run) =~= before.buffered);
                    assert(handed(run) + Seq::<u8>::empty() =~= handed(run));
                    assert(read.spare.take(0) =~= Seq::<u8>::empty());
                }
            }
            match self.absorb(outcome) {
                Ok(step) => {
                    found = step;
                    proof {
                        let fresh = read.spare.take(
                            lesser(given->Ok_0 as nat, read.spare.len()) as int,
                        );
                        let earlier = gained(old(self)@.buffered, before.buffered);
                        assert(old(self)@.buffered.is_prefix_of(self@.buffered));
                        assert(gained(old(self)@.buffered, self@.buffered) =~= earlier + fresh);
                        assert(self@.received =~= old(self)@.received + (earlier + fresh));
                    }
                },
                Err(error) => {
                    proof {
                        assert(gained(old(self)@.buffered, self@.buffered) =~= gained(
                            old(self)@.buffered,
                            before.buffered,
                        ));
                    }
                    return Err(error);
                },
            }
        }
        let end = found.unwrap();
        proof {
            lemma_line_end_bounds(self@.buffered, end as int);
            lemma_first_line_is_line(self@.buffered, end as int);
            assert(self.buf@.subrange(0, end as int) =~= self@.buffered.take(end as int));
        }
        Ok(slice_subrange(self.buf.as_slice(), 0, end))
    }
}

} // verus!
