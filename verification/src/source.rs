//! Where the bytes come from.

use core::convert::Infallible;
use std::collections::VecDeque;
use vstd::prelude::*;

verus! {

/// One read as a source notes it: how much room it was offered, and the bytes
/// that it put at the front of that room, or `None` where it failed.
pub struct Exchange {
    pub room: nat,
    pub given: Option<Seq<u8>>,
}

impl Exchange {
    /// The read gave at least one byte.
    pub open spec fn gave_bytes(self) -> bool {
        self.given matches Some(bytes) && bytes.len() > 0
    }

    /// The read gave no byte and did not fail: the source had run dry.
    pub open spec fn ran_dry(self) -> bool {
        self.given matches Some(bytes) && bytes.len() == 0
    }

    /// The read failed.
    pub open spec fn failed(self) -> bool {
        self.given is None
    }
}

/// The note of a read that was offered the region which now reads `room`, and
/// that answered `outcome`.
pub open spec fn exchange<F>(room: Seq<u8>, outcome: Result<usize, F>) -> Exchange {
    Exchange {
        room: room.len(),
        given: match outcome {
            Ok(count) => Some(room.take(count as int)),
            Err(_) => None,
        },
    }
}

/// The bytes that the reads of `log` gave, one read's behind the other's.
pub open spec fn handed(log: Seq<Exchange>) -> Seq<u8>
    decreases log.len(),
{
    if log.len() == 0 {
        Seq::empty()
    } else {
        handed(log.drop_last()) + match log.last().given {
            Some(bytes) => bytes,
            None => Seq::empty(),
        }
    }
}

/// What one read does to the log of a source that keeps one: the read is
/// noted behind those that were noted `before`, and it says no more bytes than
/// the room holds. A source that keeps no log keeps none afterwards either.
pub open spec fn noted<F>(
    before: Option<Seq<Exchange>>,
    after: Option<Seq<Exchange>>,
    room: Seq<u8>,
    outcome: Result<usize, F>,
) -> bool {
    match before {
        Some(log) => {
            &&& outcome matches Ok(count) ==> count <= room.len()
            &&& after == Some(log.push(exchange(room, outcome)))
        },
        None => after is None,
    }
}

/// The reads that were noted between `before` and `after`; none where no log
/// is kept.
pub open spec fn reads_since(
    before: Option<Seq<Exchange>>,
    after: Option<Seq<Exchange>>,
) -> Seq<Exchange> {
    match (before, after) {
        (Some(log), Some(now)) => now.skip(log.len() as int),
        _ => Seq::empty(),
    }
}

/// A log goes on from `before` to `after`: what was noted stays, more may
/// follow. A source that keeps no log keeps none afterwards either.
pub open spec fn goes_on(before: Option<Seq<Exchange>>, after: Option<Seq<Exchange>>) -> bool {
    match before {
        Some(log) => after matches Some(now) && log.is_prefix_of(now),
        None => after is None,
    }
}

/// The bytes of a log with one more read are the bytes of the log and then
/// those of that read.
pub proof fn lemma_handed_push(log: Seq<Exchange>, last: Exchange)
    ensures
        handed(log.push(last)) == handed(log) + match last.given {
            Some(bytes) => bytes,
            None => Seq::empty(),
        },
{
    assert(log.push(last).drop_last() =~= log);
}

/// Anything that hands out bytes on demand.
pub trait ByteSource {
    /// What the source reports when a read fails.
    type Fault;

    /// The reads that the source has answered so far, oldest first, where the
    /// source keeps such a log. A source that keeps none says `None`, and
    /// nothing is then said of what it was asked or what it handed out.
    open spec fn reads(&self) -> Option<Seq<Exchange>> {
        None
    }

    /// Puts up to `buf.len()` bytes at the front of `buf` and says how many.
    /// Zero, for a region that is not empty, says that the source has run dry.
    /// What lies in `buf` behind the bytes that were put there is left open, and
    /// so is what a failed read leaves in `buf`.
    ///
    /// The region is as long afterwards as it was before, which the language
    /// gives by itself. The rest is asked only of a source that keeps a log: the
    /// read is noted in it, with the room that was offered and the bytes that
    /// were put there.
    fn read(&mut self, buf: &mut [u8]) -> (outcome: Result<usize, Self::Fault>)
        ensures
            final(buf)@.len() == old(buf)@.len(),
            noted(old(self).reads(), final(self).reads(), final(buf)@, outcome),
    ;
}

/// A source that hands out bytes held in memory, at most `chunk` of them per
/// read, and runs dry when all were handed out. More bytes can be fed to it at
/// any time, after which it hands those out too.
pub struct MemorySource {
    pending: VecDeque<u8>,
    chunk: usize,
    log: Ghost<Seq<Exchange>>,
}

impl MemorySource {
    /// The bytes that were fed and not handed out yet, oldest first.
    pub closed spec fn pending(&self) -> Seq<u8> {
        self.pending@
    }

    /// The most bytes that one read hands out.
    pub closed spec fn chunk(&self) -> nat {
        self.chunk as nat
    }

    /// How many bytes a read into a region of `room` bytes hands out: as many
    /// as are pending, as fit, and as one read may hand out, whichever is least.
    pub open spec fn portion(&self, room: nat) -> nat {
        let most = if room <= self.chunk() {
            room
        } else {
            self.chunk()
        };
        if self.pending().len() <= most {
            self.pending().len()
        } else {
            most
        }
    }

    /// A source that will hand out `data`, at most `chunk` bytes per read.
    /// With a `chunk` of zero it is dry from the start.
    pub fn new(data: &[u8], chunk: usize) -> (source: Self)
        ensures
            source.pending() == data@,
            source.chunk() == chunk,
            source.reads() == Some(Seq::<Exchange>::empty()),
    {
        let mut source = MemorySource {
            pending: VecDeque::new(),
            chunk,
            log: Ghost(Seq::empty()),
        };
        source.feed(data);
        source
    }

    /// Adds `bytes` behind those that are pending.
    pub fn feed(&mut self, bytes: &[u8])
        ensures
            final(self).pending() == old(self).pending() + bytes@,
            final(self).chunk() == old(self).chunk(),
            final(self).reads() == old(self).reads(),
    {
        let len = bytes.len();
        let mut i: usize = 0;
        while i < len
            invariant
                i <= len,
                len == bytes@.len(),
                self.chunk == old(self).chunk,
                self.log == old(self).log,
                self.pending@ == old(self).pending@ + bytes@.take(i as int),
            decreases len - i,
        {
            self.pending.push_back(bytes[i]);
            i += 1;
        }
        assert(bytes@.take(len as int) =~= bytes@);
    }
}

impl ByteSource for MemorySource {
    type Fault = Infallible;

    /// A memory source keeps a log.
    closed spec fn reads(&self) -> Option<Seq<Exchange>> {
        Some(self.log@)
    }

    /// Never fails. Hands out the oldest pending bytes, `portion` of them, and
    /// leaves the rest of `buf` as it was.
    fn read(&mut self, buf: &mut [u8]) -> (outcome: Result<usize, Self::Fault>)
        ensures
            outcome == Ok::<usize, Self::Fault>(old(self).portion(old(buf)@.len()) as usize),
            final(buf)@ == old(self).pending().take(old(self).portion(old(buf)@.len()) as int)
                + old(buf)@.skip(old(self).portion(old(buf)@.len()) as int),
            final(self).pending() == old(self).pending().skip(
                old(self).portion(old(buf)@.len()) as int,
            ),
            final(self).chunk() == old(self).chunk(),
    {
        let room = buf.len();
        let most = if room <= self.chunk {
            room
        } else {
            self.chunk
        };
        let count = if self.pending.len() <= most {
            self.pending.len()
        } else {
            most
        };
        let mut i: usize = 0;
        while i < count
            invariant
                i <= count,
                count <= room,
                count <= old(self).pending@.len(),
                room == buf@.len(),
                room == old(buf)@.len(),
                self.chunk == old(self).chunk,
                self.log == old(self).log,
                self.pending@ == old(self).pending@.skip(i as int),
                buf@ == old(self).pending@.take(i as int) + old(buf)@.skip(i as int),
            decreases count - i,
        {
            if let Some(byte) = self.pending.pop_front() {
                buf[i] = byte;
            }
            i += 1;
        }
        proof {
            self.log = Ghost(self.log@.push(exchange(buf@, Ok::<usize, Infallible>(count))));
        }
        Ok(count)
    }
}

} // verus!
