use vstd::prelude::*;

verus! {

/// Largest number of bytes a reader hands out in one chunk, near what a live
/// encoder sends at a time.
pub const MAX_CHUNK_SIZE: usize = 32768;

/// Consecutive empty polls a reader waits through before it gives up on a
/// writer that has not finished.
pub const MAX_EMPTY_POLLS: usize = 11;

/// Pause, in milliseconds, between two polls that found nothing new.
pub const POLL_INTERVAL_MS: u64 = 10;

/// One path's content: a growing byte buffer and whether its writer is done.
pub struct Entry {
    data: Vec<u8>,
    done: bool,
}

/// What an entry holds, as a mathematical value.
pub struct EntryView {
    pub data: Seq<u8>,
    pub done: bool,
}

impl View for Entry {
    type V = EntryView;

    closed spec fn view(&self) -> EntryView {
        EntryView { data: self.data@, done: self.done }
    }
}

/// An event from the inbound chunk source of a writer.
pub enum WriteEvent {
    /// The next chunk of the upload.
    Chunk(Vec<u8>),
    /// The source is exhausted.
    End,
    /// The source failed mid-upload.
    Failed,
}

/// Where a writer stands after handling one event.
#[derive(Clone, Copy, Debug, PartialEq, Eq, Structural)]
pub enum WriteStatus {
    /// The entry is still open for more chunks.
    Open,
    /// The upload ended normally and the entry is done.
    Completed,
    /// The upload failed; the entry is done and holds what arrived before.
    Aborted,
}

/// What a reader does after one poll of its entry.
pub enum ReadStep {
    /// Hand out these bytes, the next ones after what was handed out before.
    Chunk(Vec<u8>),
    /// Nothing new yet: pause for the poll interval and poll again.
    Wait,
    /// The stream is over.
    Stop,
}

/// A reader's progress through one entry: how many bytes it has handed out
/// and how many polls in a row have found nothing new.
pub struct ReadCursor {
    sent: usize,
    misses: usize,
}

/// A copy of `b[start..end]`.
fn copy_range(b: &[u8], start: usize, end: usize) -> (r: Vec<u8>)
    requires
        start <= end <= b@.len(),
    ensures
        r@ == b@.subrange(start as int, end as int),
{
    let mut r: Vec<u8> = Vec::new();
    let mut i: usize = start;
    while i < end
        invariant
            start <= i <= end <= b@.len(),
            r@ == b@.subrange(start as int, i as int),
        decreases end - i,
    {
        r.push(b[i]);
        i = i + 1;
        assert(r@ =~= b@.subrange(start as int, i as int));
    }
    r
}

impl Entry {
    /// A fresh, empty entry whose writer is still active.
    pub fn new() -> (r: Entry)
        ensures
            r@.data == Seq::<u8>::empty(),
            !r@.done,
    {
        Entry { data: Vec::new(), done: false }
    }

    /// Appends one chunk; only an active entry grows.
    pub fn append(&mut self, chunk: &[u8])
        requires
            !old(self)@.done,
            old(self)@.data.len() + chunk@.len() <= usize::MAX,
        ensures
            final(self)@.data == old(self)@.data + chunk@,
            !final(self)@.done,
    {
        let ghost start = self.data@;
        let mut i: usize = 0;
        while i < chunk.len()
            invariant
                i <= chunk@.len(),
                self.data@ == start + chunk@.subrange(0, i as int),
                !self.done,
            decreases chunk@.len() - i,
        {
            self.data.push(chunk[i]);
            i = i + 1;
            assert(self.data@ =~= start + chunk@.subrange(0, i as int));
        }
        assert(chunk@.subrange(0, i as int) =~= chunk@);
    }

    /// Marks the entry done: its writer appends no more.
    pub fn finish(&mut self)
        ensures
            final(self)@.data == old(self)@.data,
            final(self)@.done,
    {
        self.done = true;
    }

    /// Number of bytes written so far.
    pub fn len(&self) -> (r: usize)
        ensures
            r == self@.data.len(),
    {
        self.data.len()
    }

    /// Whether the writer is done.
    pub fn is_done(&self) -> (r: bool)
        ensures
            r == self@.done,
    {
        self.done
    }

    /// The bytes written so far.
    pub fn bytes(&self) -> (r: &Vec<u8>)
        ensures
            r@ == self@.data,
    {
        &self.data
    }

    /// Handles one event of the writer: a chunk is appended, and both the end
    /// of the source and its failure leave the entry done, so that no reader
    /// waits on a writer that is gone.
    pub fn write_step(&mut self, event: WriteEvent) -> (r: WriteStatus)
        requires
            !old(self)@.done,
            event matches WriteEvent::Chunk(c) ==> old(self)@.data.len() + c@.len() <= usize::MAX,
        ensures
            match event {
                WriteEvent::Chunk(c) => {
                    &&& final(self)@.data == old(self)@.data + c@
                    &&& !final(self)@.done
                    &&& r == WriteStatus::Open
                },
                WriteEvent::End => {
                    &&& final(self)@.data == old(self)@.data
                    &&& final(self)@.done
                    &&& r == WriteStatus::Completed
                },
                WriteEvent::Failed => {
                    &&& final(self)@.data == old(self)@.data
                    &&& final(self)@.done
                    &&& r == WriteStatus::Aborted
                },
            },
    {
        match event {
            WriteEvent::Chunk(c) => {
                self.append(c.as_slice());
                WriteStatus::Open
            },
            WriteEvent::End => {
                self.finish();
                WriteStatus::Completed
            },
            WriteEvent::Failed => {
                self.finish();
                WriteStatus::Aborted
            },
        }
    }
}

impl ReadCursor {
    /// Bytes handed out so far.
    pub closed spec fn position(&self) -> nat {
        self.sent as nat
    }

    /// Polls in a row that found nothing new.
    pub closed spec fn empty_polls(&self) -> nat {
        self.misses as nat
    }

    /// A cursor at the start of an entry.
    pub fn new() -> (r: ReadCursor)
        ensures
            r.position() == 0,
            r.empty_polls() == 0,
    {
        ReadCursor { sent: 0, misses: 0 }
    }

    /// Bytes handed out so far.
    pub fn sent(&self) -> (r: usize)
        ensures
            r == self.position(),
    {
        self.sent
    }

    /// Polls `entry` once. New bytes are handed out, at most `MAX_CHUNK_SIZE`
    /// of them, and reset the count of empty polls. With nothing new, a done
    /// entry ends the stream; otherwise the reader waits, until it has waited
    /// through `MAX_EMPTY_POLLS` empty polls in a row, and then stops.
    pub fn poll(&mut self, entry: &Entry) -> (r: ReadStep)
        requires
            old(self).position() <= entry@.data.len(),
        ensures
            final(self).position() <= entry@.data.len(),
            ({
                let pos = old(self).position();
                let avail = entry@.data.len() - pos;
                let take = if avail < MAX_CHUNK_SIZE { avail } else { MAX_CHUNK_SIZE as int };
                if avail > 0 {
                    &&& r matches ReadStep::Chunk(c)
                    &&& c@ == entry@.data.subrange(pos as int, pos + take)
                    &&& final(self).position() == pos + take
                    &&& final(self).empty_polls() == 0
                } else if entry@.done || old(self).empty_polls() >= MAX_EMPTY_POLLS {
                    &&& r is Stop
                    &&& final(self).position() == pos
                    &&& final(self).empty_polls() == old(self).empty_polls()
                } else {
                    &&& r is Wait
                    &&& final(self).position() == pos
                    &&& final(self).empty_polls() == old(self).empty_polls() + 1
                }
            }),
    {
        let len = entry.len();
        let avail = len - self.sent;
        if avail > 0 {
            let take = if avail < MAX_CHUNK_SIZE {
                avail
            } else {
                MAX_CHUNK_SIZE
            };
            let chunk = copy_range(entry.bytes().as_slice(), self.sent, self.sent + take);
            self.sent = self.sent + take;
            self.misses = 0;
            ReadStep::Chunk(chunk)
        } else if entry.is_done() || self.misses >= MAX_EMPTY_POLLS {
            ReadStep::Stop
        } else {
            self.misses = self.misses + 1;
            ReadStep::Wait
        }
    }
}

/// A reader hands out exactly the entry's bytes, in order. If the bytes handed
/// out so far are the first `pos` bytes of the entry as it stood, and the entry
/// has only grown since, then the chunk from `pos` to `end` of the entry as it
/// stands now extends them to its first `end` bytes; once `end` reaches the
/// end of the entry, they are the whole payload.
pub proof fn lemma_progressive_read(handed: Seq<u8>, before: Seq<u8>, now: Seq<u8>, pos: int, end: int)
    requires
        0 <= pos <= before.len(),
        handed == before.subrange(0, pos),
        before.len() <= now.len(),
        now.subrange(0, before.len() as int) == before,
        pos <= end <= now.len(),
    ensures
        handed + now.subrange(pos, end) == now.subrange(0, end),
        end == now.len() ==> handed + now.subrange(pos, end) == now,
{
    assert(handed =~= now.subrange(0, pos));
    assert(handed + now.subrange(pos, end) =~= now.subrange(0, end));
    assert(now.subrange(0, now.len() as int) =~= now);
}

} // verus!
