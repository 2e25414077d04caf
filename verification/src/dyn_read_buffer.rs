//! The growable buffer: exact-length reads and delimiter-bounded reads over
//! a single reusable byte region.

use vstd::prelude::*;

use crate::errors::ReadError;
use crate::source::ByteSource;

verus! {

/// The least headroom `read_until` asks for before each underlying read.
pub const READ_CHUNK: usize = 32;

/// Holds when `data` is what a successful exact-length read of `amount`
/// bytes returns against a source stream: the first `amount` bytes of the
/// stream, which therefore must be long enough.
pub open spec fn exact_read(stream: Seq<u8>, amount: int, data: Seq<u8>) -> bool {
    &&& data.len() == amount
    &&& amount <= stream.len()
    &&& data == stream.take(amount)
}

/// Holds when `data` is what a successful delimiter-bounded read returns
/// against a source stream: the stream's prefix through the first occurrence
/// of `delimiter`, inclusive.
pub open spec fn delimited_prefix(stream: Seq<u8>, delimiter: u8, data: Seq<u8>) -> bool {
    &&& 1 <= data.len() <= stream.len()
    &&& data == stream.take(data.len() as int)
    &&& data.last() == delimiter
    &&& forall|i: int| 0 <= i < data.len() - 1 ==> data[i] != delimiter
}

/// Returns the position of the first occurrence of `target` in `v[from..to]`,
/// if any.
fn scan_for_byte(v: &Vec<u8>, from: usize, to: usize, target: u8) -> (r: Option<usize>)
    requires
        from <= to <= v@.len(),
    ensures
        match r {
            Some(i) => from <= i < to && v@[i as int] == target && forall|j: int|
                from <= j < i ==> v@[j] != target,
            None => forall|j: int| from <= j < to ==> v@[j] != target,
        },
{
    let mut i: usize = from;
    while i < to
        invariant
            from <= i <= to <= v.len(),
            forall|j: int| from <= j < i ==> v@[j] != target,
        decreases to - i,
    {
        if v[i] == target {
            return Some(i);
        }
        i += 1;
    }
    None
}

/// Returns an owned copy of `v[from..to]`.
pub(crate) fn copy_range(v: &Vec<u8>, from: usize, to: usize) -> (r: Vec<u8>)
    requires
        from <= to <= v@.len(),
    ensures
        r@ == v@.subrange(from as int, to as int),
{
    let mut r: Vec<u8> = Vec::new();
    let mut i: usize = from;
    while i < to
        invariant
            from <= i <= to <= v.len(),
            r@ == v@.subrange(from as int, i as int),
        decreases to - i,
    {
        let b = v[i];
        r.push(b);
        i += 1;
        proof {
            assert(r@ =~= v@.subrange(from as int, i as int));
        }
    }
    r
}

/// A dynamically sized buffer to read into from a [`ByteSource`] and safely
/// access the read data.
///
/// The buffer owns a resizable byte region and a filled-window cursor: the
/// window `[start, start + length)` holds bytes read from a source but not
/// yet handed out. [`read_bytes`] returns exactly the requested amount;
/// [`read_until`] returns everything up to and including a delimiter byte.
/// Both return owned copies of the consumed bytes, so no access to stale or
/// uninitialized region bytes is possible. The source is supplied on every
/// call, so one buffer can be reused across distinct sources; bytes buffered
/// from one call (including a failed one) are served first by the next call.
///
/// [`read_bytes`]: DynReadBuffer::read_bytes
/// [`read_until`]: DynReadBuffer::read_until
pub struct DynReadBuffer {
    buffer: Vec<u8>,
    filled_buffer_start: usize,
    filled_buffer_length: usize,
}

impl DynReadBuffer {
    /// The filled window lies inside the owned region.
    pub closed spec fn wf(&self) -> bool {
        self.filled_buffer_start + self.filled_buffer_length <= self.buffer@.len()
    }

    /// The bytes read from a source but not yet handed out, in order.
    pub closed spec fn pending(&self) -> Seq<u8> {
        self.buffer@.subrange(
            self.filled_buffer_start as int,
            self.filled_buffer_start + self.filled_buffer_length,
        )
    }

    /// Creates a new, empty buffer.
    pub fn new() -> (r: Self)
        ensures
            r.wf(),
            r.pending() == Seq::<u8>::empty(),
    {
        let r = DynReadBuffer { buffer: Vec::new(), filled_buffer_start: 0, filled_buffer_length: 0 };
        proof {
            assert(r.pending() =~= Seq::<u8>::empty());
        }
        r
    }

    /// Creates a new, empty buffer whose region starts out with at least the
    /// given capacity.
    pub fn with_capacity(capacity: usize) -> (r: Self)
        ensures
            r.wf(),
            r.pending() == Seq::<u8>::empty(),
    {
        let r = DynReadBuffer {
            buffer: vec![0u8; capacity],
            filled_buffer_start: 0,
            filled_buffer_length: 0,
        };
        proof {
            assert(r.pending() =~= Seq::<u8>::empty());
        }
        r
    }

    /// Makes room for at least `need` more bytes past the filled window's
    /// end, without touching the window's contents: spare capacity is reused
    /// in place when it suffices; otherwise, when the consumed prefix before
    /// the window is large enough, the window is shifted to the region's
    /// front; otherwise the region is extended with zero bytes. The region
    /// never shrinks.
    fn reserve(&mut self, need: usize)
        requires
            old(self).wf(),
        ensures
            final(self).wf(),
            final(self).pending() == old(self).pending(),
            final(self).filled_buffer_length == old(self).filled_buffer_length,
            final(self).filled_buffer_start + final(self).filled_buffer_length + need
                <= final(self).buffer@.len(),
            final(self).buffer@.len() >= old(self).buffer@.len(),
    {
        let buffer_len = self.buffer.len();
        let end = self.filled_buffer_start + self.filled_buffer_length;
        if buffer_len - end >= need {
            return ;
        }
        if self.filled_buffer_start >= need {
            // the consumed prefix alone is large enough: compact the window
            // to the front of the region
            let start = self.filled_buffer_start;
            let length = self.filled_buffer_length;
            let mut i: usize = 0;
            while i < length
                invariant
                    i <= length,
                    1 <= start,
                    start == self.filled_buffer_start == old(self).filled_buffer_start,
                    length == self.filled_buffer_length == old(self).filled_buffer_length,
                    start + length <= self.buffer@.len(),
                    self.buffer@.len() <= usize::MAX,
                    self.buffer@.len() == old(self).buffer@.len(),
                    forall|j: int| 0 <= j < i ==> #[trigger] self.buffer@[j] == old(self).buffer@[start + j],
                    forall|j: int|
                        i <= j < length ==> #[trigger] self.buffer@[start + j] == old(
                            self,
                        ).buffer@[start + j],
                decreases length - i,
            {
                let b = self.buffer[start + i];
                self.buffer[i] = b;
                i += 1;
            }
            self.filled_buffer_start = 0;
            proof {
                assert(self.pending() =~= old(self).pending());
            }
            return ;
        }
        // extend the region with zero bytes until the window is followed by
        // `need` spare bytes
        let mut missing = need - (buffer_len - end);
        while missing > 0
            invariant
                self.filled_buffer_start == old(self).filled_buffer_start,
                self.filled_buffer_length == old(self).filled_buffer_length,
                old(self).buffer@.is_prefix_of(self.buffer@),
                self.buffer@.len() + missing == old(self).filled_buffer_start + old(
                    self,
                ).filled_buffer_length + need,
            decreases missing,
        {
            self.buffer.push(0u8);
            missing -= 1;
        }
        proof {
            assert(self.pending() =~= old(self).pending());
        }
    }

    /// Reads exactly `amount` bytes and returns them, serving buffered bytes
    /// first and reading the shortfall from `source`.
    ///
    /// On success the returned bytes are the next `amount` bytes of the
    /// logical stream (buffered bytes followed by the source's), and exactly
    /// those are consumed. `amount == 0` succeeds immediately with an empty
    /// result and touches neither the buffer nor the source; a request the
    /// buffered bytes already cover succeeds without touching the source
    /// either. Over a source that cannot fail hard, the call must succeed
    /// whenever the stream holds `amount` bytes.
    ///
    /// # Errors
    ///
    /// If the source reaches end-of-stream before `amount` bytes were
    /// obtained, the call fails with [`ReadError::UnexpectedEof`]; that
    /// happens exactly when the logical stream is shorter than `amount`,
    /// unless a hard error of the source comes first. A hard error is passed
    /// on unchanged: the one returned is the first the source had in store.
    /// [`ReadError::Interrupted`] is retried transparently and never
    /// surfaces. No failure loses data: bytes read before the failure are
    /// preserved in the buffer, so the logical stream is exactly what it was
    /// before the call.
    pub fn read_bytes<R: ByteSource>(&mut self, source: &mut R, amount: usize) -> (r: Result<
        Vec<u8>,
        ReadError,
    >)
        requires
            old(self).wf(),
        ensures
            final(self).wf(),
            match r {
                Ok(data) => {
                    &&& exact_read(
                        old(self).pending() + old(source).remaining(),
                        amount as int,
                        data@,
                    )
                    &&& final(self).pending() + final(source).remaining() == (old(self).pending()
                        + old(source).remaining()).skip(amount as int)
                    &&& final(self).pending() == if amount <= old(self).pending().len() {
                        old(self).pending().skip(amount as int)
                    } else {
                        Seq::<u8>::empty()
                    }
                    &&& final(source).remaining() == if amount <= old(self).pending().len() {
                        old(source).remaining()
                    } else {
                        old(source).remaining().skip(amount - old(self).pending().len())
                    }
                },
                Err(e) => {
                    &&& e != ReadError::Interrupted
                    &&& final(self).pending() + final(source).remaining() == old(self).pending()
                        + old(source).remaining()
                    &&& old(self).pending().is_prefix_of(final(self).pending())
                    &&& (e == ReadError::UnexpectedEof ==> final(source).remaining().len() == 0
                        && old(self).pending().len() + old(source).remaining().len() < amount
                        && final(source).failures() == old(source).failures())
                    &&& (e matches ReadError::Other(code) ==> old(source).failures().len() > 0
                        && code == old(source).failures()[0] && final(source).failures() == old(
                        source,
                    ).failures().skip(1))
                },
            },
            amount == 0 ==> r is Ok && *final(self) == *old(self) && *final(source) == *old(
                source,
            ),
            amount <= old(self).pending().len() ==> r is Ok && *final(source) == *old(source),
            old(source).failures().len() == 0 && amount <= old(self).pending().len() + old(
                source,
            ).remaining().len() ==> r is Ok,
            old(source).failures().len() == 0 && amount > old(self).pending().len() + old(
                source,
            ).remaining().len() ==> (r matches Err(e) && e == ReadError::UnexpectedEof),
            r is Ok ==> final(source).failures() == old(source).failures(),
    {
        if amount == 0 {
            proof {
                let stream = self.pending() + source.remaining();
                assert(Seq::<u8>::empty() =~= stream.take(0));
                assert(stream =~= stream.skip(0));
            }
            return Ok(Vec::new());
        }
        if amount > self.filled_buffer_length {
            let shortfall = amount - self.filled_buffer_length;
            self.reserve(shortfall);
        }
        while self.filled_buffer_length < amount
            invariant
                self.wf(),
                1 <= amount,
                self.filled_buffer_start + amount <= self.buffer@.len(),
                self.buffer@.len() == self.buffer.len(),
                self.pending() + source.remaining() == old(self).pending() + old(
                    source,
                ).remaining(),
                old(self).pending().is_prefix_of(self.pending()),
                self.pending().len() <= amount || self.pending() == old(self).pending(),
                source.remaining() == old(source).remaining().skip(
                    self.pending().len() - old(self).pending().len(),
                ),
                source.failures() == old(source).failures(),
                old(self).pending().len() < amount || *source == *old(source),
            decreases source.remaining().len(), source.transients(),
        {
            let ghost prev_buf = *self;
            let ghost prev_src = *source;
            let end = self.filled_buffer_start + self.filled_buffer_length;
            let target = self.filled_buffer_start + amount;
            let res = source.read_into(&mut self.buffer, end, target);
            match res {
                Err(ReadError::Interrupted) => {
                    proof {
                        assert(self.pending() =~= prev_buf.pending());
                    }
                },
                Err(e) => {
                    proof {
                        assert(self.pending() =~= prev_buf.pending());
                    }
                    return Err(e);
                },
                Ok(n) => {
                    if n == 0 {
                        proof {
                            assert(self.pending() =~= prev_buf.pending());
                            assert((self.pending() + source.remaining()) =~= self.pending());
                        }
                        return Err(ReadError::UnexpectedEof);
                    }
                    self.filled_buffer_length = self.filled_buffer_length + n;
                    proof {
                        assert(self.pending() =~= prev_buf.pending() + prev_src.remaining().take(
                            n as int,
                        ));
                        assert((self.pending() + source.remaining()) =~= (prev_buf.pending()
                            + prev_src.remaining()));
                        assert(old(self).pending().is_prefix_of(self.pending()));
                        assert(source.remaining() =~= old(source).remaining().skip(
                            self.pending().len() - old(self).pending().len(),
                        ));
                    }
                },
            }
        }
        let result = copy_range(
            &self.buffer,
            self.filled_buffer_start,
            self.filled_buffer_start + amount,
        );
        let ghost filled = *self;
        self.filled_buffer_start = self.filled_buffer_start + amount;
        self.filled_buffer_length = self.filled_buffer_length - amount;
        proof {
            let stream = old(self).pending() + old(source).remaining();
            assert(result@ =~= filled.pending().take(amount as int));
            assert(result@ =~= stream.take(amount as int));
            assert(self.pending() =~= filled.pending().skip(amount as int));
            assert((self.pending() + source.remaining()) =~= stream.skip(amount as int));
            if amount <= old(self).pending().len() {
                assert(filled.pending() == old(self).pending());
                assert(self.pending() =~= old(self).pending().skip(amount as int));
            } else {
                assert(filled.pending().len() == amount);
                assert(self.pending() =~= Seq::<u8>::empty());
                assert(source.remaining() =~= old(source).remaining().skip(
                    amount - old(self).pending().len(),
                ));
            }
        }
        Ok(result)
    }

    /// Reads until `delimiter` is encountered and returns the bytes up to
    /// and including it, serving buffered bytes first.
    ///
    /// On success the returned bytes are the logical stream's prefix through
    /// the first occurrence of `delimiter` (buffered bytes followed by the
    /// source's), and exactly those are consumed. When the delimiter is
    /// already buffered, the source is not read at all. Otherwise reads are
    /// issued into at least [`READ_CHUNK`] bytes of headroom each, and only
    /// newly read bytes are scanned.
    ///
    /// Over a source that cannot fail hard, the call must succeed whenever
    /// the stream contains the delimiter.
    ///
    /// # Errors
    ///
    /// If the source reaches end-of-stream before the delimiter was seen,
    /// the call fails with [`ReadError::UnexpectedEof`]; that happens
    /// exactly when the logical stream contains no occurrence of the
    /// delimiter, unless a hard error of the source comes first. A hard
    /// error is passed on unchanged: the one returned is the first the
    /// source had in store. [`ReadError::Interrupted`] is retried
    /// transparently and never surfaces. No failure loses data: bytes read
    /// before the failure are preserved in the buffer, so the logical stream
    /// is exactly what it was before the call.
    pub fn read_until<R: ByteSource>(&mut self, source: &mut R, delimiter: u8) -> (r: Result<
        Vec<u8>,
        ReadError,
    >)
        requires
            old(self).wf(),
        ensures
            final(self).wf(),
            match r {
                Ok(data) => {
                    &&& delimited_prefix(
                        old(self).pending() + old(source).remaining(),
                        delimiter,
                        data@,
                    )
                    &&& final(self).pending() + final(source).remaining() == (old(self).pending()
                        + old(source).remaining()).skip(data@.len() as int)
                },
                Err(e) => {
                    &&& e != ReadError::Interrupted
                    &&& final(self).pending() + final(source).remaining() == old(self).pending()
                        + old(source).remaining()
                    &&& old(self).pending().is_prefix_of(final(self).pending())
                    &&& !final(self).pending().contains(delimiter)
                    &&& (e == ReadError::UnexpectedEof ==> final(source).remaining().len() == 0
                        && !(old(self).pending() + old(source).remaining()).contains(delimiter)
                        && final(source).failures() == old(source).failures())
                    &&& (e matches ReadError::Other(code) ==> old(source).failures().len() > 0
                        && code == old(source).failures()[0] && final(source).failures() == old(
                        source,
                    ).failures().skip(1))
                },
            },
            old(self).pending().contains(delimiter) ==> r is Ok && *final(source) == *old(source),
            old(source).failures().len() == 0 && (old(self).pending() + old(
                source,
            ).remaining()).contains(delimiter) ==> r is Ok,
            old(source).failures().len() == 0 && !(old(self).pending() + old(
                source,
            ).remaining()).contains(delimiter) ==> (r matches Err(e) && e
                == ReadError::UnexpectedEof),
            r is Ok ==> final(source).failures() == old(source).failures(),
    {
        let ghost stream = old(self).pending() + old(source).remaining();
        if self.filled_buffer_length > 0 {
            proof {
                assert(self.buffer@.len() == self.buffer.len());
            }
            let end = self.filled_buffer_start + self.filled_buffer_length;
            if let Some(position) = scan_for_byte(&self.buffer, self.filled_buffer_start, end, delimiter) {
                let result = copy_range(&self.buffer, self.filled_buffer_start, position + 1);
                let taken = position + 1 - self.filled_buffer_start;
                let ghost filled = *self;
                self.filled_buffer_start = position + 1;
                self.filled_buffer_length = self.filled_buffer_length - taken;
                proof {
                    assert(result@ =~= filled.pending().take(taken as int));
                    assert(result@ =~= stream.take(taken as int));
                    assert(self.pending() =~= filled.pending().skip(taken as int));
                    assert((self.pending() + source.remaining()) =~= stream.skip(taken as int));
                    assert(stream.contains(delimiter)) by {
                        assert(stream[taken - 1] == delimiter);
                    }
                }
                return Ok(result);
            }
        }
        loop
            invariant
                self.wf(),
                self.buffer@.len() == self.buffer.len(),
                self.pending() + source.remaining() == stream,
                old(self).pending().is_prefix_of(self.pending()),
                forall|j: int| 0 <= j < self.pending().len() ==> self.pending()[j] != delimiter,
                stream == old(self).pending() + old(source).remaining(),
                source.failures() == old(source).failures(),
            decreases source.remaining().len(), source.transients(),
        {
            self.reserve(READ_CHUNK);
            let ghost prev_buf = *self;
            let ghost prev_src = *source;
            let buffer_len = self.buffer.len();
            let end = self.filled_buffer_start + self.filled_buffer_length;
            let res = source.read_into(&mut self.buffer, end, buffer_len);
            match res {
                Err(ReadError::Interrupted) => {
                    proof {
                        assert(self.pending() =~= prev_buf.pending());
                    }
                },
                Err(e) => {
                    proof {
                        assert(self.pending() =~= prev_buf.pending());
                    }
                    return Err(e);
                },
                Ok(n) => {
                    if n == 0 {
                        proof {
                            assert(self.pending() =~= prev_buf.pending());
                            assert((self.pending() + source.remaining()) =~= self.pending());
                            assert(!self.pending().contains(delimiter)) by {
                                assert(forall|j: int|
                                    0 <= j < self.pending().len() ==> self.pending()[j]
                                        != delimiter);
                            }
                            assert(!stream.contains(delimiter)) by {
                                assert(stream =~= self.pending());
                            }
                        }
                        return Err(ReadError::UnexpectedEof);
                    }
                    self.filled_buffer_length = self.filled_buffer_length + n;
                    proof {
                        assert(self.pending() =~= prev_buf.pending() + prev_src.remaining().take(
                            n as int,
                        ));
                        assert((self.pending() + source.remaining()) =~= (prev_buf.pending()
                            + prev_src.remaining()));
                    }
                    if let Some(position) = scan_for_byte(&self.buffer, end, end + n, delimiter) {
                        let result = copy_range(&self.buffer, self.filled_buffer_start, position + 1);
                        let taken = position + 1 - self.filled_buffer_start;
                        let ghost filled = *self;
                        self.filled_buffer_start = position + 1;
                        self.filled_buffer_length = self.filled_buffer_length - taken;
                        proof {
                            assert(result@ =~= filled.pending().take(taken as int));
                            assert(result@ =~= stream.take(taken as int));
                            assert(forall|j: int|
                                0 <= j < taken - 1 ==> result@[j] != delimiter);
                            assert(self.pending() =~= filled.pending().skip(taken as int));
                            assert((self.pending() + source.remaining()) =~= stream.skip(
                                taken as int,
                            ));
                            assert(stream.contains(delimiter)) by {
                                assert(stream[taken - 1] == delimiter);
                            }
                        }
                        return Ok(result);
                    }
                    proof {
                        assert(forall|j: int|
                            0 <= j < self.pending().len() ==> self.pending()[j] != delimiter);
                    }
                },
            }
        }
    }
}

} // verus!
