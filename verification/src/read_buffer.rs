//! The fixed-capacity buffer: a single region of a size chosen at
//! construction, filled by one read call (or by several, under a predicate's
//! control), with no residue kept across calls.

use vstd::prelude::*;

use crate::dyn_read_buffer::copy_range;
use crate::errors::ReadError;
use crate::source::ByteSource;

verus! {

/// Decides, chunk by chunk, whether [`ReadBuffer::read_while`] keeps
/// reading.
pub trait ChunkPredicate: Sized {
    /// What the predicate answers, as a function of its current state and
    /// the chunk shown to it. The default approves everything; a choosier
    /// predicate overrides it.
    open spec fn decision(&self, chunk: Seq<u8>) -> bool {
        true
    }

    /// Called with each newly read chunk; returning `false` stops the read.
    /// The answer is the current state's decision on the chunk; the call may
    /// change the state (and so later decisions) however it likes.
    fn keep_reading(&mut self, chunk: &Vec<u8>) -> (r: bool)
        ensures
            r == old(self).decision(chunk@),
    ;
}

/// The predicate that always keeps reading: [`ReadBuffer::read_while`] with
/// it stops only when the region is full or the source is done.
pub struct KeepAll;

impl ChunkPredicate for KeepAll {
    fn keep_reading(&mut self, _chunk: &Vec<u8>) -> (r: bool) {
        true
    }
}

/// A buffer to read into from a [`ByteSource`] and safely access the read
/// data.
///
/// The buffer holds a single region of `SIZE` bytes. [`read_from`] performs
/// exactly one underlying read into the whole region and returns an owned
/// copy of what was read, so no access to stale or uninitialized region
/// bytes is possible. Every call starts the region afresh: nothing is kept
/// across calls.
///
/// [`read_from`]: ReadBuffer::read_from
#[derive(Debug)]
pub struct ReadBuffer<const SIZE: usize> {
    buffer: Vec<u8>,
}

impl<const SIZE: usize> ReadBuffer<SIZE> {
    /// The owned region has exactly the advertised size.
    pub closed spec fn wf(&self) -> bool {
        self.buffer@.len() == SIZE
    }

    /// Creates a new `ReadBuffer`.
    pub fn new() -> (r: Self)
        ensures
            r.wf(),
    {
        ReadBuffer { buffer: vec![0u8; SIZE] }
    }

    /// Performs one read from the given source into the whole region and
    /// returns what was read.
    ///
    /// The result is a prefix of the source's stream of whatever length the
    /// single underlying read reported; exactly those bytes are consumed. A
    /// result of length `0` means the source reached end-of-stream (unless
    /// `SIZE` is `0`), and only then can it be empty. Over a greedy source
    /// the length is exactly the smaller of `SIZE` and the stream's length.
    ///
    /// # Errors
    ///
    /// Any error of the single underlying read is passed on unchanged, with
    /// no bytes consumed; this method adds none of its own, so over a source
    /// with no failures in store the call must succeed.
    pub fn read_from<R: ByteSource>(&mut self, source: &mut R) -> (r: Result<Vec<u8>, ReadError>)
        requires
            old(self).wf(),
        ensures
            final(self).wf(),
            match r {
                Ok(data) => {
                    &&& data@.len() <= SIZE
                    &&& data@.len() <= old(source).remaining().len()
                    &&& data@ == old(source).remaining().take(data@.len() as int)
                    &&& final(source).remaining() == old(source).remaining().skip(
                        data@.len() as int,
                    )
                    &&& (data@.len() == 0 && SIZE > 0 ==> old(source).remaining().len() == 0)
                    &&& (old(source).greedy() ==> data@.len() == vstd::math::min(
                        SIZE as int,
                        old(source).remaining().len() as int,
                    ))
                    &&& final(source).failures() == old(source).failures()
                },
                Err(e) => {
                    &&& final(source).remaining() == old(source).remaining()
                    &&& e != ReadError::UnexpectedEof
                    &&& (e == ReadError::Interrupted ==> final(source).failures() == old(
                        source,
                    ).failures())
                    &&& (e matches ReadError::Other(code) ==> old(source).failures().len() > 0
                        && code == old(source).failures()[0] && final(source).failures() == old(
                        source,
                    ).failures().skip(1))
                },
            },
            old(source).failures().len() == 0 && old(source).transients() == 0 ==> r is Ok,
    {
        let region = self.buffer.len();
        let res = source.read_into(&mut self.buffer, 0, region);
        match res {
            Ok(n) => {
                let data = copy_range(&self.buffer, 0, n);
                proof {
                    assert(data@ =~= old(source).remaining().take(n as int));
                }
                Ok(data)
            },
            Err(e) => Err(e),
        }
    }

    /// Reads from the given source as long as `predicate` approves, filling
    /// the region, and returns everything read over all the underlying calls
    /// of this one invocation.
    ///
    /// The predicate is called with each newly read chunk (never with an
    /// empty one) and decides whether to keep reading. Reading also stops
    /// when the region is full or the source reaches end-of-stream. The
    /// result is a prefix of the source's stream, and exactly those bytes
    /// are consumed: an empty result means the source was already done
    /// (unless `SIZE` is `0`), and under a predicate that approves
    /// everything the read stops only on a full region or an exhausted
    /// source.
    ///
    /// # Errors
    ///
    /// Any error of an underlying read is passed on unchanged; this method
    /// adds none of its own, so over a source with no failures in store the
    /// call must succeed. Bytes read by earlier calls of the failed
    /// invocation are consumed from the source but not returned.
    pub fn read_while<R: ByteSource, P: ChunkPredicate>(
        &mut self,
        source: &mut R,
        predicate: &mut P,
    ) -> (r: Result<Vec<u8>, ReadError>)
        requires
            old(self).wf(),
        ensures
            final(self).wf(),
            match r {
                Ok(data) => {
                    &&& data@.len() <= SIZE
                    &&& data@.len() <= old(source).remaining().len()
                    &&& data@ == old(source).remaining().take(data@.len() as int)
                    &&& final(source).remaining() == old(source).remaining().skip(
                        data@.len() as int,
                    )
                    &&& (data@.len() == 0 && SIZE > 0 ==> old(source).remaining().len() == 0)
                    &&& ((forall|p: P, c: Seq<u8>| #[trigger] p.decision(c)) ==> data@.len()
                        == SIZE || final(source).remaining().len() == 0)
                },
                Err(e) => {
                    &&& e != ReadError::UnexpectedEof
                    &&& exists|k: int|
                        0 <= k <= SIZE && final(source).remaining() == old(
                            source,
                        ).remaining().skip(k)
                    &&& (e matches ReadError::Other(code) ==> old(source).failures().len() > 0
                        && code == old(source).failures()[0])
                },
            },
            old(source).failures().len() == 0 && old(source).transients() == 0 ==> r is Ok,
    {
        let mut filled: usize = 0;
        loop
            invariant
                self.wf(),
                filled <= SIZE,
                filled as int <= old(source).remaining().len(),
                self.buffer@.len() == self.buffer.len(),
                self.buffer@.subrange(0, filled as int) == old(source).remaining().take(
                    filled as int,
                ),
                source.remaining() == old(source).remaining().skip(filled as int),
                source.failures() == old(source).failures(),
                source.transients() <= old(source).transients(),
            ensures
                self.wf(),
                filled <= SIZE,
                filled as int <= old(source).remaining().len(),
                self.buffer@.subrange(0, filled as int) == old(source).remaining().take(
                    filled as int,
                ),
                source.remaining() == old(source).remaining().skip(filled as int),
                (forall|p: P, c: Seq<u8>| #[trigger] p.decision(c)) ==> filled == SIZE
                    || source.remaining().len() == 0,
                filled == 0 && SIZE > 0 ==> old(source).remaining().len() == 0,
                source.failures() == old(source).failures(),
            decreases source.remaining().len(),
        {
            let ghost prev_src = *source;
            let ghost prev_filled = filled as int;
            let ghost prev_buf = self.buffer@;
            let region = self.buffer.len();
            let res = source.read_into(&mut self.buffer, filled, region);
            match res {
                Err(e) => {
                    proof {
                        assert(source.remaining() == old(source).remaining().skip(filled as int)
                            && 0 <= filled <= SIZE);
                    }
                    return Err(e);
                },
                Ok(n) => {
                    if n == 0 {
                        break ;
                    }
                    let chunk = copy_range(&self.buffer, filled, filled + n);
                    filled = filled + n;
                    proof {
                        let s0 = old(source).remaining();
                        assert(chunk@ =~= prev_src.remaining().take(n as int));
                        assert(s0.skip(prev_filled).skip(n as int) =~= s0.skip(filled as int));
                        assert(source.remaining() == s0.skip(filled as int));
                        assert forall|j: int|
                            0 <= j < filled implies self.buffer@.subrange(0, filled as int)[j]
                            == s0.take(filled as int)[j] by {
                            if j < prev_filled {
                                assert(self.buffer@[j] == prev_buf[j]);
                                assert(prev_buf.subrange(0, prev_filled)[j] == prev_buf[j]);
                                assert(prev_buf.subrange(0, prev_filled)[j] == s0.take(
                                    prev_filled,
                                )[j]);
                            } else {
                                assert(self.buffer@.subrange(prev_filled, prev_filled + n)[j
                                    - prev_filled] == prev_src.remaining().take(n as int)[j
                                    - prev_filled]);
                                assert(self.buffer@[j] == prev_src.remaining()[j - prev_filled]);
                                assert(prev_src.remaining()[j - prev_filled] == s0.skip(
                                    prev_filled,
                                )[j - prev_filled]);
                            }
                        }
                        assert(self.buffer@.subrange(0, filled as int) =~= s0.take(filled as int));
                    }
                    let ghost asked = *predicate;
                    let keep = predicate.keep_reading(&chunk);
                    if !keep || filled == region {
                        proof {
                            if !keep {
                                assert(!asked.decision(chunk@));
                            }
                        }
                        break ;
                    }
                },
            }
        }
        let data = copy_range(&self.buffer, 0, filled);
        proof {
            assert(data@ =~= old(source).remaining().take(filled as int));
        }
        Ok(data)
    }

    /// Returns the capacity of the region, as set by the const generic.
    ///
    /// Useful to check whether a read filled the region completely or
    /// stopped early, without repeating the size.
    pub fn capacity(&self) -> (r: usize)
        ensures
            r == SIZE,
    {
        SIZE
    }
}

impl<const SIZE: usize> Default for ReadBuffer<SIZE> {
    /// Same as [`ReadBuffer::new`].
    fn default() -> (r: Self)
        ensures
            r.wf(),
    {
        ReadBuffer::new()
    }
}

} // verus!
