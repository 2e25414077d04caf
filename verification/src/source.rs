//! The byte-source abstraction the buffers read from, and two ready-made
//! sources backed by in-memory data.

use vstd::prelude::*;

use crate::errors::ReadError;

verus! {

/// A blocking source of bytes.
///
/// A source models a stream: `remaining()` is the sequence of bytes it will
/// still produce, in order. One call to [`read_into`] hands out a prefix of
/// that sequence. The contract mirrors the usual blocking-read rules:
///
/// - a successful read of `n` bytes wrote the next `n` stream bytes into
///   `buf[from..from + n]` and left the rest of `buf` untouched;
/// - a short read (`n` less than `to - from`) is always legal;
/// - `Ok(0)` with room to write means end-of-stream: no more bytes will
///   ever be produced, so `remaining()` was already empty;
/// - a failed read consumes no bytes;
/// - `transients()` bounds how many `Interrupted` failures the source may
///   still report; each one consumes a unit of that budget, which is what
///   lets the retry loops in this crate terminate, and a successful read
///   plans no new ones;
/// - `failures()` lists the codes of the hard errors the source may still
///   report, in order: each hard failure hands out the first of them, and a
///   source whose list is empty cannot fail hard - which is what obliges
///   the buffers to succeed over such a source;
/// - a greedy source (`greedy()`) hands out on every call as many bytes as
///   fit, so its read lengths are exactly determined;
/// - `UnexpectedEof` is reserved for the buffers themselves: a source
///   signals end-of-stream with `Ok(0)`, never with that error.
///
/// [`read_into`]: ByteSource::read_into
pub trait ByteSource: Sized {
    /// The bytes this source will still produce, in order. The default says
    /// the source is exhausted; a source with anything to offer overrides it.
    open spec fn remaining(&self) -> Seq<u8> {
        Seq::empty()
    }

    /// How many transient `Interrupted` failures may still be reported. The
    /// default says none; a source that can be interrupted overrides it.
    open spec fn transients(&self) -> nat {
        0
    }

    /// The codes of the hard errors this source may still report, in order.
    /// The default says it cannot fail hard; a source that can overrides it.
    open spec fn failures(&self) -> Seq<u64> {
        Seq::empty()
    }

    /// Whether every read hands out as many bytes as the destination and
    /// the stream allow. The default promises nothing; a source whose read
    /// lengths are exactly determined overrides it.
    open spec fn greedy(&self) -> bool {
        false
    }

    /// Reads at most `to - from` bytes into `buf[from..to]` and reports how
    /// many were read.
    fn read_into(&mut self, buf: &mut Vec<u8>, from: usize, to: usize) -> (r: Result<
        usize,
        ReadError,
    >)
        requires
            from <= to <= old(buf)@.len(),
        ensures
            final(buf)@.len() == old(buf)@.len(),
            final(self).greedy() == old(self).greedy(),
            match r {
                Ok(n) => {
                    &&& n <= to - from
                    &&& n <= old(self).remaining().len()
                    &&& final(buf)@.subrange(from as int, from + n) == old(self).remaining().take(
                        n as int,
                    )
                    &&& final(self).remaining() == old(self).remaining().skip(n as int)
                    &&& (n == 0 && from < to ==> old(self).remaining().len() == 0)
                    &&& (old(self).greedy() ==> n == vstd::math::min(
                        (to - from) as int,
                        old(self).remaining().len() as int,
                    ))
                    &&& final(self).failures() == old(self).failures()
                    &&& final(self).transients() <= old(self).transients()
                    &&& forall|i: int|
                        0 <= i < final(buf)@.len() && !(from <= i < from + n) ==> final(buf)@[i]
                            == old(buf)@[i]
                },
                Err(e) => {
                    &&& final(self).remaining() == old(self).remaining()
                    &&& final(buf)@ == old(buf)@
                    &&& e != ReadError::UnexpectedEof
                    &&& (e == ReadError::Interrupted ==> final(self).transients() < old(
                        self,
                    ).transients() && final(self).failures() == old(self).failures())
                    &&& (e matches ReadError::Other(code) ==> old(self).failures().len() > 0
                        && code == old(self).failures()[0] && final(self).failures() == old(
                        self,
                    ).failures().skip(1))
                },
            },
    ;
}

/// Copies `src[src_pos..src_pos + n]` into `buf[from..from + n]`, leaving the
/// rest of `buf` untouched.
fn copy_into(src: &Vec<u8>, src_pos: usize, buf: &mut Vec<u8>, from: usize, n: usize)
    requires
        src_pos + n <= src@.len(),
        from + n <= old(buf)@.len(),
    ensures
        final(buf)@.len() == old(buf)@.len(),
        final(buf)@.subrange(from as int, from + n) == src@.subrange(src_pos as int, src_pos + n),
        forall|i: int|
            0 <= i < old(buf)@.len() && !(from <= i < from + n) ==> final(buf)@[i] == old(buf)@[i],
{
    let mut i: usize = 0;
    while i < n
        invariant
            i <= n,
            src_pos + n <= src.len(),
            from + n <= buf.len(),
            buf@.len() == old(buf)@.len(),
            forall|j: int| 0 <= j < i ==> #[trigger] buf@[from + j] == src@[src_pos + j],
            forall|j: int|
                0 <= j < buf@.len() && !(from <= j < from + i) ==> buf@[j] == old(buf)@[j],
        decreases n - i,
    {
        let b = src[src_pos + i];
        buf[from + i] = b;
        i += 1;
    }
    proof {
        assert forall|k: int|
            0 <= k < n implies #[trigger] buf@.subrange(from as int, from + n)[k] == src@.subrange(
            src_pos as int,
            src_pos + n,
        )[k] by {
            assert(buf@[from + k] == src@[src_pos + k]);
        }
        assert(buf@.subrange(from as int, from + n) =~= src@.subrange(src_pos as int, src_pos + n));
    }
}

/// A source that yields a fixed byte sequence, as much of it per call as the
/// destination has room for. It never fails.
pub struct SliceSource {
    data: Vec<u8>,
    pos: usize,
}

impl SliceSource {
    #[verifier::type_invariant]
    spec fn wf(&self) -> bool {
        self.pos <= self.data@.len()
    }

    /// Creates a source that will produce exactly `data`.
    pub fn new(data: Vec<u8>) -> (r: Self)
        ensures
            r.remaining() == data@,
            r.transients() == 0,
            r.failures() == Seq::<u64>::empty(),
            r.greedy(),
    {
        SliceSource { data, pos: 0 }
    }
}

impl ByteSource for SliceSource {
    closed spec fn remaining(&self) -> Seq<u8> {
        self.data@.skip(self.pos as int)
    }

    closed spec fn transients(&self) -> nat {
        0
    }

    closed spec fn failures(&self) -> Seq<u64> {
        Seq::empty()
    }

    closed spec fn greedy(&self) -> bool {
        true
    }

    fn read_into(&mut self, buf: &mut Vec<u8>, from: usize, to: usize) -> (r: Result<
        usize,
        ReadError,
    >) {
        proof {
            use_type_invariant(&*self);
        }
        let space = to - from;
        let rest = self.data.len() - self.pos;
        let n = if space < rest {
            space
        } else {
            rest
        };
        copy_into(&self.data, self.pos, buf, from, n);
        proof {
            assert(self.data@.subrange(self.pos as int, self.pos + n) =~= old(
                self,
            ).remaining().take(n as int));
        }
        self.pos = self.pos + n;
        proof {
            assert(self.remaining() =~= old(self).remaining().skip(n as int));
        }
        Ok(n)
    }
}

/// One planned behavior of a [`ChunkedSource`] call.
#[derive(Clone, Copy)]
enum Step {
    /// Hand out up to this many of the queued bytes.
    Give(usize),
    /// Report one transient `Interrupted` failure.
    Interrupt,
    /// Report a hard error with this code.
    Fail(u64),
}

/// How many `Interrupt` steps a plan still holds.
spec fn interrupts_in(steps: Seq<Step>) -> nat
    decreases steps.len(),
{
    if steps.len() == 0 {
        0
    } else {
        (if steps[0] is Interrupt {
            1nat
        } else {
            0nat
        }) + interrupts_in(steps.skip(1))
    }
}

proof fn lemma_interrupts_in_push(steps: Seq<Step>, step: Step)
    ensures
        interrupts_in(steps.push(step)) == interrupts_in(steps) + (if step is Interrupt {
            1nat
        } else {
            0nat
        }),
    decreases steps.len(),
{
    if steps.len() == 0 {
        assert(steps.push(step)[0] == step);
        assert(steps.push(step).skip(1) =~= Seq::<Step>::empty());
        assert(interrupts_in(steps.push(step)) == (if step is Interrupt {
            1nat
        } else {
            0nat
        }) + interrupts_in(steps.push(step).skip(1)));
    } else {
        assert(steps.push(step)[0] == steps[0]);
        assert(steps.push(step).skip(1) =~= steps.skip(1).push(step));
        lemma_interrupts_in_push(steps.skip(1), step);
        assert(interrupts_in(steps.push(step)) == (if steps[0] is Interrupt {
            1nat
        } else {
            0nat
        }) + interrupts_in(steps.push(step).skip(1)));
    }
}

/// The codes of the `Fail` steps a plan still holds, in order.
spec fn fail_codes_in(steps: Seq<Step>) -> Seq<u64>
    decreases steps.len(),
{
    if steps.len() == 0 {
        Seq::empty()
    } else {
        (match steps[0] {
            Step::Fail(code) => seq![code],
            _ => Seq::empty(),
        }) + fail_codes_in(steps.skip(1))
    }
}

proof fn lemma_fail_codes_in_push(steps: Seq<Step>, step: Step)
    ensures
        fail_codes_in(steps.push(step)) == fail_codes_in(steps) + (match step {
            Step::Fail(code) => seq![code],
            _ => Seq::<u64>::empty(),
        }),
    decreases steps.len(),
{
    if steps.len() == 0 {
        assert(steps.push(step)[0] == step);
        assert(steps.push(step).skip(1) =~= Seq::<Step>::empty());
        assert(fail_codes_in(steps.push(step)) == (match step {
            Step::Fail(code) => seq![code],
            _ => Seq::<u64>::empty(),
        }) + fail_codes_in(steps.push(step).skip(1)));
        assert(fail_codes_in(steps.push(step)) =~= fail_codes_in(steps) + (match step {
            Step::Fail(code) => seq![code],
            _ => Seq::<u64>::empty(),
        }));
    } else {
        assert(steps.push(step)[0] == steps[0]);
        assert(steps.push(step).skip(1) =~= steps.skip(1).push(step));
        lemma_fail_codes_in_push(steps.skip(1), step);
        assert(fail_codes_in(steps.push(step)) == (match steps[0] {
            Step::Fail(code) => seq![code],
            _ => Seq::<u64>::empty(),
        }) + fail_codes_in(steps.push(step).skip(1)));
        assert(fail_codes_in(steps.push(step)) =~= fail_codes_in(steps) + (match step {
            Step::Fail(code) => seq![code],
            _ => Seq::<u64>::empty(),
        }));
    }
}

/// A source that yields a fixed byte sequence in scripted portions, with
/// scripted failures in between.
///
/// Each queued chunk is handed out by one or more calls (a call takes at most
/// the chunk's planned amount, less when the destination is smaller; what a
/// call could not take is offered again by the next one). A queued interrupt
/// or error makes exactly one call fail, consuming no bytes. Once the script
/// and the bytes are exhausted, calls report end-of-stream; queuing more
/// afterwards makes the source produce again.
pub struct ChunkedSource {
    data: Vec<u8>,
    pos: usize,
    steps: Vec<Step>,
    step_head: usize,
}

impl ChunkedSource {
    /// Creates a source with nothing queued.
    pub fn new() -> (r: Self)
        ensures
            r.remaining() == Seq::<u8>::empty(),
            r.transients() == 0,
            r.failures() == Seq::<u64>::empty(),
    {
        let r = ChunkedSource { data: Vec::new(), pos: 0, steps: Vec::new(), step_head: 0 };
        proof {
            assert(r.remaining() =~= Seq::<u8>::empty());
        }
        r
    }

    /// Brings the cursors back into range; on any value these methods ever
    /// produce this changes nothing.
    fn normalize(&mut self)
        ensures
            final(self).data == old(self).data,
            final(self).steps == old(self).steps,
            final(self).pos <= final(self).data@.len(),
            final(self).step_head <= final(self).steps@.len(),
            final(self).remaining() == old(self).remaining(),
            final(self).transients() == old(self).transients(),
            final(self).failures() == old(self).failures(),
    {
        if self.pos > self.data.len() {
            self.pos = self.data.len();
            proof {
                assert(self.data@.skip(self.data@.len() as int) =~= Seq::<u8>::empty());
            }
        }
        if self.step_head > self.steps.len() {
            self.step_head = self.steps.len();
            proof {
                assert(self.steps@.skip(self.steps@.len() as int) =~= Seq::<Step>::empty());
            }
        }
    }

    /// Queues a chunk of bytes to be handed out after everything queued so
    /// far.
    pub fn add_chunk(&mut self, chunk: Vec<u8>)
        ensures
            final(self).remaining() == old(self).remaining() + chunk@,
            final(self).transients() == old(self).transients(),
            final(self).failures() == old(self).failures(),
    {
        self.normalize();
        let ghost base = *self;
        let amount = chunk.len();
        if amount == 0 {
            proof {
                assert(self.remaining() =~= old(self).remaining() + chunk@);
            }
            return ;
        }
        let mut tail = chunk;
        self.data.append(&mut tail);
        self.steps.push(Step::Give(amount));
        proof {
            assert(self.remaining() =~= base.remaining() + chunk@);
            lemma_interrupts_in_push(
                base.steps@.skip(base.step_head as int),
                Step::Give(amount as usize),
            );
            lemma_fail_codes_in_push(
                base.steps@.skip(base.step_head as int),
                Step::Give(amount as usize),
            );
            assert(self.steps@.skip(self.step_head as int) =~= base.steps@.skip(
                base.step_head as int,
            ).push(Step::Give(amount as usize)));
            assert(self.failures() =~= base.failures());
        }
    }

    /// Queues one transient `Interrupted` failure.
    pub fn add_interrupt(&mut self)
        ensures
            final(self).remaining() == old(self).remaining(),
            final(self).transients() == old(self).transients() + 1,
            final(self).failures() == old(self).failures(),
    {
        self.normalize();
        let ghost base = *self;
        self.steps.push(Step::Interrupt);
        proof {
            lemma_interrupts_in_push(base.steps@.skip(base.step_head as int), Step::Interrupt);
            lemma_fail_codes_in_push(base.steps@.skip(base.step_head as int), Step::Interrupt);
            assert(self.steps@.skip(self.step_head as int) =~= base.steps@.skip(
                base.step_head as int,
            ).push(Step::Interrupt));
            assert(self.failures() =~= base.failures());
        }
    }

    /// Queues one hard failure carrying the given error code.
    pub fn add_error(&mut self, code: u64)
        ensures
            final(self).remaining() == old(self).remaining(),
            final(self).transients() == old(self).transients(),
            final(self).failures() == old(self).failures().push(code),
    {
        self.normalize();
        let ghost base = *self;
        self.steps.push(Step::Fail(code));
        proof {
            lemma_interrupts_in_push(base.steps@.skip(base.step_head as int), Step::Fail(code));
            lemma_fail_codes_in_push(base.steps@.skip(base.step_head as int), Step::Fail(code));
            assert(self.steps@.skip(self.step_head as int) =~= base.steps@.skip(
                base.step_head as int,
            ).push(Step::Fail(code)));
            assert(self.failures() =~= base.failures().push(code));
        }
    }
}

impl ByteSource for ChunkedSource {
    closed spec fn remaining(&self) -> Seq<u8> {
        if self.pos <= self.data@.len() {
            self.data@.skip(self.pos as int)
        } else {
            Seq::empty()
        }
    }

    closed spec fn transients(&self) -> nat {
        if self.step_head <= self.steps@.len() {
            interrupts_in(self.steps@.skip(self.step_head as int))
        } else {
            0
        }
    }

    closed spec fn failures(&self) -> Seq<u64> {
        if self.step_head <= self.steps@.len() {
            fail_codes_in(self.steps@.skip(self.step_head as int))
        } else {
            Seq::empty()
        }
    }

    closed spec fn greedy(&self) -> bool {
        false
    }

    fn read_into(&mut self, buf: &mut Vec<u8>, from: usize, to: usize) -> (r: Result<
        usize,
        ReadError,
    >) {
        self.normalize();
        let ghost base = *self;
        let space = to - from;
        let rest = self.data.len() - self.pos;
        if self.step_head < self.steps.len() {
            let step = self.steps[self.step_head];
            match step {
                Step::Interrupt => {
                    proof {
                        let s = self.steps@;
                        let h = self.step_head as int;
                        assert(s.skip(h)[0] == s[h]);
                        assert(s.skip(h).skip(1) =~= s.skip(h + 1));
                    }
                    self.step_head = self.step_head + 1;
                    return Err(ReadError::Interrupted);
                },
                Step::Fail(code) => {
                    proof {
                        let s = self.steps@;
                        let h = self.step_head as int;
                        assert(s.skip(h)[0] == s[h]);
                        assert(s.skip(h).skip(1) =~= s.skip(h + 1));
                        assert(fail_codes_in(s.skip(h)) == seq![code] + fail_codes_in(
                            s.skip(h + 1),
                        ));
                        assert(fail_codes_in(s.skip(h))[0] == code);
                        assert(fail_codes_in(s.skip(h)).skip(1) =~= fail_codes_in(s.skip(h + 1)));
                    }
                    self.step_head = self.step_head + 1;
                    return Err(ReadError::Other(code));
                },
                Step::Give(k) => {
                    let planned = if k == 0 {
                        1
                    } else {
                        k
                    };
                    let n = planned_portion(planned, space, rest);
                    copy_into(&self.data, self.pos, buf, from, n);
                    proof {
                        assert(self.data@.subrange(self.pos as int, self.pos + n) =~= old(
                            self,
                        ).remaining().take(n as int));
                    }
                    if n < planned {
                        // the destination could not take the whole planned
                        // portion: offer the rest on the next call
                        self.steps[self.step_head] = Step::Give(planned - n);
                        proof {
                            let s = base.steps@;
                            let t = self.steps@;
                            let h = base.step_head as int;
                            assert(s.skip(h)[0] == s[h]);
                            assert(t.skip(h)[0] == t[h]);
                            assert(s.skip(h).skip(1) =~= s.skip(h + 1));
                            assert(t.skip(h).skip(1) =~= t.skip(h + 1));
                            assert(t.skip(h + 1) =~= s.skip(h + 1));
                            assert(self.failures() =~= base.failures());
                            assert(self.transients() == base.transients());
                        }
                    } else {
                        self.step_head = self.step_head + 1;
                        proof {
                            let s = base.steps@;
                            let h = base.step_head as int;
                            assert(s.skip(h)[0] == s[h]);
                            assert(s.skip(h).skip(1) =~= s.skip(h + 1));
                            assert(self.failures() =~= base.failures());
                            assert(self.transients() == base.transients());
                        }
                    }
                    self.pos = self.pos + n;
                    proof {
                        assert(self.remaining() =~= old(self).remaining().skip(n as int));
                    }
                    return Ok(n);
                },
            }
        }
        // nothing scripted: hand out as much as fits
        let n = planned_portion(rest, space, rest);
        copy_into(&self.data, self.pos, buf, from, n);
        proof {
            assert(self.data@.subrange(self.pos as int, self.pos + n) =~= old(
                self,
            ).remaining().take(n as int));
        }
        self.pos = self.pos + n;
        proof {
            assert(self.remaining() =~= old(self).remaining().skip(n as int));
        }
        Ok(n)
    }
}

/// The smallest of a planned amount, the destination's space and the bytes
/// still queued.
fn planned_portion(planned: usize, space: usize, rest: usize) -> (n: usize)
    ensures
        n == vstd::math::min(vstd::math::min(planned as int, space as int), rest as int),
{
    let mut n = planned;
    if space < n {
        n = space;
    }
    if rest < n {
        n = rest;
    }
    n
}

} // verus!
