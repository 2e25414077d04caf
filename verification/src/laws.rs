//! Laws relating the buffer operations across calls, stated over the logical
//! stream model that the operations' contracts use.
//!
//! A buffer paired with a source reads from a logical stream: the buffered
//! bytes followed by the source's remaining bytes. Successful calls return
//! `exact_read` or `delimited_prefix` results of that stream and leave the
//! stream's rest; failed calls leave the stream whole. Everything here
//! follows from those contracts alone.

use vstd::prelude::*;

use crate::dyn_read_buffer::delimited_prefix;
use crate::dyn_read_buffer::exact_read;

verus! {

/// Law: successive exact-length reads are exact over their concatenation -
/// the data of a read of `first` bytes followed by the data of a read of
/// `second` bytes against the stream's rest is, in order and without gaps,
/// the data of one read of `first + second` bytes. By induction, the
/// concatenation of any sequence of successful `read_bytes` results equals
/// the stream's bytes in order.
pub proof fn lemma_exact_reads_chain(
    stream: Seq<u8>,
    first: int,
    second: int,
    data1: Seq<u8>,
    data2: Seq<u8>,
)
    requires
        exact_read(stream, first, data1),
        exact_read(stream.skip(first), second, data2),
    ensures
        exact_read(stream, first + second, data1 + data2),
{
    assert((data1 + data2) =~= stream.take(first + second));
}

/// Law: an exact-length read's data is determined by the stream and the
/// amount alone - any two successful reads of the same amount against the
/// same stream return the same bytes, however the source split them into
/// portions and whatever transient failures it reported along the way.
pub proof fn lemma_read_bytes_deterministic(
    stream: Seq<u8>,
    amount: int,
    data1: Seq<u8>,
    data2: Seq<u8>,
)
    requires
        exact_read(stream, amount, data1),
        exact_read(stream, amount, data2),
    ensures
        data1 == data2,
{
}

/// Law: a delimiter-bounded read's data is determined by the stream and the
/// delimiter alone - any two successful reads against the same stream return
/// the same bytes, however the source split the stream into portions and
/// whatever transient failures it reported along the way.
pub proof fn lemma_read_until_deterministic(
    stream: Seq<u8>,
    delimiter: u8,
    data1: Seq<u8>,
    data2: Seq<u8>,
)
    requires
        delimited_prefix(stream, delimiter, data1),
        delimited_prefix(stream, delimiter, data2),
    ensures
        data1 == data2,
{
    if data1.len() < data2.len() {
        assert(data2[data1.len() - 1] == stream[data1.len() - 1]);
        assert(data1[data1.len() - 1] == stream[data1.len() - 1]);
    }
    if data2.len() < data1.len() {
        assert(data1[data2.len() - 1] == stream[data2.len() - 1]);
        assert(data2[data2.len() - 1] == stream[data2.len() - 1]);
    }
    assert(data1 =~= data2);
}

/// Law: a failed read loses nothing - since a failed call leaves the logical
/// stream exactly as it was, a successful retry returns what an undisturbed
/// call would have: data from before and after the failure in order, with no
/// gap, duplication or reordering.
pub proof fn lemma_error_preserves_residue(
    stream: Seq<u8>,
    stream_after_error: Seq<u8>,
    delimiter: u8,
    data: Seq<u8>,
)
    requires
        stream_after_error == stream,
        delimited_prefix(stream_after_error, delimiter, data),
    ensures
        delimited_prefix(stream, delimiter, data),
{
}

/// Law: reads continue where a delimiter-bounded read stopped - after a
/// successful delimiter-bounded read, an exact-length read of the stream's
/// rest returns the bytes immediately after the delimiter, never bytes from
/// before it.
pub proof fn lemma_mixed_mode_continuation(
    stream: Seq<u8>,
    delimiter: u8,
    data: Seq<u8>,
    amount: int,
    tail: Seq<u8>,
)
    requires
        delimited_prefix(stream, delimiter, data),
        exact_read(stream.skip(data.len() as int), amount, tail),
    ensures
        tail == stream.subrange(data.len() as int, data.len() + amount),
        data + tail == stream.take(data.len() + amount),
{
    assert(tail =~= stream.subrange(data.len() as int, data.len() + amount));
    assert((data + tail) =~= stream.take(data.len() + amount));
}

} // verus!
