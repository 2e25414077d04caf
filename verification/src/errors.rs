//! The error values that reads can surface.

use vstd::prelude::*;

verus! {

/// What a read call can fail with.
///
/// `UnexpectedEof` is raised by the buffers themselves when the source ends
/// before an exact-length or delimiter-bounded request was satisfied.
/// `Interrupted` is a transient condition a source may report; the growable
/// buffer retries it transparently. `Other` carries an opaque, source-defined
/// error code, propagated verbatim.
#[derive(Clone, Copy, Debug, PartialEq, Eq, Structural)]
pub enum ReadError {
    /// The source signaled end-of-stream before the request was satisfied.
    UnexpectedEof,
    /// A transient condition: retrying the same read may succeed.
    Interrupted,
    /// An opaque, source-defined hard error.
    Other(u64),
}

} // verus!
