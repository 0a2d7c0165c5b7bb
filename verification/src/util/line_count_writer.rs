//! A counter of the lines that went through a writer.
use vstd::prelude::*;
use vstd::slice::slice_subrange;

verus! {

/// The number of newline bytes in `bytes`.
pub open spec fn newlines(bytes: Seq<u8>) -> nat
    decreases bytes.len(),
{
    if bytes.len() == 0 {
        0
    } else {
        newlines(bytes.drop_last()) + if bytes.last() == 0x0a {
            1nat
        } else {
            0nat
        }
    }
}

/// Counts the newline bytes in `bytes`.
pub fn count_newlines(bytes: &[u8]) -> (r: usize)
    ensures
        r == newlines(bytes@),
{
    let mut count: usize = 0;
    let mut i: usize = 0;
    assert(bytes@.take(0) =~= Seq::empty());
    while i < bytes.len()
        invariant
            i <= bytes@.len(),
            count == newlines(bytes@.take(i as int)),
            count <= i,
        decreases bytes@.len() - i,
    {
        proof {
            assert(bytes@.take(i + 1).drop_last() =~= bytes@.take(i as int));
            assert(bytes@.take(i + 1).last() == bytes@[i as int]);
        }
        if bytes[i] == 0x0a {
            count += 1;
        }
        i += 1;
    }
    assert(bytes@.take(i as int) =~= bytes@);
    count
}

/// Wraps a writer and counts how many newline bytes were written through it.
pub struct LineCountWriter<W> {
    inner: W,
    lines: usize,
}

impl<W> LineCountWriter<W> {
    /// The wrapped writer.
    pub closed spec fn spec_inner(&self) -> W {
        self.inner
    }

    /// The number of newline bytes written so far.
    pub closed spec fn spec_lines(&self) -> usize {
        self.lines
    }

    /// Create a new wrapper around `inner`, with no line counted.
    pub fn new(inner: W) -> (r: Self)
        ensures
            r.spec_inner() == inner,
            r.spec_lines() == 0,
    {
        LineCountWriter { inner, lines: 0 }
    }

    /// Number of newline bytes written so far.
    pub fn lines(&self) -> (r: usize)
        ensures
            r == self.spec_lines(),
    {
        self.lines
    }

    /// Unwraps, returning the inner writer and the final line count.
    pub fn into_inner(self) -> (r: (W, usize))
        ensures
            r.0 == self.spec_inner(),
            r.1 == self.spec_lines(),
    {
        (self.inner, self.lines)
    }

    /// The wrapped writer, to write through. What is written is then to be
    /// reported to `record`.
    pub fn inner_mut(&mut self) -> (r: &mut W)
        ensures
            *r == old(self).spec_inner(),
            final(self).spec_inner() == *final(r),
            final(self).spec_lines() == old(self).spec_lines(),
    {
        &mut self.inner
    }

    /// Counts the newline bytes among the first `written` bytes of `buf`: the
    /// bytes that the wrapped writer took of it.
    pub fn record(&mut self, buf: &[u8], written: usize)
        requires
            written <= buf@.len(),
            old(self).spec_lines() + newlines(buf@.take(written as int)) <= usize::MAX,
        ensures
            final(self).spec_lines() == old(self).spec_lines() + newlines(
                buf@.take(written as int),
            ),
            final(self).spec_inner() == old(self).spec_inner(),
    {
        // Only count in the bytes actually written.
        let taken = slice_subrange(buf, 0, written);
        assert(taken@ =~= buf@.take(written as int));
        self.lines = self.lines + count_newlines(taken);
    }
}

} // verus!
