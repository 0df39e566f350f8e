//! Compression and decompression with runtime parameters.
use vstd::prelude::*;

use crate::error::LzssError;
use crate::model::{compressed, decompressed};
use crate::params::LzssDyn;
use crate::stream::{Read, Write};

verus! {

/// Sets `buffer[..len]` to `c`.
fn fill_prefix(buffer: &mut [u8], len: usize, c: u8)
    requires
        len <= old(buffer)@.len(),
    ensures
        final(buffer)@.len() == old(buffer)@.len(),
        forall|i: int| 0 <= i < len ==> #[trigger] final(buffer)@[i] == c,
{
    let mut i: usize = 0;
    while i < len
        invariant
            i <= len <= buffer@.len(),
            buffer@.len() == old(buffer)@.len(),
            forall|j: int| 0 <= j < i ==> #[trigger] buffer@[j] == c,
        decreases len - i,
    {
        buffer[i] = c;
        i = i + 1;
    }
}

impl LzssDyn {
    /// Compresses everything `reader` yields into `writer`, with a window of
    /// `2 * 2^ei` bytes on the heap. On success the writer received exactly the
    /// compressed form of the bytes read, and its output is returned.
    pub fn compress<R: Read, W: Write>(&self, reader: R, writer: W) -> (res: Result<
        W::Output,
        LzssError<R::Error, W::Error>,
    >)
        requires
            self.wf(),
        ensures
            res matches Ok(out) ==> exists|w2: W|
                #![trigger w2.written()]
                {
                    &&& w2.written() == writer.written() + compressed(*self, reader.rest())
                    &&& w2.output_of(out)
                },
            reader.never_fails() && writer.never_fails() ==> res is Ok,
            res matches Err(LzssError::ReadError(e)) ==> !reader.never_fails() && exists|r2: R|
                #![trigger r2.error()]
                r2.error() == Some(e),
            res matches Err(LzssError::WriteError(e)) ==> !writer.never_fails() && exists|w2: W|
                #![trigger w2.error()]
                #![trigger w2.finish_error()]
                w2.error() == Some(e) || w2.finish_error() == Some(e),
    {
        proof {
            self.lemma_sizes();
        }
        let mut buffer = vec![self.c; 2 * self.n()];
        self.compress_with_buffer(reader, writer, buffer.as_mut_slice())
    }

    /// Compresses everything `reader` yields into `writer`, using `buffer` (at least
    /// `2 * 2^ei` bytes) as the window.
    pub fn compress_with_buffer<R: Read, W: Write>(
        &self,
        reader: R,
        writer: W,
        buffer: &mut [u8],
    ) -> (res: Result<W::Output, LzssError<R::Error, W::Error>>)
        requires
            self.wf(),
            old(buffer)@.len() >= 2 * self.n_spec(),
        ensures
            res matches Ok(out) ==> exists|w2: W|
                #![trigger w2.written()]
                {
                    &&& w2.written() == writer.written() + compressed(*self, reader.rest())
                    &&& w2.output_of(out)
                },
            reader.never_fails() && writer.never_fails() ==> res is Ok,
            res matches Err(LzssError::ReadError(e)) ==> !reader.never_fails() && exists|r2: R|
                #![trigger r2.error()]
                r2.error() == Some(e),
            res matches Err(LzssError::WriteError(e)) ==> !writer.never_fails() && exists|w2: W|
                #![trigger w2.error()]
                #![trigger w2.finish_error()]
                w2.error() == Some(e) || w2.finish_error() == Some(e),
    {
        proof {
            self.lemma_sizes();
        }
        let mut reader = reader;
        let mut writer = writer;
        let ghost r0 = reader;
        let ghost w0 = writer;
        fill_prefix(buffer, self.n() - self.f(), self.c);
        match self.compress_internal(&mut reader, &mut writer, buffer) {
            Ok(()) => {},
            Err(e) => {
                proof {
                    assert(e matches LzssError::ReadError(x) ==> reader.error() == Some(x));
                    assert(e matches LzssError::WriteError(x) ==> writer.error() == Some(x));
                }
                return Err(e);
            },
        }
        let ghost r2 = reader;
        let ghost w2 = writer;
        match writer.finish() {
            Ok(out) => {
                proof {
                    assert(w2.written() == w0.written() + compressed(*self, r0.rest()));
                    assert(w2.output_of(out));
                }
                Ok(out)
            },
            Err(e) => {
                proof {
                    assert(w2.finish_error() == Some(e));
                }
                Err(LzssError::WriteError(e))
            },
        }
    }

    /// Decompresses everything `reader` yields into `writer`, with a window of
    /// `2^ei` bytes on the heap. On success the writer received exactly the
    /// decompressed form of the bytes read, and its output is returned.
    pub fn decompress<R: Read, W: Write>(&self, reader: R, writer: W) -> (res: Result<
        W::Output,
        LzssError<R::Error, W::Error>,
    >)
        requires
            self.wf(),
        ensures
            res matches Ok(out) ==> exists|w2: W|
                #![trigger w2.written()]
                {
                    &&& w2.written() == writer.written() + decompressed(*self, reader.rest())
                    &&& w2.output_of(out)
                },
            reader.never_fails() && writer.never_fails() ==> res is Ok,
            res matches Err(LzssError::ReadError(e)) ==> !reader.never_fails() && exists|r2: R|
                #![trigger r2.error()]
                r2.error() == Some(e),
            res matches Err(LzssError::WriteError(e)) ==> !writer.never_fails() && exists|w2: W|
                #![trigger w2.error()]
                #![trigger w2.finish_error()]
                w2.error() == Some(e) || w2.finish_error() == Some(e),
    {
        proof {
            self.lemma_sizes();
        }
        let mut buffer = vec![self.c; self.n()];
        self.decompress_with_buffer(reader, writer, buffer.as_mut_slice())
    }

    /// Decompresses everything `reader` yields into `writer`, using `buffer` (at
    /// least `2^ei` bytes) as the window.
    pub fn decompress_with_buffer<R: Read, W: Write>(
        &self,
        reader: R,
        writer: W,
        buffer: &mut [u8],
    ) -> (res: Result<W::Output, LzssError<R::Error, W::Error>>)
        requires
            self.wf(),
            old(buffer)@.len() >= self.n_spec(),
        ensures
            res matches Ok(out) ==> exists|w2: W|
                #![trigger w2.written()]
                {
                    &&& w2.written() == writer.written() + decompressed(*self, reader.rest())
                    &&& w2.output_of(out)
                },
            reader.never_fails() && writer.never_fails() ==> res is Ok,
            res matches Err(LzssError::ReadError(e)) ==> !reader.never_fails() && exists|r2: R|
                #![trigger r2.error()]
                r2.error() == Some(e),
            res matches Err(LzssError::WriteError(e)) ==> !writer.never_fails() && exists|w2: W|
                #![trigger w2.error()]
                #![trigger w2.finish_error()]
                w2.error() == Some(e) || w2.finish_error() == Some(e),
    {
        proof {
            self.lemma_sizes();
        }
        let mut reader = reader;
        let mut writer = writer;
        let ghost r0 = reader;
        let ghost w0 = writer;
        fill_prefix(buffer, self.n(), self.c);
        match self.decompress_internal(&mut reader, &mut writer, buffer) {
            Ok(()) => {},
            Err(e) => {
                proof {
                    assert(e matches LzssError::ReadError(x) ==> reader.error() == Some(x));
                    assert(e matches LzssError::WriteError(x) ==> writer.error() == Some(x));
                }
                return Err(e);
            },
        }
        let ghost r2 = reader;
        let ghost w2 = writer;
        match writer.finish() {
            Ok(out) => {
                proof {
                    assert(w2.written() == w0.written() + decompressed(*self, r0.rest()));
                    assert(w2.output_of(out));
                }
                Ok(out)
            },
            Err(e) => {
                proof {
                    assert(w2.finish_error() == Some(e));
                }
                Err(LzssError::WriteError(e))
            },
        }
    }
}

} // verus!
