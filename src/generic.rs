//! Compression with parameters fixed at compile time.
use vstd::arithmetic::power2::pow2;
use vstd::prelude::*;

use crate::error::LzssError;
use crate::in_place::min_offset;
use crate::model::{compressed, decompressed, pack, parse_n, virtual_input};
use crate::params::{params_ok, LzssDyn};
use crate::stream::{Read, Write};

verus! {

/// A parameter set fixed in the type: `EI` offset bits, `EJ` length bits, fill byte
/// `C`, window size `N = 2^EI` and `N2 = 2 * N`. It has no values.
pub struct Lzss<const EI: usize, const EJ: usize, const C: u8, const N: usize, const N2: usize> {
    never: core::convert::Infallible,
}

impl<const EI: usize, const EJ: usize, const C: u8, const N: usize, const N2: usize> Lzss<
    EI,
    EJ,
    C,
    N,
    N2,
> {
    /// The type parameters form a usable parameter set.
    pub open spec fn valid() -> bool {
        &&& params_ok(EI as nat, EJ as nat)
        &&& N == pow2(EI as nat)
        &&& N2 == 2 * N
    }

    /// The same parameters as a runtime value.
    pub fn as_dyn() -> (r: LzssDyn)
        requires
            Self::valid(),
        ensures
            r.wf(),
            r == Self::as_dyn_spec(),
            r.ei_nat() == EI,
            r.ej_nat() == EJ,
            r.fill() == C,
            r.n_spec() == N,
    {
        LzssDyn { ei: EI, ej: EJ, c: C }
    }

    /// The smallest offset `compress_in_place` works with.
    pub fn min_offset() -> (r: usize)
        requires
            Self::valid(),
        ensures
            r == min_offset(Self::as_dyn_spec()),
    {
        Self::as_dyn().min_offset()
    }

    /// The runtime parameter set of this type.
    pub open(crate) spec fn as_dyn_spec() -> LzssDyn {
        LzssDyn { ei: EI, ej: EJ, c: C }
    }

    /// Compresses with a window on the stack; see [`Lzss::compress_stack`].
    pub fn compress<R: Read, W: Write>(reader: R, writer: W) -> (res: Result<
        W::Output,
        LzssError<R::Error, W::Error>,
    >)
        requires
            Self::valid(),
        ensures
            res matches Ok(out) ==> exists|w2: W|
                #![trigger w2.written()]
                {
                    &&& w2.written() == writer.written() + compressed(Self::as_dyn_spec(), reader.rest())
                    &&& w2.output_of(out)
                },
            reader.never_fails() && writer.never_fails() ==> res is Ok,
            res matches Err(LzssError::ReadError(e)) ==> !reader.never_fails() && exists|r2: R|
                #![trigger r2.error()]
                r2.error() == Some(e),
            res matches Err(LzssError::WriteError(e)) ==> !writer.never_fails() && exists|w2: W|
                #![trigger w2.error()]
                #![trigger w2.finish_error()]
                w2.error() == Some(e) || w2.finish_error() == Some(e),
    {
        Self::compress_stack(reader, writer)
    }

    /// Compresses everything `reader` yields into `writer`, with a window of `N2`
    /// bytes on the stack.
    pub fn compress_stack<R: Read, W: Write>(reader: R, writer: W) -> (res: Result<
        W::Output,
        LzssError<R::Error, W::Error>,
    >)
        requires
            Self::valid(),
        ensures
            res matches Ok(out) ==> exists|w2: W|
                #![trigger w2.written()]
                {
                    &&& w2.written() == writer.written() + compressed(Self::as_dyn_spec(), reader.rest())
                    &&& w2.output_of(out)
                },
            reader.never_fails() && writer.never_fails() ==> res is Ok,
            res matches Err(LzssError::ReadError(e)) ==> !reader.never_fails() && exists|r2: R|
                #![trigger r2.error()]
                r2.error() == Some(e),
            res matches Err(LzssError::WriteError(e)) ==> !writer.never_fails() && exists|w2: W|
                #![trigger w2.error()]
                #![trigger w2.finish_error()]
                w2.error() == Some(e) || w2.finish_error() == Some(e),
    {
        let mut buffer = [C; N2];
        Self::compress_with_buffer(reader, writer, &mut buffer)
    }

    /// Compresses everything `reader` yields into `writer`, with a window of `N2`
    /// bytes on the heap.
    pub fn compress_heap<R: Read, W: Write>(reader: R, writer: W) -> (res: Result<
        W::Output,
        LzssError<R::Error, W::Error>,
    >)
        requires
            Self::valid(),
        ensures
            res matches Ok(out) ==> exists|w2: W|
                #![trigger w2.written()]
                {
                    &&& w2.written() == writer.written() + compressed(Self::as_dyn_spec(), reader.rest())
                    &&& w2.output_of(out)
                },
            reader.never_fails() && writer.never_fails() ==> res is Ok,
            res matches Err(LzssError::ReadError(e)) ==> !reader.never_fails() && exists|r2: R|
                #![trigger r2.error()]
                r2.error() == Some(e),
            res matches Err(LzssError::WriteError(e)) ==> !writer.never_fails() && exists|w2: W|
                #![trigger w2.error()]
                #![trigger w2.finish_error()]
                w2.error() == Some(e) || w2.finish_error() == Some(e),
    {
        Self::as_dyn().compress(reader, writer)
    }

    /// Compresses everything `reader` yields into `writer`, using `buffer` as the
    /// window.
    pub fn compress_with_buffer<R: Read, W: Write>(
        reader: R,
        writer: W,
        buffer: &mut [u8; N2],
    ) -> (res: Result<W::Output, LzssError<R::Error, W::Error>>)
        requires
            Self::valid(),
        ensures
            res matches Ok(out) ==> exists|w2: W|
                #![trigger w2.written()]
                {
                    &&& w2.written() == writer.written() + compressed(Self::as_dyn_spec(), reader.rest())
                    &&& w2.output_of(out)
                },
            reader.never_fails() && writer.never_fails() ==> res is Ok,
            res matches Err(LzssError::ReadError(e)) ==> !reader.never_fails() && exists|r2: R|
                #![trigger r2.error()]
                r2.error() == Some(e),
            res matches Err(LzssError::WriteError(e)) ==> !writer.never_fails() && exists|w2: W|
                #![trigger w2.error()]
                #![trigger w2.finish_error()]
                w2.error() == Some(e) || w2.finish_error() == Some(e),
    {
        Self::as_dyn().compress_with_buffer(reader, writer, buffer)
    }

    /// Decompresses with a window on the stack; see [`Lzss::decompress_stack`].
    pub fn decompress<R: Read, W: Write>(reader: R, writer: W) -> (res: Result<
        W::Output,
        LzssError<R::Error, W::Error>,
    >)
        requires
            Self::valid(),
        ensures
            res matches Ok(out) ==> exists|w2: W|
                #![trigger w2.written()]
                {
                    &&& w2.written() == writer.written() + decompressed(Self::as_dyn_spec(), reader.rest())
                    &&& w2.output_of(out)
                },
            reader.never_fails() && writer.never_fails() ==> res is Ok,
            res matches Err(LzssError::ReadError(e)) ==> !reader.never_fails() && exists|r2: R|
                #![trigger r2.error()]
                r2.error() == Some(e),
            res matches Err(LzssError::WriteError(e)) ==> !writer.never_fails() && exists|w2: W|
                #![trigger w2.error()]
                #![trigger w2.finish_error()]
                w2.error() == Some(e) || w2.finish_error() == Some(e),
    {
        Self::decompress_stack(reader, writer)
    }

    /// Decompresses everything `reader` yields into `writer`, with a window of `N`
    /// bytes on the stack.
    pub fn decompress_stack<R: Read, W: Write>(reader: R, writer: W) -> (res: Result<
        W::Output,
        LzssError<R::Error, W::Error>,
    >)
        requires
            Self::valid(),
        ensures
            res matches Ok(out) ==> exists|w2: W|
                #![trigger w2.written()]
                {
                    &&& w2.written() == writer.written() + decompressed(Self::as_dyn_spec(), reader.rest())
                    &&& w2.output_of(out)
                },
            reader.never_fails() && writer.never_fails() ==> res is Ok,
            res matches Err(LzssError::ReadError(e)) ==> !reader.never_fails() && exists|r2: R|
                #![trigger r2.error()]
                r2.error() == Some(e),
            res matches Err(LzssError::WriteError(e)) ==> !writer.never_fails() && exists|w2: W|
                #![trigger w2.error()]
                #![trigger w2.finish_error()]
                w2.error() == Some(e) || w2.finish_error() == Some(e),
    {
        let mut buffer = [C; N];
        Self::decompress_with_buffer(reader, writer, &mut buffer)
    }

    /// Decompresses everything `reader` yields into `writer`, with a window of `N`
    /// bytes on the heap.
    pub fn decompress_heap<R: Read, W: Write>(reader: R, writer: W) -> (res: Result<
        W::Output,
        LzssError<R::Error, W::Error>,
    >)
        requires
            Self::valid(),
        ensures
            res matches Ok(out) ==> exists|w2: W|
                #![trigger w2.written()]
                {
                    &&& w2.written() == writer.written() + decompressed(Self::as_dyn_spec(), reader.rest())
                    &&& w2.output_of(out)
                },
            reader.never_fails() && writer.never_fails() ==> res is Ok,
            res matches Err(LzssError::ReadError(e)) ==> !reader.never_fails() && exists|r2: R|
                #![trigger r2.error()]
                r2.error() == Some(e),
            res matches Err(LzssError::WriteError(e)) ==> !writer.never_fails() && exists|w2: W|
                #![trigger w2.error()]
                #![trigger w2.finish_error()]
                w2.error() == Some(e) || w2.finish_error() == Some(e),
    {
        Self::as_dyn().decompress(reader, writer)
    }

    /// Decompresses everything `reader` yields into `writer`, using `buffer` as the
    /// window.
    pub fn decompress_with_buffer<R: Read, W: Write>(
        reader: R,
        writer: W,
        buffer: &mut [u8; N],
    ) -> (res: Result<W::Output, LzssError<R::Error, W::Error>>)
        requires
            Self::valid(),
        ensures
            res matches Ok(out) ==> exists|w2: W|
                #![trigger w2.written()]
                {
                    &&& w2.written() == writer.written() + decompressed(Self::as_dyn_spec(), reader.rest())
                    &&& w2.output_of(out)
                },
            reader.never_fails() && writer.never_fails() ==> res is Ok,
            res matches Err(LzssError::ReadError(e)) ==> !reader.never_fails() && exists|r2: R|
                #![trigger r2.error()]
                r2.error() == Some(e),
            res matches Err(LzssError::WriteError(e)) ==> !writer.never_fails() && exists|w2: W|
                #![trigger w2.error()]
                #![trigger w2.finish_error()]
                w2.error() == Some(e) || w2.finish_error() == Some(e),
    {
        Self::as_dyn().decompress_with_buffer(reader, writer, buffer)
    }

    /// Compresses `io[offset..]` into the front of `io`; see
    /// [`LzssDyn::compress_in_place`].
    pub fn compress_in_place(io: &mut [u8], offset: usize) -> (res: (usize, Option<usize>))
        requires
            Self::valid(),
        ensures
            final(io)@.len() == old(io)@.len(),
            offset >= old(io)@.len() ==> res == (0usize, None::<usize>) && final(io)@ == old(io)@,
            offset < old(io)@.len() && offset < min_offset(Self::as_dyn_spec()) ==> res == (
                0usize,
                Some(offset),
            ) && final(io)@ == old(io)@,
            offset < old(io)@.len() && offset >= min_offset(Self::as_dyn_spec()) ==> {
                let p = Self::as_dyn_spec();
                let d = old(io)@.subrange(offset as int, old(io)@.len() as int);
                let v = virtual_input(p, d);
                &&& res.0 <= old(io)@.len()
                &&& forall|j: int|
                    res.0 <= j < old(io)@.len() && !(offset - (p.n_spec() - p.f_spec()) <= j
                        < offset) ==> #[trigger] final(io)@[j] == old(io)@[j]
                &&& offset >= min_offset(p) + (old(io)@.len() - offset) / 8 ==> res.1 is None
                &&& res.1 is None ==> final(io)@.subrange(0, res.0 as int) == compressed(p, d)
                &&& res.1 matches Some(rest) ==> {
                    &&& offset < rest <= old(io)@.len()
                    &&& res.0 < rest
                    &&& res.0 + p.p_spec() + 4 > rest - (p.n_spec() - p.f_spec())
                    &&& forall|q: int|
                        rest - (p.n_spec() - p.f_spec()) <= q < old(io)@.len()
                            ==> #[trigger] final(io)@[q] == v[q - offset + (p.n_spec() - p.f_spec())]
                    &&& final(io)@.subrange(rest as int, old(io)@.len() as int) == old(
                        io,
                    )@.subrange(rest as int, old(io)@.len() as int)
                    &&& exists|k: nat|
                        #![trigger parse_n(p, v, k)]
                        parse_n(p, v, k).1 == rest - offset + (p.n_spec() - p.f_spec())
                            && final(io)@.subrange(0, res.0 as int) == pack(parse_n(p, v, k).0)
                }
            },
    {
        Self::as_dyn().compress_in_place(io, offset)
    }
}

} // verus!
