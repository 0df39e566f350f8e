use vstd::prelude::*;

verus! {

/// A source of bytes.
///
/// Once `read` has returned `Ok(None)` it keeps doing so. The spec functions
/// describe the reader to the verifier. Their default bodies describe a reader that
/// never yields a byte; a verified implementation that yields bytes must define
/// them, and one written outside the verifier is not checked against them.
pub trait Read {
    /// What a failed read returns.
    type Error;

    /// The bytes this reader has handed out so far.
    closed spec fn consumed(&self) -> Seq<u8> {
        Seq::empty()
    }

    /// The bytes still to come before the end of the data.
    closed spec fn rest(&self) -> Seq<u8> {
        Seq::empty()
    }

    /// A bound on the bytes still to come: every byte read lowers it.
    closed spec fn remaining(&self) -> nat {
        0
    }

    /// This reader never fails.
    closed spec fn never_fails(&self) -> bool {
        false
    }

    /// The error this reader returned last, if it failed.
    closed spec fn error(&self) -> Option<Self::Error> {
        None
    }

    /// Reads one byte; `Ok(None)` signals the end of the data.
    fn read(&mut self) -> (r: Result<Option<u8>, Self::Error>)
        ensures
            r matches Ok(Some(b)) ==> final(self).consumed() == old(self).consumed().push(b)
                && final(self).remaining() < old(self).remaining() && old(self).rest().len() > 0
                && old(self).rest()[0] == b && final(self).rest() == old(self).rest().drop_first(),
            r matches Ok(None) ==> final(self).consumed() == old(self).consumed()
                && final(self).remaining() <= old(self).remaining() && old(self).rest().len() == 0
                && final(self).rest().len() == 0,
            old(self).never_fails() ==> r is Ok && final(self).never_fails(),
            r matches Err(e) ==> final(self).error() == Some(e),
    ;
}

/// A sink for bytes. `finish` is called only when every write succeeded.
///
/// The default bodies of the spec functions promise no success and describe no
/// bytes; a verified implementation that accepts bytes must define them.
pub trait Write {
    /// What `finish` hands back.
    type Output;

    /// What a failed write or finish returns.
    type Error;

    /// The bytes this writer has accepted so far.
    closed spec fn written(&self) -> Seq<u8> {
        Seq::empty()
    }

    /// `out` is what `finish` gives for this writer.
    closed spec fn output_of(&self, out: Self::Output) -> bool {
        true
    }

    /// This writer never fails.
    closed spec fn never_fails(&self) -> bool {
        false
    }

    /// The error this writer returned last, if it failed.
    closed spec fn error(&self) -> Option<Self::Error> {
        None
    }

    /// The next write succeeds.
    closed spec fn will_accept(&self) -> bool {
        false
    }

    /// `finish` succeeds.
    closed spec fn will_finish(&self) -> bool {
        false
    }

    /// The error `finish` returns, if it fails.
    closed spec fn finish_error(&self) -> Option<Self::Error> {
        None
    }

    /// Writes one byte.
    fn write(&mut self, data: u8) -> (r: Result<(), Self::Error>)
        ensures
            r is Ok ==> final(self).written() == old(self).written().push(data),
            old(self).never_fails() ==> r is Ok && final(self).never_fails(),
            r matches Err(e) ==> final(self).error() == Some(e),
            old(self).will_accept() ==> r is Ok,
    ;

    /// Turns the writer into its output.
    fn finish(self) -> (r: Result<Self::Output, Self::Error>)
        ensures
            r matches Ok(o) ==> self.output_of(o),
            self.never_fails() ==> r is Ok,
            self.will_finish() ==> r is Ok,
            r matches Err(e) ==> self.finish_error() == Some(e),
    ;
}

/// Reads the bytes of a slice.
pub struct SliceReader<'a> {
    data: &'a [u8],
    pos: usize,
}

impl<'a> SliceReader<'a> {
    /// The slice this reader walks.
    pub closed spec fn source(&self) -> Seq<u8> {
        self.data@
    }

    /// A reader positioned at the start of `data`.
    pub fn new(data: &'a [u8]) -> (r: SliceReader<'a>)
        ensures
            r.source() == data@,
            r.consumed() == Seq::<u8>::empty(),
            r.rest() == data@,
            r.never_fails(),
    {
        SliceReader { data, pos: 0 }
    }
}

impl<'a> Read for SliceReader<'a> {
    type Error = core::convert::Infallible;

    closed spec fn consumed(&self) -> Seq<u8> {
        self.data@.subrange(0, self.pos as int)
    }

    closed spec fn remaining(&self) -> nat {
        (self.data@.len() - self.pos) as nat
    }

    closed spec fn rest(&self) -> Seq<u8> {
        if self.pos <= self.data@.len() {
            self.data@.subrange(self.pos as int, self.data@.len() as int)
        } else {
            Seq::empty()
        }
    }

    open spec fn never_fails(&self) -> bool {
        true
    }

    fn read(&mut self) -> (r: Result<Option<u8>, Self::Error>) {
        if self.pos >= self.data.len() {
            Ok(None)
        } else {
            let b = self.data[self.pos];
            self.pos = self.pos + 1;
            proof {
                assert(self.rest() =~= old(self).rest().drop_first());
            }
            Ok(Some(b))
        }
    }
}

/// The bytes did not fit the slice, or did not fill it.
#[derive(Debug, Copy, Clone, PartialEq, Eq, Structural)]
pub struct SliceWriteError;

/// Writes into a slice; the output is the number of bytes written.
pub struct SliceWriter<'a> {
    data: &'a mut [u8],
    pos: usize,
}

impl<'a> SliceWriter<'a> {
    #[verifier::type_invariant]
    closed spec fn inv(&self) -> bool {
        self.pos <= self.data@.len()
    }

    /// The length of the slice to fill.
    pub closed spec fn capacity(&self) -> nat {
        self.data@.len()
    }

    /// A writer that fills `data` from its start.
    pub fn new(data: &'a mut [u8]) -> (r: SliceWriter<'a>)
        ensures
            r.written() == Seq::<u8>::empty(),
            r.capacity() == old(data)@.len(),
    {
        SliceWriter { data, pos: 0 }
    }
}

impl<'a> Write for SliceWriter<'a> {
    type Output = usize;
    type Error = SliceWriteError;

    closed spec fn written(&self) -> Seq<u8> {
        self.data@.subrange(0, self.pos as int)
    }

    open spec fn output_of(&self, out: usize) -> bool {
        out == self.written().len()
    }

    open spec fn error(&self) -> Option<SliceWriteError> {
        if self.written().len() >= self.capacity() {
            Some(SliceWriteError)
        } else {
            None
        }
    }

    open spec fn will_accept(&self) -> bool {
        self.written().len() < self.capacity()
    }

    open spec fn will_finish(&self) -> bool {
        true
    }

    fn write(&mut self, data: u8) -> (r: Result<(), Self::Error>) {
        proof {
            use_type_invariant(&*self);
        }
        if self.pos >= self.data.len() {
            Err(SliceWriteError)
        } else {
            self.data[self.pos] = data;
            self.pos = self.pos + 1;
            Ok(())
        }
    }

    fn finish(self) -> (r: Result<Self::Output, Self::Error>) {
        proof {
            use_type_invariant(&self);
        }
        Ok(self.pos)
    }
}

/// Writes into a slice that must be filled exactly; the output is `()`.
pub struct SliceWriterExact<'a> {
    data: &'a mut [u8],
    pos: usize,
}

impl<'a> SliceWriterExact<'a> {
    #[verifier::type_invariant]
    closed spec fn inv(&self) -> bool {
        self.pos <= self.data@.len()
    }

    /// The length of the slice to fill.
    pub closed spec fn capacity(&self) -> nat {
        self.data@.len()
    }

    /// A writer that fills `data` from its start.
    pub fn new(data: &'a mut [u8]) -> (r: SliceWriterExact<'a>)
        ensures
            r.written() == Seq::<u8>::empty(),
            r.capacity() == old(data)@.len(),
    {
        SliceWriterExact { data, pos: 0 }
    }
}

impl<'a> Write for SliceWriterExact<'a> {
    type Output = ();
    type Error = SliceWriteError;

    closed spec fn written(&self) -> Seq<u8> {
        self.data@.subrange(0, self.pos as int)
    }

    open spec fn output_of(&self, out: ()) -> bool {
        self.written().len() == self.capacity()
    }

    open spec fn error(&self) -> Option<SliceWriteError> {
        if self.written().len() >= self.capacity() {
            Some(SliceWriteError)
        } else {
            None
        }
    }

    open spec fn will_accept(&self) -> bool {
        self.written().len() < self.capacity()
    }

    open spec fn will_finish(&self) -> bool {
        self.written().len() == self.capacity()
    }

    open spec fn finish_error(&self) -> Option<SliceWriteError> {
        if self.written().len() == self.capacity() {
            None
        } else {
            Some(SliceWriteError)
        }
    }

    fn write(&mut self, data: u8) -> (r: Result<(), Self::Error>) {
        proof {
            use_type_invariant(&*self);
        }
        if self.pos >= self.data.len() {
            Err(SliceWriteError)
        } else {
            self.data[self.pos] = data;
            self.pos = self.pos + 1;
            Ok(())
        }
    }

    fn finish(self) -> (r: Result<Self::Output, Self::Error>) {
        proof {
            use_type_invariant(&self);
        }
        if self.pos == self.data.len() {
            Ok(())
        } else {
            Err(SliceWriteError)
        }
    }
}

/// Collects the bytes in a vector; the output is that vector.
pub struct VecWriter {
    data: Vec<u8>,
}

impl VecWriter {
    /// An empty writer with room reserved for `capacity` bytes.
    pub fn with_capacity(capacity: usize) -> (r: VecWriter)
        ensures
            r.written() == Seq::<u8>::empty(),
    {
        VecWriter { data: Vec::with_capacity(capacity) }
    }

    /// An empty writer.
    pub fn new() -> (r: VecWriter)
        ensures
            r.written() == Seq::<u8>::empty(),
    {
        VecWriter { data: Vec::new() }
    }
}

impl Write for VecWriter {
    type Output = Vec<u8>;
    type Error = core::convert::Infallible;

    closed spec fn written(&self) -> Seq<u8> {
        self.data@
    }

    open spec fn output_of(&self, out: Vec<u8>) -> bool {
        out@ == self.written()
    }

    open spec fn never_fails(&self) -> bool {
        true
    }

    open spec fn will_accept(&self) -> bool {
        true
    }

    open spec fn will_finish(&self) -> bool {
        true
    }

    fn write(&mut self, data: u8) -> (r: Result<(), Self::Error>) {
        self.data.push(data);
        Ok(())
    }

    fn finish(self) -> (r: Result<Self::Output, Self::Error>) {
        Ok(self.data)
    }
}

} // verus!
