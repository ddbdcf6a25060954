use vstd::prelude::*;

verus! {

/// Declares std's `io::Error` so that a read failure can be carried through
/// the library unopened; nothing is assumed of its contents.
#[verifier::external_type_specification]
#[verifier::external_body]
pub struct ExIoError(std::io::Error);

/// A forward-only source of bytes: its bytes in order, then, if the read
/// failed, the error that ended it.
pub struct ByteSource {
    bytes: Vec<u8>,
    pos: usize,
    failure: Option<std::io::Error>,
}

impl ByteSource {
    pub open spec fn wf(&self) -> bool {
        self.position() <= self.origin().len()
    }

    /// Every byte the source held when it was made.
    pub closed spec fn origin(&self) -> Seq<u8> {
        self.bytes@
    }

    /// How many bytes have been read so far.
    pub closed spec fn position(&self) -> nat {
        self.pos as nat
    }

    /// The error still to be reported once the bytes run out.
    pub closed spec fn failure(&self) -> Option<std::io::Error> {
        self.failure
    }

    /// The bytes not read yet.
    pub open spec fn remaining(&self) -> Seq<u8> {
        self.origin().skip(self.position() as int)
    }

    /// A source that yields `bytes` and then ends.
    pub fn new(bytes: Vec<u8>) -> (s: ByteSource)
        ensures
            s.wf(),
            s.origin() == bytes@,
            s.position() == 0,
            s.failure() is None,
    {
        ByteSource { bytes, pos: 0, failure: None }
    }

    /// A source that yields `bytes` and then reports `error`.
    pub fn failing(bytes: Vec<u8>, error: std::io::Error) -> (s: ByteSource)
        ensures
            s.wf(),
            s.origin() == bytes@,
            s.position() == 0,
            s.failure() == Some(error),
    {
        ByteSource { bytes, pos: 0, failure: Some(error) }
    }

    /// The next byte, if there is one; an error at the end stays in place.
    pub fn next_byte(&mut self) -> (r: Option<u8>)
        requires
            old(self).wf(),
        ensures
            final(self).wf(),
            final(self).origin() == old(self).origin(),
            final(self).failure() == old(self).failure(),
            old(self).position() < old(self).origin().len() ==> {
                &&& r == Some(old(self).origin()[old(self).position() as int])
                &&& final(self).position() == old(self).position() + 1
            },
            old(self).position() >= old(self).origin().len() ==> {
                &&& r is None
                &&& final(self).position() == old(self).position()
            },
    {
        if self.pos < self.bytes.len() {
            let b = self.bytes[self.pos];
            self.pos = self.pos + 1;
            Some(b)
        } else {
            None
        }
    }

    /// The next item: a byte, or once the bytes run out, the error if any.
    pub fn read(&mut self) -> (r: Option<Result<u8, std::io::Error>>)
        requires
            old(self).wf(),
        ensures
            final(self).wf(),
            final(self).origin() == old(self).origin(),
            old(self).position() < old(self).origin().len() ==> {
                &&& r == Some(Ok::<u8, std::io::Error>(old(self).origin()[old(self).position() as int]))
                &&& final(self).position() == old(self).position() + 1
                &&& final(self).failure() == old(self).failure()
            },
            old(self).position() >= old(self).origin().len() ==> {
                &&& r == match old(self).failure() {
                    Some(e) => Some(Err::<u8, std::io::Error>(e)),
                    None => None,
                }
                &&& final(self).position() == old(self).position()
                &&& final(self).failure() is None
            },
    {
        if self.pos < self.bytes.len() {
            let b = self.bytes[self.pos];
            self.pos = self.pos + 1;
            Some(Ok(b))
        } else {
            match self.failure.take() {
                Some(e) => Some(Err(e)),
                None => None,
            }
        }
    }

    /// Whether a read error is still to be reported.
    pub fn has_failure(&self) -> (r: bool)
        ensures
            r == self.failure() is Some,
    {
        self.failure.is_some()
    }

    /// Passes over the next `n` items without handing out their bytes; a read
    /// error among them is returned, not dropped.
    pub fn advance(&mut self, n: usize) -> (r: Option<std::io::Error>)
        requires
            old(self).wf(),
        ensures
            final(self).wf(),
            final(self).origin() == old(self).origin(),
            n <= old(self).remaining().len() ==> {
                &&& r is None
                &&& final(self).position() == old(self).position() + n
                &&& final(self).failure() == old(self).failure()
            },
            n > old(self).remaining().len() ==> {
                &&& r == old(self).failure()
                &&& final(self).position() == old(self).origin().len()
                &&& final(self).failure() is None
            },
    {
        let left = self.bytes.len() - self.pos;
        if n <= left {
            self.pos = self.pos + n;
            None
        } else {
            self.pos = self.bytes.len();
            self.failure.take()
        }
    }
}

} // verus!
