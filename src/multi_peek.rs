use vstd::prelude::*;

use crate::source::ByteSource;

verus! {

/// A lookahead buffer over a `ByteSource`: any upcoming byte can be looked at
/// without being consumed.
///
/// The buffer always holds the bytes just behind the source's read position,
/// so the bytes handed out, looked at and still to come are read off one
/// sequence, `origin()`, at the position `cursor()`.
pub struct MultiPeek {
    source: ByteSource,
    buf: Vec<u8>,
}

/// What a look `n` places into `stream` finds, where the source behind it has
/// failed (`failing`) or not.
pub open spec fn peeked(stream: Seq<u8>, failing: bool, n: int) -> Option<Result<u8, ()>> {
    if n < stream.len() {
        Some(Ok(stream[n]))
    } else if n == stream.len() && failing {
        Some(Err(()))
    } else {
        None
    }
}

/// How many bytes the buffer holds after a look `n` places ahead: enough to
/// reach that place, as far as there are bytes, and never fewer than before.
pub open spec fn fill(buffered: nat, n: int, available: nat) -> nat {
    let wanted = if buffered > n {
        buffered as int
    } else {
        n + 1
    };
    if wanted < available {
        wanted as nat
    } else {
        available
    }
}

impl MultiPeek {
    pub open spec fn wf(&self) -> bool {
        &&& self.inv()
        &&& self.cursor() <= self.origin().len()
    }

    pub closed spec fn inv(&self) -> bool {
        &&& self.source.wf()
        &&& self.buf.len() <= self.source.position()
        &&& self.buf@ == self.source.origin().subrange(
            self.source.position() - self.buf.len(),
            self.source.position() as int,
        )
    }

    /// Every byte of the underlying source.
    pub closed spec fn origin(&self) -> Seq<u8> {
        self.source.origin()
    }

    /// How many bytes have been consumed, by `next` or `skip`.
    pub closed spec fn cursor(&self) -> nat {
        (self.source.position() - self.buf.len()) as nat
    }

    /// How many bytes sit in the buffer.
    pub closed spec fn buffered(&self) -> nat {
        self.buf.len() as nat
    }

    /// The error that follows the bytes, if the source failed.
    pub closed spec fn failure(&self) -> Option<std::io::Error> {
        self.source.failure()
    }

    /// The bytes consumed so far.
    pub open spec fn consumed(&self) -> Seq<u8> {
        self.origin().take(self.cursor() as int)
    }

    /// The bytes still to come.
    pub open spec fn stream(&self) -> Seq<u8> {
        self.origin().skip(self.cursor() as int)
    }

    pub fn new(iter: ByteSource) -> (m: MultiPeek)
        requires
            iter.wf(),
        ensures
            m.wf(),
            m.origin() == iter.origin(),
            m.cursor() == iter.position(),
            m.failure() == iter.failure(),
            m.buffered() == 0,
    {
        let m = MultiPeek { source: iter, buf: Vec::new() };
        assert(m.buf@ =~= m.source.origin().subrange(
            m.source.position() as int,
            m.source.position() as int,
        ));
        m
    }

    /// The next byte, without consuming it: `Some(Err(()))` where the source
    /// failed at that place, `None` at the end of the source.
    pub fn peek(&mut self) -> (r: Option<Result<u8, ()>>)
        requires
            old(self).wf(),
        ensures
            final(self).wf(),
            final(self).origin() == old(self).origin(),
            final(self).cursor() == old(self).cursor(),
            final(self).failure() == old(self).failure(),
            r == peeked(old(self).stream(), old(self).failure() is Some, 0),
            final(self).buffered() == fill(old(self).buffered(), 0, old(self).stream().len()),
    {
        self.peek_nth(0)
    }

    /// The byte `n` places ahead, without consuming anything: `Some(Err(()))`
    /// where the source failed at that place, `None` where the bytes ended
    /// before it. Fetches from the source only the bytes up to that place.
    pub fn peek_nth(&mut self, n: usize) -> (r: Option<Result<u8, ()>>)
        requires
            old(self).wf(),
        ensures
            final(self).wf(),
            final(self).origin() == old(self).origin(),
            final(self).cursor() == old(self).cursor(),
            final(self).failure() == old(self).failure(),
            r == peeked(old(self).stream(), old(self).failure() is Some, n as int),
            final(self).buffered() == fill(old(self).buffered(), n as int, old(self).stream().len()),
    {
        while self.buf.len() <= n
            invariant
                self.wf(),
                self.origin() == old(self).origin(),
                self.cursor() == old(self).cursor(),
                self.failure() == old(self).failure(),
                old(self).buffered() <= self.buffered(),
                self.buffered() <= if old(self).buffered() > n {
                    old(self).buffered() as int
                } else {
                    n + 1
                },
            decreases self.origin().len() - self.source.position(),
        {
            match self.source.next_byte() {
                Some(b) => {
                    self.buf.push(b);
                    assert(self.buf@ == self.source.origin().subrange(
                        self.source.position() - self.buf.len(),
                        self.source.position() as int,
                    ));
                },
                None => {
                    assert(self.stream().len() == self.buffered());
                    if self.buf.len() == n && self.source.has_failure() {
                        return Some(Err(()));
                    }
                    return None;
                },
            }
        }
        Some(Ok(self.buf[n]))
    }

    /// Consumes the next `n` items: the bytes in the buffer first, then the
    /// rest straight from the source, without buffering them. A read error
    /// passed over on the way is returned.
    pub fn skip(&mut self, n: usize) -> (r: Option<std::io::Error>)
        requires
            old(self).wf(),
        ensures
            final(self).wf(),
            final(self).origin() == old(self).origin(),
            final(self).buffered() == old(self).buffered() - if n < old(self).buffered() {
                n as int
            } else {
                old(self).buffered() as int
            },
            n <= old(self).stream().len() ==> {
                &&& r is None
                &&& final(self).cursor() == old(self).cursor() + n
                &&& final(self).failure() == old(self).failure()
            },
            n > old(self).stream().len() ==> {
                &&& r == old(self).failure()
                &&& final(self).cursor() == old(self).origin().len()
                &&& final(self).failure() is None
            },
    {
        let buf_n = if self.buf.len() < n {
            self.buf.len()
        } else {
            n
        };
        let rest = self.buf.split_off(buf_n);
        self.buf = rest;
        assert(self.buf@ =~= self.source.origin().subrange(
            self.source.position() - self.buf.len(),
            self.source.position() as int,
        ));
        let rest_n = n - buf_n;
        if rest_n != 0 {
            let failed = self.source.advance(rest_n);
            assert(self.buf@ =~= self.source.origin().subrange(
                self.source.position() as int,
                self.source.position() as int,
            ));
            failed
        } else {
            None
        }
    }

    /// Consumes the next item: a byte, or once the bytes run out, the error
    /// that ended the source, if any.
    pub fn next(&mut self) -> (r: Option<Result<u8, std::io::Error>>)
        requires
            old(self).wf(),
        ensures
            final(self).wf(),
            final(self).origin() == old(self).origin(),
            0 < old(self).stream().len() ==> {
                &&& r == Some(Ok::<u8, std::io::Error>(old(self).stream()[0]))
                &&& final(self).cursor() == old(self).cursor() + 1
                &&& final(self).failure() == old(self).failure()
            },
            old(self).stream().len() == 0 ==> {
                &&& r == match old(self).failure() {
                    Some(e) => Some(Err::<u8, std::io::Error>(e)),
                    None => None,
                }
                &&& final(self).cursor() == old(self).cursor()
                &&& final(self).failure() is None
            },
    {
        if !self.buf.is_empty() {
            let b = self.buf.remove(0);
            assert(self.buf@ =~= self.source.origin().subrange(
                self.source.position() - self.buf.len(),
                self.source.position() as int,
            ));
            Some(Ok(b))
        } else {
            let r = self.source.read();
            assert(self.buf@ =~= self.source.origin().subrange(
                self.source.position() as int,
                self.source.position() as int,
            ));
            r
        }
    }
}

/// Each byte that `next` hands out extends the consumed bytes by exactly that
/// byte; `peek_nth` consumes nothing, and `skip` consumes the bytes that come
/// next. So, however the calls interleave and whatever was looked at first,
/// the bytes consumed are the source's bytes, in order.
pub proof fn lemma_next_extends_consumed(before: MultiPeek, after: MultiPeek, b: u8)
    requires
        before.wf(),
        after.wf(),
        after.origin() == before.origin(),
        0 < before.stream().len(),
        b == before.stream()[0],
        after.cursor() == before.cursor() + 1,
    ensures
        after.consumed() == before.consumed().push(b),
        after.stream() == before.stream().drop_first(),
{
    assert(after.consumed() =~= before.consumed().push(b));
    assert(after.stream() =~= before.stream().drop_first());
}

/// Skipping `n` bytes that are there consumes exactly those bytes.
pub proof fn lemma_skip_extends_consumed(before: MultiPeek, after: MultiPeek, n: nat)
    requires
        before.wf(),
        after.wf(),
        after.origin() == before.origin(),
        n <= before.stream().len(),
        after.cursor() == before.cursor() + n,
    ensures
        after.consumed() == before.consumed() + before.stream().take(n as int),
        after.stream() == before.stream().skip(n as int),
{
    assert(after.consumed() =~= before.consumed() + before.stream().take(n as int));
    assert(after.stream() =~= before.stream().skip(n as int));
}

/// Whatever is asked of the buffer, it consumes the source's bytes in order:
/// the bytes consumed and the bytes still to come together make up the
/// source, whatever was looked at before.
pub proof fn lemma_consumed_in_order(m: MultiPeek)
    requires
        m.wf(),
    ensures
        m.consumed() + m.stream() == m.origin(),
        m.cursor() <= m.origin().len(),
{
    assert(m.consumed() + m.stream() =~= m.origin());
}

} // verus!
