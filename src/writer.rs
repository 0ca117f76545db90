use vstd::prelude::*;

use crate::parser::{CR, LF};
use crate::types::RespWritable;

verus! {

#[derive(Debug, PartialEq, Eq, Structural)]
pub enum WriteError {
    AllocationError,
}

pub type WriteResult<T = ()> = Result<T, WriteError>;

pub open spec fn crlf() -> Seq<u8> {
    seq![CR, LF]
}

/// What a write leaves in a buffer that held `before`: the whole of `bytes`
/// appended on success; on failure, an extension of `before` that is itself
/// the start of `before + bytes`.
pub open spec fn appended(before: Seq<u8>, after: Seq<u8>, bytes: Seq<u8>, r: WriteResult) -> bool {
    match r {
        Ok(_) => after == before + bytes,
        Err(_) => before.is_prefix_of(after) && after.is_prefix_of(before + bytes),
    }
}

/// A write of `e` into a buffer that already held `a + p`, seen as one step
/// of writing `p + e + tail` into `a`; `tail` can only be owed on failure.
pub proof fn lemma_appended_within(
    a: Seq<u8>,
    p: Seq<u8>,
    c: Seq<u8>,
    e: Seq<u8>,
    tail: Seq<u8>,
    r: WriteResult,
)
    requires
        appended(a + p, c, e, r),
        r is Ok ==> tail.len() == 0,
    ensures
        appended(a, c, p + e + tail, r),
{
    if r is Ok {
        assert(a + (p + e + tail) =~= a + p + e);
    } else {
        assert(c.subrange(0, a.len() as int) =~= (a + p).subrange(0, a.len() as int));
        assert((a + (p + e + tail)).subrange(0, c.len() as int) =~= (a + p + e).subrange(
            0,
            c.len() as int,
        ));
    }
}

/// What an append that either succeeds whole or leaves the buffer as it was
/// satisfies.
pub proof fn lemma_appended_whole(b: Seq<u8>, c: Seq<u8>, e: Seq<u8>, r: WriteResult)
    requires
        r is Ok ==> c == b + e,
        r is Err ==> c == b,
    ensures
        appended(b, c, e, r),
{
    if r is Err {
        assert(b.is_prefix_of(b + e)) by {
            assert((b + e).subrange(0, b.len() as int) =~= b);
        }
    }
}

/// A growable output buffer whose appends report allocation failure.
pub struct WriteBuf(Vec<u8>);

impl View for WriteBuf {
    type V = Seq<u8>;

    closed spec fn view(&self) -> Seq<u8> {
        self.0@
    }
}

impl WriteBuf {
    pub fn new(data: Vec<u8>) -> (r: WriteBuf)
        ensures
            r@ == data@,
    {
        WriteBuf(data)
    }

    pub fn len(&self) -> (r: usize)
        ensures
            r == self@.len(),
    {
        self.0.len()
    }

    pub fn is_empty(&self) -> (r: bool)
        ensures
            r == (self@.len() == 0),
    {
        self.0.len() == 0
    }

    pub fn get(&self) -> (r: &Vec<u8>)
        ensures
            r@ == self@,
    {
        &self.0
    }

    pub fn get_mut(&mut self) -> (r: &mut Vec<u8>)
        ensures
            r@ == old(self)@,
            final(r)@ == final(self)@,
    {
        &mut self.0
    }

    /// Appends one byte once room for it has been reserved.
    pub fn push_u8(&mut self, b: u8) -> (r: WriteResult)
        ensures
            r is Ok ==> final(self)@ == old(self)@.push(b),
            r is Err ==> final(self)@ == old(self)@,
    {
        match self.0.try_reserve(1) {
            Ok(()) => {
                self.0.push(b);
                Ok(())
            },
            Err(_) => Err(WriteError::AllocationError),
        }
    }

    /// Appends all of `data` once room for it has been reserved.
    pub fn push_bytes(&mut self, data: &[u8]) -> (r: WriteResult)
        ensures
            r is Ok ==> final(self)@ == old(self)@ + data@,
            r is Err ==> final(self)@ == old(self)@,
    {
        match self.0.try_reserve(data.len()) {
            Ok(()) => {
                let ghost start = self.0@;
                let mut i: usize = 0;
                while i < data.len()
                    invariant
                        i <= data@.len(),
                        self.0@ == start + data@.take(i as int),
                    decreases data@.len() - i,
                {
                    self.0.push(data[i]);
                    i = i + 1;
                    assert(self.0@ =~= start + data@.take(i as int));
                }
                assert(data@.take(i as int) =~= data@);
                Ok(())
            },
            Err(_) => Err(WriteError::AllocationError),
        }
    }
}

/// Emits tag bytes, terminators and values into a borrowed `WriteBuf`.
pub struct RespWriter<'a> {
    pub buf: &'a mut WriteBuf,
}

impl RespWriter<'_> {
    pub fn new(buf: &mut WriteBuf) -> (r: RespWriter<'_>)
        ensures
            *r.buf == *old(buf),
            *final(r.buf) == *final(buf),
    {
        RespWriter { buf }
    }

    pub fn buffer(&mut self) -> (r: &mut WriteBuf)
        ensures
            *r == *old(self).buf,
            *final(r) == *final(self).buf,
    {
        self.buf
    }

    pub fn write_value<T: RespWritable>(&mut self, value: &T) -> (r: WriteResult)
        ensures
            appended(old(self).buf@, final(self).buf@, value.wire(), r),
    {
        value.write(self)
    }

    pub fn write_u8(&mut self, value: u8) -> (r: WriteResult)
        ensures
            appended(old(self).buf@, final(self).buf@, seq![value], r),
    {
        let r = self.buf.push_u8(value);
        proof {
            assert(old(self).buf@.push(value) =~= old(self).buf@ + seq![value]);
            lemma_appended_whole(old(self).buf@, self.buf@, seq![value], r);
        }
        r
    }

    pub fn write_crlf(&mut self) -> (r: WriteResult)
        ensures
            appended(old(self).buf@, final(self).buf@, crlf(), r),
    {
        let r = self.buf.push_bytes(&[CR, LF]);
        proof {
            lemma_appended_whole(old(self).buf@, self.buf@, crlf(), r);
        }
        r
    }
}

} // verus!
