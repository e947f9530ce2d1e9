//! Byte sources: where the lexer gets its input from.

use vstd::prelude::*;

verus! {

/// What a reader finds at one position of a stream.
pub enum Peek {
    /// A byte of the input.
    Byte(u8),
    /// The clean end of the input.
    End,
    /// The source failed here, with this code.
    Fault(i32),
}

/// The input that a source has yet to deliver: a finite run of bytes, after
/// which the source either signals the end or fails.
pub struct Stream {
    /// The bytes still to come, in order.
    pub bytes: Seq<u8>,
    /// The failure that follows the last byte, if the delivery ends in one.
    pub fault: Option<i32>,
}

impl Stream {
    /// What stands at position `i`: a byte, or what follows the last byte.
    pub open spec fn at(self, i: int) -> Peek {
        if 0 <= i < self.bytes.len() {
            Peek::Byte(self.bytes[i])
        } else {
            match self.fault {
                Some(code) => Peek::Fault(code),
                None => Peek::End,
            }
        }
    }

    /// The stream without its first `n` bytes.
    pub open spec fn skip(self, n: int) -> Stream {
        Stream { bytes: self.bytes.skip(n), fault: self.fault }
    }
}

/// Skipping bytes one after another is skipping them at once, and what
/// stands first after a skip stood at that position before.
pub proof fn lemma_skip(s: Stream, i: int, n: int)
    requires
        0 <= i,
        0 <= n,
        i + n <= s.bytes.len(),
    ensures
        s.skip(i).skip(n) == s.skip(i + n),
        s.skip(i).at(n) == s.at(i + n),
        s.skip(0) == s,
{
    assert(s.skip(i).skip(n).bytes =~= s.skip(i + n).bytes);
    assert(s.skip(0).bytes =~= s.bytes);
}

/// A sequential source of bytes with a single operation: fill a buffer.
pub trait Source {
    /// What this source has yet to deliver.
    spec fn stream(&self) -> Stream;

    /// Writes the next bytes of the stream to the front of `buf` and returns
    /// how many were written. While bytes are left at least one is written;
    /// after the last one the call returns `Ok(0)` for a clean end, or the
    /// failure code otherwise.
    fn fill(&mut self, buf: &mut Vec<u8>) -> (r: Result<usize, i32>)
        requires
            old(buf).len() > 0,
        ensures
            final(buf).len() == old(buf).len(),
            final(self).stream().fault == old(self).stream().fault,
            match r {
                Ok(n) => {
                    &&& n <= old(buf).len()
                    &&& n <= old(self).stream().bytes.len()
                    &&& n == 0 ==> old(self).stream().at(0) == Peek::End
                    &&& final(buf)@.take(n as int) == old(self).stream().bytes.take(n as int)
                    &&& final(self).stream() == old(self).stream().skip(n as int)
                },
                Err(code) => {
                    &&& old(self).stream().at(0) == Peek::Fault(code)
                    &&& final(self).stream() == old(self).stream()
                },
            },
    ;
}

/// A source that delivers the bytes of a vector held in memory.
pub struct SliceSource {
    data: Vec<u8>,
    pos: usize,
    fault: Option<i32>,
}

impl SliceSource {
    #[verifier::type_invariant]
    spec fn inv(&self) -> bool {
        self.pos <= self.data.len()
    }

    /// The bytes not yet delivered, and the failure that follows them.
    pub closed spec fn view(&self) -> Stream {
        Stream { bytes: self.data@.skip(self.pos as int), fault: self.fault }
    }

    /// A source that delivers `data` and then ends cleanly.
    pub fn new(data: Vec<u8>) -> (s: SliceSource)
        ensures
            s@ == (Stream { bytes: data@, fault: None }),
    {
        let s = SliceSource { data, pos: 0, fault: None };
        assert(s@.bytes =~= data@);
        s
    }

    /// A source that delivers `data` and then fails with `code`.
    pub fn broken(data: Vec<u8>, code: i32) -> (s: SliceSource)
        ensures
            s@ == (Stream { bytes: data@, fault: Some(code) }),
    {
        let s = SliceSource { data, pos: 0, fault: Some(code) };
        assert(s@.bytes =~= data@);
        s
    }

    /// How many bytes are left to deliver.
    pub fn left(&self) -> (n: usize)
        ensures
            n == self@.bytes.len(),
    {
        proof {
            use_type_invariant(self);
        }
        self.data.len() - self.pos
    }
}

impl Source for SliceSource {
    open spec fn stream(&self) -> Stream {
        self@
    }

    fn fill(&mut self, buf: &mut Vec<u8>) -> (r: Result<usize, i32>) {
        proof {
            use_type_invariant(&*self);
        }
        let left: usize = self.data.len() - self.pos;
        if left == 0 {
            assert(self@.bytes.skip(0) =~= self@.bytes);
            assert(buf@.take(0) =~= self@.bytes.take(0));
            return match self.fault {
                Some(code) => Err(code),
                None => Ok(0),
            };
        }
        let n: usize = if left < buf.len() { left } else { buf.len() };
        let start: usize = self.pos;
        let mut i: usize = 0;
        while i < n
            invariant
                i <= n,
                n <= buf.len(),
                buf.len() == old(buf).len(),
                start + n <= self.data.len(),
                self.pos == start,
                self.data == old(self).data,
                self.fault == old(self).fault,
                forall|k: int| 0 <= k < i ==> buf@[k] == self.data@[start + k],
            decreases n - i,
        {
            let byte: u8 = self.data[start + i];
            buf.set(i, byte);
            i += 1;
        }
        self.pos = start + n;
        assert(buf@.take(n as int) =~= old(self)@.bytes.take(n as int));
        assert(self@.bytes =~= old(self)@.bytes.skip(n as int));
        Ok(n)
    }
}

} // verus!
