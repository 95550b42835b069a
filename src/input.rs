use vstd::prelude::*;

verus! {

/// A sequential source of bytes.
pub trait ByteInput {
    /// The bytes not read yet.
    spec fn remaining(&self) -> Seq<u8>;

    /// Reads the next byte, or `None` at the end of the input.
    fn read_u8(&mut self) -> (r: Option<u8>)
        ensures
            old(self).remaining().len() == 0 ==> r is None
                && final(self).remaining() == old(self).remaining(),
            old(self).remaining().len() > 0 ==> r == Some(old(self).remaining()[0])
                && final(self).remaining() == old(self).remaining().drop_first(),
    ;
}

/// A byte input over an owned buffer.
pub struct SliceInput {
    data: Vec<u8>,
    pos: usize,
}

impl SliceInput {
    /// Number of bytes read so far.
    pub closed spec fn consumed(&self) -> int {
        self.pos as int
    }

    /// Wraps `data`; reading starts at its first byte.
    pub fn new(data: Vec<u8>) -> (r: Self)
        ensures
            r.remaining() == data@,
            r.consumed() == 0,
    {
        SliceInput { data, pos: 0 }
    }

    /// Number of bytes read so far.
    pub fn position(&self) -> (r: usize)
        ensures
            r == self.consumed(),
    {
        self.pos
    }
}

impl ByteInput for SliceInput {
    closed spec fn remaining(&self) -> Seq<u8> {
        if self.pos <= self.data@.len() {
            self.data@.subrange(self.pos as int, self.data@.len() as int)
        } else {
            Seq::empty()
        }
    }

    fn read_u8(&mut self) -> (r: Option<u8>) {
        if self.pos < self.data.len() {
            let b = self.data[self.pos];
            self.pos = self.pos + 1;
            assert(self.remaining() =~= old(self).remaining().drop_first());
            Some(b)
        } else {
            None
        }
    }
}

/// Reads a big-endian 16-bit value.
pub fn read_u16_be<R: ByteInput>(input: &mut R) -> (r: Option<u16>)
    ensures
        old(input).remaining().len() < 2 ==> r is None,
        old(input).remaining().len() >= 2 ==> r == Some(
            (old(input).remaining()[0] as int * 256 + old(input).remaining()[1] as int) as u16,
        ) && final(input).remaining() == old(input).remaining().subrange(
            2,
            old(input).remaining().len() as int,
        ),
{
    let hi = match input.read_u8() {
        Some(b) => b,
        None => return None,
    };
    let lo = match input.read_u8() {
        Some(b) => b,
        None => return None,
    };
    assert(final(input).remaining() =~= old(input).remaining().subrange(2, old(input).remaining().len() as int));
    Some((hi as u16) * 256 + (lo as u16))
}

/// Reads exactly `n` bytes.
pub fn read_bytes<R: ByteInput>(input: &mut R, n: usize) -> (r: Option<Vec<u8>>)
    ensures
        old(input).remaining().len() < n ==> r is None,
        old(input).remaining().len() >= n ==> r is Some && r->Some_0@ == old(input).remaining().subrange(
            0,
            n as int,
        ) && final(input).remaining() == old(input).remaining().subrange(
            n as int,
            old(input).remaining().len() as int,
        ),
{
    let ghost src = input.remaining();
    let mut out: Vec<u8> = Vec::new();
    let mut k: usize = 0;
    while k < n
        invariant
            k <= n,
            k <= src.len(),
            src == old(input).remaining(),
            out@ == src.subrange(0, k as int),
            input.remaining() == src.subrange(k as int, src.len() as int),
        decreases n - k,
    {
        match input.read_u8() {
            Some(b) => {
                out.push(b);
                assert(out@ =~= src.subrange(0, k + 1));
                assert(input.remaining() =~= src.subrange(k + 1, src.len() as int));
            },
            None => {
                return None;
            },
        }
        k = k + 1;
    }
    Some(out)
}

} // verus!
