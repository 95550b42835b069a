use vstd::prelude::*;
use vstd::arithmetic::div_mod::{lemma_mod_add_multiples_vanish, lemma_small_mod, lemma_mod_bound};

use crate::error::Lzma2Error;
use crate::input::ByteInput;

verus! {

/// Abstract state of a decoder dictionary.
pub ghost struct DictView {
    /// The whole circular buffer; its length is the capacity.
    pub buf: Seq<u8>,
    /// Offset of the first byte not yet flushed.
    pub start: int,
    /// Offset of the next byte to write.
    pub pos: int,
    /// High-water mark of valid history.
    pub full: int,
    /// Largest `pos` the current production step may reach.
    pub limit: int,
    /// Length of a deferred back-reference copy.
    pub pending_len: int,
    /// Distance (minus one) of the deferred copy.
    pub pending_dist: int,
}

impl DictView {
    pub open spec fn capacity(self) -> int {
        self.buf.len() as int
    }

    pub open spec fn valid(self) -> bool {
        &&& 0 <= self.start <= self.pos <= self.capacity()
        &&& self.pos <= self.full <= self.capacity()
        &&& 0 <= self.limit <= self.capacity()
        &&& 0 <= self.pending_len
        &&& 0 <= self.pending_dist
        &&& self.capacity() <= usize::MAX
    }
}

/// Index of the byte `d` places behind offset `i` in a circular buffer of
/// `cap` bytes, for `0 <= i` and `0 < d <= cap`.
pub open spec fn circular_back(i: int, d: int, cap: int) -> int {
    if i - d < 0 {
        i - d + cap
    } else {
        i - d
    }
}

/// The byte that the `k`-th step of a back-reference of period `d` starting at
/// offset `pos` produces: the history repeats with period `d`.
pub open spec fn repeat_byte(buf: Seq<u8>, pos: int, d: int, k: int) -> u8 {
    buf[circular_back(pos + k % d, d, buf.len() as int)]
}

/// The buffer after `n` bytes of a back-reference of period `d` were written at `pos`.
pub open spec fn repeat_result(buf: Seq<u8>, pos: int, d: int, n: int) -> Seq<u8> {
    Seq::new(buf.len(), |j: int| if pos <= j < pos + n { repeat_byte(buf, pos, d, j - pos) } else { buf[j] })
}

/// What `get_byte(dist)` returns: the byte `dist + 1` places behind `pos`,
/// wrapping through the end of the buffer, or 0 where no such offset exists.
pub open spec fn byte_behind(v: DictView, dist: int) -> u8 {
    if dist < v.pos {
        v.buf[v.pos - dist - 1]
    } else if dist < v.capacity() + v.pos {
        v.buf[v.capacity() + v.pos - dist - 1]
    } else {
        0
    }
}

pub open spec fn max_int(a: int, b: int) -> int {
    if a < b { b } else { a }
}

pub open spec fn min_int(a: int, b: int) -> int {
    if a < b { a } else { b }
}

/// The dictionary after `repeat(dist, len)` succeeded: as many bytes as the
/// limit allows are written, the rest is deferred.
pub open spec fn repeat_view(v: DictView, dist: int, len: int) -> DictView {
    let n = min_int(v.limit - v.pos, len);
    DictView {
        buf: repeat_result(v.buf, v.pos, dist + 1, n),
        pos: v.pos + n,
        full: max_int(v.full, v.pos + n),
        pending_len: len - n,
        pending_dist: dist,
        ..v
    }
}

/// One step of a back-reference: byte `k` of a copy of
/// period `d` starting at `pos` reads the history as it was before the copy.
proof fn lemma_repeat_step(buf: Seq<u8>, pos: int, d: int, k: int)
    requires
        0 <= pos,
        0 < d,
        0 <= k,
    ensures
        k >= d ==> repeat_byte(buf, pos, d, k) == repeat_byte(buf, pos, d, k - d),
        k < d ==> repeat_byte(buf, pos, d, k) == buf[circular_back(pos + k, d, buf.len() as int)],
{
    if k >= d {
        lemma_mod_add_multiples_vanish(k - d, d);
    } else {
        lemma_small_mod(k as nat, d as nat);
    }
}

/// The dictionary after `reset`: no history; the last byte of the buffer is
/// cleared so that a read one place behind offset 0 yields 0.
pub open spec fn reset_view(v: DictView) -> DictView {
    DictView {
        buf: if v.capacity() > 0 { v.buf.update(v.capacity() - 1, 0u8) } else { v.buf },
        start: 0,
        pos: 0,
        full: 0,
        limit: 0,
        ..v
    }
}

/// The dictionary after `put_byte(b)`.
pub open spec fn put_byte_view(v: DictView, b: u8) -> DictView {
    DictView { buf: v.buf.update(v.pos, b), pos: v.pos + 1, full: max_int(v.full, v.pos + 1), ..v }
}

/// The dictionary after a successful `flush`: everything is flushed, and a
/// write position at the end of the buffer wraps to 0.
pub open spec fn flush_view(v: DictView) -> DictView {
    let p = if v.pos == v.capacity() { 0 } else { v.pos };
    DictView { pos: p, start: p, ..v }
}

/// Appending a byte keeps every unflushed byte and adds the new one after
/// them; once the buffer is full, a flush wraps the write position to 0.
pub proof fn lemma_put_byte_wraps(v: DictView, b: u8)
    requires
        v.valid(),
        v.pos < v.capacity(),
    ensures
        put_byte_view(v, b).valid(),
        put_byte_view(v, b).buf.subrange(v.start, v.pos + 1) == v.buf.subrange(v.start, v.pos).push(b),
        put_byte_view(v, b).pos == v.capacity() ==> flush_view(put_byte_view(v, b)).pos == 0
            && flush_view(put_byte_view(v, b)).start == 0,
        put_byte_view(v, b).pos < v.capacity() ==> flush_view(put_byte_view(v, b)).pos == v.pos + 1,
{
    assert(put_byte_view(v, b).buf.subrange(v.start, v.pos + 1) =~= v.buf.subrange(v.start, v.pos).push(b));
}

proof fn lemma_repeat_split(b: Seq<u8>, p: int, d: int, a: int, k: int)
    requires
        0 <= p,
        0 < d <= b.len(),
        0 <= a,
        0 <= k,
        p + a + k < b.len(),
    ensures
        repeat_byte(repeat_result(b, p, d, a), p + a, d, k) == repeat_byte(b, p, d, a + k),
    decreases k,
{
    let b1 = repeat_result(b, p, d, a);
    let cap = b.len() as int;
    lemma_repeat_step(b1, p + a, d, k);
    lemma_repeat_step(b, p, d, a + k);
    if k >= d {
        lemma_repeat_split(b, p, d, a, k - d);
    } else {
        let i = circular_back(p + a + k, d, cap);
        if p + a + k - d >= 0 && a + k >= d {
            lemma_repeat_step(b, p, d, a + k - d);
        }
    }
}

/// A repeat cut short by the limit, resumed by `repeat_pending` once the
/// limit allows the rest, writes exactly what one uncut repeat would have.
pub proof fn lemma_repeat_resumes(v: DictView, dist: int, len: int, more: int)
    requires
        v.valid(),
        0 <= dist < v.full,
        0 <= len,
        v.pos <= v.limit,
        v.pos + len <= v.capacity(),
    ensures
        ({
            let v1 = repeat_view(v, dist, len);
            let v2 = DictView { limit: min_int(v1.pos + more, v1.capacity()), ..v1 };
            let v3 = repeat_view(v2, v1.pending_dist, v1.pending_len);
            &&& v1.pending_dist < v1.full
            &&& more >= v1.pending_len ==> {
                &&& v3.buf == repeat_result(v.buf, v.pos, dist + 1, len)
                &&& v3.pos == v.pos + len
                &&& v3.pending_len == 0
            }
        }),
{
    let v1 = repeat_view(v, dist, len);
    let v2 = DictView { limit: min_int(v1.pos + more, v1.capacity()), ..v1 };
    let v3 = repeat_view(v2, v1.pending_dist, v1.pending_len);
    let a = v1.pos - v.pos;
    if more >= v1.pending_len {
        assert forall|j: int| 0 <= j < v.buf.len() implies v3.buf[j] == repeat_result(
            v.buf,
            v.pos,
            dist + 1,
            len,
        )[j] by {
            if v1.pos <= j < v1.pos + v1.pending_len {
                lemma_repeat_split(v.buf, v.pos, dist + 1, a, j - v1.pos);
            }
        }
        assert(v3.buf =~= repeat_result(v.buf, v.pos, dist + 1, len));
    }
}

/// The maximal overlap: a back-reference to the byte just written repeats
/// that byte for the whole length.
pub proof fn lemma_repeat_distance_one(b: Seq<u8>, pos: int, n: int)
    requires
        1 <= pos <= b.len(),
        0 <= n,
        pos + n <= b.len(),
    ensures
        forall|j: int| pos <= j < pos + n ==> #[trigger] repeat_result(b, pos, 1, n)[j] == b[pos - 1],
{
    assert forall|j: int| pos <= j < pos + n implies #[trigger] repeat_result(b, pos, 1, n)[j] == b[pos - 1] by {
        assert((j - pos) % 1 == 0) by (nonlinear_arith)
            requires
                j - pos >= 0,
        ;
    }
}

/// The circular output buffer of a decoder.
pub struct LzDecoder {
    buf: Vec<u8>,
    start: usize,
    pos: usize,
    full: usize,
    limit: usize,
    pending_len: usize,
    pending_dist: usize,
}

impl View for LzDecoder {
    type V = DictView;

    closed spec fn view(&self) -> DictView {
        DictView {
            buf: self.buf@,
            start: self.start as int,
            pos: self.pos as int,
            full: self.full as int,
            limit: self.limit as int,
            pending_len: self.pending_len as int,
            pending_dist: self.pending_dist as int,
        }
    }
}

impl LzDecoder {
    pub open spec fn wf(&self) -> bool {
        self@.valid()
    }

    /// Creates a dictionary of `dict_size` bytes, seeded with the last
    /// `dict_size` bytes of `preset_dict` when one is given.
    pub fn new(dict_size: usize, preset_dict: Option<&[u8]>) -> (r: Self)
        ensures
            r.wf(),
            r@.capacity() == dict_size,
            r@.limit == 0,
            r@.pending_len == 0,
            r@.pending_dist == 0,
            match preset_dict {
                None => r@.pos == 0 && r@.buf == Seq::new(dict_size as nat, |i: int| 0u8),
                Some(p) => {
                    let n = min_int(p@.len() as int, dict_size as int);
                    &&& r@.pos == n
                    &&& r@.buf.subrange(0, n) == p@.subrange(p@.len() - n, p@.len() as int)
                    &&& forall|i: int| n <= i < dict_size ==> r@.buf[i] == 0u8
                },
            },
            r@.full == r@.pos,
            r@.start == r@.pos,
    {
        let mut buf: Vec<u8> = Vec::new();
        let mut i: usize = 0;
        while i < dict_size
            invariant
                i <= dict_size,
                buf@.len() == i,
                forall|j: int| 0 <= j < i ==> buf@[j] == 0u8,
            decreases dict_size - i,
        {
            buf.push(0u8);
            i = i + 1;
        }
        let mut pos: usize = 0;
        match preset_dict {
            Some(preset) => {
                pos = if preset.len() < dict_size { preset.len() } else { dict_size };
                let skip: usize = preset.len() - pos;
                assert(preset@.len() == preset.len());
                let mut k: usize = 0;
                while k < pos
                    invariant
                        pos <= dict_size,
                        skip + pos == preset@.len(),
                        preset@.len() == preset.len(),
                        k <= pos,
                        buf@.len() == dict_size,
                        forall|j: int| 0 <= j < k ==> buf@[j] == preset@[skip + j],
                        forall|j: int| pos <= j < dict_size ==> buf@[j] == 0u8,
                    decreases pos - k,
                {
                    buf[k] = preset[skip + k];
                    k = k + 1;
                }
                assert(buf@.subrange(0, pos as int) =~= preset@.subrange(skip as int, preset@.len() as int));
            },
            None => {
                assert(buf@ =~= Seq::new(dict_size as nat, |i: int| 0u8));
            },
        }
        LzDecoder { buf, start: pos, pos, full: pos, limit: 0, pending_len: 0, pending_dist: 0 }
    }

    /// Forgets all history at a dictionary-reset chunk boundary.
    pub fn reset(&mut self)
        requires
            old(self).wf(),
        ensures
            final(self).wf(),
            final(self)@ == reset_view(old(self)@),
    {
        self.start = 0;
        self.pos = 0;
        self.full = 0;
        self.limit = 0;
        let n = self.buf.len();
        if n > 0 {
            self.buf[n - 1] = 0;
        }
    }

    /// Bounds the next production step to `out_max` more bytes.
    pub fn set_limit(&mut self, out_max: usize)
        requires
            old(self).wf(),
        ensures
            final(self).wf(),
            final(self)@ == (DictView {
                limit: min_int(old(self)@.pos + out_max, old(self)@.capacity()),
                ..old(self)@
            }),
    {
        let room = self.buf.len() - self.pos;
        self.limit = if out_max < room { self.pos + out_max } else { self.buf.len() };
    }

    pub fn has_space(&self) -> (r: bool)
        ensures
            r == (self@.pos < self@.limit),
    {
        self.pos < self.limit
    }

    pub fn has_pending(&self) -> (r: bool)
        ensures
            r == (self@.pending_len > 0),
    {
        self.pending_len > 0
    }

    pub fn get_pos(&self) -> (r: usize)
        ensures
            r == self@.pos,
    {
        self.pos
    }

    /// The capacity of the buffer.
    pub fn capacity(&self) -> (r: usize)
        ensures
            r == self@.capacity(),
    {
        self.buf.len()
    }

    /// Tells whether the dictionary's cursors are consistent.
    pub fn is_consistent(&self) -> (r: bool)
        ensures
            r == self.wf(),
    {
        self.start <= self.pos && self.pos <= self.full && self.full <= self.buf.len()
            && self.limit <= self.buf.len()
    }

    /// Returns the byte `dist + 1` places behind the write position.
    pub fn get_byte(&self, dist: usize) -> (r: u8)
        requires
            self.wf(),
        ensures
            r == byte_behind(self@, dist as int),
    {
        if dist < self.pos {
            self.buf[self.pos - dist - 1]
        } else {
            let back = dist - self.pos;
            if back < self.buf.len() {
                self.buf[self.buf.len() - back - 1]
            } else {
                0
            }
        }
    }

    /// Appends one byte at the write position.
    pub fn put_byte(&mut self, b: u8)
        requires
            old(self).wf(),
            old(self)@.pos < old(self)@.capacity(),
        ensures
            final(self).wf(),
            final(self)@ == put_byte_view(old(self)@, b),
    {
        self.buf[self.pos] = b;
        self.pos = self.pos + 1;
        if self.full < self.pos {
            self.full = self.pos;
        }
    }
    /// Copies `len` bytes from `dist + 1` places behind the write position,
    /// as far as the limit allows; the rest is kept as a deferred repeat.
    pub fn repeat(&mut self, dist: usize, len: usize) -> (r: Result<(), Lzma2Error>)
        requires
            old(self).wf(),
            old(self)@.pos <= old(self)@.limit,
        ensures
            final(self).wf(),
            dist >= old(self)@.full ==> r == Err::<(), Lzma2Error>(Lzma2Error::CorruptStream)
                && final(self)@ == old(self)@,
            dist < old(self)@.full ==> r == Ok::<(), Lzma2Error>(())
                && final(self)@ == repeat_view(old(self)@, dist as int, len as int),
    {
        if dist >= self.full {
            return Err(Lzma2Error::CorruptStream);
        }
        let room = self.limit - self.pos;
        let left: usize = if len < room { len } else { room };
        self.pending_len = len - left;
        self.pending_dist = dist;
        let ghost old_buf = self.buf@;
        let ghost v0 = self@;
        let cap = self.buf.len();
        let pos = self.pos;
        let d = dist + 1;
        let mut k: usize = 0;
        if pos < d {
            // The source lies behind the start of the buffer: copy from its
            // tail until the source cursor comes back to offset 0.
            let back = cap - (d - pos);
            let tail = d - pos;
            let n1: usize = if tail < left { tail } else { left };
            while k < n1
                invariant
                    self.buf@.len() == cap,
                    self@ == (DictView { buf: self.buf@, ..v0 }),
                    cap == old_buf.len(),
                    pos + left <= cap,
                    d <= cap,
                    0 < d,
                    pos < d,
                    back + tail == cap,
                    back == cap + pos - d,
                    n1 <= tail,
                    n1 <= left,
                    k <= n1,
                    forall|j: int| 0 <= j < cap ==> self.buf@[j] == (if pos <= j < pos + k {
                        repeat_byte(old_buf, pos as int, d as int, j - pos)
                    } else {
                        old_buf[j]
                    }),
                decreases n1 - k,
            {
                proof {
                    lemma_repeat_step(old_buf, pos as int, d as int, k as int);
                }
                let b = self.buf[back + k];
                self.buf[pos + k] = b;
                k = k + 1;
            }
        }
        // The source now trails the destination inside the buffer. Where the
        // distance is shorter than the copy, bytes written here become the
        // source of later ones, which repeats the pattern.
        while k < left
            invariant
                self.buf@.len() == cap,
                self@ == (DictView { buf: self.buf@, ..v0 }),
                cap == old_buf.len(),
                pos + left <= cap,
                d <= cap,
                0 < d,
                k <= left,
                k < left ==> pos + k >= d,
                forall|j: int| 0 <= j < cap ==> self.buf@[j] == (if pos <= j < pos + k {
                    repeat_byte(old_buf, pos as int, d as int, j - pos)
                } else {
                    old_buf[j]
                }),
            decreases left - k,
        {
            proof {
                lemma_repeat_step(old_buf, pos as int, d as int, k as int);
                if k >= d {
                    lemma_repeat_step(old_buf, pos as int, d as int, (k - d) as int);
                }
            }
            let b = self.buf[pos + k - d];
            self.buf[pos + k] = b;
            k = k + 1;
        }
        self.pos = pos + left;
        if self.full < self.pos {
            self.full = self.pos;
        }
        assert(self.buf@ =~= repeat_result(old_buf, pos as int, d as int, left as int));
        Ok(())
    }

    /// Resumes a repeat that the limit cut short.
    pub fn repeat_pending(&mut self) -> (r: Result<(), Lzma2Error>)
        requires
            old(self).wf(),
            old(self)@.pending_len > 0 ==> old(self)@.pos <= old(self)@.limit,
        ensures
            final(self).wf(),
            old(self)@.pending_len == 0 ==> r == Ok::<(), Lzma2Error>(()) && final(self)@ == old(self)@,
            old(self)@.pending_len > 0 && old(self)@.pending_dist >= old(self)@.full ==> r == Err::<
                (),
                Lzma2Error,
            >(Lzma2Error::CorruptStream) && final(self)@ == old(self)@,
            old(self)@.pending_len > 0 && old(self)@.pending_dist < old(self)@.full ==> r == Ok::<
                (),
                Lzma2Error,
            >(()) && final(self)@ == repeat_view(
                old(self)@,
                old(self)@.pending_dist,
                old(self)@.pending_len,
            ),
    {
        if self.pending_len > 0 {
            let dist = self.pending_dist;
            let len = self.pending_len;
            self.repeat(dist, len)
        } else {
            Ok(())
        }
    }
    /// Copies raw bytes from `input` to the write position: `len` of them, or
    /// as many as fit before the end of the buffer.
    pub fn copy_uncompressed<R: ByteInput>(&mut self, input: &mut R, len: usize) -> (r: Result<
        (),
        Lzma2Error,
    >)
        requires
            old(self).wf(),
        ensures
            final(self).wf(),
            ({
                let n = min_int(old(self)@.capacity() - old(self)@.pos, len as int);
                let src = old(input).remaining();
                &&& src.len() < n ==> r == Err::<(), Lzma2Error>(Lzma2Error::UnexpectedEof)
                    && final(self)@ == (DictView { buf: final(self)@.buf, ..old(self)@ })
                    && final(self)@.buf.len() == old(self)@.buf.len()
                &&& src.len() >= n ==> {
                    &&& r == Ok::<(), Lzma2Error>(())
                    &&& final(input).remaining() == src.subrange(n, src.len() as int)
                    &&& final(self)@ == (DictView {
                        buf: old(self)@.buf.subrange(0, old(self)@.pos) + src.subrange(0, n)
                            + old(self)@.buf.subrange(old(self)@.pos + n, old(self)@.capacity()),
                        pos: old(self)@.pos + n,
                        full: max_int(old(self)@.full, old(self)@.pos + n),
                        ..old(self)@
                    })
                }
            }),
    {
        let room = self.buf.len() - self.pos;
        let n: usize = if len < room { len } else { room };
        let pos = self.pos;
        let ghost v0 = self@;
        let ghost src = input.remaining();
        let mut k: usize = 0;
        while k < n
            invariant
                k <= n,
                pos + n <= self.buf@.len(),
                pos == v0.pos,
                v0 == old(self)@,
                n == min_int(v0.capacity() - v0.pos, len as int),
                src == old(input).remaining(),
                v0.valid(),
                self@ == (DictView { buf: self.buf@, ..v0 }),
                self.buf@.len() == v0.buf.len(),
                k <= src.len(),
                input.remaining() == src.subrange(k as int, src.len() as int),
                forall|j: int| 0 <= j < self.buf@.len() ==> self.buf@[j] == (if pos <= j < pos + k {
                    src[j - pos]
                } else {
                    v0.buf[j]
                }),
            decreases n - k,
        {
            match input.read_u8() {
                Some(b) => {
                    self.buf[pos + k] = b;
                    assert(input.remaining() =~= src.subrange(k + 1, src.len() as int));
                },
                None => {
                    assert(src.len() == k);
                    return Err(Lzma2Error::UnexpectedEof);
                },
            }
            k = k + 1;
        }
        self.pos = pos + n;
        if self.full < self.pos {
            self.full = self.pos;
        }
        assert(self.buf@ =~= v0.buf.subrange(0, pos as int) + src.subrange(0, n as int)
            + v0.buf.subrange(pos + n, v0.buf.len() as int));
        Ok(())
    }

    /// Copies the unflushed bytes `[start, pos)` into `out` at `out_off`, wraps
    /// the write position to 0 when it reached the end of the buffer, and
    /// marks everything as flushed. Returns the number of bytes copied.
    pub fn flush(&mut self, out: &mut [u8], out_off: usize) -> (r: Result<usize, Lzma2Error>)
        requires
            old(self).wf(),
        ensures
            final(self).wf(),
            ({
                let v = old(self)@;
                let n = v.pos - v.start;
                &&& out_off + n > old(out)@.len() ==> r == Err::<usize, Lzma2Error>(
                    Lzma2Error::InvalidData,
                ) && final(self)@ == v && final(out)@ == old(out)@
                &&& out_off + n <= old(out)@.len() ==> {
                    &&& r == Ok::<usize, Lzma2Error>(n as usize)
                    &&& final(out)@ == old(out)@.subrange(0, out_off as int) + v.buf.subrange(
                        v.start,
                        v.pos,
                    ) + old(out)@.subrange(out_off + n, old(out)@.len() as int)
                    &&& final(self)@ == flush_view(v)
                }
            }),
    {
        let n = self.pos - self.start;
        if out_off > out.len() || n > out.len() - out_off {
            return Err(Lzma2Error::InvalidData);
        }
        let ghost out0 = out@;
        let start = self.start;
        let mut k: usize = 0;
        while k < n
            invariant
                k <= n,
                start + n <= self.buf@.len(),
                self.wf(),
                out@.len() == out.len(),
                out_off + n <= out@.len(),
                out@.len() == out0.len(),
                forall|j: int| 0 <= j < out@.len() ==> out@[j] == (if out_off <= j < out_off + k {
                    self.buf@[start + j - out_off]
                } else {
                    out0[j]
                }),
            decreases n - k,
        {
            out[out_off + k] = self.buf[start + k];
            k = k + 1;
        }
        if self.pos == self.buf.len() {
            self.pos = 0;
        }
        self.start = self.pos;
        assert(out@ =~= out0.subrange(0, out_off as int) + self.buf@.subrange(start as int, start + n)
            + out0.subrange(out_off + n, out0.len() as int));
        Ok(n)
    }
}

} // verus!
