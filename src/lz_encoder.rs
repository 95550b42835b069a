use vstd::prelude::*;

use crate::lz_decoder::min_int;

verus! {

/// Compaction moves the window by multiples of a 64-byte cache line.
pub const MOVE_BLOCK_ALIGN: i32 = 64;

pub const MOVE_BLOCK_ALIGN_MASK: i32 = !(MOVE_BLOCK_ALIGN - 1);

/// The match finder that searches the window; it advances the window's read
/// position through `move_pos`. Nothing is assumed of what it does to the
/// window.
pub trait MatchFind {
    /// Finds the matches at the next position and stores them in `matches`.
    fn find_matches(&mut self, encoder: &mut LzEncoderData, matches: &mut Matches)
        requires
            old(encoder).wf(),
    ;

    /// Advances past `len` positions, updating the search structures.
    fn skip(&mut self, encoder: &mut LzEncoderData, len: usize)
        requires
            old(encoder).wf(),
    ;
}

/// Match finders to use when encoding.
#[derive(Clone, Copy, Debug, PartialEq, Eq, Structural)]
pub enum MfType {
    /// Hash chain for 4 bytes entries (lower quality but faster).
    Hc4,
    /// Binary tree for 4 byte entries (higher quality but slower).
    Bt4,
}

impl Default for MfType {
    fn default() -> (r: Self)
        ensures
            r == MfType::Hc4,
    {
        MfType::Hc4
    }
}

/// The matches found at one position: `count` pairs of length and distance.
pub struct Matches {
    pub len: Vec<u32>,
    pub dist: Vec<i32>,
    pub count: u32,
}

impl Matches {
    /// Room for `count_max` matches, none stored.
    pub fn new(count_max: usize) -> (r: Self)
        ensures
            r.len@ == Seq::new(count_max as nat, |i: int| 0u32),
            r.dist@ == Seq::new(count_max as nat, |i: int| 0i32),
            r.count == 0,
    {
        let mut len: Vec<u32> = Vec::new();
        let mut dist: Vec<i32> = Vec::new();
        let mut i: usize = 0;
        while i < count_max
            invariant
                i <= count_max,
                len@ == Seq::new(i as nat, |j: int| 0u32),
                dist@ == Seq::new(i as nat, |j: int| 0i32),
            decreases count_max - i,
        {
            len.push(0);
            dist.push(0);
            i = i + 1;
            assert(len@ =~= Seq::new(i as nat, |j: int| 0u32));
            assert(dist@ =~= Seq::new(i as nat, |j: int| 0i32));
        }
        Matches { len, dist, count: 0 }
    }
}

/// Abstract state of an encoder window.
pub ghost struct WindowView {
    pub buf: Seq<u8>,
    pub keep_size_before: int,
    pub keep_size_after: int,
    pub match_len_max: int,
    pub nice_len: int,
    pub read_pos: int,
    pub read_limit: int,
    pub finishing: bool,
    pub write_pos: int,
    pub pending_size: int,
}

impl WindowView {
    pub open spec fn valid(self) -> bool {
        &&& self.buf.len() < i32::MAX
        &&& 0 <= self.keep_size_before
        &&& 0 <= self.keep_size_after
        &&& self.keep_size_before + self.keep_size_after < self.buf.len()
        &&& -1 <= self.read_pos <= self.write_pos <= self.buf.len()
        &&& 0 <= self.write_pos
        &&& i32::MIN <= self.read_limit <= self.write_pos
        &&& 0 <= self.pending_size <= self.read_pos + 1
        &&& self.pending_size <= self.keep_size_before
    }

    /// How far a compaction moves the window: back to `keep_size_before`
    /// bytes before the read position, rounded down to the block alignment.
    pub open spec fn move_offset(self) -> int {
        let x = self.read_pos + 1 - self.keep_size_before;
        x - x % 64
    }
}

/// The window after a compaction by `off` bytes.
pub open spec fn moved_view(v: WindowView, off: int) -> WindowView {
    WindowView {
        buf: v.buf.subrange(off, v.write_pos) + v.buf.subrange(v.write_pos - off, v.buf.len() as int),
        read_pos: v.read_pos - off,
        read_limit: v.read_limit - off,
        write_pos: v.write_pos - off,
        ..v
    }
}

/// Whether a compaction comes first when input is appended.
pub open spec fn needs_move(v: WindowView) -> bool {
    v.read_pos >= v.buf.len() - v.keep_size_after
}

/// The window after appending as much of `input` as fits, before deferred
/// positions are replayed.
pub open spec fn filled_view(v: WindowView, input: Seq<u8>) -> WindowView {
    let w = if needs_move(v) { moved_view(v, v.move_offset()) } else { v };
    let n = min_int(input.len() as int, w.buf.len() - w.write_pos);
    WindowView {
        buf: w.buf.subrange(0, w.write_pos) + input.subrange(0, n) + w.buf.subrange(
            w.write_pos + n,
            w.buf.len() as int,
        ),
        write_pos: w.write_pos + n,
        read_limit: if w.write_pos + n >= w.keep_size_after {
            w.write_pos + n - w.keep_size_after
        } else {
            w.read_limit
        },
        ..w
    }
}

/// How many bytes `fill_window` appends.
pub open spec fn fill_len(v: WindowView, input: Seq<u8>) -> int {
    let w = if needs_move(v) { moved_view(v, v.move_offset()) } else { v };
    min_int(input.len() as int, w.buf.len() - w.write_pos)
}

/// Whether deferred positions can be replayed now.
pub open spec fn replay_ready(v: WindowView) -> bool {
    v.pending_size > 0 && v.read_pos < v.read_limit
}

/// The window after deferred positions were handed back for replay.
pub open spec fn rewound_view(v: WindowView) -> WindowView {
    if replay_ready(v) {
        WindowView { read_pos: v.read_pos - v.pending_size, pending_size: 0, ..v }
    } else {
        v
    }
}

/// The encoder's linear lookahead window.
pub struct LzEncoderData {
    keep_size_before: u32,
    keep_size_after: u32,
    match_len_max: u32,
    nice_len: u32,
    buf: Vec<u8>,
    read_pos: i32,
    read_limit: i32,
    finishing: bool,
    write_pos: i32,
    pending_size: u32,
}

impl View for LzEncoderData {
    type V = WindowView;

    closed spec fn view(&self) -> WindowView {
        WindowView {
            buf: self.buf@,
            keep_size_before: self.keep_size_before as int,
            keep_size_after: self.keep_size_after as int,
            match_len_max: self.match_len_max as int,
            nice_len: self.nice_len as int,
            read_pos: self.read_pos as int,
            read_limit: self.read_limit as int,
            finishing: self.finishing,
            write_pos: self.write_pos as int,
            pending_size: self.pending_size as int,
        }
    }
}

impl LzEncoderData {
    pub open spec fn wf(&self) -> bool {
        self@.valid()
    }

    /// An empty window for the given dictionary, margins and match lengths.
    pub fn new(
        dict_size: u32,
        extra_size_before: u32,
        extra_size_after: u32,
        nice_len: u32,
        match_len_max: u32,
    ) -> (r: Self)
        requires
            buf_size_spec(dict_size, extra_size_before, extra_size_after, match_len_max) < i32::MAX,
        ensures
            r.wf(),
            r@.buf == Seq::new(
                buf_size_spec(dict_size, extra_size_before, extra_size_after, match_len_max) as nat,
                |i: int| 0u8,
            ),
            r@.keep_size_before == extra_size_before + dict_size,
            r@.keep_size_after == extra_size_after + match_len_max,
            r@.match_len_max == match_len_max,
            r@.nice_len == nice_len,
            r@.read_pos == -1,
            r@.read_limit == -1,
            !r@.finishing,
            r@.write_pos == 0,
            r@.pending_size == 0,
    {
        let buf_size = get_buf_size(dict_size, extra_size_before, extra_size_after, match_len_max) as usize;
        let mut buf: Vec<u8> = Vec::new();
        let mut i: usize = 0;
        while i < buf_size
            invariant
                i <= buf_size,
                buf@ == Seq::new(i as nat, |j: int| 0u8),
            decreases buf_size - i,
        {
            buf.push(0u8);
            i = i + 1;
            assert(buf@ =~= Seq::new(i as nat, |j: int| 0u8));
        }
        LzEncoderData {
            keep_size_before: extra_size_before + dict_size,
            keep_size_after: extra_size_after + match_len_max,
            match_len_max,
            nice_len,
            buf,
            read_pos: -1,
            read_limit: -1,
            finishing: false,
            write_pos: 0,
            pending_size: 0,
        }
    }

    pub fn is_started(&self) -> (r: bool)
        ensures
            r == (self@.read_pos != -1),
    {
        self.read_pos != -1
    }

    /// The bytes from the read position on.
    pub fn read_buffer(&self) -> (r: &[u8])
        requires
            self.wf(),
            self@.read_pos >= 0,
        ensures
            r@ == self@.buf.subrange(self@.read_pos, self@.buf.len() as int),
    {
        vstd::slice::slice_subrange(self.buf.as_slice(), self.read_pos as usize, self.buf.len())
    }

    /// Shifts the live part of the buffer down to offset 0, keeping
    /// `keep_size_before` bytes before the read position.
    fn move_window(&mut self)
        requires
            old(self).wf(),
            needs_move(old(self)@),
            old(self)@.read_limit - old(self)@.move_offset() >= i32::MIN,
            old(self)@.move_offset() <= old(self)@.write_pos,
        ensures
            final(self).wf(),
            final(self)@ == moved_view(old(self)@, old(self)@.move_offset()),
    {
        let x: i32 = self.read_pos + 1 - self.keep_size_before as i32;
        let mask: i32 = !(MOVE_BLOCK_ALIGN - 1);
        assert(mask == !63i32);
        assert(x >= 0 ==> (x & !63i32) == x - x % 64) by (bit_vector);
        let move_offset: i32 = x & mask;
        let off = move_offset as usize;
        let end = self.write_pos as usize;
        let ghost old_buf = self.buf@;
        let ghost v0 = self@;
        let mut k: usize = off;
        while k < end
            invariant
                off <= k <= end,
                end <= old_buf.len(),
                self.buf@.len() == old_buf.len(),
                self@ == (WindowView { buf: self.buf@, ..v0 }),
                forall|j: int| 0 <= j < k - off ==> self.buf@[j] == old_buf[j + off],
                forall|j: int| k - off <= j < old_buf.len() ==> self.buf@[j] == old_buf[j],
            decreases end - k,
        {
            let b = self.buf[k];
            self.buf[k - off] = b;
            k = k + 1;
        }
        self.read_pos = self.read_pos - move_offset;
        self.read_limit = self.read_limit - move_offset;
        self.write_pos = self.write_pos - move_offset;
        assert(self.buf@ =~= old_buf.subrange(off as int, end as int) + old_buf.subrange(
            end - off,
            old_buf.len() as int,
        ));
    }

    /// Hands deferred positions back for replay when the read limit allows:
    /// rewinds the read position over them and returns how many there are.
    fn take_pending(&mut self) -> (r: u32)
        requires
            old(self).wf(),
        ensures
            final(self).wf(),
            final(self)@ == rewound_view(old(self)@),
            r == (if replay_ready(old(self)@) { old(self)@.pending_size } else { 0 }),
    {
        if self.pending_size > 0 && self.read_pos < self.read_limit {
            self.read_pos = self.read_pos - self.pending_size as i32;
            let old_pending = self.pending_size;
            self.pending_size = 0;
            old_pending
        } else {
            0
        }
    }

    /// Replays deferred positions through the match finder once enough
    /// lookahead exists.
    fn process_pending_bytes<M: MatchFind>(&mut self, match_finder: &mut M)
        requires
            old(self).wf(),
        ensures
            !replay_ready(old(self)@) ==> final(self)@ == old(self)@,
    {
        let replay = self.take_pending();
        if replay > 0 {
            match_finder.skip(self, replay as usize);
        }
    }

    /// Seeds the window with the last `dict_size` bytes of `preset_dict`.
    pub fn set_preset_dict<M: MatchFind>(
        &mut self,
        dict_size: u32,
        preset_dict: &[u8],
        match_finder: &mut M,
    )
        requires
            old(self).wf(),
            old(self)@.read_pos == -1,
            old(self)@.write_pos == 0,
            min_int(preset_dict@.len() as int, dict_size as int) <= old(self)@.buf.len(),
    {
        let copy_size: usize = if preset_dict.len() < dict_size as usize {
            preset_dict.len()
        } else {
            dict_size as usize
        };
        let offset = preset_dict.len() - copy_size;
        let ghost v0 = self@;
        let mut k: usize = 0;
        while k < copy_size
            invariant
                k <= copy_size,
                copy_size <= self.buf@.len(),
                offset + copy_size == preset_dict@.len(),
                preset_dict@.len() == preset_dict.len(),
                self@ == (WindowView { buf: self.buf@, ..v0 }),
                self.buf@.len() == v0.buf.len(),
            decreases copy_size - k,
        {
            self.buf[k] = preset_dict[offset + k];
            k = k + 1;
        }
        self.write_pos = self.write_pos + copy_size as i32;
        match_finder.skip(self, copy_size);
    }

    /// Appends as much of `input` as fits, compacting first when the read
    /// position is near the end, and returns the number of bytes taken.
    pub fn fill_window<M: MatchFind>(&mut self, input: &[u8], match_finder: &mut M) -> (r: usize)
        requires
            old(self).wf(),
            needs_move(old(self)@) ==> old(self)@.read_limit - old(self)@.move_offset() >= i32::MIN
                && old(self)@.move_offset() <= old(self)@.write_pos,
        ensures
            r == fill_len(old(self)@, input@),
            filled_view(old(self)@, input@).valid(),
            !replay_ready(filled_view(old(self)@, input@)) ==> final(self)@ == filled_view(
                old(self)@,
                input@,
            ),
    {
        if self.read_pos >= self.buf.len() as i32 - self.keep_size_after as i32 {
            self.move_window();
        }
        let room = self.buf.len() - self.write_pos as usize;
        let len: usize = if input.len() > room { room } else { input.len() };
        let start = self.write_pos as usize;
        let ghost v1 = self@;
        let mut k: usize = 0;
        while k < len
            invariant
                k <= len,
                start == v1.write_pos,
                start + len <= v1.buf.len(),
                len <= input@.len(),
                v1.valid(),
                self@ == (WindowView { buf: self.buf@, ..v1 }),
                self.buf@.len() == v1.buf.len(),
                forall|j: int| 0 <= j < self.buf@.len() ==> self.buf@[j] == (if start <= j < start + k {
                    input@[j - start]
                } else {
                    v1.buf[j]
                }),
            decreases len - k,
        {
            self.buf[start + k] = input[k];
            k = k + 1;
        }
        self.write_pos = self.write_pos + len as i32;
        if self.write_pos >= self.keep_size_after as i32 {
            self.read_limit = self.write_pos - self.keep_size_after as i32;
        }
        assert(self.buf@ =~= v1.buf.subrange(0, start as int) + input@.subrange(0, len as int)
            + v1.buf.subrange(start + len, v1.buf.len() as int));
        self.process_pending_bytes(match_finder);
        len
    }

    /// Lets the match finder use everything written so far.
    pub fn set_flushing<M: MatchFind>(&mut self, match_finder: &mut M)
        requires
            old(self).wf(),
        ensures
            ({
                let w = WindowView { read_limit: old(self)@.write_pos - 1, ..old(self)@ };
                !replay_ready(w) ==> final(self)@ == w
            }),
    {
        self.read_limit = self.write_pos - 1;
        self.process_pending_bytes(match_finder);
    }

    /// Like `set_flushing`, and marks that no more input will come.
    pub fn set_finishing<M: MatchFind>(&mut self, match_finder: &mut M)
        requires
            old(self).wf(),
        ensures
            ({
                let w = WindowView {
                    read_limit: old(self)@.write_pos - 1,
                    finishing: true,
                    ..old(self)@
                };
                !replay_ready(w) ==> final(self)@ == w
            }),
    {
        self.read_limit = self.write_pos - 1;
        self.finishing = true;
        self.process_pending_bytes(match_finder);
    }

    /// Whether `already_read_len` positions back from the read position are
    /// still below the read limit.
    pub fn has_enough_data(&self, already_read_len: i32) -> (r: bool)
        ensures
            r == (self@.read_pos - already_read_len < self@.read_limit),
    {
        (self.read_pos as i64) - (already_read_len as i64) < self.read_limit as i64
    }

    /// Appends `len` bytes that start `backward` places before the position
    /// after the read position.
    pub fn copy_uncompressed(&self, out: &mut Vec<u8>, backward: i32, len: usize)
        requires
            0 <= self@.read_pos + 1 - backward,
            self@.read_pos + 1 - backward + len <= self@.buf.len(),
        ensures
            final(out)@ == old(out)@ + self@.buf.subrange(
                self@.read_pos + 1 - backward,
                self@.read_pos + 1 - backward + len,
            ),
    {
        let s64: i64 = (self.read_pos as i64) + 1 - (backward as i64);
        let blen = self.buf.len();
        assert(0 <= s64 <= blen);
        let start = s64 as usize;
        let mut k: usize = 0;
        while k < len
            invariant
                k <= len,
                start == self@.read_pos + 1 - backward,
                start + len <= blen,
                blen == self@.buf.len(),
                out@ == old(out)@ + self@.buf.subrange(start as int, start + k),
            decreases len - k,
        {
            out.push(self.buf[start + k]);
            k = k + 1;
            assert(out@ =~= old(out)@ + self@.buf.subrange(start as int, start + k));
        }
    }

    /// Bytes written but not yet passed by the read position.
    pub fn get_avail(&self) -> (r: i32)
        requires
            self.wf(),
        ensures
            r == self@.write_pos - self@.read_pos,
    {
        self.write_pos - self.read_pos
    }

    pub fn get_pos(&self) -> (r: i32)
        ensures
            r == self@.read_pos,
    {
        self.read_pos
    }

    /// The byte at `read_pos + forward - backward`.
    pub fn get_byte(&self, forward: i32, backward: i32) -> (r: u8)
        requires
            0 <= self@.read_pos + forward - backward < self@.buf.len(),
        ensures
            r == self@.buf[self@.read_pos + forward - backward],
    {
        let i: i64 = (self.read_pos as i64) + (forward as i64) - (backward as i64);
        let blen = self.buf.len();
        assert(0 <= i < blen);
        self.buf[i as usize]
    }

    pub fn get_byte_by_pos(&self, pos: i32) -> (r: u8)
        requires
            0 <= pos < self@.buf.len(),
        ensures
            r == self@.buf[pos as int],
    {
        self.buf[pos as usize]
    }

    pub fn get_byte_backward(&self, backward: i32) -> (r: u8)
        requires
            0 <= self@.read_pos - backward < self@.buf.len(),
        ensures
            r == self@.buf[self@.read_pos - backward],
    {
        let i: i64 = (self.read_pos as i64) - (backward as i64);
        let blen = self.buf.len();
        assert(0 <= i < blen);
        self.buf[i as usize]
    }

    pub fn get_current_byte(&self) -> (r: u8)
        requires
            0 <= self@.read_pos < self@.buf.len(),
        ensures
            r == self@.buf[self@.read_pos],
    {
        self.buf[self.read_pos as usize]
    }

    /// Length of the match at the read position against the bytes
    /// `dist + 1` places behind, up to `len_limit`.
    pub fn get_match_len(&self, dist: i32, len_limit: i32) -> (r: usize)
        requires
            0 <= dist,
            dist + 1 <= self@.read_pos,
            0 <= len_limit,
            self@.read_pos + len_limit <= self@.buf.len(),
        ensures
            is_match_len(self@.buf, self@.read_pos, self@.read_pos - dist - 1, 0, len_limit as int, r as int),
    {
        extend_match(&self.buf, self.read_pos, 0, dist + 1, len_limit) as usize
    }

    /// Like `get_match_len`, at `forward` places after the read position; 0
    /// for a limit that is not positive.
    pub fn get_match_len2(&self, forward: i32, dist: i32, len_limit: i32) -> (r: u32)
        requires
            self.wf(),
            0 <= forward,
            0 <= dist,
            dist + 1 <= self@.read_pos + forward,
            self@.read_pos + forward + len_limit <= self@.buf.len(),
        ensures
            len_limit <= 0 ==> r == 0,
            len_limit > 0 ==> is_match_len(
                self@.buf,
                self@.read_pos + forward,
                self@.read_pos + forward - dist - 1,
                0,
                len_limit as int,
                r as int,
            ),
    {
        if len_limit <= 0 {
            return 0;
        }
        extend_match(&self.buf, self.read_pos + forward, 0, dist + 1, len_limit) as u32
    }

    /// `get_match_len` that first rejects a candidate whose first two bytes
    /// differ.
    pub fn get_match_len_fast_reject<const MATCH_LEN_MIN: usize>(&self, dist: i32, len_limit: i32) -> (r: usize)
        requires
            0 <= dist,
            dist + 1 <= self@.read_pos,
            2 <= len_limit,
            self@.read_pos + len_limit <= self@.buf.len(),
        ensures
            ({
                let b = self@.buf;
                let p = self@.read_pos;
                let q = self@.read_pos - dist - 1;
                &&& b[p] != b[q] || b[p + 1] != b[q + 1] ==> r == 0
                &&& b[p] == b[q] && b[p + 1] == b[q + 1] ==> is_match_len(b, p, q, 0, len_limit as int, r as int)
            }),
    {
        let match_dist = dist + 1;
        let read_pos = self.read_pos as usize;
        let back = read_pos - match_dist as usize;
        if self.buf[read_pos] != self.buf[back] || self.buf[read_pos + 1] != self.buf[back + 1] {
            return 0;
        }
        extend_match(&self.buf, self.read_pos, 2, match_dist, len_limit) as usize
    }

    /// Checks every stored match against the window.
    pub fn verify_matches(&self, matches: &Matches) -> (r: bool)
        requires
            self.wf(),
            self@.read_pos >= 0,
            matches.count <= matches.len@.len(),
            matches.count <= matches.dist@.len(),
            forall|i: int|
                0 <= i < matches.count ==> 0 <= matches.dist@[i] && matches.dist@[i] + 1
                    <= self@.read_pos,
        ensures
            ({
                let limit = min_int(self@.write_pos - self@.read_pos, self@.match_len_max);
                r == forall|i: int|
                    0 <= i < matches.count ==> is_match_len(
                        self@.buf,
                        self@.read_pos,
                        self@.read_pos - matches.dist@[i] - 1,
                        0,
                        limit,
                        matches.len@[i] as int,
                    )
            }),
    {
        let avail = self.write_pos - self.read_pos;
        let len_limit: i32 = if (avail as i64) < (self.match_len_max as i64) {
            avail
        } else {
            self.match_len_max as i32
        };
        let ghost limit = min_int(self@.write_pos - self@.read_pos, self@.match_len_max);
        let mut i: usize = 0;
        while i < matches.count as usize
            invariant
                self.wf(),
                self@.read_pos >= 0,
                len_limit == limit,
                limit == min_int(self@.write_pos - self@.read_pos, self@.match_len_max),
                matches.count <= matches.len@.len(),
                matches.count <= matches.dist@.len(),
                forall|j: int|
                    0 <= j < matches.count ==> 0 <= matches.dist@[j] && matches.dist@[j] + 1
                        <= self@.read_pos,
                i <= matches.count,
                forall|j: int|
                    0 <= j < i ==> is_match_len(
                        self@.buf,
                        self@.read_pos,
                        self@.read_pos - matches.dist@[j] - 1,
                        0,
                        limit,
                        matches.len@[j] as int,
                    ),
            decreases matches.count - i,
        {
            assert(0 <= limit);
            assert(self@.read_pos + limit <= self@.buf.len());
            let actual = extend_match(&self.buf, self.read_pos, 0, matches.dist[i] + 1, len_limit);
            if actual as u32 != matches.len[i] {
                proof {
                    if is_match_len(
                        self@.buf,
                        self@.read_pos,
                        self@.read_pos - matches.dist@[i as int] - 1,
                        0,
                        limit,
                        matches.len@[i as int] as int,
                    ) {
                        lemma_match_len_unique(
                            self@.buf,
                            self@.read_pos,
                            self@.read_pos - matches.dist@[i as int] - 1,
                            0,
                            limit,
                            actual as int,
                            matches.len@[i as int] as int,
                        );
                    }
                }
                return false;
            }
            i = i + 1;
        }
        true
    }

    /// Advances the read position by one and returns the bytes available
    /// from there; 0, counting the position as deferred, when fewer than the
    /// operation needs are there and the stream is not finishing with enough.
    pub fn move_pos(&mut self, required_for_flushing: i32, required_for_finishing: i32) -> (r: i32)
        requires
            old(self).wf(),
            old(self)@.read_pos < old(self)@.write_pos,
            old(self)@.pending_size < old(self)@.keep_size_before,
        ensures
            final(self).wf(),
            ({
                let v = old(self)@;
                let avail = v.write_pos - v.read_pos - 1;
                let defer = avail < required_for_flushing && (avail < required_for_finishing
                    || !v.finishing);
                &&& r == (if defer { 0 } else { avail })
                &&& final(self)@ == (WindowView {
                    read_pos: v.read_pos + 1,
                    pending_size: if defer { v.pending_size + 1 } else { v.pending_size },
                    ..v
                })
            }),
    {
        self.read_pos = self.read_pos + 1;
        let mut avail = self.write_pos - self.read_pos;
        if avail < required_for_flushing && (avail < required_for_finishing || !self.finishing) {
            self.pending_size = self.pending_size + 1;
            avail = 0;
        }
        avail
    }
}

proof fn lemma_match_len_unique(buf: Seq<u8>, a: int, b: int, from: int, limit: int, r1: int, r2: int)
    requires
        is_match_len(buf, a, b, from, limit, r1),
        is_match_len(buf, a, b, from, limit, r2),
    ensures
        r1 == r2,
{
    if r1 < r2 {
        assert(buf[a + r1] == buf[b + r1]);
    } else if r2 < r1 {
        assert(buf[a + r2] == buf[b + r2]);
    }
}

/// The encoder's window together with the match finder that searches it.
pub struct LzEncoder<M> {
    pub data: LzEncoderData,
    pub matches: Matches,
    pub match_finder: M,
}

impl<M: MatchFind> LzEncoder<M> {
    /// An encoder window searched by `match_finder`, with room for
    /// `nice_len - 1` matches per position.
    pub fn new(
        dict_size: u32,
        extra_size_before: u32,
        extra_size_after: u32,
        nice_len: u32,
        match_len_max: u32,
        match_finder: M,
    ) -> (r: Self)
        requires
            buf_size_spec(dict_size, extra_size_before, extra_size_after, match_len_max) < i32::MAX,
            nice_len >= 1,
        ensures
            r.data.wf(),
            r.data@.write_pos == 0,
            r.data@.read_pos == -1,
            r.data@.read_limit == -1,
            !r.data@.finishing,
            r.data@.pending_size == 0,
            r.data@.keep_size_before == extra_size_before + dict_size,
            r.data@.keep_size_after == extra_size_after + match_len_max,
            r.data@.match_len_max == match_len_max,
            r.data@.nice_len == nice_len,
            r.data@.buf == Seq::new(
                buf_size_spec(dict_size, extra_size_before, extra_size_after, match_len_max) as nat,
                |i: int| 0u8,
            ),
            r.data@.buf.len() == buf_size_spec(dict_size, extra_size_before, extra_size_after, match_len_max),
            r.matches.len@.len() == nice_len - 1,
            r.matches.count == 0,
            r.match_finder == match_finder,
    {
        let data = LzEncoderData::new(dict_size, extra_size_before, extra_size_after, nice_len, match_len_max);
        LzEncoder { data, matches: Matches::new(nice_len as usize - 1), match_finder }
    }

    pub fn find_matches(&mut self)
        requires
            old(self).data.wf(),
    {
        self.match_finder.find_matches(&mut self.data, &mut self.matches)
    }

    pub fn matches(&mut self) -> (r: &mut Matches)
        ensures
            *r == old(self).matches,
            *final(r) == final(self).matches,
    {
        &mut self.matches
    }

    pub fn skip(&mut self, len: usize)
        requires
            old(self).data.wf(),
    {
        self.match_finder.skip(&mut self.data, len)
    }

    pub fn set_preset_dict(&mut self, dict_size: u32, preset_dict: &[u8])
        requires
            old(self).data.wf(),
            old(self).data@.read_pos == -1,
            old(self).data@.write_pos == 0,
            min_int(preset_dict@.len() as int, dict_size as int) <= old(self).data@.buf.len(),
    {
        self.data.set_preset_dict(dict_size, preset_dict, &mut self.match_finder)
    }

    pub fn set_finishing(&mut self)
        requires
            old(self).data.wf(),
        ensures
            ({
                let w = WindowView {
                    read_limit: old(self).data@.write_pos - 1,
                    finishing: true,
                    ..old(self).data@
                };
                !replay_ready(w) ==> final(self).data@ == w
            }),
    {
        self.data.set_finishing(&mut self.match_finder)
    }

    pub fn fill_window(&mut self, input: &[u8]) -> (r: usize)
        requires
            old(self).data.wf(),
            needs_move(old(self).data@) ==> old(self).data@.read_limit - old(self).data@.move_offset()
                >= i32::MIN && old(self).data@.move_offset() <= old(self).data@.write_pos,
        ensures
            r == fill_len(old(self).data@, input@),
            filled_view(old(self).data@, input@).valid(),
            !replay_ready(filled_view(old(self).data@, input@)) ==> final(self).data@ == filled_view(
                old(self).data@,
                input@,
            ),
    {
        self.data.fill_window(input, &mut self.match_finder)
    }

    pub fn set_flushing(&mut self)
        requires
            old(self).data.wf(),
        ensures
            ({
                let w = WindowView { read_limit: old(self).data@.write_pos - 1, ..old(self).data@ };
                !replay_ready(w) ==> final(self).data@ == w
            }),
    {
        self.data.set_flushing(&mut self.match_finder)
    }

    /// Checks the stored matches against the window.
    pub fn verify_matches(&self) -> (r: bool)
        requires
            self.data.wf(),
            self.data@.read_pos >= 0,
            self.matches.count <= self.matches.len@.len(),
            self.matches.count <= self.matches.dist@.len(),
            forall|i: int|
                0 <= i < self.matches.count ==> 0 <= self.matches.dist@[i] && self.matches.dist@[i]
                    + 1 <= self.data@.read_pos,
        ensures
            ({
                let limit = min_int(self.data@.write_pos - self.data@.read_pos, self.data@.match_len_max);
                r == forall|i: int|
                    0 <= i < self.matches.count ==> is_match_len(
                        self.data@.buf,
                        self.data@.read_pos,
                        self.data@.read_pos - self.matches.dist@[i] - 1,
                        0,
                        limit,
                        self.matches.len@[i] as int,
                    )
            }),
    {
        self.data.verify_matches(&self.matches)
    }
}

/// Size of the window buffer: the dictionary and lookahead to keep, plus a
/// reserve that delays compaction.
pub open spec fn buf_size_spec(
    dict_size: u32,
    extra_size_before: u32,
    extra_size_after: u32,
    match_len_max: u32,
) -> int {
    let reserve = min_int(dict_size / 2 + 262144, 536870912);
    extra_size_before + dict_size + extra_size_after + match_len_max + reserve
}

/// Size of the window buffer for the given sizes.
pub fn get_buf_size(
    dict_size: u32,
    extra_size_before: u32,
    extra_size_after: u32,
    match_len_max: u32,
) -> (r: u32)
    requires
        buf_size_spec(dict_size, extra_size_before, extra_size_after, match_len_max) <= u32::MAX,
    ensures
        r == buf_size_spec(dict_size, extra_size_before, extra_size_after, match_len_max),
{
    let keep_size_before = extra_size_before + dict_size;
    let keep_size_after = extra_size_after + match_len_max;
    let half = dict_size / 2 + 262144;
    let reserve_size = if half < 536870912 { half } else { 536870912 };
    keep_size_before + keep_size_after + reserve_size
}

/// Number of positions `a + k` and `b + k`, counting from `from`, before the
/// first mismatch or `limit`.
pub open spec fn is_match_len(buf: Seq<u8>, a: int, b: int, from: int, limit: int, r: int) -> bool {
    &&& from <= limit ==> from <= r <= limit
    &&& from > limit ==> r == from
    &&& forall|k: int| from <= k < r ==> #[trigger] buf[a + k] == buf[b + k]
    &&& r < limit ==> buf[a + r] != buf[b + r]
}

/// Extends a match at `pos` against the bytes `dist` places behind, from
/// length `len` up to `limit`.
pub fn extend_match(buf: &Vec<u8>, pos: i32, len: i32, dist: i32, limit: i32) -> (r: i32)
    requires
        0 <= len,
        0 < dist <= pos,
        pos + limit <= buf@.len(),
    ensures
        is_match_len(buf@, pos as int, pos - dist, len as int, limit as int, r as int),
{
    let mut n = len;
    let base = (pos - dist) as usize;
    let at = pos as usize;
    while n < limit
        invariant
            0 <= len <= n,
            0 < dist <= pos,
            len <= limit ==> n <= limit,
            len > limit ==> n == len,
            0 <= pos - dist,
            base == pos - dist,
            at == pos,
            pos + limit <= buf@.len(),
            forall|k: int| len <= k < n ==> #[trigger] buf@[pos + k] == buf@[pos - dist + k],
        ensures
            n >= limit || buf@[pos + n] != buf@[pos - dist + n],
        decreases limit - n,
    {
        let i = n as usize;
        if buf[base + i] != buf[at + i] {
            break;
        }
        n = n + 1;
    }
    n
}

/// `p - offset` clamped to the range of `i32`.
pub open spec fn sat_sub(p: i32, offset: i32) -> i32 {
    if p - offset < i32::MIN {
        i32::MIN
    } else if p - offset > i32::MAX {
        i32::MAX
    } else {
        (p - offset) as i32
    }
}

/// Lane-wise form used by vector units: `max(p, offset) - offset`.
pub open spec fn lane_sub(p: i32, offset: i32) -> i32 {
    if p < offset {
        0
    } else {
        (p - offset) as i32
    }
}

/// Subtracts `norm_offset` from every position, saturating.
pub fn normalize_scalar(positions: &mut [i32], norm_offset: i32)
    ensures
        final(positions)@.len() == old(positions)@.len(),
        forall|i: int|
            0 <= i < old(positions)@.len() ==> final(positions)@[i] == sat_sub(
                old(positions)@[i],
                norm_offset,
            ),
{
    let n = positions.len();
    let mut i: usize = 0;
    while i < n
        invariant
            n == positions@.len(),
            positions@.len() == old(positions)@.len(),
            i <= n,
            forall|j: int| 0 <= j < i ==> positions@[j] == sat_sub(old(positions)@[j], norm_offset),
            forall|j: int| i <= j < n ==> positions@[j] == old(positions)@[j],
        decreases n - i,
    {
        let p = positions[i];
        let v: i32 = if norm_offset >= 0 {
            if p < i32::MIN + norm_offset { i32::MIN } else { p - norm_offset }
        } else {
            if p > i32::MAX + norm_offset { i32::MAX } else { p - norm_offset }
        };
        positions[i] = v;
        i = i + 1;
    }
}

/// Normalizes the positions the way the match finders do: through the
/// scalar routine, which defines the result.
pub fn normalize(positions: &mut [i32], norm_offset: i32)
    ensures
        final(positions)@.len() == old(positions)@.len(),
        forall|i: int|
            0 <= i < old(positions)@.len() ==> final(positions)@[i] == sat_sub(
                old(positions)@[i],
                norm_offset,
            ),
{
    normalize_scalar(positions, norm_offset);
}

/// The batched routine: blocks of eight lanes computed as
/// `max(p, offset) - offset`, the remainder by the scalar routine.
pub fn normalize_lanes(positions: &mut [i32], norm_offset: i32)
    requires
        norm_offset >= 0,
    ensures
        final(positions)@.len() == old(positions)@.len(),
        forall|i: int|
            0 <= i < old(positions)@.len() - old(positions)@.len() % 8 ==> final(positions)@[i]
                == lane_sub(old(positions)@[i], norm_offset),
        forall|i: int|
            old(positions)@.len() - old(positions)@.len() % 8 <= i < old(positions)@.len()
                ==> final(positions)@[i] == sat_sub(old(positions)@[i], norm_offset),
{
    let n = positions.len();
    let blocks = n - n % 8;
    let mut i: usize = 0;
    while i < blocks
        invariant
            n == positions@.len(),
            positions@.len() == old(positions)@.len(),
            blocks == n - n % 8,
            norm_offset >= 0,
            i <= blocks,
            forall|j: int| 0 <= j < i ==> positions@[j] == lane_sub(old(positions)@[j], norm_offset),
            forall|j: int| i <= j < n ==> positions@[j] == old(positions)@[j],
        decreases blocks - i,
    {
        let p = positions[i];
        let m = if p < norm_offset { norm_offset } else { p };
        positions[i] = m - norm_offset;
        i = i + 1;
    }
    while i < n
        invariant
            n == positions@.len(),
            positions@.len() == old(positions)@.len(),
            blocks == n - n % 8,
            norm_offset >= 0,
            blocks <= i <= n,
            forall|j: int| 0 <= j < blocks ==> positions@[j] == lane_sub(old(positions)@[j], norm_offset),
            forall|j: int| blocks <= j < i ==> positions@[j] == sat_sub(old(positions)@[j], norm_offset),
            forall|j: int| i <= j < n ==> positions@[j] == old(positions)@[j],
        decreases n - i,
    {
        let p = positions[i];
        positions[i] = if p < i32::MIN + norm_offset { i32::MIN } else { p - norm_offset };
        i = i + 1;
    }
}

/// The batched and the scalar routine agree on every array whose positions
/// are all at least the (non-negative) offset.
pub proof fn lemma_normalize_agree(positions: Seq<i32>, norm_offset: i32)
    requires
        norm_offset >= 0,
        forall|i: int| 0 <= i < positions.len() ==> positions[i] >= norm_offset,
    ensures
        forall|i: int| 0 <= i < positions.len() ==> lane_sub(positions[i], norm_offset) == sat_sub(
            positions[i],
            norm_offset,
        ),
{
}

} // verus!
