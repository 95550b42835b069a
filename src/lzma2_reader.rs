use vstd::prelude::*;

use crate::error::Lzma2Error;
use crate::input::{read_bytes, read_u16_be, ByteInput};
use crate::lz_decoder::{min_int, reset_view, DictView, LzDecoder};

verus! {

/// Largest compressed size of one chunk.
pub const COMPRESSED_SIZE_MAX: u32 = 65536;

/// Largest valid properties byte: `(4 * 5 + 4) * 9 + 8`.
pub const PROPS_MAX: u8 = 196;

/// The entropy decoder that turns the compressed body of a chunk into
/// literals and back-references written to the dictionary.
///
/// Nothing is assumed of what an implementation does: after each `decode`
/// the reader checks that the dictionary is still consistent, and fails
/// with `InvalidData` otherwise.
pub trait EntropyDecoder: Sized {
    /// A fresh decoder for the literal context bits `lc`, literal position
    /// bits `lp` and position bits `pb`.
    fn with_props(lc: u32, lp: u32, pb: u32) -> Self;

    /// Resets the adaptive state, keeping the properties.
    fn reset(&mut self);

    /// Hands over the compressed body of the next chunk.
    fn prepare(&mut self, compressed: Vec<u8>);

    /// Decodes into `lz` until its limit is reached or the body is used up.
    fn decode(&mut self, lz: &mut LzDecoder) -> Result<(), Lzma2Error>
        requires
            old(lz).wf(),
            old(lz)@.pos <= old(lz)@.limit,
    ;

    /// Tells whether the body of the current chunk was decoded completely.
    fn is_finished(&self) -> bool;
}

/// Rounds a dictionary size up to a multiple of 16, saturating.
pub open spec fn dict_size_spec(dict_size: u32) -> u32 {
    if dict_size >= u32::MAX - 15 {
        u32::MAX
    } else {
        (((dict_size + 15) / 16) * 16) as u32
    }
}

/// Capacity of the dictionary for a requested size.
pub fn get_dict_size(dict_size: u32) -> (r: u32)
    ensures
        r == dict_size_spec(dict_size),
{
    if dict_size >= u32::MAX - 15 {
        return u32::MAX;
    }
    let x: u32 = dict_size + 15;
    assert((x & !15u32) == x - x % 16) by (bit_vector);
    assert(x - x % 16 == (x / 16) * 16) by (nonlinear_arith);
    x & !15u32
}

/// Memory in KiB that decoding with a dictionary of `dict_size` bytes takes.
pub fn get_memory_usage(dict_size: u32) -> (r: u32)
    ensures
        r == 40 + COMPRESSED_SIZE_MAX / 1024 + dict_size_spec(dict_size) / 1024,
{
    40 + COMPRESSED_SIZE_MAX / 1024 + get_dict_size(dict_size) / 1024
}

/// `(lc, lp, pb)` as a properties byte encodes them.
pub open spec fn props_spec(props: u8) -> (u32, u32, u32) {
    (((props % 45) % 9) as u32, ((props % 45) / 9) as u32, (props / 45) as u32)
}

/// A properties byte is valid when it is at most 196 and `lc + lp <= 4`.
pub open spec fn props_valid(props: u8) -> bool {
    props <= PROPS_MAX && (props % 45) % 9 + (props % 45) / 9 <= 4
}

/// Splits a properties byte into `(lc, lp, pb)`.
pub fn decode_props(props: u8) -> (r: Result<(u32, u32, u32), Lzma2Error>)
    ensures
        props_valid(props) ==> r == Ok::<(u32, u32, u32), Lzma2Error>(props_spec(props)),
        !props_valid(props) ==> r == Err::<(u32, u32, u32), Lzma2Error>(Lzma2Error::InvalidInput),
        r is Ok ==> ({
            let (lc, lp, pb) = r->Ok_0;
            lc + lp <= 4
        }),
{
    if props > PROPS_MAX {
        return Err(Lzma2Error::InvalidInput);
    }
    let pb = props / (9 * 5);
    assert(pb * 9 * 5 <= props && props - pb * 9 * 5 == props % 45) by (nonlinear_arith)
        requires
            pb == props / 45,
    ;
    let rest = props - pb * 9 * 5;
    let lp = rest / 9;
    assert(lp * 9 <= rest && rest - lp * 9 == rest % 9) by (nonlinear_arith)
        requires
            lp == rest / 9,
    ;
    let lc = rest - lp * 9;
    if lc + lp > 4 {
        return Err(Lzma2Error::InvalidInput);
    }
    Ok((lc as u32, lp as u32, pb as u32))
}

/// Big-endian 16-bit value at `i`.
pub open spec fn be16(s: Seq<u8>, i: int) -> int {
    s[i] as int * 256 + s[i + 1] as int
}

/// Abstract state of an LZMA2 reader.
pub ghost struct ReaderView {
    pub input: Seq<u8>,
    pub dict: DictView,
    pub uncompressed_size: int,
    pub is_lzma_chunk: bool,
    pub need_dict_reset: bool,
    pub need_props: bool,
    pub end_reached: bool,
    pub has_decoder: bool,
}

/// A single-threaded LZMA2 decompressor reading from `R`, with `D` as the
/// entropy decoder of compressed chunks.
pub struct Lzma2Reader<R, D> {
    inner: R,
    lz: LzDecoder,
    lzma: Option<D>,
    uncompressed_size: usize,
    is_lzma_chunk: bool,
    need_dict_reset: bool,
    need_props: bool,
    end_reached: bool,
}

impl<R: ByteInput, D> View for Lzma2Reader<R, D> {
    type V = ReaderView;

    closed spec fn view(&self) -> ReaderView {
        ReaderView {
            input: self.inner.remaining(),
            dict: self.lz@,
            uncompressed_size: self.uncompressed_size as int,
            is_lzma_chunk: self.is_lzma_chunk,
            need_dict_reset: self.need_dict_reset,
            need_props: self.need_props,
            end_reached: self.end_reached,
            has_decoder: self.lzma is Some,
        }
    }
}

impl ReaderView {
    pub open spec fn valid(self) -> bool {
        &&& self.dict.valid()
        &&& self.dict.start == self.dict.pos
        &&& self.uncompressed_size == 0 || !self.is_lzma_chunk ==> self.dict.pending_len == 0
        &&& !self.need_props ==> self.has_decoder
    }
}

/// Uncompressed size that the header of a compressed chunk announces.
pub open spec fn lzma_chunk_size(s: Seq<u8>) -> int {
    (s[0] % 32) as int * 65536 + be16(s, 1) + 1
}

/// Length of the header of a compressed chunk with control byte `c`.
pub open spec fn lzma_header_len(c: u8) -> int {
    if c >= 0xC0 { 6 } else { 5 }
}

/// What decoding the next chunk header does to a reader, by the control
/// byte table of LZMA2; the compressed body of an LZMA chunk is consumed too.
pub open spec fn header_outcome(v: ReaderView) -> Result<ReaderView, Lzma2Error> {
    let s = v.input;
    if s.len() == 0 {
        Err(Lzma2Error::UnexpectedEof)
    } else {
        let c = s[0];
        if c == 0 {
            Ok(ReaderView { input: s.drop_first(), end_reached: true, ..v })
        } else if c != 1 && c < 0xE0 && v.need_dict_reset {
            Err(Lzma2Error::InvalidInput)
        } else if 3 <= c < 0x80 {
            Err(Lzma2Error::InvalidInput)
        } else if c < 0x80 {
            if s.len() < 3 {
                Err(Lzma2Error::UnexpectedEof)
            } else {
                Ok(
                    ReaderView {
                        input: s.subrange(3, s.len() as int),
                        dict: if c == 1 { reset_view(v.dict) } else { v.dict },
                        need_props: if c == 1 { true } else { v.need_props },
                        need_dict_reset: if c == 1 { false } else { v.need_dict_reset },
                        is_lzma_chunk: false,
                        uncompressed_size: be16(s, 1) + 1,
                        ..v
                    },
                )
            }
        } else {
            let hl = lzma_header_len(c);
            let csize = be16(s, 3) + 1;
            if s.len() < 5 {
                Err(Lzma2Error::UnexpectedEof)
            } else if c >= 0xC0 && s.len() < 6 {
                Err(Lzma2Error::UnexpectedEof)
            } else if c >= 0xC0 && !props_valid(s[5]) {
                Err(Lzma2Error::InvalidInput)
            } else if c < 0xC0 && v.need_props {
                Err(Lzma2Error::InvalidInput)
            } else if s.len() < hl + csize {
                Err(Lzma2Error::UnexpectedEof)
            } else {
                Ok(
                    ReaderView {
                        input: s.subrange(hl + csize, s.len() as int),
                        dict: if c >= 0xE0 { reset_view(v.dict) } else { v.dict },
                        need_props: false,
                        need_dict_reset: if c >= 0xE0 { false } else { v.need_dict_reset },
                        is_lzma_chunk: true,
                        uncompressed_size: lzma_chunk_size(s),
                        has_decoder: true,
                        ..v
                    },
                )
            }
        }
    }
}

/// Control bytes 0x03 to 0x7F are reserved: a header with one always fails.
pub proof fn lemma_reserved_control_fails(v: ReaderView)
    requires
        v.input.len() > 0,
        3 <= v.input[0] < 0x80,
    ensures
        header_outcome(v) == Err::<ReaderView, Lzma2Error>(Lzma2Error::InvalidInput),
{
}

/// Control byte 0x00 ends the stream and consumes nothing more.
pub proof fn lemma_end_marker(v: ReaderView)
    requires
        v.input.len() > 0,
        v.input[0] == 0,
    ensures
        header_outcome(v) is Ok,
        header_outcome(v)->Ok_0.end_reached,
        header_outcome(v)->Ok_0.input == v.input.drop_first(),
        header_outcome(v)->Ok_0.dict == v.dict,
{
}

/// A full-reset chunk (control byte 0xE0 and above) that decodes leaves no
/// pending demand for a dictionary reset or for properties, and starts from
/// an empty dictionary.
pub proof fn lemma_full_reset_clears_demands(v: ReaderView)
    requires
        v.input.len() > 0,
        v.input[0] >= 0xE0,
        header_outcome(v) is Ok,
    ensures
        !header_outcome(v)->Ok_0.need_dict_reset,
        !header_outcome(v)->Ok_0.need_props,
        header_outcome(v)->Ok_0.dict == reset_view(v.dict),
        header_outcome(v)->Ok_0.is_lzma_chunk,
{
}

/// The next read starts with a chunk header whose control byte is `c`.
pub open spec fn header_due(v: ReaderView, c: u8) -> bool {
    v.uncompressed_size == 0 && v.input.len() > 0 && v.input[0] == c
}

/// The next read starts with a chunk header that fails to decode.
pub open spec fn header_fails(v: ReaderView) -> bool {
    v.uncompressed_size == 0 && header_outcome(v) is Err
}

/// The bytes that the stored chunks ahead in `input` hold, in order: first
/// the rest of the open chunk (`us` bytes, unless it is an LZMA chunk), then
/// those of each following stored chunk. The flag tells whether the run ends
/// at the end marker; otherwise it stops where the input ends or something
/// other than a stored chunk comes.
pub open spec fn stored_run(input: Seq<u8>, us: int, is_lzma: bool, need_dict_reset: bool) -> (
    Seq<u8>,
    bool,
)
    decreases input.len(),
{
    if us > 0 {
        if is_lzma {
            (Seq::empty(), false)
        } else if input.len() < us {
            (input, false)
        } else {
            let rest = stored_run(input.subrange(us, input.len() as int), 0, false, need_dict_reset);
            (input.subrange(0, us) + rest.0, rest.1)
        }
    } else if input.len() == 0 {
        (Seq::empty(), false)
    } else if input[0] == 0 {
        (Seq::empty(), true)
    } else if (input[0] == 1 || (input[0] == 2 && !need_dict_reset)) && input.len() >= 3 {
        stored_run(
            input.subrange(3, input.len() as int),
            be16(input, 1) + 1,
            false,
            if input[0] == 1 { false } else { need_dict_reset },
        )
    } else {
        (Seq::empty(), false)
    }
}

/// `stored_run` from a reader's state.
pub open spec fn run_of(v: ReaderView) -> (Seq<u8>, bool) {
    stored_run(v.input, v.uncompressed_size, v.is_lzma_chunk, v.need_dict_reset)
}

/// A production step of at most `len` bytes that stored chunks serve.
pub open spec fn stored_ready(v: ReaderView, len: int) -> bool {
    &&& !v.end_reached
    &&& v.dict.capacity() > 0
    &&& run_of(v).0.len() > 0 || run_of(v).1
    &&& len <= run_of(v).0.len() || run_of(v).1
}

proof fn lemma_run_prefix(input: Seq<u8>, us: int, ndr: bool)
    requires
        us > 0,
    ensures
        input.len() < us ==> stored_run(input, us, false, ndr) == (input, false),
        input.len() >= us ==> stored_run(input, us, false, ndr).0.len() >= us
            && stored_run(input, us, false, ndr).0.subrange(0, us) == input.subrange(0, us),
{
    if input.len() >= us {
        let rest = stored_run(input.subrange(us, input.len() as int), 0, false, ndr);
        assert((input.subrange(0, us) + rest.0).subrange(0, us) =~= input.subrange(0, us));
    }
}

proof fn lemma_run_consume(input: Seq<u8>, us: int, ndr: bool, k: int)
    requires
        us > 0,
        0 <= k <= us,
        k <= input.len(),
    ensures
        stored_run(input, us, false, ndr).0.len() >= k,
        stored_run(input, us, false, ndr).0.subrange(0, k) == input.subrange(0, k),
        stored_run(input.subrange(k, input.len() as int), us - k, false, ndr).0 == stored_run(
            input,
            us,
            false,
            ndr,
        ).0.subrange(k, stored_run(input, us, false, ndr).0.len() as int),
        stored_run(input.subrange(k, input.len() as int), us - k, false, ndr).1 == stored_run(
            input,
            us,
            false,
            ndr,
        ).1,
{
    let d = stored_run(input, us, false, ndr);
    let i2 = input.subrange(k, input.len() as int);
    if input.len() < us {
        assert(d.0.subrange(0, k) =~= input.subrange(0, k));
        assert(d.0.subrange(k, d.0.len() as int) =~= i2);
    } else {
        let tail = input.subrange(us, input.len() as int);
        let rest = stored_run(tail, 0, false, ndr);
        assert(d.0 == input.subrange(0, us) + rest.0);
        assert(d.0.subrange(0, k) =~= input.subrange(0, k));
        if us - k > 0 {
            assert(i2.subrange(us - k, i2.len() as int) =~= tail);
            assert(i2.subrange(0, us - k) + rest.0 =~= d.0.subrange(k, d.0.len() as int));
        } else {
            assert(i2 =~= tail);
            assert(rest.0 =~= d.0.subrange(k, d.0.len() as int));
        }
    }
}

/// The stored chunk header for a block of `n + 1` bytes.
pub open spec fn stored_header(control: u8, n: int) -> Seq<u8> {
    seq![control, (n / 256) as u8, (n % 256) as u8]
}

/// `blocks` framed as stored chunks, the first one resetting the dictionary
/// when `first` holds and the others keeping it, followed by the end marker.
pub open spec fn stored_frames(blocks: Seq<Seq<u8>>, first: bool) -> Seq<u8>
    decreases blocks.len(),
{
    if blocks.len() == 0 {
        seq![0u8]
    } else {
        stored_header(if first { 1u8 } else { 2u8 }, blocks[0].len() - 1) + blocks[0] + stored_frames(
            blocks.drop_first(),
            false,
        )
    }
}

/// The blocks one after another.
pub open spec fn concat(blocks: Seq<Seq<u8>>) -> Seq<u8>
    decreases blocks.len(),
{
    if blocks.len() == 0 {
        Seq::empty()
    } else {
        blocks[0] + concat(blocks.drop_first())
    }
}

/// Blocks of 1 to 65536 bytes framed as stored chunks hold exactly their
/// bytes, in order, up to the end marker; the first chunk resets the
/// dictionary, so the others may keep it.
pub proof fn lemma_stored_frames_round_trip(
    blocks: Seq<Seq<u8>>,
    first: bool,
    is_lzma: bool,
    need_dict_reset: bool,
)
    requires
        forall|i: int| 0 <= i < blocks.len() ==> 1 <= #[trigger] blocks[i].len() <= 65536,
        first || !need_dict_reset,
    ensures
        stored_run(stored_frames(blocks, first), 0, is_lzma, need_dict_reset) == (concat(blocks), true),
    decreases blocks.len(),
{
    let s = stored_frames(blocks, first);
    if blocks.len() == 0 {
        assert(s[0] == 0u8);
    } else {
        let b = blocks[0];
        let n = b.len() - 1;
        assert(1 <= b.len() <= 65536);
        assert(n == (n / 256) * 256 + n % 256) by (nonlinear_arith)
            requires
                n >= 0,
        ;
        assert(0 <= n / 256 < 256 && 0 <= n % 256 < 256) by (nonlinear_arith)
            requires
                0 <= n < 65536,
        ;
        let rest = stored_frames(blocks.drop_first(), false);
        assert(s[0] == (if first { 1u8 } else { 2u8 }));
        assert(be16(s, 1) == n);
        let ndr = if first { false } else { need_dict_reset };
        assert(!ndr);
        let body = s.subrange(3, s.len() as int);
        assert(body =~= b + rest);
        assert(body.subrange(b.len() as int, body.len() as int) =~= rest);
        assert(body.subrange(0, b.len() as int) =~= b);
        assert forall|i: int| 0 <= i < blocks.drop_first().len() implies 1 <= #[trigger] blocks.drop_first()[i].len() <= 65536 by {
            assert(blocks.drop_first()[i] == blocks[i + 1]);
        }
        lemma_stored_frames_round_trip(blocks.drop_first(), false, false, false);
        assert(stored_run(body, b.len() as int, false, ndr).0 =~= concat(blocks));
    }
}

/// A control byte that is refused before anything else is read: a reserved
/// one, or one that needs a dictionary reset that has not happened.
pub open spec fn header_rejects(v: ReaderView) -> bool {
    &&& v.input.len() > 0
    &&& {
        let c = v.input[0];
        (c != 0 && c != 1 && c < 0xE0 && v.need_dict_reset) || (3 <= c < 0x80)
    }
}

impl<R, D> Lzma2Reader<R, D> {
    /// The underlying input, in specifications.
    pub closed spec fn source(&self) -> R {
        self.inner
    }

    /// Unwraps the reader, returning the underlying input.
    pub fn into_inner(self) -> (r: R)
        ensures
            r == self.source(),
    {
        self.inner
    }

    /// The underlying input.
    pub fn inner(&self) -> (r: &R)
        ensures
            *r == self.source(),
    {
        &self.inner
    }

    /// The underlying input, mutably.
    pub fn inner_mut(&mut self) -> (r: &mut R)
        ensures
            *r == old(self).source(),
            *final(r) == final(self).source(),
    {
        &mut self.inner
    }
}

impl<R: ByteInput, D: EntropyDecoder> Lzma2Reader<R, D> {
    pub open spec fn wf(&self) -> bool {
        self@.valid()
    }

    /// Creates a reader of `inner` with a dictionary of `dict_size` bytes
    /// (rounded up to a multiple of 16), seeded by `preset_dict` if given.
    pub fn new(inner: R, dict_size: u32, preset_dict: Option<&[u8]>) -> (r: Self)
        ensures
            r.wf(),
            r@.input == inner.remaining(),
            r@.dict.capacity() == dict_size_spec(dict_size),
            r@.dict.pos == r@.dict.start,
            r@.dict.pos == r@.dict.full,
            r@.dict.pos == match preset_dict {
                Some(p) => if p@.len() < r@.dict.capacity() { p@.len() as int } else { r@.dict.capacity() },
                None => 0,
            },
            r@.dict.limit == 0,
            r@.dict.pending_len == 0,
            r.source() == inner,
            r@.uncompressed_size == 0,
            !r@.is_lzma_chunk,
            r@.need_props,
            !r@.end_reached,
            !r@.has_decoder,
            r@.need_dict_reset == match preset_dict {
                Some(p) => p@.len() == 0,
                None => true,
            },
    {
        let has_preset = match preset_dict {
            Some(p) => p.len() > 0,
            None => false,
        };
        let lz = LzDecoder::new(get_dict_size(dict_size) as usize, preset_dict);
        Lzma2Reader {
            inner,
            lz,
            lzma: None,
            uncompressed_size: 0,
            is_lzma_chunk: false,
            need_dict_reset: !has_preset,
            need_props: true,
            end_reached: false,
        }
    }
    /// Reads the next chunk header and prepares the chunk it announces.
    #[verifier::rlimit(60)]
    pub fn decode_chunk_header(&mut self) -> (r: Result<(), Lzma2Error>)
        requires
            old(self).wf(),
            old(self)@.uncompressed_size == 0,
        ensures
            final(self).wf(),
            header_outcome(old(self)@) is Err ==> r == Err::<(), Lzma2Error>(
                header_outcome(old(self)@)->Err_0,
            ),
            header_outcome(old(self)@) is Ok ==> r is Ok && final(self)@ == header_outcome(
                old(self)@,
            )->Ok_0,
            header_rejects(old(self)@) ==> final(self)@ == (ReaderView {
                input: old(self)@.input.drop_first(),
                ..old(self)@
            }),
    {
        let ghost s = self.inner.remaining();
        let control = match self.inner.read_u8() {
            Some(b) => b,
            None => return Err(Lzma2Error::UnexpectedEof),
        };
        if control == 0x00 {
            self.end_reached = true;
            return Ok(());
        }
        if control >= 0xE0 || control == 0x01 {
            self.need_props = true;
            self.need_dict_reset = false;
            self.lz.reset();
        } else if self.need_dict_reset {
            return Err(Lzma2Error::InvalidInput);
        }
        if control >= 0x80 {
            let size_hi = match read_u16_be(&mut self.inner) {
                Some(x) => x,
                None => return Err(Lzma2Error::UnexpectedEof),
            };
            let compressed = match read_u16_be(&mut self.inner) {
                Some(x) => x,
                None => return Err(Lzma2Error::UnexpectedEof),
            };
            let compressed_size: usize = compressed as usize + 1;
            if control >= 0xC0 {
                // A properties reset re-creates the entropy decoder.
                let props = match self.inner.read_u8() {
                    Some(b) => b,
                    None => return Err(Lzma2Error::UnexpectedEof),
                };
                let (lc, lp, pb) = match decode_props(props) {
                    Ok(t) => t,
                    Err(e) => return Err(e),
                };
                self.lzma = Some(D::with_props(lc, lp, pb));
                self.need_props = false;
            } else if self.need_props {
                return Err(Lzma2Error::InvalidInput);
            } else if control >= 0xA0 {
                match &mut self.lzma {
                    Some(l) => l.reset(),
                    None => {},
                }
            }
            let body = match read_bytes(&mut self.inner, compressed_size) {
                Some(b) => b,
                None => return Err(Lzma2Error::UnexpectedEof),
            };
            match &mut self.lzma {
                Some(l) => l.prepare(body),
                None => {},
            }
            self.is_lzma_chunk = true;
            self.uncompressed_size = (control % 32) as usize * 65536 + size_hi as usize + 1;
            assert(self.inner.remaining() =~= s.subrange(lzma_header_len(control) + compressed_size, s.len() as int));
        } else if control > 0x02 {
            return Err(Lzma2Error::InvalidInput);
        } else {
            let size = match read_u16_be(&mut self.inner) {
                Some(x) => x,
                None => return Err(Lzma2Error::UnexpectedEof),
            };
            self.is_lzma_chunk = false;
            self.uncompressed_size = size as usize + 1;
            assert(self.inner.remaining() =~= s.subrange(3, s.len() as int));
        }
        Ok(())
    }
    /// Lets the open chunk produce at most `len` bytes and flushes them into
    /// `buf` at `off`. Returns the number of bytes flushed.
    #[verifier::rlimit(100)]
    fn produce_step(&mut self, buf: &mut [u8], off: usize, len: usize) -> (r: Result<usize, Lzma2Error>)
        requires
            old(self).wf(),
            !old(self)@.end_reached,
            old(self)@.uncompressed_size > 0,
            len > 0,
            off + len == old(buf)@.len(),
        ensures
            final(buf)@.len() == old(buf)@.len(),
            r is Ok ==> {
                let n = r->Ok_0 as int;
                &&& final(self).wf()
                &&& n <= len
                &&& final(buf)@.subrange(off + n, old(buf)@.len() as int) == old(buf)@.subrange(
                    off + n,
                    old(buf)@.len() as int,
                )
                &&& !final(self)@.end_reached
                &&& n > 0 || (old(self)@.dict.pos
                    == old(self)@.dict.capacity() && final(self)@.dict.pos
                    != final(self)@.dict.capacity())
            },
            !old(self)@.is_lzma_chunk && old(self)@.dict.capacity() > 0 && (len <= run_of(
                old(self)@,
            ).0.len() || run_of(old(self)@).1) ==> {
                let d = run_of(old(self)@);
                let k = r->Ok_0 as int;
                &&& r is Ok
                &&& k <= d.0.len()
                &&& final(buf)@ == old(buf)@.subrange(0, off as int) + d.0.subrange(0, k) + old(
                    buf,
                )@.subrange(off + k, old(buf)@.len() as int)
                &&& run_of(final(self)@).0 == d.0.subrange(k, d.0.len() as int)
                &&& run_of(final(self)@).1 == d.1
                &&& final(self)@.dict.capacity() == old(self)@.dict.capacity()
            },
    {
        let ghost head = self@;
        let step: usize = if self.uncompressed_size < len { self.uncompressed_size } else { len };
        let at_end = self.lz.get_pos() == self.lz.capacity();
        assert(at_end ==> head.dict.pos == head.dict.capacity());
        let ghost stored = !head.is_lzma_chunk && head.dict.capacity() > 0 && (len <= run_of(head).0.len()
            || run_of(head).1);
        if !self.is_lzma_chunk {
            proof {
                lemma_run_prefix(head.input, head.uncompressed_size, head.need_dict_reset);
                if stored {
                    assert(min_int(head.dict.capacity() - head.dict.pos, step as int) <= head.input.len());
                }
            }
            match self.lz.copy_uncompressed(&mut self.inner, step) {
                Ok(()) => {},
                Err(e) => return Err(e),
            }
        } else {
            self.lz.set_limit(step);
            match &mut self.lzma {
                Some(l) => {
                    match l.decode(&mut self.lz) {
                        Ok(()) => {},
                        Err(e) => return Err(e),
                    }
                },
                None => {},
            }
            if !self.lz.is_consistent() {
                return Err(Lzma2Error::InvalidData);
            }
        }
        let ghost pre = buf@;
        let copied = match self.lz.flush(buf, off) {
            Ok(c) => c,
            Err(e) => return Err(e),
        };
        if copied == 0 && (!at_end || self.lz.capacity() == 0) {
            // Nothing was produced although the dictionary had room.
            return Err(Lzma2Error::CorruptStream);
        }
        self.uncompressed_size = if copied < self.uncompressed_size {
            self.uncompressed_size - copied
        } else {
            0
        };
        if self.uncompressed_size == 0 {
            let unfinished = match &self.lzma {
                Some(l) => self.is_lzma_chunk && !l.is_finished(),
                None => false,
            };
            if unfinished || self.lz.has_pending() {
                return Err(Lzma2Error::CorruptStream);
            }
        }
        assert(buf@.subrange(off + copied, pre.len() as int) =~= pre.subrange(
            off + copied,
            pre.len() as int,
        ));
        proof {
            if stored {
                lemma_run_consume(
                    head.input,
                    head.uncompressed_size,
                    head.need_dict_reset,
                    copied as int,
                );
                assert(buf@ =~= pre.subrange(0, off as int) + run_of(head).0.subrange(0, copied as int)
                    + pre.subrange(off + copied, pre.len() as int));
            }
        }
        Ok(copied)
    }

    /// One production step of `read`: opens a chunk if none is open, lets it
    /// produce at most `len` bytes and flushes them into `buf` at `off`.
    /// Returns the number of bytes flushed; 0 with `end_reached` set at the
    /// end of the stream.
    fn produce(&mut self, buf: &mut [u8], off: usize, len: usize) -> (r: Result<usize, Lzma2Error>)
        requires
            old(self).wf(),
            !old(self)@.end_reached,
            len > 0,
            off + len == old(buf)@.len(),
        ensures
            final(buf)@.len() == old(buf)@.len(),
            r is Ok ==> {
                let n = r->Ok_0 as int;
                &&& final(self).wf()
                &&& n <= len
                &&& final(buf)@.subrange(off + n, old(buf)@.len() as int) == old(buf)@.subrange(
                    off + n,
                    old(buf)@.len() as int,
                )
                &&& final(self)@.end_reached ==> n == 0
                &&& !final(self)@.end_reached ==> n > 0 || (old(self)@.dict.pos
                    == old(self)@.dict.capacity() && final(self)@.dict.pos
                    != final(self)@.dict.capacity())
            },
            header_due(old(self)@, 0) ==> r == Ok::<usize, Lzma2Error>(0) && final(self)@.end_reached
                && final(buf)@ == old(buf)@,
            header_fails(old(self)@) ==> r == Err::<usize, Lzma2Error>(
                header_outcome(old(self)@)->Err_0,
            ),
            stored_ready(old(self)@, len as int) ==> {
                let d = run_of(old(self)@);
                let k = r->Ok_0 as int;
                &&& r is Ok
                &&& d.0.len() == 0 ==> k == 0 && final(self)@.end_reached && final(buf)@ == old(buf)@
                &&& d.0.len() > 0 ==> {
                    &&& !final(self)@.end_reached
                    &&& k <= d.0.len()
                    &&& final(buf)@ == old(buf)@.subrange(0, off as int) + d.0.subrange(0, k) + old(
                        buf,
                    )@.subrange(off + k, old(buf)@.len() as int)
                    &&& run_of(final(self)@).0 == d.0.subrange(k, d.0.len() as int)
                    &&& run_of(final(self)@).1 == d.1
                    &&& final(self)@.dict.capacity() == old(self)@.dict.capacity()
                }
            },
    {
        let ghost head = self@;
        if self.uncompressed_size == 0 {
            proof {
                if stored_ready(head, len as int) {
                    let c = head.input[0];
                    if c != 0 {
                        assert(header_outcome(head) is Ok);
                        assert(run_of(header_outcome(head)->Ok_0) == run_of(head));
                    }
                }
            }
            match self.decode_chunk_header() {
                Ok(()) => {},
                Err(e) => return Err(e),
            }
            if self.end_reached {
                return Ok(0);
            }
        }
        self.produce_step(buf, off, len)
    }

    /// Fills `buf` with decompressed bytes and returns how many were written;
    /// `Ok(0)` for a non-empty `buf` means the end of the stream. An error is
    /// terminal for the stream.
    pub fn read(&mut self, buf: &mut [u8]) -> (r: Result<usize, Lzma2Error>)
        requires
            old(self).wf(),
        ensures
            r is Ok ==> final(self).wf(),
            final(buf)@.len() == old(buf)@.len(),
            old(buf)@.len() == 0 || old(self)@.end_reached ==> r == Ok::<usize, Lzma2Error>(0)
                && final(self)@ == old(self)@ && final(buf)@ == old(buf)@,
            r is Ok ==> r->Ok_0 <= old(buf)@.len() && final(buf)@.subrange(
                r->Ok_0 as int,
                old(buf)@.len() as int,
            ) == old(buf)@.subrange(r->Ok_0 as int, old(buf)@.len() as int),
            r is Ok && r->Ok_0 < old(buf)@.len() ==> final(self)@.end_reached,
            r is Ok && final(self)@.uncompressed_size == 0 ==> final(self)@.dict.pending_len == 0,
            old(buf)@.len() > 0 && !old(self)@.end_reached && header_due(old(self)@, 0) ==> r == Ok::<
                usize,
                Lzma2Error,
            >(0) && final(self)@.end_reached,
            old(buf)@.len() > 0 && !old(self)@.end_reached && header_fails(old(self)@) ==> r
                == Err::<usize, Lzma2Error>(header_outcome(old(self)@)->Err_0),
            old(buf)@.len() > 0 && stored_ready(old(self)@, old(buf)@.len() as int) ==> {
                let d = run_of(old(self)@);
                let n = old(buf)@.len() as int;
                let m = min_int(n, d.0.len() as int);
                &&& r == Ok::<usize, Lzma2Error>(m as usize)
                &&& final(buf)@.subrange(0, m) == d.0.subrange(0, m)
                &&& m < n ==> final(self)@.end_reached
                &&& m == n ==> run_of(final(self)@).0 == d.0.subrange(n, d.0.len() as int) && run_of(
                    final(self)@,
                ).1 == d.1 && final(self)@.dict.capacity() == old(self)@.dict.capacity()
            },
    {
        if buf.len() == 0 {
            return Ok(0);
        }
        if self.end_reached {
            return Ok(0);
        }
        let ghost buf0 = buf@;
        let ghost v0 = self@;
        let total = buf.len();
        let mut size: usize = 0;
        let mut len: usize = total;
        while len > 0
            invariant
                self.wf(),
                !self@.end_reached,
                header_due(v0, 0) || header_fails(v0) ==> size == 0 && self@ == v0,
                total == buf0.len(),
                buf@.len() == buf0.len(),
                size + len == total,
                buf@.subrange(size as int, total as int) == buf0.subrange(size as int, total as int),
                v0 == old(self)@,
                !v0.end_reached,
                buf0.len() > 0,
                buf0 == old(buf)@,
                stored_ready(v0, total as int) ==> {
                    let d = run_of(v0).0;
                    &&& size <= d.len()
                    &&& buf@.subrange(0, size as int) == d.subrange(0, size as int)
                    &&& run_of(self@).0 == d.subrange(size as int, d.len() as int)
                    &&& run_of(self@).1 == run_of(v0).1
                    &&& self@.dict.capacity() == v0.dict.capacity()
                },
            decreases len * 2 + if self@.dict.pos == self@.dict.capacity() { 1int } else { 0int },
        {
            let ghost pre = buf@;
            let copied = match self.produce(buf, size, len) {
                Ok(c) => c,
                Err(e) => return Err(e),
            };
            if self.end_reached {
                proof {
                    if stored_ready(v0, total as int) {
                        assert(buf@.subrange(0, size as int) =~= pre.subrange(0, size as int));
                    }
                }
                return Ok(size);
            }
            proof {
                if stored_ready(v0, total as int) {
                    let d = run_of(v0).0;
                    assert(buf@.subrange(0, size + copied) =~= d.subrange(0, size + copied)) by {
                        assert(pre.subrange(0, size as int) =~= d.subrange(0, size as int));
                        assert(d.subrange(size as int, d.len() as int).subrange(0, copied as int)
                            =~= d.subrange(size as int, size + copied));
                    }
                    assert(d.subrange(size as int, d.len() as int).subrange(
                        copied as int,
                        d.len() - size,
                    ) =~= d.subrange(size + copied, d.len() as int));
                }
                assert forall|i: int| size + copied <= i < total implies pre[i] == buf0[i] by {
                    assert(pre.subrange(size as int, total as int)[i - size] == buf0.subrange(
                        size as int,
                        total as int,
                    )[i - size]);
                }
                assert(buf@.subrange(size + copied, total as int) =~= buf0.subrange(
                    size + copied,
                    total as int,
                )) by {
                    assert(pre.subrange(size + copied, total as int) =~= buf0.subrange(
                        size + copied,
                        total as int,
                    ));
                }
            }
            size = size + copied;
            len = len - copied;
        }
        Ok(size)
    }
}

} // verus!
