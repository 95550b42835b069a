use lzma2_core::error::Lzma2Error;
use lzma2_core::input::SliceInput;
use lzma2_core::lz_decoder::LzDecoder;
use lzma2_core::lzma2_reader::{decode_props, get_dict_size, get_memory_usage, EntropyDecoder, Lzma2Reader};

/// Stands in for the entropy decoder: the body of a chunk is taken as
/// literals.
struct LiteralDecoder {
    props: (u32, u32, u32),
    body: Vec<u8>,
    used: usize,
    resets: usize,
}

impl EntropyDecoder for LiteralDecoder {
    fn with_props(lc: u32, lp: u32, pb: u32) -> Self {
        LiteralDecoder { props: (lc, lp, pb), body: Vec::new(), used: 0, resets: 0 }
    }

    fn reset(&mut self) {
        self.resets += 1;
    }

    fn prepare(&mut self, compressed: Vec<u8>) {
        self.body = compressed;
        self.used = 0;
    }

    fn decode(&mut self, lz: &mut LzDecoder) -> Result<(), Lzma2Error> {
        while lz.has_space() && self.used < self.body.len() {
            lz.put_byte(self.body[self.used]);
            self.used += 1;
        }
        Ok(())
    }

    fn is_finished(&self) -> bool {
        self.used == self.body.len()
    }
}

fn reader(bytes: Vec<u8>) -> Lzma2Reader<SliceInput, LiteralDecoder> {
    Lzma2Reader::new(SliceInput::new(bytes), 1 << 16, None)
}

fn read_to_end(r: &mut Lzma2Reader<SliceInput, LiteralDecoder>, chunk: usize) -> Result<Vec<u8>, Lzma2Error> {
    let mut all = Vec::new();
    loop {
        let mut buf = vec![0u8; chunk];
        let n = r.read(&mut buf)?;
        if n == 0 {
            return Ok(all);
        }
        all.extend_from_slice(&buf[..n]);
    }
}

#[test]
fn hello_world_uncompressed_chunk() {
    let compressed: Vec<u8> = vec![1, 0, 12, 72, 101, 108, 108, 111, 44, 32, 119, 111, 114, 108, 100, 33, 0];
    let mut r = reader(compressed);
    assert_eq!(read_to_end(&mut r, 64), Ok(b"Hello, world!".to_vec()));
    let mut buf = [0u8; 4];
    assert_eq!(r.read(&mut buf), Ok(0));
}

#[test]
fn hello_world_in_small_reads() {
    let compressed: Vec<u8> = vec![1, 0, 12, 72, 101, 108, 108, 111, 44, 32, 119, 111, 114, 108, 100, 33, 0];
    let mut r = reader(compressed);
    assert_eq!(read_to_end(&mut r, 3), Ok(b"Hello, world!".to_vec()));
}

#[test]
fn end_marker_produces_nothing() {
    let mut r = reader(vec![0, 1, 2, 3]);
    let mut buf = [9u8; 8];
    assert_eq!(r.read(&mut buf), Ok(0));
    assert_eq!(buf, [9u8; 8]);
    assert_eq!(r.inner().position(), 1);
}

#[test]
fn empty_buffer_reads_nothing() {
    let mut r = reader(vec![5]);
    let mut buf: [u8; 0] = [];
    assert_eq!(r.read(&mut buf), Ok(0));
    assert_eq!(r.inner().position(), 0);
}

#[test]
fn reserved_control_bytes_fail() {
    for c in 0x03u8..=0x7F {
        let mut r = reader(vec![c, 0, 0, 0, 0, 0, 0]);
        let mut buf = [0u8; 8];
        assert_eq!(r.read(&mut buf), Err(Lzma2Error::InvalidInput), "control {c}");
    }
    // Also after a dictionary reset.
    let mut r = reader(vec![1, 0, 0, b'a', 0x40]);
    let mut one = [0u8; 1];
    assert_eq!(r.read(&mut one), Ok(1));
    assert_eq!(one, [b'a']);
    let mut buf = [0u8; 8];
    assert_eq!(r.read(&mut buf), Err(Lzma2Error::InvalidInput));
}

#[test]
fn first_chunk_must_reset_the_dictionary() {
    let mut r = reader(vec![2, 0, 0, b'a', 0]);
    let mut buf = [0u8; 8];
    assert_eq!(r.read(&mut buf), Err(Lzma2Error::InvalidInput));
    let mut r = reader(vec![0xC0, 0, 0, 0, 0, 0x5D, b'a', 0]);
    assert_eq!(r.read(&mut buf), Err(Lzma2Error::InvalidInput));
}

#[test]
fn preset_dictionary_allows_preserving_chunk() {
    let preset = b"xyz".to_vec();
    let mut r: Lzma2Reader<SliceInput, LiteralDecoder> =
        Lzma2Reader::new(SliceInput::new(vec![2, 0, 1, b'h', b'i', 0]), 4096, Some(&preset));
    assert_eq!(read_to_end(&mut r, 8), Ok(b"hi".to_vec()));
}

#[test]
fn compressed_chunk_needs_properties() {
    let mut r = reader(vec![1, 0, 0, b'a', 0x80, 0, 0, 0, 0, b'b', 0]);
    assert_eq!(read_to_end(&mut r, 8), Err(Lzma2Error::InvalidInput));
}

#[test]
fn full_reset_chunk_decodes_with_properties() {
    let bytes = vec![0xE0, 0, 4, 0, 4, 0x5D, b'h', b'e', b'l', b'l', b'o', 0];
    let mut r = reader(bytes);
    assert_eq!(read_to_end(&mut r, 3), Ok(b"hello".to_vec()));
    let inner = r.into_inner();
    assert_eq!(inner.position(), 12);
}

#[test]
fn state_reset_and_plain_chunks_follow() {
    let bytes = vec![
        0xE0, 0, 1, 0, 1, 0x5D, b'a', b'b', // two literals
        0xA0, 0, 0, 0, 0, b'c', // state reset, one literal
        0x80, 0, 0, 0, 0, b'd', // no reset
        0x02, 0, 1, b'e', b'f', // stored, dictionary kept
        0x00,
    ];
    let mut r = reader(bytes);
    assert_eq!(read_to_end(&mut r, 4), Ok(b"abcdef".to_vec()));
}

#[test]
fn unfinished_compressed_chunk_is_corrupt() {
    // Announces three bytes but carries four.
    let bytes = vec![0xE0, 0, 2, 0, 3, 0x5D, b'a', b'b', b'c', b'd', 0];
    let mut r = reader(bytes);
    assert_eq!(read_to_end(&mut r, 16), Err(Lzma2Error::CorruptStream));
}

#[test]
fn compressed_chunk_that_produces_nothing_is_corrupt() {
    let bytes = vec![0xE0, 0, 2, 0, 0, 0x5D, b'a', 0];
    let mut r = reader(bytes);
    let mut buf = [0u8; 8];
    assert_eq!(r.read(&mut buf), Err(Lzma2Error::CorruptStream));
}

#[test]
fn invalid_properties_byte_fails() {
    let mut r = reader(vec![0xE0, 0, 0, 0, 0, 197, b'a', 0]);
    let mut buf = [0u8; 8];
    assert_eq!(r.read(&mut buf), Err(Lzma2Error::InvalidInput));
    // 9 * 5 + 9 * 1 + 4 has lc = 4, lp = 1.
    let mut r = reader(vec![0xE0, 0, 0, 0, 0, 58, b'a', 0]);
    assert_eq!(r.read(&mut buf), Err(Lzma2Error::InvalidInput));
}

#[test]
fn truncated_streams_fail() {
    let mut buf = [0u8; 8];
    assert_eq!(reader(vec![]).read(&mut buf), Err(Lzma2Error::UnexpectedEof));
    assert_eq!(reader(vec![1, 0]).read(&mut buf), Err(Lzma2Error::UnexpectedEof));
    assert_eq!(reader(vec![1, 0, 4, b'a']).read(&mut buf), Err(Lzma2Error::UnexpectedEof));
    assert_eq!(reader(vec![0xE0, 0, 0, 0]).read(&mut buf), Err(Lzma2Error::UnexpectedEof));
    assert_eq!(reader(vec![0xE0, 0, 0, 0, 0]).read(&mut buf), Err(Lzma2Error::UnexpectedEof));
    assert_eq!(reader(vec![0xE0, 0, 0, 0, 1, 0x5D, b'a']).read(&mut buf), Err(Lzma2Error::UnexpectedEof));
}

#[test]
fn properties_decode() {
    assert_eq!(decode_props(197), Err(Lzma2Error::InvalidInput));
    assert_eq!(decode_props(255), Err(Lzma2Error::InvalidInput));
    assert_eq!(decode_props(0x5D), Ok((3, 0, 2)));
    assert_eq!(decode_props(0), Ok((0, 0, 0)));
    assert_eq!(decode_props(196), Err(Lzma2Error::InvalidInput));
    assert_eq!(decode_props(4 + 9 * 0 + 45 * 4), Ok((4, 0, 4)));
    for p in 0..=255u8 {
        if let Ok((lc, lp, pb)) = decode_props(p) {
            assert!(lc + lp <= 4);
            assert!(pb <= 4);
            assert_eq!(pb * 45 + lp * 9 + lc, p as u32);
        }
    }
}

#[test]
fn properties_are_handed_to_the_new_decoder() {
    let bytes = vec![0xE0, 0, 0, 0, 0, 0x5D, b'z', 0];
    let mut r = reader(bytes);
    assert_eq!(read_to_end(&mut r, 8), Ok(b"z".to_vec()));
}

#[test]
fn dictionary_sizes_round_up() {
    assert_eq!(get_dict_size(0), 0);
    assert_eq!(get_dict_size(1), 16);
    assert_eq!(get_dict_size(16), 16);
    assert_eq!(get_dict_size(17), 32);
    assert_eq!(get_dict_size(u32::MAX - 16), u32::MAX - 15);
    assert_eq!(get_dict_size(u32::MAX - 15), u32::MAX);
    assert_eq!(get_dict_size(u32::MAX), u32::MAX);
}

#[test]
fn memory_usage_in_kib() {
    assert_eq!(get_memory_usage(8 << 20), 40 + 64 + 8192);
    assert_eq!(get_memory_usage(4096), 40 + 64 + 4);
    assert_eq!(get_memory_usage(1), 104);
}

#[test]
fn inner_gives_access_to_the_input() {
    let mut r = reader(vec![1, 0, 1, b'a', b'b', 0]);
    let mut buf = [0u8; 1];
    assert_eq!(r.read(&mut buf), Ok(1));
    assert_eq!(r.inner().position(), 4);
    assert_eq!(r.inner_mut().position(), 4);
}

fn stored_stream(data: &[u8], chunk: usize) -> Vec<u8> {
    let mut out = Vec::new();
    for (i, part) in data.chunks(chunk).enumerate() {
        out.push(if i == 0 { 1 } else { 2 });
        let n = part.len() - 1;
        out.push((n >> 8) as u8);
        out.push((n & 0xFF) as u8);
        out.extend_from_slice(part);
    }
    out.push(0);
    out
}

#[test]
fn stored_chunks_round_trip_through_small_dictionary() {
    let data: Vec<u8> = (0..1000u32).map(|i| (i * 7 % 251) as u8).collect();
    for dict_size in [1u32, 16, 17, 100, 4096] {
        for read_size in [1usize, 7, 64, 1000, 4096] {
            let mut r: Lzma2Reader<SliceInput, LiteralDecoder> =
                Lzma2Reader::new(SliceInput::new(stored_stream(&data, 100)), dict_size, None);
            assert_eq!(read_to_end(&mut r, read_size), Ok(data.clone()), "dict {dict_size} read {read_size}");
        }
    }
}

#[test]
fn largest_stored_chunk_round_trips() {
    let data: Vec<u8> = (0..65536u32).map(|i| (i % 253) as u8).collect();
    let mut r: Lzma2Reader<SliceInput, LiteralDecoder> =
        Lzma2Reader::new(SliceInput::new(stored_stream(&data, 65536)), 1 << 16, None);
    let mut buf = vec![0u8; 65536];
    assert_eq!(r.read(&mut buf), Ok(65536));
    assert_eq!(buf, data);
    assert_eq!(r.read(&mut buf), Ok(0));
}

#[test]
fn zero_sized_dictionary_cannot_produce() {
    let mut r: Lzma2Reader<SliceInput, LiteralDecoder> =
        Lzma2Reader::new(SliceInput::new(vec![1, 0, 0, b'a', 0]), 0, None);
    let mut buf = [0u8; 4];
    assert_eq!(r.read(&mut buf), Err(Lzma2Error::CorruptStream));
}

#[test]
fn short_read_means_end_of_stream() {
    let mut r = reader(vec![1, 0, 2, b'a', b'b', b'c', 0]);
    let mut buf = [0u8; 10];
    assert_eq!(r.read(&mut buf), Ok(3));
    assert_eq!(&buf[..3], b"abc");
    assert_eq!(r.read(&mut buf), Ok(0));
}

#[test]
fn refused_control_byte_consumes_one_byte() {
    let mut r = reader(vec![0x05, 1, 2, 3]);
    assert_eq!(r.decode_chunk_header(), Err(Lzma2Error::InvalidInput));
    assert_eq!(r.inner().position(), 1);
    let mut r = reader(vec![0x02, 0, 0, b'a']);
    assert_eq!(r.decode_chunk_header(), Err(Lzma2Error::InvalidInput));
    assert_eq!(r.inner().position(), 1);
}

#[test]
fn size_field_cut_short_is_an_error() {
    let mut r = reader(vec![0x01, 0x00]);
    let mut b = [0u8; 4];
    assert_eq!(r.read(&mut b), Err(Lzma2Error::UnexpectedEof));
}

#[test]
fn reset_then_preserve_reads_to_end() {
    let mut r: Lzma2Reader<SliceInput, LiteralDecoder> = Lzma2Reader::new(
        SliceInput::new(vec![0x01, 0x00, 0x01, 0x61, 0x62, 0x02, 0x00, 0x00, 0x63, 0x00]),
        4096,
        None,
    );
    assert_eq!(read_to_end(&mut r, 2), Ok(b"abc".to_vec()));
}
