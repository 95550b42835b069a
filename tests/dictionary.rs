use lzma2_core::error::Lzma2Error;
use lzma2_core::input::SliceInput;
use lzma2_core::lz_decoder::LzDecoder;

fn flush_all(d: &mut LzDecoder, n: usize) -> Vec<u8> {
    let mut out = vec![0u8; n];
    let copied = d.flush(&mut out, 0).unwrap();
    out.truncate(copied);
    out
}

#[test]
fn repeat_distance_one_expands_a_run() {
    let mut d = LzDecoder::new(128, None);
    d.set_limit(101);
    d.put_byte(b'x');
    assert_eq!(d.repeat(0, 100), Ok(()));
    assert_eq!(d.get_pos(), 101);
    assert!(!d.has_pending());
    let out = flush_all(&mut d, 101);
    assert_eq!(out, vec![b'x'; 101]);
}

#[test]
fn repeat_beyond_history_fails() {
    let mut d = LzDecoder::new(32, None);
    d.set_limit(10);
    d.put_byte(1);
    d.put_byte(2);
    assert_eq!(d.repeat(2, 3), Err(Lzma2Error::CorruptStream));
    assert_eq!(d.get_pos(), 2);
    assert!(!d.has_pending());
    assert_eq!(d.repeat(1, 3), Ok(()));
    assert_eq!(flush_all(&mut d, 8), vec![1, 2, 1, 2, 1]);
}

#[test]
fn repeat_on_empty_history_fails() {
    let mut d = LzDecoder::new(16, None);
    d.set_limit(4);
    assert_eq!(d.repeat(0, 1), Err(Lzma2Error::CorruptStream));
}

#[test]
fn repeat_cut_by_limit_resumes_exactly() {
    let mut d = LzDecoder::new(64, None);
    d.set_limit(3);
    for b in b"abc" {
        d.put_byte(*b);
    }
    assert!(!d.has_space());
    d.set_limit(1);
    assert_eq!(d.repeat(2, 7), Ok(()));
    assert!(d.has_pending());
    assert_eq!(d.get_pos(), 4);
    let first = flush_all(&mut d, 16);
    assert_eq!(first, b"abca".to_vec());
    d.set_limit(10);
    assert_eq!(d.repeat_pending(), Ok(()));
    assert!(!d.has_pending());
    assert_eq!(d.get_pos(), 10);
    let second = flush_all(&mut d, 16);
    assert_eq!(second, b"bcabca".to_vec());
    assert_eq!(d.repeat_pending(), Ok(()));
    assert_eq!(d.get_pos(), 10);
}

#[test]
fn position_wraps_after_full_buffer_is_flushed() {
    let mut d = LzDecoder::new(16, None);
    d.set_limit(16);
    for i in 0..16u8 {
        d.put_byte(i);
    }
    assert_eq!(d.get_pos(), 16);
    let out = flush_all(&mut d, 16);
    assert_eq!(out, (0..16u8).collect::<Vec<u8>>());
    assert_eq!(d.get_pos(), 0);
    d.set_limit(2);
    d.put_byte(100);
    d.put_byte(101);
    assert_eq!(d.get_byte(0), 101);
    assert_eq!(d.get_byte(1), 100);
    assert_eq!(d.get_byte(2), 15);
    assert_eq!(flush_all(&mut d, 4), vec![100, 101]);
}

#[test]
fn repeat_reads_through_the_end_of_the_buffer() {
    let mut d = LzDecoder::new(16, None);
    d.set_limit(16);
    for i in 0..16u8 {
        d.put_byte(i);
    }
    flush_all(&mut d, 16);
    d.set_limit(5);
    // Three bytes behind offset 0 are the bytes at offsets 13, 14 and 15.
    assert_eq!(d.repeat(2, 5), Ok(()));
    assert_eq!(flush_all(&mut d, 8), vec![13, 14, 15, 13, 14]);
}

#[test]
fn get_byte_out_of_range_is_zero() {
    let mut d = LzDecoder::new(16, None);
    d.set_limit(1);
    d.put_byte(9);
    assert_eq!(d.get_byte(0), 9);
    assert_eq!(d.get_byte(17), 0);
    assert_eq!(d.get_byte(usize::MAX), 0);
}

#[test]
fn flush_into_short_buffer_fails() {
    let mut d = LzDecoder::new(16, None);
    d.set_limit(3);
    d.put_byte(1);
    d.put_byte(2);
    d.put_byte(3);
    let mut out = vec![0u8; 4];
    assert_eq!(d.flush(&mut out, 2), Err(Lzma2Error::InvalidData));
    assert_eq!(out, vec![0, 0, 0, 0]);
    assert_eq!(d.flush(&mut out, 1), Ok(3));
    assert_eq!(out, vec![0, 1, 2, 3]);
    assert_eq!(d.flush(&mut out, 4), Ok(0));
}

#[test]
fn copy_uncompressed_stops_at_buffer_end() {
    let mut d = LzDecoder::new(16, None);
    let mut input = SliceInput::new((0..20u8).collect());
    assert_eq!(d.copy_uncompressed(&mut input, 10), Ok(()));
    assert_eq!(d.get_pos(), 10);
    assert_eq!(d.copy_uncompressed(&mut input, 10), Ok(()));
    assert_eq!(d.get_pos(), 16);
    assert_eq!(input.position(), 16);
    assert_eq!(flush_all(&mut d, 16), (0..16u8).collect::<Vec<u8>>());
    assert_eq!(d.get_pos(), 0);
}

#[test]
fn copy_uncompressed_reports_truncated_input() {
    let mut d = LzDecoder::new(16, None);
    let mut input = SliceInput::new(vec![1, 2]);
    assert_eq!(d.copy_uncompressed(&mut input, 3), Err(Lzma2Error::UnexpectedEof));
}

#[test]
fn preset_dictionary_keeps_its_last_bytes() {
    let preset: Vec<u8> = (1..=20u8).collect();
    let d = LzDecoder::new(16, Some(&preset));
    assert_eq!(d.get_pos(), 16);
    assert_eq!(d.capacity(), 16);
    assert_eq!(d.get_byte(0), 20);
    assert_eq!(d.get_byte(15), 5);
    let small = LzDecoder::new(16, Some(&preset[..3]));
    assert_eq!(small.get_pos(), 3);
    assert_eq!(small.get_byte(0), 3);
}

#[test]
fn reset_forgets_history() {
    let mut d = LzDecoder::new(16, None);
    d.set_limit(2);
    d.put_byte(7);
    d.put_byte(8);
    d.reset();
    assert_eq!(d.get_pos(), 0);
    assert!(!d.has_space());
    d.set_limit(4);
    assert!(d.has_space());
    assert_eq!(d.repeat(0, 1), Err(Lzma2Error::CorruptStream));
    assert_eq!(d.get_byte(0), 0);
}

#[test]
fn set_limit_is_capped_by_capacity() {
    let mut d = LzDecoder::new(16, None);
    d.set_limit(1000);
    for i in 0..16u8 {
        assert!(d.has_space());
        d.put_byte(i);
    }
    assert!(!d.has_space());
}

#[test]
fn truncated_copy_leaves_cursors() {
    let mut d = LzDecoder::new(16, None);
    d.set_limit(1);
    d.put_byte(5);
    let mut input = SliceInput::new(vec![1, 2]);
    assert_eq!(d.copy_uncompressed(&mut input, 3), Err(Lzma2Error::UnexpectedEof));
    assert_eq!(d.get_pos(), 1);
    assert_eq!(flush_all(&mut d, 4), vec![5]);
}
