use lzma2_core::lz_encoder::{
    extend_match, get_buf_size, normalize, normalize_lanes, normalize_scalar, LzEncoder, LzEncoderData, MatchFind,
    Matches, MfType,
};

/// Counts what it is asked to skip, and advances the window for each.
struct Skipper {
    skipped: usize,
}

impl MatchFind for Skipper {
    fn find_matches(&mut self, encoder: &mut LzEncoderData, matches: &mut Matches) {
        encoder.move_pos(1, 1);
        matches.count = 0;
    }

    fn skip(&mut self, encoder: &mut LzEncoderData, len: usize) {
        for _ in 0..len {
            encoder.move_pos(1, 1);
        }
        self.skipped += len;
    }
}

#[test]
fn buffer_size_formula() {
    assert_eq!(get_buf_size(1 << 20, 4096, 4096, 273), (1 << 20) + 4096 + 4096 + 273 + (1 << 19) + (256 << 10));
    assert_eq!(get_buf_size(1 << 30, 0, 0, 0), (1 << 30) + (512 << 20));
    assert_eq!(get_buf_size(0, 0, 0, 0), 256 << 10);
}

#[test]
fn normalize_saturates() {
    let mut p = vec![5, 10, -3, i32::MIN + 1, i32::MAX];
    normalize_scalar(&mut p, 4);
    assert_eq!(p, vec![1, 6, -7, i32::MIN, i32::MAX - 4]);
    let mut q = vec![i32::MAX - 1, 0];
    normalize(&mut q, -5);
    assert_eq!(q, vec![i32::MAX, 5]);
}

#[test]
fn batched_and_scalar_normalization_agree() {
    let base: Vec<i32> = (0..21).map(|i| 100 + i * 37).collect();
    let mut a = base.clone();
    let mut b = base.clone();
    normalize_scalar(&mut a, 100);
    normalize_lanes(&mut b, 100);
    assert_eq!(a, b);
    assert_eq!(a[0], 0);
    assert_eq!(a[20], 740);
}

#[test]
fn batched_normalization_clamps_blocks_at_zero() {
    let mut p = vec![0i32; 9];
    normalize_lanes(&mut p, 1);
    assert_eq!(p, vec![0, 0, 0, 0, 0, 0, 0, 0, -1]);
}

#[test]
fn match_extension() {
    let buf = b"abcabcabx".to_vec();
    assert_eq!(extend_match(&buf, 3, 0, 3, 6), 5);
    assert_eq!(extend_match(&buf, 3, 0, 3, 4), 4);
    assert_eq!(extend_match(&buf, 3, 0, 1, 6), 0);
    assert_eq!(extend_match(&buf, 3, 7, 3, 6), 7);
}

#[test]
fn matches_start_empty() {
    let m = Matches::new(3);
    assert_eq!(m.len, vec![0, 0, 0]);
    assert_eq!(m.dist, vec![0, 0, 0]);
    assert_eq!(m.count, 0);
}

#[test]
fn fill_window_sets_read_limit() {
    let mut w = LzEncoderData::new(4096, 0, 0, 32, 16);
    let mut mf = Skipper { skipped: 0 };
    assert!(!w.is_started());
    let data: Vec<u8> = (0..100u8).collect();
    assert_eq!(w.fill_window(&data, &mut mf), 100);
    assert!(!w.is_started());
    assert_eq!(w.get_pos(), -1);
    // 100 bytes written, 16 kept for lookahead: positions up to 83 are usable.
    assert!(w.has_enough_data(-84));
    assert!(!w.has_enough_data(-85));
    assert_eq!(mf.skipped, 0);
}

#[test]
fn move_pos_defers_without_lookahead() {
    let mut w = LzEncoderData::new(4096, 0, 0, 32, 2);
    let mut mf = Skipper { skipped: 0 };
    w.fill_window(&[1, 2, 3], &mut mf);
    assert_eq!(w.move_pos(2, 1), 3);
    assert_eq!(w.get_avail(), 3);
    assert_eq!(w.get_current_byte(), 1);
    assert_eq!(w.move_pos(2, 1), 2);
    assert_eq!(w.move_pos(2, 1), 0);
    assert_eq!(w.get_pos(), 2);
    // More input replays the deferred position through the match finder.
    assert_eq!(w.fill_window(&[4, 5, 6], &mut mf), 3);
    assert_eq!(mf.skipped, 1);
    assert_eq!(w.get_pos(), 2);
    assert!(w.has_enough_data(0));
}

#[test]
fn finishing_accepts_short_lookahead() {
    let mut w = LzEncoderData::new(4096, 0, 0, 32, 16);
    let mut mf = Skipper { skipped: 0 };
    w.fill_window(&[1, 2, 3], &mut mf);
    w.set_finishing(&mut mf);
    assert_eq!(mf.skipped, 0);
    assert_eq!(w.move_pos(4, 1), 3);
    assert_eq!(w.move_pos(4, 1), 2);
    assert_eq!(w.move_pos(4, 1), 1);
    assert!(!w.has_enough_data(0));
}

#[test]
fn window_bytes_and_matches() {
    let mut w = LzEncoderData::new(4096, 0, 0, 32, 16);
    let mut mf = Skipper { skipped: 0 };
    w.fill_window(b"abcabcabcd", &mut mf);
    for _ in 0..4 {
        w.move_pos(0, 0);
    }
    assert_eq!(w.get_pos(), 3);
    assert_eq!(w.get_current_byte(), b'a');
    assert_eq!(w.get_byte(1, 0), b'b');
    assert_eq!(w.get_byte_backward(1), b'c');
    assert_eq!(w.get_byte_by_pos(9), b'd');
    assert_eq!(&w.read_buffer()[..7], b"abcabcd");
    assert_eq!(w.get_match_len(2, 7), 6);
    assert_eq!(w.get_match_len2(1, 2, 6), 5);
    assert_eq!(w.get_match_len2(1, 2, 0), 0);
    assert_eq!(w.get_match_len_fast_reject::<2>(2, 7), 6);
    assert_eq!(w.get_match_len_fast_reject::<2>(0, 7), 0);
    let mut out = Vec::new();
    w.copy_uncompressed(&mut out, 4, 3);
    assert_eq!(out, b"abc".to_vec());
    let mut m = Matches::new(2);
    m.count = 1;
    m.dist[0] = 2;
    m.len[0] = 6;
    assert!(w.verify_matches(&m));
    m.len[0] = 5;
    assert!(!w.verify_matches(&m));
}

#[test]
fn encoder_with_preset_dictionary() {
    let mut e = LzEncoder::new(4096, 0, 0, 32, 16, Skipper { skipped: 0 });
    assert_eq!(e.matches.len.len(), 31);
    e.set_preset_dict(4, b"123456");
    assert_eq!(e.match_finder.skipped, 4);
    assert_eq!(e.data.get_pos(), 3);
    assert_eq!(e.data.get_current_byte(), b'6');
    assert_eq!(e.fill_window(b"xy"), 2);
    e.set_flushing();
    assert!(e.data.has_enough_data(-1));
    e.skip(1);
    assert_eq!(e.data.get_pos(), 4);
    e.find_matches();
    assert_eq!(e.matches().count, 0);
    assert_eq!(MfType::Hc4, MfType::Hc4);
    assert_ne!(MfType::Hc4, MfType::Bt4);
}

#[test]
fn default_match_finder_is_hash_chain() {
    assert_eq!(MfType::default(), MfType::Hc4);
}
