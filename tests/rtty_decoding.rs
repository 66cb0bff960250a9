use rtty_receiver::baudot::{decode_baudot, FIGURES_SHIFT, LETTERS_SHIFT};
use rtty_receiver::rtty::{decode_bits, RttyDecoder, SymbolTiming};

fn timing() -> SymbolTiming {
    SymbolTiming::new(16, 8, 16).unwrap()
}

/// Appends one framed character: a start bit, five data bits (least
/// significant first, a 1 sent as `false`), a stop bit, and idle time.
fn push_frame(bits: &mut Vec<bool>, code: u8, t: SymbolTiming, idle: usize) {
    for _ in 0..t.samples_per_symbol {
        bits.push(true);
    }
    for i in 0..5 {
        let one = (code >> i) & 1 == 1;
        for _ in 0..t.samples_per_symbol {
            bits.push(!one);
        }
    }
    for _ in 0..t.samples_per_stop_bit + idle {
        bits.push(false);
    }
}

fn encode(codes: &[u8], t: SymbolTiming) -> Vec<bool> {
    let mut bits = vec![false; 20];
    for &c in codes {
        push_frame(&mut bits, c, t, 8);
    }
    bits
}

// S = 5, O = 24 in the letters table
const SOS: [u8; 3] = [5, 24, 5];

#[test]
fn letters_shift_always_selects_letters() {
    for start in [true, false] {
        let mut letters = start;
        assert_eq!(decode_baudot(0b11111, &mut letters), None);
        assert!(letters);
    }
}

#[test]
fn figures_shift_always_selects_figures() {
    for start in [true, false] {
        let mut letters = start;
        assert_eq!(decode_baudot(0b11011, &mut letters), None);
        assert!(!letters);
    }
    assert_eq!(LETTERS_SHIFT, 0b11111);
    assert_eq!(FIGURES_SHIFT, 0b11011);
}

#[test]
fn baudot_tables_by_mode() {
    let mut letters = true;
    assert_eq!(decode_baudot(1, &mut letters), Some('E'));
    assert_eq!(decode_baudot(4, &mut letters), Some(' '));
    assert_eq!(decode_baudot(30, &mut letters), Some('V'));
    assert!(letters);
    let mut figures = false;
    assert_eq!(decode_baudot(1, &mut figures), Some('3'));
    assert_eq!(decode_baudot(17, &mut figures), Some('"'));
    assert_eq!(decode_baudot(29, &mut figures), Some('/'));
    assert!(!figures);
}

#[test]
fn decodes_sos() {
    let t = timing();
    let bits = encode(&SOS, t);
    let mut letters = true;
    let (text, consumed) = decode_bits(&bits, t, &mut letters);
    assert_eq!(text, "SOS");
    assert_eq!(consumed, bits.len());
    assert!(letters);
}

#[test]
fn figures_shift_inside_text() {
    let t = timing();
    // A, figures, 3, letters, E
    let bits = encode(&[3, 27, 1, 31, 1], t);
    let mut letters = true;
    let (text, _) = decode_bits(&bits, t, &mut letters);
    assert_eq!(text, "A3E");
    assert!(letters);
    let mut state = true;
    let (text, _) = decode_bits(&encode(&[27, 16, 22], t), t, &mut state);
    assert_eq!(text, "50");
    assert!(!state);
}

#[test]
fn split_inside_data_bits_matches_single_call() {
    let t = timing();
    let bits = encode(&SOS, t);
    let mut whole = RttyDecoder::new(t);
    let all = whole.process(&bits);
    assert_eq!(all, "SOS");
    // the second frame starts at 20 + 112 + 8; cut in its third data bit
    let cut = 20 + 112 + 8 + 16 * 3 + 5;
    let mut split = RttyDecoder::new(t);
    let first = split.process(&bits[..cut].to_vec());
    assert_eq!(first, "S");
    assert_eq!(split.leftover_bits, bits[20 + 112 + 8..cut].to_vec());
    let second = split.process(&bits[cut..].to_vec());
    assert_eq!(format!("{}{}", first, second), all);
    assert_eq!(split.letters, whole.letters);
    assert_eq!(split.leftover_bits, whole.leftover_bits);
}

#[test]
fn every_split_point_matches_single_call() {
    let t = SymbolTiming::new(4, 2, 4).unwrap();
    let bits = encode(&[3, 27, 1, 31, 5, 24], t);
    let mut whole = RttyDecoder::new(t);
    let all = whole.process(&bits);
    assert_eq!(all, "A3SO");
    for cut in 0..=bits.len() {
        let mut d = RttyDecoder::new(t);
        let a = d.process(&bits[..cut].to_vec());
        let b = d.process(&bits[cut..].to_vec());
        assert_eq!(format!("{}{}", a, b), all, "cut at {}", cut);
        assert_eq!(d.letters, whole.letters);
        assert_eq!(d.leftover_bits, whole.leftover_bits);
    }
}

#[test]
fn corrupted_stop_window_is_skipped() {
    let t = timing();
    let mut bits = vec![false; 10];
    // a frame of 'E' whose stop window is all true
    for _ in 0..16 {
        bits.push(true);
    }
    for i in 0..5 {
        let one = (1u8 >> i) & 1 == 1;
        for _ in 0..16 {
            bits.push(!one);
        }
    }
    for _ in 0..16 {
        bits.push(true);
    }
    bits.extend(vec![false; 8]);
    push_frame(&mut bits, 24, t, 8);
    let mut letters = true;
    let (text, consumed) = decode_bits(&bits, t, &mut letters);
    assert_eq!(text, "O");
    assert_eq!(consumed, bits.len());
}

#[test]
fn noise_of_any_length_terminates() {
    let t = timing();
    for len in [0usize, 1, 95, 96, 97, 500, 4096] {
        let bits = vec![true; len];
        let mut letters = true;
        let (text, consumed) = decode_bits(&bits, t, &mut letters);
        // every frame has a true stop window, so nothing decodes
        assert_eq!(text, "");
        assert!(consumed <= len);
        assert!(len - consumed < 112);
    }
    let mut x: u32 = 12345;
    let mut bits = Vec::new();
    for _ in 0..5000 {
        x = x.wrapping_mul(1103515245).wrapping_add(12345);
        bits.push((x >> 16) & 1 == 1);
    }
    let mut letters = true;
    let (_, consumed) = decode_bits(&bits, t, &mut letters);
    assert!(consumed <= bits.len());
}

#[test]
fn idle_line_is_consumed() {
    let t = timing();
    let bits = vec![false; 300];
    let mut d = RttyDecoder::new(t);
    assert_eq!(d.process(&bits), "");
    assert!(d.leftover_bits.is_empty());
    assert!(d.letters);
}

#[test]
fn unfinished_frame_is_carried() {
    let t = timing();
    let mut bits = vec![false; 5];
    bits.extend(vec![true; 16]);
    bits.extend(vec![false; 30]);
    let mut d = RttyDecoder::new(t);
    assert_eq!(d.process(&bits), "");
    assert_eq!(d.leftover_bits, bits[5..].to_vec());
}

#[test]
fn resume_keeps_shift_and_leftover() {
    let t = timing();
    let mut d = RttyDecoder::new(t);
    let mut bits = encode(&[27], t);
    bits.extend(vec![true; 10]);
    assert_eq!(d.process(&bits), "");
    assert!(!d.letters);
    let kept = d.leftover_bits.clone();
    let t2 = SymbolTiming::new(8, 4, 8).unwrap();
    let r = RttyDecoder::resume_from(t2, d);
    assert_eq!(r.timing, t2);
    assert!(!r.letters);
    assert_eq!(r.leftover_bits, kept);
}

#[test]
fn timing_validation() {
    assert!(SymbolTiming::new(0, 0, 0).is_none());
    assert!(SymbolTiming::new(4, 4, 4).is_none());
    assert!(SymbolTiming::new(usize::MAX / 6, 0, 10).is_none());
    let t = SymbolTiming::new(1, 0, 0).unwrap();
    assert_eq!(t.samples_per_symbol, 1);
    assert_eq!(t.half_samples_per_symbol, 0);
    assert_eq!(t.samples_per_stop_bit, 0);
}
