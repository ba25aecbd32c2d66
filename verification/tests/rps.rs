use hpvcd::bitreader::BitReader;
use hpvcd::rps::{derive_inter_rps, derive_poc, parse_short_term_rps, ShortTermRps};
use hpvcd::DecodeError;

#[test]
fn parse_explicit_single_negative() {
    let bytes = [0b0101_1100];
    let mut r = BitReader::new(&bytes);
    let rps = parse_short_term_rps(&mut r, 0, 1, &[]).unwrap();
    assert_eq!(rps.delta_poc_s0, vec![-1]);
    assert_eq!(rps.used_s0, vec![true]);
    assert!(rps.delta_poc_s1.is_empty());
}

#[test]
fn poc_wraps() {
    let max = 256;
    let p = derive_poc(2, 255, max, false);
    assert_eq!(p, 258);
    assert_eq!(derive_poc(0, 999, max, true), 0);
}

#[test]
fn poc_stays_near_the_previous_one() {
    for prev in [-700, -256, -1, 0, 1, 127, 128, 255, 256, 1000] {
        for lsb in 0..256 {
            let p = derive_poc(lsb, prev, 256, false);
            assert_eq!(p.rem_euclid(256), lsb);
            assert!(prev - 128 < p && p <= prev + 128);
        }
    }
}

/// Writes bits, most significant first.
struct Writer {
    bits: Vec<u8>,
}

impl Writer {
    fn new() -> Self {
        Writer { bits: vec![] }
    }

    fn flag(&mut self, b: bool) {
        self.bits.push(b as u8);
    }

    fn ue(&mut self, v: u32) {
        let len = 32 - (v + 1).leading_zeros();
        for _ in 1..len {
            self.bits.push(0);
        }
        for i in (0..len).rev() {
            self.bits.push((((v + 1) >> i) & 1) as u8);
        }
    }

    fn bytes(&self) -> Vec<u8> {
        self.bits
            .chunks(8)
            .map(|c| c.iter().enumerate().fold(0u8, |a, (i, b)| a | (b << (7 - i))))
            .collect()
    }
}

#[test]
fn codes_and_bits_are_read_in_order() {
    let mut w = Writer::new();
    for v in [0, 1, 2, 7, 30, 1000] {
        w.ue(v);
    }
    w.flag(true);
    let bytes = w.bytes();
    let mut r = BitReader::new(&bytes);
    for v in [0, 1, 2, 7, 30, 1000] {
        assert_eq!(r.read_ue().unwrap(), v);
    }
    assert!(r.read_flag().unwrap());
    let mut end = BitReader::new(&[]);
    assert!(matches!(end.read_bit(), Err(DecodeError::Bitstream("unexpected end of data"))));
    let zeros = [0u8; 8];
    let mut long = BitReader::new(&zeros);
    assert!(matches!(long.read_ue(), Err(DecodeError::Bitstream("bad Exp-Golomb code"))));
    assert_eq!((long.byte, long.shift), (0, 0));
}

fn set(s0: &[i32], s1: &[i32]) -> ShortTermRps {
    ShortTermRps {
        delta_poc_s0: s0.to_vec(),
        used_s0: vec![true; s0.len()],
        delta_poc_s1: s1.to_vec(),
        used_s1: vec![true; s1.len()],
    }
}

#[test]
fn explicit_set_accumulates_distances() {
    let mut w = Writer::new();
    w.ue(2);
    w.ue(1);
    w.ue(0);
    w.flag(true);
    w.ue(2);
    w.flag(false);
    w.ue(4);
    w.flag(true);
    let bytes = w.bytes();
    let rps = parse_short_term_rps(&mut BitReader::new(&bytes), 0, 1, &[]).unwrap();
    assert_eq!(rps.delta_poc_s0, vec![-1, -4]);
    assert_eq!(rps.used_s0, vec![true, false]);
    assert_eq!(rps.delta_poc_s1, vec![5]);
    assert_eq!(rps.used_s1, vec![true]);
    assert_eq!(rps.num_delta_pocs(), 3);
}

#[test]
fn predicted_set_moves_and_filters() {
    let src = set(&[-1, -3], &[2]);
    assert_eq!((src.num_negative(), src.num_positive()), (2, 1));
    let out = derive_inter_rps(&src, -1, &[true, false, true, false], &[true, true, true, false]);
    assert_eq!(out.delta_poc_s0, vec![-2, -4]);
    assert_eq!(out.used_s0, vec![true, false]);
    assert_eq!(out.delta_poc_s1, vec![1]);
    assert_eq!(out.used_s1, vec![true]);
    let out = derive_inter_rps(&src, 4, &[true; 4], &[true; 4]);
    assert!(out.delta_poc_s0.is_empty());
    assert_eq!(out.delta_poc_s1, vec![1, 3, 4, 6]);
}

#[test]
fn own_picture_has_the_last_flag() {
    let src = set(&[-2], &[3]);
    let out = derive_inter_rps(&src, -1, &[true, true, false], &[true, true, false]);
    assert_eq!((out.delta_poc_s0, out.used_s0), (vec![-3], vec![true]));
    assert_eq!((out.delta_poc_s1, out.used_s1), (vec![2], vec![true]));
    let out = derive_inter_rps(&src, -1, &[false, false, true], &[false, false, true]);
    assert_eq!(out.delta_poc_s0, vec![-1]);
    assert!(out.delta_poc_s1.is_empty());
}

#[test]
fn predicted_set_is_parsed() {
    let mut w = Writer::new();
    w.flag(true);
    w.flag(true);
    w.ue(0);
    for _ in 0..4 {
        w.flag(true);
    }
    let bytes = w.bytes();
    let sets = vec![set(&[-1, -3], &[2])];
    let rps = parse_short_term_rps(&mut BitReader::new(&bytes), 1, 4, &sets).unwrap();
    assert_eq!(rps.delta_poc_s0, vec![-1, -2, -4]);
    assert_eq!(rps.delta_poc_s1, vec![1]);
}

fn failure(bits: &[u8], idx: usize, num_sets: usize, sets: &[ShortTermRps]) -> &'static str {
    let w = Writer { bits: bits.to_vec() };
    match parse_short_term_rps(&mut BitReader::new(&w.bytes()), idx, num_sets, sets) {
        Err(DecodeError::Bitstream(what)) => what,
        _ => "",
    }
}

#[test]
fn broken_sets_say_what_is_missing() {
    let sets = vec![set(&[-1], &[])];
    assert_eq!(failure(&[], 1, 1, &sets), "inter_ref_pic_set_pred");
    assert_eq!(failure(&[], 0, 1, &sets), "num_negative_pics");
    assert_eq!(failure(&[1, 0, 0, 0, 0, 0, 0, 0], 0, 1, &sets), "num_positive_pics");
    assert_eq!(failure(&[0, 1, 0, 1, 0, 0, 0, 0], 0, 1, &sets), "delta_poc_s0_minus1");
    assert_eq!(failure(&[0, 0, 1, 0, 1, 0, 1, 0], 1, 9, &sets), "used_by_curr_s0");
    assert_eq!(failure(&[0, 1, 0, 1, 0, 0, 1, 0], 1, 9, &sets), "used_by_curr_s1");
    assert_eq!(failure(&[1, 0, 1, 0, 0, 0, 0, 0], 0, 9, &sets), "delta_poc_s1_minus1");
    assert_eq!(failure(&[1, 0, 0, 0, 1, 0, 0, 0], 8, 8, &sets), "delta_rps_sign");
    assert_eq!(failure(&[1, 1, 0, 0, 0, 1, 0, 0], 1, 1, &sets), "used_by_curr_pic_flag");
    assert_eq!(failure(&[1, 0, 0, 0, 1, 0, 0, 0], 1, 9, &sets), "use_delta_flag");
    assert_eq!(failure(&[1, 0, 0, 0, 0, 0, 0, 0], 1, 1, &sets), "delta_idx_minus1");
    assert_eq!(failure(&[1, 0, 1, 0, 0, 0, 0, 0], 1, 1, &sets), "delta_idx out of range");
    assert_eq!(failure(&[1, 1, 1, 0, 0, 0, 0, 0], 5, 9, &sets), "ref rps missing");
    assert_eq!(failure(&[1, 1, 0, 0, 0, 0, 0, 0], 1, 9, &sets), "abs_delta_rps_minus1");
}

#[test]
fn prediction_keeps_the_nearest_first() {
    let src = set(&[-2, -5, -9], &[1, 4]);
    for delta in -12..12 {
        let out = derive_inter_rps(&src, delta, &[true; 6], &[true; 6]);
        assert!(out.delta_poc_s0.windows(2).all(|w| w[0] > w[1]));
        assert!(out.delta_poc_s1.windows(2).all(|w| w[0] < w[1]));
        assert!(out.delta_poc_s0.iter().all(|&d| d < 0));
        assert!(out.delta_poc_s1.iter().all(|&d| d > 0));
    }
}

#[test]
fn explicit_sets_run_outwards() {
    let mut w = Writer::new();
    w.ue(3);
    w.ue(3);
    for code in [0, 4, 1, 2, 0, 9] {
        w.ue(code);
        w.flag(true);
    }
    let rps = parse_short_term_rps(&mut BitReader::new(&w.bytes()), 0, 1, &[]).unwrap();
    assert_eq!(rps.delta_poc_s0, vec![-1, -6, -8]);
    assert_eq!(rps.delta_poc_s1, vec![3, 4, 14]);
}
