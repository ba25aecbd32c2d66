use hpvcd::palette::{
    decode_index_map, decode_reuse_flags, read_eg0, read_egk, read_num_palette_indices,
    read_truncated_binary, decode_run, reconstruct, scan_pos, scan_pos_inv, BinList, PaletteCu,
    PalettePredictor,
};

/// Writes the binarisations that the library reads.
struct Sink {
    b: Vec<u8>,
}

impl Sink {
    fn new() -> Self {
        Sink { b: vec![] }
    }

    fn bit(&mut self, x: u32) {
        self.b.push((x & 1) as u8);
    }

    fn bits_n(&mut self, v: u32, n: u32) {
        for i in (0..n).rev() {
            self.bit((v >> i) & 1);
        }
    }

    fn eg_k(&mut self, val: u32, k: u32) {
        let prefix = 31 - ((val >> k) + 1).leading_zeros();
        let base = ((1u32 << prefix) - 1) << k;
        for _ in 0..prefix {
            self.bit(1);
        }
        self.bit(0);
        self.bits_n(val - base, prefix + k);
    }

    fn num_indices(&mut self, count_minus1: u32, max_palette_index: u32) {
        let rice = 3 + ((max_palette_index + 1) >> 3);
        let cmax = 4u32 << rice;
        if count_minus1 < cmax {
            let prefix = count_minus1 >> rice;
            for _ in 0..prefix {
                self.bit(1);
            }
            self.bit(0);
            self.bits_n(count_minus1 & ((1u32 << rice) - 1), rice);
        } else {
            for _ in 0..4 {
                self.bit(1);
            }
            self.eg_k(count_minus1 - cmax, rice + 1);
        }
    }

    fn tb(&mut self, val: u32, alphabet: u32) {
        if alphabet <= 1 {
            return;
        }
        let k = 31 - alphabet.leading_zeros();
        let u = (1u32 << (k + 1)) - alphabet;
        if val < u {
            self.bits_n(val, k);
        } else {
            let coded = val + u;
            self.bits_n(coded >> 1, k);
            self.bit(coded & 1);
        }
    }

    fn run(&mut self, run: u32, pmax: u32) {
        if pmax == 0 {
            return;
        }
        let mp = 32 - pmax.leading_zeros();
        let p = (if run < 2 { run } else { 32 - run.leading_zeros() }).min(mp);
        for _ in 0..p {
            self.bit(1);
        }
        if p < mp {
            self.bit(0);
        }
        if p >= 2 {
            let base = 1u32 << (p - 1);
            if pmax != base {
                let suffix_max = if (base << 1) > pmax { pmax - base } else { base - 1 };
                self.tb(run - base, suffix_max + 1);
            }
        }
    }
}

#[test]
fn truncated_binary_and_eg() {
    assert_eq!(read_truncated_binary(&mut BinList::new(vec![0, 0]), 5), 0);
    assert_eq!(read_truncated_binary(&mut BinList::new(vec![1, 0]), 5), 2);
    assert_eq!(read_truncated_binary(&mut BinList::new(vec![1, 1, 1]), 5), 4);
    let mut m = BinList::new(vec![]);
    assert_eq!(read_truncated_binary(&mut m, 1), 0);
    assert_eq!(m.pos, 0);
    assert_eq!(read_eg0(&mut BinList::new(vec![0])), 0);
    assert_eq!(read_eg0(&mut BinList::new(vec![1, 0, 1])), 2);

    for k in 0..=3 {
        for val in 0..128 {
            let mut s = Sink::new();
            s.eg_k(val, k);
            assert_eq!(read_egk(&mut BinList::new(s.b), k), val);
        }
    }
}

#[test]
fn long_prefixes_read_as_zero() {
    let mut m = BinList::new(vec![1; 40]);
    assert_eq!(read_eg0(&mut m), 0);
    assert_eq!(m.pos, 32);
}

#[test]
fn index_counts_and_runs_roundtrip() {
    for max_index in [1, 7, 30] {
        for v in [0, 5, 31, 32, 200, 5000] {
            let mut s = Sink::new();
            s.num_indices(v, max_index);
            assert_eq!(read_num_palette_indices(&mut BinList::new(s.b), max_index), v);
        }
    }
    for pmax in [1, 2, 3, 15, 16, 63] {
        for run in 0..=pmax {
            let mut s = Sink::new();
            s.run(run, pmax);
            assert_eq!(decode_run(&mut BinList::new(s.b.clone()), pmax, false, 0), run);
            assert_eq!(decode_run(&mut BinList::new(s.b), pmax, true, 0), run);
        }
    }
}

#[test]
fn truncated_binary_stays_below_its_bound() {
    for c_max in 2..20 {
        for word in 0..64u8 {
            let bins: Vec<u8> = (0..6).map(|i| (word >> i) & 1).collect();
            assert!(read_truncated_binary(&mut BinList::new(bins), c_max) < c_max);
        }
    }
}

#[test]
fn scan_inverse_roundtrips() {
    let size = 4;
    for i in 0..size * size {
        for tr in [false, true] {
            let (x, y) = scan_pos(i, size, tr);
            assert_eq!(scan_pos_inv(x, y, size, tr), i);
        }
    }
    assert_eq!(scan_pos_inv(3, 0, 4, false), 3);
}

#[test]
fn predictor_update_order() {
    let mut p = PalettePredictor::default();
    p.reset_from(&[vec![10, 20, 30], vec![11, 21, 31], vec![12, 22, 32]], 3);
    p.update(&[[5, 5, 5], [6, 6, 6]], &[true, false, true], 64);
    assert_eq!(p.entries[0], vec![5, 6, 20]);
    assert_eq!(p.entries[2], vec![5, 6, 22]);
}

#[test]
fn predictor_is_cut_at_its_size() {
    let mut p = PalettePredictor::default();
    p.reset_from(&[vec![10, 20, 30]], 1);
    assert_eq!(p.size(), 3);
    p.update(&[[5, 0, 0], [6, 0, 0]], &[], 3);
    assert_eq!(p.entries[0], vec![5, 6, 10]);
    assert!(p.entries[1].is_empty());
    p.update(&[[1, 0, 0], [2, 0, 0]], &[], 1);
    assert_eq!(p.entries[0], vec![1]);
}

#[test]
fn reuse_flags() {
    let mut s = Sink::new();
    for run in [0, 0, 2, 1] {
        s.eg_k(run, 0);
    }
    let (r, n) = decode_reuse_flags(&mut BinList::new(s.b), 5, 64);
    assert_eq!(r, vec![true, true, false, true, false]);
    assert_eq!(n, 3);
}

#[test]
fn reuse_flags_stop_at_limits() {
    let (r, n) = decode_reuse_flags(&mut BinList::new(vec![]), 4, 2);
    assert_eq!(r, vec![true, true, false, false]);
    assert_eq!(n, 2);
    let mut s = Sink::new();
    s.eg_k(9, 0);
    let (r, n) = decode_reuse_flags(&mut BinList::new(s.b), 4, 2);
    assert_eq!(r, vec![false; 4]);
    assert_eq!(n, 0);
}

#[test]
fn max_index_zero_reads_nothing() {
    let mut m = BinList::new(vec![]);
    let idx = decode_index_map(&mut m, 2, 1, false, false);
    assert_eq!(idx, vec![0, 0, 0, 0]);
    assert_eq!(m.pos, 0);
}

fn encode_index_only(indices: &[u32], size: usize, max_idx: u32) -> Vec<u8> {
    let n = size * size;
    let mut runs: Vec<(u32, u32)> = vec![];
    let mut i = 0;
    while i < n {
        let v = indices[i];
        let mut j = i + 1;
        while j < n && indices[j] == v {
            j += 1;
        }
        runs.push((v, (j - i - 1) as u32));
        i = j;
    }
    let mut s = Sink::new();
    s.num_indices(runs.len() as u32 - 1, max_idx);
    for (ri, (idx, _)) in runs.iter().enumerate() {
        let raw = if ri == 0 {
            *idx
        } else if *idx > runs[ri - 1].0 {
            *idx - 1
        } else {
            *idx
        };
        s.tb(raw, if ri == 0 { max_idx + 1 } else { max_idx });
    }
    s.b.push(0);
    let mut scan = 0;
    for (ri, (_, rl)) in runs.iter().enumerate() {
        let (_, y) = scan_pos(scan, size, false);
        if y > 0 && scan + 1 < n {
            s.b.push(0);
        }
        let remaining = runs.len() - ri - 1;
        if remaining != 0 {
            s.run(*rl, (n - scan - 1 - remaining) as u32);
        }
        scan += (*rl + 1) as usize;
    }
    s.b
}

#[test]
fn index_map_copy_index_roundtrip() {
    let cases: Vec<(usize, usize, Vec<u32>)> = vec![
        (2, 3, vec![0, 1, 2, 0]),
        (4, 4, vec![0, 1, 1, 2, 3, 3, 0, 0, 1, 2, 2, 2, 0, 0, 1, 3]),
        (2, 2, vec![0, 1, 1, 0]),
    ];
    for (size, psize, arr) in &cases {
        let bits = encode_index_only(arr, *size, *psize as u32 - 1);
        let dec = decode_index_map(&mut BinList::new(bits), *size, *psize, false, false);
        assert_eq!(&dec, arr, "size={size}");
    }
}

#[test]
fn index_map_copies_from_above() {
    // One coded index run of two samples, then the final run from above fills the rest.
    let mut s = Sink::new();
    s.num_indices(1, 1);
    s.tb(0, 2);
    s.tb(0, 1);
    s.b.push(1);
    s.run(0, 1);
    s.run(0, 1);
    let dec = decode_index_map(&mut BinList::new(s.b), 2, 2, false, false);
    assert_eq!(dec, vec![0, 1, 1, 0]);
}

#[test]
fn indices_never_leave_the_palette() {
    for word in 0..200u32 {
        let bins: Vec<u8> = (0..40).map(|i| ((word.wrapping_mul(2654435761)) >> (i % 32)) as u8 & 1).collect();
        let dec = decode_index_map(&mut BinList::new(bins), 4, 3, true, false);
        assert_eq!(dec.len(), 16);
        assert!(dec.iter().all(|&i| i <= 3));
    }
}

#[test]
fn reconstruct_with_escape_per_scanpos() {
    let cu = PaletteCu {
        palette: vec![[10, 10, 10], [20, 20, 20]],
        transpose: false,
        indices: vec![1, 2, 0, 0],
        escapes: {
            let mut e = vec![[0u16; 3]; 4];
            e[1] = [99, 88, 77];
            e
        },
        escape_index: 2,
    };
    let mut y = vec![0u16; 4];
    let mut cb = vec![0u16; 4];
    let mut cr = vec![0u16; 4];
    reconstruct(
        &cu,
        2,
        3,
        &mut y,
        &mut cb,
        &mut cr,
        [2, 2, 2],
        [(2, 2), (2, 2), (2, 2)],
        [(0, 0), (0, 0), (0, 0)],
        [(1, 1), (1, 1), (1, 1)],
    );
    assert_eq!(y, vec![20, 99, 10, 10]);
    assert_eq!(cb, vec![20, 88, 10, 10]);
    assert_eq!(cr, vec![20, 77, 10, 10]);
}

#[test]
fn transposed_block_swaps_rows_and_columns() {
    let mut cu = PaletteCu {
        palette: vec![[10, 0, 0], [20, 0, 0], [30, 0, 0], [40, 0, 0]],
        transpose: false,
        indices: vec![0, 1, 3, 2],
        escapes: vec![],
        escape_index: 9,
    };
    let mut plain = vec![0u16; 4];
    let mut turned = vec![0u16; 4];
    let mut none = vec![];
    let mut none2 = vec![];
    reconstruct(&cu, 2, 1, &mut plain, &mut none, &mut none2, [2, 0, 0], [(2, 2), (0, 0), (0, 0)],
        [(0, 0); 3], [(1, 1); 3]);
    let mut narrow = vec![0u16; 3];
    reconstruct(&cu, 2, 1, &mut narrow, &mut none, &mut none2, [1, 0, 0], [(2, 2), (0, 0), (0, 0)],
        [(0, 0); 3], [(1, 1); 3]);
    assert_eq!(narrow, vec![10, 30, 40]);
    cu.transpose = true;
    reconstruct(&cu, 2, 1, &mut turned, &mut none, &mut none2, [2, 0, 0], [(2, 2), (0, 0), (0, 0)],
        [(0, 0); 3], [(1, 1); 3]);
    assert_eq!(plain, vec![10, 20, 30, 40]);
    assert_eq!(turned, vec![10, 30, 20, 40]);
}

#[test]
fn large_palettes_need_no_escape() {
    assert_eq!(decode_index_map(&mut BinList::new(vec![0; 64]), 1, 223, false, false), vec![0]);
    assert_eq!(scan_pos_inv(5, 0, 3, false), 5);
    assert_eq!(decode_index_map(&mut BinList::new(vec![0; 64]), 1, 230, true, false), vec![0]);
    let mut bins = vec![1, 0];
    bins.extend([0; 30]);
    bins.push(1);
    assert_eq!(read_num_palette_indices(&mut BinList::new(bins.clone()), 223), 0x8000_0001);
    bins.insert(0, 1);
    assert_eq!(read_num_palette_indices(&mut BinList::new(bins), 230), 1);
    assert_eq!(read_num_palette_indices(&mut BinList::new(vec![1; 40]), 230), 0);
}
