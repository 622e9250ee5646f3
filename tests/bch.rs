use trustmark::bch::{bch_decode, bch_encode, bch_init, Correction, POLYNOMIAL};

#[test]
fn init() {
    let ecc_state = bch_init(5, 137);
    assert_eq!(ecc_state.m, 7);
    assert_eq!(ecc_state.t, 5);
    assert_eq!(ecc_state.poly, 137);
    assert_eq!(ecc_state.n, 127);
    assert_eq!(ecc_state.ecc_bytes, 5);
    assert_eq!(&ecc_state.cyclic_tab[..5], &[0_u32, 0, 2498495642, 3758096384, 3174305199]);
    let len = ecc_state.cyclic_tab.len();
    assert_eq!(&ecc_state.cyclic_tab[len - 3..], &[0, 1839291269, 3758096384]);
    assert_eq!(&ecc_state.syn[..], &[0; 10]);
    assert_eq!(&ecc_state.elp[..], &[0; 6]);
    assert_eq!(&ecc_state.errloc[..], &[0; 5]);
    assert_eq!(&ecc_state.exponents[..10], &[1, 2, 4, 8, 16, 32, 64, 9, 18, 36]);
    assert_eq!(&ecc_state.logarithms[..10], &[0, 0, 1, 31, 2, 62, 32, 103, 3, 7]);
    assert_eq!(&ecc_state.elp_pre[..], &[0, 16, 18, 102, 22, 40, 110, 0]);
    assert_eq!(ecc_state.ecc_bits, 35);
}

#[test]
fn encode_zeros() {
    let mut ecc_state = bch_init(8, 137);
    let ecc = bch_encode(&mut ecc_state, &[0, 0, 0, 0, 0, 0, 0, 0]);
    assert_eq!(ecc, &[0, 0, 0, 0, 0, 0, 0]);
}

#[test]
fn encode_data() {
    let mut ecc_state = bch_init(4, 137);
    let ecc = bch_encode(&mut ecc_state, &[133, 20, 228, 249, 11, 172, 165, 151, 0]);
    assert_eq!(ecc, &[115, 32, 10, 0]);
}

#[test]
fn init_sizes_for_each_capacity() {
    for (t, bits, bytes) in [(3u32, 21u32, 3u32), (4, 28, 4), (5, 35, 5), (8, 56, 7)] {
        let st = bch_init(t, POLYNOMIAL);
        assert_eq!(st.ecc_bits, bits);
        assert_eq!(st.ecc_bytes, bytes);
        assert_eq!(st.exponents.len(), 128);
        assert_eq!(st.exponents[127], 1);
        for i in 0..127usize {
            assert_eq!(st.logarithms[st.exponents[i] as usize] as usize, i);
        }
    }
}

#[test]
fn decode_clean_and_corrected() {
    let data = vec![133u8, 20, 228, 249, 11, 172, 165, 151, 0];
    let mut st = bch_init(4, POLYNOMIAL);
    let ecc = bch_encode(&mut st, &data);
    let mut same = data.clone();
    assert_eq!(bch_decode(&mut st, &mut same, &ecc), Correction::Corrected(0));
    assert_eq!(same, data);
    for flips in 1..=4usize {
        let mut damaged = data.clone();
        for k in 0..flips {
            damaged[k * 2] ^= 1 << k;
        }
        let r = bch_decode(&mut st, &mut damaged, &ecc);
        assert_eq!(r, Correction::Corrected(flips as u32));
        assert_eq!(damaged, data);
    }
}

#[test]
fn decode_too_many_flips_is_reported() {
    let data = vec![0u8; 9];
    let mut st = bch_init(3, POLYNOMIAL);
    let ecc = bch_encode(&mut st, &data);
    let mut damaged = vec![0xffu8, 0xff, 0, 0, 0, 0, 0, 0, 0];
    let r = bch_decode(&mut st, &mut damaged, &ecc);
    assert!(r == Correction::Uncorrectable || matches!(r, Correction::Corrected(k) if k <= 6));
    if r == Correction::Uncorrectable {
        assert_eq!(damaged, vec![0xffu8, 0xff, 0, 0, 0, 0, 0, 0, 0]);
    }
}

#[test]
fn uncorrectable_leaves_data_alone() {
    let data = vec![0x5au8, 0x13, 0x77, 0x00, 0xc4, 0x2e, 0x91, 0x08, 0x3f];
    let mut st = bch_init(3, POLYNOMIAL);
    let ecc = bch_encode(&mut st, &data);
    let mut uncorrectable = 0;
    for pattern in 1..200u32 {
        let mut damaged = data.clone();
        for k in 0..7u32 {
            let bit = (pattern * 13 + k * 29) % 72;
            damaged[(bit / 8) as usize] ^= 1 << (bit % 8);
        }
        let before = damaged.clone();
        match bch_decode(&mut st, &mut damaged, &ecc) {
            Correction::Uncorrectable => {
                uncorrectable += 1;
                assert_eq!(damaged, before);
            }
            Correction::Corrected(k) => assert!(k <= 6),
        }
    }
    assert!(uncorrectable > 0);
}

#[test]
fn every_reported_correction_is_a_codeword() {
    let data = vec![0x12u8, 0x9c, 0x40, 0xfe, 0x07, 0x33, 0xa5, 0x5a, 0x80];
    let mut st = bch_init(3, POLYNOMIAL);
    let ecc = bch_encode(&mut st, &data);
    assert_eq!(ecc.len(), 3);
    let mut corrected_some = 0;
    for pattern in 1..300u32 {
        let flips = 1 + pattern % 5;
        let mut damaged = data.clone();
        let mut recv = ecc.clone();
        for k in 0..flips {
            let bit = (pattern * 7 + k * 31) % 93;
            if bit < 72 {
                damaged[(bit / 8) as usize] ^= 1 << (bit % 8);
            } else {
                let b = bit - 72;
                recv[(b / 8) as usize] ^= 1 << (b % 8);
            }
        }
        if let Correction::Corrected(k) = bch_decode(&mut st, &mut damaged, &recv) {
            assert!(k <= 3);
            let mut fixed_recv = recv.clone();
            for &pos in &st.errloc {
                let byte = (pos / 8) as usize;
                if byte >= damaged.len() && byte - damaged.len() < fixed_recv.len() {
                    fixed_recv[byte - damaged.len()] ^= 1 << (pos & 7);
                }
            }
            let mut fresh = bch_init(3, POLYNOMIAL);
            let parity = bch_encode(&mut fresh, &damaged);
            assert_eq!(parity[0], fixed_recv[0]);
            assert_eq!(parity[1], fixed_recv[1]);
            assert_eq!(parity[2] & 0xf8, fixed_recv[2] & 0xf8);
            corrected_some += 1;
        }
    }
    assert!(corrected_some > 0);
}
