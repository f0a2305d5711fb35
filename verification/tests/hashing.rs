use ribbon_filter::hashing::{derive_attempt_seed, fastrange_u64, standard_equation_w64};
use ribbon_filter::Mode;

#[test]
fn fastrange_scales_into_range() {
    assert_eq!(fastrange_u64(0, 10), 0);
    assert_eq!(fastrange_u64(u64::MAX, 10), 9);
    assert_eq!(fastrange_u64(1u64 << 63, 10), 5);
    assert_eq!(fastrange_u64(u64::MAX, 0), 0);
    assert_eq!(fastrange_u64(12345, 1), 0);
}

#[test]
fn attempt_seeds_are_fixed() {
    assert_eq!(derive_attempt_seed(0, 0), 0xc435_5e77_cea8_a35b);
    assert_eq!(derive_attempt_seed(42, 1), 0x1620_e724_a70d_393f);
    assert_eq!(derive_attempt_seed(42, (1u64 << 32) | 3), 0xe446_d68f_c257_011b);
}

#[test]
fn standard_equation_is_fixed() {
    let mut fp = vec![0u64; 2];
    let eq = standard_equation_w64(12345, 7, 100, 16, Mode::Standard, &mut fp, 0xff);
    assert_eq!(eq.start, 20);
    assert_eq!(eq.coeff, 0x9ecf);
    assert_eq!(fp, vec![0x6fe5_f16e_91a6_6bf7, 0x6d]);

    let mut fp1 = vec![0u64; 1];
    let eq1 = standard_equation_w64(0, 0, 64, 64, Mode::Standard, &mut fp1, u64::MAX);
    assert_eq!(eq1.start, 0);
    assert_eq!(eq1.coeff, 0x6e78_9e6a_a1b9_65f5);
    assert_eq!(fp1, vec![0x06c4_5d18_8009_454f]);
}

#[test]
fn homogeneous_equation_has_zero_fingerprint() {
    let mut fp = vec![7u64; 3];
    let eq = standard_equation_w64(12345, 7, 100, 16, Mode::Homogeneous, &mut fp, 0xff);
    assert_eq!(eq.start, 20);
    assert_eq!(eq.coeff, 0x9ecf);
    assert_eq!(fp, vec![0, 0, 0]);
}

#[test]
fn equation_coefficient_stays_in_width() {
    for h in 0..200u64 {
        let mut fp = vec![0u64; 1];
        let eq = standard_equation_w64(h, 3, 50, 5, Mode::Standard, &mut fp, 0xf);
        assert!(eq.start <= 45);
        assert_eq!(eq.coeff & 1, 1);
        assert_eq!(eq.coeff >> 5, 0);
        assert_eq!(fp[0] >> 4, 0);
    }
}

#[test]
fn wide_equation_draws_a_second_coefficient_word() {
    let mut fp = vec![0u64; 2];
    let eq = standard_equation_w64(12345, 7, 200, 96, Mode::Standard, &mut fp, 0xff);
    assert_eq!(eq.start, 25);
    assert_eq!(eq.coeff, 0x91a6_6bf7_f7fa_9d54_b8f0_9ecf);
    assert_eq!(fp, vec![0x0b7f_0214_7b12_f76d, 0xc0]);

    let mut fp1 = vec![0u64; 1];
    let eq1 = standard_equation_w64(0, 0, 128, 128, Mode::Standard, &mut fp1, u64::MAX);
    assert_eq!(eq1.start, 0);
    assert_eq!(eq1.coeff, 0x06c4_5d18_8009_454f_6e78_9e6a_a1b9_65f5);
    assert_eq!(fp1, vec![0xf88b_b8a8_724c_81ec]);

    let mut fp2 = vec![0u64; 1];
    let eq2 = standard_equation_w64(99, 5, 300, 65, Mode::Standard, &mut fp2, 0xfff);
    assert_eq!(eq2.start, 24);
    assert_eq!(eq2.coeff, 0x1_be4d_15bf_6ca2_66ad);
    assert_eq!(fp2, vec![0xd8c]);
}

#[test]
fn wide_coefficient_stays_in_width() {
    for h in 0..200u64 {
        let mut fp = vec![0u64; 1];
        let eq = standard_equation_w64(h, 3, 150, 100, Mode::Standard, &mut fp, u64::MAX);
        assert!(eq.start <= 50);
        assert_eq!(eq.coeff & 1, 1);
        assert_eq!(eq.coeff >> 100, 0);
    }
}

#[test]
fn attempt_seeds_differ_across_attempts_and_bases() {
    let mut seen = std::collections::HashSet::new();
    for g in 0..4u64 {
        for r in 0..16u64 {
            assert!(seen.insert(derive_attempt_seed(42, (g << 32) | r)));
        }
    }
    for base in 0..64u64 {
        assert!(seen.insert(derive_attempt_seed(base + 1000, 0)));
    }
}
