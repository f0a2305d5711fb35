use ribbon_filter::inputs::{generate_keys, read_u64};

#[test]
fn read_u64_is_little_endian() {
    let data: Vec<u8> = (1..=16).collect();
    assert_eq!(read_u64(&data, 0), 0x0807_0605_0403_0201);
    assert_eq!(read_u64(&data, 8), 0x100f_0e0d_0c0b_0a09);
    assert_eq!(read_u64(&data, 3), 0x0b0a_0908_0706_0504);
}

#[test]
fn read_u64_short_input_is_zero() {
    let data: Vec<u8> = (1..=16).collect();
    assert_eq!(read_u64(&data, 9), 0);
    assert_eq!(read_u64(&[], 0), 0);
}

#[test]
fn generate_keys_from_stream() {
    assert_eq!(
        generate_keys(1, &[], 3),
        vec![0xd498_f9f4_72b1_3cd3, 0x4220_dcab_188a_df66, 0xa8c0_26d3_7b02_603d]
    );
    assert_eq!(generate_keys(1, &[], 0), Vec::<u64>::new());
}

#[test]
fn generate_keys_mixes_base_keys() {
    assert_eq!(
        generate_keys(5, &[10, 20], 3),
        vec![0x7351_293f_405b_4015, 0x4144_f446_2498_4f91, 0xf2ba_03de_c9b6_f1af]
    );
}
