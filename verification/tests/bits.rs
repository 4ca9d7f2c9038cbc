use checkers::useful_functions::{
    after_bit, before_bit, conv_1d_to_2d, conv_2d_to_1d, first_bit, first_bit_or_0, get_bit,
    get_bit_i, get_bit_i_or, last_bit, take_lowest_bit, EXCLUDE_2_LEFT_COLUMNS,
    EXCLUDE_2_RIGHT_COLUMNS, EXCLUDE_LEFT_COLUMN, EXCLUDE_RIGHT_COLUMN,
};

#[test]
fn get_bit_reads_single_bits() {
    assert_eq!(get_bit(0b1010, 0), 0);
    assert_eq!(get_bit(0b1010, 1), 1);
    assert_eq!(get_bit(0b1010, 3), 1);
    assert_eq!(get_bit(1u64 << 63, 63), 1);
    assert_eq!(get_bit(1u64 << 63, 62), 0);
}

#[test]
fn after_and_before_bit_split_the_word() {
    assert_eq!(after_bit(1 << 5), 0b11111);
    assert_eq!(after_bit(1), 0);
    assert_eq!(before_bit(1 << 5), !0b111111u64);
    assert_eq!(before_bit(1u64 << 63), 0);
    assert_eq!(before_bit(1), !1u64);
    assert_eq!(after_bit(12), 11);
}

#[test]
fn last_and_first_bit_keep_one_bit() {
    assert_eq!(last_bit(0), 0);
    assert_eq!(last_bit(0b1011000), 0b1000);
    assert_eq!(last_bit(u64::MAX), 1);
    assert_eq!(last_bit(1u64 << 63), 1u64 << 63);
    assert_eq!(first_bit(0b1011000), 0b1000000);
    assert_eq!(first_bit(1), 1);
    assert_eq!(first_bit(u64::MAX), 1u64 << 63);
    assert_eq!(first_bit_or_0(0), 0);
    assert_eq!(first_bit_or_0(0b110), 0b100);
}

#[test]
fn get_bit_i_gives_the_lowest_index() {
    assert_eq!(get_bit_i(0), 0);
    assert_eq!(get_bit_i(1), 0);
    assert_eq!(get_bit_i(0b101000), 3);
    assert_eq!(get_bit_i(1u64 << 63), 63);
    assert_eq!(get_bit_i_or(0, 17), 17);
    assert_eq!(get_bit_i_or(0b100, 17), 2);
}

#[test]
fn take_lowest_bit_walks_the_set_bits_upwards() {
    let mut mask: u64 = (1 << 3) | (1 << 17) | (1 << 63);
    assert_eq!(take_lowest_bit(&mut mask), 3);
    assert_eq!(mask, (1 << 17) | (1 << 63));
    assert_eq!(take_lowest_bit(&mut mask), 17);
    assert_eq!(take_lowest_bit(&mut mask), 63);
    assert_eq!(mask, 0);
}

#[test]
fn screen_coordinates_round_trip() {
    assert_eq!(conv_1d_to_2d(63), (0, 0));
    assert_eq!(conv_1d_to_2d(0), (7, 7));
    assert_eq!(conv_1d_to_2d(56), (7, 0));
    assert_eq!(conv_1d_to_2d(10), (5, 6));
    assert_eq!(conv_2d_to_1d(0, 0), 63);
    assert_eq!(conv_2d_to_1d(7, 7), 0);
    assert_eq!(conv_2d_to_1d(5, 6), 10);
    for i in 0..64i8 {
        let (x, y) = conv_1d_to_2d(i);
        assert_eq!(conv_2d_to_1d(x, y), i);
    }
}

#[test]
fn column_masks_exclude_the_outer_columns() {
    for i in 0..64u32 {
        let col = i % 8;
        assert_eq!((EXCLUDE_RIGHT_COLUMN >> i) & 1 == 1, col >= 1);
        assert_eq!((EXCLUDE_LEFT_COLUMN >> i) & 1 == 1, col <= 6);
        assert_eq!((EXCLUDE_2_RIGHT_COLUMNS >> i) & 1 == 1, col >= 2);
        assert_eq!((EXCLUDE_2_LEFT_COLUMNS >> i) & 1 == 1, col <= 5);
    }
}
