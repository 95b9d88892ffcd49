use rookiedb::bit::Bit;
use rookiedb::error::DBError;

#[test]
fn test_get_bit_on_byte() -> Result<(), DBError> {
    let v = 0b01101011_u8;

    assert_eq!(Bit::Zero, Bit::get_bit_u8(&v, 0)?);
    assert_eq!(Bit::One, Bit::get_bit_u8(&v, 1)?);
    assert_eq!(Bit::One, Bit::get_bit_u8(&v, 2)?);
    assert_eq!(Bit::Zero, Bit::get_bit_u8(&v, 3)?);
    assert_eq!(Bit::One, Bit::get_bit_u8(&v, 4)?);
    assert_eq!(Bit::Zero, Bit::get_bit_u8(&v, 5)?);
    assert_eq!(Bit::One, Bit::get_bit_u8(&v, 6)?);
    assert_eq!(Bit::One, Bit::get_bit_u8(&v, 7)?);

    Ok(())
}

#[test]
fn test_get_bit_on_bytes() -> Result<(), DBError> {
    let v: [u8; 2] = [0b01101011, 0b01001101];

    assert_eq!(Bit::Zero, Bit::get_bit(&v, 0)?);
    assert_eq!(Bit::One, Bit::get_bit(&v, 1)?);
    assert_eq!(Bit::One, Bit::get_bit(&v, 2)?);
    assert_eq!(Bit::Zero, Bit::get_bit(&v, 3)?);
    assert_eq!(Bit::One, Bit::get_bit(&v, 4)?);
    assert_eq!(Bit::Zero, Bit::get_bit(&v, 5)?);
    assert_eq!(Bit::One, Bit::get_bit(&v, 6)?);
    assert_eq!(Bit::One, Bit::get_bit(&v, 7)?);

    assert_eq!(Bit::Zero, Bit::get_bit(&v, 8)?);
    assert_eq!(Bit::One, Bit::get_bit(&v, 9)?);
    assert_eq!(Bit::Zero, Bit::get_bit(&v, 10)?);
    assert_eq!(Bit::Zero, Bit::get_bit(&v, 11)?);
    assert_eq!(Bit::One, Bit::get_bit(&v, 12)?);
    assert_eq!(Bit::One, Bit::get_bit(&v, 13)?);
    assert_eq!(Bit::Zero, Bit::get_bit(&v, 14)?);
    assert_eq!(Bit::One, Bit::get_bit(&v, 15)?);

    Ok(())
}

#[test]
fn test_set_bit_on_byte() -> Result<(), DBError> {
    let v = 0b00000000_u8;
    assert_eq!(0b10000000_u8, Bit::set_bit_u8(&v, 0, Bit::One)?);
    assert_eq!(0b01000000_u8, Bit::set_bit_u8(&v, 1, Bit::One)?);
    assert_eq!(0b00100000_u8, Bit::set_bit_u8(&v, 2, Bit::One)?);
    assert_eq!(0b00010000_u8, Bit::set_bit_u8(&v, 3, Bit::One)?);
    assert_eq!(0b00001000_u8, Bit::set_bit_u8(&v, 4, Bit::One)?);
    assert_eq!(0b00000100_u8, Bit::set_bit_u8(&v, 5, Bit::One)?);
    assert_eq!(0b00000010_u8, Bit::set_bit_u8(&v, 6, Bit::One)?);
    assert_eq!(0b00000001_u8, Bit::set_bit_u8(&v, 7, Bit::One)?);

    let v = 0b11111111_u8;
    assert_eq!(0b01111111_u8, Bit::set_bit_u8(&v, 0, Bit::Zero)?);
    assert_eq!(0b10111111_u8, Bit::set_bit_u8(&v, 1, Bit::Zero)?);
    assert_eq!(0b11011111_u8, Bit::set_bit_u8(&v, 2, Bit::Zero)?);
    assert_eq!(0b11101111_u8, Bit::set_bit_u8(&v, 3, Bit::Zero)?);
    assert_eq!(0b11110111_u8, Bit::set_bit_u8(&v, 4, Bit::Zero)?);
    assert_eq!(0b11111011_u8, Bit::set_bit_u8(&v, 5, Bit::Zero)?);
    assert_eq!(0b11111101_u8, Bit::set_bit_u8(&v, 6, Bit::Zero)?);
    assert_eq!(0b11111110_u8, Bit::set_bit_u8(&v, 7, Bit::Zero)?);

    Ok(())
}

#[test]
fn test_set_bit_on_bytes() -> Result<(), DBError> {
    let mut v: [u8; 2] = [0b00000000, 0b00000000];

    let expected_one: [[u8; 2]; 16] = [
        [0b10000000_u8, 0b00000000_u8],
        [0b11000000_u8, 0b00000000_u8],
        [0b11100000_u8, 0b00000000_u8],
        [0b11110000_u8, 0b00000000_u8],
        [0b11111000_u8, 0b00000000_u8],
        [0b11111100_u8, 0b00000000_u8],
        [0b11111110_u8, 0b00000000_u8],
        [0b11111111_u8, 0b00000000_u8],
        [0b11111111_u8, 0b10000000_u8],
        [0b11111111_u8, 0b11000000_u8],
        [0b11111111_u8, 0b11100000_u8],
        [0b11111111_u8, 0b11110000_u8],
        [0b11111111_u8, 0b11111000_u8],
        [0b11111111_u8, 0b11111100_u8],
        [0b11111111_u8, 0b11111110_u8],
        [0b11111111_u8, 0b11111111_u8],
    ];

    for i in 0..16 {
        Bit::set_bit(&mut v, i, Bit::One)?;
        assert_eq!(expected_one[i as usize], v);
    }

    let expected_zero: [[u8; 2]; 16] = [
        [0b01111111_u8, 0b11111111_u8],
        [0b00111111_u8, 0b11111111_u8],
        [0b00011111_u8, 0b11111111_u8],
        [0b00001111_u8, 0b11111111_u8],
        [0b00000111_u8, 0b11111111_u8],
        [0b00000011_u8, 0b11111111_u8],
        [0b00000001_u8, 0b11111111_u8],
        [0b00000000_u8, 0b11111111_u8],
        [0b00000000_u8, 0b01111111_u8],
        [0b00000000_u8, 0b00111111_u8],
        [0b00000000_u8, 0b00011111_u8],
        [0b00000000_u8, 0b00001111_u8],
        [0b00000000_u8, 0b00000111_u8],
        [0b00000000_u8, 0b00000011_u8],
        [0b00000000_u8, 0b00000001_u8],
        [0b00000000_u8, 0b00000000_u8],
    ];

    for i in 0..16 {
        Bit::set_bit(&mut v, i, Bit::Zero)?;
        assert_eq!(expected_zero[i as usize], v);
    }

    Ok(())
}

#[test]
fn test_count_ones_on_byte() {
    assert_eq!(Bit::count_ones_u8(&0b11111111_u8), 8);
    assert_eq!(Bit::count_ones_u8(&0b01111111_u8), 7);
    assert_eq!(Bit::count_ones_u8(&0b00111111_u8), 6);
    assert_eq!(Bit::count_ones_u8(&0b00011111_u8), 5);
    assert_eq!(Bit::count_ones_u8(&0b00001111_u8), 4);
    assert_eq!(Bit::count_ones_u8(&0b00000111_u8), 3);
    assert_eq!(Bit::count_ones_u8(&0b00000011_u8), 2);
    assert_eq!(Bit::count_ones_u8(&0b00000001_u8), 1);
    assert_eq!(Bit::count_ones_u8(&0b00000000_u8), 0);
}

#[test]
fn test_count_ones_on_bytes() {
    let v: [[u8; 2]; 16] = [
        [0b00000000_u8, 0b00000000_u8],
        [0b00000000_u8, 0b00000001_u8],
        [0b00000000_u8, 0b00000011_u8],
        [0b00000000_u8, 0b00000111_u8],
        [0b00000000_u8, 0b00001111_u8],
        [0b00000000_u8, 0b00011111_u8],
        [0b00000000_u8, 0b00111111_u8],
        [0b00000000_u8, 0b01111111_u8],
        [0b00000000_u8, 0b11111111_u8],
        [0b00000001_u8, 0b11111111_u8],
        [0b00000011_u8, 0b11111111_u8],
        [0b00000111_u8, 0b11111111_u8],
        [0b00001111_u8, 0b11111111_u8],
        [0b00011111_u8, 0b11111111_u8],
        [0b00111111_u8, 0b11111111_u8],
        [0b01111111_u8, 0b11111111_u8],
    ];
    for i in 0..=15 {
        assert_eq!(i as u32, Bit::count_ones(&v[i]))
    }
}

#[test]
fn set_then_get_changes_only_that_bit() {
    let before: [u8; 3] = [0b1010_0101, 0b0000_1111, 0b1100_0011];
    for i in 0..24u32 {
        for value in [Bit::Zero, Bit::One] {
            let mut buf = before;
            Bit::set_bit(&mut buf, i, value).unwrap();
            assert_eq!(Bit::get_bit(&buf, i), Ok(value));
            for j in 0..24u32 {
                if j != i {
                    assert_eq!(Bit::get_bit(&buf, j), Bit::get_bit(&before, j));
                }
            }
        }
    }
}

#[test]
fn count_ones_tracks_set_bits() {
    let mut buf: [u8; 4] = [0; 4];
    assert_eq!(Bit::count_ones(&buf), 0);
    Bit::set_bit(&mut buf, 3, Bit::One).unwrap();
    Bit::set_bit(&mut buf, 17, Bit::One).unwrap();
    Bit::set_bit(&mut buf, 31, Bit::One).unwrap();
    assert_eq!(Bit::count_ones(&buf), 3);
    Bit::set_bit(&mut buf, 17, Bit::One).unwrap();
    assert_eq!(Bit::count_ones(&buf), 3);
    Bit::set_bit(&mut buf, 3, Bit::Zero).unwrap();
    assert_eq!(Bit::count_ones(&buf), 2);
    let bytes: [u8; 2] = [0b00001010, 0b11111101];
    assert_eq!(Bit::count_ones(&bytes), 9);
    assert_eq!(Bit::count_ones(&[]), 0);
}

#[test]
fn out_of_range_bits_are_rejected() {
    let mut buf: [u8; 2] = [0xff, 0x00];
    assert_eq!(Bit::get_bit(&buf, 16), Err(DBError::IllegalArgument));
    assert_eq!(Bit::get_bit(&buf, u32::MAX), Err(DBError::IllegalArgument));
    assert_eq!(Bit::set_bit(&mut buf, 16, Bit::One), Err(DBError::IllegalArgument));
    assert_eq!(buf, [0xff, 0x00]);
    assert_eq!(Bit::get_bit(&[], 0), Err(DBError::IllegalArgument));
    assert_eq!(Bit::get_bit_u8(&0xff, 8), Err(DBError::IllegalArgument));
    assert_eq!(Bit::set_bit_u8(&0xff, 8, Bit::Zero), Err(DBError::IllegalArgument));
}
