use onewire::crc::Error;
use onewire::{check_crc8, crc8};

#[test]
fn test() {
    assert_eq!(crc8(&[99, 1, 75, 70, 127, 255, 13, 16]), 21);
    assert_eq!(crc8(&[99, 1, 75, 70, 127, 255, 13, 16, 21]), 0);

    assert_eq!(crc8(&[97, 1, 75, 70, 127, 255, 15, 16]), 2);
    assert_eq!(crc8(&[97, 1, 75, 70, 127, 255, 15, 16, 2]), 0);

    assert_eq!(crc8(&[95, 1, 75, 70, 127, 255, 1, 16]), 155);
    assert_eq!(crc8(&[95, 1, 75, 70, 127, 255, 1, 16, 155]), 0);
}

#[test]
fn crc8_of_empty_is_zero() {
    assert_eq!(crc8(&[]), 0);
    assert_eq!(check_crc8(&[]), Ok(()));
}

#[test]
fn crc8_of_single_bytes() {
    assert_eq!(crc8(&[0]), 0);
    assert_eq!(crc8(&[1]), 0x5E);
    assert_eq!(crc8(&[0x80]), 0x8C);
}

#[test]
fn check_crc8_accepts_valid_rom_codes() {
    assert_eq!(check_crc8(&[99, 1, 75, 70, 127, 255, 13, 16, 21]), Ok(()));
    assert_eq!(check_crc8(&[97, 1, 75, 70, 127, 255, 15, 16, 2]), Ok(()));
    assert_eq!(check_crc8(&[95, 1, 75, 70, 127, 255, 1, 16, 155]), Ok(()));
}

#[test]
fn check_crc8_rejects_wrong_crc_byte() {
    assert_eq!(check_crc8(&[99, 1, 75, 70, 127, 255, 13, 16, 22]), Err(Error::NonZero));
    assert_eq!(check_crc8(&[99, 1, 75, 70, 127, 255, 13, 16]), Err(Error::NonZero));
}

#[test]
fn appended_crc_always_passes() {
    let mut data: Vec<u8> = Vec::new();
    let mut x: u32 = 12345;
    for _ in 0..64 {
        x = x.wrapping_mul(1103515245).wrapping_add(12345);
        data.push((x >> 16) as u8);
        let mut framed = data.clone();
        framed.push(crc8(&data));
        assert_eq!(check_crc8(&framed), Ok(()));
    }
}

#[test]
fn every_single_bit_flip_is_detected() {
    let valid = [99u8, 1, 75, 70, 127, 255, 13, 16, 21];
    for i in 0..valid.len() {
        for j in 0..8 {
            let mut corrupted = valid;
            corrupted[i] ^= 1 << j;
            assert_eq!(check_crc8(&corrupted), Err(Error::NonZero));
        }
    }
}
