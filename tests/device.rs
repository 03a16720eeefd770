use onewire::{Ds18b20, Error, Rom, FAMILY_CODE};

#[test]
fn ds18b20_accepts_its_family_code() {
    let rom = Rom { family_code: FAMILY_CODE, serial_number: 0x0000_FF7F_464B, crc: 0x15 };
    let device = match Ds18b20::new(rom) {
        Ok(d) => d,
        Err(_) => panic!("family code 0x28 must be accepted"),
    };
    assert_eq!(*device.rom(), rom);
    assert_eq!(device.rom().family_code, 0x28);
}

#[test]
fn ds18b20_rejects_other_family_codes() {
    let rom = Rom { family_code: 0x10, serial_number: 1, crc: 0 };
    assert!(matches!(Ds18b20::new(rom), Err(Error::MismatchedFamilyCode)));
}
