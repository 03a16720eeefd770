use vstd::prelude::*;

verus! {

/// The family code of the DS18B20 temperature sensor.
pub const FAMILY_CODE: u8 = 0x28;

/// The 64-bit ROM code of a device: family code, serial number and CRC.
#[derive(Clone, Copy, Debug, PartialEq, Eq, Structural)]
pub struct Rom {
    pub family_code: u8,
    /// The 48-bit serial number.
    pub serial_number: u64,
    pub crc: u8,
}

/// The error of building a device.
#[derive(Clone, Copy, Debug, PartialEq, Eq, Structural)]
pub enum Error {
    /// The ROM code belongs to another device family.
    MismatchedFamilyCode,
}

/// A DS18B20 temperature sensor, known by its ROM code.
pub struct Ds18b20 {
    rom: Rom,
}

impl Ds18b20 {
    /// The ROM code of the device.
    pub closed spec fn rom_code(&self) -> Rom {
        self.rom
    }

    /// Checks that the given code carries the DS18B20 family code, then
    /// returns a device.
    pub fn new(rom: Rom) -> (r: Result<Ds18b20, Error>)
        ensures
            r is Ok <==> rom.family_code == FAMILY_CODE,
            r matches Ok(d) ==> d.rom_code() == rom,
            r is Err ==> r == Err::<Ds18b20, Error>(Error::MismatchedFamilyCode),
    {
        if rom.family_code == FAMILY_CODE {
            Ok(Ds18b20 { rom })
        } else {
            Err(Error::MismatchedFamilyCode)
        }
    }

    /// Returns the device rom.
    pub fn rom(&self) -> (r: &Rom)
        ensures
            *r == self.rom_code(),
    {
        &self.rom
    }
}

} // verus!
