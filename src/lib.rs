//! The 1-Wire bus protocol: a driver that builds bit and byte transactions
//! out of pin toggles and delays, the CRC8 that validates device data, and a
//! command abstraction for device protocols.
use vstd::prelude::*;

pub mod bus;
pub mod command;
pub mod crc;
pub mod device;
pub mod driver;
pub mod standard;

pub use bus::{BusOp, DelayUs, OneWirePin};
pub use command::{Command, Commander};
pub use crc::{check_crc8, crc8};
pub use device::{Ds18b20, Error, Rom, FAMILY_CODE};
pub use driver::OneWireDriver;

verus! {

/// Bus speed.
#[derive(Clone, Copy, Debug, PartialEq, Eq, Structural)]
pub enum Speed {
    Standard,
    Overdrive,
}

impl Default for Speed {
    fn default() -> (r: Speed)
        ensures
            r == Speed::Standard,
    {
        Speed::Standard
    }
}

} // verus!
