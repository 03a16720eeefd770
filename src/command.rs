use vstd::prelude::*;

use crate::bus::{DelayUs, OneWirePin};
use crate::driver::OneWireDriver;

verus! {

/// Runs commands against a bus.
pub trait Commander {
    fn run<C: Command>(&mut self, command: C) -> C::Output;
}

impl<T: OneWirePin, U: DelayUs> Commander for OneWireDriver<T, U> {
    fn run<C: Command>(&mut self, command: C) -> C::Output {
        command.execute(self)
    }
}

/// A bus transaction defined by a device layer, which executes itself
/// against a driver and produces its own kind of result.
pub trait Command {
    type Output;

    fn execute<T: OneWirePin, U: DelayUs>(&self, driver: &mut OneWireDriver<T, U>) -> Self::Output;
}

} // verus!
