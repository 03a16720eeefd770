use std::cell::RefCell;
use std::collections::VecDeque;
use std::rc::Rc;

use onewire::standard::{G, H, I};
use onewire::{Command, Commander, DelayUs, OneWireDriver, OneWirePin, Speed};

#[derive(Debug, PartialEq)]
struct PinFault;

#[derive(Default)]
struct Wire {
    time: u64,
    low: bool,
    low_since: u64,
    pending_pulse: Option<u64>,
    accesses: usize,
    fail_at: Option<usize>,
    written: Vec<bool>,
    loopback: VecDeque<bool>,
    presence: Option<(u64, u64)>,
}

impl Wire {
    fn access(&mut self) -> Result<(), PinFault> {
        let n = self.accesses;
        self.accesses += 1;
        if self.fail_at == Some(n) {
            Err(PinFault)
        } else {
            Ok(())
        }
    }

    // A low pulse that no sample followed was a write slot: short for 1,
    // long for 0.
    fn flush(&mut self) {
        if let Some(width) = self.pending_pulse.take() {
            let bit = width < 15;
            self.written.push(bit);
            self.loopback.push_back(bit);
        }
    }
}

struct FakePin(Rc<RefCell<Wire>>);

struct FakeDelay(Rc<RefCell<Wire>>);

impl OneWirePin for FakePin {
    type Error = PinFault;

    fn set_high(&mut self) -> Result<(), PinFault> {
        let mut w = self.0.borrow_mut();
        w.access()?;
        if w.low {
            w.low = false;
            w.pending_pulse = Some(w.time - w.low_since);
        }
        Ok(())
    }

    fn set_low(&mut self) -> Result<(), PinFault> {
        let mut w = self.0.borrow_mut();
        w.access()?;
        w.flush();
        w.low = true;
        w.low_since = w.time;
        Ok(())
    }

    fn is_high(&mut self) -> Result<bool, PinFault> {
        let mut w = self.0.borrow_mut();
        w.access()?;
        // The pulse before a sample opened a read slot.
        w.pending_pulse = None;
        Ok(w.loopback.pop_front().unwrap_or(true))
    }

    fn is_low(&mut self) -> Result<bool, PinFault> {
        let mut w = self.0.borrow_mut();
        w.access()?;
        // The pulse before a presence check was a reset pulse.
        w.pending_pulse = None;
        let t = w.time;
        Ok(w.low || matches!(w.presence, Some((from, to)) if from <= t && t < to))
    }
}

impl DelayUs for FakeDelay {
    fn delay_us(&mut self, us: u32) {
        self.0.borrow_mut().time += us as u64;
    }
}

fn bus(wire: Wire) -> (Rc<RefCell<Wire>>, OneWireDriver<FakePin, FakeDelay>) {
    let wire = Rc::new(RefCell::new(wire));
    let driver = match OneWireDriver::new(FakePin(wire.clone()), FakeDelay(wire.clone())) {
        Ok(d) => d,
        Err(_) => panic!("driver construction failed"),
    };
    (wire, driver)
}

fn bits_lsb_first(byte: u8) -> Vec<bool> {
    (0..8).map(|i| (byte >> i) & 1 == 1).collect()
}

#[test]
fn new_releases_the_line() {
    let (wire, _driver) = bus(Wire::default());
    let w = wire.borrow();
    assert_eq!(w.accesses, 1);
    assert!(!w.low);
}

#[test]
fn new_reports_pin_error() {
    let wire = Rc::new(RefCell::new(Wire { fail_at: Some(0), ..Wire::default() }));
    let r = OneWireDriver::new(FakePin(wire.clone()), FakeDelay(wire.clone()));
    assert!(matches!(r, Err(PinFault)));
}

#[test]
fn speed_defaults_to_standard() {
    assert_eq!(Speed::default(), Speed::Standard);
}

#[test]
fn set_low_then_high_and_sample() {
    let (wire, mut driver) = bus(Wire::default());
    assert_eq!(driver.set_low(), Ok(()));
    assert_eq!(driver.is_low(), Ok(true));
    assert_eq!(driver.set_high(), Ok(()));
    assert_eq!(driver.is_low(), Ok(false));
    driver.wait(25);
    assert_eq!(wire.borrow().time, 25);
}

#[test]
fn write_bit_slot_lengths() {
    let (wire, mut driver) = bus(Wire::default());
    assert_eq!(driver.write_bit(true), Ok(()));
    assert_eq!(wire.borrow().time, 70);
    assert_eq!(driver.write_bit(false), Ok(()));
    assert_eq!(wire.borrow().time, 140);
    assert!(!wire.borrow().low);
    wire.borrow_mut().flush();
    assert_eq!(wire.borrow().written, vec![true, false]);
}

#[test]
fn read_bit_samples_the_line() {
    let (wire, mut driver) = bus(Wire::default());
    wire.borrow_mut().loopback.extend([false, true]);
    assert_eq!(driver.read_bit(), Ok(false));
    assert_eq!(driver.read_bit(), Ok(true));
    assert_eq!(wire.borrow().time, 140);
}

#[test]
fn byte_loopback_is_lsb_first() {
    let (wire, mut driver) = bus(Wire::default());
    assert_eq!(driver.write_byte(0b1011_0010), Ok(()));
    wire.borrow_mut().flush();
    assert_eq!(wire.borrow().written, bits_lsb_first(0b1011_0010));
    assert_eq!(wire.borrow().written, vec![false, true, false, false, true, true, false, true]);
    assert_eq!(driver.read_byte(), Ok(0b1011_0010));
}

#[test]
fn read_byte_assembles_lsb_first() {
    let (wire, mut driver) = bus(Wire::default());
    wire.borrow_mut().loopback.extend([true, false, false, false, false, false, false, false]);
    assert_eq!(driver.read_byte(), Ok(0x01));
}

#[test]
fn reset_detects_presence_in_sampling_window() {
    let from = (G + H + 15) as u64;
    let (wire, mut driver) = bus(Wire { presence: Some((from, from + 120)), ..Wire::default() });
    assert_eq!(driver.reset(), Ok(true));
    assert!(!wire.borrow().low);
    assert_eq!(wire.borrow().time, 960);
}

#[test]
fn reset_without_device() {
    let (_wire, mut driver) = bus(Wire::default());
    assert_eq!(driver.reset(), Ok(false));
}

#[test]
fn reset_ignores_pulse_outside_window() {
    let sample = (G + H + I) as u64;
    let (_wire, mut driver) = bus(Wire { presence: Some((sample + 1, sample + 100)), ..Wire::default() });
    assert_eq!(driver.reset(), Ok(false));
}

#[test]
fn reset_reports_pin_error() {
    let (wire, mut driver) = bus(Wire::default());
    wire.borrow_mut().fail_at = Some(2);
    assert_eq!(driver.reset(), Err(PinFault));
    assert_eq!(wire.borrow().accesses, 3);
    assert_eq!(wire.borrow().time, (G + H) as u64);
}

#[test]
fn write_bytes_in_index_order() {
    let (wire, mut driver) = bus(Wire::default());
    assert_eq!(driver.write_bytes(&[0x33, 0xCC, 0x01]), Ok(()));
    wire.borrow_mut().flush();
    let mut expected = bits_lsb_first(0x33);
    expected.extend(bits_lsb_first(0xCC));
    expected.extend(bits_lsb_first(0x01));
    assert_eq!(wire.borrow().written, expected);
    assert_eq!(wire.borrow().accesses, 1 + 3 * 16);
}

#[test]
fn write_bytes_stops_at_failed_access() {
    let (wire, mut driver) = bus(Wire::default());
    // Access 0 was `new`; byte 1, bit 2 starts at access 1 + 16 + 4.
    wire.borrow_mut().fail_at = Some(21);
    assert_eq!(driver.write_bytes(&[0xFF, 0x00, 0xFF]), Err(PinFault));
    wire.borrow_mut().flush();
    let w = wire.borrow();
    assert_eq!(w.accesses, 22);
    let mut expected = bits_lsb_first(0xFF);
    expected.extend([false, false]);
    assert_eq!(w.written, expected);
}

#[test]
fn read_bytes_in_index_order() {
    let (wire, mut driver) = bus(Wire::default());
    for b in [0x12u8, 0x34, 0x56] {
        wire.borrow_mut().loopback.extend(bits_lsb_first(b));
    }
    let mut buf = [0u8; 3];
    assert_eq!(driver.read_bytes(&mut buf), Ok(()));
    assert_eq!(buf, [0x12, 0x34, 0x56]);
    assert_eq!(wire.borrow().accesses, 1 + 3 * 24);
}

#[test]
fn read_bytes_stops_at_failed_access() {
    let (wire, mut driver) = bus(Wire::default());
    for b in [0x12u8, 0x34, 0x56] {
        wire.borrow_mut().loopback.extend(bits_lsb_first(b));
    }
    wire.borrow_mut().fail_at = Some(1 + 24 + 5);
    let mut buf = [0xAAu8; 3];
    assert_eq!(driver.read_bytes(&mut buf), Err(PinFault));
    assert_eq!(buf, [0x12, 0xAA, 0xAA]);
    assert_eq!(wire.borrow().accesses, 1 + 24 + 6);
}

#[test]
fn empty_transfers_touch_nothing() {
    let (wire, mut driver) = bus(Wire::default());
    assert_eq!(driver.write_bytes(&[]), Ok(()));
    let mut buf: [u8; 0] = [];
    assert_eq!(driver.read_bytes(&mut buf), Ok(()));
    assert_eq!(wire.borrow().accesses, 1);
    assert_eq!(wire.borrow().time, 0);
}

struct Presence;

impl Command for Presence {
    type Output = bool;

    fn execute<T: OneWirePin, U: DelayUs>(&self, driver: &mut OneWireDriver<T, U>) -> bool {
        matches!(driver.reset(), Ok(true))
    }
}

struct Echo(u8);

impl Command for Echo {
    type Output = Option<u8>;

    fn execute<T: OneWirePin, U: DelayUs>(&self, driver: &mut OneWireDriver<T, U>) -> Option<u8> {
        driver.write_byte(self.0).ok()?;
        driver.read_byte().ok()
    }
}

#[test]
fn commands_of_two_types_share_a_driver() {
    let from = (G + H + 15) as u64;
    let (wire, mut driver) = bus(Wire { presence: Some((from, from + 120)), ..Wire::default() });
    let present: bool = driver.run(Presence);
    assert!(present);
    let echoed: Option<u8> = driver.run(Echo(0x5A));
    assert_eq!(echoed, Some(0x5A));
    let echoed: Option<u8> = driver.run(Echo(0xA5));
    assert_eq!(echoed, Some(0xA5));
    assert!(!wire.borrow().low);
    assert!(wire.borrow().loopback.is_empty());
    // The device answered only the first reset.
    let present: bool = driver.run(Presence);
    assert!(!present);
}

#[test]
fn write_bit_1_and_0() {
    let (wire, mut driver) = bus(Wire::default());
    assert_eq!(driver.write_bit_1(), Ok(()));
    assert_eq!(driver.write_bit_0(), Ok(()));
    wire.borrow_mut().flush();
    assert_eq!(wire.borrow().written, vec![true, false]);
    assert_eq!(wire.borrow().time, 140);
}
