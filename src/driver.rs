use vstd::prelude::*;

use crate::bus::{
    aborted_after, byte_bits, last_level, released, lemma_advance, read_bit_script, read_bits_script,
    read_byte_aborted, read_byte_script, read_bytes_script, reset_script, write_bit_script,
    write_bits_script, write_byte_aborted, write_byte_script, write_bytes_script, BusOp, DelayUs,
    OneWirePin,
};
use crate::standard::{A, B, C, D, E, F, G, H, I, J};
use crate::Speed;

verus! {

/// 1-Wire bus driver: owns one pin and one delay source.
pub struct OneWireDriver<T, U> {
    pin: T,
    delay: U,
    speed: Speed,
    log: Ghost<Seq<BusOp>>,
}

impl<T, U> OneWireDriver<T, U> {
    /// Every action taken on the pin and the delay since construction.
    pub closed spec fn trace(&self) -> Seq<BusOp> {
        self.log@
    }

    /// The speed the driver was built with.
    pub closed spec fn speed(&self) -> Speed {
        self.speed
    }
}

impl<T: OneWirePin, U> OneWireDriver<T, U> {
    /// Samples the line with `is_high`.
    pub fn is_high(&mut self) -> (r: Result<bool, T::Error>)
        ensures
            final(self).speed() == old(self).speed(),
            match r {
                Ok(b) => final(self).trace() == old(self).trace().push(BusOp::ReadHigh(b)),
                Err(_) => final(self).trace() == old(self).trace().push(BusOp::Fault),
            },
    {
        let r = self.pin.is_high();
        self.log = Ghost(
            match r {
                Ok(b) => self.log@.push(BusOp::ReadHigh(b)),
                Err(_) => self.log@.push(BusOp::Fault),
            },
        );
        r
    }

    /// Samples the line with `is_low`.
    pub fn is_low(&mut self) -> (r: Result<bool, T::Error>)
        ensures
            final(self).speed() == old(self).speed(),
            match r {
                Ok(b) => final(self).trace() == old(self).trace().push(BusOp::ReadLow(b)),
                Err(_) => final(self).trace() == old(self).trace().push(BusOp::Fault),
            },
    {
        let r = self.pin.is_low();
        self.log = Ghost(
            match r {
                Ok(b) => self.log@.push(BusOp::ReadLow(b)),
                Err(_) => self.log@.push(BusOp::Fault),
            },
        );
        r
    }

    /// Builds a driver at standard speed and releases the line, which is
    /// high whenever the bus is idle.
    pub fn new(pin: T, delay: U) -> (r: Result<Self, T::Error>)
        ensures
            r matches Ok(d) ==> d.trace() == seq![BusOp::High] && released(d.trace()) && d.speed()
                == Speed::Standard,
    {
        let mut one_wire = OneWireDriver { pin, delay, speed: Speed::Standard, log: Ghost(Seq::empty()) };
        match one_wire.set_high() {
            Ok(()) => {
                proof {
                    assert(one_wire.trace() =~= seq![BusOp::High]);
                    reveal_with_fuel(last_level, 1);
                }
                Ok(one_wire)
            },
            Err(e) => Err(e),
        }
    }

    /// Releases the line, letting another device or the pull-up resistor
    /// drive it.
    pub fn set_high(&mut self) -> (r: Result<(), T::Error>)
        ensures
            final(self).speed() == old(self).speed(),
            r is Ok ==> final(self).trace() == old(self).trace().push(BusOp::High),
            r is Err ==> final(self).trace() == old(self).trace().push(BusOp::Fault),
    {
        let r = self.pin.set_high();
        self.log = Ghost(
            if r is Ok {
                self.log@.push(BusOp::High)
            } else {
                self.log@.push(BusOp::Fault)
            },
        );
        r
    }

    /// Pulls the line low.
    pub fn set_low(&mut self) -> (r: Result<(), T::Error>)
        ensures
            final(self).speed() == old(self).speed(),
            r is Ok ==> final(self).trace() == old(self).trace().push(BusOp::Low),
            r is Err ==> final(self).trace() == old(self).trace().push(BusOp::Fault),
    {
        let r = self.pin.set_low();
        self.log = Ghost(
            if r is Ok {
                self.log@.push(BusOp::Low)
            } else {
                self.log@.push(BusOp::Fault)
            },
        );
        r
    }
}

impl<T, U: DelayUs> OneWireDriver<T, U> {
    /// Blocks for at least `us` microseconds.
    pub fn wait(&mut self, us: u32)
        ensures
            final(self).speed() == old(self).speed(),
            final(self).trace() == old(self).trace().push(BusOp::Wait(us)),
    {
        self.delay.delay_us(us);
        self.log = Ghost(self.log@.push(BusOp::Wait(us)));
    }
}

/// Bit (basic) operations
impl<T: OneWirePin, U: DelayUs> OneWireDriver<T, U> {
    fn step_high(&mut self, Ghost(before): Ghost<Seq<BusOp>>, Ghost(script): Ghost<Seq<BusOp>>, Ghost(k): Ghost<int>) -> (r: Result<(), T::Error>)
        requires
            old(self).trace() == before + script.take(k),
            0 <= k < script.len(),
            script[k] == BusOp::High,
        ensures
            final(self).speed() == old(self).speed(),
            r is Ok ==> final(self).trace() == before + script.take(k + 1),
            r is Err ==> aborted_after(before, final(self).trace(), script),
    {
        let r = self.set_high();
        proof {
            lemma_advance(before, script, k);
        }
        r
    }

    fn step_low(&mut self, Ghost(before): Ghost<Seq<BusOp>>, Ghost(script): Ghost<Seq<BusOp>>, Ghost(k): Ghost<int>) -> (r: Result<(), T::Error>)
        requires
            old(self).trace() == before + script.take(k),
            0 <= k < script.len(),
            script[k] == BusOp::Low,
        ensures
            final(self).speed() == old(self).speed(),
            r is Ok ==> final(self).trace() == before + script.take(k + 1),
            r is Err ==> aborted_after(before, final(self).trace(), script),
    {
        let r = self.set_low();
        proof {
            lemma_advance(before, script, k);
        }
        r
    }

    fn step_wait(&mut self, us: u32, Ghost(before): Ghost<Seq<BusOp>>, Ghost(script): Ghost<Seq<BusOp>>, Ghost(k): Ghost<int>)
        requires
            old(self).trace() == before + script.take(k),
            0 <= k < script.len(),
            script[k] == BusOp::Wait(us),
        ensures
            final(self).speed() == old(self).speed(),
            final(self).trace() == before + script.take(k + 1),
    {
        self.wait(us);
        proof {
            lemma_advance(before, script, k);
        }
    }

    /// Generates a reset pulse and reports whether a device answered with a
    /// presence pulse: `true` when the line was low at the sampling point.
    pub fn reset(&mut self) -> (r: Result<bool, T::Error>)
        ensures
            final(self).speed() == old(self).speed(),
            match r {
                Ok(p) => final(self).trace() == old(self).trace() + reset_script(p),
                Err(_) => exists|p: bool|
                    aborted_after(old(self).trace(), final(self).trace(), #[trigger] reset_script(p)),
            },
    {
        let ghost before = self.trace();
        let ghost script = reset_script(false);
        self.step_wait(G, Ghost(before), Ghost(script), Ghost(0));
        self.step_low(Ghost(before), Ghost(script), Ghost(1))?;
        self.step_wait(H, Ghost(before), Ghost(script), Ghost(2));
        self.step_high(Ghost(before), Ghost(script), Ghost(3))?;
        self.step_wait(I, Ghost(before), Ghost(script), Ghost(4));
        let presence = match self.is_low() {
            Ok(p) => p,
            Err(e) => {
                proof {
                    lemma_advance(before, script, 5);
                }
                return Err(e);
            },
        };
        let ghost done = reset_script(presence);
        proof {
            lemma_advance(before, done, 5);
            assert(script.take(5) =~= done.take(5));
        }
        self.step_wait(J, Ghost(before), Ghost(done), Ghost(6));
        proof {
            assert(done.take(7) =~= done);
        }
        Ok(presence)
    }

    /// Reads one bit in a read slot: the line is pulled low briefly, released,
    /// and sampled once the device has had time to hold it low for a 0.
    pub fn read_bit(&mut self) -> (r: Result<bool, T::Error>)
        ensures
            final(self).speed() == old(self).speed(),
            match r {
                Ok(b) => final(self).trace() == old(self).trace() + read_bit_script(b),
                Err(_) => exists|b: bool|
                    aborted_after(old(self).trace(), final(self).trace(), #[trigger] read_bit_script(b)),
            },
    {
        let ghost before = self.trace();
        let ghost script = read_bit_script(false);
        proof {
            assert(before + script.take(0) =~= before);
        }
        self.step_low(Ghost(before), Ghost(script), Ghost(0))?;
        self.step_wait(A, Ghost(before), Ghost(script), Ghost(1));
        self.step_high(Ghost(before), Ghost(script), Ghost(2))?;
        self.step_wait(E, Ghost(before), Ghost(script), Ghost(3));
        let bit = match self.is_high() {
            Ok(b) => b,
            Err(e) => {
                proof {
                    lemma_advance(before, script, 4);
                }
                return Err(e);
            },
        };
        let ghost done = read_bit_script(bit);
        proof {
            lemma_advance(before, done, 4);
            assert(script.take(4) =~= done.take(4));
        }
        self.step_wait(F, Ghost(before), Ghost(done), Ghost(5));
        proof {
            assert(done.take(6) =~= done);
        }
        Ok(bit)
    }

    /// Writes one bit in a write slot of fixed length: the line is held low
    /// briefly for a 1 and for most of the slot for a 0.
    pub fn write_bit(&mut self, bit: bool) -> (r: Result<(), T::Error>)
        ensures
            final(self).speed() == old(self).speed(),
            r is Ok ==> final(self).trace() == old(self).trace() + write_bit_script(bit),
            r is Err ==> aborted_after(old(self).trace(), final(self).trace(), write_bit_script(bit)),
    {
        let ghost before = self.trace();
        let ghost script = write_bit_script(bit);
        proof {
            reveal(write_bit_script);
            assert(before + script.take(0) =~= before);
        }
        self.step_low(Ghost(before), Ghost(script), Ghost(0))?;
        self.step_wait(if bit { A } else { C }, Ghost(before), Ghost(script), Ghost(1));
        self.step_high(Ghost(before), Ghost(script), Ghost(2))?;
        self.step_wait(if bit { B } else { D }, Ghost(before), Ghost(script), Ghost(3));
        proof {
            assert(script.take(4) =~= script);
        }
        Ok(())
    }

    /// Writes a 1 bit.
    pub fn write_bit_1(&mut self) -> (r: Result<(), T::Error>)
        ensures
            final(self).speed() == old(self).speed(),
            r is Ok ==> final(self).trace() == old(self).trace() + write_bit_script(true),
            r is Err ==> aborted_after(old(self).trace(), final(self).trace(), write_bit_script(true)),
    {
        self.write_bit(true)
    }

    /// Writes a 0 bit.
    pub fn write_bit_0(&mut self) -> (r: Result<(), T::Error>)
        ensures
            final(self).speed() == old(self).speed(),
            r is Ok ==> final(self).trace() == old(self).trace() + write_bit_script(false),
            r is Err ==> aborted_after(old(self).trace(), final(self).trace(), write_bit_script(false)),
    {
        self.write_bit(false)
    }
}

/// Shifting a byte right and setting its top bit moves every bit down by
/// one place and puts the new bit on top.
proof fn lemma_shift_in(byte: u8, top: u8, p: u8)
    requires
        1 <= p <= 7,
        top == 0 || top == 0x80,
    ensures
        (((byte >> 1u8) | top) >> ((p - 1) as u8)) & 1u8 == (byte >> p) & 1u8,
        ((((byte >> 1u8) | top) >> 7u8) & 1u8 == 1u8) == (top == 0x80),
{
    assert(1u8 <= p && p <= 7u8 && (top == 0u8 || top == 0x80u8) ==> (((byte >> 1u8) | top) >> ((
    p - 1u8) as u8)) & 1u8 == (byte >> p) & 1u8) by (bit_vector);
    assert((top == 0u8 || top == 0x80u8) ==> (((((byte >> 1u8) | top) >> 7u8) & 1u8 == 1u8) == (
    top == 0x80u8))) by (bit_vector);
}

proof fn lemma_shift_step(v: u8, k: u8)
    requires
        k < 8,
    ensures
        (v >> k) >> 1u8 == v >> ((k + 1) as u8),
{
    assert(k < 8u8 ==> (v >> k) >> 1u8 == v >> ((k + 1u8) as u8)) by (bit_vector);
}

/// Byte operations
impl<T: OneWirePin, U: DelayUs> OneWireDriver<T, U> {
    /// Reads one byte: eight read slots, the first bit read becoming the
    /// least significant.
    pub fn read_byte(&mut self) -> (r: Result<u8, T::Error>)
        ensures
            final(self).speed() == old(self).speed(),
            match r {
                Ok(v) => final(self).trace() == old(self).trace() + read_byte_script(v),
                Err(_) => read_byte_aborted(old(self).trace(), final(self).trace()),
            },
    {
        let ghost before = self.trace();
        let ghost mut bits: Seq<bool> = Seq::empty();
        proof {
            assert(before + read_bits_script(bits) =~= before);
        }
        let mut byte: u8 = 0;
        let mut k: u32 = 0;
        while k < u8::BITS
            invariant
                k <= 8,
                bits.len() == k,
                self.trace() == before + read_bits_script(bits),
                self.speed() == old(self).speed(),
                before == old(self).trace(),
                forall|j: int|
                    0 <= j < k ==> ((byte >> ((8 - k + j) as u8)) & 1u8 == 1u8) == #[trigger] bits[j],
            decreases 8 - k,
        {
            let ghost prev = byte;
            byte = byte >> 1;
            let bit = match self.read_bit() {
                Ok(b) => b,
                Err(e) => {
                    proof {
                        let b = choose|b: bool|
                            aborted_after(
                                before + read_bits_script(bits),
                                self.trace(),
                                #[trigger] read_bit_script(b),
                            );
                        assert(bits.len() < 8 && aborted_after(
                            before + read_bits_script(bits),
                            self.trace(),
                            read_bit_script(b),
                        ));
                    }
                    return Err(e);
                },
            };
            let ghost top: u8 = if bit { 0x80 } else { 0 };
            if bit {
                byte = byte | 0x80;
            }
            proof {
                if !bit {
                    assert((prev >> 1u8) | 0u8 == prev >> 1u8) by (bit_vector);
                }
                let old_bits = bits;
                bits = bits.push(bit);
                assert(bits.drop_last() =~= old_bits);
                assert(self.trace() =~= before + read_bits_script(bits));
                assert forall|j: int| 0 <= j < k + 1 implies ((byte >> ((8 - (k + 1) + j) as u8))
                    & 1u8 == 1u8) == #[trigger] bits[j] by {
                    if j < k {
                        lemma_shift_in(prev, top, (8 - k + j) as u8);
                        assert(old_bits[j] == bits[j]);
                    } else {
                        lemma_shift_in(prev, top, 7);
                    }
                }
            }
            k = k + 1;
        }
        proof {
            assert(byte_bits(byte) =~= bits);
        }
        Ok(byte)
    }

    /// Reads `bytes.len()` bytes into `bytes`, in index order. A failure
    /// stops the transfer: earlier bytes have been stored, the rest are left
    /// as they were.
    pub fn read_bytes(&mut self, bytes: &mut [u8]) -> (r: Result<(), T::Error>)
        ensures
            final(self).speed() == old(self).speed(),
            final(bytes)@.len() == old(bytes)@.len(),
            r is Ok ==> final(self).trace() == old(self).trace() + read_bytes_script(final(bytes)@),
            r is Err ==> exists|i: int|
                0 <= i < old(bytes)@.len() && final(bytes)@.skip(i) == old(bytes)@.skip(i)
                    && read_byte_aborted(
                    old(self).trace() + read_bytes_script(#[trigger] final(bytes)@.take(i)),
                    final(self).trace(),
                ),
    {
        let ghost before = self.trace();
        let ghost orig = bytes@;
        let mut i: usize = 0;
        proof {
            assert(bytes@.take(0) =~= Seq::<u8>::empty());
            assert(before + read_bytes_script(bytes@.take(0)) =~= before);
        }
        while i < bytes.len()
            invariant
                i <= bytes@.len(),
                bytes@.len() == orig.len(),
                orig == old(bytes)@,
                bytes@.skip(i as int) == orig.skip(i as int),
                self.trace() == before + read_bytes_script(bytes@.take(i as int)),
                self.speed() == old(self).speed(),
                before == old(self).trace(),
            decreases bytes@.len() - i,
        {
            let ghost read = bytes@.take(i as int);
            let v = match self.read_byte() {
                Ok(v) => v,
                Err(e) => {
                    proof {
                        assert(read_byte_aborted(
                            before + read_bytes_script(bytes@.take(i as int)),
                            self.trace(),
                        ));
                    }
                    return Err(e);
                },
            };
            let ghost prev = bytes@;
            bytes[i] = v;
            proof {
                assert(bytes@.take(i + 1).drop_last() =~= read);
                assert(bytes@.take(i + 1).last() == v);
                assert(self.trace() =~= before + read_bytes_script(bytes@.take(i + 1)));
                assert(bytes@.skip(i + 1) =~= prev.skip(i + 1));
                assert(prev.skip(i + 1) =~= orig.skip(i + 1)) by {
                    assert(prev.skip(i + 1) =~= prev.skip(i as int).skip(1));
                    assert(orig.skip(i + 1) =~= orig.skip(i as int).skip(1));
                }
            }
            i = i + 1;
        }
        proof {
            assert(bytes@.take(i as int) =~= bytes@);
        }
        Ok(())
    }

    /// Writes one byte: eight write slots, least significant bit first.
    pub fn write_byte(&mut self, byte: u8) -> (r: Result<(), T::Error>)
        ensures
            final(self).speed() == old(self).speed(),
            r is Ok ==> final(self).trace() == old(self).trace() + write_byte_script(byte),
            r is Err ==> write_byte_aborted(old(self).trace(), final(self).trace(), byte),
    {
        let ghost before = self.trace();
        let mut rest: u8 = byte;
        let mut k: u32 = 0;
        proof {
            assert(byte_bits(byte).take(0) =~= Seq::<bool>::empty());
            assert(before + write_bits_script(byte_bits(byte).take(0)) =~= before);
            assert(byte >> 0u8 == byte) by (bit_vector);
        }
        while k < u8::BITS
            invariant
                k <= 8,
                rest == byte >> (k as u8),
                self.trace() == before + write_bits_script(byte_bits(byte).take(k as int)),
                self.speed() == old(self).speed(),
                before == old(self).trace(),
            decreases 8 - k,
        {
            let ghost done = byte_bits(byte).take(k as int);
            match self.write_bit(rest & 0x01 == 0x01) {
                Ok(()) => {},
                Err(e) => {
                    proof {
                        assert(write_byte_aborted(before, self.trace(), byte));
                    }
                    return Err(e);
                },
            }
            proof {
                lemma_shift_step(byte, k as u8);
                assert(byte_bits(byte).take(k + 1).drop_last() =~= done);
                assert(self.trace() =~= before + write_bits_script(byte_bits(byte).take(k + 1)));
            }
            rest = rest >> 1;
            k = k + 1;
        }
        proof {
            assert(byte_bits(byte).take(8) =~= byte_bits(byte));
        }
        Ok(())
    }

    /// Writes `bytes` in index order. A failure stops the transfer: no later
    /// byte is written.
    pub fn write_bytes(&mut self, bytes: &[u8]) -> (r: Result<(), T::Error>)
        ensures
            final(self).speed() == old(self).speed(),
            r is Ok ==> final(self).trace() == old(self).trace() + write_bytes_script(bytes@),
            r is Err ==> exists|i: int|
                0 <= i < bytes@.len() && write_byte_aborted(
                    old(self).trace() + write_bytes_script(#[trigger] bytes@.take(i)),
                    final(self).trace(),
                    bytes@[i],
                ),
    {
        let ghost before = self.trace();
        let mut i: usize = 0;
        proof {
            assert(bytes@.take(0) =~= Seq::<u8>::empty());
            assert(before + write_bytes_script(bytes@.take(0)) =~= before);
        }
        while i < bytes.len()
            invariant
                i <= bytes@.len(),
                self.trace() == before + write_bytes_script(bytes@.take(i as int)),
                self.speed() == old(self).speed(),
                before == old(self).trace(),
            decreases bytes@.len() - i,
        {
            match self.write_byte(bytes[i]) {
                Ok(()) => {},
                Err(e) => {
                    proof {
                        assert(write_byte_aborted(
                            before + write_bytes_script(bytes@.take(i as int)),
                            self.trace(),
                            bytes@[i as int],
                        ));
                    }
                    return Err(e);
                },
            }
            proof {
                assert(bytes@.take(i + 1).drop_last() =~= bytes@.take(i as int));
                assert(self.trace() =~= before + write_bytes_script(bytes@.take(i + 1)));
            }
            i = i + 1;
        }
        proof {
            assert(bytes@.take(i as int) =~= bytes@);
        }
        Ok(())
    }
}

} // verus!
