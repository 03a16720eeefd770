use vstd::prelude::*;

use crate::standard::{A, B, C, D, E, F, G, H, I, J};

verus! {

/// A bidirectional digital line, wired open-drain: driving it high releases
/// the bus to the pull-up resistor.
pub trait OneWirePin {
    type Error;

    /// Releases the line.
    fn set_high(&mut self) -> Result<(), Self::Error>;

    /// Pulls the line low.
    fn set_low(&mut self) -> Result<(), Self::Error>;

    /// Whether the line is high now.
    fn is_high(&mut self) -> Result<bool, Self::Error>;

    /// Whether the line is low now.
    fn is_low(&mut self) -> Result<bool, Self::Error>;
}

/// A source of blocking delays.
pub trait DelayUs {
    /// Blocks for at least `us` microseconds.
    fn delay_us(&mut self, us: u32);
}

/// One action of the driver on its pin or delay, as it happened.
pub enum BusOp {
    /// The line was released.
    High,
    /// The line was pulled low.
    Low,
    /// The driver waited this many microseconds.
    Wait(u32),
    /// The line was sampled with `is_high`, which reported this value.
    ReadHigh(bool),
    /// The line was sampled with `is_low`, which reported this value.
    ReadLow(bool),
    /// An access to the pin failed.
    Fault,
}

impl BusOp {
    /// Whether this action touches the pin (and so may fail).
    pub open spec fn is_access(self) -> bool {
        !(self is Wait)
    }
}

/// A reset pulse followed by a presence check that reported `presence`.
pub open spec fn reset_script(presence: bool) -> Seq<BusOp> {
    seq![
        BusOp::Wait(G),
        BusOp::Low,
        BusOp::Wait(H),
        BusOp::High,
        BusOp::Wait(I),
        BusOp::ReadLow(presence),
        BusOp::Wait(J),
    ]
}

/// A read slot in which the line was sampled as `bit`.
pub open spec fn read_bit_script(bit: bool) -> Seq<BusOp> {
    seq![BusOp::Low, BusOp::Wait(A), BusOp::High, BusOp::Wait(E), BusOp::ReadHigh(bit), BusOp::Wait(F)]
}

/// A write slot for `bit`: a short low pulse for 1, a long one for 0.
#[verifier::opaque]
pub open spec fn write_bit_script(bit: bool) -> Seq<BusOp> {
    seq![
        BusOp::Low,
        BusOp::Wait(if bit { A } else { C }),
        BusOp::High,
        BusOp::Wait(if bit { B } else { D }),
    ]
}

/// The eight bits of a byte, least significant first.
pub open spec fn byte_bits(b: u8) -> Seq<bool> {
    Seq::new(8, |i: int| (b >> (i as u8)) & 1u8 == 1u8)
}

/// Read slots for `bits`, in order.
pub open spec fn read_bits_script(bits: Seq<bool>) -> Seq<BusOp>
    decreases bits.len(),
{
    if bits.len() == 0 {
        seq![]
    } else {
        read_bits_script(bits.drop_last()) + read_bit_script(bits.last())
    }
}

/// Write slots for `bits`, in order.
pub open spec fn write_bits_script(bits: Seq<bool>) -> Seq<BusOp>
    decreases bits.len(),
{
    if bits.len() == 0 {
        seq![]
    } else {
        write_bits_script(bits.drop_last()) + write_bit_script(bits.last())
    }
}

/// Reading the byte `b`: eight read slots, least significant bit first.
pub open spec fn read_byte_script(b: u8) -> Seq<BusOp> {
    read_bits_script(byte_bits(b))
}

/// Writing the byte `b`: eight write slots, least significant bit first.
pub open spec fn write_byte_script(b: u8) -> Seq<BusOp> {
    write_bits_script(byte_bits(b))
}

/// Reading `bytes`, one byte after the other in index order.
pub open spec fn read_bytes_script(bytes: Seq<u8>) -> Seq<BusOp>
    decreases bytes.len(),
{
    if bytes.len() == 0 {
        seq![]
    } else {
        read_bytes_script(bytes.drop_last()) + read_byte_script(bytes.last())
    }
}

/// Writing `bytes`, one byte after the other in index order.
pub open spec fn write_bytes_script(bytes: Seq<u8>) -> Seq<BusOp>
    decreases bytes.len(),
{
    if bytes.len() == 0 {
        seq![]
    } else {
        write_bytes_script(bytes.drop_last()) + write_byte_script(bytes.last())
    }
}

/// `run` follows `script` up to a pin access, which failed; nothing was done
/// after it.
pub open spec fn aborted(script: Seq<BusOp>, run: Seq<BusOp>) -> bool {
    &&& 0 < run.len() <= script.len()
    &&& run.last() == BusOp::Fault
    &&& script[run.len() - 1].is_access()
    &&& run.drop_last() == script.take(run.len() - 1)
}

/// `after` is `before` followed by an aborted run of `script`.
pub open spec fn aborted_after(before: Seq<BusOp>, after: Seq<BusOp>, script: Seq<BusOp>) -> bool {
    &&& before.len() <= after.len()
    &&& after.take(before.len() as int) == before
    &&& aborted(script, after.skip(before.len() as int))
}

/// `after` is `before` followed by whole read slots (fewer than eight) and
/// one aborted read slot.
pub open spec fn read_byte_aborted(before: Seq<BusOp>, after: Seq<BusOp>) -> bool {
    exists|bits: Seq<bool>, b: bool|
        #![trigger read_bits_script(bits), read_bit_script(b)]
        bits.len() < 8 && aborted_after(before + read_bits_script(bits), after, read_bit_script(b))
}

/// `after` is `before` followed by the first `k` write slots of `v` and an
/// aborted write slot for its next bit.
pub open spec fn write_byte_aborted(before: Seq<BusOp>, after: Seq<BusOp>, v: u8) -> bool {
    exists|k: int|
        #![trigger byte_bits(v).take(k)]
        0 <= k < 8 && aborted_after(
            before + write_bits_script(byte_bits(v).take(k)),
            after,
            write_bit_script(byte_bits(v)[k]),
        )
}

/// Taking one more action of a script, or failing at it.
pub(crate) proof fn lemma_advance(before: Seq<BusOp>, script: Seq<BusOp>, k: int)
    requires
        0 <= k < script.len(),
    ensures
        (before + script.take(k)).push(script[k]) == before + script.take(k + 1),
        script[k].is_access() ==> aborted_after(
            before,
            (before + script.take(k)).push(BusOp::Fault),
            script,
        ),
{
    assert((before + script.take(k)).push(script[k]) =~= before + script.take(k + 1));
    let after = (before + script.take(k)).push(BusOp::Fault);
    assert(after.take(before.len() as int) =~= before);
    assert(after.skip(before.len() as int).drop_last() =~= script.take(k));
}

/// The level the driver last set the line to, if it set one.
pub open spec fn last_level(trace: Seq<BusOp>) -> Option<bool>
    decreases trace.len(),
{
    if trace.len() == 0 {
        None
    } else if trace.last() == BusOp::High {
        Some(true)
    } else if trace.last() == BusOp::Low {
        Some(false)
    } else {
        last_level(trace.drop_last())
    }
}

/// The line is released: the last level the driver set is high.
pub open spec fn released(trace: Seq<BusOp>) -> bool {
    last_level(trace) == Some(true)
}

proof fn lemma_last_level_concat(t: Seq<BusOp>, s: Seq<BusOp>)
    ensures
        last_level(t + s) == if last_level(s) is Some {
            last_level(s)
        } else {
            last_level(t)
        },
    decreases s.len(),
{
    if s.len() == 0 {
        assert(t + s =~= t);
    } else {
        assert((t + s).drop_last() =~= t + s.drop_last());
        lemma_last_level_concat(t, s.drop_last());
    }
}

proof fn lemma_slots_release(bits: Seq<bool>)
    ensures
        bits.len() > 0 ==> last_level(read_bits_script(bits)) == Some(true),
        bits.len() > 0 ==> last_level(write_bits_script(bits)) == Some(true),
        bits.len() == 0 ==> read_bits_script(bits) == Seq::<BusOp>::empty(),
        bits.len() == 0 ==> write_bits_script(bits) == Seq::<BusOp>::empty(),
{
    if bits.len() > 0 {
        let r = read_bit_script(bits.last());
        let w = write_bit_script(bits.last());
        reveal(write_bit_script);
        reveal_with_fuel(last_level, 4);
        assert(r.drop_last().drop_last().drop_last() =~= seq![BusOp::Low, BusOp::Wait(A), BusOp::High]);
        assert(w.drop_last() =~= seq![BusOp::Low, BusOp::Wait(if bits.last() { A } else { C }), BusOp::High]);
        lemma_last_level_concat(read_bits_script(bits.drop_last()), r);
        lemma_last_level_concat(write_bits_script(bits.drop_last()), w);
    }
}

proof fn lemma_bytes_release(bytes: Seq<u8>)
    ensures
        bytes.len() > 0 ==> last_level(read_bytes_script(bytes)) == Some(true),
        bytes.len() > 0 ==> last_level(write_bytes_script(bytes)) == Some(true),
        bytes.len() == 0 ==> read_bytes_script(bytes) == Seq::<BusOp>::empty(),
        bytes.len() == 0 ==> write_bytes_script(bytes) == Seq::<BusOp>::empty(),
{
    if bytes.len() > 0 {
        lemma_slots_release(byte_bits(bytes.last()));
        lemma_last_level_concat(read_bytes_script(bytes.drop_last()), read_byte_script(bytes.last()));
        lemma_last_level_concat(write_bytes_script(bytes.drop_last()), write_byte_script(bytes.last()));
    }
}

/// Every completed transaction leaves the line released, so that the
/// pull-up keeps the bus idle between transactions: a reset, a bit or a
/// byte does so whatever came before, and a run of bytes does so when the
/// line was released before it (an empty run does nothing).
pub proof fn lemma_transactions_release(
    t: Seq<BusOp>,
    presence: bool,
    bit: bool,
    v: u8,
    bytes: Seq<u8>,
)
    ensures
        released(t + reset_script(presence)),
        released(t + read_bit_script(bit)),
        released(t + write_bit_script(bit)),
        released(t + read_byte_script(v)),
        released(t + write_byte_script(v)),
        released(t) ==> released(t + read_bytes_script(bytes)),
        released(t) ==> released(t + write_bytes_script(bytes)),
{
    let r = reset_script(presence);
    reveal_with_fuel(last_level, 4);
    assert(r.drop_last().drop_last().drop_last() =~= seq![BusOp::Wait(G), BusOp::Low, BusOp::Wait(H), BusOp::High]);
    lemma_last_level_concat(t, r);
    lemma_slots_release(seq![bit]);
    assert(seq![bit].drop_last() =~= Seq::<bool>::empty());
    reveal_with_fuel(read_bits_script, 2);
    reveal_with_fuel(write_bits_script, 2);
    assert(read_bits_script(seq![bit]) =~= read_bit_script(bit));
    assert(write_bits_script(seq![bit]) =~= write_bit_script(bit));
    lemma_last_level_concat(t, read_bit_script(bit));
    lemma_last_level_concat(t, write_bit_script(bit));
    lemma_slots_release(byte_bits(v));
    lemma_last_level_concat(t, read_byte_script(v));
    lemma_last_level_concat(t, write_byte_script(v));
    lemma_bytes_release(bytes);
    lemma_last_level_concat(t, read_bytes_script(bytes));
    lemma_last_level_concat(t, write_bytes_script(bytes));
    if bytes.len() == 0 {
        assert(t + read_bytes_script(bytes) =~= t);
        assert(t + write_bytes_script(bytes) =~= t);
    }
}

/// Slot `i` of a run of write slots is the write slot for `bits[i]`.
#[verifier::rlimit(50)]
pub proof fn lemma_write_slots(bits: Seq<bool>, i: int)
    requires
        0 <= i < bits.len(),
    ensures
        write_bits_script(bits).len() == 4 * bits.len(),
        write_bits_script(bits).subrange(4 * i, 4 * i + 4) == write_bit_script(bits[i]),
    decreases bits.len(),
{
    let init = bits.drop_last();
    let head = write_bits_script(init);
    let last = write_bit_script(bits.last());
    assert(write_bits_script(bits) == head + last);
    lemma_write_slots_len(init);
    reveal(write_bit_script);
    if i < bits.len() - 1 {
        lemma_write_slots(init, i);
        assert((head + last).subrange(4 * i, 4 * i + 4) =~= head.subrange(4 * i, 4 * i + 4));
    } else {
        assert((head + last).subrange(4 * i, 4 * i + 4) =~= last);
    }
}

proof fn lemma_write_slots_len(bits: Seq<bool>)
    ensures
        write_bits_script(bits).len() == 4 * bits.len(),
    decreases bits.len(),
{
    if bits.len() > 0 {
        lemma_write_slots_len(bits.drop_last());
        reveal(write_bit_script);
    }
}

/// Slot `i` of a run of read slots is the read slot that sampled `bits[i]`.
#[verifier::rlimit(50)]
pub proof fn lemma_read_slots(bits: Seq<bool>, i: int)
    requires
        0 <= i < bits.len(),
    ensures
        read_bits_script(bits).len() == 6 * bits.len(),
        read_bits_script(bits).subrange(6 * i, 6 * i + 6) == read_bit_script(bits[i]),
    decreases bits.len(),
{
    let init = bits.drop_last();
    let head = read_bits_script(init);
    let last = read_bit_script(bits.last());
    assert(read_bits_script(bits) == head + last);
    lemma_read_slots_len(init);
    assert(last.len() == 6);
    if i < bits.len() - 1 {
        lemma_read_slots(init, i);
        assert((head + last).subrange(6 * i, 6 * i + 6) =~= head.subrange(6 * i, 6 * i + 6));
    } else {
        assert((head + last).subrange(6 * i, 6 * i + 6) =~= last);
    }
}

proof fn lemma_read_slots_len(bits: Seq<bool>)
    ensures
        read_bits_script(bits).len() == 6 * bits.len(),
    decreases bits.len(),
{
    if bits.len() > 0 {
        lemma_read_slots_len(bits.drop_last());
    }
}

#[verifier::rlimit(50)]
proof fn lemma_sample_at(bits: Seq<bool>, j: int)
    requires
        0 <= j < bits.len(),
    ensures
        6 * j + 4 < read_bits_script(bits).len(),
        read_bits_script(bits)[6 * j + 4] == BusOp::ReadHigh(bits[j]),
{
    lemma_read_slots(bits, j);
    let whole = read_bits_script(bits);
    let slot = whole.subrange(6 * j, 6 * j + 6);
    assert(slot == read_bit_script(bits[j]));
    assert(read_bit_script(bits[j])[4] == BusOp::ReadHigh(bits[j]));
    assert(slot[4] == whole[6 * j + 4]);
}

/// A byte is determined by its eight bits.
pub proof fn lemma_byte_bits_injective(a: u8, b: u8)
    requires
        byte_bits(a) == byte_bits(b),
    ensures
        a == b,
{
    assert forall|k: u8| k < 8 implies ((a >> k) & 1u8 == 1u8) == ((b >> k) & 1u8 == 1u8) by {
        assert(byte_bits(a)[k as int] == byte_bits(b)[k as int]);
        assert(((k as int) as u8) == k);
        assert(byte_bits(a)[k as int] == ((a >> ((k as int) as u8)) & 1u8 == 1u8));
        assert(byte_bits(a)[k as int] == ((a >> k) & 1u8 == 1u8));
    }
    let (k0, k1, k2, k3, k4, k5, k6, k7) = (0u8, 1u8, 2u8, 3u8, 4u8, 5u8, 6u8, 7u8);
    let (a0, a1, a2, a3, a4, a5, a6, a7) = (
        (a >> k0) & 1u8 == 1u8,
        (a >> k1) & 1u8 == 1u8,
        (a >> k2) & 1u8 == 1u8,
        (a >> k3) & 1u8 == 1u8,
        (a >> k4) & 1u8 == 1u8,
        (a >> k5) & 1u8 == 1u8,
        (a >> k6) & 1u8 == 1u8,
        (a >> k7) & 1u8 == 1u8,
    );
    assert(a0 == ((b >> k0) & 1u8 == 1u8));
    assert(a1 == ((b >> k1) & 1u8 == 1u8));
    assert(a2 == ((b >> k2) & 1u8 == 1u8));
    assert(a3 == ((b >> k3) & 1u8 == 1u8));
    assert(a4 == ((b >> k4) & 1u8 == 1u8));
    assert(a5 == ((b >> k5) & 1u8 == 1u8));
    assert(a6 == ((b >> k6) & 1u8 == 1u8));
    assert(a7 == ((b >> k7) & 1u8 == 1u8));
    assert((((a >> 0u8) & 1u8 == 1u8) == ((b >> 0u8) & 1u8 == 1u8) && ((a >> 1u8) & 1u8 == 1u8)
        == ((b >> 1u8) & 1u8 == 1u8) && ((a >> 2u8) & 1u8 == 1u8) == ((b >> 2u8) & 1u8 == 1u8)
        && ((a >> 3u8) & 1u8 == 1u8) == ((b >> 3u8) & 1u8 == 1u8) && ((a >> 4u8) & 1u8 == 1u8)
        == ((b >> 4u8) & 1u8 == 1u8) && ((a >> 5u8) & 1u8 == 1u8) == ((b >> 5u8) & 1u8 == 1u8)
        && ((a >> 6u8) & 1u8 == 1u8) == ((b >> 6u8) & 1u8 == 1u8) && ((a >> 7u8) & 1u8 == 1u8)
        == ((b >> 7u8) & 1u8 == 1u8)) ==> a == b) by (bit_vector);
}

/// Bytes cross the bus least significant bit first, and a loopback line
/// gives them back: write slot `i` of byte `w` carries bit `i` of `w`, and a
/// read whose slot `i` samples that same bit, for every `i`, returns `w`.
pub proof fn lemma_loopback_byte(w: u8, r: u8, i: int)
    requires
        0 <= i < 8,
        read_byte_script(r) == read_bits_script(byte_bits(w)),
    ensures
        write_byte_script(w).subrange(4 * i, 4 * i + 4) == write_bit_script(
            (w >> (i as u8)) & 1u8 == 1u8,
        ),
        r == w,
{
    lemma_write_slots(byte_bits(w), i);
    assert forall|j: int| 0 <= j < 8 implies byte_bits(r)[j] == byte_bits(w)[j] by {
        lemma_sample_at(byte_bits(r), j);
        lemma_sample_at(byte_bits(w), j);
    }
    assert(byte_bits(r) =~= byte_bits(w));
    lemma_byte_bits_injective(r, w);
}

} // verus!
