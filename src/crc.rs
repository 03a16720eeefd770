use vstd::prelude::*;

verus! {

/// The reflected form of the polynomial x^8 + x^5 + x^4 + 1.
pub const POLYNOMIAL: u8 = 0x8C;

/// The error of a failed CRC check.
#[derive(Clone, Copy, Debug, PartialEq, Eq, Structural)]
pub enum Error {
    /// The checksum over data and its trailing CRC byte was not zero.
    NonZero,
}

/// One step of the checksum: folds the low bit of `byte` into `crc`.
pub open spec fn crc_step(crc: u8, byte: u8) -> u8 {
    if (byte ^ crc) & 1u8 != 0u8 {
        (crc >> 1u8) ^ 0x8Cu8
    } else {
        crc >> 1u8
    }
}

/// Folds the `n` low bits of `byte` into `crc`, least significant bit first.
pub open spec fn crc_bits(crc: u8, byte: u8, n: nat) -> u8
    decreases n,
{
    if n == 0 {
        crc
    } else {
        crc_bits(crc_step(crc, byte), byte >> 1u8, (n - 1) as nat)
    }
}

/// Folds one whole byte into `crc`.
pub open spec fn crc_byte(crc: u8, byte: u8) -> u8 {
    crc_bits(crc, byte, 8)
}

/// The CRC8 of a byte sequence, starting from zero.
pub open spec fn crc8_of(data: Seq<u8>) -> u8
    decreases data.len(),
{
    if data.len() == 0 {
        0
    } else {
        crc_byte(crc8_of(data.drop_last()), data.last())
    }
}

/// Whether the CRC check over `data` (trailing CRC byte included) passes.
pub open spec fn passes(data: Seq<u8>) -> bool {
    crc8_of(data) == 0
}

/// Calculates the crc8 of the input data.
pub fn crc8(data: &[u8]) -> (r: u8)
    ensures
        r == crc8_of(data@),
{
    let mut crc: u8 = 0;
    let mut i: usize = 0;
    while i < data.len()
        invariant
            i <= data@.len(),
            crc == crc8_of(data@.take(i as int)),
        decreases data@.len() - i,
    {
        let mut byte: u8 = data[i];
        let ghost start = crc;
        let ghost whole = byte;
        let mut k: u32 = 0;
        while k < u8::BITS
            invariant
                k <= 8,
                crc_bits(crc, byte, (8 - k) as nat) == crc_byte(start, whole),
            decreases 8 - k,
        {
            let x: u8 = (byte ^ crc) & 0x01;
            crc = crc >> 1;
            if x != 0 {
                crc = crc ^ POLYNOMIAL;
            }
            byte = byte >> 1;
            k = k + 1;
        }
        proof {
            assert(data@.take(i + 1).drop_last() =~= data@.take(i as int));
        }
        i = i + 1;
    }
    proof {
        assert(data@.take(i as int) =~= data@);
    }
    crc
}

/// Checks to see if data (including the crc byte) passes the crc check.
///
/// The checksum over data followed by its own CRC byte is always zero, so
/// the data need not be separated from the CRC value.
pub fn check_crc8(data: &[u8]) -> (r: Result<(), Error>)
    ensures
        r is Ok <==> passes(data@),
        r is Err ==> r == Err::<(), Error>(Error::NonZero),
{
    if crc8(data) == 0 {
        Ok(())
    } else {
        Err(Error::NonZero)
    }
}

proof fn lemma_step_linear(c1: u8, c2: u8, b1: u8, b2: u8)
    ensures
        crc_step(c1 ^ c2, b1 ^ b2) == crc_step(c1, b1) ^ crc_step(c2, b2),
{
    assert(((if ((b1 ^ b2) ^ (c1 ^ c2)) & 1u8 != 0u8 { ((c1 ^ c2) >> 1u8) ^ 0x8Cu8 } else { (c1
        ^ c2) >> 1u8 }) == (if (b1 ^ c1) & 1u8 != 0u8 { (c1 >> 1u8) ^ 0x8Cu8 } else { c1
        >> 1u8 }) ^ (if (b2 ^ c2) & 1u8 != 0u8 { (c2 >> 1u8) ^ 0x8Cu8 } else { c2 >> 1u8 })))
        by (bit_vector);
}

/// The checksum is linear: folding the xor of two inputs gives the xor of
/// the two folds.
proof fn lemma_bits_linear(c1: u8, c2: u8, b1: u8, b2: u8, n: nat)
    ensures
        crc_bits(c1 ^ c2, b1 ^ b2, n) == crc_bits(c1, b1, n) ^ crc_bits(c2, b2, n),
    decreases n,
{
    if n > 0 {
        lemma_step_linear(c1, c2, b1, b2);
        assert((b1 ^ b2) >> 1u8 == (b1 >> 1u8) ^ (b2 >> 1u8)) by (bit_vector);
        lemma_bits_linear(crc_step(c1, b1), crc_step(c2, b2), b1 >> 1u8, b2 >> 1u8, (n - 1) as nat);
    }
}

/// Zero bits never bring a nonzero register back to zero.
proof fn lemma_zero_bits_keep_nonzero(x: u8, n: nat)
    requires
        x != 0,
    ensures
        crc_bits(x, 0, n) != 0,
    decreases n,
{
    if n > 0 {
        assert(x != 0u8 ==> (if (0u8 ^ x) & 1u8 != 0u8 { (x >> 1u8) ^ 0x8Cu8 } else { x >> 1u8 })
            != 0u8) by (bit_vector);
        assert(0u8 >> 1u8 == 0u8) by (bit_vector);
        lemma_zero_bits_keep_nonzero(crc_step(x, 0), (n - 1) as nat);
    }
}

/// A single set bit among the bits folded makes the register nonzero.
proof fn lemma_single_bit_nonzero(j: u8, n: nat)
    requires
        j < 8,
        j < n,
    ensures
        crc_bits(0, 1u8 << j, n) != 0,
    decreases n,
{
    if j == 0 {
        assert(crc_step(0, 1u8 << 0u8) == 0x8Cu8) by (bit_vector);
        assert((1u8 << 0u8) >> 1u8 == 0u8) by (bit_vector);
        lemma_zero_bits_keep_nonzero(0x8Cu8, (n - 1) as nat);
    } else {
        assert(0u8 < j && j < 8u8 ==> (if ((1u8 << j) ^ 0u8) & 1u8 != 0u8 { (0u8 >> 1u8)
            ^ 0x8Cu8 } else { 0u8 >> 1u8 }) == 0u8) by (bit_vector);
        assert(0u8 < j && j < 8u8 ==> (1u8 << j) >> 1u8 == 1u8 << ((j - 1u8) as u8))
            by (bit_vector);
        lemma_single_bit_nonzero((j - 1) as u8, (n - 1) as nat);
    }
}

/// Folding one byte into two different registers gives two different
/// registers.
proof fn lemma_byte_injective(r1: u8, r2: u8, b: u8)
    requires
        r1 != r2,
    ensures
        crc_byte(r1, b) != crc_byte(r2, b),
{
    lemma_bits_linear(r1, r2, b, b, 8);
    assert(r1 != r2 ==> r1 ^ r2 != 0u8) by (bit_vector);
    assert(b ^ b == 0u8) by (bit_vector);
    lemma_zero_bits_keep_nonzero(r1 ^ r2, 8);
    let x = crc_byte(r1, b);
    let y = crc_byte(r2, b);
    assert(x ^ y != 0u8 ==> x != y) by (bit_vector);
}

/// Flipping one bit of a byte changes the register that it folds to.
proof fn lemma_byte_detects_flip(c: u8, b: u8, j: u8)
    requires
        j < 8,
    ensures
        crc_byte(c, b) != crc_byte(c, b ^ (1u8 << j)),
{
    let m = 1u8 << j;
    lemma_bits_linear(c, c, b, b ^ m, 8);
    assert(c ^ c == 0u8) by (bit_vector);
    assert(b ^ (b ^ m) == m) by (bit_vector);
    lemma_single_bit_nonzero(j, 8);
    let x = crc_byte(c, b);
    let y = crc_byte(c, b ^ m);
    assert(x ^ y != 0u8 ==> x != y) by (bit_vector);
}

proof fn lemma_folds_diverge(d1: Seq<u8>, d2: Seq<u8>, i: int, j: u8, n: int)
    requires
        d1.len() == d2.len(),
        0 <= i < n <= d1.len(),
        j < 8,
        d2 == d1.update(i, d1[i] ^ (1u8 << j)),
    ensures
        crc8_of(d1.take(n)) != crc8_of(d2.take(n)),
    decreases n,
{
    assert(d1.take(n).drop_last() =~= d1.take(n - 1));
    assert(d2.take(n).drop_last() =~= d2.take(n - 1));
    if n == i + 1 {
        assert(d1.take(i) =~= d2.take(i));
        lemma_byte_detects_flip(crc8_of(d1.take(i)), d1[i], j);
    } else {
        lemma_folds_diverge(d1, d2, i, j, n - 1);
        lemma_byte_injective(crc8_of(d1.take(n - 1)), crc8_of(d2.take(n - 1)), d1[n - 1]);
    }
}

proof fn lemma_byte_self_zero(x: u8, n: nat)
    requires
        n <= 8,
        (x as u32) >> (n as u32) == 0,
    ensures
        crc_bits(x, x, n) == 0,
    decreases n,
{
    if n == 0 {
        assert((x as u32) >> 0u32 == x as u32) by (bit_vector);
    } else {
        let m = n as u32;
        assert(crc_step(x, x) == x >> 1u8) by (bit_vector);
        assert(1u32 <= m && m <= 8u32 && (x as u32) >> m == 0u32 ==> ((x >> 1u8) as u32) >> ((m
            - 1u32) as u32) == 0u32) by (bit_vector);
        lemma_byte_self_zero(x >> 1u8, (n - 1) as nat);
    }
}

/// Data followed by its own CRC byte passes the check.
pub proof fn lemma_appended_crc_passes(data: Seq<u8>)
    ensures
        passes(data.push(crc8_of(data))),
{
    let c = crc8_of(data);
    assert(data.push(c).drop_last() =~= data);
    assert((c as u32) >> 8u32 == 0u32) by (bit_vector);
    lemma_byte_self_zero(c, 8);
}

/// Flipping any single bit of data that passes the check makes it fail:
/// the checksum detects every single-bit error.
pub proof fn lemma_single_bit_error_detected(data: Seq<u8>, i: int, j: u8)
    requires
        passes(data),
        0 <= i < data.len(),
        j < 8,
    ensures
        !passes(data.update(i, data[i] ^ (1u8 << j))),
{
    let flipped = data.update(i, data[i] ^ (1u8 << j));
    lemma_folds_diverge(data, flipped, i, j, data.len() as int);
    assert(data.take(data.len() as int) =~= data);
    assert(flipped.take(data.len() as int) =~= flipped);
}

} // verus!
