use vstd::prelude::*;

verus! {

/// The reflected CRC-32 polynomial (IEEE 802.3).
pub const CRC_POLY: u32 = 0xEDB8_8320;

/// One bit step of the reflected CRC-32 shift register.
pub open spec fn crc_bit_step(c: u32) -> u32 {
    if c & 1 != 0 {
        (c >> 1) ^ 0xEDB8_8320u32
    } else {
        c >> 1
    }
}

/// Eight bit steps: the register after one byte has been shifted through.
pub open spec fn crc_eight_steps(c: u32) -> u32 {
    let c1 = crc_bit_step(c);
    let c2 = crc_bit_step(c1);
    let c3 = crc_bit_step(c2);
    let c4 = crc_bit_step(c3);
    let c5 = crc_bit_step(c4);
    let c6 = crc_bit_step(c5);
    let c7 = crc_bit_step(c6);
    crc_bit_step(c7)
}

/// The register after feeding one byte into it.
pub open spec fn crc_feed_byte(c: u32, b: u8) -> u32 {
    crc_eight_steps(c ^ (b as u32))
}

/// The register after feeding all of `data`, starting from all ones.
pub open spec fn crc_register(data: Seq<u8>) -> u32
    decreases data.len(),
{
    if data.len() == 0 {
        0xFFFF_FFFFu32
    } else {
        crc_feed_byte(crc_register(data.drop_last()), data.last())
    }
}

/// CRC-32 (IEEE) of a byte sequence: the final register, inverted.
pub open spec fn spec_crc32(data: Seq<u8>) -> u32 {
    !crc_register(data)
}

/// Shifting one byte through the register splits into a shift and a table entry.
proof fn lemma_table_step(c: u32, b: u8)
    ensures
        crc_feed_byte(c, b) == (c >> 8) ^ crc_eight_steps((c ^ (b as u32)) & 0xff),
{
    let x: u32 = c ^ (b as u32);
    assert(crc_eight_steps(x) == (x >> 8) ^ crc_eight_steps(x & 0xff)) by (bit_vector);
    assert((x >> 8) == (c >> 8) ^ ((b as u32) >> 8)) by (bit_vector)
        requires
            x == c ^ (b as u32),
    ;
    assert(((b as u32) >> 8) == 0u32) by (bit_vector)
        requires
            (b as u32) < 256,
    ;
    assert(((c >> 8) ^ 0u32) == (c >> 8)) by (bit_vector);
}

/// The 256-entry lookup table of the register after eight steps from each byte value.
fn crc_table() -> (table: Vec<u32>)
    ensures
        table@.len() == 256,
        forall|i: int| 0 <= i < 256 ==> #[trigger] table@[i] == crc_eight_steps(i as u32),
{
    let mut table: Vec<u32> = Vec::new();
    let mut i: u32 = 0;
    while i < 256
        invariant
            i <= 256,
            table@.len() == i,
            forall|k: int| 0 <= k < i ==> #[trigger] table@[k] == crc_eight_steps(k as u32),
        decreases 256 - i,
    {
        let mut crc: u32 = i;
        let mut j: u32 = 0;
        while j < 8
            invariant
                j <= 8,
                crc == crc_steps(i, j as nat),
            decreases 8 - j,
        {
            if crc & 1 != 0 {
                crc = (crc >> 1) ^ CRC_POLY;
            } else {
                crc = crc >> 1;
            }
            j = j + 1;
        }
        proof {
            lemma_eight_steps(i);
        }
        table.push(crc);
        i = i + 1;
    }
    table
}

/// `n` bit steps of the register.
spec fn crc_steps(c: u32, n: nat) -> u32
    decreases n,
{
    if n == 0 {
        c
    } else {
        crc_bit_step(crc_steps(c, (n - 1) as nat))
    }
}

proof fn lemma_eight_steps(c: u32)
    ensures
        crc_steps(c, 8) == crc_eight_steps(c),
{
    reveal_with_fuel(crc_steps, 9);
}

/// Computes the CRC-32 checksum of `data`.
pub fn crc32(data: &[u8]) -> (crc: u32)
    ensures
        crc == spec_crc32(data@),
{
    let table = crc_table();
    let mut crc: u32 = 0xFFFF_FFFF;
    let mut i: usize = 0;
    while i < data.len()
        invariant
            i <= data@.len(),
            table@.len() == 256,
            forall|k: int| 0 <= k < 256 ==> #[trigger] table@[k] == crc_eight_steps(k as u32),
            crc == crc_register(data@.subrange(0, i as int)),
        decreases data@.len() - i,
    {
        let byte = data[i];
        let table_index: usize = ((crc ^ (byte as u32)) & 0xFF) as usize;
        proof {
            lemma_table_step(crc, byte);
            assert(((crc ^ (byte as u32)) & 0xFF) < 256) by (bit_vector);
            let next = data@.subrange(0, i + 1);
            assert(next.drop_last() =~= data@.subrange(0, i as int));
        }
        crc = (crc >> 8) ^ table[table_index];
        i = i + 1;
    }
    assert(data@.subrange(0, data@.len() as int) =~= data@);
    !crc
}

} // verus!
