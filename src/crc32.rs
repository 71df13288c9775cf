//! Reflected CRC-32 (IEEE polynomial, as used by zlib).
use vstd::prelude::*;

verus! {

pub const POLYNOMIAL: u32 = 0xedb88320;

pub const SEED: u32 = 0xffffffff;

/// One shift of the table generator: shift right, folding in the polynomial
/// when the bit shifted out was set.
pub open spec fn bit_step(x: u32) -> u32 {
    if x & 1 == 1 {
        (x >> 1) ^ POLYNOMIAL
    } else {
        x >> 1
    }
}

/// `k` shifts of the table generator, starting from `x`.
pub open spec fn bit_steps(x: u32, k: nat) -> u32
    decreases k,
{
    if k == 0 {
        x
    } else {
        bit_step(bit_steps(x, (k - 1) as nat))
    }
}

/// Entry `i` of the lookup table.
pub open spec fn table_entry(i: u32) -> u32 {
    bit_steps(i, 8)
}

/// The CRC register after feeding `bytes`, starting from the seed.
pub open spec fn crc_register(bytes: Seq<u8>) -> u32
    decreases bytes.len(),
{
    if bytes.len() == 0 {
        SEED
    } else {
        let h = crc_register(bytes.drop_last());
        (h >> 8) ^ table_entry((bytes.last() ^ (h as u8)) as u32)
    }
}

/// The CRC-32 check value of `bytes`.
pub open spec fn crc32_of(bytes: Seq<u8>) -> u32 {
    !crc_register(bytes)
}

fn init_table() -> (table: Vec<u32>)
    ensures
        table@.len() == 256,
        forall|i: int| 0 <= i < 256 ==> #[trigger] table@[i] == table_entry(i as u32),
{
    let mut table: Vec<u32> = Vec::new();
    let mut i: u32 = 0;
    while i < 256
        invariant
            i <= 256,
            table@.len() == i,
            forall|j: int| 0 <= j < i ==> #[trigger] table@[j] == table_entry(j as u32),
        decreases 256 - i,
    {
        let mut entry: u32 = i;
        let mut k: usize = 0;
        while k < 8
            invariant
                k <= 8,
                entry == bit_steps(i, k as nat),
            decreases 8 - k,
        {
            if entry & 1 == 1 {
                entry = (entry >> 1) ^ POLYNOMIAL;
            } else {
                entry = entry >> 1;
            }
            k = k + 1;
        }
        table.push(entry);
        i = i + 1;
    }
    table
}

/// CRC-32 of `buffer`.
pub fn compute(buffer: &[u8]) -> (r: u32)
    ensures
        r == crc32_of(buffer@),
{
    let table = init_table();
    let mut hash: u32 = SEED;
    let mut i: usize = 0;
    while i < buffer.len()
        invariant
            i <= buffer@.len(),
            table@.len() == 256,
            forall|j: int| 0 <= j < 256 ==> #[trigger] table@[j] == table_entry(j as u32),
            hash == crc_register(buffer@.subrange(0, i as int)),
        decreases buffer@.len() - i,
    {
        let b = buffer[i];
        let idx: u8 = b ^ (hash as u8);
        proof {
            let s = buffer@.subrange(0, i as int + 1);
            assert(s.drop_last() =~= buffer@.subrange(0, i as int));
            assert(s.last() == b);
        }
        hash = (hash >> 8) ^ table[idx as usize];
        i = i + 1;
    }
    assert(buffer@.subrange(0, buffer@.len() as int) =~= buffer@);
    !hash
}

} // verus!
