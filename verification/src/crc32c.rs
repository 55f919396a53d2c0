//! CRC32C (Castagnoli), the checksum used for frame headers and payloads.

use vstd::prelude::*;

verus! {

/// The reflected Castagnoli polynomial.
pub const POLY: u32 = 0x82F6_3B78;

/// One division step: shift a bit out, folding the polynomial in when it was set.
pub open spec fn bit_step(crc: u32) -> u32 {
    if crc & 1 == 1 {
        (crc >> 1) ^ 0x82F6_3B78u32
    } else {
        crc >> 1
    }
}

pub open spec fn four_steps(crc: u32) -> u32 {
    bit_step(bit_step(bit_step(bit_step(crc))))
}

/// The register after one more byte.
pub open spec fn byte_step(crc: u32, byte: u8) -> u32 {
    four_steps(four_steps(crc ^ (byte as u32)))
}

/// The register after the bytes of `data`, starting from `crc`.
pub open spec fn register(crc: u32, data: Seq<u8>) -> u32
    decreases data.len(),
{
    if data.len() == 0 {
        crc
    } else {
        byte_step(register(crc, data.drop_last()), data.last())
    }
}

/// The CRC32C of `data`: all-ones in, complemented out.
pub open spec fn checksum(data: Seq<u8>) -> u32 {
    !register(0xFFFF_FFFF, data)
}

/// The low nibble's contribution to the register, looked up.
fn nibble(i: u32) -> (r: u32)
    requires
        i < 16,
    ensures
        r == four_steps(i),
{
    let table: [u32; 16] = [
        0x00000000,
        0x105EC76F,
        0x20BD8EDE,
        0x30E349B1,
        0x417B1DBC,
        0x5125DAD3,
        0x61C69362,
        0x7198540D,
        0x82F63B78,
        0x92A8FC17,
        0xA24BB5A6,
        0xB21572C9,
        0xC38D26C4,
        0xD3D3E1AB,
        0xE330A81A,
        0xF36E6F75,
    ];
    proof {
        lemma_table();
    }
    table[i as usize]
}

proof fn lemma_table()
    ensures
        four_steps(0) == 0x00000000,
        four_steps(1) == 0x105EC76F,
        four_steps(2) == 0x20BD8EDE,
        four_steps(3) == 0x30E349B1,
        four_steps(4) == 0x417B1DBC,
        four_steps(5) == 0x5125DAD3,
        four_steps(6) == 0x61C69362,
        four_steps(7) == 0x7198540D,
        four_steps(8) == 0x82F63B78,
        four_steps(9) == 0x92A8FC17,
        four_steps(10) == 0xA24BB5A6,
        four_steps(11) == 0xB21572C9,
        four_steps(12) == 0xC38D26C4,
        four_steps(13) == 0xD3D3E1AB,
        four_steps(14) == 0xE330A81A,
        four_steps(15) == 0xF36E6F75,
{
    assert(four_steps(0) == 0x00000000 && four_steps(1) == 0x105EC76F && four_steps(2) == 0x20BD8EDE
        && four_steps(3) == 0x30E349B1 && four_steps(4) == 0x417B1DBC && four_steps(5) == 0x5125DAD3
        && four_steps(6) == 0x61C69362 && four_steps(7) == 0x7198540D && four_steps(8) == 0x82F63B78
        && four_steps(9) == 0x92A8FC17 && four_steps(10) == 0xA24BB5A6 && four_steps(11)
        == 0xB21572C9 && four_steps(12) == 0xC38D26C4 && four_steps(13) == 0xD3D3E1AB && four_steps(
        14,
    ) == 0xE330A81A && four_steps(15) == 0xF36E6F75) by (bit_vector);
}

/// Four steps split into the shifted register and the low nibble's share.
proof fn lemma_four_steps_split(x: u32)
    ensures
        four_steps(x) == (x >> 4) ^ four_steps(x & 15),
        (x & 15) < 16,
{
    assert(four_steps(x) == (x >> 4) ^ four_steps(x & 15)) by (bit_vector);
    assert((x & 15) < 16) by (bit_vector);
}

/// Portable software CRC32C, a nibble at a time.
pub fn crc32c_sw(data: &[u8]) -> (r: u32)
    ensures
        r == checksum(data@),
{
    let mut crc: u32 = 0xFFFF_FFFF;
    let mut i: usize = 0;
    assert(data@.take(0) =~= Seq::<u8>::empty());
    while i < data.len()
        invariant
            i <= data@.len(),
            crc == register(0xFFFF_FFFF, data@.take(i as int)),
        decreases data@.len() - i,
    {
        proof {
            let t = data@.take(i + 1);
            assert(t.drop_last() =~= data@.take(i as int));
            assert(t.last() == data@[i as int]);
        }
        let x: u32 = crc ^ (data[i] as u32);
        proof {
            lemma_four_steps_split(x);
        }
        let y: u32 = (x >> 4) ^ nibble(x & 15);
        proof {
            lemma_four_steps_split(y);
        }
        crc = (y >> 4) ^ nibble(y & 15);
        i = i + 1;
    }
    assert(data@.take(data@.len() as int) =~= data@);
    !crc
}

/// CRC32C of `data`.
pub fn crc32c(data: &[u8]) -> (r: u32)
    ensures
        r == checksum(data@),
{
    crc32c_sw(data)
}

proof fn lemma_bit_step_injective(a: u32, b: u32)
    by (bit_vector)
    requires
        bit_step(a) == bit_step(b),
    ensures
        a == b,
{
}

proof fn lemma_byte_step_injective(a: u32, b: u32, x: u8, y: u8)
    requires
        byte_step(a, x) == byte_step(b, y),
    ensures
        (a ^ (x as u32)) == (b ^ (y as u32)),
        x == y ==> a == b,
        a == b ==> x == y,
{
    let a0 = a ^ (x as u32);
    let b0 = b ^ (y as u32);
    let a1 = bit_step(a0);
    let b1 = bit_step(b0);
    let a2 = bit_step(a1);
    let b2 = bit_step(b1);
    let a3 = bit_step(a2);
    let b3 = bit_step(b2);
    let a4 = bit_step(a3);
    let b4 = bit_step(b3);
    let a5 = bit_step(a4);
    let b5 = bit_step(b4);
    let a6 = bit_step(a5);
    let b6 = bit_step(b5);
    let a7 = bit_step(a6);
    let b7 = bit_step(b6);
    lemma_bit_step_injective(a7, b7);
    lemma_bit_step_injective(a6, b6);
    lemma_bit_step_injective(a5, b5);
    lemma_bit_step_injective(a4, b4);
    lemma_bit_step_injective(a3, b3);
    lemma_bit_step_injective(a2, b2);
    lemma_bit_step_injective(a1, b1);
    lemma_bit_step_injective(a0, b0);
    assert((a ^ (x as u32)) == (b ^ (y as u32)) ==> (x == y ==> a == b) && (a == b ==> x == y))
        by (bit_vector);
}

/// Feeding the same bytes keeps different registers different.
proof fn lemma_register_injective(a: u32, b: u32, data: Seq<u8>)
    requires
        register(a, data) == register(b, data),
    ensures
        a == b,
    decreases data.len(),
{
    if data.len() > 0 {
        let init = data.drop_last();
        lemma_byte_step_injective(register(a, init), register(b, init), data.last(), data.last());
        lemma_register_injective(a, b, init);
    }
}

proof fn lemma_register_concat(crc: u32, x: Seq<u8>, y: Seq<u8>)
    ensures
        register(crc, x + y) == register(register(crc, x), y),
    decreases y.len(),
{
    if y.len() == 0 {
        assert(x + y =~= x);
    } else {
        assert((x + y).drop_last() =~= x + y.drop_last());
        lemma_register_concat(crc, x, y.drop_last());
    }
}

/// A change confined to one byte always changes the checksum.
pub proof fn law_single_byte_change_is_detected(data: Seq<u8>, i: int, byte: u8)
    requires
        0 <= i < data.len(),
        data[i] != byte,
    ensures
        checksum(data.update(i, byte)) != checksum(data),
{
    let head = data.take(i);
    let tail = data.skip(i + 1);
    let changed = data.update(i, byte);
    let s = register(0xFFFF_FFFF, head);
    assert(data =~= (head + seq![data[i]]) + tail);
    assert(changed =~= (head + seq![byte]) + tail);
    lemma_register_concat(0xFFFF_FFFF, head + seq![data[i]], tail);
    lemma_register_concat(0xFFFF_FFFF, head + seq![byte], tail);
    lemma_register_step(head, data[i]);
    lemma_register_step(head, byte);
    let r1 = byte_step(s, data[i]);
    let r2 = byte_step(s, byte);
    let f1 = register(r1, tail);
    let f2 = register(r2, tail);
    if f1 == f2 {
        lemma_register_injective(r1, r2, tail);
        lemma_byte_step_injective(s, s, data[i], byte);
    }
    assert(!f1 == !f2 ==> f1 == f2) by (bit_vector);
}

proof fn lemma_register_step(head: Seq<u8>, byte: u8)
    ensures
        register(0xFFFF_FFFF, head + seq![byte]) == byte_step(register(0xFFFF_FFFF, head), byte),
{
    assert((head + seq![byte]).drop_last() =~= head);
}

} // verus!
