//! A single-producer, single-consumer slot ring in one block of memory, for
//! fan-out on the same machine.
//!
//! Layout (little-endian), a header followed by fixed slots:
//!
//! ```text
//!   0   magic       u32   "TKSM"
//!   4   version     u32   = 1
//!   8   capacity    u64   number of slots
//!  16   slot_bytes  u64   bytes per slot, with the 4-byte length prefix
//!  24   write_seq   u64   producer cursor
//!  32   read_seq    u64   consumer cursor
//!  64   slot 0      [len: u32][payload]
//!  ..   slot 1
//! ```
//!
//! The producer only advances `write_seq`, the consumer only `read_seq`. A
//! full ring drops the packet: the reliable feed still has it, and the ring is
//! a shortcut, not the system of record.

use vstd::prelude::*;

use crate::frame::field;
use crate::le::{get_le, put_le};
use crate::transport::TransportError;

verus! {

broadcast use crate::le::lemma_le_bytes_len;

pub const RING_HEADER_BYTES: usize = 64;

/// `TKSM` as a little-endian number.
pub const RING_MAGIC: u32 = 0x4D53_4B54;

pub const RING_VERSION: u32 = 1;

/// Where the slot for `seq` starts.
pub open spec fn slot_start(capacity: u64, slot_bytes: u64, seq: int) -> int {
    64 + (seq % capacity as int) * slot_bytes
}

/// The packet in the slot for `seq`.
pub open spec fn slot_packet(mem: Seq<u8>, capacity: u64, slot_bytes: u64, seq: int) -> Seq<u8> {
    let at = slot_start(capacity, slot_bytes, seq);
    mem.subrange(at + 4, at + 4 + crate::le::le_value(mem.subrange(at, at + 4)))
}

/// Memory with `data` written at `at`.
pub open spec fn spliced(mem: Seq<u8>, at: int, data: Seq<u8>) -> Seq<u8> {
    mem.take(at) + data + mem.skip(at + data.len())
}

/// Whether memory is a ring: its header fits its size, at most `capacity`
/// packets wait, and each lies within its slot.
pub open spec fn is_ring(mem: Seq<u8>, capacity: u64, slot_bytes: u64) -> bool {
    let read = field(mem, 32, 40) as int;
    let write = field(mem, 24, 32) as int;
    &&& capacity >= 1
    &&& slot_bytes >= 4
    &&& mem.len() == 64 + capacity * slot_bytes
    &&& field(mem, 0, 4) == RING_MAGIC
    &&& field(mem, 4, 8) == RING_VERSION
    &&& field(mem, 8, 16) == capacity
    &&& field(mem, 16, 24) == slot_bytes
    &&& read <= write <= u64::MAX
    &&& write - read <= capacity
    &&& forall|s: int|
        read <= s < write ==> crate::le::le_value(
            mem.subrange(
                #[trigger] slot_start(capacity, slot_bytes, s),
                slot_start(capacity, slot_bytes, s) + 4,
            ),
        ) + 4 <= slot_bytes
}

/// The packets that wait, in order.
pub open spec fn ring_queue(mem: Seq<u8>, capacity: u64, slot_bytes: u64) -> Seq<Seq<u8>> {
    let read = field(mem, 32, 40) as int;
    let write = field(mem, 24, 32) as int;
    Seq::new(
        (write - read) as nat,
        |i: int| slot_packet(mem, capacity, slot_bytes, read + i),
    )
}

/// A slot lies behind the header and inside the memory.
proof fn lemma_slot_inside(capacity: u64, slot_bytes: u64, seq: int)
    requires
        capacity >= 1,
        seq >= 0,
    ensures
        64 <= slot_start(capacity, slot_bytes, seq),
        slot_start(capacity, slot_bytes, seq) + slot_bytes <= 64 + capacity * slot_bytes,
{
    let c = capacity as int;
    let b = slot_bytes as int;
    let i = seq % c;
    assert(0 <= i < c);
    assert(0 <= i * b && i * b + b <= c * b) by (nonlinear_arith)
        requires
            0 <= i < c,
            b >= 0,
    ;
}

/// The slots of packets that wait at the same time do not overlap.
proof fn lemma_slots_apart(capacity: u64, slot_bytes: u64, a: int, b: int)
    requires
        capacity >= 1,
        0 <= a < b,
        b - a < capacity,
    ensures
        slot_start(capacity, slot_bytes, a) + slot_bytes <= slot_start(capacity, slot_bytes, b)
            || slot_start(capacity, slot_bytes, b) + slot_bytes <= slot_start(
            capacity,
            slot_bytes,
            a,
        ),
{
    let c = capacity as int;
    let w = slot_bytes as int;
    let i = a % c;
    let j = b % c;
    assert(i != j) by {
        if i == j {
            vstd::arithmetic::div_mod::lemma_fundamental_div_mod(a, c);
            vstd::arithmetic::div_mod::lemma_fundamental_div_mod(b, c);
            let p = a / c;
            let q = b / c;
            assert(b - a == c * (q - p)) by (nonlinear_arith)
                requires
                    a == c * p + i,
                    b == c * q + j,
                    i == j,
            ;
            assert(q - p <= 0 || c * (q - p) >= c) by (nonlinear_arith)
                requires
                    c >= 1,
            ;
            assert(q - p > 0 || c * (q - p) <= 0) by (nonlinear_arith)
                requires
                    c >= 1,
            ;
        }
    }
    if i < j {
        assert(i * w + w <= j * w) by (nonlinear_arith)
            requires
                i < j,
                w >= 0,
        ;
    } else {
        assert(j * w + w <= i * w) by (nonlinear_arith)
            requires
                j < i,
                w >= 0,
        ;
    }
}

/// What lies apart from a write is as it was.
proof fn lemma_spliced(mem: Seq<u8>, at: int, data: Seq<u8>, from: int, to: int)
    requires
        0 <= at,
        at + data.len() <= mem.len(),
        0 <= from <= to <= mem.len(),
        to <= at || at + data.len() <= from,
    ensures
        spliced(mem, at, data).len() == mem.len(),
        spliced(mem, at, data).subrange(from, to) == mem.subrange(from, to),
        spliced(mem, at, data).subrange(at, at + data.len() as int) == data,
{
    let now = spliced(mem, at, data);
    assert(now.subrange(from, to) =~= mem.subrange(from, to));
    assert(now.subrange(at, at + data.len() as int) =~= data);
}

/// Writes `data` at `at`.
fn write_at(mem: &mut Vec<u8>, at: usize, data: &[u8])
    requires
        at + data@.len() <= old(mem)@.len(),
    ensures
        final(mem)@ == spliced(old(mem)@, at as int, data@),
{
    let ghost before = mem@;
    let n: usize = data.len();
    let total: usize = mem.len();
    let mut i: usize = 0;
    while i < n
        invariant
            i <= n == data@.len(),
            at + n <= total == mem@.len() == before.len(),
            forall|k: int| 0 <= k < i ==> #[trigger] mem@[at + k] == data@[k],
            forall|k: int|
                0 <= k < before.len() && !(at <= k < at + i) ==> #[trigger] mem@[k] == before[k],
        decreases n - i,
    {
        mem.set(at + i, data[i]);
        i = i + 1;
    }
    proof {
        let now = spliced(before, at as int, data@);
        assert forall|k: int| 0 <= k < before.len() implies mem@[k] == now[k] by {
            if at <= k < at + n {
                assert(mem@[at + (k - at)] == data@[k - at]);
            }
        }
        assert(mem@ =~= now);
    }
}

/// Whether the ring has no slot left.
pub fn ring_is_full(write: u64, read: u64, capacity: u64) -> (r: bool)
    requires
        read <= write,
    ensures
        r == (write - read >= capacity),
{
    write - read >= capacity
}

/// Where the slot for `seq` starts.
pub fn slot_offset(capacity: u64, slot_bytes: u64, seq: u64) -> (r: usize)
    requires
        capacity >= 1,
        64 + capacity * slot_bytes <= usize::MAX,
    ensures
        r == slot_start(capacity, slot_bytes, seq as int),
{
    proof {
        lemma_slot_inside(capacity, slot_bytes, seq as int);
    }
    let index: u64 = seq % capacity;
    RING_HEADER_BYTES + (index * slot_bytes) as usize
}

pub struct ShmRing {
    mem: Vec<u8>,
    capacity: u64,
    slot_bytes: u64,
}

impl ShmRing {
    /// The memory is a ring.
    pub closed spec fn wf(&self) -> bool {
        is_ring(self.mem@, self.capacity, self.slot_bytes)
    }

    /// The packets that wait, in order.
    pub closed spec fn waiting(&self) -> Seq<Seq<u8>> {
        ring_queue(self.mem@, self.capacity, self.slot_bytes)
    }

    pub closed spec fn slots(&self) -> nat {
        self.capacity as nat
    }

    /// The largest packet that a slot holds.
    pub closed spec fn max_packet(&self) -> int {
        self.slot_bytes - 4
    }

    /// How many packets were ever published.
    pub closed spec fn published(&self) -> nat {
        field(self.mem@, 24, 32)
    }

    /// An empty ring of `capacity` slots for packets of up to `max_packet`
    /// bytes.
    pub fn create(capacity: u64, max_packet: u32) -> (r: Self)
        requires
            capacity >= 1,
            64 + capacity * (4 + max_packet) <= usize::MAX,
        ensures
            r.wf(),
            r.waiting() == Seq::<Seq<u8>>::empty(),
            r.slots() == capacity,
            r.max_packet() == max_packet,
            r.published() == 0,
    {
        let slot_bytes: u64 = 4 + max_packet as u64;
        let mut mem: Vec<u8> = Vec::new();
        put_le(&mut mem, RING_MAGIC as u128, 4);
        put_le(&mut mem, RING_VERSION as u128, 4);
        put_le(&mut mem, capacity as u128, 8);
        put_le(&mut mem, slot_bytes as u128, 8);
        put_le(&mut mem, 0, 8);
        put_le(&mut mem, 0, 8);
        let ghost head = mem@;
        let total: usize = RING_HEADER_BYTES + (capacity * slot_bytes) as usize;
        let mut i: usize = 40;
        while i < total
            invariant
                40 <= i <= total,
                mem@.len() == i,
                mem@.take(40) == head,
                head.len() == 40,
            decreases total - i,
        {
            mem.push(0);
            assert(mem@.take(40) =~= head);
            i = i + 1;
        }
        proof {
            crate::le::lemma_pow256_values();
            let m = mem@;
            assert(head =~= crate::le::le_bytes(RING_MAGIC as nat, 4) + crate::le::le_bytes(
                RING_VERSION as nat,
                4,
            ) + crate::le::le_bytes(capacity as nat, 8) + crate::le::le_bytes(
                slot_bytes as nat,
                8,
            ) + crate::le::le_bytes(0, 8) + crate::le::le_bytes(0, 8));
            assert forall|k: int| 0 <= k < 40 implies m[k] == head[k] by {
                assert(m.take(40)[k] == m[k]);
            }
            assert(m.subrange(0, 4) =~= crate::le::le_bytes(RING_MAGIC as nat, 4));
            assert(m.subrange(4, 8) =~= crate::le::le_bytes(RING_VERSION as nat, 4));
            assert(m.subrange(8, 16) =~= crate::le::le_bytes(capacity as nat, 8));
            assert(m.subrange(16, 24) =~= crate::le::le_bytes(slot_bytes as nat, 8));
            assert(m.subrange(24, 32) =~= crate::le::le_bytes(0, 8));
            assert(m.subrange(32, 40) =~= crate::le::le_bytes(0, 8));
            crate::le::law_le_value_of_bytes(RING_MAGIC as nat, 4);
            crate::le::law_le_value_of_bytes(RING_VERSION as nat, 4);
            crate::le::law_le_value_of_bytes(capacity as nat, 8);
            crate::le::law_le_value_of_bytes(slot_bytes as nat, 8);
            crate::le::law_le_value_of_bytes(0, 8);
            assert(ring_queue(m, capacity, slot_bytes) =~= Seq::<Seq<u8>>::empty());
        }
        ShmRing { mem, capacity, slot_bytes }
    }

    /// Reads the header of memory that a ring was made in: its capacity and
    /// slot size. Nothing where it is no ring.
    pub fn read_header(mem: &[u8]) -> (r: Option<(u64, u64)>)
        ensures
            match r {
                Some((capacity, slot_bytes)) => mem@.len() >= 64 && field(mem@, 0, 4) == RING_MAGIC
                    && capacity == field(mem@, 8, 16) && slot_bytes == field(mem@, 16, 24),
                None => mem@.len() < 64 || field(mem@, 0, 4) != RING_MAGIC,
            },
    {
        if mem.len() < RING_HEADER_BYTES {
            return None;
        }
        proof {
            crate::le::lemma_pow256_values();
            crate::le::lemma_le_value_bound(mem@.subrange(8, 16));
            crate::le::lemma_le_value_bound(mem@.subrange(16, 24));
        }
        if get_le(vstd::slice::slice_subrange(mem, 0, 4)) != RING_MAGIC as u128 {
            return None;
        }
        let capacity: u64 = get_le(vstd::slice::slice_subrange(mem, 8, 16)) as u64;
        let slot_bytes: u64 = get_le(vstd::slice::slice_subrange(mem, 16, 24)) as u64;
        Some((capacity, slot_bytes))
    }

    /// Publishes one packet. `false` (dropped) where the ring is full.
    pub fn publish(&mut self, packet: &[u8]) -> (r: bool)
        requires
            old(self).wf(),
            packet@.len() <= old(self).max_packet(),
            packet@.len() <= u32::MAX,
        ensures
            final(self).wf(),
            final(self).slots() == old(self).slots(),
            final(self).max_packet() == old(self).max_packet(),
            r == (old(self).waiting().len() < old(self).slots() && old(self).published()
                < u64::MAX),
            r ==> final(self).waiting() == old(self).waiting().push(packet@),
            r ==> final(self).published() == old(self).published() + 1,
            !r ==> *final(self) == *old(self),
    {
        proof {
            crate::le::lemma_pow256_values();
            crate::le::lemma_le_value_bound(self.mem@.subrange(24, 32));
            crate::le::lemma_le_value_bound(self.mem@.subrange(32, 40));
        }
        let ghost before = self.mem@;
        let capacity: u64 = self.capacity;
        let slot_bytes: u64 = self.slot_bytes;
        let total: usize = self.mem.len();
        assert(64 + capacity * slot_bytes <= total);
        let write: u64 = get_le(vstd::slice::slice_subrange(self.mem.as_slice(), 24, 32)) as u64;
        let read: u64 = get_le(vstd::slice::slice_subrange(self.mem.as_slice(), 32, 40)) as u64;
        if ring_is_full(write, read, capacity) || write == u64::MAX {
            return false;
        }
        let at: usize = slot_offset(capacity, slot_bytes, write);
        let len: usize = packet.len();
        let mut data: Vec<u8> = Vec::new();
        put_le(&mut data, len as u128, 4);
        let mut body: Vec<u8> = crate::paths::copy_bytes(packet);
        data.append(&mut body);
        assert(data@ =~= crate::le::le_bytes(packet@.len(), 4) + packet@);
        let mut cursor: Vec<u8> = Vec::new();
        put_le(&mut cursor, (write + 1) as u128, 8);
        assert(cursor@ =~= crate::le::le_bytes((write + 1) as nat, 8));
        proof {
            lemma_slot_inside(capacity, slot_bytes, write as int);
            lemma_published(before, capacity, slot_bytes, packet@);
        }
        write_at(&mut self.mem, at, data.as_slice());
        write_at(&mut self.mem, 24, cursor.as_slice());
        true
    }

    /// Takes the next packet out, cut to at most `limit` bytes. Nothing where
    /// the ring is empty.
    pub fn try_recv(&mut self, limit: usize) -> (r: Option<Vec<u8>>)
        requires
            old(self).wf(),
        ensures
            final(self).wf(),
            final(self).slots() == old(self).slots(),
            final(self).max_packet() == old(self).max_packet(),
            final(self).published() == old(self).published(),
            match r {
                None => old(self).waiting().len() == 0 && *final(self) == *old(self),
                Some(bytes) => {
                    let first = old(self).waiting()[0];
                    &&& old(self).waiting().len() > 0
                    &&& final(self).waiting() == old(self).waiting().skip(1)
                    &&& bytes@ == if first.len() <= limit {
                        first
                    } else {
                        first.take(limit as int)
                    }
                },
            },
    {
        proof {
            crate::le::lemma_pow256_values();
            crate::le::lemma_le_value_bound(self.mem@.subrange(24, 32));
            crate::le::lemma_le_value_bound(self.mem@.subrange(32, 40));
        }
        let ghost before = self.mem@;
        let capacity: u64 = self.capacity;
        let slot_bytes: u64 = self.slot_bytes;
        let total: usize = self.mem.len();
        assert(64 + capacity * slot_bytes <= total);
        let write: u64 = get_le(vstd::slice::slice_subrange(self.mem.as_slice(), 24, 32)) as u64;
        let read: u64 = get_le(vstd::slice::slice_subrange(self.mem.as_slice(), 32, 40)) as u64;
        if read == write {
            return None;
        }
        let at: usize = slot_offset(capacity, slot_bytes, read);
        proof {
            lemma_slot_inside(capacity, slot_bytes, read as int);
            crate::le::lemma_le_value_bound(before.subrange(at as int, at + 4));
            lemma_received(before, capacity, slot_bytes);
        }
        let len: usize = get_le(
            vstd::slice::slice_subrange(self.mem.as_slice(), at, at + 4),
        ) as usize;
        let n: usize = if len < limit {
            len
        } else {
            limit
        };
        let packet = vstd::slice::slice_subrange(self.mem.as_slice(), at + 4, at + 4 + n);
        let out = crate::paths::copy_bytes(packet);
        proof {
            let first = slot_packet(before, capacity, slot_bytes, read as int);
            assert(ring_queue(before, capacity, slot_bytes)[0] == first);
            assert(out@ =~= first.take(n as int));
            assert(first.take(first.len() as int) =~= first);
        }
        let mut cursor: Vec<u8> = Vec::new();
        put_le(&mut cursor, (read + 1) as u128, 8);
        assert(cursor@ =~= crate::le::le_bytes((read + 1) as nat, 8));
        write_at(&mut self.mem, 32, cursor.as_slice());
        Some(out)
    }
}

/// What a publish does to the memory.
proof fn lemma_published(mem: Seq<u8>, capacity: u64, slot_bytes: u64, packet: Seq<u8>)
    requires
        is_ring(mem, capacity, slot_bytes),
        field(mem, 24, 32) - field(mem, 32, 40) < capacity,
        field(mem, 24, 32) < u64::MAX,
        packet.len() + 4 <= slot_bytes,
        packet.len() <= u32::MAX,
    ensures
        ({
            let write = field(mem, 24, 32) as int;
            let at = slot_start(capacity, slot_bytes, write);
            let slot = crate::le::le_bytes(packet.len(), 4) + packet;
            let now = spliced(
                spliced(mem, at, slot),
                24,
                crate::le::le_bytes((write + 1) as nat, 8),
            );
            &&& is_ring(now, capacity, slot_bytes)
            &&& field(now, 24, 32) == write + 1
            &&& ring_queue(now, capacity, slot_bytes) == ring_queue(
                mem,
                capacity,
                slot_bytes,
            ).push(packet)
        }),
{
    let read = field(mem, 32, 40) as int;
    let write = field(mem, 24, 32) as int;
    let at = slot_start(capacity, slot_bytes, write);
    let slot = crate::le::le_bytes(packet.len(), 4) + packet;
    let mid = spliced(mem, at, slot);
    let cursor = crate::le::le_bytes((write + 1) as nat, 8);
    let now = spliced(mid, 24, cursor);
    crate::le::lemma_pow256_values();
    lemma_slot_inside(capacity, slot_bytes, write);
    lemma_spliced(mem, at, slot, 0, 4);
    lemma_spliced(mem, at, slot, 4, 8);
    lemma_spliced(mem, at, slot, 8, 16);
    lemma_spliced(mem, at, slot, 16, 24);
    lemma_spliced(mem, at, slot, 32, 40);
    lemma_spliced(mid, 24, cursor, 0, 4);
    lemma_spliced(mid, 24, cursor, 4, 8);
    lemma_spliced(mid, 24, cursor, 8, 16);
    lemma_spliced(mid, 24, cursor, 16, 24);
    lemma_spliced(mid, 24, cursor, 32, 40);
    crate::le::law_le_value_of_bytes((write + 1) as nat, 8);
    crate::le::law_le_value_of_bytes(packet.len(), 4);
    lemma_spliced(mid, 24, cursor, at, at + 4);
    assert(now.subrange(at, at + 4) =~= crate::le::le_bytes(packet.len(), 4)) by {
        assert(mid.subrange(at, at + 4) =~= slot.subrange(0, 4));
        assert(slot.subrange(0, 4) =~= crate::le::le_bytes(packet.len(), 4));
    }
    lemma_spliced(mid, 24, cursor, at + 4, at + 4 + packet.len() as int);
    assert(now.subrange(at + 4, at + 4 + packet.len() as int) =~= packet);
    assert forall|s: int| read <= s < write implies now.subrange(
        #[trigger] slot_start(capacity, slot_bytes, s),
        slot_start(capacity, slot_bytes, s) + 4,
    ) == mem.subrange(
        slot_start(capacity, slot_bytes, s),
        slot_start(capacity, slot_bytes, s) + 4,
    ) && slot_packet(now, capacity, slot_bytes, s) == slot_packet(
        mem,
        capacity,
        slot_bytes,
        s,
    ) by {
        let from = slot_start(capacity, slot_bytes, s);
        lemma_slot_inside(capacity, slot_bytes, s);
        lemma_slots_apart(capacity, slot_bytes, s, write);
        lemma_spliced(mem, at, slot, from, from + 4);
        lemma_spliced(mid, 24, cursor, from, from + 4);
        let len = crate::le::le_value(mem.subrange(from, from + 4)) as int;
        lemma_spliced(mem, at, slot, from + 4, from + 4 + len);
        lemma_spliced(mid, 24, cursor, from + 4, from + 4 + len);
    }
    let was = ring_queue(mem, capacity, slot_bytes);
    let queue = ring_queue(now, capacity, slot_bytes);
    assert forall|i: int| 0 <= i < queue.len() implies queue[i] == was.push(packet)[i] by {
        let s = read + i;
        assert(slot_start(capacity, slot_bytes, s) >= 0);
    }
    assert(queue =~= was.push(packet));
    assert forall|s: int| read <= s < write + 1 implies crate::le::le_value(
        now.subrange(
            #[trigger] slot_start(capacity, slot_bytes, s),
            slot_start(capacity, slot_bytes, s) + 4,
        ),
    ) + 4 <= slot_bytes by {}
}

/// What taking a packet out does to the memory.
proof fn lemma_received(mem: Seq<u8>, capacity: u64, slot_bytes: u64)
    requires
        is_ring(mem, capacity, slot_bytes),
        field(mem, 32, 40) < field(mem, 24, 32),
    ensures
        ({
            let read = field(mem, 32, 40) as int;
            let now = spliced(mem, 32, crate::le::le_bytes((read + 1) as nat, 8));
            &&& is_ring(now, capacity, slot_bytes)
            &&& field(now, 24, 32) == field(mem, 24, 32)
            &&& ring_queue(now, capacity, slot_bytes) == ring_queue(
                mem,
                capacity,
                slot_bytes,
            ).skip(1)
        }),
{
    let read = field(mem, 32, 40) as int;
    let write = field(mem, 24, 32) as int;
    let cursor = crate::le::le_bytes((read + 1) as nat, 8);
    let now = spliced(mem, 32, cursor);
    crate::le::lemma_pow256_values();
    lemma_slot_inside(capacity, slot_bytes, read);
    crate::le::law_le_value_of_bytes((read + 1) as nat, 8);
    lemma_spliced(mem, 32, cursor, 0, 4);
    lemma_spliced(mem, 32, cursor, 4, 8);
    lemma_spliced(mem, 32, cursor, 8, 16);
    lemma_spliced(mem, 32, cursor, 16, 24);
    lemma_spliced(mem, 32, cursor, 24, 32);
    assert forall|s: int| read <= s < write implies now.subrange(
        #[trigger] slot_start(capacity, slot_bytes, s),
        slot_start(capacity, slot_bytes, s) + 4,
    ) == mem.subrange(
        slot_start(capacity, slot_bytes, s),
        slot_start(capacity, slot_bytes, s) + 4,
    ) && slot_packet(now, capacity, slot_bytes, s) == slot_packet(
        mem,
        capacity,
        slot_bytes,
        s,
    ) by {
        let from = slot_start(capacity, slot_bytes, s);
        lemma_slot_inside(capacity, slot_bytes, s);
        lemma_spliced(mem, 32, cursor, from, from + 4);
        let len = crate::le::le_value(mem.subrange(from, from + 4)) as int;
        lemma_spliced(mem, 32, cursor, from + 4, from + 4 + len);
    }
    let was = ring_queue(mem, capacity, slot_bytes);
    let queue = ring_queue(now, capacity, slot_bytes);
    assert forall|i: int| 0 <= i < queue.len() implies queue[i] == was.skip(1)[i] by {
        let s = read + 1 + i;
        assert(slot_start(capacity, slot_bytes, s) >= 0);
    }
    assert(queue =~= was.skip(1));
}

/// Publishes a packet for callers that want to notice drops: `false` where the
/// ring is full.
pub fn publish_or_drop(ring: &mut ShmRing, packet: &[u8]) -> (r: Result<bool, TransportError>)
    requires
        old(ring).wf(),
        packet@.len() <= old(ring).max_packet(),
        packet@.len() <= u32::MAX,
    ensures
        final(ring).wf(),
        final(ring).slots() == old(ring).slots(),
        final(ring).max_packet() == old(ring).max_packet(),
        r == Ok::<bool, TransportError>(
            old(ring).waiting().len() < old(ring).slots() && old(ring).published() < u64::MAX,
        ),
        r == Ok::<bool, TransportError>(true) ==> final(ring).waiting() == old(ring).waiting().push(
            packet@,
        ) && final(ring).published() == old(ring).published() + 1,
        r == Ok::<bool, TransportError>(false) ==> *final(ring) == *old(ring),
{
    Ok(ring.publish(packet))
}

/// Packets in the ring at one time lie apart: the slots of seqs less than
/// `capacity` away from each other do not overlap, they lie behind the header and
/// inside the memory, and the slot of a seq is used again `capacity` later.
pub proof fn law_slots_lie_apart(capacity: u64, slot_bytes: u64, a: int, b: int)
    requires
        capacity >= 1,
        slot_bytes >= 4,
        0 <= a < b < a + capacity,
    ensures
        ({
            let x = slot_start(capacity, slot_bytes, a);
            let y = slot_start(capacity, slot_bytes, b);
            &&& x + slot_bytes <= y || y + slot_bytes <= x
            &&& 64 <= x && x + slot_bytes <= 64 + capacity * slot_bytes
            &&& a < capacity ==> x == 64 + a * slot_bytes
            &&& slot_start(capacity, slot_bytes, a + capacity) == x
        }),
{
    lemma_slots_apart(capacity, slot_bytes, a, b);
    lemma_slot_inside(capacity, slot_bytes, a);
    let c = capacity as int;
    assert((a + c) % c == a % c) by (nonlinear_arith)
        requires
            c >= 1,
            a >= 0,
    ;
    if a < capacity {
        assert(a % c == a) by (nonlinear_arith)
            requires
                0 <= a < c,
        ;
    }
}

/// What memory that is a ring tells of itself: its header, and how many packets
/// wait.
pub proof fn law_ring_header_layout(mem: Seq<u8>, capacity: u64, slot_bytes: u64)
    requires
        is_ring(mem, capacity, slot_bytes),
    ensures
        mem.len() == 64 + capacity * slot_bytes,
        mem.take(4) == seq![0x54u8, 0x4Bu8, 0x53u8, 0x4Du8],
        mem.subrange(4, 8) == crate::le::le_bytes(1, 4),
        mem.subrange(8, 16) == crate::le::le_bytes(capacity as nat, 8),
        mem.subrange(16, 24) == crate::le::le_bytes(slot_bytes as nat, 8),
        ring_queue(mem, capacity, slot_bytes).len() == crate::le::le_value(mem.subrange(24, 32))
            - crate::le::le_value(mem.subrange(32, 40)),
        ring_queue(mem, capacity, slot_bytes).len() <= capacity,
{
    assert(mem.len() >= 64) by (nonlinear_arith)
        requires
            mem.len() == 64 + capacity * slot_bytes,
            capacity >= 1,
            slot_bytes >= 4,
    ;
    crate::le::law_le_bytes_of_value(mem.subrange(0, 4));
    crate::le::law_le_bytes_of_value(mem.subrange(4, 8));
    crate::le::law_le_bytes_of_value(mem.subrange(8, 16));
    crate::le::law_le_bytes_of_value(mem.subrange(16, 24));
    let magic = crate::le::le_bytes(0x4D53_4B54, 4);
    assert(magic =~= seq![0x54u8, 0x4Bu8, 0x53u8, 0x4Du8]) by {
        reveal_with_fuel(crate::le::le_bytes, 5);
    }
    assert(mem.take(4) =~= mem.subrange(0, 4));
}

} // verus!
