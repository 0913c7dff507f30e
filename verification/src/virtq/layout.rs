//! The split virtqueue memory layout of VIRTIO 1.2, chapter 2.7.
//!
//! A virtqueue is an agreement about the meaning of bytes at three addresses in shared memory, plus
//! two doorbells. Nothing in this file owns anything; it computes where each field lives.
//!
//! ```text
//!   descriptor table            avail ring (driver -> device)      used ring (device -> driver)
//!   16 bytes x queue_size       written by the driver              written by the device
//!
//!   +---------------------+     +---------------------+            +---------------------+
//! 0 | addr len flags next |     | flags               | +0         | flags               | +0
//!   +---------------------+     | idx                 | +2         | idx                 | +2
//! 1 | addr len flags next |     +---------------------+            +---------------------+
//!   +---------------------+     | ring[0]  (le16)     | +4         | ring[0].id   (le32) | +4
//! 2 | addr len flags next |     | ring[1]             | +6         | ring[0].len  (le32) | +8
//!   +---------------------+     | ...                 |            | ring[1].id          | +12
//!   | ...                 |     | ring[qsize-1]       |            | ...                 |
//!   +---------------------+     +---------------------+            +---------------------+
//!   | addr len flags next |     | used_event   (le16) |            | avail_event  (le16) |
//!   +---------------------+     +---------------------+            +---------------------+
//! ```
//!
//! `avail.idx` and `used.idx` are free-running 16-bit counters that are never reset. They count
//! entries ever published and wrap at 65,536; the ring slot for entry `i` is
//! `ring[i % queue_size]`. A consumer knows how much work is outstanding by subtracting its own
//! position from the published index in wrapping arithmetic.
//!
//! Indirect descriptors and packed virtqueues are not implemented.

use crate::virtq::mem::{apart, fits, GuestAddr};
use vstd::prelude::*;

verus! {

/// Size of one descriptor: `le64 addr, le32 len, le16 flags, le16 next`.
pub const DESC_SIZE: u64 = 16;

/// This descriptor is not the last in its chain; `next` names the following one.
pub const VIRTQ_DESC_F_NEXT: u16 = 1;

/// The buffer is device-writable. Absent, it is device-readable.
pub const VIRTQ_DESC_F_WRITE: u16 = 2;

/// The buffer contains a table of descriptors rather than data. Not implemented here.
pub const VIRTQ_DESC_F_INDIRECT: u16 = 4;

/// In `used.flags`, set by the device: "driver, do not notify me".
pub const VIRTQ_USED_F_NO_NOTIFY: u16 = 1;

/// In `avail.flags`, set by the driver: "device, do not interrupt me".
pub const VIRTQ_AVAIL_F_NO_INTERRUPT: u16 = 1;

/// Alignment of the descriptor table.
pub const DESC_ALIGN: u64 = 16;

/// Alignment of the avail ring.
pub const AVAIL_ALIGN: u64 = 2;

/// Alignment of the used ring.
pub const USED_ALIGN: u64 = 4;

/// One entry in the descriptor table, as the driver wrote it. Every field is guest-controlled.
#[derive(Debug, Clone, Copy, PartialEq, Eq, Structural)]
pub struct Descriptor {
    pub addr: u64,
    pub len: u32,
    pub flags: u16,
    pub next: u16,
}

impl Descriptor {
    /// Another descriptor follows.
    pub open spec fn chained(self) -> bool {
        self.flags & VIRTQ_DESC_F_NEXT != 0
    }

    /// The device may write the buffer.
    pub open spec fn writable(self) -> bool {
        self.flags & VIRTQ_DESC_F_WRITE != 0
    }

    /// The buffer is a table of descriptors.
    pub open spec fn indirect(self) -> bool {
        self.flags & VIRTQ_DESC_F_INDIRECT != 0
    }

    pub fn has_next(&self) -> (r: bool)
        ensures
            r == self.chained(),
    {
        self.flags & VIRTQ_DESC_F_NEXT != 0
    }

    pub fn is_write_only(&self) -> (r: bool)
        ensures
            r == self.writable(),
    {
        self.flags & VIRTQ_DESC_F_WRITE != 0
    }

    pub fn is_indirect(&self) -> (r: bool)
        ensures
            r == self.indirect(),
    {
        self.flags & VIRTQ_DESC_F_INDIRECT != 0
    }
}

/// Where each part of a split virtqueue lives in shared memory.
#[derive(Debug, Clone, Copy, PartialEq, Eq, Structural)]
pub struct VirtqLayout {
    pub queue_size: u16,
    pub desc_table: GuestAddr,
    pub avail_ring: GuestAddr,
    pub used_ring: GuestAddr,
}

/// The least multiple of `align` that is not below `v`.
pub open spec fn least_multiple(v: int, align: int) -> int {
    (v + align - 1) / align * align
}

/// `least_multiple` is what its name says: a multiple, not below `v`, by less than one step.
pub proof fn lemma_least_multiple(v: int, align: int)
    requires
        align > 0,
    ensures
        least_multiple(v, align) % align == 0,
        v <= least_multiple(v, align) < v + align,
{
    let q = (v + align - 1) / align;
    vstd::arithmetic::div_mod::lemma_fundamental_div_mod(v + align - 1, align);
    vstd::arithmetic::div_mod::lemma_mod_bound(v + align - 1, align);
    vstd::arithmetic::div_mod::lemma_mod_multiples_basic(q, align);
    assert(q * align == align * q) by (nonlinear_arith);
}

/// `n` is a power of two.
pub open spec fn is_power_of_two(n: int) -> bool {
    exists|k: nat| #[trigger] vstd::arithmetic::power2::pow2(k) == n
}

/// Where a 16-bit counter stands that has counted `x` in all.
pub open spec fn wrap(x: int) -> int {
    x % 0x1_0000
}

pub(crate) fn align_up(v: u64, align: u64) -> (r: u64)
    requires
        align > 0,
        least_multiple(v as int, align as int) <= u64::MAX,
    ensures
        r == least_multiple(v as int, align as int),
{
    proof {
        lemma_least_multiple(v as int, align as int);
        vstd::arithmetic::div_mod::lemma_fundamental_div_mod(v as int, align as int);
        vstd::arithmetic::div_mod::lemma_mod_bound(v as int, align as int);
    }
    let r: u64 = v % align;
    if r == 0 {
        proof {
            let q = v as int / align as int;
            assert(v + align - 1 == q * align + (align - 1)) by (nonlinear_arith)
                requires
                    v == align * q,
            ;
            vstd::arithmetic::div_mod::lemma_fundamental_div_mod_converse(
                v + align - 1,
                align as int,
                q,
                align - 1,
            );
            assert(q * align == align * q) by (nonlinear_arith);
        }
        v
    } else {
        proof {
            let q = v as int / align as int;
            assert(v + align - 1 == (q + 1) * align + (r - 1)) by (nonlinear_arith)
                requires
                    v == align * q + r,
            ;
            vstd::arithmetic::div_mod::lemma_fundamental_div_mod_converse(
                v + align - 1,
                align as int,
                q + 1,
                r - 1,
            );
            assert((q + 1) * align == align * q + align) by (nonlinear_arith);
        }
        v + (align - r)
    }
}

impl VirtqLayout {
    /// Address of the first descriptor of a queue laid out from `base` on.
    pub open spec fn desc_table_from(base: int) -> int {
        least_multiple(base, DESC_ALIGN as int)
    }

    /// Address of the avail ring of a queue of `size` entries laid out from `base` on.
    pub open spec fn avail_ring_from(base: int, size: int) -> int {
        least_multiple(Self::desc_table_from(base) + DESC_SIZE * size, AVAIL_ALIGN as int)
    }

    /// Address of the used ring of a queue of `size` entries laid out from `base` on: behind the
    /// avail ring's flags, index, `size` slots and event field.
    pub open spec fn used_ring_from(base: int, size: int) -> int {
        least_multiple(Self::avail_ring_from(base, size) + 4 + 2 * size + 2, USED_ALIGN as int)
    }

    /// The descriptor table lies below 2^64.
    pub open spec fn desc_addressable(self) -> bool {
        self.desc_table.0 + DESC_SIZE * self.queue_size <= u64::MAX
    }

    /// The avail ring has slots and lies below 2^64, up to and with its event field.
    pub open spec fn avail_addressable(self) -> bool {
        self.queue_size > 0 && self.avail_ring.0 + 4 + 2 * self.queue_size <= u64::MAX
    }

    /// The used ring has slots and lies below 2^64, up to and with its event field.
    pub open spec fn used_addressable(self) -> bool {
        self.queue_size > 0 && self.used_ring.0 + 4 + 8 * self.queue_size <= u64::MAX
    }

    /// Every field of the queue has a 64-bit address.
    pub open spec fn addressable(self) -> bool {
        self.desc_addressable() && self.avail_addressable() && self.used_addressable()
    }

    /// Address of descriptor `i`.
    pub open spec fn desc_addr(self, i: int) -> int {
        self.desc_table.0 + i * DESC_SIZE
    }

    /// Address of the avail ring slot of the entry that was published when the counter stood at
    /// `i`.
    pub open spec fn avail_slot_addr(self, i: int) -> int {
        self.avail_ring.0 + 4 + (i % self.queue_size as int) * 2
    }

    /// Address of the used ring element of the completion that was published when the counter
    /// stood at `i`.
    pub open spec fn used_elem_addr(self, i: int) -> int {
        self.used_ring.0 + 4 + (i % self.queue_size as int) * 8
    }

    /// Address of the avail ring's event field.
    pub open spec fn used_event_addr(self) -> int {
        self.avail_ring.0 + 4 + 2 * self.queue_size
    }

    /// Address of the used ring's event field.
    pub open spec fn avail_event_addr(self) -> int {
        self.used_ring.0 + 4 + 8 * self.queue_size
    }

    /// Bytes of the descriptor table.
    pub open spec fn desc_bytes(self) -> nat {
        (DESC_SIZE * self.queue_size) as nat
    }

    /// Bytes of the avail ring: flags, index, slots and event field.
    pub open spec fn avail_bytes(self) -> nat {
        (4 + 2 * self.queue_size + 2) as nat
    }

    /// Bytes of the used ring: flags, index, elements and event field.
    pub open spec fn used_bytes(self) -> nat {
        (4 + 8 * self.queue_size + 2) as nat
    }

    /// No two of the three parts share a byte.
    pub open spec fn parts_apart(self) -> bool {
        &&& apart(
            self.desc_table.0 as int,
            self.desc_bytes(),
            self.avail_ring.0 as int,
            self.avail_bytes(),
        )
        &&& apart(
            self.desc_table.0 as int,
            self.desc_bytes(),
            self.used_ring.0 as int,
            self.used_bytes(),
        )
        &&& apart(
            self.avail_ring.0 as int,
            self.avail_bytes(),
            self.used_ring.0 as int,
            self.used_bytes(),
        )
    }

    /// All three parts lie inside a region of `region_len` bytes.
    pub open spec fn inside(self, region_len: nat) -> bool {
        &&& fits(region_len, self.desc_table.0 as int, self.desc_bytes())
        &&& fits(region_len, self.avail_ring.0 as int, self.avail_bytes())
        &&& fits(region_len, self.used_ring.0 as int, self.used_bytes())
    }

    /// Lay out a queue of `queue_size` entries starting at `base`, each part at the first address
    /// behind the previous one that its alignment allows.
    ///
    /// The size is a power of two in `1..=32768`. With such a size a 16-bit counter wrapping at
    /// 65,536 lands exactly on a ring boundary, so the slot mapping stays consistent across the
    /// wrap.
    pub fn new(base: GuestAddr, queue_size: u16) -> (r: Self)
        requires
            is_power_of_two(queue_size as int),
            queue_size <= 32768,
            Self::used_ring_from(base.0 as int, queue_size as int) <= u64::MAX,
        ensures
            r.queue_size == queue_size,
            r.desc_table.0 == Self::desc_table_from(base.0 as int),
            r.avail_ring.0 == Self::avail_ring_from(base.0 as int, queue_size as int),
            r.used_ring.0 == Self::used_ring_from(base.0 as int, queue_size as int),
    {
        let qs: u64 = queue_size as u64;
        proof {
            let d = Self::desc_table_from(base.0 as int);
            let a = Self::avail_ring_from(base.0 as int, queue_size as int);
            lemma_least_multiple(base.0 as int, 16);
            lemma_least_multiple(d + 16 * qs, 2);
            lemma_least_multiple(a + 4 + 2 * qs + 2, 4);
        }
        let desc_table: u64 = align_up(base.0, DESC_ALIGN);
        let avail_ring: u64 = align_up(desc_table + DESC_SIZE * qs, AVAIL_ALIGN);
        let used_ring: u64 = align_up(avail_ring + 4 + 2 * qs + 2, USED_ALIGN);

        VirtqLayout {
            queue_size,
            desc_table: GuestAddr(desc_table),
            avail_ring: GuestAddr(avail_ring),
            used_ring: GuestAddr(used_ring),
        }
    }

    /// Total bytes occupied, from the descriptor table to the end of the used ring.
    pub fn total_size(&self) -> (r: u64)
        requires
            self.used_ring.0 + self.used_bytes() <= u64::MAX,
            self.desc_table.0 <= self.used_ring.0 + self.used_bytes(),
        ensures
            r == self.used_ring.0 + self.used_bytes() - self.desc_table.0,
    {
        let qs: u64 = self.queue_size as u64;
        (self.used_ring.0 + 4 + 8 * qs + 2) - self.desc_table.0
    }

    /// The first address behind the queue.
    pub fn end(&self) -> (r: GuestAddr)
        requires
            self.used_ring.0 + self.used_bytes() <= u64::MAX,
            self.desc_table.0 <= self.used_ring.0 + self.used_bytes(),
        ensures
            r.0 == self.used_ring.0 + self.used_bytes(),
    {
        GuestAddr(self.desc_table.0 + self.total_size())
    }

    /// Address of descriptor `index`, or `None` if the table has no such entry: the driver
    /// supplied a bad index.
    pub fn desc(&self, index: u16) -> (r: Option<GuestAddr>)
        requires
            index < self.queue_size ==> self.desc_addr(index as int) <= u64::MAX,
        ensures
            r is Some <==> index < self.queue_size,
            r matches Some(a) ==> a.0 == self.desc_addr(index as int),
    {
        if index >= self.queue_size {
            return None;
        }
        Some(GuestAddr(self.desc_table.0 + index as u64 * DESC_SIZE))
    }

    pub fn avail_flags(&self) -> (r: GuestAddr)
        ensures
            r == self.avail_ring,
    {
        self.avail_ring
    }

    pub fn avail_idx(&self) -> (r: GuestAddr)
        requires
            self.avail_ring.0 + 2 <= u64::MAX,
        ensures
            r.0 == self.avail_ring.0 + 2,
    {
        GuestAddr(self.avail_ring.0 + 2)
    }

    /// Slot for the `i`-th entry ever published. `i` is a free-running counter, the slot is not.
    pub fn avail_slot(&self, i: u16) -> (r: GuestAddr)
        requires
            self.queue_size > 0,
            self.avail_slot_addr(i as int) <= u64::MAX,
        ensures
            r.0 == self.avail_slot_addr(i as int),
    {
        GuestAddr(self.avail_ring.0 + 4 + (i % self.queue_size) as u64 * 2)
    }

    /// `used_event`: written by the driver, read by the device. "Do not interrupt me until
    /// `used.idx` reaches this value plus one."
    pub fn used_event(&self) -> (r: GuestAddr)
        requires
            self.used_event_addr() <= u64::MAX,
        ensures
            r.0 == self.used_event_addr(),
    {
        GuestAddr(self.avail_ring.0 + 4 + self.queue_size as u64 * 2)
    }

    pub fn used_flags(&self) -> (r: GuestAddr)
        ensures
            r == self.used_ring,
    {
        self.used_ring
    }

    pub fn used_idx(&self) -> (r: GuestAddr)
        requires
            self.used_ring.0 + 2 <= u64::MAX,
        ensures
            r.0 == self.used_ring.0 + 2,
    {
        GuestAddr(self.used_ring.0 + 2)
    }

    /// Addresses of `id` and `len` for the `i`-th completion ever published.
    pub fn used_slot(&self, i: u16) -> (r: (GuestAddr, GuestAddr))
        requires
            self.queue_size > 0,
            self.used_elem_addr(i as int) + 4 <= u64::MAX,
        ensures
            r.0.0 == self.used_elem_addr(i as int),
            r.1.0 == self.used_elem_addr(i as int) + 4,
    {
        let base: u64 = self.used_ring.0 + 4 + (i % self.queue_size) as u64 * 8;
        (GuestAddr(base), GuestAddr(base + 4))
    }

    /// `avail_event`: written by the device, read by the driver. "Do not notify me until
    /// `avail.idx` reaches this value plus one."
    pub fn avail_event(&self) -> (r: GuestAddr)
        requires
            self.avail_event_addr() <= u64::MAX,
        ensures
            r.0 == self.avail_event_addr(),
    {
        GuestAddr(self.used_ring.0 + 4 + self.queue_size as u64 * 8)
    }
}

/// The notification-suppression predicate, shared by both directions.
///
/// Has the counter crossed `event + 1` since the last check? `old` is where the counter stood at
/// the previous check, `new` is where it stands now, and `event` is the value the other side asked
/// to be told about. The subtractions turn positions into distances, which stay meaningful across a
/// wrap of the counters.
pub open spec fn crossed(event: u16, new: u16, old: u16) -> bool {
    wrap(new - event - 1) < wrap(new - old)
}

pub fn need_event(event: u16, new: u16, old: u16) -> (r: bool)
    ensures
        r == crossed(event, new, old),
{
    new.wrapping_sub(event).wrapping_sub(1) < new.wrapping_sub(old)
}

/// A layout made by `new` meets the alignment of each part, keeps the parts apart and in order, and
/// starts less than one descriptor behind `base`.
pub proof fn law_layout_parts(base: int, size: u16, l: VirtqLayout)
    requires
        base >= 0,
        l.queue_size == size,
        l.desc_table.0 == VirtqLayout::desc_table_from(base),
        l.avail_ring.0 == VirtqLayout::avail_ring_from(base, size as int),
        l.used_ring.0 == VirtqLayout::used_ring_from(base, size as int),
    ensures
        l.desc_table.0 as int % DESC_ALIGN as int == 0,
        l.avail_ring.0 as int % AVAIL_ALIGN as int == 0,
        l.used_ring.0 as int % USED_ALIGN as int == 0,
        base <= l.desc_table.0 < base + DESC_ALIGN,
        l.desc_table.0 + l.desc_bytes() <= l.avail_ring.0,
        l.avail_ring.0 + l.avail_bytes() <= l.used_ring.0,
        l.parts_apart(),
{
    let d = VirtqLayout::desc_table_from(base);
    let a = VirtqLayout::avail_ring_from(base, size as int);
    lemma_least_multiple(base, 16);
    lemma_least_multiple(d + 16 * size, 2);
    lemma_least_multiple(a + 4 + 2 * size + 2, 4);
}

/// Every field of a queue lies in its own part: descriptors in the table, slots and event field in
/// the avail ring, elements and event field in the used ring.
pub proof fn law_fields_inside_parts(l: VirtqLayout, i: int)
    requires
        l.queue_size > 0,
        0 <= i,
    ensures
        i < l.queue_size ==> l.desc_table.0 <= l.desc_addr(i) && l.desc_addr(i) + DESC_SIZE
            <= l.desc_table.0 + l.desc_bytes(),
        l.avail_ring.0 + 4 <= l.avail_slot_addr(i) && l.avail_slot_addr(i) + 2
            <= l.used_event_addr(),
        l.used_event_addr() + 2 == l.avail_ring.0 + l.avail_bytes(),
        l.used_ring.0 + 4 <= l.used_elem_addr(i) && l.used_elem_addr(i) + 8 <= l.avail_event_addr(),
        l.avail_event_addr() + 2 == l.used_ring.0 + l.used_bytes(),
{
    vstd::arithmetic::div_mod::lemma_mod_bound(i, l.queue_size as int);
}

/// Slots repeat with the queue size, and two entries less than a queue apart have different slots.
pub proof fn law_slots_cycle(l: VirtqLayout, i: int, n: int)
    requires
        l.queue_size > 0,
        0 <= i,
        0 <= n <= l.queue_size,
    ensures
        l.avail_slot_addr(i + l.queue_size) == l.avail_slot_addr(i),
        l.used_elem_addr(i + l.queue_size) == l.used_elem_addr(i),
        0 < n < l.queue_size ==> l.avail_slot_addr(i + n) != l.avail_slot_addr(i),
        0 < n < l.queue_size ==> l.used_elem_addr(i + n) != l.used_elem_addr(i),
{
    let q = l.queue_size as int;
    vstd::arithmetic::div_mod::lemma_mod_add_multiples_vanish(i, q);
    if 0 < n < q {
        lemma_mod_differs(i, n, q);
    }
}

/// Counters less than `q` apart have different remainders.
pub proof fn lemma_mod_differs(i: int, n: int, q: int)
    requires
        0 < n < q,
    ensures
        (i + n) % q != i % q,
{
    if (i + n) % q == i % q {
        vstd::arithmetic::div_mod::lemma_mod_equivalence(i + n, i, q);
        vstd::arithmetic::div_mod::lemma_small_mod(n as nat, q as nat);
    }
}

/// A power of two up to 65,536 divides 65,536.
pub proof fn lemma_power_of_two_divides(q: int)
    requires
        is_power_of_two(q),
        q <= 0x1_0000,
    ensures
        q > 0,
        0x1_0000int % q == 0,
{
    let k = choose|k: nat| #[trigger] vstd::arithmetic::power2::pow2(k) == q;
    vstd::arithmetic::power2::lemma2_to64();
    vstd::arithmetic::power2::lemma_pow2_pos(k);
    if k > 16 {
        vstd::arithmetic::power2::lemma_pow2_strictly_increases(16, k);
    }
    let rest = vstd::arithmetic::power2::pow2((16 - k) as nat);
    vstd::arithmetic::power2::lemma_pow2_adds(k, (16 - k) as nat);
    assert(0x1_0000 == rest * q) by (nonlinear_arith)
        requires
            0x1_0000 == q * rest,
    ;
    vstd::arithmetic::div_mod::lemma_mod_multiples_basic(rest as int, q);
}

/// The slot mapping survives the wrap of the 16-bit counter: with a power-of-two size, the slot of
/// the wrapped counter is the slot of the count that never wraps.
pub proof fn law_slots_survive_the_wrap(l: VirtqLayout, count: int)
    requires
        is_power_of_two(l.queue_size as int),
        0 <= count,
    ensures
        l.avail_slot_addr(wrap(count)) == l.avail_slot_addr(count),
        l.used_elem_addr(wrap(count)) == l.used_elem_addr(count),
{
    lemma_wrap_keeps_slot(l.queue_size as int, count);
}

/// Wrapping at 65,536 keeps the remainder by a power of two up to 65,536.
pub proof fn lemma_wrap_keeps_slot(q: int, count: int)
    requires
        is_power_of_two(q),
        q <= 0x1_0000,
    ensures
        wrap(count) % q == count % q,
{
    lemma_power_of_two_divides(q);
    let m = 0x1_0000int / q;
    vstd::arithmetic::div_mod::lemma_fundamental_div_mod(0x1_0000, q);
    assert(q * m == 0x1_0000);
    assert(m > 0) by (nonlinear_arith)
        requires
            q * m == 0x1_0000,
            q > 0,
    ;
    vstd::arithmetic::div_mod::lemma_mod_mod(count, q, m);
}

/// Wrapping within two turns of zero, without a remainder.
pub proof fn lemma_wrap_near(x: int)
    requires
        -0x2_0000 <= x < 0x2_0000,
    ensures
        wrap(x) == if x < -0x1_0000 {
            x + 0x2_0000
        } else if x < 0 {
            x + 0x1_0000
        } else if x < 0x1_0000 {
            x
        } else {
            x - 0x1_0000
        },
{
}

/// `k` steps on from `old` the counter stands at `event + 1`.
pub open spec fn hits(old: u16, k: int, event: u16) -> bool {
    wrap(old + k) == wrap(event + 1)
}

/// The predicate fires exactly where one of the steps from `old` to `new` lands on `event + 1`.
pub proof fn law_event_fires_on_crossing(event: u16, new: u16, old: u16)
    ensures
        crossed(event, new, old) <==> exists|k: int|
            1 <= k <= wrap(new - old) && #[trigger] hits(old, k, event),
{
    let d = wrap(new - old);
    let back = wrap(new - event - 1);
    lemma_wrap_near(new - old);
    lemma_wrap_near(new - event - 1);
    lemma_wrap_near(event + 1);
    if crossed(event, new, old) {
        lemma_wrap_near(old + (d - back));
        assert(hits(old, d - back, event));
    }
    if exists|k: int| 1 <= k <= d && #[trigger] hits(old, k, event) {
        let k = choose|k: int| 1 <= k <= d && #[trigger] hits(old, k, event);
        lemma_wrap_near(old + k);
        assert(back == d - k);
    }
}

/// Splitting a stretch into two checks loses no notification and doubles none: as long as the whole
/// stretch is shorter than a full turn of the counter, exactly one of the two checks fires where
/// the single check would, and none where it would not.
pub proof fn law_event_fires_once(event: u16, old: u16, mid: u16, new: u16)
    requires
        wrap(mid - old) + wrap(new - mid) < 0x1_0000,
    ensures
        crossed(event, new, old) <==> (crossed(event, mid, old) || crossed(event, new, mid)),
        !(crossed(event, mid, old) && crossed(event, new, mid)),
{
    lemma_wrap_near(mid - old);
    lemma_wrap_near(new - mid);
    lemma_wrap_near(new - old);
    lemma_wrap_near(new - event - 1);
    lemma_wrap_near(mid - event - 1);
}

/// With nothing new there is nothing to tell.
pub proof fn law_no_progress_no_event(event: u16, at: u16)
    ensures
        !crossed(event, at, at),
{
    lemma_wrap_near(0);
}

/// Counting one more is counting on from where the counter stands.
pub proof fn lemma_wrap_steps(from: int, n: int)
    ensures
        wrap(wrap(from + n) + 1) == wrap(from + (n + 1)),
{
}

/// Wrapping both ends of a distance changes it by full turns only.
proof fn lemma_wrap_distance(a: int, b: int, c: int)
    ensures
        wrap(wrap(a) - wrap(b) - c) == wrap(a - b - c),
{
    let turns = b / 0x1_0000 - a / 0x1_0000;
    assert(wrap(a) - wrap(b) - c == 0x1_0000 * turns + (a - b - c));
    vstd::arithmetic::div_mod::lemma_mod_multiples_vanish(turns, a - b - c, 0x1_0000);
}

/// The predicate is about distances only: shifting all three counters by the same amount, across
/// the wrap or not, changes nothing.
pub proof fn law_event_shifts(event: u16, new: u16, old: u16, by: int)
    ensures
        crossed(
            wrap(event + by) as u16,
            wrap(new + by) as u16,
            wrap(old + by) as u16,
        ) == crossed(event, new, old),
{
    lemma_wrap_distance(new + by, event + by, 1);
    lemma_wrap_distance(new + by, old + by, 0);
}

/// One notification per batch. The consumer armed the event field with the counter's value `at`:
/// the first check after `batch` entries fires, and no later check fires until the field is armed
/// again, however the entries that follow are grouped, for less than a full turn of the counter.
pub proof fn law_one_event_per_arming(at: u16, batch: int, more: int)
    requires
        1 <= batch,
        0 <= more,
        batch + more < 0x1_0000,
    ensures
        crossed(at, wrap(at + batch) as u16, at),
        !crossed(at, wrap(at + batch + more) as u16, wrap(at + batch) as u16),
{
    let mid = wrap(at + batch);
    let new = wrap(at + batch + more);
    lemma_wrap_near(at + batch);
    lemma_wrap_near(at + batch + more);
    lemma_wrap_near(mid - at);
    lemma_wrap_near(mid - at - 1);
    lemma_wrap_near(new - at - 1);
    lemma_wrap_near(new - mid);
}

/// The bits of the flags of a descriptor that is linked or last, readable or writable.
pub proof fn lemma_flag_bits()
    ensures
        0u16 & 1 == 0 && 1u16 & 1 == 1 && 2u16 & 1 == 0 && 3u16 & 1 == 1,
        0u16 & 2 == 0 && 1u16 & 2 == 0 && 2u16 & 2 == 2 && 3u16 & 2 == 2,
        0u16 & 4 == 0 && 1u16 & 4 == 0 && 2u16 & 4 == 0 && 3u16 & 4 == 0,
{
    assert(0u16 & 1 == 0 && 1u16 & 1 == 1 && 2u16 & 1 == 0 && 3u16 & 1 == 1) by (bit_vector);
    assert(0u16 & 2 == 0 && 1u16 & 2 == 0 && 2u16 & 2 == 2 && 3u16 & 2 == 2) by (bit_vector);
    assert(0u16 & 4 == 0 && 1u16 & 4 == 0 && 2u16 & 4 == 0 && 3u16 & 4 == 0) by (bit_vector);
}


/// Where a 16-bit counter stands is below 65,536, and whole turns of the counter away from its count.
pub proof fn law_counters_wrap(x: int)
    ensures
        0 <= wrap(x) < 0x1_0000,
        (x - wrap(x)) % 0x1_0000 == 0,
{
}

/// An event is due exactly where the counter has left behind the value it was asked about: the value
/// lies at or behind where the counter stood at the last check, and before where it stands now, by
/// the distances round the counter.
pub proof fn law_event_is_due_once_passed(event: u16, new: u16, old: u16)
    ensures
        crossed(event, new, old) <==> (event - old) % 0x1_0000 < (new - old) % 0x1_0000,
{
    lemma_wrap_near(event - old);
    lemma_wrap_near(new - old);
    lemma_wrap_near(new - event - 1);
}

/// No part of a layout is further on than its alignment makes it be.
pub proof fn law_layout_is_tight(base: int, size: u16, l: VirtqLayout)
    requires
        base >= 0,
        l.queue_size == size,
        l.desc_table.0 == VirtqLayout::desc_table_from(base),
        l.avail_ring.0 == VirtqLayout::avail_ring_from(base, size as int),
        l.used_ring.0 == VirtqLayout::used_ring_from(base, size as int),
    ensures
        base <= l.desc_table.0 < base + 16,
        l.desc_table.0 + 16 * size <= l.avail_ring.0 < l.desc_table.0 + 16 * size + 2,
        l.avail_ring.0 + 6 + 2 * size <= l.used_ring.0 < l.avail_ring.0 + 6 + 2 * size + 4,
        l.desc_table.0 as int % 16 == 0,
        l.avail_ring.0 as int % 2 == 0,
        l.used_ring.0 as int % 4 == 0,
{
    let d = VirtqLayout::desc_table_from(base);
    let a = VirtqLayout::avail_ring_from(base, size as int);
    lemma_least_multiple(base, 16);
    lemma_least_multiple(d + 16 * size, 2);
    lemma_least_multiple(a + 4 + 2 * size + 2, 4);
}

/// Where the fields of a queue stand: descriptors of sixteen bytes one behind the other; slots of two
/// bytes, and elements of eight, behind the flags and the index of their ring; and behind them the
/// event field of the other side.
pub proof fn law_fields_stand_in_order(l: VirtqLayout, i: int)
    requires
        0 <= i < l.queue_size,
    ensures
        l.desc_addr(i) == l.desc_table.0 + 16 * i,
        l.avail_slot_addr(i) == l.avail_ring.0 + 4 + 2 * i,
        l.used_elem_addr(i) == l.used_ring.0 + 4 + 8 * i,
        l.used_event_addr() == l.avail_ring.0 + 4 + 2 * l.queue_size,
        l.avail_event_addr() == l.used_ring.0 + 4 + 8 * l.queue_size,
        l.desc_bytes() == 16 * l.queue_size,
        l.avail_bytes() == 6 + 2 * l.queue_size,
        l.used_bytes() == 6 + 8 * l.queue_size,
{
    vstd::arithmetic::div_mod::lemma_small_mod(i as nat, l.queue_size as nat);
}

/// What the three low bits of a descriptor's flags say: that another follows, that the device may
/// write, that it is a table. The other bits say nothing.
pub proof fn law_descriptor_flags(d: Descriptor)
    ensures
        d.chained() <==> d.flags % 2 == 1,
        d.writable() <==> d.flags / 2 % 2 == 1,
        d.indirect() <==> d.flags / 4 % 2 == 1,
{
    let f = d.flags;
    assert((f & 1 != 0) == (f % 2 == 1) && (f & 2 != 0) == (f / 2 % 2 == 1) && (f & 4 != 0) == (f / 4
        % 2 == 1)) by (bit_vector);
}


/// A queue is inside a region where all three of its parts end by the end of the region, and its
/// parts are apart where no two of them overlap.
pub proof fn law_what_a_sound_place_is(l: VirtqLayout, region_len: nat)
    ensures
        l.inside(region_len) <==> {
            &&& l.desc_table.0 + 16 * l.queue_size <= region_len
            &&& l.avail_ring.0 + 6 + 2 * l.queue_size <= region_len
            &&& l.used_ring.0 + 6 + 8 * l.queue_size <= region_len
        },
        l.parts_apart() <==> {
            &&& l.desc_table.0 + 16 * l.queue_size <= l.avail_ring.0 || l.avail_ring.0 + 6 + 2
                * l.queue_size <= l.desc_table.0
            &&& l.desc_table.0 + 16 * l.queue_size <= l.used_ring.0 || l.used_ring.0 + 6 + 8
                * l.queue_size <= l.desc_table.0
            &&& l.avail_ring.0 + 6 + 2 * l.queue_size <= l.used_ring.0 || l.used_ring.0 + 6 + 8
                * l.queue_size <= l.avail_ring.0
        },
{
}

} // verus!
