//! Chains that no driver would build, and what the device says to them.
//!
//! Each takes no more than writing a descriptor and an avail entry. None needs a fault in the
//! driver: a hostile guest does not run the driver.

use crate::le::{le_bytes, lemma_le_bounds, lemma_le_bytes_len};
use crate::virtq::chain::{
    chain_from, descriptor_at, lemma_descriptor_agrees, walk, ChainError, Walk,
};
use crate::virtq::device::{
    buffers, first_outside, nothing_done, pass_from, Device, Pass, ProcessStats, RejectReason,
};
use crate::virtq::laws::{lemma_descriptor_stored, lemma_other_descriptors};
use crate::virtq::layout::{
    is_power_of_two, law_fields_inside_parts, law_layout_parts, lemma_flag_bits, Descriptor,
    VirtqLayout, VIRTQ_DESC_F_NEXT, VIRTQ_DESC_F_WRITE,
};
use crate::virtq::mem::{
    lemma_field_read_back, lemma_write_frame, put, u16_at, write_at, GuestAddr, MemError, SharedMem,
};
use crate::virtq::pass_laws::law_every_chain_is_completed;
use crate::virtq::session::write_desc;
use vstd::prelude::*;

verus! {

/// The size of the queue that hostile chains are put into.
pub const HOSTILE_QUEUE_SIZE: u16 = 8;

/// The size of the region that it lies in.
pub const HOSTILE_REGION: usize = 65536;

/// A malformed chain from descriptor 0 on.
#[derive(Debug, Clone, Copy, PartialEq, Eq, Structural)]
pub enum Hostile {
    /// A descriptor that names itself as the next.
    SelfLoop,
    /// Two descriptors that name each other.
    Cycle,
    /// A next that the table does not have.
    NextOutside,
    /// A buffer that is not in the region.
    BufferOutside,
    /// A device-readable descriptor behind a device-writable one.
    ReadableAfterWritable,
}

/// A small buffer that is in order.
pub open spec fn plain_desc(flags: u16, next: u16) -> Descriptor {
    Descriptor { addr: 0x2000, len: 16, flags, next }
}

impl Hostile {
    /// Descriptor 0 of the chain.
    pub open spec fn first(self) -> Descriptor {
        match self {
            Hostile::SelfLoop => plain_desc(VIRTQ_DESC_F_NEXT, 0),
            Hostile::Cycle => plain_desc(VIRTQ_DESC_F_NEXT, 1),
            Hostile::NextOutside => plain_desc(VIRTQ_DESC_F_NEXT, 60000),
            Hostile::BufferOutside => Descriptor {
                addr: 0xffff_ffff_ffff_fff7,
                len: 4096,
                flags: 0,
                next: 0,
            },
            Hostile::ReadableAfterWritable => plain_desc(3, 1),
        }
    }

    /// Descriptor 1 of the chain, where it has one.
    pub open spec fn second(self) -> Option<Descriptor> {
        match self {
            Hostile::Cycle => Some(plain_desc(VIRTQ_DESC_F_NEXT, 0)),
            Hostile::ReadableAfterWritable => Some(plain_desc(0, 0)),
            _ => None,
        }
    }

    /// What a device with a table of `HOSTILE_QUEUE_SIZE` in a region of `HOSTILE_REGION` has
    /// against it.
    pub open spec fn objection(self) -> RejectReason {
        match self {
            Hostile::SelfLoop | Hostile::Cycle => RejectReason::Chain(
                ChainError::TooLong { limit: HOSTILE_QUEUE_SIZE },
            ),
            Hostile::NextOutside => RejectReason::Chain(
                ChainError::IndexOutOfRange { index: 60000, queue_size: HOSTILE_QUEUE_SIZE },
            ),
            Hostile::BufferOutside => RejectReason::Buffer(
                MemError::OutOfBounds {
                    addr: 0xffff_ffff_ffff_fff7,
                    len: 4096,
                    region_len: HOSTILE_REGION as u64,
                },
            ),
            Hostile::ReadableAfterWritable => RejectReason::Chain(
                ChainError::ReadableAfterWritable,
            ),
        }
    }
}

/// The flags that are used here, as what they mean.
proof fn lemma_flags()
    ensures
        forall|next: u16| #[trigger] plain_desc(1, next).chained() && !plain_desc(1, next).writable()
            && !plain_desc(1, next).indirect(),
        forall|next: u16| #[trigger] plain_desc(3, next).chained() && plain_desc(3, next).writable()
            && !plain_desc(3, next).indirect(),
        forall|d: Descriptor|
            d.flags == 0 ==> !(#[trigger] d.chained()) && !d.writable() && !d.indirect(),
{
    lemma_flag_bits();
}

/// A walk round a cycle of one or two descriptors ends for its length.
proof fn lemma_cycle_is_cut(m: Seq<u8>, l: VirtqLayout, a: u16, b: u16, ttl: nat, bytes: nat)
    requires
        a < l.queue_size,
        b < l.queue_size,
        descriptor_at(m, l.desc_addr(a as int)) == Ok::<Descriptor, MemError>(
            plain_desc(VIRTQ_DESC_F_NEXT, b),
        ),
        descriptor_at(m, l.desc_addr(b as int)) == Ok::<Descriptor, MemError>(
            plain_desc(VIRTQ_DESC_F_NEXT, a),
        ),
        bytes + 16 * ttl <= u32::MAX,
    ensures
        walk(m, l, a, ttl, bytes, false).error == Some(
            ChainError::TooLong { limit: l.queue_size },
        ),
    decreases ttl,
{
    lemma_flags();
    if ttl > 0 {
        assert(plain_desc(1, b).chained());
        lemma_cycle_is_cut(m, l, b, a, (ttl - 1) as nat, bytes + 16);
    }
}

/// The device's objection to each, from what stands in the table.
proof fn lemma_objection(m: Seq<u8>, l: VirtqLayout, case: Hostile)
    requires
        l.queue_size == HOSTILE_QUEUE_SIZE,
        m.len() == HOSTILE_REGION,
        descriptor_at(m, l.desc_addr(0)) == Ok::<Descriptor, MemError>(case.first()),
        case.second() matches Some(d) ==> descriptor_at(m, l.desc_addr(1)) == Ok::<
            Descriptor,
            MemError,
        >(d),
    ensures
        match case.objection() {
            RejectReason::Chain(e) => chain_from(m, l, 0).error == Some(e),
            RejectReason::Buffer(e) => chain_from(m, l, 0) == (Walk {
                descs: seq![case.first()],
                error: None,
            }) && first_outside(m, buffers(seq![case.first()], false)) == Some(e),
        },
{
    lemma_flags();
    let d = case.first();
    assert(plain_desc(1, d.next).chained());
    assert(plain_desc(3, d.next).chained());
    assert(plain_desc(0, 0).chained() == false);
    match case {
        Hostile::SelfLoop => lemma_cycle_is_cut(m, l, 0, 0, 8, 0),
        Hostile::Cycle => lemma_cycle_is_cut(m, l, 0, 1, 8, 0),
        Hostile::BufferOutside => {
            assert(!d.chained());
            let one = seq![d];
            assert(one.drop_last() =~= Seq::<Descriptor>::empty());
            reveal_with_fuel(buffers, 2);
            assert(buffers(one, false) =~= seq![(d.addr, d.len)]);
        },
        _ => {
            reveal_with_fuel(walk, 3);
        },
    }
}

/// The chain from descriptor 0 on, advertised as the first and only one.
spec fn advertised_alone(m: Seq<u8>, k: Seq<u8>, l: VirtqLayout, case: Hostile) -> bool {
    &&& k.len() == m.len()
    &&& descriptor_at(k, l.desc_addr(0)) == Ok::<Descriptor, MemError>(case.first())
    &&& case.second() matches Some(d) ==> descriptor_at(k, l.desc_addr(1)) == Ok::<
        Descriptor,
        MemError,
    >(d)
    &&& u16_at(k, l.avail_slot_addr(0)) == Ok::<u16, MemError>(0)
    &&& u16_at(k, l.avail_ring.0 + 2) == Ok::<u16, MemError>(1)
}

/// Advertising descriptor 0 leaves the table.
proof fn lemma_advertised_alone(m: Seq<u8>, l: VirtqLayout, case: Hostile)
    requires
        l.queue_size == HOSTILE_QUEUE_SIZE,
        l.inside(m.len()),
        l.parts_apart(),
        descriptor_at(m, l.desc_addr(0)) == Ok::<Descriptor, MemError>(case.first()),
        case.second() matches Some(d) ==> descriptor_at(m, l.desc_addr(1)) == Ok::<
            Descriptor,
            MemError,
        >(d),
    ensures
        ({
            let slot = l.avail_slot_addr(0);
            let a = put(m, slot, le_bytes(0, 2));
            let k = put(a, l.avail_ring.0 + 2, le_bytes(1, 2));
            &&& write_at(m, slot, le_bytes(0, 2)) == Ok::<Seq<u8>, MemError>(a)
            &&& write_at(a, l.avail_ring.0 + 2, le_bytes(1, 2)) == Ok::<
                Seq<u8>,
                MemError,
            >(k)
            &&& advertised_alone(m, k, l, case)
        }),
{
    let slot = l.avail_slot_addr(0);
    let idx = l.avail_ring.0 + 2;
    let a = put(m, slot, le_bytes(0, 2));
    let k = put(a, idx, le_bytes(1, 2));
    law_fields_inside_parts(l, 0);
    law_fields_inside_parts(l, 1);
    lemma_le_bounds();
    lemma_le_bytes_len(0, 2);
    lemma_le_bytes_len(1, 2);
    lemma_field_read_back(m, slot, 0, 2);
    lemma_field_read_back(a, idx, 1, 2);
    lemma_write_frame(a, idx, le_bytes(1, 2), slot, 2);
    lemma_descriptor_agrees(m, k, l.desc_addr(0));
    lemma_descriptor_agrees(m, k, l.desc_addr(1));
}

/// Write the chain into the table and advertise it.
fn plant(mem: &mut SharedMem, layout: VirtqLayout, case: Hostile)
    requires
        layout.queue_size == HOSTILE_QUEUE_SIZE,
        layout.inside(old(mem)@.len()),
        layout.parts_apart(),
        layout.addressable(),
    ensures
        advertised_alone(old(mem)@, final(mem)@, layout, case),
{
    let (addr, len, flags, next): (u64, u32, u16, u16) = match case {
        Hostile::SelfLoop => (0x2000, 16, VIRTQ_DESC_F_NEXT, 0),
        Hostile::Cycle => (0x2000, 16, VIRTQ_DESC_F_NEXT, 1),
        Hostile::NextOutside => (0x2000, 16, VIRTQ_DESC_F_NEXT, 60000),
        Hostile::BufferOutside => (u64::MAX - 8, 4096, 0, 0),
        Hostile::ReadableAfterWritable => (
            0x2000,
            16,
            VIRTQ_DESC_F_WRITE | VIRTQ_DESC_F_NEXT,
            1,
        ),
    };
    proof {
        assert(2u16 | 1u16 == 3u16) by (bit_vector);
        law_fields_inside_parts(layout, 0);
        law_fields_inside_parts(layout, 1);
        lemma_descriptor_stored(mem@, layout.desc_addr(0), case.first());
    }
    let _ = write_desc(mem, layout, 0, addr, len, flags, next);
    let ghost m1 = mem@;
    match case {
        Hostile::Cycle => {
            proof {
                lemma_descriptor_stored(m1, layout.desc_addr(1), case.second()->Some_0);
            }
            let _ = write_desc(mem, layout, 1, 0x2000, 16, VIRTQ_DESC_F_NEXT, 0);
            proof {
                lemma_other_descriptors(m1, mem@, layout, 1, 0);
            }
        },
        Hostile::ReadableAfterWritable => {
            proof {
                lemma_descriptor_stored(m1, layout.desc_addr(1), case.second()->Some_0);
            }
            let _ = write_desc(mem, layout, 1, 0x2000, 16, 0, 0);
            proof {
                lemma_other_descriptors(m1, mem@, layout, 1, 0);
            }
        },
        _ => {},
    }
    proof {
        lemma_advertised_alone(mem@, layout, case);
    }
    mem.write_u16(layout.avail_slot(0), 0).unwrap();
    mem.store_idx_release(layout.avail_idx(), 1).unwrap();
}

/// What the device makes of it, from what stands in the region.
proof fn lemma_confronted(p: Pass, case: Hostile)
    requires
        p.failed is None,
        p.tally == nothing_done(),
        p.dev.next_avail == 0,
        p.dev.layout.queue_size == HOSTILE_QUEUE_SIZE,
        p.dev.layout.inside(p.mem.len()),
        p.mem.len() == HOSTILE_REGION,
        advertised_alone(p.mem, p.mem, p.dev.layout, case),
    ensures
        p.dev.next_head(p.mem) == Ok::<Option<u16>, MemError>(Some(0u16)),
        p.objection() == Some(case.objection()),
        p.step(Seq::empty()).failed is None,
        p.step(Seq::empty()).tally.chains == 1,
        p.step(Seq::empty()).tally.bytes_written == 0,
        p.step(Seq::empty()).tally.rejected == seq![(0u16, case.objection())],
{
    lemma_objection(p.mem, p.dev.layout, case);
    assert(p.dev.next_head(p.mem) == Ok::<Option<u16>, MemError>(Some(0u16)));
    law_every_chain_is_completed(p, Seq::empty());
    assert(Seq::<(u16, RejectReason)>::empty().push((0u16, case.objection())) =~= seq![
        (0u16, case.objection()),
    ]);
}

/// Hand the chain to a device. It is refused for what is wrong with it, and completed all the same,
/// so that no driver is left waiting.
pub fn confront(case: Hostile) -> (r: ProcessStats)
    ensures
        r@.chains == 1,
        r@.bytes_written == 0,
        r@.rejected == seq![(0u16, case.objection())],
{
    proof {
        lemma_hostile_layout();
    }
    let layout = VirtqLayout::new(GuestAddr(0), HOSTILE_QUEUE_SIZE);
    proof {
        law_layout_parts(0, HOSTILE_QUEUE_SIZE, layout);
    }
    let mut mem = SharedMem::new(HOSTILE_REGION);
    let mut device = Device::new(layout, false);
    plant(&mut mem, layout, case);
    let mut stats = ProcessStats::default();
    let ghost p = pass_from(device@, mem@);
    proof {
        lemma_confronted(p, case);
    }
    let _taken = device.take_request(&mut mem, &mut stats).unwrap();
    stats
}

/// Where the parts of a queue of `HOSTILE_QUEUE_SIZE` from address 0 on come to lie.
proof fn lemma_hostile_layout()
    ensures
        is_power_of_two(HOSTILE_QUEUE_SIZE as int),
        VirtqLayout::desc_table_from(0) == 0,
        VirtqLayout::avail_ring_from(0, HOSTILE_QUEUE_SIZE as int) == 128,
        VirtqLayout::used_ring_from(0, HOSTILE_QUEUE_SIZE as int) == 152,
{
    vstd::arithmetic::power2::lemma2_to64();
    assert(vstd::arithmetic::power2::pow2(3) == 8);
}

} // verus!
