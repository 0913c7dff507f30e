//! What the device half takes from the crates `virtio-queue` and `vm-memory`: mapped guest memory,
//! the queue, and the walk over a chain.

use crate::le::le_bytes;
use crate::virtq::chain::walk;
use crate::virtq::device::{buffers, DeviceState};
use crate::virtq::driver::{desc_stores, store_all};
use crate::virtq::layout::{is_power_of_two, least_multiple, wrap, Descriptor, VirtqLayout};
use crate::virtq::mem::{fits, put, u16_at, GuestAddr, MemError};
use std::sync::Arc;
use vstd::prelude::*;

verus! {

/// A collection of memory regions of `vm-memory`; mapped guest memory is one of `GuestRegionMmap`s.
#[verifier::external_type_specification]
#[verifier::external_body]
#[verifier::reject_recursive_types(R)]
pub struct ExGuestRegionCollection<R>(vm_memory::GuestRegionCollection<R>);

/// A mapped region of guest memory.
#[verifier::external_type_specification]
#[verifier::external_body]
#[verifier::reject_recursive_types(B)]
pub struct ExGuestRegionMmap<B>(vm_memory::GuestRegionMmap<B>);

/// The error of an access to guest memory.
#[verifier::external_type_specification]
#[verifier::external_body]
pub struct ExGuestMemoryError(vm_memory::GuestMemoryError);

/// The error of mapping guest memory.
#[verifier::external_type_specification]
#[verifier::external_body]
pub struct ExFromRangesError(vm_memory::mmap::FromRangesError);

/// The bytes of mapped guest memory, where it is one region from address 0 on.
pub uninterp spec fn ram_contents(mem: vm_memory::GuestMemoryMmap<()>) -> Seq<u8>;

/// Which mapping guest memory is, where it is one region from address 0 on, and none otherwise. What
/// a chain or a walk reads is the memory of the same mapping, as it then is.
pub uninterp spec fn mapping_of(mem: vm_memory::GuestMemoryMmap<()>) -> Option<int>;

/// Map `len` bytes of guest memory from address 0 on: `GuestMemoryMmap::from_ranges` with one range.
/// Claimed of it: where it succeeds, the memory is `len` zero bytes, as a fresh anonymous mapping
/// is. Whether it succeeds rests on the system.
#[verifier::external_body]
pub(crate) fn from_ranges(len: usize) -> (r: Result<
    Arc<vm_memory::GuestMemoryMmap<()>>,
    vm_memory::mmap::FromRangesError,
>)
    ensures
        r matches Ok(mem) ==> ram_contents(*mem) == Seq::new(len as nat, |i: int| 0u8)
            && mapping_of(*mem) is Some,
{
    let ranges = [(vm_memory::GuestAddress(0), len)];
    vm_memory::GuestMemoryMmap::<()>::from_ranges(&ranges).map(Arc::new)
}

/// An access of `n` bytes at `addr` goes through: the bytes lie inside the memory, or there are
/// none.
pub open spec fn accessible(ram_len: nat, addr: int, n: nat) -> bool {
    n == 0 || fits(ram_len, addr, n)
}

/// How many of `n` bytes at `addr` lie inside the memory.
pub open spec fn inside_part(ram_len: nat, addr: int, n: nat) -> nat {
    if addr >= ram_len {
        0
    } else if addr + n <= ram_len {
        n
    } else {
        (ram_len - addr) as nat
    }
}

/// The part of the `n` bytes at `addr` that lies inside the memory.
pub open spec fn visible(ram: Seq<u8>, addr: int, n: nat) -> Seq<u8> {
    if inside_part(ram.len(), addr, n) == 0 {
        Seq::empty()
    } else {
        ram.subrange(addr, addr + inside_part(ram.len(), addr, n))
    }
}

/// Fill `buf` from guest memory: `Bytes::read_slice` of `vm-memory`. Claimed of it: it succeeds
/// exactly where the access goes through, and fills `buf` as far as the memory goes.
#[verifier::external_body]
pub(crate) fn read_slice(
    mem: &Arc<vm_memory::GuestMemoryMmap<()>>,
    buf: &mut [u8],
    addr: u64,
) -> (r: Result<(), vm_memory::GuestMemoryError>)
    requires
        mapping_of(**mem) is Some,
    ensures
        r is Ok <==> accessible(ram_contents(**mem).len(), addr as int, old(buf)@.len()),
        final(buf)@ == put(
            old(buf)@,
            0,
            visible(ram_contents(**mem), addr as int, old(buf)@.len()),
        ),
{
    vm_memory::Bytes::read_slice(&**mem, buf, vm_memory::GuestAddress(addr))
}

/// Store `data` into guest memory: `Bytes::write_slice` of `vm-memory`. Claimed of it: it succeeds
/// exactly where the access goes through, and stores as far as the memory goes.
#[verifier::external_body]
pub(crate) fn write_slice(
    mem: &mut Arc<vm_memory::GuestMemoryMmap<()>>,
    data: &[u8],
    addr: u64,
) -> (r: Result<(), vm_memory::GuestMemoryError>)
    requires
        mapping_of(**old(mem)) is Some,
    ensures
        r is Ok <==> accessible(ram_contents(**old(mem)).len(), addr as int, data@.len()),
        ram_contents(**final(mem)) == put(
            ram_contents(**old(mem)),
            addr as int,
            data@.take(
                inside_part(ram_contents(**old(mem)).len(), addr as int, data@.len()) as int,
            ),
        ),
        mapping_of(**final(mem)) == mapping_of(**old(mem)),
{
    vm_memory::Bytes::write_slice(&**mem, data, vm_memory::GuestAddress(addr))
}

/// A queue of `virtio-queue`, as the device holds it.
#[verifier::external_type_specification]
#[verifier::external_body]
pub struct ExQueue(virtio_queue::Queue);

/// The error of a queue.
#[verifier::external_type_specification]
#[verifier::external_body]
pub struct ExQueueError(virtio_queue::Error);

/// The error of a driver's side of a queue that stands in for a guest.
#[verifier::external_type_specification]
#[verifier::external_body]
pub struct ExMockError(virtio_queue::mock::MockError);

/// A chain of `virtio-queue`: it reads its descriptors from guest memory as it is walked.
#[verifier::external_type_specification]
#[verifier::external_body]
#[verifier::reject_recursive_types(M)]
pub struct ExDescriptorChain<M>(virtio_queue::DescriptorChain<M>);

/// What a queue holds: its size, zero as long as it is not ready; the addresses of the descriptor
/// table, the avail ring and the used ring; the next entry to take, the next slot to use and the
/// completions since the last decision about an interrupt; and whether `EVENT_IDX` is on.
pub uninterp spec fn queue_fields(q: virtio_queue::Queue) -> (
    u16,
    u64,
    u64,
    u64,
    u16,
    u16,
    u16,
    bool,
);

/// Where a chain starts: the address of the descriptor table, its size, and the head.
pub uninterp spec fn chain_place(
    c: virtio_queue::DescriptorChain<Arc<vm_memory::GuestMemoryMmap<()>>>,
) -> (u64, u16, u16);

/// No step of a chain has been taken yet.
pub uninterp spec fn unwalked(
    c: virtio_queue::DescriptorChain<Arc<vm_memory::GuestMemoryMmap<()>>>,
) -> bool;

/// Which mapping a chain is read from.
pub uninterp spec fn chain_mapping(
    c: virtio_queue::DescriptorChain<Arc<vm_memory::GuestMemoryMmap<()>>>,
) -> Option<int>;

/// A queue as the device state that it stands for.
pub open spec fn device_of(f: (u16, u64, u64, u64, u16, u16, u16, bool)) -> DeviceState {
    DeviceState {
        layout: VirtqLayout {
            queue_size: f.0,
            desc_table: GuestAddr(f.1),
            avail_ring: GuestAddr(f.2),
            used_ring: GuestAddr(f.3),
        },
        next_avail: f.4,
        next_used: f.5,
        num_added: f.6,
        event_idx: f.7,
    }
}

/// Turn `EVENT_IDX` on or off: `QueueT::set_event_idx`. Claimed of it: that, and nothing else.
#[verifier::external_body]
pub(crate) fn set_event_idx(queue: &mut virtio_queue::Queue, enabled: bool)
    ensures
        device_of(queue_fields(*final(queue))) == (DeviceState {
            event_idx: enabled,
            ..device_of(queue_fields(*old(queue)))
        }),
{
    virtio_queue::QueueT::set_event_idx(queue, enabled)
}

/// Take every chain that is available: `QueueOwnedT::iter`, collected. Claimed of it, for a queue
/// inside the memory: it fails, and changes nothing, exactly where the driver claims more entries
/// than the queue has; otherwise it hands out one chain per entry, each from the head in its ring
/// slot and read from this memory, and the queue has taken them all.
#[verifier::external_body]
pub(crate) fn take_chains(
    queue: &mut virtio_queue::Queue,
    mem: &Arc<vm_memory::GuestMemoryMmap<()>>,
) -> (r: Result<
    Vec<virtio_queue::DescriptorChain<Arc<vm_memory::GuestMemoryMmap<()>>>>,
    virtio_queue::Error,
>)
    requires
        mapping_of(**mem) is Some,
        device_of(queue_fields(*old(queue))).layout.queue_size > 0,
        device_of(queue_fields(*old(queue))).layout.avail_ring.0 > 0,
        device_of(queue_fields(*old(queue))).layout.avail_ring.0 % 2 == 0,
        device_of(queue_fields(*old(queue))).layout.inside(ram_contents(**mem).len()),
    ensures
        ({
            let dev = device_of(queue_fields(*old(queue)));
            let ram = ram_contents(**mem);
            let n = dev.pending(ram)->Ok_0;
            match r {
                Ok(chains) => {
                    &&& n <= dev.layout.queue_size
                    &&& chains@.len() == n
                    &&& device_of(queue_fields(*final(queue))) == (DeviceState {
                        next_avail: wrap(dev.next_avail + n) as u16,
                        ..dev
                    })
                    &&& forall|i: int|
                        0 <= i < n ==> chain_place(#[trigger] chains@[i]) == (
                            dev.layout.desc_table.0,
                            dev.layout.queue_size,
                            u16_at(
                                ram,
                                dev.layout.avail_slot_addr(wrap(dev.next_avail + i)),
                            )->Ok_0,
                        ) && unwalked(chains@[i]) && chain_mapping(chains@[i]) == mapping_of(**mem)
                },
                Err(_) => n > dev.layout.queue_size && device_of(queue_fields(*final(queue)))
                    == dev,
            }
        }),
{
    virtio_queue::QueueOwnedT::iter(queue, mem.clone()).map(|chains| chains.collect())
}

/// A table of `size` descriptors at `table`, with no rings.
pub open spec fn table_at(table: u64, size: u16) -> VirtqLayout {
    VirtqLayout {
        queue_size: size,
        desc_table: GuestAddr(table),
        avail_ring: GuestAddr(0),
        used_ring: GuestAddr(0),
    }
}

/// A walk over the readable or over the writable descriptors of a chain: it reads them from guest
/// memory one by one.
#[verifier::external_type_specification]
#[verifier::external_body]
#[verifier::reject_recursive_types(M)]
pub struct ExDescriptorChainRwIter<M>(virtio_queue::DescriptorChainRwIter<M>);

/// Where a walk stands: the address of the table it is in and its size; the next entry, the entries
/// left to visit and the bytes of the buffers so far; whether the table is an indirect one; and
/// whether it is after the writable descriptors.
pub uninterp spec fn walk_place(
    w: virtio_queue::DescriptorChainRwIter<Arc<vm_memory::GuestMemoryMmap<()>>>,
) -> (u64, u16, u16, u16, u32, bool, bool);

/// Which mapping a walk reads.
pub uninterp spec fn walk_mapping(
    w: virtio_queue::DescriptorChainRwIter<Arc<vm_memory::GuestMemoryMmap<()>>>,
) -> Option<int>;

/// The walk over the chain at `place`, before its first step.
pub open spec fn first_step(place: (u64, u16, u16), writable: bool) -> (
    u64,
    u16,
    u16,
    u16,
    u32,
    bool,
    bool,
) {
    (place.0, place.1, place.2, place.1, 0, false, writable)
}

/// Start a walk over the readable descriptors of a chain: `DescriptorChain::readable`, on a clone of
/// the chain. Claimed of it: the walk stands before its first step.
#[verifier::external_body]
pub(crate) fn readable(
    chain: &virtio_queue::DescriptorChain<Arc<vm_memory::GuestMemoryMmap<()>>>,
) -> (r: virtio_queue::DescriptorChainRwIter<Arc<vm_memory::GuestMemoryMmap<()>>>)
    requires
        unwalked(*chain),
    ensures
        walk_place(r) == first_step(chain_place(*chain), false),
        walk_mapping(r) == chain_mapping(*chain),
{
    chain.clone().readable()
}

/// Start a walk over the writable descriptors of a chain: `DescriptorChain::writable`, on a clone of
/// the chain. Claimed of it: the walk stands before its first step.
#[verifier::external_body]
pub(crate) fn writable(
    chain: &virtio_queue::DescriptorChain<Arc<vm_memory::GuestMemoryMmap<()>>>,
) -> (r: virtio_queue::DescriptorChainRwIter<Arc<vm_memory::GuestMemoryMmap<()>>>)
    requires
        unwalked(*chain),
    ensures
        walk_place(r) == first_step(chain_place(*chain), true),
        walk_mapping(r) == chain_mapping(*chain),
{
    chain.clone().writable()
}

/// The next buffer of a walk, if there is one, and where the walk then stands, as
/// `DescriptorChainRwIter::next` has them.
pub uninterp spec fn next_step(
    ram: Seq<u8>,
    place: (u64, u16, u16, u16, u32, bool, bool),
) -> (Option<(u64, u32)>, (u64, u16, u16, u16, u32, bool, bool));

/// How many more steps a walk can take: one for each entry left, and, as long as it is not in an
/// indirect table, those of the largest that it could still enter.
pub open spec fn steps_left(place: (u64, u16, u16, u16, u32, bool, bool)) -> nat {
    if place.5 {
        place.3 as nat
    } else {
        place.3 as nat + 0x1_0000
    }
}

/// What this library's own walk makes of what is left of a walk, where it finds nothing wrong: the
/// buffers still to come. A walk with no entries left is at its end.
pub open spec fn own_rest(
    ram: Seq<u8>,
    place: (u64, u16, u16, u16, u32, bool, bool),
) -> Option<Seq<(u64, u32)>> {
    if place.5 {
        None
    } else if place.3 == 0 {
        Some(Seq::empty())
    } else {
        let w = walk(
            ram,
            table_at(place.0, place.1),
            place.2,
            place.3 as nat,
            place.4 as nat,
            false,
        );
        if w.error is None {
            Some(buffers(w.descs, place.6))
        } else {
            None
        }
    }
}

/// A step of a walk keeps what a walk keeps: it has fewer steps left, the bytes it has seen have
/// grown by those of the buffer, and it is after the same descriptors.
pub open spec fn steps_on(
    place: (u64, u16, u16, u16, u32, bool, bool),
    buffer: (u64, u32),
    next: (u64, u16, u16, u16, u32, bool, bool),
) -> bool {
    &&& steps_left(next) < steps_left(place)
    &&& next.4 >= place.4 + buffer.1
    &&& next.6 == place.6
}

/// A step of a walk does as this library's own walk does where that finds nothing wrong: it yields
/// the next of its buffers, in the same table, and leaves the others; and none at the end.
pub open spec fn steps_alike(
    ram: Seq<u8>,
    place: (u64, u16, u16, u16, u32, bool, bool),
    item: Option<(u64, u32)>,
    next: (u64, u16, u16, u16, u32, bool, bool),
) -> bool {
    match own_rest(ram, place) {
        Some(bufs) => if bufs.len() == 0 {
            item is None
        } else {
            &&& item == Some(bufs[0])
            &&& own_rest(ram, next) == Some(bufs.drop_first())
            &&& next.0 == place.0
            &&& next.1 == place.1
        },
        None => true,
    }
}

/// Take the next step of a walk: `DescriptorChainRwIter::next`. Claimed of it, beside that the
/// result rests on the memory and on where the walk stands alone: a step that yields a buffer leaves
/// fewer steps, and the buffers of a walk come to less than 2^32 bytes; and a chain that this
/// library's own walk finds nothing wrong with is walked as that walks it.
#[verifier::external_body]
pub(crate) fn next_buffer(
    walk: &mut virtio_queue::DescriptorChainRwIter<Arc<vm_memory::GuestMemoryMmap<()>>>,
    mem: &Arc<vm_memory::GuestMemoryMmap<()>>,
) -> (r: Option<(u64, u32)>)
    requires
        mapping_of(**mem) is Some,
        walk_mapping(*old(walk)) == mapping_of(**mem),
    ensures
        next_step(ram_contents(**mem), walk_place(*old(walk))) == (r, walk_place(*final(walk))),
        walk_mapping(*final(walk)) == walk_mapping(*old(walk)),
        r matches Some(b) ==> steps_on(walk_place(*old(walk)), b, walk_place(*final(walk))),
        steps_alike(
            ram_contents(**mem),
            walk_place(*old(walk)),
            r,
            walk_place(*final(walk)),
        ),
{
    let _ = mem;
    walk.next().map(|d| (d.addr().0, d.len()))
}

/// The head of a chain: `DescriptorChain::head_index`.
#[verifier::external_body]
pub(crate) fn head_index(
    chain: &virtio_queue::DescriptorChain<Arc<vm_memory::GuestMemoryMmap<()>>>,
) -> (r: u16)
    ensures
        r == chain_place(*chain).2,
{
    chain.head_index()
}

/// Publish a completion: `QueueT::add_used`. Claimed of it, for a queue inside the memory: it fails,
/// and changes nothing, exactly where the table has no such head; otherwise the element and the
/// index are written and counted.
#[verifier::external_body]
pub(crate) fn add_used(
    queue: &mut virtio_queue::Queue,
    mem: &mut Arc<vm_memory::GuestMemoryMmap<()>>,
    head: u16,
    len: u32,
) -> (r: Result<(), virtio_queue::Error>)
    requires
        mapping_of(**old(mem)) is Some,
        device_of(queue_fields(*old(queue))).layout.queue_size > 0,
        device_of(queue_fields(*old(queue))).layout.used_ring.0 % 4 == 0,
        device_of(queue_fields(*old(queue))).layout.inside(ram_contents(**old(mem)).len()),
    ensures
        ({
            let dev = device_of(queue_fields(*old(queue)));
            let c = dev.complete(ram_contents(**old(mem)), head, len);
            if head < dev.layout.queue_size {
                &&& r is Ok
                &&& device_of(queue_fields(*final(queue))) == c.dev
                &&& ram_contents(**final(mem)) == c.mem
            } else {
                &&& r is Err
                &&& device_of(queue_fields(*final(queue))) == dev
                &&& ram_contents(**final(mem)) == ram_contents(**old(mem))
            }
        }),
        mapping_of(**final(mem)) == mapping_of(**old(mem)),
{
    virtio_queue::QueueT::add_used(queue, &**mem, head, len)
}

/// The decision about an interrupt is `due`.
pub open spec fn decides(dev: DeviceState, ram: Seq<u8>, due: bool) -> bool {
    dev.interrupt_due(ram) == Ok::<bool, MemError>(due)
}

/// The device after a decision about an interrupt.
pub open spec fn decided(dev: DeviceState) -> DeviceState {
    if dev.event_idx {
        DeviceState { num_added: 0, ..dev }
    } else {
        dev
    }
}

/// Should the device interrupt the driver? `QueueT::needs_notification`. Claimed of it, for a queue
/// inside the memory: without `EVENT_IDX` the answer is yes and nothing changes; with it, the answer
/// is whether the used index has crossed the driver's event field, and the count of completions
/// starts over.
#[verifier::external_body]
pub(crate) fn needs_notification(
    queue: &mut virtio_queue::Queue,
    mem: &Arc<vm_memory::GuestMemoryMmap<()>>,
) -> (r: Result<bool, virtio_queue::Error>)
    requires
        mapping_of(**mem) is Some,
        device_of(queue_fields(*old(queue))).layout.queue_size > 0,
        device_of(queue_fields(*old(queue))).layout.avail_ring.0 % 2 == 0,
        device_of(queue_fields(*old(queue))).layout.inside(ram_contents(**mem).len()),
    ensures
        r is Ok,
        decides(device_of(queue_fields(*old(queue))), ram_contents(**mem), r->Ok_0),
        device_of(queue_fields(*final(queue))) == decided(device_of(queue_fields(*old(queue)))),
{
    virtio_queue::QueueT::needs_notification(queue, &**mem)
}

/// The used ring of a driver's side that stands in for a guest: at the first multiple of four from
/// the address that the crate takes for the end of the avail ring.
pub open spec fn mock_used_ring(size: u16) -> int {
    least_multiple(16 * size + 4 + size, 4)
}

/// The queue of a driver's side that stands in for a guest, from address 0 on.
pub open spec fn mock_queue(size: u16) -> DeviceState {
    DeviceState {
        layout: VirtqLayout {
            queue_size: size,
            desc_table: GuestAddr(0),
            avail_ring: GuestAddr((16 * size) as u64),
            used_ring: GuestAddr(mock_used_ring(size) as u64),
        },
        next_avail: 0,
        next_used: 0,
        num_added: 0,
        event_idx: false,
    }
}

/// The heads of the chains that lie one behind the other in a table: the first entry, and each that
/// follows the end of a chain.
pub open spec fn chain_heads(descs: Seq<Descriptor>) -> Seq<u16>
    decreases descs.len(),
{
    if descs.len() == 0 {
        Seq::empty()
    } else {
        let before = chain_heads(descs.drop_last());
        let i = descs.len() - 1;
        if i == 0 || !descs[i - 1].chained() {
            before.push(i as u16)
        } else {
            before
        }
    }
}

/// The stores that put the first `n` descriptors into the table, from its start on.
pub open spec fn table_stores(l: VirtqLayout, descs: Seq<Descriptor>, n: nat) -> Seq<
    (int, Seq<u8>),
>
    decreases n,
{
    if n == 0 {
        Seq::empty()
    } else {
        table_stores(l, descs, (n - 1) as nat) + desc_stores(l.desc_addr(n - 1), descs[n - 1])
    }
}

/// The stores that put the first `n` heads into the avail ring, from its start on.
pub open spec fn slot_stores(l: VirtqLayout, heads: Seq<u16>, n: nat) -> Seq<(int, Seq<u8>)>
    decreases n,
{
    if n == 0 {
        Seq::empty()
    } else {
        slot_stores(l, heads, (n - 1) as nat).push(
            (l.avail_ring.0 + 4 + 2 * (n - 1), le_bytes(heads[n - 1] as nat, 2)),
        )
    }
}

/// The stores that set both rings to nothing: flags, index and event field, which the crate takes
/// to lie behind two bytes per entry in either ring.
pub open spec fn ring_stores(l: VirtqLayout) -> Seq<(int, Seq<u8>)> {
    seq![
        (l.avail_ring.0 as int, le_bytes(0, 2)),
        (l.avail_ring.0 + 2, le_bytes(0, 2)),
        (l.avail_ring.0 + 4 + 2 * l.queue_size, le_bytes(0, 2)),
        (l.used_ring.0 as int, le_bytes(0, 2)),
        (l.used_ring.0 + 2, le_bytes(0, 2)),
        (l.used_ring.0 + 4 + 2 * l.queue_size, le_bytes(0, 2)),
    ]
}

/// The stores that set up a driver's side that stands in for a guest and publish its chains: empty
/// rings, the descriptors in the table, the heads in the avail ring, and its index.
pub open spec fn mock_stores(size: u16, descs: Seq<Descriptor>) -> Seq<(int, Seq<u8>)> {
    let l = mock_queue(size).layout;
    let heads = chain_heads(descs);
    ring_stores(l) + table_stores(l, descs, descs.len()) + slot_stores(l, heads, heads.len())
        + seq![(l.avail_ring.0 + 2, le_bytes(heads.len(), 2))]
}

/// The memory after a driver's side that stands in for a guest was set up and published the chains.
pub open spec fn mock_memory(ram: Seq<u8>, size: u16, descs: Seq<Descriptor>) -> Seq<u8> {
    store_all(ram, mock_stores(size, descs)).mem
}

/// The size is one that a queue can have, a power of two up to 32,768, and its table holds `n`
/// descriptors.
pub open spec fn publishable(size: u16, n: nat) -> bool {
    is_power_of_two(size as int) && size <= 32768 && n <= size
}

/// Set up a driver's side that stands in for a guest, publish the descriptors from the start of the
/// table on, and make the device's queue over them: `MockSplitQueue::new`,
/// `MockSplitQueue::add_desc_chains` at offset 0 and `MockSplitQueue::create_queue`. Claimed of it,
/// for a memory that holds the queue: it succeeds exactly where the size is one that a queue can
/// have and the table holds the descriptors; the queue is then a fresh one at the mock's addresses,
/// and the memory holds empty rings, the descriptors, and their chains advertised in order.
#[verifier::external_body]
pub(crate) fn mock_driver(
    mem: &mut Arc<vm_memory::GuestMemoryMmap<()>>,
    size: u16,
    descs: &Vec<Descriptor>,
) -> (r: Result<virtio_queue::Queue, virtio_queue::mock::MockError>)
    requires
        mapping_of(**old(mem)) is Some,
        mock_queue(size).layout.inside(ram_contents(**old(mem)).len()),
    ensures
        mapping_of(**final(mem)) == mapping_of(**old(mem)),
        r is Ok <==> publishable(size, descs@.len()),
        r matches Ok(q) ==> device_of(queue_fields(q)) == mock_queue(size),
        r is Ok ==> ram_contents(**final(mem)) == mock_memory(
            ram_contents(**old(mem)),
            size,
            descs@,
        ),
{
    let raw: Vec<virtio_queue::desc::RawDescriptor> = descs
        .iter()
        .map(|d| virtio_queue::desc::split::Descriptor::new(d.addr, d.len, d.flags, d.next).into())
        .collect();
    let driver = virtio_queue::mock::MockSplitQueue::new(&**mem, size);
    driver.add_desc_chains(&raw, 0)?;
    driver.create_queue().map_err(virtio_queue::mock::MockError::InvalidQueueParams)
}

} // verus!
