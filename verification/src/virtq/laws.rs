//! What holds of driver and device together.

use crate::le::{le_bytes, lemma_le_bounds, lemma_le_bytes_len};
use crate::virtq::chain::{
    chain_from, descriptor_at, lemma_descriptor_agrees, total_len, walk, Walk,
};
use crate::virtq::device::{buffers, Completion, DeviceState};
use crate::virtq::driver::{
    chain_stores, completion_at, desc_stores, lemma_collect_wf, lemma_reserved_wf,
    lemma_store_all_append, link, readable_first, store_all, Buffer, DriverError, DriverState,
    Published, Stores,
};
use crate::virtq::driver_laws::law_descriptors_add_up;
use crate::virtq::layout::{
    is_power_of_two, law_fields_inside_parts, lemma_flag_bits, lemma_mod_differs,
    lemma_power_of_two_divides, lemma_wrap_keeps_slot, lemma_wrap_steps, wrap, Descriptor,
    VirtqLayout,
};
use crate::virtq::mem::{
    apart, fits, lemma_agree_reads, lemma_field_read_back, lemma_write_frame, put, u16_at, MemError,
};
use vstd::prelude::*;

verus! {

/// The regions have the same bytes everywhere but in the `n` positions from `at` on.
pub open spec fn same_outside(m: Seq<u8>, k: Seq<u8>, at: int, n: nat) -> bool {
    &&& m.len() == k.len()
    &&& forall|i: int|
        0 <= i < m.len() && !(at <= i < at + n) ==> #[trigger] m[i] == k[i]
}

/// The four stores of a descriptor leave that descriptor in its sixteen bytes, and nothing else.
pub proof fn lemma_descriptor_stored(m: Seq<u8>, at: int, d: Descriptor)
    requires
        fits(m.len(), at, 16),
    ensures
        store_all(m, desc_stores(at, d)).error is None,
        descriptor_at(store_all(m, desc_stores(at, d)).mem, at) == Ok::<Descriptor, MemError>(d),
        same_outside(m, store_all(m, desc_stores(at, d)).mem, at, 16),
{
    let ws = desc_stores(at, d);
    lemma_le_bounds();
    lemma_le_bytes_len(d.addr as nat, 8);
    lemma_le_bytes_len(d.len as nat, 4);
    lemma_le_bytes_len(d.flags as nat, 2);
    lemma_le_bytes_len(d.next as nat, 2);
    let m1 = put(m, at, ws[0].1);
    let m2 = put(m1, at + 8, ws[1].1);
    let m3 = put(m2, at + 12, ws[2].1);
    let m4 = put(m3, at + 14, ws[3].1);
    reveal_with_fuel(store_all, 5);
    assert(ws.drop_last() =~= ws.take(3));
    assert(ws.take(3).drop_last() =~= ws.take(2));
    assert(ws.take(2).drop_last() =~= ws.take(1));
    assert(ws.take(1).drop_last() =~= Seq::<(int, Seq<u8>)>::empty());
    assert(store_all(m, ws) == Stores { mem: m4, error: None });
    lemma_field_read_back(m, at, d.addr as nat, 8);
    lemma_write_frame(m1, at + 8, ws[1].1, at, 8);
    lemma_write_frame(m2, at + 12, ws[2].1, at, 8);
    lemma_write_frame(m3, at + 14, ws[3].1, at, 8);
    lemma_field_read_back(m1, at + 8, d.len as nat, 4);
    lemma_write_frame(m2, at + 12, ws[2].1, at + 8, 4);
    lemma_write_frame(m3, at + 14, ws[3].1, at + 8, 4);
    lemma_field_read_back(m2, at + 12, d.flags as nat, 2);
    lemma_write_frame(m3, at + 14, ws[3].1, at + 12, 2);
    lemma_field_read_back(m3, at + 14, d.next as nat, 2);
}

/// Regions that differ in one table entry only have every other descriptor in common.
pub proof fn lemma_other_descriptors(m: Seq<u8>, k: Seq<u8>, l: VirtqLayout, i: int, j: int)
    requires
        same_outside(m, k, l.desc_addr(i), 16),
        0 <= i,
        0 <= j,
        i != j,
    ensures
        descriptor_at(m, l.desc_addr(j)) == descriptor_at(k, l.desc_addr(j)),
{
    lemma_descriptor_agrees(m, k, l.desc_addr(j));
}

/// The stores of a chain put each of its descriptors into its table entry, and change nothing
/// outside the table.
pub proof fn lemma_chain_stored(
    m: Seq<u8>,
    l: VirtqLayout,
    bufs: Seq<Buffer>,
    indices: Seq<u16>,
    n: nat,
)
    requires
        n <= indices.len(),
        indices.no_duplicates(),
        forall|i: int| 0 <= i < indices.len() ==> #[trigger] indices[i] < l.queue_size,
        fits(m.len(), l.desc_table.0 as int, l.desc_bytes()),
    ensures
        store_all(m, chain_stores(l, bufs, indices, n)).error is None,
        same_outside(
            m,
            store_all(m, chain_stores(l, bufs, indices, n)).mem,
            l.desc_table.0 as int,
            l.desc_bytes(),
        ),
        forall|i: int|
            0 <= i < n ==> descriptor_at(
                store_all(m, chain_stores(l, bufs, indices, n)).mem,
                l.desc_addr(#[trigger] indices[i] as int),
            ) == Ok::<Descriptor, MemError>(link(bufs, indices, i)),
    decreases n,
{
    if n > 0 {
        let before = store_all(m, chain_stores(l, bufs, indices, (n - 1) as nat));
        let at = l.desc_addr(indices[n - 1] as int);
        let d = link(bufs, indices, n - 1);
        lemma_chain_stored(m, l, bufs, indices, (n - 1) as nat);
        lemma_store_all_append(
            m,
            chain_stores(l, bufs, indices, (n - 1) as nat),
            desc_stores(at, d),
        );
        assert(indices[n - 1] < l.queue_size);
        lemma_descriptor_stored(before.mem, at, d);
        let after = store_all(m, chain_stores(l, bufs, indices, n));
        assert forall|i: int| 0 <= i < n implies descriptor_at(
            after.mem,
            l.desc_addr(#[trigger] indices[i] as int),
        ) == Ok::<Descriptor, MemError>(link(bufs, indices, i)) by {
            if i < n - 1 {
                lemma_other_descriptors(
                    before.mem,
                    after.mem,
                    l,
                    indices[n - 1] as int,
                    indices[i] as int,
                );
            }
        }
    }
}

/// The descriptors of a chain over the table entries `indices`.
pub open spec fn links(bufs: Seq<Buffer>, indices: Seq<u16>) -> Seq<Descriptor> {
    Seq::new(bufs.len(), |i: int| link(bufs, indices, i))
}

/// The flags of a link say its direction and whether another follows.
proof fn lemma_link_flags(bufs: Seq<Buffer>, indices: Seq<u16>, i: int)
    requires
        0 <= i < bufs.len(),
    ensures
        link(bufs, indices, i).writable() == bufs[i].device_writable,
        link(bufs, indices, i).chained() == (i + 1 < bufs.len()),
        !link(bufs, indices, i).indirect(),
{
    lemma_flag_bits();
}

/// The descriptors of a chain are its buffers: each with the address, the length and the direction of
/// its own, and each but the last naming the entry of the next. None is a table.
pub proof fn law_links_describe_the_buffers(bufs: Seq<Buffer>, indices: Seq<u16>, i: int)
    requires
        0 <= i < bufs.len(),
    ensures
        ({
            let d = links(bufs, indices)[i];
            &&& links(bufs, indices).len() == bufs.len()
            &&& d.addr == bufs[i].addr.0
            &&& d.len == bufs[i].len
            &&& d.flags / 2 % 2 == if bufs[i].device_writable {
                1int
            } else {
                0
            }
            &&& d.flags % 2 == if i + 1 < bufs.len() {
                1int
            } else {
                0
            }
            &&& d.flags < 4
            &&& i + 1 < bufs.len() ==> d.next == indices[i + 1]
        }),
{
}

/// The table holds the descriptors of a chain over `indices`.
#[verifier::opaque]
pub open spec fn linked_up(
    m: Seq<u8>,
    l: VirtqLayout,
    bufs: Seq<Buffer>,
    indices: Seq<u16>,
) -> bool {
    &&& indices.len() == bufs.len()
    &&& forall|j: int| 0 <= j < indices.len() ==> #[trigger] indices[j] < l.queue_size
    &&& forall|j: int|
        0 <= j < indices.len() ==> descriptor_at(
            m,
            l.desc_addr(#[trigger] indices[j] as int),
        ) == Ok::<Descriptor, MemError>(link(bufs, indices, j))
}

/// One step of a walk that meets no objection.
proof fn lemma_walk_step(
    m: Seq<u8>,
    l: VirtqLayout,
    index: u16,
    ttl: nat,
    bytes: nat,
    seen_writable: bool,
    d: Descriptor,
)
    requires
        ttl > 0,
        index < l.queue_size,
        descriptor_at(m, l.desc_addr(index as int)) == Ok::<Descriptor, MemError>(d),
        !d.indirect(),
        bytes + d.len <= u32::MAX,
        seen_writable ==> d.writable(),
    ensures
        walk(m, l, index, ttl, bytes, seen_writable) == if d.chained() {
            let rest = walk(m, l, d.next, (ttl - 1) as nat, bytes + d.len as nat, d.writable());
            Walk { descs: seq![d] + rest.descs, error: rest.error }
        } else {
            Walk { descs: seq![d], error: None }
        },
{
}

proof fn lemma_linked_at(
    m: Seq<u8>,
    l: VirtqLayout,
    bufs: Seq<Buffer>,
    indices: Seq<u16>,
    i: int,
)
    requires
        linked_up(m, l, bufs, indices),
        0 <= i < bufs.len(),
    ensures
        indices[i] < l.queue_size,
        descriptor_at(m, l.desc_addr(indices[i] as int)) == Ok::<Descriptor, MemError>(
            link(bufs, indices, i),
        ),
{
    reveal(linked_up);
}

/// A walk over descriptors that are linked up yields them all.
pub proof fn lemma_walk_links(
    m: Seq<u8>,
    l: VirtqLayout,
    bufs: Seq<Buffer>,
    indices: Seq<u16>,
    i: int,
    ttl: nat,
    bytes: nat,
    seen_writable: bool,
)
    requires
        0 <= i < bufs.len(),
        linked_up(m, l, bufs, indices),
        readable_first(bufs),
        seen_writable ==> bufs[i].device_writable,
        bufs.len() - i <= ttl,
        bytes + total_len(links(bufs, indices).skip(i)) <= u32::MAX,
    ensures
        walk(m, l, indices[i], ttl, bytes, seen_writable) == (Walk {
            descs: links(bufs, indices).skip(i),
            error: None,
        }),
    decreases bufs.len() - i,
{
    let all = links(bufs, indices);
    let d = link(bufs, indices, i);
    lemma_link_flags(bufs, indices, i);
    lemma_linked_at(m, l, bufs, indices, i);
    assert(all.skip(i)[0] == d);
    assert(all.skip(i).drop_first() =~= all.skip(i + 1));
    assert(total_len(all.skip(i)) == d.len + total_len(all.skip(i + 1)));
    lemma_walk_step(m, l, indices[i], ttl, bytes, seen_writable, d);
    if i + 1 < bufs.len() {
        assert(d.next == indices[i + 1]);
        if d.writable() {
            assert(bufs[i].device_writable && bufs[i + 1].device_writable);
        }
        lemma_walk_links(
            m,
            l,
            bufs,
            indices,
            i + 1,
            (ttl - 1) as nat,
            bytes + d.len as nat,
            d.writable(),
        );
        assert(seq![d] + all.skip(i + 1) =~= all.skip(i));
    } else {
        assert(seq![d] =~= all.skip(i));
    }
}

/// Advertising a chain: `head` goes into the slot for position `at`, `idx` into the index.
pub open spec fn advertised(m: Seq<u8>, l: VirtqLayout, at: u16, head: u16, idx: u16) -> Seq<u8> {
    put(
        put(m, l.avail_slot_addr(at as int), le_bytes(head as nat, 2)),
        l.avail_ring.0 + 2,
        le_bytes(idx as nat, 2),
    )
}

/// Slot and index read back what was advertised, and nothing outside the avail ring changes.
pub proof fn lemma_advertised(m: Seq<u8>, l: VirtqLayout, at: u16, head: u16, idx: u16)
    requires
        l.queue_size > 0,
        fits(m.len(), l.avail_ring.0 as int, l.avail_bytes()),
    ensures
        ({
            let c = advertised(m, l, at, head, idx);
            &&& u16_at(c, l.avail_slot_addr(at as int)) == Ok::<u16, MemError>(head)
            &&& u16_at(c, l.avail_ring.0 + 2) == Ok::<u16, MemError>(idx)
            &&& same_outside(m, c, l.avail_ring.0 as int, l.avail_bytes())
        }),
{
    let slot_at = l.avail_slot_addr(at as int);
    law_fields_inside_parts(l, at as int);
    lemma_le_bounds();
    lemma_le_bytes_len(head as nat, 2);
    lemma_le_bytes_len(idx as nat, 2);
    let b = put(m, slot_at, le_bytes(head as nat, 2));
    lemma_field_read_back(m, slot_at, head as nat, 2);
    lemma_write_frame(b, l.avail_ring.0 + 2, le_bytes(idx as nat, 2), slot_at, 2);
    lemma_field_read_back(b, l.avail_ring.0 + 2, idx as nat, 2);
}

/// Publishing goes through where the queue lies inside the region.
pub proof fn lemma_publish_goes_through(d: DriverState, m: Seq<u8>, bufs: Seq<Buffer>)
    requires
        d.wf(),
        d.layout.queue_size > 0,
        d.layout.inside(m.len()),
        0 < bufs.len() <= d.free.len(),
    ensures
        ({
            let indices = d.next_descs(bufs.len());
            let idx = wrap(d.avail_idx + 1) as u16;
            let a = store_all(m, chain_stores(d.layout, bufs, indices, bufs.len())).mem;
            d.publish(m, bufs) == Published {
                drv: DriverState { avail_idx: idx, ..d.reserved(bufs.len()) },
                mem: advertised(a, d.layout, d.avail_idx, indices[0], idx),
                result: Ok(indices[0]),
            }
        }),
{
    let n = bufs.len();
    let l = d.layout;
    let indices = d.next_descs(n);
    let idx = wrap(d.avail_idx + 1) as u16;
    let slot_at = l.avail_slot_addr(d.avail_idx as int);
    let slot = (slot_at, le_bytes(indices[0] as nat, 2));
    lemma_reserved_wf(d, n);
    lemma_chain_stored(m, l, bufs, indices, n);
    let stores = chain_stores(l, bufs, indices, n);
    law_fields_inside_parts(l, d.avail_idx as int);
    lemma_le_bytes_len(indices[0] as nat, 2);
    lemma_le_bytes_len(idx as nat, 2);
    assert(stores.push(slot).drop_last() =~= stores);
}

/// What the driver publishes is what the device sees. If the queue lies inside the region with its
/// parts apart, a chain for which there are descriptors is published, and afterwards
/// - its ring slot and the index in memory advertise it;
/// - the chain from its head is exactly its buffers, in order and direction;
/// - nothing outside the descriptor table and the avail ring has changed.
pub proof fn law_published_chain_is_seen(d: DriverState, m: Seq<u8>, bufs: Seq<Buffer>)
    requires
        d.wf(),
        d.layout.queue_size > 0,
        d.layout.inside(m.len()),
        d.layout.parts_apart(),
        0 < bufs.len() <= d.free.len(),
        readable_first(bufs),
        total_len(links(bufs, d.next_descs(bufs.len()))) <= u32::MAX,
    ensures
        ({
            let p = d.publish(m, bufs);
            let indices = d.next_descs(bufs.len());
            &&& p.result == Ok::<u16, DriverError>(indices[0])
            &&& p.mem.len() == m.len()
            &&& p.drv.wf()
            &&& u16_at(p.mem, d.layout.avail_slot_addr(d.avail_idx as int)) == Ok::<u16, MemError>(
                indices[0],
            )
            &&& u16_at(p.mem, d.layout.avail_ring.0 + 2) == Ok::<u16, MemError>(
                wrap(d.avail_idx + 1) as u16,
            )
            &&& p.drv.avail_idx == wrap(d.avail_idx + 1)
            &&& chain_from(p.mem, d.layout, indices[0]) == (Walk {
                descs: links(bufs, indices),
                error: None,
            })
            &&& forall|i: int|
                0 <= i < m.len() && !(d.layout.desc_table.0 <= i < d.layout.desc_table.0
                    + d.layout.desc_bytes()) && !(d.layout.avail_ring.0 <= i < d.layout.avail_ring.0
                    + d.layout.avail_bytes()) ==> #[trigger] p.mem[i] == m[i]
        }),
{
    let n = bufs.len();
    let l = d.layout;
    let indices = d.next_descs(n);
    let idx = wrap(d.avail_idx + 1) as u16;
    lemma_reserved_wf(d, n);
    law_descriptors_add_up(d);
    lemma_chain_stored(m, l, bufs, indices, n);
    let a = store_all(m, chain_stores(l, bufs, indices, n)).mem;
    let c = advertised(a, l, d.avail_idx, indices[0], idx);
    lemma_publish_goes_through(d, m, bufs);
    lemma_advertised(a, l, d.avail_idx, indices[0], idx);
    assert(linked_up(c, l, bufs, indices)) by {
        reveal(linked_up);
        assert forall|j: int| 0 <= j < n implies descriptor_at(
            c,
            l.desc_addr(#[trigger] indices[j] as int),
        ) == Ok::<Descriptor, MemError>(link(bufs, indices, j)) by {
            law_fields_inside_parts(l, indices[j] as int);
            lemma_descriptor_agrees(a, c, l.desc_addr(indices[j] as int));
        }
    }
    assert(links(bufs, indices).skip(0) =~= links(bufs, indices));
    lemma_walk_links(c, l, bufs, indices, 0, l.queue_size as nat, 0, false);
}

/// A completion that is published is there to be collected. If the used ring lies inside the region,
/// the device's completion goes through; the element reads back as the head and the length, the
/// index stands one further, nothing outside the used ring has changed, and neither has any element
/// in another slot.
pub proof fn law_completion_is_seen(dev: DeviceState, m: Seq<u8>, head: u16, len: u32)
    requires
        dev.layout.queue_size > 0,
        fits(m.len(), dev.layout.used_ring.0 as int, dev.layout.used_bytes()),
    ensures
        ({
            let c = dev.complete(m, head, len);
            &&& c.result == Ok::<(), MemError>(())
            &&& c.dev == dev.counted()
            &&& completion_at(c.mem, dev.layout, dev.next_used) == Ok::<(u16, u32), MemError>(
                (head, len),
            )
            &&& u16_at(c.mem, dev.layout.used_ring.0 + 2) == Ok::<u16, MemError>(
                wrap(dev.next_used + 1) as u16,
            )
            &&& same_outside(m, c.mem, dev.layout.used_ring.0 as int, dev.layout.used_bytes())
            &&& forall|j: u16|
                j as int % dev.layout.queue_size as int != dev.next_used as int
                    % dev.layout.queue_size as int ==> #[trigger] completion_at(
                    c.mem,
                    dev.layout,
                    j,
                ) == completion_at(m, dev.layout, j)
        }),
{
    let l = dev.layout;
    let elem = l.used_elem_addr(dev.next_used as int);
    let idx = wrap(dev.next_used + 1) as nat;
    law_fields_inside_parts(l, dev.next_used as int);
    lemma_le_bounds();
    lemma_le_bytes_len(head as nat, 4);
    lemma_le_bytes_len(len as nat, 4);
    lemma_le_bytes_len(idx, 2);
    let m1 = put(m, elem, le_bytes(head as nat, 4));
    let m2 = put(m1, elem + 4, le_bytes(len as nat, 4));
    let m3 = put(m2, l.used_ring.0 + 2, le_bytes(idx, 2));
    assert(dev.complete(m, head, len).mem == m3);
    lemma_field_read_back(m, elem, head as nat, 4);
    lemma_write_frame(m1, elem + 4, le_bytes(len as nat, 4), elem, 4);
    lemma_write_frame(m2, l.used_ring.0 + 2, le_bytes(idx, 2), elem, 4);
    lemma_field_read_back(m1, elem + 4, len as nat, 4);
    lemma_write_frame(m2, l.used_ring.0 + 2, le_bytes(idx, 2), elem + 4, 4);
    lemma_field_read_back(m2, l.used_ring.0 + 2, idx, 2);
    assert forall|j: u16|
        j as int % l.queue_size as int != dev.next_used as int % l.queue_size as int implies #[trigger] completion_at(
        m3,
        l,
        j,
    ) == completion_at(m, l, j) by {
        law_fields_inside_parts(l, j as int);
        let at = l.used_elem_addr(j as int);
        lemma_agree_reads(m, m3, at, 4);
        lemma_agree_reads(m, m3, at + 4, 4);
    }
}

/// The device and the region after the completions `done`, in order.
#[verifier::opaque]
pub open spec fn complete_all(dev: DeviceState, m: Seq<u8>, done: Seq<(u16, u32)>) -> Completion
    decreases done.len(),
{
    if done.len() == 0 {
        Completion { dev, mem: m, result: Ok(()) }
    } else {
        let c = complete_all(dev, m, done.drop_last());
        c.dev.complete(c.mem, done.last().0, done.last().1)
    }
}

/// The used elements from counter value `from` on are `done`.
#[verifier::opaque]
pub open spec fn stand_in_ring(
    m: Seq<u8>,
    l: VirtqLayout,
    from: u16,
    done: Seq<(u16, u32)>,
) -> bool {
    forall|i: int|
        0 <= i < done.len() ==> completion_at(m, l, wrap(from + i) as u16) == Ok::<
            (u16, u32),
            MemError,
        >(#[trigger] done[i])
}

pub proof fn lemma_stands_at(m: Seq<u8>, l: VirtqLayout, from: u16, done: Seq<(u16, u32)>, i: int)
    requires
        stand_in_ring(m, l, from, done),
        0 <= i < done.len(),
    ensures
        completion_at(m, l, wrap(from + i) as u16) == Ok::<(u16, u32), MemError>(done[i]),
{
    reveal(stand_in_ring);
    let _ = done[i];
}

/// One more completion stands behind those that stand already, as long as the ring has room.
pub proof fn lemma_one_more_stands(
    dev: DeviceState,
    m: Seq<u8>,
    from: u16,
    before: Seq<(u16, u32)>,
    one: (u16, u32),
)
    requires
        is_power_of_two(dev.layout.queue_size as int),
        fits(m.len(), dev.layout.used_ring.0 as int, dev.layout.used_bytes()),
        before.len() < dev.layout.queue_size,
        dev.next_used == wrap(from + before.len()),
        stand_in_ring(m, dev.layout, from, before),
    ensures
        stand_in_ring(dev.complete(m, one.0, one.1).mem, dev.layout, from, before.push(one)),
{
    let q = dev.layout.queue_size as int;
    let n = before.len() as int;
    let done = before.push(one);
    lemma_power_of_two_divides(q);
    law_completion_is_seen(dev, m, one.0, one.1);
    let k = dev.complete(m, one.0, one.1).mem;
    assert forall|i: int| 0 <= i < done.len() implies completion_at(
        k,
        dev.layout,
        wrap(from + i) as u16,
    ) == Ok::<(u16, u32), MemError>(#[trigger] done[i]) by {
        if i < n {
            lemma_stands_at(m, dev.layout, from, before, i);
            lemma_wrap_keeps_slot(q, from + i);
            lemma_wrap_keeps_slot(q, from + n);
            lemma_mod_differs(from + i, n - i, q);
        }
    }
    reveal(stand_in_ring);
}

/// What one completion does to the device and to the region outside the used ring.
#[verifier::opaque]
spec fn went_through(before: DeviceState, m: Seq<u8>, n: nat, c: Completion) -> bool {
    &&& c.dev == DeviceState {
        next_used: wrap(before.next_used + n) as u16,
        num_added: wrap(before.num_added + n) as u16,
        ..before
    }
    &&& c.result == Ok::<(), MemError>(())
    &&& n > 0 ==> u16_at(c.mem, before.layout.used_ring.0 + 2) == Ok::<u16, MemError>(
        wrap(before.next_used + n) as u16,
    )
    &&& same_outside(m, c.mem, before.layout.used_ring.0 as int, before.layout.used_bytes())
}

proof fn lemma_one_more_goes_through(
    dev: DeviceState,
    m: Seq<u8>,
    n: nat,
    c: Completion,
    one: (u16, u32),
)
    requires
        dev.layout.queue_size > 0,
        fits(m.len(), dev.layout.used_ring.0 as int, dev.layout.used_bytes()),
        went_through(dev, m, n, c),
    ensures
        went_through(dev, m, n + 1, c.dev.complete(c.mem, one.0, one.1)),
{
    let after = c.dev.complete(c.mem, one.0, one.1);
    assert(c.dev.layout == dev.layout && c.mem.len() == m.len()) by {
        reveal(went_through);
    }
    lemma_completion_counts(c.dev, c.mem, one.0, one.1);
    lemma_went_further(dev, m, n, c, after);
}

/// A completion that counts one more, and changes the used ring alone, goes one further.
proof fn lemma_went_further(dev: DeviceState, m: Seq<u8>, n: nat, c: Completion, after: Completion)
    requires
        went_through(dev, m, n, c),
        after.result == Ok::<(), MemError>(()),
        after.dev == c.dev.counted(),
        u16_at(after.mem, dev.layout.used_ring.0 + 2) == Ok::<u16, MemError>(
            wrap(c.dev.next_used + 1) as u16,
        ),
        same_outside(
            c.mem,
            after.mem,
            dev.layout.used_ring.0 as int,
            dev.layout.used_bytes(),
        ),
    ensures
        went_through(dev, m, n + 1, after),
{
    reveal(went_through);
    lemma_wrap_steps(dev.next_used as int, n as int);
    lemma_wrap_steps(dev.num_added as int, n as int);
    lemma_same_outside_trans(
        m,
        c.mem,
        after.mem,
        dev.layout.used_ring.0 as int,
        dev.layout.used_bytes(),
    );
}

proof fn lemma_same_outside_trans(a: Seq<u8>, b: Seq<u8>, c: Seq<u8>, at: int, n: nat)
    requires
        same_outside(a, b, at, n),
        same_outside(b, c, at, n),
    ensures
        same_outside(a, c, at, n),
{
    assert forall|i: int| 0 <= i < a.len() && !(at <= i < at + n) implies #[trigger] a[i] == c[i] by {
        assert(a[i] == b[i]);
        assert(b[i] == c[i]);
    }
}

/// The part of `law_completion_is_seen` that is about the device and the index.
proof fn lemma_completion_counts(dev: DeviceState, m: Seq<u8>, head: u16, len: u32)
    requires
        dev.layout.queue_size > 0,
        fits(m.len(), dev.layout.used_ring.0 as int, dev.layout.used_bytes()),
    ensures
        dev.complete(m, head, len).result == Ok::<(), MemError>(()),
        dev.complete(m, head, len).dev == dev.counted(),
        u16_at(dev.complete(m, head, len).mem, dev.layout.used_ring.0 + 2) == Ok::<u16, MemError>(
            wrap(dev.next_used + 1) as u16,
        ),
        same_outside(
            m,
            dev.complete(m, head, len).mem,
            dev.layout.used_ring.0 as int,
            dev.layout.used_bytes(),
        ),
{
    law_completion_is_seen(dev, m, head, len);
}

/// Completing a batch is completing all but its last, then its last.
proof fn lemma_complete_all_last(dev: DeviceState, m: Seq<u8>, done: Seq<(u16, u32)>)
    ensures
        complete_all(dev, m, done) == if done.len() == 0 {
            Completion { dev, mem: m, result: Ok(()) }
        } else {
            let c = complete_all(dev, m, done.drop_last());
            c.dev.complete(c.mem, done.last().0, done.last().1)
        },
{
    reveal_with_fuel(complete_all, 2);
}

proof fn lemma_nothing_goes_through(dev: DeviceState, m: Seq<u8>)
    ensures
        went_through(dev, m, 0, (Completion { dev, mem: m, result: Ok(()) })),
{
    reveal(went_through);
}

proof fn lemma_batch_goes_through(dev: DeviceState, m: Seq<u8>, done: Seq<(u16, u32)>)
    requires
        dev.layout.queue_size > 0,
        fits(m.len(), dev.layout.used_ring.0 as int, dev.layout.used_bytes()),
    ensures
        went_through(dev, m, done.len(), complete_all(dev, m, done)),
    decreases done.len(),
{
    lemma_complete_all_last(dev, m, done);
    if done.len() == 0 {
        lemma_nothing_goes_through(dev, m);
    } else {
        lemma_batch_goes_through(dev, m, done.drop_last());
        lemma_one_more_goes_through(
            dev,
            m,
            done.drop_last().len(),
            complete_all(dev, m, done.drop_last()),
            done.last(),
        );
    }
}

/// A batch of up to a queue of completions all stand in the used ring at once.
pub proof fn lemma_batch_stands(dev: DeviceState, m: Seq<u8>, done: Seq<(u16, u32)>)
    requires
        is_power_of_two(dev.layout.queue_size as int),
        fits(m.len(), dev.layout.used_ring.0 as int, dev.layout.used_bytes()),
        done.len() <= dev.layout.queue_size,
    ensures
        stand_in_ring(complete_all(dev, m, done).mem, dev.layout, dev.next_used, done),
    decreases done.len(),
{
    lemma_complete_all_last(dev, m, done);
    lemma_power_of_two_divides(dev.layout.queue_size as int);
    if done.len() > 0 {
        let some = done.drop_last();
        let b = complete_all(dev, m, some);
        lemma_batch_stands(dev, m, some);
        lemma_batch_goes_through(dev, m, some);
        assert(b.dev.layout == dev.layout && b.dev.next_used == wrap(dev.next_used + some.len())
            && b.mem.len() == m.len()) by {
            reveal(went_through);
        }
        lemma_one_more_stands(b.dev, b.mem, dev.next_used, some, done.last());
        assert(some.push(done.last()) =~= done);
    } else {
        reveal(stand_in_ring);
    }
}

/// A batch of completions all go through: the device counts them, the index in memory stands as
/// many further, and nothing outside the used ring changes.
pub proof fn law_batch_is_counted(dev: DeviceState, m: Seq<u8>, done: Seq<(u16, u32)>)
    requires
        dev.layout.queue_size > 0,
        fits(m.len(), dev.layout.used_ring.0 as int, dev.layout.used_bytes()),
    ensures
        ({
            let c = complete_all(dev, m, done);
            &&& c.dev == DeviceState {
                next_used: wrap(dev.next_used + done.len()) as u16,
                num_added: wrap(dev.num_added + done.len()) as u16,
                ..dev
            }
            &&& c.result == Ok::<(), MemError>(())
            &&& done.len() > 0 ==> u16_at(c.mem, dev.layout.used_ring.0 + 2) == Ok::<
                u16,
                MemError,
            >(wrap(dev.next_used + done.len()) as u16)
            &&& same_outside(m, c.mem, dev.layout.used_ring.0 as int, dev.layout.used_bytes())
        }),
{
    lemma_batch_goes_through(dev, m, done);
    reveal(went_through);
}

/// Every completion reaches the driver, once and in order. A driver that has collected everything
/// before them and now collects gets exactly the batch that the device published, up to a queue of
/// them, and the chains it names, and no others, are no longer in flight.
pub proof fn law_completions_are_collected(
    drv: DriverState,
    dev: DeviceState,
    m: Seq<u8>,
    done: Seq<(u16, u32)>,
)
    requires
        drv.wf(),
        drv.layout == dev.layout,
        drv.last_used == dev.next_used,
        is_power_of_two(dev.layout.queue_size as int),
        fits(m.len(), dev.layout.used_ring.0 as int, dev.layout.used_bytes()),
        0 < done.len() <= dev.layout.queue_size,
    ensures
        ({
            let after = complete_all(dev, m, done).mem;
            let c = drv.collect(after, done.len());
            &&& u16_at(after, dev.layout.used_ring.0 + 2) matches Ok(idx) && wrap(
                idx - drv.last_used,
            ) == done.len()
            &&& c.error is None
            &&& c.out == done
            &&& c.drv.wf()
            &&& c.drv.last_used == complete_all(dev, m, done).dev.next_used
            &&& forall|k: u16| #[trigger]
                c.drv.outstanding.contains_key(k) <==> drv.outstanding.contains_key(k)
                    && !names(done, k)
        }),
{
    let after = complete_all(dev, m, done).mem;
    lemma_power_of_two_divides(dev.layout.queue_size as int);
    law_batch_is_counted(dev, m, done);
    lemma_batch_stands(dev, m, done);
    lemma_collect_reads(drv, after, done, done.len());
    lemma_collect_wf(drv, after, done.len());
    assert(done.take(done.len() as int) =~= done);
}

/// One of the completions is that of chain `k`.
pub open spec fn names(done: Seq<(u16, u32)>, k: u16) -> bool {
    exists|i: int| 0 <= i < done.len() && (#[trigger] done[i]).0 == k
}

/// Collecting over elements that stand in the used ring hands them out and takes their chains back.
pub proof fn lemma_collect_reads(drv: DriverState, m: Seq<u8>, done: Seq<(u16, u32)>, n: nat)
    requires
        n <= done.len(),
        stand_in_ring(m, drv.layout, drv.last_used, done),
    ensures
        drv.collect(m, n).error is None,
        drv.collect(m, n).out == done.take(n as int),
        drv.collect(m, n).drv.layout == drv.layout,
        drv.collect(m, n).drv.last_used == wrap(drv.last_used + n),
        forall|k: u16| #[trigger]
            drv.collect(m, n).drv.outstanding.contains_key(k) <==> drv.outstanding.contains_key(k)
                && !names(done.take(n as int), k),
    decreases n,
{
    if n > 0 {
        lemma_collect_reads(drv, m, done, (n - 1) as nat);
        lemma_stands_at(m, drv.layout, drv.last_used, done, n - 1);
        let c = drv.collect(m, (n - 1) as nat);
        let one = done[n - 1];
        assert(done.take(n as int) =~= done.take(n - 1).push(one));
        assert forall|k: u16| #[trigger] names(done.take(n as int), k) <==> names(
            done.take(n - 1),
            k,
        ) || k == one.0 by {
            lemma_names_push(done.take(n - 1), one, k);
        }
        assert(drv.collect(m, n).drv.outstanding =~= c.drv.outstanding.remove(one.0));
    }
}

pub proof fn lemma_names_push(done: Seq<(u16, u32)>, one: (u16, u32), k: u16)
    ensures
        names(done.push(one), k) <==> names(done, k) || k == one.0,
{
    let more = done.push(one);
    if names(done, k) {
        let i = choose|i: int| 0 <= i < done.len() && (#[trigger] done[i]).0 == k;
        assert(more[i].0 == k);
    }
    if k == one.0 {
        assert(more[done.len() as int].0 == k);
    }
    if names(more, k) && k != one.0 {
        let i = choose|i: int| 0 <= i < more.len() && (#[trigger] more[i]).0 == k;
        assert(done[i].0 == k);
    }
}

} // verus!
