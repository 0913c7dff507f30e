//! What a driver's side that stands in for a guest leaves to the device.

use crate::le::{le_bytes, lemma_le_bounds, lemma_le_bytes_len};
use crate::virtq::backing::{
    chain_heads, mock_memory, mock_queue, publishable, ring_stores, slot_stores, table_stores,
};
use crate::virtq::chain::{descriptor_at, lemma_descriptor_agrees};
use crate::virtq::driver::{desc_stores, lemma_store_all_append, store_all, Stores};
use crate::virtq::laws::{lemma_descriptor_stored, lemma_other_descriptors, same_outside};
use crate::virtq::layout::{
    law_fields_inside_parts, lemma_least_multiple, lemma_power_of_two_divides, wrap, Descriptor,
    VirtqLayout,
};
use crate::virtq::mapped::MappedState;
use crate::virtq::mem::{fits, lemma_field_read_back, lemma_write_frame, put, u16_at, MemError};
use vstd::prelude::*;

verus! {

/// The crate's mock counts entries where it should count bytes: in every queue of two entries or
/// more its used ring starts inside the avail ring.
pub proof fn law_mock_rings_overlap(size: u16)
    requires
        2 <= size <= 32768,
    ensures
        ({
            let l = mock_queue(size).layout;
            &&& l.avail_ring.0 < l.used_ring.0 < l.avail_ring.0 + l.avail_bytes()
            &&& !l.parts_apart()
        }),
{
    lemma_least_multiple(16 * size + 4 + size, 4);
}

/// Setting the rings to nothing goes through, and changes the rings alone.
proof fn lemma_rings_stored(m: Seq<u8>, l: VirtqLayout)
    requires
        l.queue_size > 0,
        l.inside(m.len()),
        l.desc_table.0 + l.desc_bytes() <= l.avail_ring.0 <= l.used_ring.0,
    ensures
        store_all(m, ring_stores(l)).error is None,
        store_all(m, ring_stores(l)).mem.len() == m.len(),
        forall|i: int|
            0 <= i < m.len() && !(l.avail_ring.0 <= i < l.avail_ring.0 + l.avail_bytes()) && !(
            l.used_ring.0 <= i < l.used_ring.0 + l.used_bytes()) ==> #[trigger] store_all(
                m,
                ring_stores(l),
            ).mem[i] == m[i],
{
    let ws = ring_stores(l);
    lemma_le_bytes_len(0, 2);
    let m1 = put(m, ws[0].0, ws[0].1);
    let m2 = put(m1, ws[1].0, ws[1].1);
    let m3 = put(m2, ws[2].0, ws[2].1);
    let m4 = put(m3, ws[3].0, ws[3].1);
    let m5 = put(m4, ws[4].0, ws[4].1);
    let m6 = put(m5, ws[5].0, ws[5].1);
    reveal_with_fuel(store_all, 7);
    assert(ws.drop_last() =~= ws.take(5));
    assert(ws.take(5).drop_last() =~= ws.take(4));
    assert(ws.take(4).drop_last() =~= ws.take(3));
    assert(ws.take(3).drop_last() =~= ws.take(2));
    assert(ws.take(2).drop_last() =~= ws.take(1));
    assert(ws.take(1).drop_last() =~= Seq::<(int, Seq<u8>)>::empty());
    assert(store_all(m, ws) == Stores { mem: m6, error: None });
}

/// The descriptors stand in the table, and nothing outside it changes.
proof fn lemma_table_stored(m: Seq<u8>, l: VirtqLayout, descs: Seq<Descriptor>, n: nat)
    requires
        n <= descs.len() <= l.queue_size,
        fits(m.len(), l.desc_table.0 as int, l.desc_bytes()),
    ensures
        store_all(m, table_stores(l, descs, n)).error is None,
        same_outside(
            m,
            store_all(m, table_stores(l, descs, n)).mem,
            l.desc_table.0 as int,
            l.desc_bytes(),
        ),
        forall|i: int|
            0 <= i < n ==> descriptor_at(
                store_all(m, table_stores(l, descs, n)).mem,
                l.desc_addr(i),
            ) == Ok::<Descriptor, MemError>(#[trigger] descs[i]),
    decreases n,
{
    if n > 0 {
        let before = store_all(m, table_stores(l, descs, (n - 1) as nat));
        let at = l.desc_addr(n - 1);
        let d = descs[n - 1];
        lemma_table_stored(m, l, descs, (n - 1) as nat);
        lemma_store_all_append(m, table_stores(l, descs, (n - 1) as nat), desc_stores(at, d));
        law_fields_inside_parts(l, n - 1);
        lemma_descriptor_stored(before.mem, at, d);
        let after = store_all(m, table_stores(l, descs, n));
        assert forall|i: int| 0 <= i < n implies descriptor_at(after.mem, l.desc_addr(i)) == Ok::<
            Descriptor,
            MemError,
        >(#[trigger] descs[i]) by {
            if i < n - 1 {
                lemma_other_descriptors(before.mem, after.mem, l, n - 1, i);
            }
        }
    }
}

/// The heads stand in the avail ring, and nothing outside its slots changes.
proof fn lemma_slots_stored(m: Seq<u8>, l: VirtqLayout, heads: Seq<u16>, n: nat)
    requires
        n <= heads.len() <= l.queue_size,
        fits(m.len(), l.avail_ring.0 as int, l.avail_bytes()),
    ensures
        store_all(m, slot_stores(l, heads, n)).error is None,
        same_outside(
            m,
            store_all(m, slot_stores(l, heads, n)).mem,
            l.avail_ring.0 + 4,
            (2 * l.queue_size) as nat,
        ),
        forall|j: int|
            0 <= j < n ==> u16_at(
                store_all(m, slot_stores(l, heads, n)).mem,
                l.avail_ring.0 + 4 + 2 * j,
            ) == Ok::<u16, MemError>(#[trigger] heads[j]),
    decreases n,
{
    if n > 0 {
        let before = store_all(m, slot_stores(l, heads, (n - 1) as nat));
        let at = l.avail_ring.0 + 4 + 2 * (n - 1);
        let h = heads[n - 1] as nat;
        lemma_slots_stored(m, l, heads, (n - 1) as nat);
        lemma_le_bounds();
        lemma_le_bytes_len(h, 2);
        lemma_field_read_back(before.mem, at, h, 2);
        let some = slot_stores(l, heads, (n - 1) as nat);
        assert(some.push((at, le_bytes(h, 2))).drop_last() =~= some);
        let after = store_all(m, slot_stores(l, heads, n));
        assert(after.mem == put(before.mem, at, le_bytes(h, 2)));
        assert forall|j: int| 0 <= j < n implies u16_at(after.mem, l.avail_ring.0 + 4 + 2 * j)
            == Ok::<u16, MemError>(#[trigger] heads[j]) by {
            if j < n - 1 {
                lemma_write_frame(before.mem, at, le_bytes(h, 2), l.avail_ring.0 + 4 + 2 * j, 2);
            }
        }
    }
}

/// There are no more heads than descriptors.
proof fn lemma_heads_fit(descs: Seq<Descriptor>)
    ensures
        chain_heads(descs).len() <= descs.len(),
    decreases descs.len(),
{
    if descs.len() > 0 {
        lemma_heads_fit(descs.drop_last());
    }
}

/// What stands in for a guest publishes its chains, though its rings overlap: the device made over
/// it finds the descriptors in the table as they were given, and pending, in order, exactly the
/// chains that lie one behind the other there; and behind the queue the memory is as it was.
pub proof fn law_mock_publishes(ram: Seq<u8>, size: u16, descs: Seq<Descriptor>)
    requires
        publishable(size, descs.len()),
        mock_queue(size).layout.inside(ram.len()),
    ensures
        ({
            let s = MappedState { dev: mock_queue(size), ram: mock_memory(ram, size, descs) };
            let l = s.dev.layout;
            &&& s.ram.len() == ram.len()
            &&& forall|i: int|
                0 <= i < descs.len() ==> descriptor_at(s.ram, l.desc_addr(i)) == Ok::<
                    Descriptor,
                    MemError,
                >(#[trigger] descs[i])
            &&& s.pending_heads() == chain_heads(descs)
            &&& forall|i: int|
                l.used_ring.0 + l.used_bytes() <= i < ram.len() ==> #[trigger] s.ram[i] == ram[i]
        }),
{
    let l = mock_queue(size).layout;
    let heads = chain_heads(descs);
    let rings = ring_stores(l);
    let table = table_stores(l, descs, descs.len());
    let slots = slot_stores(l, heads, heads.len());
    let last = (l.avail_ring.0 + 2, le_bytes(heads.len(), 2));
    lemma_power_of_two_divides(size as int);
    lemma_least_multiple(16 * size + 4 + size, 4);
    lemma_heads_fit(descs);
    let a = store_all(ram, rings).mem;
    let b = store_all(a, table).mem;
    let c = store_all(b, slots).mem;
    lemma_rings_stored(ram, l);
    lemma_table_stored(a, l, descs, descs.len());
    lemma_slots_stored(b, l, heads, heads.len());
    lemma_store_all_append(ram, rings, table);
    lemma_store_all_append(ram, rings + table, slots);
    lemma_le_bounds();
    lemma_le_bytes_len(heads.len(), 2);
    lemma_field_read_back(c, last.0, heads.len(), 2);
    let d = put(c, last.0, last.1);
    assert((rings + table + slots + seq![last]).drop_last() =~= rings + table + slots);
    assert(mock_memory(ram, size, descs) == d);
    let s = MappedState { dev: mock_queue(size), ram: d };
    assert forall|i: int| 0 <= i < descs.len() implies descriptor_at(d, l.desc_addr(i)) == Ok::<
        Descriptor,
        MemError,
    >(#[trigger] descs[i]) by {
        law_fields_inside_parts(l, i);
        lemma_descriptor_agrees(b, d, l.desc_addr(i));
    }
    assert(s.dev.pending(d) == Ok::<u16, MemError>(heads.len() as u16));
    assert forall|j: int| 0 <= j < heads.len() implies #[trigger] s.pending_heads()[j]
        == heads[j] by {
        let at = l.avail_ring.0 + 4 + 2 * j;
        lemma_write_frame(c, last.0, last.1, at, 2);
        vstd::arithmetic::div_mod::lemma_small_mod(j as nat, size as nat);
        assert(l.avail_slot_addr(wrap(0 + j)) == at);
        assert(u16_at(c, at) == Ok::<u16, MemError>(heads[j]));
    }
    assert(s.pending_heads() =~= heads);
    assert forall|i: int| l.used_ring.0 + l.used_bytes() <= i < ram.len() implies #[trigger] d[i]
        == ram[i] by {
        assert(a[i] == ram[i]);
        assert(b[i] == a[i]);
        assert(c[i] == b[i]);
    }
}

} // verus!
