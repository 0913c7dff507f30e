//! What holds of a driver over several calls.

use crate::le::{le_bytes, lemma_le_bounds, lemma_le_bytes_len};
use crate::virtq::batch::{
    lemma_linked_up_kept, lemma_other_entries_kept, lemma_publish_keeps_events,
};
use crate::virtq::chain::{chain_from, descriptor_at, lemma_descriptor_agrees, total_len, Walk};
use crate::virtq::device::DeviceState;
use crate::virtq::driver::{
    accounted, chain_stores, completion_at, desc_stores, in_flight, lemma_collect_wf,
    lemma_reserved_wf, readable_first, store_all, Buffer, Collected, DriverError, DriverState,
};
use crate::virtq::laws::{
    advertised, lemma_advertised, lemma_chain_stored, lemma_descriptor_stored, lemma_names_push,
    lemma_publish_goes_through, lemma_walk_links, linked_up, links, names, same_outside,
};
use crate::virtq::layout::{
    law_event_is_due_once_passed, law_fields_inside_parts, least_multiple, lemma_least_multiple,
    lemma_wrap_near, lemma_wrap_steps, wrap, Descriptor, VirtqLayout,
};
use crate::virtq::mem::{
    bytes_at, lemma_field_read_back, lemma_read_back, lemma_write_frame, put, u16_at, u32_at,
    write_at, MemError,
};
use vstd::prelude::*;

verus! {

impl DriverState {
    /// The driver after buffers of these lengths were asked for, one after the other. One for which
    /// there is no room changes nothing, so that a smaller one may still find some.
    pub open spec fn after_asking(self, lens: Seq<u32>) -> DriverState
        decreases lens.len(),
    {
        if lens.len() == 0 {
            self
        } else {
            let d = self.after_asking(lens.drop_last());
            if d.arena_takes(lens.last()) {
                d.allocated(lens.last())
            } else {
                d
            }
        }
    }

    /// Where the buffer went that was asked for when `i` others had been, if it got any space.
    pub open spec fn handed_out(self, lens: Seq<u32>, i: int) -> Option<u64> {
        let d = self.after_asking(lens.take(i));
        if d.arena_takes(lens[i]) {
            Some(d.arena)
        } else {
            None
        }
    }
}

/// The arena only grows, in steps of eight.
proof fn lemma_arena_grows(d: DriverState, lens: Seq<u32>, i: int)
    requires
        d.arena as int % 8 == 0,
        d.arena_end <= u64::MAX - 8,
        0 <= i <= lens.len(),
    ensures
        ({
            let now = d.after_asking(lens.take(i));
            let then = d.after_asking(lens);
            &&& now.arena as int % 8 == 0
            &&& now.arena_end == d.arena_end
            &&& d.arena <= now.arena <= then.arena
            &&& then.arena as int % 8 == 0
            &&& then.arena_end == d.arena_end
        }),
    decreases lens.len(),
{
    if i == lens.len() {
        assert(lens.take(i) =~= lens);
    }
    if lens.len() > 0 {
        let some = lens.drop_last();
        let k = if i < lens.len() {
            i
        } else {
            i - 1
        };
        lemma_arena_grows(d, some, k);
        assert(some.take(k) =~= lens.take(k));
        let before = d.after_asking(some);
        lemma_least_multiple(before.arena + lens.last(), 8);
    }
}

/// What is handed out is apart. Over any sequence of allocations from a new driver, every buffer
/// that got space starts at a multiple of eight, lies behind the queue, ends by the end of the arena,
/// and shares no byte with one that was handed out before it.
pub proof fn law_allocations_stay_apart(d: DriverState, lens: Seq<u32>)
    requires
        d.arena == least_multiple(d.layout.used_ring.0 + d.layout.used_bytes(), 16),
        d.arena_end <= u64::MAX - 8,
    ensures
        forall|i: int|
            0 <= i < lens.len() ==> match #[trigger] d.handed_out(lens, i) {
                Some(a) => {
                    &&& a as int % 8 == 0
                    &&& d.layout.used_ring.0 + d.layout.used_bytes() <= a
                    &&& a + lens[i] <= d.arena_end
                },
                None => d.after_asking(lens.take(i + 1)) == d.after_asking(lens.take(i)),
            },
        forall|i: int, j: int|
            0 <= i < j < lens.len() && (#[trigger] d.handed_out(lens, i)) is Some && (
            #[trigger] d.handed_out(lens, j)) is Some ==> d.handed_out(lens, i)->Some_0 + lens[i]
                <= d.handed_out(lens, j)->Some_0,
{
    lemma_least_multiple(d.layout.used_ring.0 + d.layout.used_bytes(), 16);
    assert forall|i: int| 0 <= i < lens.len() implies match #[trigger] d.handed_out(lens, i) {
        Some(a) => {
            &&& a as int % 8 == 0
            &&& d.layout.used_ring.0 + d.layout.used_bytes() <= a
            &&& a + lens[i] <= d.arena_end
        },
        None => d.after_asking(lens.take(i + 1)) == d.after_asking(lens.take(i)),
    } by {
        lemma_arena_grows(d, lens, i);
        assert(lens.take(i + 1).drop_last() =~= lens.take(i));
        assert(lens.take(i + 1).last() == lens[i]);
    }
    assert forall|i: int, j: int|
        0 <= i < j < lens.len() && (#[trigger] d.handed_out(lens, i)) is Some && (
        #[trigger] d.handed_out(lens, j)) is Some implies d.handed_out(lens, i)->Some_0 + lens[i]
        <= d.handed_out(lens, j)->Some_0 by {
        let before = d.after_asking(lens.take(i));
        assert(lens.take(i + 1).drop_last() =~= lens.take(i));
        assert(lens.take(i + 1).last() == lens[i]);
        lemma_arena_grows(d, lens, i);
        lemma_least_multiple(before.arena + lens[i], 8);
        lemma_arena_grows(d, lens.take(j), i + 1);
        assert(lens.take(j).take(i + 1) =~= lens.take(i + 1));
    }
}

/// What is put into a buffer is there. In a region that holds the arena, data for which there is
/// space goes in, reads back, and changes no byte outside its buffer.
pub proof fn law_allocated_data_reads_back(d: DriverState, m: Seq<u8>, data: Seq<u8>)
    requires
        data.len() <= u32::MAX,
        d.arena_takes(data.len() as u32),
        d.arena_end <= m.len(),
    ensures
        write_at(m, d.arena as int, data) matches Ok(after) && bytes_at(
            after,
            d.arena as int,
            data.len(),
        ) == Ok::<Seq<u8>, MemError>(data) && same_outside(m, after, d.arena as int, data.len()),
{
    lemma_read_back(m, d.arena as int, data);
}

/// Publishing leaves the chains that are in flight. Whatever buffers are published, a chain that was
/// published before over buffers of its own, and not collected, stands in the table as it stood, and
/// is walked as it was.
pub proof fn law_earlier_chains_are_kept(
    d: DriverState,
    m: Seq<u8>,
    bufs: Seq<Buffer>,
    earlier: Seq<Buffer>,
    h: u16,
)
    requires
        d.wf(),
        d.layout.queue_size > 0,
        d.layout.inside(m.len()),
        d.layout.parts_apart(),
        0 < bufs.len() <= d.free.len(),
        d.outstanding.contains_key(h),
        linked_up(m, d.layout, earlier, d.outstanding[h]),
    ensures
        ({
            let p = d.publish(m, bufs);
            let chain = d.outstanding[h];
            &&& p.drv.outstanding.contains_key(h)
            &&& p.drv.outstanding[h] == chain
            &&& linked_up(p.mem, d.layout, earlier, chain)
            &&& readable_first(earlier) && earlier.len() <= d.layout.queue_size && total_len(
                links(earlier, chain),
            ) <= u32::MAX ==> chain_from(p.mem, d.layout, h) == (Walk {
                descs: links(earlier, chain),
                error: None,
            })
        }),
{
    let l = d.layout;
    let n = bufs.len();
    let indices = d.next_descs(n);
    let idx = wrap(d.avail_idx + 1) as u16;
    let chain = d.outstanding[h];
    lemma_reserved_wf(d, n);
    lemma_chain_stored(m, l, bufs, indices, n);
    lemma_publish_goes_through(d, m, bufs);
    let a = store_all(m, chain_stores(l, bufs, indices, n)).mem;
    let c = advertised(a, l, d.avail_idx, indices[0], idx);
    lemma_advertised(a, l, d.avail_idx, indices[0], idx);
    assert forall|i: int| 0 <= i < chain.len() implies chain[i] < l.queue_size
        && !indices.contains(#[trigger] chain[i]) by {
        reveal(accounted);
        assert(in_flight(d.outstanding, h, chain[i]));
        if indices.contains(chain[i]) {
            let j = choose|j: int| 0 <= j < n && indices[j] == chain[i];
            assert(d.free[d.free.len() - 1 - j] == chain[i]);
            assert(d.free.contains(chain[i]));
        }
    }
    assert(chain.len() > 0 && chain[0] == h) by {
        reveal(accounted);
    }
    assert(indices[0] != h) by {
        assert(!indices.contains(chain[0]));
        assert(indices[0] == indices[0]);
    }
    assert forall|i: int| 0 <= i < chain.len() implies descriptor_at(
        c,
        l.desc_addr(#[trigger] chain[i] as int),
    ) == descriptor_at(m, l.desc_addr(chain[i] as int)) by {
        lemma_other_entries_kept(m, l, bufs, indices, n, chain[i]);
        law_fields_inside_parts(l, chain[i] as int);
        lemma_descriptor_agrees(a, c, l.desc_addr(chain[i] as int));
    }
    lemma_linked_up_kept(m, c, l, earlier, chain);
    if readable_first(earlier) && earlier.len() <= l.queue_size && total_len(
        links(earlier, chain),
    ) <= u32::MAX {
        assert(earlier.len() > 0) by {
            reveal(linked_up);
        }
        assert(links(earlier, chain).skip(0) =~= links(earlier, chain));
        lemma_walk_links(c, l, earlier, chain, 0, l.queue_size as nat, 0, false);
    }
}

/// How many descriptors the chains in flight hold that are filed under a head below `k`.
pub open spec fn held(outstanding: Map<u16, Seq<u16>>, k: nat) -> nat
    decreases k,
{
    if k == 0 {
        0
    } else {
        held(outstanding, (k - 1) as nat) + if outstanding.contains_key((k - 1) as u16) {
            outstanding[(k - 1) as u16].len()
        } else {
            0
        }
    }
}

/// Those descriptors, with those that are free.
spec fn known(d: DriverState, k: nat) -> Set<int> {
    vstd::set_lib::set_int_range(0, d.layout.queue_size as int).filter(
        |i: int|
            d.free.contains(i as u16) || exists|h: u16|
                h < k && #[trigger] in_flight(d.outstanding, h, i as u16),
    )
}

/// A list without repetitions, as a set of numbers, has as many members.
proof fn lemma_as_set(s: Seq<u16>) -> (r: Set<int>)
    requires
        s.no_duplicates(),
    ensures
        r.finite(),
        r.len() == s.len(),
        forall|i: int| #[trigger] r.contains(i) <==> 0 <= i <= 0xffff && s.contains(i as u16),
{
    let t = s.map_values(|x: u16| x as int);
    assert(t.no_duplicates()) by {
        assert forall|i: int, j: int|
            0 <= i < t.len() && 0 <= j < t.len() && i != j implies t[i] != t[j] by {
            assert(s[i] != s[j]);
        }
    }
    t.unique_seq_to_set();
    let r = t.to_set();
    assert forall|i: int| #[trigger] r.contains(i) <==> 0 <= i <= 0xffff && s.contains(i as u16) by {
        if r.contains(i) {
            let j = choose|j: int| 0 <= j < t.len() && t[j] == i;
            assert(s[j] == i as u16);
        }
        if 0 <= i <= 0xffff && s.contains(i as u16) {
            let j = choose|j: int| 0 <= j < s.len() && s[j] == i as u16;
            assert(t[j] == i);
        }
    }
    r
}

/// Chain by chain, what is known is what is free and what is held.
proof fn lemma_known(d: DriverState, k: nat)
    requires
        d.wf(),
        k <= 0x1_0000,
    ensures
        known(d, k).finite(),
        known(d, k).len() == d.free.len() + held(d.outstanding, k),
    decreases k,
{
    reveal(accounted);
    vstd::set_lib::lemma_int_range(0, d.layout.queue_size as int);
    if k == 0 {
        let free = lemma_as_set(d.free);
        assert(known(d, 0) =~= free) by {
            assert forall|i: int| known(d, 0).contains(i) <==> free.contains(i) by {
                if free.contains(i) {
                    let j = choose|j: int| 0 <= j < d.free.len() && d.free[j] == i as u16;
                    assert(d.free[j] < d.layout.queue_size);
                }
            }
        }
    } else {
        let h = (k - 1) as u16;
        let before = known(d, (k - 1) as nat);
        lemma_known(d, (k - 1) as nat);
        if d.outstanding.contains_key(h) {
            let chain = d.outstanding[h];
            let own = lemma_as_set(chain);
            assert(known(d, k) =~= before.union(own)) by {
                assert forall|i: int| known(d, k).contains(i) <==> before.union(own).contains(i) by {
                    if own.contains(i) {
                        assert(in_flight(d.outstanding, h, i as u16));
                    }
                    if known(d, k).contains(i) && !before.contains(i) {
                        let g = choose|g: u16|
                            g < k && #[trigger] in_flight(d.outstanding, g, i as u16);
                        assert(g == h);
                    }
                }
            }
            assert(before.disjoint(own)) by {
                assert forall|i: int| before.contains(i) implies !own.contains(i) by {
                    if own.contains(i) {
                        assert(in_flight(d.outstanding, h, i as u16));
                        if !d.free.contains(i as u16) {
                            let g = choose|g: u16|
                                g < k - 1 && #[trigger] in_flight(d.outstanding, g, i as u16);
                            assert(g == h);
                        }
                    }
                }
            }
            vstd::set_lib::lemma_set_disjoint_lens(before, own);
        } else {
            assert(known(d, k) =~= before) by {
                assert forall|i: int| known(d, k).contains(i) <==> before.contains(i) by {
                    if known(d, k).contains(i) && !before.contains(i) {
                        let g = choose|g: u16|
                            g < k && #[trigger] in_flight(d.outstanding, g, i as u16);
                        assert(g != h);
                    }
                }
            }
        }
    }
}

/// The descriptors add up: those that are free and those of the chains in flight are as many as the
/// table has.
pub proof fn law_descriptors_add_up(d: DriverState)
    requires
        d.wf(),
    ensures
        d.free.len() + held(d.outstanding, 0x1_0000) == d.layout.queue_size,
{
    let all = vstd::set_lib::set_int_range(0, d.layout.queue_size as int);
    vstd::set_lib::lemma_int_range(0, d.layout.queue_size as int);
    lemma_known(d, 0x1_0000);
    assert(known(d, 0x1_0000) =~= all) by {
        reveal(accounted);
        assert forall|i: int| all.contains(i) implies known(d, 0x1_0000).contains(i) by {
            if !d.free.contains(i as u16) {
                let h = choose|h: u16| #[trigger] in_flight(d.outstanding, h, i as u16);
                assert(h < 0x1_0000);
            }
        }
    }
}

/// Where no chain is in flight, none holds a descriptor.
proof fn lemma_none_held(k: nat)
    ensures
        held(Map::empty(), k) == 0,
    decreases k,
{
    if k > 0 {
        lemma_none_held((k - 1) as nat);
    }
}

/// With nothing in flight the whole table is free: no descriptor leaks.
pub proof fn law_every_descriptor_comes_back(d: DriverState)
    requires
        d.wf(),
        d.outstanding =~= Map::empty(),
    ensures
        d.free.len() == d.layout.queue_size,
{
    law_descriptors_add_up(d);
    lemma_none_held(0x1_0000);
}

/// A driver that has collected everything finds nothing new: collecting once more hands out nothing
/// and changes nothing.
pub proof fn law_nothing_is_collected_twice(d: DriverState, m: Seq<u8>, idx: u16)
    requires
        d.wf(),
        d.collect(m, wrap(idx - d.last_used) as nat).error is None,
    ensures
        ({
            let c = d.collect(m, wrap(idx - d.last_used) as nat);
            &&& c.drv.last_used == idx
            &&& c.drv.collect(m, wrap(idx - c.drv.last_used) as nat) == (Collected {
                drv: c.drv,
                out: Seq::empty(),
                error: None,
            })
        }),
{
    let n = wrap(idx - d.last_used);
    lemma_collect_wf(d, m, n as nat);
    lemma_wrap_near(idx - d.last_used);
    lemma_wrap_near(d.last_used + n);
    lemma_wrap_near(0);
}


/// A kick is due exactly where the index has left behind the value that the device asked about since
/// the last decision, however far; without event indices it always is; and if the device's field
/// cannot be read, so it is said.
pub proof fn law_kick_is_due_once_passed(d: DriverState, m: Seq<u8>)
    ensures
        d.kick_due(m) == if !d.event_idx {
            Ok::<bool, MemError>(true)
        } else {
            match u16_at(m, d.layout.used_ring.0 + 4 + 8 * d.layout.queue_size) {
                Ok(event) => Ok::<bool, MemError>(
                    (event - d.last_kick) % 0x1_0000 < (d.avail_idx - d.last_kick) % 0x1_0000,
                ),
                Err(e) => Err::<bool, MemError>(e),
            }
        },
{
    match u16_at(m, d.layout.avail_event_addr()) {
        Ok(event) => {
            law_event_is_due_once_passed(event, d.avail_idx, d.last_kick);
        },
        Err(e) => {},
    }
}

/// The driver and the region after these chains were published, one after the other.
pub open spec fn publish_all(d: DriverState, m: Seq<u8>, chains: Seq<Seq<Buffer>>) -> (
    DriverState,
    Seq<u8>,
)
    decreases chains.len(),
{
    if chains.len() == 0 {
        (d, m)
    } else {
        let (d1, m1) = publish_all(d, m, chains.drop_last());
        let p = d1.publish(m1, chains.last());
        (p.drv, p.mem)
    }
}

/// When its turn comes, each of the chains has a buffer, and there are descriptors for all it has.
pub open spec fn room_for_all(d: DriverState, m: Seq<u8>, chains: Seq<Seq<Buffer>>) -> bool {
    forall|i: int|
        0 <= i < chains.len() ==> 0 < (#[trigger] chains[i]).len() <= publish_all(
            d,
            m,
            chains.take(i),
        ).0.free.len()
}

/// A chain that is published puts the index one further, in the driver and in memory, and leaves what
/// the device asked to be told about.
proof fn lemma_publish_advances(d: DriverState, m: Seq<u8>, bufs: Seq<Buffer>)
    requires
        d.wf(),
        d.layout.queue_size > 0,
        d.layout.inside(m.len()),
        d.layout.parts_apart(),
        0 < bufs.len() <= d.free.len(),
    ensures
        ({
            let p = d.publish(m, bufs);
            &&& p.result is Ok
            &&& p.drv.wf()
            &&& p.drv.layout == d.layout
            &&& p.drv.avail_idx == wrap(d.avail_idx + 1)
            &&& p.drv.last_kick == d.last_kick
            &&& p.drv.event_idx == d.event_idx
            &&& p.mem.len() == m.len()
            &&& u16_at(p.mem, d.layout.avail_ring.0 + 2) == Ok::<u16, MemError>(p.drv.avail_idx)
            &&& u16_at(p.mem, d.layout.avail_event_addr()) == u16_at(
                m,
                d.layout.avail_event_addr(),
            )
        }),
{
    let l = d.layout;
    let n = bufs.len();
    let indices = d.next_descs(n);
    let idx = wrap(d.avail_idx + 1) as u16;
    lemma_reserved_wf(d, n);
    lemma_chain_stored(m, l, bufs, indices, n);
    lemma_publish_goes_through(d, m, bufs);
    lemma_publish_keeps_events(d, m, bufs);
    let a = store_all(m, chain_stores(l, bufs, indices, n)).mem;
    lemma_advertised(a, l, d.avail_idx, indices[0], idx);
}

/// After chains were published, the index is as many further.
proof fn lemma_publish_all(d: DriverState, m: Seq<u8>, chains: Seq<Seq<Buffer>>)
    requires
        d.wf(),
        d.layout.queue_size > 0,
        d.layout.inside(m.len()),
        d.layout.parts_apart(),
        room_for_all(d, m, chains),
    ensures
        ({
            let (e, k) = publish_all(d, m, chains);
            &&& e.wf()
            &&& e.layout == d.layout
            &&& e.avail_idx == wrap(d.avail_idx + chains.len())
            &&& e.last_kick == d.last_kick
            &&& e.event_idx == d.event_idx
            &&& k.len() == m.len()
            &&& chains.len() > 0 ==> u16_at(k, d.layout.avail_ring.0 + 2) == Ok::<u16, MemError>(
                e.avail_idx,
            )
            &&& u16_at(k, d.layout.avail_event_addr()) == u16_at(m, d.layout.avail_event_addr())
        }),
    decreases chains.len(),
{
    if chains.len() == 0 {
        lemma_wrap_near(d.avail_idx as int);
    } else {
        let some = chains.drop_last();
        assert(room_for_all(d, m, some)) by {
            assert forall|i: int| 0 <= i < some.len() implies 0 < (#[trigger] some[i]).len()
                <= publish_all(d, m, some.take(i)).0.free.len() by {
                assert(some[i] == chains[i]);
                assert(some.take(i) =~= chains.take(i));
            }
        }
        lemma_publish_all(d, m, some);
        let (d1, m1) = publish_all(d, m, some);
        assert(chains.take(chains.len() - 1) =~= some);
        assert(chains[chains.len() - 1] == chains.last());
        lemma_publish_advances(d1, m1, chains.last());
        lemma_wrap_steps(d.avail_idx as int, some.len() as int);
    }
}

/// No wake-up is lost in a burst. A device that asked to be notified and then saw nothing pending may
/// sleep: however many chains the driver publishes before it next decides about a kick, and whenever
/// it decided before, up to a turn of the counter, it decides to kick; and the device finds them all.
pub proof fn law_no_lost_wakeup_in_a_burst(
    dev: DeviceState,
    drv: DriverState,
    m: Seq<u8>,
    chains: Seq<Seq<Buffer>>,
)
    requires
        dev.event_idx && drv.event_idx,
        drv.wf(),
        drv.layout == dev.layout,
        dev.layout.queue_size > 0,
        dev.layout.inside(m.len()),
        dev.layout.parts_apart(),
        dev.notifications_on(m) is Ok,
        dev.pending(dev.notifications_on(m)->Ok_0) == Ok::<u16, MemError>(0),
        u16_at(m, drv.layout.avail_ring.0 + 2) == Ok::<u16, MemError>(drv.avail_idx),
        chains.len() > 0,
        (drv.avail_idx - drv.last_kick) % 0x1_0000 + chains.len() < 0x1_0000,
        room_for_all(drv, dev.notifications_on(m)->Ok_0, chains),
    ensures
        ({
            let (after, k) = publish_all(drv, dev.notifications_on(m)->Ok_0, chains);
            &&& after.kick_due(k) == Ok::<bool, MemError>(true)
            &&& dev.pending(k) == Ok::<u16, MemError>(chains.len() as u16)
        }),
{
    let l = dev.layout;
    let at = l.avail_event_addr();
    let n = chains.len() as int;
    law_fields_inside_parts(l, 0);
    lemma_le_bytes_len(dev.next_avail as nat, 2);
    lemma_le_bounds();
    lemma_field_read_back(m, at, dev.next_avail as nat, 2);
    let m1 = dev.notifications_on(m)->Ok_0;
    assert(m1 == put(m, at, le_bytes(dev.next_avail as nat, 2)));
    lemma_write_frame(m, at, le_bytes(dev.next_avail as nat, 2), l.avail_ring.0 + 2, 2);
    assert(drv.avail_idx == dev.next_avail) by {
        lemma_wrap_near(drv.avail_idx - dev.next_avail);
    }
    lemma_publish_all(drv, m1, chains);
    let (after, k) = publish_all(drv, m1, chains);
    law_kick_is_due_once_passed(after, k);
    lemma_burst_distances(drv.avail_idx as int, drv.last_kick as int, n);
}

/// The distances round the counter of a burst of `n` from `at`, with the last decision at `last`.
proof fn lemma_burst_distances(at: int, last: int, n: int)
    requires
        0 <= at < 0x1_0000,
        0 <= last < 0x1_0000,
        0 < n,
        (at - last) % 0x1_0000 + n < 0x1_0000,
    ensures
        (at - last) % 0x1_0000 < (wrap(at + n) - last) % 0x1_0000,
        wrap(wrap(at + n) - at) == n,
{
    lemma_wrap_near(at - last);
    lemma_wrap_near(at + n);
    lemma_wrap_near(wrap(at + n) - last);
    lemma_wrap_near(wrap(at + n) - at);
}

/// Publishing takes as many descriptors as there are buffers, all of them free before, none twice,
/// files the chain under the first, which is what is returned, and changes no other chain. What was
/// collected, the arena and the mode stay as they were.
pub proof fn law_publishing_takes_descriptors(d: DriverState, m: Seq<u8>, bufs: Seq<Buffer>)
    requires
        d.wf(),
        d.layout.queue_size > 0,
        d.layout.inside(m.len()),
        d.layout.parts_apart(),
        0 < bufs.len() <= d.free.len(),
    ensures
        ({
            let p = d.publish(m, bufs);
            let head = p.result->Ok_0;
            &&& p.result is Ok
            &&& p.drv.wf()
            &&& p.drv.free.len() == d.free.len() - bufs.len()
            &&& forall|i: int| 0 <= i < p.drv.free.len() ==> #[trigger] p.drv.free[i] == d.free[i]
            &&& p.drv.outstanding.contains_key(head)
            &&& !d.outstanding.contains_key(head)
            &&& p.drv.outstanding[head].len() == bufs.len()
            &&& p.drv.outstanding[head][0] == head
            &&& p.drv.outstanding[head].no_duplicates()
            &&& forall|i: int|
                0 <= i < bufs.len() ==> d.free.contains(#[trigger] p.drv.outstanding[head][i])
                    && p.drv.outstanding[head][i] == d.free[d.free.len() - 1 - i]
            &&& forall|h: u16|
                h != head ==> (#[trigger] p.drv.outstanding.contains_key(h)
                    <==> d.outstanding.contains_key(h)) && p.drv.outstanding[h]
                    == d.outstanding[h]
            &&& p.drv.avail_idx == (d.avail_idx + 1) % 0x1_0000
            &&& p.drv.last_kick == d.last_kick && p.drv.last_used == d.last_used
            &&& p.drv.arena == d.arena && p.drv.arena_end == d.arena_end
            &&& p.drv.layout == d.layout && p.drv.event_idx == d.event_idx
        }),
{
    let n = bufs.len();
    let indices = d.next_descs(n);
    lemma_reserved_wf(d, n);
    lemma_publish_goes_through(d, m, bufs);
    lemma_publish_advances(d, m, bufs);
    let p = d.publish(m, bufs);
    reveal(accounted);
    assert(indices[0] == d.free[d.free.len() - 1]);
    assert(d.free.contains(indices[0]));
    if d.outstanding.contains_key(indices[0]) {
        assert(d.outstanding[indices[0]][0] == indices[0]);
        assert(in_flight(d.outstanding, indices[0], indices[0]));
    }
    assert forall|i: int| 0 <= i < n implies d.free.contains(
        #[trigger] p.drv.outstanding[indices[0]][i],
    ) && p.drv.outstanding[indices[0]][i] == d.free[d.free.len() - 1 - i] by {
        assert(p.drv.outstanding[indices[0]][i] == d.free[d.free.len() - 1 - i]);
    }
}

/// A chain for which there are not descriptors enough is refused, for that reason, and nothing of it
/// is done; for no other chain is that the reason.
pub proof fn law_chain_needs_descriptors(d: DriverState, m: Seq<u8>, bufs: Seq<Buffer>)
    ensures
        d.publish(m, bufs).result == Err::<u16, DriverError>(DriverError::OutOfDescriptors)
            <==> bufs.len() > d.free.len(),
        bufs.len() > d.free.len() ==> d.publish(m, bufs).drv == d && d.publish(m, bufs).mem == m,
{
}

/// What an allocation does: a buffer fits exactly where it ends by the end of the arena; the next one
/// is then handed out from the first multiple of eight behind it, and nothing else of the driver
/// changes.
pub proof fn law_allocation(d: DriverState, len: u32)
    requires
        d.arena_end <= u64::MAX - 8,
    ensures
        d.arena_takes(len) <==> d.arena + len <= d.arena_end,
        d.arena_takes(len) ==> {
            let e = d.allocated(len);
            &&& d.arena + len <= e.arena < d.arena + len + 8
            &&& e.arena as int % 8 == 0
            &&& e == DriverState { arena: e.arena, ..d }
        },
{
    lemma_least_multiple(d.arena + len, 8);
}

/// A chain that comes back gives back all its descriptors, and is in flight no more; the others are
/// as they were. A head that is not in flight gives nothing back.
pub proof fn law_reclaiming(d: DriverState, id: u16)
    ensures
        ({
            let e = d.reclaimed(id);
            &&& !d.outstanding.contains_key(id) ==> e == d
            &&& d.outstanding.contains_key(id) ==> {
                &&& e.free.len() == d.free.len() + d.outstanding[id].len()
                &&& forall|i: u16| #[trigger]
                    e.free.contains(i) <==> d.free.contains(i) || d.outstanding[id].contains(i)
                &&& !e.outstanding.contains_key(id)
                &&& forall|h: u16|
                    h != id ==> (#[trigger] e.outstanding.contains_key(h)
                        <==> d.outstanding.contains_key(h)) && e.outstanding[h]
                        == d.outstanding[h]
                &&& e == DriverState { free: e.free, outstanding: e.outstanding, ..d }
            }
        }),
{
    if d.outstanding.contains_key(id) {
        let e = d.reclaimed(id);
        let chain = d.outstanding[id];
        assert forall|i: u16| #[trigger] e.free.contains(i) <==> d.free.contains(i) || chain.contains(
            i,
        ) by {
            if d.free.contains(i) {
                let j = choose|j: int| 0 <= j < d.free.len() && d.free[j] == i;
                assert(e.free[j] == i);
            }
            if chain.contains(i) {
                let j = choose|j: int| 0 <= j < chain.len() && chain[j] == i;
                assert(e.free[d.free.len() + j] == i);
            }
            if e.free.contains(i) {
                let j = choose|j: int| 0 <= j < e.free.len() && e.free[j] == i;
                if j >= d.free.len() {
                    assert(chain[j - d.free.len()] == i);
                }
            }
        }
    }
}

/// The completion that was published when the counter stood at `i` is in the element of that slot:
/// the low half of the identifier is the head, and the length stands behind it.
pub proof fn law_completion_fields(m: Seq<u8>, l: VirtqLayout, i: u16)
    requires
        l.queue_size > 0,
    ensures
        ({
            let at = l.used_ring.0 + 4 + 8 * (i as int % l.queue_size as int);
            match completion_at(m, l, i) {
                Ok((head, len)) => (u32_at(m, at) matches Ok(id) && head == id % 0x1_0000)
                    && u32_at(m, at + 4) == Ok::<u32, MemError>(len),
                Err(e) => at + 8 > m.len(),
            }
        }),
{
    vstd::arithmetic::div_mod::lemma_mod_bound(i as int, l.queue_size as int);
}


/// Completions are collected in the order of the ring, from where the driver stands on, each as it
/// stands there; the first that cannot be read ends it, with its error. The chains they name come
/// back, and no others. The index, the arena and the mode stay as they were.
pub proof fn law_collecting_is_in_order(d: DriverState, m: Seq<u8>, n: nat)
    ensures
        ({
            let c = d.collect(m, n);
            &&& forall|i: int|
                0 <= i < c.out.len() ==> completion_at(
                    m,
                    d.layout,
                    ((d.last_used + i) % 0x1_0000) as u16,
                ) == Ok::<(u16, u32), MemError>(#[trigger] c.out[i])
            &&& match c.error {
                None => c.out.len() == n,
                Some(e) => c.out.len() < n && completion_at(
                    m,
                    d.layout,
                    ((d.last_used + c.out.len()) % 0x1_0000) as u16,
                ) == Err::<(u16, u32), MemError>(e),
            }
            &&& c.drv.last_used == (d.last_used + c.out.len()) % 0x1_0000
            &&& forall|k: u16|
                (#[trigger] c.drv.outstanding.contains_key(k)) <==> d.outstanding.contains_key(k)
                    && !names(c.out, k)
            &&& forall|k: u16| #[trigger]
                c.drv.outstanding.contains_key(k) ==> c.drv.outstanding[k] == d.outstanding[k]
            &&& c.drv.layout == d.layout && c.drv.avail_idx == d.avail_idx
            &&& c.drv.last_kick == d.last_kick && c.drv.event_idx == d.event_idx
            &&& c.drv.arena == d.arena && c.drv.arena_end == d.arena_end
        }),
    decreases n,
{
    if n > 0 {
        let before = d.collect(m, (n - 1) as nat);
        let c = d.collect(m, n);
        law_collecting_is_in_order(d, m, (n - 1) as nat);
        if before.error is None {
            match completion_at(m, d.layout, before.drv.last_used) {
                Ok(done) => {
                    law_reclaiming(before.drv, done.0);
                    lemma_wrap_steps(d.last_used as int, before.out.len() as int);
                    assert forall|k: u16| (#[trigger] c.drv.outstanding.contains_key(k))
                        <==> d.outstanding.contains_key(k) && !names(c.out, k) by {
                        lemma_names_push(before.out, done, k);
                    }
                },
                Err(e) => {},
            }
        }
    } else {
        lemma_wrap_near(d.last_used as int);
    }
}

/// A descriptor that is written into the region is read back from there, and no other byte changes.
pub proof fn law_written_descriptor_is_read(m: Seq<u8>, at: int, d: Descriptor)
    requires
        0 <= at,
        at + 16 <= m.len(),
    ensures
        ({
            let s = store_all(m, desc_stores(at, d));
            &&& s.error is None
            &&& descriptor_at(s.mem, at) == Ok::<Descriptor, MemError>(d)
            &&& s.mem.len() == m.len()
            &&& forall|i: int|
                0 <= i < m.len() && !(at <= i < at + 16) ==> #[trigger] m[i] == s.mem[i]
        }),
{
    lemma_descriptor_stored(m, at, d);
}


/// Buffers are in order where no readable one comes behind a writable one.
pub proof fn law_what_readable_first_is(bufs: Seq<Buffer>)
    ensures
        readable_first(bufs) <==> !exists|i: int, j: int|
            0 <= i < j < bufs.len() && (#[trigger] bufs[i]).device_writable && !(
            #[trigger] bufs[j]).device_writable,
{
}


/// A chain that there are descriptors for, and that is refused all the same, is so because a part of
/// the queue is not in the region. Its descriptors stay in flight, and nothing else of the driver
/// changes but, where the index alone could not be written, that it stands one further.
pub proof fn law_refused_publication(d: DriverState, m: Seq<u8>, bufs: Seq<Buffer>)
    requires
        d.wf(),
        d.layout.queue_size > 0,
        0 < bufs.len() <= d.free.len(),
        d.publish(m, bufs).result is Err,
    ensures
        ({
            let p = d.publish(m, bufs);
            let head = d.free[d.free.len() - 1];
            &&& p.result->Err_0 is Mem
            &&& d.layout.parts_apart() ==> !d.layout.inside(m.len())
            &&& p.drv.free.len() == d.free.len() - bufs.len()
            &&& p.drv.outstanding.contains_key(head)
            &&& p.drv.outstanding[head].len() == bufs.len()
            &&& p.drv.avail_idx == d.avail_idx || p.drv.avail_idx == (d.avail_idx + 1) % 0x1_0000
            &&& p.drv.last_kick == d.last_kick && p.drv.last_used == d.last_used
            &&& p.drv.arena == d.arena && p.drv.arena_end == d.arena_end
            &&& p.drv.layout == d.layout && p.drv.event_idx == d.event_idx
        }),
{
    if d.layout.parts_apart() && d.layout.inside(m.len()) {
        lemma_publish_goes_through(d, m, bufs);
    }
}

} // verus!
