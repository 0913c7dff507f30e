//! A batch of requests: several chains published before the device looks at any of them.

use crate::le::{le_bytes, lemma_le_bytes_len};
use crate::virtq::chain::{
    chain_from, descriptor_at, lemma_descriptor_agrees, lemma_walk_reads_table, total_len, Walk,
};
use crate::virtq::device::{answers, buffers, scattered, DeviceState, Pass};
use crate::virtq::driver::{
    accounted, chain_stores, completion_at, desc_stores, lemma_reserved_wf, lemma_store_all_append,
    link, readable_first, store_all, Buffer, DriverState,
};
use crate::virtq::driver_laws::law_earlier_chains_are_kept;
use crate::virtq::laws::{
    advertised, law_completion_is_seen, law_published_chain_is_seen, lemma_advertised,
    lemma_chain_stored, lemma_descriptor_stored, lemma_one_more_stands, lemma_other_descriptors,
    lemma_publish_goes_through, lemma_stands_at, lemma_walk_links, linked_up, links, stand_in_ring,
};
use crate::virtq::layout::{
    is_power_of_two, law_fields_inside_parts, lemma_mod_differs, lemma_power_of_two_divides,
    lemma_wrap_keeps_slot, lemma_wrap_steps, wrap, Descriptor, VirtqLayout,
};
use crate::virtq::mem::{agree, fits, lemma_agree_reads, lemma_write_frame, put, u16_at, MemError};
use crate::virtq::pass_laws::{
    all_off_the_queue, covered, law_scatter_stays_in_buffers, lemma_covered_off_queue, reported,
};
use vstd::prelude::*;

verus! {

/// The stores of a chain leave every table entry that is not the chain's own.
pub proof fn lemma_other_entries_kept(
    m: Seq<u8>,
    l: VirtqLayout,
    bufs: Seq<Buffer>,
    indices: Seq<u16>,
    n: nat,
    k: u16,
)
    requires
        n <= indices.len(),
        indices.no_duplicates(),
        forall|i: int| 0 <= i < indices.len() ==> #[trigger] indices[i] < l.queue_size,
        fits(m.len(), l.desc_table.0 as int, l.desc_bytes()),
        !indices.contains(k),
    ensures
        descriptor_at(
            store_all(m, chain_stores(l, bufs, indices, n)).mem,
            l.desc_addr(k as int),
        ) == descriptor_at(m, l.desc_addr(k as int)),
    decreases n,
{
    if n > 0 {
        let before = store_all(m, chain_stores(l, bufs, indices, (n - 1) as nat));
        let at = l.desc_addr(indices[n - 1] as int);
        let d = link(bufs, indices, n - 1);
        lemma_other_entries_kept(m, l, bufs, indices, (n - 1) as nat, k);
        lemma_chain_stored(m, l, bufs, indices, (n - 1) as nat);
        lemma_store_all_append(
            m,
            chain_stores(l, bufs, indices, (n - 1) as nat),
            desc_stores(at, d),
        );
        assert(indices[n - 1] < l.queue_size);
        lemma_descriptor_stored(before.mem, at, d);
        assert(indices[n - 1] != k);
        lemma_other_descriptors(
            before.mem,
            store_all(m, chain_stores(l, bufs, indices, n)).mem,
            l,
            indices[n - 1] as int,
            k as int,
        );
    }
}

/// Advertising a chain leaves every other slot of the avail ring, and its event field.
proof fn lemma_other_slots_kept(m: Seq<u8>, l: VirtqLayout, at: u16, head: u16, idx: u16, j: int)
    requires
        l.queue_size > 0,
        fits(m.len(), l.avail_ring.0 as int, l.avail_bytes()),
        0 <= j,
        j % l.queue_size as int != at as int % l.queue_size as int,
    ensures
        u16_at(advertised(m, l, at, head, idx), l.avail_slot_addr(j)) == u16_at(
            m,
            l.avail_slot_addr(j),
        ),
{
    let slot = l.avail_slot_addr(at as int);
    let other = l.avail_slot_addr(j);
    law_fields_inside_parts(l, at as int);
    law_fields_inside_parts(l, j);
    lemma_le_bytes_len(head as nat, 2);
    lemma_le_bytes_len(idx as nat, 2);
    let b = put(m, slot, le_bytes(head as nat, 2));
    lemma_write_frame(m, slot, le_bytes(head as nat, 2), other, 2);
    lemma_write_frame(b, l.avail_ring.0 + 2, le_bytes(idx as nat, 2), other, 2);
}

proof fn lemma_used_event_kept(m: Seq<u8>, l: VirtqLayout, at: u16, head: u16, idx: u16)
    requires
        l.queue_size > 0,
        fits(m.len(), l.avail_ring.0 as int, l.avail_bytes()),
    ensures
        u16_at(advertised(m, l, at, head, idx), l.used_event_addr()) == u16_at(
            m,
            l.used_event_addr(),
        ),
{
    let slot = l.avail_slot_addr(at as int);
    law_fields_inside_parts(l, at as int);
    lemma_le_bytes_len(head as nat, 2);
    lemma_le_bytes_len(idx as nat, 2);
    let b = put(m, slot, le_bytes(head as nat, 2));
    lemma_write_frame(m, slot, le_bytes(head as nat, 2), l.used_event_addr(), 2);
    lemma_write_frame(b, l.avail_ring.0 + 2, le_bytes(idx as nat, 2), l.used_event_addr(), 2);
}

/// The chains of `heads`, all over the same buffers, are in flight and advertised from position
/// `base` on, and nothing else is.
#[verifier::opaque]
pub open spec fn in_batch(
    d: DriverState,
    m: Seq<u8>,
    bufs: Seq<Buffer>,
    base: u16,
    heads: Seq<u16>,
) -> bool {
    &&& d.wf()
    &&& d.avail_idx == wrap(base + heads.len())
    &&& d.free.len() + heads.len() * bufs.len() == d.layout.queue_size
    &&& heads.no_duplicates()
    &&& forall|k: u16| d.outstanding.contains_key(k) <==> #[trigger] heads.contains(k)
    &&& forall|i: int|
        0 <= i < heads.len() ==> linked_up(
            m,
            d.layout,
            bufs,
            d.outstanding[#[trigger] heads[i]],
        )
    &&& forall|i: int|
        0 <= i < heads.len() ==> u16_at(m, d.layout.avail_slot_addr(wrap(base + i))) == Ok::<
            u16,
            MemError,
        >(#[trigger] heads[i])
    &&& u16_at(m, d.layout.avail_ring.0 + 2) == Ok::<u16, MemError>(
        wrap(base + heads.len()) as u16,
    )
}

/// The table still holds a chain whose entries are the same.
pub proof fn lemma_linked_up_kept(
    m: Seq<u8>,
    k: Seq<u8>,
    l: VirtqLayout,
    bufs: Seq<Buffer>,
    indices: Seq<u16>,
)
    requires
        linked_up(m, l, bufs, indices),
        forall|i: int|
            0 <= i < indices.len() ==> descriptor_at(k, l.desc_addr(#[trigger] indices[i] as int))
                == descriptor_at(m, l.desc_addr(indices[i] as int)),
    ensures
        linked_up(k, l, bufs, indices),
{
    reveal(linked_up);
}

/// Publishing leaves the slots of the chains published before, within one turn of the ring.
proof fn lemma_publish_keeps_slot(
    d: DriverState,
    m: Seq<u8>,
    bufs: Seq<Buffer>,
    base: u16,
    i: int,
    n: int,
)
    requires
        d.wf(),
        is_power_of_two(d.layout.queue_size as int),
        d.layout.inside(m.len()),
        d.layout.parts_apart(),
        0 < bufs.len() <= d.free.len(),
        d.avail_idx == wrap(base + n),
        0 <= i < n < d.layout.queue_size,
    ensures
        u16_at(d.publish(m, bufs).mem, d.layout.avail_slot_addr(wrap(base + i))) == u16_at(
            m,
            d.layout.avail_slot_addr(wrap(base + i)),
        ),
{
    let l = d.layout;
    let indices = d.next_descs(bufs.len());
    let idx = wrap(d.avail_idx + 1) as u16;
    let at = l.avail_slot_addr(wrap(base + i));
    lemma_slots_differ(l.queue_size as int, base as int, i, n);
    lemma_reserved_wf(d, bufs.len());
    lemma_chain_stored(m, l, bufs, indices, bufs.len());
    lemma_publish_goes_through(d, m, bufs);
    let a = store_all(m, chain_stores(l, bufs, indices, bufs.len())).mem;
    lemma_other_slots_kept(a, l, d.avail_idx, indices[0], idx, wrap(base + i));
    law_fields_inside_parts(l, wrap(base + i));
    assert(agree(m, a, at, 2)) by {
        assert forall|k: int| at <= k < at + 2 && 0 <= k < m.len() implies m[k] == a[k] by {}
    }
    lemma_agree_reads(m, a, at, 2);
}

/// Counters less than a turn of the ring apart have different slots.
proof fn lemma_slots_differ(q: int, base: int, i: int, n: int)
    requires
        is_power_of_two(q),
        q <= 0x1_0000,
        i < n < i + q,
    ensures
        q > 0,
        wrap(base + i) % q != wrap(base + n) % q,
{
    lemma_power_of_two_divides(q);
    lemma_wrap_keeps_slot(q, base + i);
    lemma_wrap_keeps_slot(q, base + n);
    lemma_mod_differs(base + i, n - i, q);
}

/// Publishing leaves both event fields, the one in the avail ring and the one in the used ring, and
/// the index of the used ring.
pub proof fn lemma_publish_keeps_events(d: DriverState, m: Seq<u8>, bufs: Seq<Buffer>)
    requires
        d.wf(),
        d.layout.queue_size > 0,
        d.layout.inside(m.len()),
        d.layout.parts_apart(),
        0 < bufs.len() <= d.free.len(),
    ensures
        d.publish(m, bufs).mem.len() == m.len(),
        u16_at(d.publish(m, bufs).mem, d.layout.used_event_addr()) == u16_at(
            m,
            d.layout.used_event_addr(),
        ),
        u16_at(d.publish(m, bufs).mem, d.layout.avail_event_addr()) == u16_at(
            m,
            d.layout.avail_event_addr(),
        ),
        u16_at(d.publish(m, bufs).mem, d.layout.used_ring.0 + 2) == u16_at(
            m,
            d.layout.used_ring.0 + 2,
        ),
{
    let l = d.layout;
    let indices = d.next_descs(bufs.len());
    let idx = wrap(d.avail_idx + 1) as u16;
    lemma_reserved_wf(d, bufs.len());
    lemma_chain_stored(m, l, bufs, indices, bufs.len());
    lemma_publish_goes_through(d, m, bufs);
    let a = store_all(m, chain_stores(l, bufs, indices, bufs.len())).mem;
    let c = advertised(a, l, d.avail_idx, indices[0], idx);
    law_fields_inside_parts(l, 0);
    lemma_advertised(a, l, d.avail_idx, indices[0], idx);
    lemma_used_event_kept(a, l, d.avail_idx, indices[0], idx);
    assert(agree(m, a, l.used_event_addr(), 2)) by {
        let at = l.used_event_addr();
        assert forall|k: int| at <= k < at + 2 && 0 <= k < m.len() implies m[k] == a[k] by {}
    }
    lemma_agree_reads(m, a, l.used_event_addr(), 2);
    assert(agree(m, c, l.avail_event_addr(), 2)) by {
        let at = l.avail_event_addr();
        assert forall|k: int| at <= k < at + 2 && 0 <= k < m.len() implies m[k] == c[k] by {
            assert(m[k] == a[k]);
            assert(a[k] == c[k]);
        }
    }
    lemma_agree_reads(m, c, l.avail_event_addr(), 2);
    assert(agree(m, c, l.used_ring.0 + 2, 2)) by {
        let at = l.used_ring.0 + 2;
        assert forall|k: int| at <= k < at + 2 && 0 <= k < m.len() implies m[k] == c[k] by {
            assert(m[k] == a[k]);
            assert(a[k] == c[k]);
        }
    }
    lemma_agree_reads(m, c, l.used_ring.0 + 2, 2);
}

/// Publishing one more chain over the same buffers makes the batch one longer, as long as the table
/// has entries for it.
pub proof fn law_batch_grows(
    d: DriverState,
    m: Seq<u8>,
    bufs: Seq<Buffer>,
    base: u16,
    heads: Seq<u16>,
)
    requires
        in_batch(d, m, bufs, base, heads),
        is_power_of_two(d.layout.queue_size as int),
        d.layout.inside(m.len()),
        d.layout.parts_apart(),
        0 < bufs.len() <= d.free.len(),
        readable_first(bufs),
        total_len(links(bufs, d.next_descs(bufs.len()))) <= u32::MAX,
    ensures
        ({
            let p = d.publish(m, bufs);
            &&& p.result is Ok
            &&& in_batch(p.drv, p.mem, bufs, base, heads.push(p.result->Ok_0))
        }),
{
    let l = d.layout;
    let n = bufs.len();
    let p = d.publish(m, bufs);
    let indices = d.next_descs(n);
    let head = indices[0];
    let more = heads.push(head);
    let idx = wrap(d.avail_idx + 1) as u16;
    assert(d.wf() && d.avail_idx == wrap(base + heads.len()) && d.free.len() + heads.len() * n
        == l.queue_size) by {
        reveal(in_batch);
    }
    lemma_power_of_two_divides(l.queue_size as int);
    assert(heads.len() < l.queue_size) by (nonlinear_arith)
        requires
            d.free.len() + heads.len() * n == l.queue_size,
            0 < n <= d.free.len(),
    ;
    lemma_reserved_wf(d, n);
    lemma_publish_goes_through(d, m, bufs);
    law_published_chain_is_seen(d, m, bufs);
    lemma_published_linked_up(d, m, bufs);
    assert(p.drv.avail_idx == wrap(base + more.len())) by {
        lemma_wrap_steps(base as int, heads.len() as int);
    }
    assert(p.drv.free.len() + more.len() * n == l.queue_size) by {
        assert((heads.len() + 1) * n == heads.len() * n + n) by (nonlinear_arith);
    }
    assert(!heads.contains(head)) by {
        reveal(in_batch);
    }
    assert(more.no_duplicates()) by {
        reveal(in_batch);
    }
    assert forall|k: u16| p.drv.outstanding.contains_key(k) <==> #[trigger] more.contains(k) by {
        reveal(in_batch);
        assert(d.outstanding.contains_key(k) <==> heads.contains(k));
        if heads.contains(k) {
            let i = choose|i: int| 0 <= i < heads.len() && heads[i] == k;
            assert(more[i] == k);
        }
        assert(more[heads.len() as int] == head);
        if more.contains(k) && k != head {
            let i = choose|i: int| 0 <= i < more.len() && more[i] == k;
            assert(heads[i] == k);
        }
    }
    assert forall|i: int| 0 <= i < more.len() implies linked_up(
        p.mem,
        l,
        bufs,
        p.drv.outstanding[#[trigger] more[i]],
    ) by {
        if i < heads.len() {
            let h = heads[i];
            assert(more[i] == h);
            assert(d.outstanding.contains_key(h) && linked_up(m, l, bufs, d.outstanding[h]) && h
                != head) by {
                reveal(in_batch);
                assert(heads.contains(h));
            }
            law_earlier_chains_are_kept(d, m, bufs, bufs, h);
            assert(p.drv.outstanding[h] == d.outstanding[h]);
        } else {
            assert(p.drv.outstanding[head] == indices);
        }
    }
    assert forall|i: int| 0 <= i < more.len() implies u16_at(
        p.mem,
        l.avail_slot_addr(wrap(base + i)),
    ) == Ok::<u16, MemError>(#[trigger] more[i]) by {
        if i < heads.len() {
            lemma_publish_keeps_slot(d, m, bufs, base, i, heads.len() as int);
            assert(u16_at(m, l.avail_slot_addr(wrap(base + i))) == Ok::<u16, MemError>(
                heads[i],
            )) by {
                reveal(in_batch);
            }
        }
    }
    reveal(in_batch);
}

/// A chain that was just published stands in the table.
proof fn lemma_published_linked_up(d: DriverState, m: Seq<u8>, bufs: Seq<Buffer>)
    requires
        d.wf(),
        d.layout.queue_size > 0,
        d.layout.inside(m.len()),
        d.layout.parts_apart(),
        0 < bufs.len() <= d.free.len(),
    ensures
        linked_up(d.publish(m, bufs).mem, d.layout, bufs, d.next_descs(bufs.len())),
{
    let l = d.layout;
    let n = bufs.len();
    let indices = d.next_descs(n);
    let idx = wrap(d.avail_idx + 1) as u16;
    lemma_reserved_wf(d, n);
    lemma_chain_stored(m, l, bufs, indices, n);
    let a = store_all(m, chain_stores(l, bufs, indices, n)).mem;
    let c = advertised(a, l, d.avail_idx, indices[0], idx);
    lemma_publish_goes_through(d, m, bufs);
    lemma_advertised(a, l, d.avail_idx, indices[0], idx);
    reveal(linked_up);
    assert forall|j: int| 0 <= j < n implies descriptor_at(
        c,
        l.desc_addr(#[trigger] indices[j] as int),
    ) == Ok::<Descriptor, MemError>(link(bufs, indices, j)) by {
        law_fields_inside_parts(l, indices[j] as int);
        lemma_descriptor_agrees(a, c, l.desc_addr(indices[j] as int));
    }
}

/// The chains of the batch can be walked, and answers to them stay off the queue, whichever table
/// entries they use.
#[verifier::opaque]
pub open spec fn sound(l: VirtqLayout, bufs: Seq<Buffer>) -> bool {
    &&& bufs.len() > 0
    &&& readable_first(bufs)
    &&& forall|indices: Seq<u16>|
        total_len(#[trigger] links(bufs, indices)) <= u32::MAX && all_off_the_queue(
            l,
            buffers(links(bufs, indices), true),
        )
}

/// A chain that stands in the table is walked to its end.
proof fn lemma_batch_chain(m: Seq<u8>, l: VirtqLayout, bufs: Seq<Buffer>, indices: Seq<u16>)
    requires
        linked_up(m, l, bufs, indices),
        bufs.len() <= l.queue_size,
        sound(l, bufs),
    ensures
        chain_from(m, l, indices[0]) == (Walk { descs: links(bufs, indices), error: None }),
        all_off_the_queue(l, buffers(links(bufs, indices), true)),
{
    reveal(sound);
    assert(links(bufs, indices).skip(0) =~= links(bufs, indices));
    lemma_walk_links(m, l, bufs, indices, 0, l.queue_size as nat, 0, false);
}

/// Where a pass over a batch stands once the chains of `done` are dealt with: they are the first of
/// the batch, their completions stand in the used ring, the device has counted them, and the table
/// and the avail ring are as they were.
#[verifier::opaque]
pub open spec fn served(p: Pass, q: Pass, heads: Seq<u16>, done: Seq<(u16, u32)>) -> bool {
    let l = p.dev.layout;
    let n = done.len();
    &&& q.failed is None
    &&& q.dev == DeviceState {
        next_avail: wrap(p.dev.next_avail + n) as u16,
        next_used: wrap(p.dev.next_used + n) as u16,
        num_added: wrap(p.dev.num_added + n) as u16,
        ..p.dev
    }
    &&& agree(p.mem, q.mem, l.desc_table.0 as int, l.desc_bytes())
    &&& agree(p.mem, q.mem, l.avail_ring.0 as int, l.avail_bytes())
    &&& stand_in_ring(q.mem, l, p.dev.next_used, done)
    &&& n > 0 ==> u16_at(q.mem, l.used_ring.0 + 2) == Ok::<u16, MemError>(
        wrap(p.dev.next_used + n) as u16,
    )
    &&& n <= heads.len()
    &&& forall|i: int| 0 <= i < n ==> (#[trigger] done[i]).0 == heads[i]
}

/// The distance of two counters less than a turn apart.
proof fn lemma_wrap_left(from: int, n: int, count: int)
    requires
        0 <= n <= count <= 0xffff,
    ensures
        wrap(wrap(from + count) - wrap(from + n)) == count - n,
{
}

/// A pass that has dealt with nothing yet.
proof fn lemma_served_nothing(p: Pass, heads: Seq<u16>)
    requires
        p.failed is None,
    ensures
        served(p, p, heads, Seq::empty()),
{
    reveal(served);
    reveal(stand_in_ring);
}

/// In the middle of a batch the next chain is the next of the batch.
proof fn lemma_served_next(
    d: DriverState,
    bufs: Seq<Buffer>,
    heads: Seq<u16>,
    p: Pass,
    q: Pass,
    done: Seq<(u16, u32)>,
)
    requires
        in_batch(d, p.mem, bufs, p.dev.next_avail, heads),
        d.layout == p.dev.layout,
        is_power_of_two(d.layout.queue_size as int),
        d.layout.inside(p.mem.len()),
        heads.len() <= 0xffff,
        bufs.len() <= d.layout.queue_size,
        sound(d.layout, bufs),
        served(p, q, heads, done),
    ensures
        q.dev.next_head(q.mem) is Ok,
        q.has_next() <==> done.len() < heads.len(),
        done.len() < heads.len() ==> {
            &&& q.head() == heads[done.len() as int]
            &&& q.chain().error is None
            &&& all_off_the_queue(d.layout, buffers(q.chain().descs, true))
        },
{
    let l = d.layout;
    let n = done.len() as int;
    let base = p.dev.next_avail;
    let count = heads.len() as int;
    lemma_power_of_two_divides(l.queue_size as int);
    assert(q.failed is None && q.dev.layout == l && q.dev.next_avail == wrap(base + n) && n <= count
        && agree(p.mem, q.mem, l.desc_table.0 as int, l.desc_bytes()) && agree(
        p.mem,
        q.mem,
        l.avail_ring.0 as int,
        l.avail_bytes(),
    )) by {
        reveal(served);
    }
    law_fields_inside_parts(l, wrap(base + n));
    assert(agree(p.mem, q.mem, l.avail_ring.0 + 2, 2));
    lemma_agree_reads(p.mem, q.mem, l.avail_ring.0 + 2, 2);
    assert(q.dev.pending(q.mem) == Ok::<u16, MemError>((count - n) as u16)) by {
        reveal(in_batch);
        lemma_wrap_left(base as int, n, count);
    }
    if n < count {
        let at = l.avail_slot_addr(wrap(base + n));
        let h = heads[n];
        assert(agree(p.mem, q.mem, at, 2));
        lemma_agree_reads(p.mem, q.mem, at, 2);
        assert(u16_at(p.mem, at) == Ok::<u16, MemError>(h) && linked_up(
            p.mem,
            l,
            bufs,
            d.outstanding[h],
        ) && d.outstanding.contains_key(h) && d.wf()) by {
            reveal(in_batch);
            assert(heads.contains(h));
        }
        assert(d.outstanding[h][0] == h) by {
            reveal(accounted);
        }
        lemma_batch_chain(p.mem, l, bufs, d.outstanding[h]);
        lemma_walk_reads_table(p.mem, q.mem, l, h, l.queue_size as nat, 0, false);
    }
}

/// Dealing with a chain whose answer stays off the queue completes it behind the others.
proof fn lemma_served_step(p: Pass, q: Pass, heads: Seq<u16>, done: Seq<(u16, u32)>, data: Seq<u8>)
    requires
        is_power_of_two(p.dev.layout.queue_size as int),
        p.dev.layout.inside(p.mem.len()),
        p.dev.layout.parts_apart(),
        heads.len() <= p.dev.layout.queue_size,
        served(p, q, heads, done),
        done.len() < heads.len(),
        q.has_next(),
        q.head() == heads[done.len() as int],
        all_off_the_queue(p.dev.layout, buffers(q.chain().descs, true)),
    ensures
        served(p, q.step(data), heads, done.push((q.head(), reported(q, data) as u32))),
{
    let l = p.dev.layout;
    let bufs = buffers(q.chain().descs, true);
    let refused = q.refusal(data) is Some;
    let base = if refused {
        q.mem
    } else {
        scattered(q.mem, bufs, data).mem
    };
    let one = (q.head(), reported(q, data) as u32);
    let more = done.push(one);
    let dev = q.dev.popped();
    let r = q.step(data);
    assert(q.dev.layout == l && q.mem.len() == p.mem.len() && stand_in_ring(
        q.mem,
        l,
        p.dev.next_used,
        done,
    ) && q.dev.next_used == wrap(p.dev.next_used + done.len())) by {
        reveal(served);
    }
    lemma_power_of_two_divides(l.queue_size as int);
    law_scatter_stays_in_buffers(q.mem, bufs, data);
    assert forall|i: int|
        0 <= i < q.mem.len() && ((l.desc_table.0 <= i < l.desc_table.0 + l.desc_bytes()) || (
        l.avail_ring.0 <= i < l.avail_ring.0 + l.avail_bytes()) || (l.used_ring.0 <= i
            < l.used_ring.0 + l.used_bytes())) implies q.mem[i] == base[i] by {
        if covered(bufs, i) {
            lemma_covered_off_queue(l, bufs, i);
        }
    }
    lemma_stand_kept(q.mem, base, l, p.dev.next_used, done);
    law_completion_is_seen(dev, base, one.0, one.1);
    let c = dev.complete(base, one.0, one.1);
    assert(r.mem == c.mem && r.dev == c.dev && r.failed is None);
    lemma_one_more_stands(dev, base, p.dev.next_used, done, one);
    assert(agree(p.mem, r.mem, l.desc_table.0 as int, l.desc_bytes()) && agree(
        p.mem,
        r.mem,
        l.avail_ring.0 as int,
        l.avail_bytes(),
    )) by {
        reveal(served);
        assert forall|i: int|
            0 <= i < p.mem.len() && ((l.desc_table.0 <= i < l.desc_table.0 + l.desc_bytes()) || (
            l.avail_ring.0 <= i < l.avail_ring.0 + l.avail_bytes())) implies p.mem[i]
            == r.mem[i] by {
            assert(p.mem[i] == q.mem[i]);
            assert(q.mem[i] == base[i]);
            assert(base[i] == c.mem[i]);
        }
    }
    reveal(served);
    lemma_wrap_steps(p.dev.next_avail as int, done.len() as int);
    lemma_wrap_steps(p.dev.next_used as int, done.len() as int);
    lemma_wrap_steps(p.dev.num_added as int, done.len() as int);
    assert forall|i: int| 0 <= i < more.len() implies (#[trigger] more[i]).0 == heads[i] by {
        if i < done.len() {
            assert(more[i] == done[i]);
        }
    }
}

/// The used elements stand in every region with the same used ring.
pub proof fn lemma_stand_kept(
    m: Seq<u8>,
    k: Seq<u8>,
    l: VirtqLayout,
    from: u16,
    done: Seq<(u16, u32)>,
)
    requires
        l.queue_size > 0,
        m.len() == k.len(),
        forall|i: int|
            0 <= i < m.len() && l.used_ring.0 + 4 <= i < l.avail_event_addr() ==> #[trigger] m[i]
                == k[i],
        stand_in_ring(m, l, from, done),
    ensures
        stand_in_ring(k, l, from, done),
{
    assert forall|i: int| 0 <= i < done.len() implies completion_at(k, l, wrap(from + i) as u16)
        == Ok::<(u16, u32), MemError>(#[trigger] done[i]) by {
        let at = l.used_elem_addr(wrap(from + i));
        lemma_stands_at(m, l, from, done, i);
        law_fields_inside_parts(l, wrap(from + i));
        assert(agree(m, k, at, 4) && agree(m, k, at + 4, 4)) by {
            assert forall|j: int| at <= j < at + 8 && 0 <= j < m.len() implies m[j] == k[j] by {}
        }
        lemma_agree_reads(m, k, at, 4);
        lemma_agree_reads(m, k, at + 4, 4);
    }
    reveal(stand_in_ring);
}

/// A run of a pass over a batch deals with the chains of the batch in order.
proof fn lemma_batch_run<F: FnMut(&[u8]) -> Vec<u8>>(
    d: DriverState,
    bufs: Seq<Buffer>,
    heads: Seq<u16>,
    p: Pass,
    work: F,
    responses: Seq<Seq<u8>>,
) -> (done: Seq<(u16, u32)>)
    requires
        in_batch(d, p.mem, bufs, p.dev.next_avail, heads),
        d.layout == p.dev.layout,
        is_power_of_two(d.layout.queue_size as int),
        d.layout.inside(p.mem.len()),
        d.layout.parts_apart(),
        heads.len() <= d.layout.queue_size,
        bufs.len() <= d.layout.queue_size,
        sound(d.layout, bufs),
        p.failed is None,
        p.runs(work, responses),
    ensures
        done.len() == responses.len(),
        served(p, p.after(responses), heads, done),
    decreases responses.len(),
{
    if responses.len() == 0 {
        lemma_served_nothing(p, heads);
        Seq::empty()
    } else {
        let some = responses.drop_last();
        lemma_run_prefix(p, work, responses);
        let before = lemma_batch_run(d, bufs, heads, p, work, some);
        let q = p.after(some);
        assert(responses.take(responses.len() - 1) =~= some);
        assert(q.has_next());
        lemma_served_next(d, bufs, heads, p, q, before);
        lemma_served_step(p, q, heads, before, responses.last());
        before.push((q.head(), reported(q, responses.last()) as u32))
    }
}

/// A run without its last chain is a run.
proof fn lemma_run_prefix<F: FnMut(&[u8]) -> Vec<u8>>(p: Pass, work: F, responses: Seq<Seq<u8>>)
    requires
        p.runs(work, responses),
        responses.len() > 0,
    ensures
        p.runs(work, responses.drop_last()),
{
    let some = responses.drop_last();
    assert forall|i: int| 0 <= i < some.len() implies {
        let q = #[trigger] p.after(some.take(i));
        &&& q.has_next()
        &&& if q.objection() is None {
            answers(work, q.request(), some[i])
        } else {
            some[i] == Seq::<u8>::empty()
        }
    } by {
        assert(some.take(i) =~= responses.take(i));
        assert(p.after(responses.take(i)).has_next());
    }
}

/// A device drains a batch in one pass: every run ends within as many chains as there are in the
/// batch, and one that has come to its end has completed them all, in the order in which they were
/// published.
pub proof fn law_batch_is_drained<F: FnMut(&[u8]) -> Vec<u8>>(
    d: DriverState,
    bufs: Seq<Buffer>,
    heads: Seq<u16>,
    p: Pass,
    work: F,
)
    requires
        in_batch(d, p.mem, bufs, p.dev.next_avail, heads),
        d.layout == p.dev.layout,
        is_power_of_two(d.layout.queue_size as int),
        d.layout.inside(p.mem.len()),
        d.layout.parts_apart(),
        heads.len() <= d.layout.queue_size,
        bufs.len() <= d.layout.queue_size,
        sound(d.layout, bufs),
        p.failed is None,
    ensures
        p.drains(work, heads.len()),
        forall|responses: Seq<Seq<u8>>| #[trigger]
            p.runs(work, responses) ==> p.after(responses).failed is None && p.after(
                responses,
            ).dev.next_head(p.after(responses).mem) is Ok && (!p.after(responses).has_next()
                ==> exists|done: Seq<(u16, u32)>|
                done.len() == heads.len() && #[trigger] served(
                    p,
                    p.after(responses),
                    heads,
                    done,
                )),
{
    assert forall|responses: Seq<Seq<u8>>| #[trigger] p.runs(work, responses) implies responses.len()
        <= heads.len() && p.after(responses).failed is None && p.after(responses).dev.next_head(
        p.after(responses).mem,
    ) is Ok && (!p.after(responses).has_next() ==> exists|done: Seq<(u16, u32)>|
        done.len() == heads.len() && #[trigger] served(p, p.after(responses), heads, done)) by {
        let done = lemma_batch_run(d, bufs, heads, p, work, responses);
        lemma_served_next(d, bufs, heads, p, p.after(responses), done);
        reveal(served);
    }
}

} // verus!
