//! How many notifications a driver and a device exchange over a run of batches.
//!
//! The protocol is deterministic, so for a given interleaving the number of notifications is exact:
//! the driver publishes a burst while the device is busy with the previous one, then the device
//! drains everything available in one pass.

use crate::le::{le_bytes, le_value, lemma_le_bounds, lemma_le_bytes_len};
use crate::virtq::batch::{
    in_batch, law_batch_grows, law_batch_is_drained, lemma_publish_keeps_events, lemma_stand_kept,
    served, sound,
};
use crate::virtq::chain::total_len;
use crate::virtq::device::{buffers, pass_from, Device, DeviceState, Pass, PASS_LIMIT};
use crate::virtq::driver::{lemma_collect_wf, readable_first, Buffer, Driver, DriverState};
use crate::virtq::driver_laws::law_every_descriptor_comes_back;
use crate::virtq::laws::{lemma_collect_reads, links, names, stand_in_ring};
use crate::virtq::layout::{
    is_power_of_two, law_fields_inside_parts, law_layout_parts, law_one_event_per_arming,
    lemma_flag_bits, lemma_least_multiple, lemma_power_of_two_divides, wrap, Descriptor,
    VirtqLayout, VIRTQ_USED_F_NO_NOTIFY,
};
use crate::virtq::mem::{
    agree, lemma_agree_reads, lemma_field_read_back, lemma_write_frame, put, u16_at, write_at,
    GuestAddr, MemError, SharedMem,
};
use crate::virtq::pass_laws::{
    all_off_the_queue, law_one_kick_per_batch, lemma_counter_distance, lemma_interrupt_due,
    lemma_publish_keeps_decisions,
};
use vstd::prelude::*;

verus! {

/// The largest batch that is counted.
pub const MAX_BATCH: u32 = 64;

/// Two descriptors per request, and a whole burst must fit before the device drains it: a driver
/// that runs out of descriptors cannot go on until completions come back.
pub const NOTIFY_QUEUE_SIZE: u16 = 128;

/// The size of the region that the queue and its buffers lie in.
pub const NOTIFY_REGION: usize = 65536;

/// The queue lies in a region of `len` bytes with its parts apart.
pub open spec fn placed(l: VirtqLayout, len: nat) -> bool {
    &&& is_power_of_two(l.queue_size as int)
    &&& l.inside(len)
    &&& l.parts_apart()
    &&& l.addressable()
}

/// Driver and device have nothing to say to each other: every chain that was published is collected,
/// and each knows that of the other.
#[verifier::opaque]
pub open spec fn at_rest(drv: DriverState, dev: DeviceState, m: Seq<u8>) -> bool {
    &&& drv.wf()
    &&& drv.outstanding =~= Map::empty()
    &&& dev.layout == drv.layout
    &&& dev.event_idx == drv.event_idx
    &&& dev.next_avail == drv.avail_idx
    &&& dev.next_used == drv.last_used
    &&& dev.num_added == 0
    &&& u16_at(m, drv.layout.avail_ring.0 + 2) == Ok::<u16, MemError>(drv.avail_idx)
    &&& drv.event_idx ==> drv.last_kick == drv.avail_idx && u16_at(
        m,
        drv.layout.avail_event_addr(),
    ) == Ok::<u16, MemError>(drv.avail_idx)
}

/// A driver at rest that armed its event field starts a batch.
proof fn lemma_armed(drv: DriverState, dev: DeviceState, m: Seq<u8>, bufs: Seq<Buffer>)
    requires
        at_rest(drv, dev, m),
        placed(drv.layout, m.len()),
    ensures
        ({
            let at = drv.layout.used_event_addr();
            let m1 = put(m, at, le_bytes(drv.last_used as nat, 2));
            &&& write_at(m, at, le_bytes(drv.last_used as nat, 2)) == Ok::<
                Seq<u8>,
                MemError,
            >(m1)
            &&& m1.len() == m.len()
            &&& in_batch(drv, m1, bufs, drv.avail_idx, Seq::empty())
            &&& u16_at(m1, at) == Ok::<u16, MemError>(dev.next_used)
            &&& dev.event_idx ==> u16_at(m1, drv.layout.avail_event_addr()) == Ok::<u16, MemError>(
                drv.avail_idx,
            )
        }),
{
    let l = drv.layout;
    let at = l.used_event_addr();
    let data = le_bytes(drv.last_used as nat, 2);
    let m1 = put(m, at, data);
    reveal(at_rest);
    lemma_power_of_two_divides(l.queue_size as int);
    law_fields_inside_parts(l, 0);
    lemma_le_bounds();
    lemma_le_bytes_len(drv.last_used as nat, 2);
    lemma_field_read_back(m, at, drv.last_used as nat, 2);
    lemma_write_frame(m, at, data, l.avail_ring.0 + 2, 2);
    lemma_write_frame(m, at, data, l.avail_event_addr(), 2);
    law_every_descriptor_comes_back(drv);
    assert(in_batch(drv, m1, bufs, drv.avail_idx, Seq::empty())) by {
        reveal(in_batch);
        assert(Seq::<u16>::empty().len() * bufs.len() == 0) by (nonlinear_arith);
    }
}

/// Whether a kick is due changes nothing about the batch.
proof fn lemma_decision_keeps_batch(
    d: DriverState,
    kick: u16,
    m: Seq<u8>,
    bufs: Seq<Buffer>,
    base: u16,
    heads: Seq<u16>,
)
    requires
        in_batch(d, m, bufs, base, heads),
    ensures
        in_batch((DriverState { last_kick: kick, ..d }), m, bufs, base, heads),
{
    reveal(in_batch);
}

/// There is room for one more chain as long as the whole batch has room.
proof fn lemma_batch_has_room(
    d: DriverState,
    m: Seq<u8>,
    bufs: Seq<Buffer>,
    base: u16,
    heads: Seq<u16>,
    n: nat,
)
    requires
        in_batch(d, m, bufs, base, heads),
        heads.len() < n,
        n * bufs.len() <= d.layout.queue_size,
    ensures
        d.wf(),
        d.avail_idx == wrap(base + heads.len()),
        bufs.len() <= d.free.len(),
{
    reveal(in_batch);
    let h = heads.len();
    let b = bufs.len();
    assert(h * b + b <= n * b) by (nonlinear_arith)
        requires
            h < n,
    ;
}

/// How far the index stands.
proof fn lemma_batch_counts(
    d: DriverState,
    m: Seq<u8>,
    bufs: Seq<Buffer>,
    base: u16,
    heads: Seq<u16>,
)
    requires
        in_batch(d, m, bufs, base, heads),
    ensures
        d.wf(),
        d.avail_idx == wrap(base + heads.len()),
{
    reveal(in_batch);
}

/// A batch of sound buffers is sound over any table entries.
proof fn lemma_sound(l: VirtqLayout, bufs: Seq<Buffer>, indices: Seq<u16>)
    requires
        sound(l, bufs),
    ensures
        bufs.len() > 0,
        readable_first(bufs),
        total_len(links(bufs, indices)) <= u32::MAX,
{
    reveal(sound);
}

/// With the event field where the batch starts, the decision after its first chain is to kick, and
/// every later one is not to.
proof fn lemma_first_decision_kicks(d: DriverState, m: Seq<u8>, base: u16, i: int)
    requires
        d.event_idx,
        u16_at(m, d.layout.avail_event_addr()) == Ok::<u16, MemError>(base),
        0 <= i < 0xffff,
        d.last_kick == wrap(base + i),
        d.avail_idx == wrap(base + (i + 1)),
    ensures
        d.kick_due(m) == Ok::<bool, MemError>(i == 0),
{
    if i == 0 {
        law_one_kick_per_batch(d, m, base, 1, 0);
        assert(d =~= DriverState { last_kick: base, avail_idx: wrap(base + 1) as u16, ..d });
    } else {
        law_one_kick_per_batch(d, m, base, i, 1);
        assert(d =~= DriverState {
            last_kick: wrap(base + i) as u16,
            avail_idx: wrap(base + i + 1) as u16,
            ..d
        });
    }
}

/// Publish `n` chains over the same buffers, and decide after each whether to kick. Returns how many
/// of the decisions were to kick.
fn submit_batch(
    driver: &mut Driver,
    mem: &mut SharedMem,
    bufs: &[Buffer],
    n: u32,
    Ghost(base): Ghost<u16>,
) -> (r: (u64, Ghost<Seq<u16>>))
    requires
        in_batch(old(driver)@, old(mem)@, bufs@, base, Seq::empty()),
        placed(old(driver)@.layout, old(mem)@.len()),
        sound(old(driver)@.layout, bufs@),
        0 < n <= 0xffff,
        n * bufs@.len() <= old(driver)@.layout.queue_size,
        old(driver)@.event_idx ==> old(driver)@.last_kick == base && u16_at(
            old(mem)@,
            old(driver)@.layout.avail_event_addr(),
        ) == Ok::<u16, MemError>(base),
    ensures
        r.1@.len() == n,
        in_batch(final(driver)@, final(mem)@, bufs@, base, r.1@),
        final(mem)@.len() == old(mem)@.len(),
        final(driver)@.layout == old(driver)@.layout,
        final(driver)@.event_idx == old(driver)@.event_idx,
        final(driver)@.last_used == old(driver)@.last_used,
        final(driver)@.last_kick == final(driver)@.avail_idx,
        final(driver)@.avail_idx == wrap(base + n),
        u16_at(final(mem)@, old(driver)@.layout.used_event_addr()) == u16_at(
            old(mem)@,
            old(driver)@.layout.used_event_addr(),
        ),
        r.0 == if old(driver)@.event_idx {
            1
        } else {
            n as int
        },
{
    let mut kicks: u64 = 0;
    let mut i: u32 = 0;
    let ghost mut heads: Seq<u16> = Seq::empty();
    let ghost l = driver@.layout;
    while i < n
        invariant
            i <= n <= 0xffff,
            heads.len() == i,
            n * bufs@.len() <= l.queue_size,
            l == old(driver)@.layout,
            placed(l, mem@.len()),
            sound(l, bufs@),
            in_batch(driver@, mem@, bufs@, base, heads),
            mem@.len() == old(mem)@.len(),
            driver@.layout == l,
            driver@.event_idx == old(driver)@.event_idx,
            driver@.last_used == old(driver)@.last_used,
            i > 0 ==> driver@.last_kick == driver@.avail_idx,
            i > 0 ==> driver@.avail_idx == wrap(base + i),
            driver@.event_idx && i == 0 ==> driver@.last_kick == base,
            driver@.event_idx ==> u16_at(mem@, l.avail_event_addr()) == Ok::<u16, MemError>(base),
            u16_at(mem@, l.used_event_addr()) == u16_at(old(mem)@, l.used_event_addr()),
            kicks == if !driver@.event_idx {
                i as int
            } else if i == 0 {
                0
            } else {
                1
            },
        decreases n - i,
    {
        proof {
            lemma_batch_has_room(driver@, mem@, bufs@, base, heads, n as nat);
            lemma_power_of_two_divides(l.queue_size as int);
            lemma_sound(l, bufs@, driver@.next_descs(bufs@.len()));
            law_fields_inside_parts(l, 0);
            law_batch_grows(driver@, mem@, bufs@, base, heads);
            lemma_publish_keeps_events(driver@, mem@, bufs@);
            lemma_publish_keeps_decisions(driver@, mem@, bufs@);
        }
        let head: u16 = driver.add_chain(mem, bufs).unwrap();
        proof {
            heads = heads.push(head);
            lemma_batch_counts(driver@, mem@, bufs@, base, heads);
            if driver@.event_idx {
                lemma_first_decision_kicks(driver@, mem@, base, i as int);
            }
            lemma_decision_keeps_batch(driver@, driver@.avail_idx, mem@, bufs@, base, heads);
        }
        if driver.needs_kick(mem).unwrap() {
            kicks = kicks + 1;
        }
        i = i + 1;
    }
    (kicks, Ghost(heads))
}

/// A batch that was served: the device has counted it, the driver's event field is as it was, and an
/// interrupt is due.
proof fn lemma_served_interrupts(p: Pass, q: Pass, heads: Seq<u16>, done: Seq<(u16, u32)>)
    requires
        served(p, q, heads, done),
        p.dev.layout.queue_size > 0,
        0 < done.len() <= 0xffff,
        p.dev.num_added == 0,
        u16_at(p.mem, p.dev.layout.used_event_addr()) == Ok::<u16, MemError>(p.dev.next_used),
    ensures
        q.mem.len() == p.mem.len(),
        q.dev.interrupt_due(q.mem) == Ok::<bool, MemError>(true),
        u16_at(q.mem, p.dev.layout.avail_ring.0 + 2) == u16_at(
            p.mem,
            p.dev.layout.avail_ring.0 + 2,
        ),
{
    let l = p.dev.layout;
    let n = done.len() as int;
    reveal(served);
    law_fields_inside_parts(l, 0);
    assert(agree(p.mem, q.mem, l.used_event_addr(), 2));
    lemma_agree_reads(p.mem, q.mem, l.used_event_addr(), 2);
    assert(agree(p.mem, q.mem, l.avail_ring.0 + 2, 2));
    lemma_agree_reads(p.mem, q.mem, l.avail_ring.0 + 2, 2);
    if q.dev.event_idx {
        lemma_interrupt_due(q.dev, q.mem, p.dev.next_used);
        law_one_event_per_arming(p.dev.next_used, n, 0);
        lemma_counter_distance(p.dev.next_used as int, n);
    }
}

/// Asking to be notified goes through, and leaves what stands in the used ring and the index of the
/// avail ring.
proof fn lemma_asking_keeps(dev: DeviceState, m: Seq<u8>, from: u16, done: Seq<(u16, u32)>)
    requires
        placed(dev.layout, m.len()),
        stand_in_ring(m, dev.layout, from, done),
    ensures
        dev.notifications_on(m) is Ok,
        ({
            let m1 = dev.notifications_on(m)->Ok_0;
            let l = dev.layout;
            &&& m1.len() == m.len()
            &&& stand_in_ring(m1, l, from, done)
            &&& u16_at(m1, l.avail_ring.0 + 2) == u16_at(m, l.avail_ring.0 + 2)
            &&& u16_at(m1, l.avail_ring.0 + 2) is Ok
            &&& u16_at(m1, l.used_ring.0 + 2) == u16_at(m, l.used_ring.0 + 2)
            &&& dev.event_idx ==> u16_at(m1, l.avail_event_addr()) == Ok::<u16, MemError>(
                dev.next_avail,
            )
        }),
{
    let l = dev.layout;
    lemma_power_of_two_divides(l.queue_size as int);
    law_fields_inside_parts(l, 0);
    lemma_le_bounds();
    let (at, v) = if dev.event_idx {
        (l.avail_event_addr(), dev.next_avail)
    } else {
        (
            l.used_ring.0 as int,
            u16_at(m, l.used_ring.0 as int)->Ok_0 & !VIRTQ_USED_F_NO_NOTIFY,
        )
    };
    let data = le_bytes(v as nat, 2);
    lemma_le_bytes_len(v as nat, 2);
    lemma_field_read_back(m, at, v as nat, 2);
    let m1 = put(m, at, data);
    assert(dev.notifications_on(m) == Ok::<Seq<u8>, MemError>(m1));
    lemma_write_frame(m, at, data, l.avail_ring.0 + 2, 2);
    lemma_write_frame(m, at, data, l.used_ring.0 + 2, 2);
    lemma_stand_kept(m, m1, l, from, done);
}

/// What a pass has counted does not matter to where it stands in the batch.
proof fn lemma_served_untallied(p: Pass, q: Pass, heads: Seq<u16>, done: Seq<(u16, u32)>)
    requires
        served(p, q, heads, done),
        p.failed is None,
    ensures
        served(p, (Pass { dev: q.dev, mem: q.mem, ..p }), heads, done),
{
    reveal(served);
}

/// The device drains the batch in one pass.
fn pass_over_batch(
    device: &mut Device,
    mem: &mut SharedMem,
    Ghost(drv): Ghost<DriverState>,
    Ghost(bufs): Ghost<Seq<Buffer>>,
    Ghost(heads): Ghost<Seq<u16>>,
) -> (r: Ghost<Seq<(u16, u32)>>)
    requires
        in_batch(drv, old(mem)@, bufs, old(device)@.next_avail, heads),
        drv.layout == old(device)@.layout,
        placed(drv.layout, old(mem)@.len()),
        0 < heads.len() <= drv.layout.queue_size,
        bufs.len() <= drv.layout.queue_size,
        sound(drv.layout, bufs),
    ensures
        r@.len() == heads.len(),
        served(
            pass_from(old(device)@, old(mem)@),
            (Pass {
                dev: final(device)@,
                mem: final(mem)@,
                ..pass_from(old(device)@, old(mem)@)
            }),
            heads,
            r@,
        ),
{
    let ghost p = pass_from(device@, mem@);
    let reply = |_request: &[u8]| -> (v: Vec<u8>) { vec![0x79u8] };
    proof {
        law_batch_is_drained(drv, bufs, heads, p, reply);
        assert(heads.len() <= PASS_LIMIT);
    }
    let outcome = device.process(mem, reply);
    let ghost responses = choose|responses: Seq<Seq<u8>>| #[trigger]
        p.runs(reply, responses) && p.after(responses).ended(device@, mem@, outcome);
    let ghost q = p.after(responses);
    let _ = outcome.unwrap();
    let ghost done = choose|done: Seq<(u16, u32)>|
        done.len() == heads.len() && #[trigger] served(p, q, heads, done);
    proof {
        lemma_served_untallied(p, q, heads, done);
    }
    Ghost(done)
}

/// The device drains the batch in one pass, decides about an interrupt, and asks to be notified
/// again. Returns the decision.
fn drain_batch(
    device: &mut Device,
    mem: &mut SharedMem,
    Ghost(drv): Ghost<DriverState>,
    Ghost(bufs): Ghost<Seq<Buffer>>,
    Ghost(heads): Ghost<Seq<u16>>,
) -> (r: (bool, Ghost<Seq<(u16, u32)>>))
    requires
        in_batch(drv, old(mem)@, bufs, old(device)@.next_avail, heads),
        drv.layout == old(device)@.layout,
        placed(drv.layout, old(mem)@.len()),
        0 < heads.len() <= drv.layout.queue_size,
        bufs.len() <= drv.layout.queue_size,
        sound(drv.layout, bufs),
        old(device)@.num_added == 0,
        u16_at(old(mem)@, drv.layout.used_event_addr()) == Ok::<u16, MemError>(
            old(device)@.next_used,
        ),
    ensures
        r.0,
        r.1@.len() == heads.len(),
        forall|i: int| 0 <= i < heads.len() ==> (#[trigger] r.1@[i]).0 == heads[i],
        final(mem)@.len() == old(mem)@.len(),
        final(device)@ == (DeviceState {
            next_avail: wrap(old(device)@.next_avail + heads.len()) as u16,
            next_used: wrap(old(device)@.next_used + heads.len()) as u16,
            num_added: 0,
            ..old(device)@
        }),
        stand_in_ring(final(mem)@, drv.layout, old(device)@.next_used, r.1@),
        u16_at(final(mem)@, drv.layout.used_ring.0 + 2) == Ok::<u16, MemError>(
            final(device)@.next_used,
        ),
        u16_at(final(mem)@, drv.layout.avail_ring.0 + 2) == u16_at(
            old(mem)@,
            drv.layout.avail_ring.0 + 2,
        ),
        drv.event_idx == old(device)@.event_idx && drv.event_idx ==> u16_at(
            final(mem)@,
            drv.layout.avail_event_addr(),
        ) == Ok::<u16, MemError>(final(device)@.next_avail),
{
    let ghost l = drv.layout;
    let ghost p = pass_from(device@, mem@);
    let Ghost(done) = pass_over_batch(device, mem, Ghost(drv), Ghost(bufs), Ghost(heads));
    let ghost q = Pass { dev: device@, mem: mem@, ..p };
    proof {
        lemma_power_of_two_divides(l.queue_size as int);
        law_fields_inside_parts(l, 0);
        lemma_served_interrupts(p, q, heads, done);
        assert(stand_in_ring(q.mem, l, p.dev.next_used, done) && u16_at(q.mem, l.used_ring.0 + 2)
            == Ok::<u16, MemError>(wrap(p.dev.next_used + heads.len()) as u16) && (forall|i: int|
            0 <= i < heads.len() ==> (#[trigger] done[i]).0 == heads[i]) && q.dev == (DeviceState {
            next_avail: wrap(p.dev.next_avail + heads.len()) as u16,
            next_used: wrap(p.dev.next_used + heads.len()) as u16,
            num_added: wrap(heads.len() as int) as u16,
            ..p.dev
        })) by {
            reveal(served);
        }
    }
    let due = device.needs_notification(mem).unwrap();
    proof {
        lemma_asking_keeps(device@, mem@, p.dev.next_used, done);
    }
    let _ = device.enable_notification(mem).unwrap();
    (due, Ghost(done))
}

/// Once the driver has collected a batch that was drained, both are at rest again.
proof fn lemma_rests_again(
    drv: DriverState,
    dev: DeviceState,
    m: Seq<u8>,
    bufs: Seq<Buffer>,
    k: Seq<u8>,
    base: u16,
    heads: Seq<u16>,
    done: Seq<(u16, u32)>,
)
    requires
        in_batch(drv, m, bufs, base, heads),
        0 < heads.len() <= 0xffff,
        done.len() == heads.len(),
        forall|i: int| 0 <= i < heads.len() ==> (#[trigger] done[i]).0 == heads[i],
        stand_in_ring(k, drv.layout, drv.last_used, done),
        drv.last_kick == drv.avail_idx,
        dev.layout == drv.layout,
        dev.event_idx == drv.event_idx,
        dev.next_avail == wrap(base + heads.len()),
        dev.next_used == wrap(drv.last_used + heads.len()),
        dev.num_added == 0,
        u16_at(k, drv.layout.used_ring.0 + 2) == Ok::<u16, MemError>(dev.next_used),
        u16_at(k, drv.layout.avail_ring.0 + 2) == u16_at(m, drv.layout.avail_ring.0 + 2),
        drv.event_idx ==> u16_at(k, drv.layout.avail_event_addr()) == Ok::<u16, MemError>(
            dev.next_avail,
        ),
    ensures
        wrap(dev.next_used - drv.last_used) == heads.len(),
        ({
            let c = drv.collect(k, heads.len());
            &&& c.error is None
            &&& c.drv.layout == drv.layout
            &&& c.drv.event_idx == drv.event_idx
            &&& at_rest(c.drv, dev, k)
        }),
{
    let c = drv.collect(k, heads.len());
    lemma_batch_counts(drv, m, bufs, base, heads);
    lemma_collect_reads(drv, k, done, heads.len());
    lemma_collect_wf(drv, k, heads.len());
    assert(done.take(done.len() as int) =~= done);
    assert forall|x: u16| !(#[trigger] c.drv.outstanding.contains_key(x)) by {
        if drv.outstanding.contains_key(x) {
            reveal(in_batch);
            assert(heads.contains(x));
            let i = choose|i: int| 0 <= i < heads.len() && heads[i] == x;
            assert(done[i].0 == x);
            assert(names(done, x));
        }
    }
    assert(c.drv.outstanding =~= Map::empty());
    assert(u16_at(m, drv.layout.avail_ring.0 + 2) == Ok::<u16, MemError>(
        wrap(base + heads.len()) as u16,
    )) by {
        reveal(in_batch);
    }
    reveal(at_rest);
}

/// One round: the driver arms its event field, publishes a batch and decides about kicks; the device
/// drains it, decides about an interrupt and asks to be notified again; the driver collects. Returns
/// the number of kicks and whether there was an interrupt.
fn round(
    driver: &mut Driver,
    device: &mut Device,
    mem: &mut SharedMem,
    bufs: &[Buffer],
    n: u32,
) -> (r: (u64, bool))
    requires
        at_rest(old(driver)@, old(device)@, old(mem)@),
        placed(old(driver)@.layout, old(mem)@.len()),
        sound(old(driver)@.layout, bufs@),
        0 < n <= 0x8000,
        n * bufs@.len() <= old(driver)@.layout.queue_size,
    ensures
        at_rest(final(driver)@, final(device)@, final(mem)@),
        final(driver)@.layout == old(driver)@.layout,
        final(driver)@.event_idx == old(driver)@.event_idx,
        final(mem)@.len() == old(mem)@.len(),
        r.0 == if old(driver)@.event_idx {
            1
        } else {
            n as int
        },
        r.1,
{
    let ghost l = driver@.layout;
    let ghost base = driver@.avail_idx;
    proof {
        lemma_power_of_two_divides(l.queue_size as int);
        law_fields_inside_parts(l, 0);
        lemma_armed(driver@, device@, mem@, bufs@);
        lemma_sound(l, bufs@, Seq::empty());
        lemma_batch_fits(n as int, bufs@.len() as int, l.queue_size as int);
        reveal(at_rest);
    }
    driver.arm_used_event(mem).unwrap();
    let (kicks, Ghost(heads)) = submit_batch(driver, mem, bufs, n, Ghost(base));
    let ghost m = mem@;
    let (due, Ghost(done)) = drain_batch(
        device,
        mem,
        Ghost(driver@),
        Ghost(bufs@),
        Ghost(heads),
    );
    proof {
        lemma_rests_again(driver@, device@, m, bufs@, mem@, base, heads, done);
        lemma_batch_counts(driver@, m, bufs@, base, heads);
    }
    let _ = driver.collect_used(mem).unwrap();
    (kicks, due)
}

/// A batch that has room is no longer than the queue, and neither is a chain of it.
proof fn lemma_batch_fits(n: int, b: int, q: int)
    requires
        n > 0,
        b > 0,
        n * b <= q,
    ensures
        n <= q,
        b <= q,
{
    assert(n <= n * b && b <= n * b) by (nonlinear_arith)
        requires
            n > 0,
            b > 0,
    ;
}

/// How many batches of `batch` it takes to submit `total` requests.
pub open spec fn batches(total: int, batch: int) -> int {
    (total + batch - 1) / batch
}

/// A full batch, or what is left, is one batch more.
proof fn lemma_one_more_batch(before: int, n: int, batch: int)
    requires
        before >= 0,
        before % batch == 0,
        1 <= n <= batch,
    ensures
        batches(before + n, batch) == batches(before, batch) + 1,
        n == batch ==> (before + n) % batch == 0,
{
    let k = before / batch;
    vstd::arithmetic::div_mod::lemma_fundamental_div_mod(before, batch);
    assert(before == k * batch) by (nonlinear_arith)
        requires
            before == batch * k,
    ;
    vstd::arithmetic::div_mod::lemma_fundamental_div_mod_converse(
        before + batch - 1,
        batch,
        k,
        batch - 1,
    );
    assert((k + 1) * batch == k * batch + batch) by (nonlinear_arith);
    vstd::arithmetic::div_mod::lemma_fundamental_div_mod_converse(
        before + n + batch - 1,
        batch,
        k + 1,
        n - 1,
    );
    if n == batch {
        vstd::arithmetic::div_mod::lemma_mod_multiples_basic(k + 1, batch);
    }
}

/// What was counted.
#[derive(Debug, Clone, Copy, PartialEq, Eq, Structural)]
pub struct Notifications {
    /// Doorbell kicks from the driver to the device.
    pub kicks: u64,
    /// Interrupts from the device to the driver.
    pub interrupts: u64,
}

/// A request and its reply, in buffers behind the queue, make a sound chain.
proof fn lemma_request_sound(l: VirtqLayout, payload: u64, reply: u64, bufs: Seq<Buffer>)
    requires
        l.desc_table.0 + l.desc_bytes() <= l.avail_ring.0,
        l.avail_ring.0 + l.avail_bytes() <= l.used_ring.0,
        l.used_ring.0 + l.used_bytes() <= payload < reply,
        bufs == seq![
            Buffer { addr: GuestAddr(payload), len: 1, device_writable: false },
            Buffer { addr: GuestAddr(reply), len: 8, device_writable: true },
        ],
    ensures
        sound(l, bufs),
{
    assert forall|indices: Seq<u16>|
        total_len(#[trigger] links(bufs, indices)) <= u32::MAX && all_off_the_queue(
            l,
            buffers(links(bufs, indices), true),
        ) by {
        let d = links(bufs, indices);
        lemma_flag_bits();
        reveal_with_fuel(total_len, 3);
        reveal_with_fuel(buffers, 3);
        assert(d.drop_last().drop_last() =~= Seq::<Descriptor>::empty());
        assert(d.drop_first().drop_first() =~= Seq::<Descriptor>::empty());
        assert(buffers(d, true) =~= seq![(reply, 8u32)]);
    }
    reveal(sound);
}

/// A new queue in a region of zeros is at rest.
proof fn lemma_rests_at_first(drv: DriverState, dev: DeviceState, m: Seq<u8>)
    requires
        drv.wf(),
        drv.outstanding =~= Map::empty(),
        drv.avail_idx == 0,
        drv.last_kick == 0,
        drv.last_used == 0,
        dev == (DeviceState {
            layout: drv.layout,
            next_avail: 0,
            next_used: 0,
            num_added: 0,
            event_idx: drv.event_idx,
        }),
        placed(drv.layout, m.len()),
        forall|i: int|
            0 <= i < drv.layout.used_ring.0 + drv.layout.used_bytes() ==> #[trigger] m[i] == 0,
        drv.layout.avail_ring.0 + drv.layout.avail_bytes() <= drv.layout.used_ring.0,
    ensures
        at_rest(drv, dev, m),
{
    let l = drv.layout;
    lemma_power_of_two_divides(l.queue_size as int);
    law_fields_inside_parts(l, 0);
    let a = m.subrange(l.avail_ring.0 + 2, l.avail_ring.0 + 2 + 2);
    let b = m.subrange(l.avail_event_addr(), l.avail_event_addr() + 2);
    reveal_with_fuel(le_value, 3);
    assert(le_value(a) == 0 && le_value(b) == 0);
    reveal(at_rest);
}

/// Count the notifications for `total` requests in batches of `batch`, with `EVENT_IDX` or without.
///
/// Without, every request is a kick. With it, so is only the first of each batch. The device drains
/// a batch in one pass, so there is one interrupt for each either way.
pub fn count_notifications(total: u32, batch: u32, event_idx: bool) -> (r: Notifications)
    requires
        1 <= batch <= MAX_BATCH,
    ensures
        r.kicks == if event_idx {
            batches(total as int, batch as int)
        } else {
            total as int
        },
        r.interrupts == batches(total as int, batch as int),
{
    proof {
        lemma_notify_layout();
    }
    let layout = VirtqLayout::new(GuestAddr(0), NOTIFY_QUEUE_SIZE);
    proof {
        law_layout_parts(0, NOTIFY_QUEUE_SIZE, layout);
        lemma_least_multiple(layout.used_ring.0 + layout.used_bytes(), 16);
    }
    let mut mem = SharedMem::new(NOTIFY_REGION);
    let mut driver = Driver::new(layout, NOTIFY_REGION as u64, event_idx);
    let mut device = Device::new(layout, event_idx);
    let ghost arena = driver@.arena;
    let request: Vec<u8> = vec![0x78u8];
    proof {
        lemma_least_multiple(arena + 1, 8);
    }
    let payload = driver.alloc_init(&mut mem, request.as_slice()).unwrap();
    proof {
        lemma_least_multiple(driver@.arena + 8, 8);
    }
    let reply = driver.alloc_uninit(8).unwrap();
    let bufs: Vec<Buffer> = vec![
        Buffer { addr: payload, len: 1, device_writable: false },
        Buffer { addr: reply, len: 8, device_writable: true },
    ];
    proof {
        lemma_request_sound(layout, payload.0, reply.0, bufs@);
        lemma_rests_at_first(driver@, device@, mem@);
        vstd::arithmetic::div_mod::lemma_basic_div(batch - 1, batch as int);
        vstd::arithmetic::div_mod::lemma_small_mod(0, batch as nat);
    }
    let mut kicks: u64 = 0;
    let mut interrupts: u64 = 0;
    let mut submitted: u32 = 0;
    while submitted < total
        invariant
            1 <= batch <= MAX_BATCH,
            submitted <= total,
            submitted == total || submitted as int % batch as int == 0,
            bufs@.len() == 2,
            layout.queue_size == NOTIFY_QUEUE_SIZE,
            driver@.layout == layout,
            driver@.event_idx == event_idx,
            placed(layout, mem@.len()),
            sound(layout, bufs@),
            at_rest(driver@, device@, mem@),
            interrupts == batches(submitted as int, batch as int),
            interrupts <= submitted,
            kicks <= submitted,
            kicks == if event_idx {
                interrupts as int
            } else {
                submitted as int
            },
        decreases total - submitted,
    {
        let n: u32 = if batch < total - submitted {
            batch
        } else {
            total - submitted
        };
        proof {
            lemma_one_more_batch(submitted as int, n as int, batch as int);
        }
        let (rung, due) = round(&mut driver, &mut device, &mut mem, bufs.as_slice(), n);
        kicks = kicks + rung;
        if due {
            interrupts = interrupts + 1;
        }
        submitted = submitted + n;
    }
    Notifications { kicks, interrupts }
}

/// Where the parts of a queue of `NOTIFY_QUEUE_SIZE` from address 0 on come to lie.
proof fn lemma_notify_layout()
    ensures
        is_power_of_two(NOTIFY_QUEUE_SIZE as int),
        VirtqLayout::desc_table_from(0) == 0,
        VirtqLayout::avail_ring_from(0, NOTIFY_QUEUE_SIZE as int) == 2048,
        VirtqLayout::used_ring_from(0, NOTIFY_QUEUE_SIZE as int) == 2312,
{
    vstd::arithmetic::power2::lemma2_to64();
    assert(vstd::arithmetic::power2::pow2(7) == 128);
}


/// As few batches as will do: with one fewer, some request would be left over.
pub proof fn law_batches_are_as_few_as_will_do(total: int, batch: int)
    requires
        0 <= total,
        0 < batch,
    ensures
        total <= batches(total, batch) * batch,
        batches(total, batch) * batch < total + batch,
{
    vstd::arithmetic::div_mod::lemma_fundamental_div_mod(total + batch - 1, batch);
    vstd::arithmetic::div_mod::lemma_mod_bound(total + batch - 1, batch);
    assert(batches(total, batch) * batch == batch * batches(total, batch)) by (nonlinear_arith);
}

} // verus!
