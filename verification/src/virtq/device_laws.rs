//! What a device does, said of what it is given and what it leaves.

use crate::le::{le_bytes, lemma_le_bounds, lemma_le_bytes_len};
use crate::virtq::device::{
    all_inside, buffers, capacity, first_outside, gathered, least, lemma_scattered_len,
    lemma_stretches_first, pass_from, scattered, stopped_at, stretches, DeviceState, Pass,
    ProcessStats, RejectReason, Scatter, Tally,
};
use crate::virtq::layout::{
    law_descriptor_flags, law_event_is_due_once_passed, law_fields_inside_parts, Descriptor,
};
use crate::virtq::mem::{lemma_field_read_back, lemma_write_frame, put, u16_at, write_at, MemError};
use vstd::prelude::*;

verus! {

/// An interrupt is due exactly where the completions since the last decision have left behind the
/// value that the driver asked about, however many they are; without event indices it always is; and
/// if the driver's field cannot be read, so it is said.
pub proof fn law_interrupt_is_due_once_passed(d: DeviceState, m: Seq<u8>)
    ensures
        d.interrupt_due(m) == if !d.event_idx {
            Ok::<bool, MemError>(true)
        } else {
            match u16_at(m, d.layout.avail_ring.0 + 4 + 2 * d.layout.queue_size) {
                Ok(event) => Ok::<bool, MemError>(
                    (event - d.next_used + d.num_added) % 0x1_0000 < d.num_added,
                ),
                Err(e) => Err::<bool, MemError>(e),
            }
        },
{
    match u16_at(m, d.layout.used_event_addr()) {
        Ok(event) => {
            let before = (d.next_used - d.num_added) % 0x1_0000;
            law_event_is_due_once_passed(event, d.next_used, before as u16);
            assert((d.next_used - before) % 0x1_0000 == d.num_added);
            assert((event - before) % 0x1_0000 == (event - d.next_used + d.num_added) % 0x1_0000);
        },
        Err(e) => {},
    }
}

/// As many chains are pending as the published index is ahead of the device round the counter, and
/// the next is the one in the slot where the device stands.
pub proof fn law_pending_chains(d: DeviceState, m: Seq<u8>)
    requires
        d.layout.queue_size > 0,
    ensures
        match u16_at(m, d.layout.avail_ring.0 + 2) {
            Err(e) => d.pending(m) == Err::<u16, MemError>(e) && d.next_head(m) == Err::<
                Option<u16>,
                MemError,
            >(e),
            Ok(idx) => {
                &&& d.pending(m) matches Ok(n) && (d.next_avail + n) % 0x1_0000 == idx
                &&& idx == d.next_avail <==> d.next_head(m) == Ok::<Option<u16>, MemError>(None)
                &&& idx != d.next_avail ==> match u16_at(
                    m,
                    d.layout.avail_ring.0 + 4 + 2 * (d.next_avail as int
                        % d.layout.queue_size as int),
                ) {
                    Ok(head) => d.next_head(m) == Ok::<Option<u16>, MemError>(Some(head)),
                    Err(e) => d.next_head(m) == Err::<Option<u16>, MemError>(e),
                }
            },
        },
        d.popped() == (DeviceState {
            next_avail: ((d.next_avail + 1) % 0x1_0000) as u16,
            ..d
        }),
        d.counted() == (DeviceState {
            next_used: ((d.next_used + 1) % 0x1_0000) as u16,
            num_added: ((d.num_added + 1) % 0x1_0000) as u16,
            ..d
        }),
{
}

/// With event indices, asking to be notified leaves the device's position in its event field, and
/// asking not to be does nothing.
pub proof fn law_event_field_is_armed(d: DeviceState, m: Seq<u8>)
    requires
        d.event_idx,
        d.layout.inside(m.len()),
    ensures
        ({
            let at = d.layout.used_ring.0 + 4 + 8 * d.layout.queue_size;
            &&& d.notifications_on(m) matches Ok(k) && k.len() == m.len() && u16_at(k, at) == Ok::<
                u16,
                MemError,
            >(d.next_avail) && forall|i: int|
                0 <= i < m.len() && !(at <= i < at + 2) ==> #[trigger] k[i] == m[i]
            &&& d.notifications_off(m) == Ok::<Seq<u8>, MemError>(m)
        }),
{
    let at = d.layout.avail_event_addr();
    lemma_le_bytes_len(d.next_avail as nat, 2);
    lemma_le_bounds();
    lemma_field_read_back(m, at, d.next_avail as nat, 2);
}

/// Without event indices, the lowest bit of the used flags tells the driver not to notify: asking to
/// be notified clears it, asking not to be sets it, and no other bit or byte changes.
pub proof fn law_notification_flag(d: DeviceState, m: Seq<u8>)
    requires
        !d.event_idx,
        d.layout.inside(m.len()),
    ensures
        ({
            let at = d.layout.used_ring.0 as int;
            &&& u16_at(m, at) matches Ok(flags) && {
                &&& d.notifications_on(m) matches Ok(k) && k.len() == m.len() && u16_at(k, at)
                    == Ok::<u16, MemError>((flags - flags % 2) as u16) && forall|i: int|
                    0 <= i < m.len() && !(at <= i < at + 2) ==> #[trigger] k[i] == m[i]
                &&& d.notifications_off(m) matches Ok(k) && k.len() == m.len() && u16_at(k, at)
                    == Ok::<u16, MemError>((flags - flags % 2 + 1) as u16) && forall|i: int|
                    0 <= i < m.len() && !(at <= i < at + 2) ==> #[trigger] k[i] == m[i]
            }
        }),
{
    let at = d.layout.used_ring.0 as int;
    let flags = u16_at(m, at)->Ok_0;
    assert(flags & !1u16 == flags - flags % 2 && flags | 1u16 == flags - flags % 2 + 1)
        by (bit_vector);
    lemma_le_bounds();
    lemma_le_bytes_len((flags & !1u16) as nat, 2);
    lemma_le_bytes_len((flags | 1u16) as nat, 2);
    lemma_field_read_back(m, at, (flags & !1u16) as nat, 2);
    lemma_field_read_back(m, at, (flags | 1u16) as nat, 2);
}

/// The buffers of a direction are those of the descriptors of that direction, all of them, in order.
pub proof fn law_buffers_of_a_direction(
    a: Seq<Descriptor>,
    d: Descriptor,
    b: Seq<Descriptor>,
    writable: bool,
)
    ensures
        buffers(a + b, writable) == buffers(a, writable) + buffers(b, writable),
        buffers(seq![d], writable) == if (d.flags / 2 % 2 == 1) == writable {
            seq![(d.addr, d.len)]
        } else {
            Seq::<(u64, u32)>::empty()
        },
        buffers(Seq::<Descriptor>::empty(), writable) == Seq::<(u64, u32)>::empty(),
    decreases b.len(),
{
    reveal_with_fuel(buffers, 2);
    law_descriptor_flags(d);
    assert(seq![d].drop_last() =~= Seq::<Descriptor>::empty());
    assert(Seq::<(u64, u32)>::empty().push((d.addr, d.len)) =~= seq![(d.addr, d.len)]);
    if b.len() == 0 {
        assert(a + b =~= a);
        assert(buffers(a, writable) + buffers(b, writable) =~= buffers(a, writable));
    } else {
        law_buffers_of_a_direction(a, d, b.drop_last(), writable);
        assert((a + b).drop_last() =~= a + b.drop_last());
        assert((a + b).last() == b.last());
        assert(buffers(a + b, writable) =~= buffers(a, writable) + buffers(b, writable));
    }
}

/// Gathering takes the bytes of the buffers, all of them, in order.
pub proof fn law_gathering_is_in_order(
    m: Seq<u8>,
    a: Seq<(u64, u32)>,
    one: (u64, u32),
    b: Seq<(u64, u32)>,
)
    ensures
        gathered(m, a + b) == gathered(m, a) + gathered(m, b),
        one.0 + one.1 <= m.len() ==> gathered(m, seq![one]) == m.subrange(
            one.0 as int,
            one.0 + one.1,
        ),
        gathered(m, Seq::<(u64, u32)>::empty()) == Seq::<u8>::empty(),
    decreases b.len(),
{
    reveal_with_fuel(gathered, 2);
    assert(seq![one].drop_last() =~= Seq::<(u64, u32)>::empty());
    if one.0 + one.1 <= m.len() {
        assert(gathered(m, seq![one]) =~= m.subrange(one.0 as int, one.0 + one.1));
    }
    if b.len() == 0 {
        assert(a + b =~= a);
        assert(gathered(m, a) + gathered(m, b) =~= gathered(m, a));
    } else {
        law_gathering_is_in_order(m, a, one, b.drop_last());
        assert((a + b).drop_last() =~= a + b.drop_last());
        assert((a + b).last() == b.last());
        assert(gathered(m, a + b) =~= gathered(m, a) + gathered(m, b));
    }
}

/// A list of buffers is refused for the first of them that leaves the region, with the access and the
/// size of the region as the reason, and is not where none does.
pub proof fn law_first_buffer_outside(m: Seq<u8>, bufs: Seq<(u64, u32)>)
    requires
        m.len() <= u64::MAX,
    ensures
        match first_outside(m, bufs) {
            None => forall|j: int|
                0 <= j < bufs.len() ==> (#[trigger] bufs[j]).0 + bufs[j].1 <= m.len(),
            Some(e) => exists|j: int|
                {
                    &&& 0 <= j < bufs.len()
                    &&& (#[trigger] bufs[j]).0 + bufs[j].1 > m.len()
                    &&& e == MemError::OutOfBounds {
                        addr: bufs[j].0,
                        len: bufs[j].1 as u64,
                        region_len: m.len() as u64,
                    }
                    &&& forall|i: int|
                        0 <= i < j ==> (#[trigger] bufs[i]).0 + bufs[i].1 <= m.len()
                },
        },
    decreases bufs.len(),
{
    if bufs.len() > 0 {
        let rest = bufs.drop_first();
        if bufs[0].0 + bufs[0].1 <= m.len() {
            law_first_buffer_outside(m, rest);
            match first_outside(m, rest) {
                None => {
                    assert forall|j: int| 0 <= j < bufs.len() implies (#[trigger] bufs[j]).0
                        + bufs[j].1 <= m.len() by {
                        if j > 0 {
                            assert(bufs[j] == rest[j - 1]);
                        }
                    }
                },
                Some(e) => {
                    let j = choose|j: int|
                        {
                            &&& 0 <= j < rest.len()
                            &&& (#[trigger] rest[j]).0 + rest[j].1 > m.len()
                            &&& e == MemError::OutOfBounds {
                                addr: rest[j].0,
                                len: rest[j].1 as u64,
                                region_len: m.len() as u64,
                            }
                            &&& forall|i: int|
                                0 <= i < j ==> (#[trigger] rest[i]).0 + rest[i].1 <= m.len()
                        };
                    assert(bufs[j + 1] == rest[j]);
                    assert forall|i: int| 0 <= i < j + 1 implies (#[trigger] bufs[i]).0 + bufs[i].1
                        <= m.len() by {
                        if i > 0 {
                            assert(bufs[i] == rest[i - 1]);
                        }
                    }
                },
            }
        } else {
            assert(bufs[0].0 + bufs[0].1 > m.len());
        }
    }
}

/// The bytes of buffers are the sum of their lengths.
pub proof fn law_capacities_add_up(a: Seq<(u64, u32)>, one: (u64, u32), b: Seq<(u64, u32)>)
    ensures
        capacity(a + b) == capacity(a) + capacity(b),
        capacity(seq![one]) == one.1,
        capacity(Seq::<(u64, u32)>::empty()) == 0,
    decreases a.len(),
{
    reveal_with_fuel(capacity, 2);
    assert(seq![one].drop_first() =~= Seq::<(u64, u32)>::empty());
    if a.len() == 0 {
        assert(a + b =~= b);
    } else {
        law_capacities_add_up(a.drop_first(), one, b);
        assert((a + b).drop_first() =~= a.drop_first() + b);
    }
}

/// What bytes reach of buffers: the beginning of each, all of it but for the last that is reached,
/// and together as many bytes as there are, or as the buffers hold.
pub proof fn law_bytes_fill_buffers_in_order(bufs: Seq<(u64, u32)>, n: nat)
    ensures
        ({
            let s = stretches(bufs, n);
            &&& s.len() <= bufs.len()
            &&& forall|i: int|
                0 <= i < s.len() ==> (#[trigger] s[i]).0 == bufs[i].0 && s[i].1 <= bufs[i].1
            &&& forall|i: int| 0 <= i < s.len() - 1 ==> (#[trigger] s[i]).1 == bufs[i].1
            &&& capacity(s) == if n <= capacity(bufs) {
                n
            } else {
                capacity(bufs)
            }
            &&& s.len() > 0 ==> s.len() == bufs.len() || capacity(s) == n
            &&& n == 0 ==> s.len() == 0
        }),
    decreases bufs.len(),
{
    if bufs.len() > 0 && n > 0 {
        let k = least(bufs[0].1 as nat, n);
        let rest = bufs.drop_first();
        let s = stretches(bufs, n);
        lemma_stretches_first(bufs, n);
        law_bytes_fill_buffers_in_order(rest, (n - k) as nat);
        let t = stretches(rest, (n - k) as nat);
        assert forall|i: int| 0 <= i < s.len() implies (#[trigger] s[i]).0 == bufs[i].0 && s[i].1
            <= bufs[i].1 && (i < s.len() - 1 ==> s[i].1 == bufs[i].1) by {
            if i > 0 {
                assert(s[i] == t[i - 1]);
                assert(bufs[i] == rest[i - 1]);
            }
        }
    }
}

/// What the device has against a chain before it does anything for it: that its walk ends in an
/// error, and else that one of its device-readable buffers leaves the region. Nothing else.
pub proof fn law_objections(p: Pass, data: Seq<u8>)
    requires
        p.mem.len() <= u64::MAX,
    ensures
        match p.chain().error {
            Some(e) => p.objection() == Some(RejectReason::Chain(e)),
            None => match p.objection() {
                None => forall|j: int|
                    0 <= j < buffers(p.chain().descs, false).len() ==> (#[trigger] buffers(
                        p.chain().descs,
                        false,
                    )[j]).0 + buffers(p.chain().descs, false)[j].1 <= p.mem.len(),
                Some(RejectReason::Chain(e)) => false,
                Some(RejectReason::Buffer(e)) => first_outside(
                    p.mem,
                    buffers(p.chain().descs, false),
                ) == Some(e),
            },
        },
        p.objection() is Some ==> p.refusal(data) == p.objection(),
        p.objection() is None ==> match p.refusal(data) {
            None => first_outside(
                p.mem,
                stretches(buffers(p.chain().descs, true), data.len()),
            ) is None,
            Some(RejectReason::Chain(e)) => false,
            Some(RejectReason::Buffer(e)) => first_outside(
                p.mem,
                stretches(buffers(p.chain().descs, true), data.len()),
            ) == Some(e),
        },
        p.request() == gathered(p.mem, buffers(p.chain().descs, false)),
{
    law_first_buffer_outside(p.mem, buffers(p.chain().descs, false));
}

/// A completion goes through exactly where its element and the index lie in the region, and one that
/// does not leaves the index that the driver reads as it was.
pub proof fn law_completion_is_stored_or_not_announced(
    d: DeviceState,
    m: Seq<u8>,
    head: u16,
    len: u32,
)
    requires
        d.layout.queue_size > 0,
    ensures
        ({
            let at = d.layout.used_ring.0 + 4 + 8 * (d.next_used as int
                % d.layout.queue_size as int);
            let c = d.complete(m, head, len);
            &&& c.result is Ok <==> at + 8 <= m.len()
            &&& c.dev == if c.result is Ok {
                d.counted()
            } else {
                d
            }
            &&& c.result is Err ==> u16_at(c.mem, d.layout.used_ring.0 + 2) == u16_at(
                m,
                d.layout.used_ring.0 + 2,
            )
            &&& c.mem.len() == m.len()
        }),
{
    let at = d.layout.used_elem_addr(d.next_used as int);
    let ring = d.layout.used_ring.0;
    vstd::arithmetic::div_mod::lemma_mod_bound(d.next_used as int, d.layout.queue_size as int);
    lemma_le_bytes_len(head as nat, 4);
    lemma_le_bytes_len(len as nat, 4);
    lemma_le_bytes_len(d.counted().next_used as nat, 2);
    lemma_write_frame(m, at, le_bytes(head as nat, 4), ring + 2, 2);
    let m1 = put(m, at, le_bytes(head as nat, 4));
    lemma_write_frame(m1, at + 4, le_bytes(len as nat, 4), ring + 2, 2);
}


/// The counters that a caller reads are those that the laws speak of.
pub proof fn law_counters_are_what_they_say(s: ProcessStats)
    ensures
        s@.chains == s.chains,
        s@.descriptors == s.descriptors,
        s@.bytes_read == s.bytes_read,
        s@.bytes_written == s.bytes_written,
        s@.rejected == s.rejected@,
{
}

/// A pass begins with nothing counted, goes on chain by chain, and has a next as long as nothing has
/// failed and a chain is found.
pub proof fn law_pass_goes_chain_by_chain(
    dev: DeviceState,
    m: Seq<u8>,
    p: Pass,
    responses: Seq<Seq<u8>>,
    data: Seq<u8>,
)
    ensures
        ({
            let start = pass_from(dev, m);
            &&& start.dev == dev && start.mem == m && start.failed is None
            &&& start.tally.chains == 0 && start.tally.descriptors == 0
            &&& start.tally.bytes_read == 0 && start.tally.bytes_written == 0
            &&& start.tally.rejected.len() == 0
        }),
        p.after(Seq::<Seq<u8>>::empty()) == p,
        p.after(responses.push(data)) == p.after(responses).step(data),
        p.has_next() <==> p.failed is None && (p.dev.next_head(p.mem) matches Ok(h) && h is Some),
{
    assert(responses.push(data).drop_last() =~= responses);
}

/// Every answer of a pass is the work's own: to each chain that the device has nothing against, what
/// the work returned for the request that the chain carries, and to any other none.
pub proof fn law_answers_come_from_the_work<F: FnMut(&[u8]) -> Vec<u8>>(
    p: Pass,
    work: F,
    responses: Seq<Seq<u8>>,
    i: int,
)
    requires
        p.runs(work, responses),
        0 <= i < responses.len(),
    ensures
        ({
            let q = p.after(responses.take(i));
            &&& q.has_next()
            &&& q.objection() is None ==> exists|s: &[u8], v: Vec<u8>|
                s@ == q.request() && v@ == responses[i] && #[trigger] work.ensures((s,), v)
            &&& q.objection() is Some ==> responses[i].len() == 0
        }),
{
    let q = p.after(responses.take(i));
    assert(q.has_next());
}

/// A pass ends well only when no chain is left, and hands out what was counted; and in an error only
/// for a completion that could not be published or an avail ring that could not be read.
pub proof fn law_passes_end(
    p: Pass,
    dev: DeviceState,
    m: Seq<u8>,
    r: Result<ProcessStats, MemError>,
)
    requires
        p.ended(dev, m, r),
    ensures
        dev == p.dev,
        m == p.mem,
        match r {
            Ok(stats) => p.failed is None && p.dev.next_head(p.mem) == Ok::<Option<u16>, MemError>(
                None,
            ) && stats@ == p.tally,
            Err(e) => p.failed == Some(e) || (p.failed is None && p.dev.next_head(p.mem) == Err::<
                Option<u16>,
                MemError,
            >(e)),
        },
{
}

/// Scattering fills the buffers in order: of one buffer the beginning, as far as the data goes; and
/// of two lists of buffers the second with what the first had no room for.
pub proof fn law_scattering_is_in_order(
    m: Seq<u8>,
    a: Seq<(u64, u32)>,
    one: (u64, u32),
    b: Seq<(u64, u32)>,
    data: Seq<u8>,
)
    ensures
        ({
            let first = scattered(m, a, data);
            let rest = scattered(first.mem, b, data.skip(first.written as int));
            first.written <= data.len() && (first.error is None ==> scattered(m, a + b, data)
                == (Scatter {
                mem: rest.mem,
                written: first.written + rest.written,
                error: rest.error,
            }))
        }),
        scattered(m, a, data).error is Some ==> scattered(m, a + b, data) == scattered(m, a, data),
        ({
            let n = if one.1 <= data.len() {
                one.1 as int
            } else {
                data.len() as int
            };
            let s = scattered(m, seq![one], data);
            &&& data.len() > 0 && one.0 + n <= m.len() ==> s.error is None && s.written == n
                && s.mem.len() == m.len() && forall|i: int|
                0 <= i < m.len() ==> #[trigger] s.mem[i] == if one.0 <= i < one.0 + n {
                    data[i - one.0]
                } else {
                    m[i]
                }
            &&& data.len() > 0 && one.0 + n > m.len() ==> s.error is Some && s.written == 0
                && s.mem == m
        }),
        scattered(m, Seq::<(u64, u32)>::empty(), data) == (Scatter {
            mem: m,
            written: 0,
            error: None,
        }),
        scattered(m, a, Seq::<u8>::empty()) == (Scatter { mem: m, written: 0, error: None }),
    decreases a.len(),
{
    reveal_with_fuel(scattered, 2);
    assert(seq![one].drop_first() =~= Seq::<(u64, u32)>::empty());
    lemma_scattered_len(m, a, data);
    if a.len() == 0 {
        assert(a + b =~= b);
        assert(data.skip(0) =~= data);
    } else if data.len() == 0 {
        assert(data.skip(0) =~= data);
    } else {
        let n = least(a[0].1 as nat, data.len());
        let left = data.skip(n as int);
        assert((a + b)[0] == a[0]);
        assert((a + b).drop_first() =~= a.drop_first() + b);
        match write_at(m, a[0].0 as int, data.take(n as int)) {
            Ok(m1) => {
                law_scattering_is_in_order(m1, a.drop_first(), one, b, left);
                let t = scattered(m1, a.drop_first(), left);
                lemma_scattered_len(m1, a.drop_first(), left);
                assert(left.skip(t.written as int) =~= data.skip((n + t.written) as int));
            },
            Err(e) => {},
        }
    }
}

/// What dealing with a chain leaves in memory: but for the used ring, what scattering the answer over
/// its device-writable buffers leaves, or, of a refused chain, what was there. It fails only where
/// the completion cannot be published, and the chain is not counted then.
pub proof fn law_answers_are_scattered(p: Pass, data: Seq<u8>, i: int)
    requires
        p.has_next(),
        p.dev.layout.queue_size > 0,
        0 <= i < p.mem.len(),
        !(p.dev.layout.used_ring.0 <= i < p.dev.layout.used_ring.0 + 6 + 8
            * p.dev.layout.queue_size),
    ensures
        p.step(data).mem.len() == p.mem.len(),
        p.step(data).mem[i] == if p.refusal(data) is Some {
            p.mem[i]
        } else {
            scattered(p.mem, buffers(p.chain().descs, true), data).mem[i]
        },
        p.step(data).failed is Some <==> p.dev.layout.used_ring.0 + 4 + 8 * (p.dev.next_used as int
            % p.dev.layout.queue_size as int) + 8 > p.mem.len(),
        p.step(data).failed is Some ==> p.step(data).tally.chains == p.tally.chains,
{
    let bufs = buffers(p.chain().descs, true);
    let s = scattered(p.mem, bufs, data);
    let dev = p.dev.popped();
    lemma_scattered_len(p.mem, bufs, data);
    if p.refusal(data) is Some {
        law_completion_is_stored_or_not_announced(dev, p.mem, p.head(), 0);
        lemma_completion_stays_in_ring(dev, p.mem, p.head(), 0, i);
    } else {
        law_completion_is_stored_or_not_announced(dev, s.mem, p.head(), s.written as u32);
        lemma_completion_stays_in_ring(dev, s.mem, p.head(), s.written as u32, i);
    }
}

/// A completion, published or not, changes nothing outside the used ring.
proof fn lemma_completion_stays_in_ring(d: DeviceState, m: Seq<u8>, head: u16, len: u32, i: int)
    requires
        d.layout.queue_size > 0,
        0 <= i < m.len(),
        !(d.layout.used_ring.0 <= i < d.layout.used_ring.0 + 6 + 8 * d.layout.queue_size),
    ensures
        d.complete(m, head, len).mem[i] == m[i],
{
    law_fields_inside_parts(d.layout, d.next_used as int);
    lemma_le_bytes_len(head as nat, 4);
    lemma_le_bytes_len(len as nat, 4);
    lemma_le_bytes_len(d.counted().next_used as nat, 2);
}


/// What taking a chain does, before its request is answered: it is taken, and its descriptors are
/// counted. If the device has nothing against it, the bytes of its request are, and nothing else has
/// changed. If it has, that is all there is to the chain.
pub proof fn law_taking_a_chain(p: Pass, data: Seq<u8>)
    requires
        p.failed is None,
    ensures
        p.objection() is None ==> {
            let q = p.taken();
            &&& q.dev == p.dev.popped()
            &&& q.mem == p.mem
            &&& q.failed is None
            &&& q.tally.chains == p.tally.chains
            &&& q.tally.descriptors == p.tally.descriptors + p.chain().descs.len()
            &&& q.tally.bytes_read == p.tally.bytes_read + gathered(
                p.mem,
                buffers(p.chain().descs, false),
            ).len()
            &&& q.tally.bytes_written == p.tally.bytes_written
            &&& q.tally.rejected == p.tally.rejected
            &&& p.step(data) == q.answered(p.head(), buffers(p.chain().descs, true), data)
        },
        p.objection() is Some ==> p.step(data) == p.taken(),
{
}

/// What answering does, for any request: the answer is scattered over the buffers and the completion
/// published with the bytes that went in, which are counted. If the answer reaches a byte outside the
/// region, the request is refused instead: logged, for the first such stretch, and completed with
/// nothing written.
pub proof fn law_answering_a_request(p: Pass, head: u16, bufs: Seq<(u64, u32)>, data: Seq<u8>)
    ensures
        ({
            let q = p.answered(head, bufs, data);
            let reached = stretches(bufs, data.len());
            let s = scattered(p.mem, bufs, data);
            let c = match first_outside(p.mem, reached) {
                Some(e) => p.dev.complete(p.mem, head, 0),
                None => p.dev.complete(s.mem, head, s.written as u32),
            };
            &&& q.dev == c.dev && q.mem == c.mem
            &&& q.failed == match c.result {
                Ok(_) => None::<MemError>,
                Err(e) => Some(e),
            }
            &&& q.tally.chains == p.tally.chains + if c.result is Ok {
                1int
            } else {
                0
            }
            &&& q.tally.descriptors == p.tally.descriptors
            &&& q.tally.bytes_read == p.tally.bytes_read
            &&& match first_outside(p.mem, reached) {
                Some(e) => q.tally.bytes_written == p.tally.bytes_written && q.tally.rejected
                    == p.tally.rejected.push((head, RejectReason::Buffer(e))),
                None => q.tally.bytes_written == p.tally.bytes_written + s.written
                    && q.tally.rejected == p.tally.rejected,
            }
        }),
{
}

/// A pass that was kept short has done what it counted and nothing has failed.
pub proof fn law_short_passes(
    p: Pass,
    responses: Seq<Seq<u8>>,
    dev: DeviceState,
    m: Seq<u8>,
    t: Tally,
)
    requires
        stopped_at(p, responses, dev, m, t),
    ensures
        p.after(responses).failed is None,
        p.after(responses).dev == dev && p.after(responses).mem == m && p.after(responses).tally
            == t,
{
}

/// All buffers are inside where each ends by the end of the region.
pub proof fn law_what_all_inside_is(region_len: nat, bufs: Seq<(u64, u32)>)
    ensures
        all_inside(region_len, bufs) <==> !exists|j: int|
            0 <= j < bufs.len() && (#[trigger] bufs[j]).0 + bufs[j].1 > region_len,
{
}

} // verus!
