//! The device on mapped memory and the library's own device do the same.

use crate::virtq::backing::{accessible, decided, decides, next_step, steps_on, visible};
use crate::virtq::chain::{chain_from, law_chain_is_bounded};
use crate::virtq::device::{
    all_inside, buffers, gathered, least, lemma_buffers_split, lemma_none_outside,
    lemma_scattered_len, lemma_stretches_first, scattered, stretches, DeviceState, Pass,
};
use crate::virtq::layout::{
    law_fields_inside_parts, lemma_least_multiple, lemma_wrap_steps, wrap, VirtqLayout,
};
use crate::virtq::mapped::{
    lemma_parts_ascend, mapped_gathered, mapped_scattered, off_the_table, part_addr, request_descs,
    stored_part, upper, walk_gathered, walk_scattered, MappedError, MappedGather, MappedScatter,
    MappedState,
};
use crate::virtq::mem::{fits, put, u16_at, MemError};
use crate::virtq::pass_laws::{
    answers_stay_off, head_behind, isolated, law_every_chain_is_completed, lemma_gathered_first,
    lemma_isolated_step, off_the_rings, reported,
};
use vstd::prelude::*;

verus! {

/// Over buffers inside the memory, mapped memory gathers as the library's own shared memory does.
proof fn lemma_gathers_alike(ram: Seq<u8>, bufs: Seq<(u64, u32)>)
    requires
        all_inside(ram.len(), bufs),
    ensures
        !mapped_gathered(ram, bufs).refused,
        mapped_gathered(ram, bufs).data == gathered(ram, bufs),
    decreases bufs.len(),
{
    if bufs.len() > 0 {
        let rest = bufs.drop_first();
        assert(fits(ram.len(), bufs[0].0 as int, bufs[0].1 as nat));
        assert forall|j: int| 0 <= j < rest.len() implies fits(
            ram.len(),
            (#[trigger] rest[j]).0 as int,
            rest[j].1 as nat,
        ) by {
            assert(rest[j] == bufs[j + 1]);
        }
        lemma_gathers_alike(ram, rest);
        lemma_gathered_first(ram, bufs);
        assert(visible(ram, bufs[0].0 as int, bufs[0].1 as nat) =~= ram.subrange(
            bufs[0].0 as int,
            bufs[0].0 + bufs[0].1,
        ));
    }
}

/// Where what the data reaches of the buffers lies inside the memory, mapped memory is scattered over
/// as the library's own shared memory is.
proof fn lemma_scatters_alike(ram: Seq<u8>, bufs: Seq<(u64, u32)>, data: Seq<u8>)
    requires
        all_inside(ram.len(), stretches(bufs, data.len())),
    ensures
        !mapped_scattered(ram, bufs, data).refused,
        mapped_scattered(ram, bufs, data).ram == scattered(ram, bufs, data).mem,
        mapped_scattered(ram, bufs, data).written == scattered(ram, bufs, data).written,
        scattered(ram, bufs, data).error is None,
    decreases bufs.len(),
{
    if bufs.len() > 0 && data.len() > 0 {
        let reached = stretches(bufs, data.len());
        lemma_stretches_first(bufs, data.len());
        let n = least(bufs[0].1 as nat, data.len());
        let piece = data.take(n as int);
        let after = stored_part(ram, bufs[0].0 as int, piece);
        let rest = stretches(bufs.drop_first(), (data.len() - n) as nat);
        assert(fits(ram.len(), reached[0].0 as int, reached[0].1 as nat));
        assert(after =~= put(ram, bufs[0].0 as int, piece)) by {
            assert(piece.take(n as int) =~= piece);
            assert(n == 0 ==> piece.take(0) =~= piece);
        }
        assert forall|j: int| 0 <= j < rest.len() implies fits(
            after.len(),
            (#[trigger] rest[j]).0 as int,
            rest[j].1 as nat,
        ) by {
            assert(rest[j] == reached[j + 1]);
        }
        lemma_scatters_alike(after, bufs.drop_first(), data.skip(n as int));
    }
}

/// The request that comes next, in upper case.
pub open spec fn upper_case(p: Pass) -> Seq<u8> {
    p.request().map_values(|b: u8| upper(b))
}

/// The chain that comes next is well-formed, and its readable buffers, and as much of its writable
/// ones as an answer of the length of its request reaches, lie inside the memory.
pub open spec fn well_formed(p: Pass) -> bool {
    &&& p.chain().error is None
    &&& all_inside(p.mem.len(), buffers(p.chain().descs, false))
    &&& all_inside(
        p.mem.len(),
        stretches(buffers(p.chain().descs, true), p.request().len()),
    )
}

/// The device with its position in the avail ring moved to `at`.
pub open spec fn moved(dev: DeviceState, at: u16) -> DeviceState {
    DeviceState { next_avail: at, ..dev }
}

/// The two devices do the same. Given a chain that is well-formed and whose buffers lie inside the
/// memory, the writable ones as far as the answer reaches, the device on mapped memory leaves the
/// memory and its counters exactly as the library's own device does when it answers the request in
/// upper case. How far it has read on in the avail ring does not matter.
pub proof fn law_devices_do_the_same(p: Pass, at: u16)
    requires
        p.has_next(),
        p.dev.layout.queue_size > 0,
        p.dev.layout.inside(p.mem.len()),
        well_formed(p),
    ensures
        ({
            let s = (MappedState { dev: moved(p.dev, at), ram: p.mem }).served_plainly(p.head());
            let own = p.step(upper_case(p));
            &&& own.failed is None
            &&& s.result is Ok
            &&& s.state == (MappedState { dev: moved(own.dev, at), ram: own.mem })
            &&& s.result->Ok_0.0 == reported(p, upper_case(p))
        }),
{
    let data = upper_case(p);
    let readable = buffers(p.chain().descs, false);
    let writable = buffers(p.chain().descs, true);
    lemma_none_outside(p.mem, readable);
    lemma_none_outside(p.mem, stretches(writable, data.len()));
    lemma_gathers_alike(p.mem, readable);
    lemma_scatters_alike(p.mem, writable, data);
    law_every_chain_is_completed(p, data);
    lemma_well_formed_head(p.mem, p.dev.layout, p.head());
    lemma_written_fits(p, data);
    lemma_completes_alike(
        p.dev.popped(),
        scattered(p.mem, writable, data).mem,
        p.head(),
        scattered(p.mem, writable, data).written as u32,
        at,
    );
    reveal(MappedState::served_over);
}

/// Completing a chain has nothing to do with the position in the avail ring.
proof fn lemma_completes_alike(dev: DeviceState, m: Seq<u8>, head: u16, len: u32, at: u16)
    ensures
        moved(dev, at).complete(m, head, len).mem == dev.complete(m, head, len).mem,
        moved(dev, at).complete(m, head, len).dev == moved(dev.complete(m, head, len).dev, at),
{
}

/// The pass after `k` chains, each answered in upper case.
pub open spec fn answered_in_upper_case(p: Pass, k: nat) -> Pass
    decreases k,
{
    if k == 0 {
        p
    } else {
        let q = answered_in_upper_case(p, (k - 1) as nat);
        q.step(upper_case(q))
    }
}

/// After `k` chains of an isolated pass, the chains that are left are those behind the first `k`.
proof fn lemma_pass_so_far(p: Pass, n: int, k: nat)
    requires
        isolated(p, n),
        k <= n,
    ensures
        ({
            let q = answered_in_upper_case(p, k);
            &&& isolated(q, n - k)
            &&& q.dev.layout == p.dev.layout
            &&& forall|j: int|
                0 <= j < n - k ==> #[trigger] head_behind(q, j) == head_behind(p, k + j)
        }),
    decreases k,
{
    if k > 0 {
        let q = answered_in_upper_case(p, (k - 1) as nat);
        lemma_pass_so_far(p, n, (k - 1) as nat);
        lemma_isolated_step(q, n - k + 1, upper_case(q));
        law_every_chain_is_completed(q, upper_case(q));
        assert forall|j: int| 0 <= j < n - k implies #[trigger] head_behind(
            q.step(upper_case(q)),
            j,
        ) == head_behind(p, k + j) by {
            assert(head_behind(q, j + 1) == head_behind(p, (k - 1) + (j + 1)));
        }
    }
}

/// The two devices do the same over a whole pass. If no answer can reach the descriptor table or
/// the avail ring, and each chain is well-formed with its buffers inside the memory when its turn
/// comes, then the device on mapped memory serves every pending chain, each of them a plain one, and
/// leaves the memory and its counters exactly as the library's own device does when it answers each
/// request in upper case.
pub proof fn law_passes_do_the_same(p: Pass, n: int)
    requires
        isolated(p, n),
        forall|k: nat| k < n ==> well_formed(#[trigger] answered_in_upper_case(p, k)),
    ensures
        ({
            let s = MappedState { dev: p.dev, ram: p.mem };
            let heads = s.pending_heads();
            let run = s.took(heads.len()).run_plainly(heads);
            let own = answered_in_upper_case(p, n as nat);
            &&& heads.len() == n
            &&& s.took(heads.len()).all_plain(heads)
            &&& own.failed is None
            &&& run.error is None
            &&& run.state == (MappedState { dev: own.dev, ram: own.mem })
            &&& forall|k: int|
                0 <= k < n ==> #[trigger] run.out[k] == (
                    heads[k],
                    reported(
                        answered_in_upper_case(p, k as nat),
                        upper_case(answered_in_upper_case(p, k as nat)),
                    ) as u32,
                )
        }),
{
    let s = MappedState { dev: p.dev, ram: p.mem };
    let heads = s.pending_heads();
    lemma_run_so_far(p, n, n as nat);
    lemma_pass_so_far(p, n, n as nat);
    assert(heads.take(n) =~= heads);
    lemma_position(p, n, n as nat);
}

/// The position in the avail ring after `k` chains of an isolated pass.
proof fn lemma_position(p: Pass, n: int, k: nat)
    requires
        isolated(p, n),
        k <= n,
    ensures
        answered_in_upper_case(p, k).dev.next_avail == wrap(p.dev.next_avail + k),
    decreases k,
{
    if k > 0 {
        let q = answered_in_upper_case(p, (k - 1) as nat);
        lemma_position(p, n, (k - 1) as nat);
        lemma_pass_so_far(p, n, (k - 1) as nat);
        lemma_isolated_step(q, n - k + 1, upper_case(q));
        lemma_step_takes_one(q, upper_case(q));
        lemma_wrap_steps(p.dev.next_avail as int, k - 1);
    }
}

/// Dealing with a chain takes one entry.
proof fn lemma_step_takes_one(q: Pass, data: Seq<u8>)
    requires
        q.has_next(),
        q.dev.layout.queue_size > 0,
        q.dev.layout.inside(q.mem.len()),
    ensures
        q.step(data).dev.next_avail == wrap(q.dev.next_avail + 1),
{
    law_every_chain_is_completed(q, data);
}

/// The run over the first `k` chains is in step with the library's own pass.
proof fn lemma_run_so_far(p: Pass, n: int, k: nat)
    requires
        isolated(p, n),
        k <= n,
        forall|i: nat| i < n ==> well_formed(#[trigger] answered_in_upper_case(p, i)),
    ensures
        ({
            let s = MappedState { dev: p.dev, ram: p.mem };
            let heads = s.pending_heads();
            let start = s.took(heads.len());
            let run = start.run_plainly(heads.take(k as int));
            let q = answered_in_upper_case(p, k);
            &&& heads.len() == n
            &&& start.all_plain(heads.take(k as int))
            &&& run.error is None
            &&& run.state == (MappedState {
                dev: moved(q.dev, wrap(p.dev.next_avail + n) as u16),
                ram: q.mem,
            })
            &&& run.out.len() == k
            &&& forall|i: int|
                0 <= i < k ==> #[trigger] run.out[i] == (
                    heads[i],
                    reported(
                        answered_in_upper_case(p, i as nat),
                        upper_case(answered_in_upper_case(p, i as nat)),
                    ) as u32,
                )
        }),
    decreases k,
{
    let s = MappedState { dev: p.dev, ram: p.mem };
    let heads = s.pending_heads();
    let start = s.took(heads.len());
    let at = wrap(p.dev.next_avail + n) as u16;
    if k == 0 {
        assert(heads.take(0) =~= Seq::empty());
    } else {
        let j = (k - 1) as nat;
        let q = answered_in_upper_case(p, j);
        lemma_run_so_far(p, n, j);
        lemma_pass_so_far(p, n, j);
        lemma_isolated_step(q, n - j, upper_case(q));
        assert(heads.take(k as int).drop_last() =~= heads.take(j as int));
        assert(heads.take(k as int).last() == heads[j as int]);
        assert(head_behind(q, 0) == head_behind(p, j as int));
        assert(heads[j as int] == q.head());
        assert(well_formed(q));
        law_devices_do_the_same(q, at);
        lemma_plain_here(q, n - j, at);
    }
}

/// A well-formed chain of an isolated pass is a plain one.
proof fn lemma_plain_here(q: Pass, n: int, at: u16)
    requires
        isolated(q, n),
        n > 0,
        q.head() == head_behind(q, 0),
        well_formed(q),
    ensures
        (MappedState { dev: moved(q.dev, at), ram: q.mem }).plain_chain(q.head()),
{
    let l = q.dev.layout;
    let bufs = buffers(q.chain().descs, true);
    reveal(answers_stay_off);
    assert forall|j: int| 0 <= j < bufs.len() implies off_the_table(l, #[trigger] bufs[j]) by {
        assert(off_the_rings(
            l,
            buffers(chain_from(q.mem, l, head_behind(q, 0)).descs, true)[j],
        ));
    }
}

/// A well-formed chain starts in the table.
proof fn lemma_well_formed_head(m: Seq<u8>, l: VirtqLayout, head: u16)
    requires
        chain_from(m, l, head).error is None,
    ensures
        head < l.queue_size,
{
}

/// What goes into a chain is less than 2^32 bytes.
proof fn lemma_written_fits(p: Pass, data: Seq<u8>)
    ensures
        scattered(p.mem, buffers(p.chain().descs, true), data).written <= u32::MAX,
{
    law_chain_is_bounded(p.mem, p.dev.layout, p.head());
    lemma_buffers_split(p.chain().descs);
    lemma_scattered_len(p.mem, buffers(p.chain().descs, true), data);
}


/// Upper case changes the ASCII letters from `a` to `z`, each to its capital, and no other byte.
pub proof fn law_upper_case(bytes: Seq<u8>)
    ensures
        ({
            let r = bytes.map_values(|b: u8| upper(b));
            &&& r.len() == bytes.len()
            &&& forall|i: int|
                0 <= i < bytes.len() ==> #[trigger] r[i] == if 97 <= bytes[i] <= 122 {
                    bytes[i] - 32
                } else {
                    bytes[i] as int
                }
        }),
{
}

/// A request is laid out part behind part, each but the first at the next multiple of eight, with the
/// reply behind them. Its descriptors are one readable buffer for each part, as long as the part,
/// linked to the next entry of the table, and last a writable one for the reply.
pub proof fn law_planned_requests(arena: int, lens: Seq<u32>, first: int, reply_len: u32, i: int)
    requires
        0 <= arena,
        0 <= first,
        first + lens.len() <= u16::MAX,
        part_addr(arena, lens, lens.len() as int) <= u64::MAX,
        0 <= i <= lens.len(),
    ensures
        part_addr(arena, lens, 0) == arena,
        i > 0 ==> part_addr(arena, lens, i) % 8 == 0,
        i < lens.len() ==> part_addr(arena, lens, i) + lens[i] <= part_addr(arena, lens, i + 1)
            < part_addr(arena, lens, i) + lens[i] + 8,
        ({
            let d = request_descs(arena, lens, first, reply_len);
            &&& d.len() == lens.len() + 1
            &&& d[i].addr == part_addr(arena, lens, i)
            &&& d[i].len == if i < lens.len() {
                lens[i]
            } else {
                reply_len
            }
            &&& d[i].flags == if i < lens.len() {
                1int
            } else {
                2
            }
            &&& i < lens.len() ==> d[i].next == first + i + 1
        }),
{
    lemma_parts_ascend(arena, lens, 0, i);
    lemma_parts_ascend(arena, lens, i, lens.len() as int);
    if i > 0 {
        lemma_least_multiple(part_addr(arena, lens, i - 1) + lens[i - 1], 8);
    }
    if i < lens.len() {
        lemma_least_multiple(part_addr(arena, lens, i) + lens[i], 8);
    }
}

/// How serving a chain can fail: a buffer that cannot be read ends it with nothing changed, one that
/// cannot be written with what was written before it, and a head that the table does not have with
/// the answer written and nothing completed. What does not fail is completed with as many bytes as
/// went in.
pub proof fn law_serving_fails_or_completes(
    s: MappedState,
    head: u16,
    g: MappedGather,
    w: MappedScatter,
)
    ensures
        ({
            let r = s.concluded(head, g, w);
            if g.refused {
                r.state == s && r.result == Err::<(u32, nat), MappedError>(MappedError::Memory)
            } else if w.refused {
                r.state.dev == s.dev && r.state.ram == w.ram && r.result == Err::<
                    (u32, nat),
                    MappedError,
                >(MappedError::Memory)
            } else if head >= s.dev.layout.queue_size {
                r.state.dev == s.dev && r.state.ram == w.ram && r.result == Err::<
                    (u32, nat),
                    MappedError,
                >(MappedError::Queue)
            } else {
                let c = s.dev.complete(w.ram, head, w.written as u32);
                &&& r.state.dev == c.dev && r.state.ram == c.mem
                &&& r.result == Ok::<(u32, nat), MappedError>(
                    (w.written as u32, g.visited + w.visited),
                )
            }
        }),
{
}

/// Mapped memory can be accessed where the access lies inside it, and where it is of no bytes; and it
/// gives the bytes that stand there.
pub proof fn law_mapped_accesses(ram: Seq<u8>, addr: int, n: nat)
    requires
        0 <= addr,
    ensures
        accessible(ram.len(), addr, n) <==> n == 0 || addr + n <= ram.len(),
        accessible(ram.len(), addr, n) ==> visible(ram, addr, n).len() == n && forall|i: int|
            0 <= i < n ==> #[trigger] visible(ram, addr, n)[i] == ram[addr + i],
{
}

/// The heads of the pending chains are those in the slots from where the device stands on, as many as
/// the published index is ahead of it.
pub proof fn law_pending_heads(s: MappedState, i: int)
    requires
        s.dev.layout.queue_size > 0,
        s.dev.layout.inside(s.ram.len()),
        0 <= i < s.pending_heads().len(),
    ensures
        u16_at(s.ram, s.dev.layout.avail_ring.0 + 2) matches Ok(idx) && (s.dev.next_avail
            + s.pending_heads().len()) % 0x1_0000 == idx,
        u16_at(
            s.ram,
            s.dev.layout.avail_ring.0 + 4 + 2 * ((s.dev.next_avail + i) % 0x1_0000
                % s.dev.layout.queue_size as int),
        ) == Ok::<u16, MemError>(s.pending_heads()[i]),
        s.took(i as nat).ram == s.ram,
        s.took(i as nat).dev == (DeviceState {
            next_avail: ((s.dev.next_avail + i) % 0x1_0000) as u16,
            ..s.dev
        }),
{
    law_fields_inside_parts(s.dev.layout, wrap(s.dev.next_avail + i));
}


/// Gathering over mapped memory goes buffer by buffer, and ends at the first that cannot be read.
pub proof fn law_mapped_gathering_is_in_order(
    ram: Seq<u8>,
    a: Seq<(u64, u32)>,
    one: (u64, u32),
    b: Seq<(u64, u32)>,
)
    ensures
        ({
            let g = mapped_gathered(ram, a);
            let h = mapped_gathered(ram, b);
            mapped_gathered(ram, a + b) == if g.refused {
                g
            } else {
                MappedGather {
                    data: g.data + h.data,
                    visited: g.visited + h.visited,
                    refused: h.refused,
                }
            }
        }),
        ({
            let g = mapped_gathered(ram, seq![one]);
            &&& g.visited == 1
            &&& g.refused <==> one.1 > 0 && one.0 + one.1 > ram.len()
            &&& !g.refused ==> g.data.len() == one.1 && forall|i: int|
                0 <= i < one.1 ==> #[trigger] g.data[i] == ram[one.0 + i]
        }),
        mapped_gathered(ram, Seq::<(u64, u32)>::empty()) == (MappedGather {
            data: Seq::empty(),
            visited: 0,
            refused: false,
        }),
    decreases a.len(),
{
    reveal_with_fuel(mapped_gathered, 2);
    assert(seq![one].drop_first() =~= Seq::<(u64, u32)>::empty());
    if a.len() == 0 {
        assert(a + b =~= b);
        assert(mapped_gathered(ram, b).data =~= Seq::<u8>::empty() + mapped_gathered(ram, b).data);
    } else {
        law_mapped_gathering_is_in_order(ram, a.drop_first(), one, b);
        assert((a + b)[0] == a[0]);
        assert((a + b).drop_first() =~= a.drop_first() + b);
        let first = visible(ram, a[0].0 as int, a[0].1 as nat);
        let rest = mapped_gathered(ram, a.drop_first()).data;
        let behind = mapped_gathered(ram, b).data;
        assert(first + (rest + behind) =~= (first + rest) + behind);
    }
}

/// A store to mapped memory puts in as much of the data as the memory holds, and changes no other
/// byte.
pub proof fn law_mapped_stores(ram: Seq<u8>, addr: int, data: Seq<u8>, i: int)
    requires
        0 <= addr,
        0 <= i < ram.len(),
    ensures
        stored_part(ram, addr, data).len() == ram.len(),
        stored_part(ram, addr, data)[i] == if addr <= i < addr + data.len() {
            data[i - addr]
        } else {
            ram[i]
        },
{
}

/// Scattering over mapped memory goes buffer by buffer: one that the data comes to is filled from its
/// beginning, as far as the data goes; the next has what is left; and the first that cannot take its
/// share ends it.
pub proof fn law_mapped_scattering_is_in_order(
    ram: Seq<u8>,
    one: (u64, u32),
    rest: Seq<(u64, u32)>,
    data: Seq<u8>,
)
    ensures
        ({
            let s = mapped_scattered(ram, seq![one] + rest, data);
            let n = if one.1 <= data.len() {
                one.1 as int
            } else {
                data.len() as int
            };
            let after = stored_part(ram, one.0 as int, data.take(n));
            let t = mapped_scattered(after, rest, data.skip(n));
            if data.len() == 0 {
                s.ram == ram && s.written == 0 && s.visited == 1 && !s.refused
            } else if n > 0 && one.0 + n > ram.len() {
                s.ram == after && s.written == 0 && s.visited == 1 && s.refused
            } else {
                s.ram == t.ram && s.written == n + t.written && s.visited == 1 + t.visited
                    && s.refused == t.refused
            }
        }),
        ({
            let s = mapped_scattered(ram, Seq::<(u64, u32)>::empty(), data);
            s.ram == ram && s.written == 0 && s.visited == 0 && !s.refused
        }),
{
    let all = seq![one] + rest;
    assert(all[0] == one);
    assert(all.drop_first() =~= rest);
}

/// The decision about an interrupt on mapped memory is the one that is due, and with event indices
/// the count of completions starts over.
pub proof fn law_mapped_decisions(dev: DeviceState, ram: Seq<u8>, due: bool)
    requires
        decides(dev, ram, due),
    ensures
        dev.interrupt_due(ram) == Ok::<bool, MemError>(due),
        decided(dev) == (DeviceState {
            num_added: if dev.event_idx {
                0
            } else {
                dev.num_added
            },
            ..dev
        }),
{
}


/// Serving goes along the walks that `virtio-queue` hands out: each readable buffer is taken behind
/// those before it, each writable one is filled with what those before it had no room for, and what
/// cannot be accessed ends it.
pub proof fn law_serving_follows_the_walk(
    ram: Seq<u8>,
    place: (u64, u16, u16, u16, u32, bool, bool),
    data: Seq<u8>,
)
    ensures
        ({
            let (item, next) = next_step(ram, place);
            let g = walk_gathered(ram, place);
            let s = walk_scattered(ram, place, data);
            match item {
                None => g.data.len() == 0 && g.visited == 0 && !g.refused && s.ram == ram
                    && s.written == 0 && s.visited == 0 && !s.refused,
                Some(b) => steps_on(place, b, next) ==> {
                    let n = if b.1 <= data.len() {
                        b.1 as int
                    } else {
                        data.len() as int
                    };
                    let after = stored_part(ram, b.0 as int, data.take(n));
                    let rest = walk_scattered(after, next, data.skip(n));
                    &&& if b.1 > 0 && b.0 + b.1 > ram.len() {
                        g.refused && g.visited == 1 && g.data.len() == 0
                    } else {
                        let behind = walk_gathered(ram, next);
                        g.data == visible(ram, b.0 as int, b.1 as nat) + behind.data && g.visited
                            == 1 + behind.visited && g.refused == behind.refused
                    }
                    &&& if data.len() == 0 {
                        s.ram == ram && s.written == 0 && s.visited == 1 && !s.refused
                    } else if n > 0 && b.0 + n > ram.len() {
                        s.ram == after && s.written == 0 && s.visited == 1 && s.refused
                    } else {
                        s.ram == rest.ram && s.written == n + rest.written && s.visited == 1
                            + rest.visited && s.refused == rest.refused
                    }
                },
            }
        }),
{
}

/// A run over chains serves them in order, one completion for each, and ends with the first that
/// fails.
pub proof fn law_runs_go_chain_by_chain(s: MappedState, heads: Seq<u16>, head: u16)
    ensures
        s.run(Seq::<u16>::empty()).state == s,
        s.run(Seq::<u16>::empty()).out.len() == 0,
        s.run(Seq::<u16>::empty()).error is None,
        ({
            let before = s.run(heads);
            let r = s.run(heads.push(head));
            let one = before.state.served(head);
            if before.error is Some {
                r == before
            } else {
                &&& r.state == one.state
                &&& match one.result {
                    Ok((written, looked)) => r.error is None && r.out == before.out.push(
                        (head, written),
                    ) && r.descriptors == before.descriptors + looked,
                    Err(e) => r.error == Some(e) && r.out == before.out && r.descriptors
                        == before.descriptors,
                }
            }
        }),
{
    assert(heads.push(head).drop_last() =~= heads);
}

} // verus!
