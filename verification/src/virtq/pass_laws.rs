//! What holds of a device's pass over the chains that were made available to it.

use crate::le::{le_bytes, lemma_le_bounds, lemma_le_bytes_len};
use crate::virtq::chain::{chain_from, lemma_walk_reads_table, total_len};
use crate::virtq::device::{
    all_inside, answers, buffers, capacity, gathered, least, lemma_buffers_split,
    lemma_none_outside, lemma_scatter_refused, lemma_stretches_first, pass_from, scattered,
    stretches, DeviceState, Pass,
};
use crate::virtq::driver::{completion_at, readable_first, Buffer, DriverState};
use crate::virtq::laws::{
    complete_all, law_batch_is_counted, law_completion_is_seen, law_published_chain_is_seen, links,
};
use crate::virtq::layout::{
    crossed, is_power_of_two, law_fields_inside_parts, law_one_event_per_arming,
    lemma_power_of_two_divides, lemma_wrap_near, wrap, Descriptor, VirtqLayout,
    VIRTQ_USED_F_NO_NOTIFY,
};
use crate::virtq::mem::{
    agree, apart, fits, lemma_agree_reads, lemma_field_read_back, lemma_write_frame, put, u16_at,
    write_at, MemError,
};
use vstd::prelude::*;

verus! {

/// Position `i` lies in one of the buffers.
pub open spec fn covered(bufs: Seq<(u64, u32)>, i: int) -> bool {
    exists|j: int|
        0 <= j < bufs.len() && (#[trigger] bufs[j]).0 <= i && i < bufs[j].0 + bufs[j].1
}

/// What a response reaches of the buffers lies in the buffers.
pub proof fn lemma_stretch_in_buffer(bufs: Seq<(u64, u32)>, n: nat, i: int)
    requires
        covered(stretches(bufs, n), i),
    ensures
        covered(bufs, i),
    decreases bufs.len(),
{
    let reached = stretches(bufs, n);
    let j = choose|j: int|
        0 <= j < reached.len() && (#[trigger] reached[j]).0 <= i && i < reached[j].0 + reached[j].1;
    let rest = bufs.drop_first();
    lemma_stretches_first(bufs, n);
    if j == 0 {
        assert(bufs[0].0 <= i && i < bufs[0].0 + bufs[0].1);
    } else {
        let k = least(bufs[0].1 as nat, n);
        assert(stretches(rest, (n - k) as nat)[j - 1] == reached[j]);
        lemma_stretch_in_buffer(rest, (n - k) as nat, i);
        let at = choose|at: int|
            0 <= at < rest.len() && (#[trigger] rest[at]).0 <= i && i < rest[at].0 + rest[at].1;
        assert(bufs[at + 1] == rest[at]);
    }
}

/// A device writes where the driver let it and nowhere else: scattering a response changes no byte
/// but those of the buffers that it reaches, whatever the response is.
pub proof fn law_scatter_stays_in_buffers(m: Seq<u8>, bufs: Seq<(u64, u32)>, data: Seq<u8>)
    ensures
        scattered(m, bufs, data).mem.len() == m.len(),
        forall|i: int|
            0 <= i < m.len() && !(#[trigger] covered(stretches(bufs, data.len()), i))
                ==> scattered(m, bufs, data).mem[i] == m[i],
        forall|i: int|
            0 <= i < m.len() && !(#[trigger] covered(bufs, i)) ==> scattered(m, bufs, data).mem[i]
                == m[i],
{
    lemma_scatter_stays_in_reach(m, bufs, data);
    assert forall|i: int| 0 <= i < m.len() && !(#[trigger] covered(bufs, i)) implies scattered(
        m,
        bufs,
        data,
    ).mem[i] == m[i] by {
        if covered(stretches(bufs, data.len()), i) {
            lemma_stretch_in_buffer(bufs, data.len(), i);
        }
    }
}

/// Scattering changes no byte but those that are reached.
proof fn lemma_scatter_stays_in_reach(m: Seq<u8>, bufs: Seq<(u64, u32)>, data: Seq<u8>)
    ensures
        scattered(m, bufs, data).mem.len() == m.len(),
        forall|i: int|
            0 <= i < m.len() && !(#[trigger] covered(stretches(bufs, data.len()), i))
                ==> scattered(m, bufs, data).mem[i] == m[i],
    decreases bufs.len(),
{
    let reached = stretches(bufs, data.len());
    if bufs.len() > 0 && data.len() > 0 {
        let n = least(bufs[0].1 as nat, data.len());
        match write_at(m, bufs[0].0 as int, data.take(n as int)) {
            Ok(m1) => {
                let rest = stretches(bufs.drop_first(), (data.len() - n) as nat);
                lemma_stretches_first(bufs, data.len());
                lemma_scatter_stays_in_reach(m1, bufs.drop_first(), data.skip(n as int));
                assert forall|i: int|
                    0 <= i < m.len() && !(#[trigger] covered(reached, i)) implies scattered(
                    m,
                    bufs,
                    data,
                ).mem[i] == m[i] by {
                    if covered(rest, i) {
                        let j = choose|j: int|
                            0 <= j < rest.len() && (#[trigger] rest[j]).0 <= i && i < rest[j].0
                                + rest[j].1;
                        assert(reached[j + 1] == rest[j]);
                    }
                    assert(!(reached[0].0 <= i && i < reached[0].0 + reached[0].1));
                    assert(m1[i] == m[i]);
                }
            },
            Err(e) => {},
        }
    }
}

/// No two of the buffers share a byte.
pub open spec fn all_apart(bufs: Seq<(u64, u32)>) -> bool {
    forall|i: int, j: int|
        0 <= i < j < bufs.len() ==> apart(
            (#[trigger] bufs[i]).0 as int,
            bufs[i].1 as nat,
            (#[trigger] bufs[j]).0 as int,
            bufs[j].1 as nat,
        )
}

/// The buffers read in order, first to last.
pub proof fn lemma_gathered_first(m: Seq<u8>, bufs: Seq<(u64, u32)>)
    requires
        bufs.len() > 0,
        all_inside(m.len(), bufs),
    ensures
        gathered(m, bufs) == m.subrange(bufs[0].0 as int, bufs[0].0 + bufs[0].1) + gathered(
            m,
            bufs.drop_first(),
        ),
        gathered(m, bufs).len() == capacity(bufs),
    decreases bufs.len(),
{
    let first = m.subrange(bufs[0].0 as int, bufs[0].0 + bufs[0].1);
    assert(bufs.last() == bufs[bufs.len() - 1]);
    if bufs.len() == 1 {
        assert(bufs.drop_last() =~= Seq::<(u64, u32)>::empty());
        assert(bufs.drop_first() =~= Seq::<(u64, u32)>::empty());
        reveal_with_fuel(gathered, 2);
        reveal_with_fuel(capacity, 2);
        assert(gathered(m, bufs) =~= first);
    } else {
        let some = bufs.drop_last();
        assert forall|j: int| 0 <= j < some.len() implies fits(
            m.len(),
            (#[trigger] some[j]).0 as int,
            some[j].1 as nat,
        ) by {
            assert(some[j] == bufs[j]);
        }
        lemma_gathered_first(m, some);
        assert(some.drop_first() =~= bufs.drop_first().drop_last());
        let last = m.subrange(bufs.last().0 as int, bufs.last().0 + bufs.last().1);
        assert(gathered(m, bufs) == gathered(m, some) + last);
        assert(gathered(m, bufs.drop_first()) == gathered(m, some.drop_first()) + last);
        assert(gathered(m, bufs) =~= first + gathered(m, bufs.drop_first()));
        let rest = bufs.drop_first();
        assert forall|j: int| 0 <= j < rest.len() implies fits(
            m.len(),
            (#[trigger] rest[j]).0 as int,
            rest[j].1 as nat,
        ) by {
            assert(rest[j] == bufs[j + 1]);
        }
        lemma_gathered_first(m, rest);
    }
}

/// What was scattered is there to be gathered: where the stretches that a response reaches lie inside
/// the region and do not overlap, the whole response goes in as far as there is room, in order, and
/// nothing is refused.
pub proof fn law_scattered_reads_back(m: Seq<u8>, bufs: Seq<(u64, u32)>, data: Seq<u8>)
    requires
        all_inside(m.len(), stretches(bufs, data.len())),
        all_apart(stretches(bufs, data.len())),
    ensures
        ({
            let s = scattered(m, bufs, data);
            &&& s.error is None
            &&& s.written == least(capacity(bufs), data.len())
            &&& gathered(s.mem, stretches(bufs, data.len())) == data.take(s.written as int)
        }),
    decreases bufs.len(),
{
    let s = scattered(m, bufs, data);
    let reached = stretches(bufs, data.len());
    law_scatter_stays_in_buffers(m, bufs, data);
    if bufs.len() == 0 || data.len() == 0 {
        assert(gathered(s.mem, reached) =~= data.take(0));
    } else {
        let n = least(bufs[0].1 as nat, data.len());
        let m1 = put(m, bufs[0].0 as int, data.take(n as int));
        let left = data.skip(n as int);
        let rest = stretches(bufs.drop_first(), left.len());
        lemma_stretches_first(bufs, data.len());
        lemma_gathered_first(s.mem, reached);
        assert(fits(m.len(), reached[0].0 as int, reached[0].1 as nat));
        assert forall|j: int| 0 <= j < rest.len() implies fits(
            m1.len(),
            (#[trigger] rest[j]).0 as int,
            rest[j].1 as nat,
        ) by {
            assert(rest[j] == reached[j + 1]);
        }
        assert forall|i: int, j: int| 0 <= i < j < rest.len() implies apart(
            (#[trigger] rest[i]).0 as int,
            rest[i].1 as nat,
            (#[trigger] rest[j]).0 as int,
            rest[j].1 as nat,
        ) by {
            assert(rest[i] == reached[i + 1]);
            assert(rest[j] == reached[j + 1]);
        }
        law_scattered_reads_back(m1, bufs.drop_first(), left);
        law_scatter_stays_in_buffers(m1, bufs.drop_first(), left);
        let t = scattered(m1, bufs.drop_first(), left);
        assert(s.mem == t.mem);
        let first = s.mem.subrange(bufs[0].0 as int, bufs[0].0 + n);
        assert(first =~= data.take(n as int)) by {
            assert forall|i: int| 0 <= i < n implies #[trigger] first[i] == data[i] by {
                let at = bufs[0].0 + i;
                if covered(rest, at) {
                    let j = choose|j: int|
                        0 <= j < rest.len() && (#[trigger] rest[j]).0 <= at && at < rest[j].0
                            + rest[j].1;
                    assert(reached[j + 1] == rest[j]);
                    assert(apart(
                        reached[0].0 as int,
                        reached[0].1 as nat,
                        reached[j + 1].0 as int,
                        reached[j + 1].1 as nat,
                    ));
                }
                assert(s.mem[at] == m1[at]);
            }
        }
        assert(data.take(n as int) + left.take(t.written as int) =~= data.take(s.written as int));
    }
}

/// How many bytes the device reports for the next chain, answered with `data`: what went into its
/// writable buffers, and nothing for one that is refused.
pub open spec fn reported(p: Pass, data: Seq<u8>) -> nat {
    if p.refusal(data) is Some {
        0
    } else {
        scattered(p.mem, buffers(p.chain().descs, true), data).written
    }
}

/// The bytes that dealing with the next chain, answered with `data`, may change: those of its
/// device-writable buffers that the answer reaches, and none for a chain that is refused; and the
/// used ring.
pub open spec fn may_change(p: Pass, data: Seq<u8>, i: int) -> bool {
    ||| p.dev.layout.used_ring.0 <= i < p.dev.layout.used_ring.0 + p.dev.layout.used_bytes()
    ||| p.refusal(data) is None && covered(
        stretches(buffers(p.chain().descs, true), data.len()),
        i,
    )
}

/// Every chain that is taken is completed, a refused one too. If the used ring lies inside the
/// region, dealing with the next chain
/// - goes through, and counts one chain, its descriptors, one entry taken and one completion;
/// - leaves in the used ring the head of the chain with the number of bytes that were written into
///   it, which for a refused chain is none, and the index one further;
/// - logs a refused chain, once, and logs nothing of any other;
/// - counts the bytes of the request, if it came to be read, and those that were written;
/// - changes no byte but those of the used ring and those that the answer reaches of the chain's own
///   device-writable buffers, and of a refused chain's not even those.
pub proof fn law_every_chain_is_completed(p: Pass, data: Seq<u8>)
    requires
        p.has_next(),
        p.dev.layout.queue_size > 0,
        fits(p.mem.len(), p.dev.layout.used_ring.0 as int, p.dev.layout.used_bytes()),
    ensures
        ({
            let q = p.step(data);
            &&& q.failed is None
            &&& q.tally.chains == p.tally.chains + 1
            &&& q.tally.descriptors == p.tally.descriptors + p.chain().descs.len()
            &&& q.dev == p.dev.popped().counted()
            &&& completion_at(q.mem, p.dev.layout, p.dev.next_used) == Ok::<(u16, u32), MemError>(
                (p.head(), reported(p, data) as u32),
            )
            &&& u16_at(q.mem, p.dev.layout.used_ring.0 + 2) == Ok::<u16, MemError>(
                wrap(p.dev.next_used + 1) as u16,
            )
            &&& q.tally.rejected == match p.refusal(data) {
                Some(reason) => p.tally.rejected.push((p.head(), reason)),
                None => p.tally.rejected,
            }
            &&& q.tally.bytes_read == p.tally.bytes_read + if p.objection() is None {
                p.request().len()
            } else {
                0
            }
            &&& q.tally.bytes_written == p.tally.bytes_written + reported(p, data)
            &&& q.mem.len() == p.mem.len()
            &&& forall|i: int|
                0 <= i < p.mem.len() && !(#[trigger] may_change(p, data, i)) ==> q.mem[i]
                    == p.mem[i]
        }),
{
    let bufs = buffers(p.chain().descs, true);
    let s = scattered(p.mem, bufs, data);
    if p.refusal(data) is Some {
        law_completion_is_seen(p.dev.popped(), p.mem, p.head(), 0);
    } else {
        law_scatter_stays_in_buffers(p.mem, bufs, data);
        law_completion_is_seen(p.dev.popped(), s.mem, p.head(), s.written as u32);
    }
}

/// The head of the chain that is `k` entries behind the next.
pub open spec fn head_behind(p: Pass, k: int) -> u16 {
    u16_at(p.mem, p.dev.layout.avail_slot_addr(wrap(p.dev.next_avail + k)))->Ok_0
}

/// A buffer of no bytes, or one that shares none with the descriptor table and the avail ring.
pub open spec fn off_the_rings(l: VirtqLayout, b: (u64, u32)) -> bool {
    b.1 == 0 || (apart(b.0 as int, b.1 as nat, l.desc_table.0 as int, l.desc_bytes()) && apart(
        b.0 as int,
        b.1 as nat,
        l.avail_ring.0 as int,
        l.avail_bytes(),
    ))
}

/// No answer to one of the next `n` chains can reach the descriptor table or the avail ring.
#[verifier::opaque]
pub open spec fn answers_stay_off(p: Pass, n: int) -> bool {
    forall|k: int, j: int|
        0 <= k < n && 0 <= j < buffers(
            chain_from(p.mem, p.dev.layout, head_behind(p, k)).descs,
            true,
        ).len() ==> off_the_rings(
            p.dev.layout,
            #[trigger] buffers(
                chain_from(p.mem, p.dev.layout, head_behind(p, k)).descs,
                true,
            )[j],
        )
}

/// The queue lies inside the region with its parts apart, the pass has not failed, `n` chains are
/// pending, and none of the answers to them can reach what the device still has to read.
pub open spec fn isolated(p: Pass, n: int) -> bool {
    &&& p.failed is None
    &&& p.dev.layout.queue_size > 0
    &&& p.dev.layout.inside(p.mem.len())
    &&& p.dev.layout.parts_apart()
    &&& 0 <= n <= 0xffff
    &&& p.dev.pending(p.mem) == Ok::<u16, MemError>(n as u16)
    &&& answers_stay_off(p, n)
}

/// In an isolated pass the next chain, if one is pending, is dealt with, one fewer is pending, and
/// the chains behind it are those that were.
pub proof fn lemma_isolated_step(p: Pass, n: int, data: Seq<u8>)
    requires
        isolated(p, n),
        n > 0,
    ensures
        p.has_next(),
        p.head() == head_behind(p, 0),
        isolated(p.step(data), n - 1),
        forall|k: int|
            0 <= k < n - 1 ==> #[trigger] head_behind(p.step(data), k) == head_behind(p, k + 1),
{
    lemma_next_is_there(p, n);
    law_every_chain_is_completed(p, data);
    lemma_chain_dealt_with(p, data, p.step(data), n);
}

/// In an isolated pass with a chain pending, that chain is found.
proof fn lemma_next_is_there(p: Pass, n: int)
    requires
        isolated(p, n),
        n > 0,
    ensures
        p.has_next(),
        p.head() == head_behind(p, 0),
{
    lemma_avail_readable(p, p.dev.next_avail);
    lemma_wrap_near(p.dev.next_avail as int);
}

/// A pass that dealt with the next chain of an isolated one, and changed no more than that may
/// change, is isolated with one fewer pending.
proof fn lemma_chain_dealt_with(p: Pass, data: Seq<u8>, q: Pass, n: int)
    requires
        isolated(p, n),
        n > 0,
        p.head() == head_behind(p, 0),
        q.failed is None,
        q.dev == p.dev.popped().counted(),
        q.mem.len() == p.mem.len(),
        forall|i: int|
            0 <= i < p.mem.len() && !(#[trigger] may_change(p, data, i)) ==> q.mem[i] == p.mem[i],
    ensures
        isolated(q, n - 1),
        forall|k: int| 0 <= k < n - 1 ==> #[trigger] head_behind(q, k) == head_behind(p, k + 1),
{
    lemma_rings_kept(p, data, n, q.mem);
    lemma_isolation_kept(p, q, n);
}

/// Dealing with the next chain of an isolated pass changes neither the descriptor table nor the
/// avail ring.
proof fn lemma_rings_kept(p: Pass, data: Seq<u8>, n: int, after: Seq<u8>)
    requires
        isolated(p, n),
        n > 0,
        p.head() == head_behind(p, 0),
        after.len() == p.mem.len(),
        forall|i: int|
            0 <= i < p.mem.len() && !(#[trigger] may_change(p, data, i)) ==> after[i] == p.mem[i],
    ensures
        agree(
            p.mem,
            after,
            p.dev.layout.desc_table.0 as int,
            p.dev.layout.desc_bytes(),
        ),
        agree(
            p.mem,
            after,
            p.dev.layout.avail_ring.0 as int,
            p.dev.layout.avail_bytes(),
        ),
{
    let l = p.dev.layout;
    assert forall|i: int|
        0 <= i < p.mem.len() && ((l.desc_table.0 <= i < l.desc_table.0 + l.desc_bytes()) || (
        l.avail_ring.0 <= i < l.avail_ring.0 + l.avail_bytes())) implies p.mem[i] == after[i] by {
        let bufs = buffers(p.chain().descs, true);
        if may_change(p, data, i) {
            lemma_stretch_in_buffer(bufs, data.len(), i);
            let j = choose|j: int|
                0 <= j < bufs.len() && (#[trigger] bufs[j]).0 <= i && i < bufs[j].0 + bufs[j].1;
            reveal(answers_stay_off);
            assert(off_the_rings(
                l,
                buffers(chain_from(p.mem, l, head_behind(p, 0)).descs, true)[j],
            ));
        }
    }
}

/// An isolated pass reads its avail ring.
proof fn lemma_avail_readable(p: Pass, i: u16)
    requires
        p.dev.layout.queue_size > 0,
        p.dev.layout.inside(p.mem.len()),
    ensures
        u16_at(p.mem, p.dev.layout.avail_slot_addr(i as int)) is Ok,
{
    law_fields_inside_parts(p.dev.layout, i as int);
}

/// Taking one entry leaves one fewer.
proof fn lemma_one_fewer(idx: u16, at: u16, n: int)
    requires
        wrap(idx - at) == n,
        n > 0,
    ensures
        wrap(idx - wrap(at + 1)) == n - 1,
{
    lemma_wrap_near(idx - at);
    lemma_wrap_near(at + 1);
    lemma_wrap_near(idx - wrap(at + 1));
}

/// Counting on from one further.
proof fn lemma_wrap_on(at: int, k: int)
    ensures
        wrap(wrap(at + 1) + k) == wrap(at + (k + 1)),
{
}

/// A pass that took one entry, and has the same table and avail ring, is isolated with one fewer
/// pending.
proof fn lemma_isolation_kept(p: Pass, q: Pass, n: int)
    requires
        isolated(p, n),
        n > 0,
        q.failed is None,
        q.dev.layout == p.dev.layout,
        q.dev.next_avail == wrap(p.dev.next_avail + 1),
        agree(p.mem, q.mem, p.dev.layout.desc_table.0 as int, p.dev.layout.desc_bytes()),
        agree(p.mem, q.mem, p.dev.layout.avail_ring.0 as int, p.dev.layout.avail_bytes()),
    ensures
        isolated(q, n - 1),
        forall|k: int| 0 <= k < n - 1 ==> #[trigger] head_behind(q, k) == head_behind(p, k + 1),
{
    let l = p.dev.layout;
    assert(agree(p.mem, q.mem, l.avail_ring.0 + 2, 2));
    lemma_agree_reads(p.mem, q.mem, l.avail_ring.0 + 2, 2);
    assert(q.dev.pending(q.mem) == Ok::<u16, MemError>((n - 1) as u16)) by {
        lemma_one_fewer(u16_at(p.mem, l.avail_ring.0 + 2)->Ok_0, p.dev.next_avail, n);
    }
    assert forall|k: int| 0 <= k < n - 1 implies #[trigger] head_behind(q, k) == head_behind(p, k + 1)
        && chain_from(q.mem, l, head_behind(q, k)) == chain_from(p.mem, l, head_behind(p, k + 1)) by {
        let at = l.avail_slot_addr(wrap(q.dev.next_avail + k));
        lemma_wrap_on(p.dev.next_avail as int, k);
        law_fields_inside_parts(l, wrap(q.dev.next_avail + k));
        assert(agree(p.mem, q.mem, at, 2));
        lemma_agree_reads(p.mem, q.mem, at, 2);
        lemma_walk_reads_table(
            p.mem,
            q.mem,
            l,
            head_behind(q, k),
            l.queue_size as nat,
            0,
            false,
        );
    }
    assert(answers_stay_off(q, n - 1)) by {
        reveal(answers_stay_off);
        assert forall|k: int, j: int|
            0 <= k < n - 1 && 0 <= j < buffers(
                chain_from(q.mem, l, head_behind(q, k)).descs,
                true,
            ).len() implies off_the_rings(
            l,
            #[trigger] buffers(chain_from(q.mem, l, head_behind(q, k)).descs, true)[j],
        ) by {
            assert(head_behind(q, k) == head_behind(p, k + 1));
            assert(off_the_rings(
                l,
                buffers(chain_from(p.mem, l, head_behind(p, k + 1)).descs, true)[j],
            ));
        }
    }
}

/// A run of an isolated pass takes one pending chain per response.
proof fn lemma_isolated_run<F: FnMut(&[u8]) -> Vec<u8>>(
    p: Pass,
    n: int,
    work: F,
    responses: Seq<Seq<u8>>,
)
    requires
        isolated(p, n),
        p.runs(work, responses),
    ensures
        responses.len() <= n,
        isolated(p.after(responses), n - responses.len()),
    decreases responses.len(),
{
    if responses.len() > 0 {
        let some = responses.drop_last();
        assert forall|i: int| 0 <= i < some.len() implies {
            let q = #[trigger] p.after(some.take(i));
            &&& q.has_next()
            &&& if q.objection() is None {
                answers(work, q.request(), some[i])
            } else {
                some[i] == Seq::<u8>::empty()
            }
        } by {
            assert(some.take(i) =~= responses.take(i));
            assert(p.after(responses.take(i)).has_next());
        }
        lemma_isolated_run(p, n, work, some);
        assert(responses.take(responses.len() - 1) =~= some);
        assert(p.after(some).has_next());
        lemma_isolated_step(p.after(some), n - some.len(), responses.last());
    }
}

/// A well-behaved queue is drained exactly. If none of the answers to the `n` pending chains can
/// reach the descriptor table or the avail ring, every run of the pass ends within `n` chains, and
/// a run that has no chain left has dealt with exactly `n`, each completed.
pub proof fn law_isolated_pass_drains<F: FnMut(&[u8]) -> Vec<u8>>(p: Pass, n: int, work: F)
    requires
        isolated(p, n),
    ensures
        p.drains(work, n as nat),
        forall|responses: Seq<Seq<u8>>| #[trigger]
            p.runs(work, responses) ==> p.after(responses).failed is None && (
            !p.after(responses).has_next() ==> responses.len() == n),
{
    assert forall|responses: Seq<Seq<u8>>| #[trigger] p.runs(work, responses) implies responses.len()
        <= n && p.after(responses).failed is None && (!p.after(responses).has_next()
        ==> responses.len() == n) by {
        lemma_isolated_run(p, n, work, responses);
        if responses.len() < n {
            lemma_isolated_step(p.after(responses), n - responses.len(), Seq::empty());
        }
    }
}

/// Asking to be notified hides no work: the chains that are pending before are pending after.
pub proof fn law_enabling_keeps_pending(dev: DeviceState, m: Seq<u8>)
    requires
        dev.layout.queue_size > 0,
        dev.layout.inside(m.len()),
        dev.layout.parts_apart(),
    ensures
        dev.notifications_on(m) matches Ok(m1) && dev.pending(m1) == dev.pending(m),
        dev.notifications_off(m) matches Ok(m1) && dev.pending(m1) == dev.pending(m),
{
    let l = dev.layout;
    law_fields_inside_parts(l, 0);
    lemma_le_bytes_len(dev.next_avail as nat, 2);
    match u16_at(m, l.used_ring.0 as int) {
        Ok(flags) => {
            let off = le_bytes((flags | VIRTQ_USED_F_NO_NOTIFY) as nat, 2);
            let on = le_bytes((flags & !VIRTQ_USED_F_NO_NOTIFY) as nat, 2);
            lemma_le_bytes_len((flags | VIRTQ_USED_F_NO_NOTIFY) as nat, 2);
            lemma_le_bytes_len((flags & !VIRTQ_USED_F_NO_NOTIFY) as nat, 2);
            lemma_write_frame(m, l.used_ring.0 as int, off, l.avail_ring.0 + 2, 2);
            lemma_write_frame(m, l.used_ring.0 as int, on, l.avail_ring.0 + 2, 2);
        },
        Err(e) => {},
    }
    lemma_write_frame(
        m,
        l.avail_event_addr(),
        le_bytes(dev.next_avail as nat, 2),
        l.avail_ring.0 + 2,
        2,
    );
}

/// No wake-up is lost. A device that asked to be notified and then saw nothing pending may sleep:
/// the next chain that the driver publishes makes a kick due, whenever the driver last decided
/// about one.
pub proof fn law_no_lost_wakeup(
    dev: DeviceState,
    drv: DriverState,
    m: Seq<u8>,
    bufs: Seq<Buffer>,
)
    requires
        dev.event_idx && drv.event_idx,
        drv.wf(),
        drv.layout == dev.layout,
        dev.layout.queue_size > 0,
        dev.layout.inside(m.len()),
        dev.layout.parts_apart(),
        dev.notifications_on(m) is Ok,
        dev.pending(dev.notifications_on(m)->Ok_0) == Ok::<u16, MemError>(0),
        u16_at(m, drv.layout.avail_ring.0 + 2) == Ok::<u16, MemError>(drv.avail_idx),
        wrap(drv.avail_idx - drv.last_kick) < 0xffff,
        0 < bufs.len() <= drv.free.len(),
        readable_first(bufs),
        total_len(links(bufs, drv.next_descs(bufs.len()))) <= u32::MAX,
    ensures
        ({
            let p = drv.publish(dev.notifications_on(m)->Ok_0, bufs);
            &&& p.result is Ok
            &&& p.drv.kick_due(p.mem) == Ok::<bool, MemError>(true)
            &&& dev.pending(p.mem) == Ok::<u16, MemError>(1)
        }),
{
    let l = dev.layout;
    let at = l.avail_event_addr();
    law_fields_inside_parts(l, 0);
    law_enabling_keeps_pending(dev, m);
    lemma_le_bytes_len(dev.next_avail as nat, 2);
    lemma_le_bounds();
    lemma_field_read_back(m, at, dev.next_avail as nat, 2);
    let m1 = dev.notifications_on(m)->Ok_0;
    assert(m1 == put(m, at, le_bytes(dev.next_avail as nat, 2)));
    lemma_write_frame(m, at, le_bytes(dev.next_avail as nat, 2), l.avail_ring.0 + 2, 2);
    assert(drv.avail_idx == dev.next_avail) by {
        lemma_wrap_near(drv.avail_idx - dev.next_avail);
    }
    law_published_chain_is_seen(drv, m1, bufs);
    let p = drv.publish(m1, bufs);
    assert(agree(m1, p.mem, at, 2)) by {
        assert forall|i: int| at <= i < at + 2 && 0 <= i < m1.len() implies m1[i] == p.mem[i] by {}
    }
    lemma_agree_reads(m1, p.mem, at, 2);
    assert(u16_at(p.mem, at) == Ok::<u16, MemError>(dev.next_avail));
    lemma_publish_keeps_decisions(drv, m1, bufs);
    lemma_next_crosses(dev.next_avail, drv.last_kick);
}

/// The counter's next step crosses the value it stands at, whenever the last decision was.
proof fn lemma_next_crosses(at: u16, last: u16)
    requires
        wrap(at - last) < 0xffff,
    ensures
        crossed(at, wrap(at + 1) as u16, last),
        wrap(wrap(at + 1) - at) == 1,
{
    lemma_wrap_near(at - last);
    lemma_wrap_near(at + 1);
    lemma_wrap_near(wrap(at + 1) - last);
    lemma_wrap_near(wrap(at + 1) - at);
    lemma_wrap_near(wrap(at + 1) - at - 1);
}

/// Publishing leaves the record of the last decision about a kick, what was collected, and the mode.
pub proof fn lemma_publish_keeps_decisions(drv: DriverState, m: Seq<u8>, bufs: Seq<Buffer>)
    ensures
        drv.publish(m, bufs).drv.last_kick == drv.last_kick,
        drv.publish(m, bufs).drv.last_used == drv.last_used,
        drv.publish(m, bufs).drv.event_idx == drv.event_idx,
        drv.publish(m, bufs).drv.layout == drv.layout,
{
}

/// One kick per batch. While the event field holds the index `at` that the device stopped at, the
/// driver's first decision after that index, over a batch of any size, is to kick; and every later
/// one is not to, for less than a full turn of the counter.
pub proof fn law_one_kick_per_batch(drv: DriverState, m: Seq<u8>, at: u16, batch: int, more: int)
    requires
        drv.event_idx,
        u16_at(m, drv.layout.avail_event_addr()) == Ok::<u16, MemError>(at),
        1 <= batch,
        0 <= more,
        batch + more < 0x1_0000,
    ensures
        (DriverState { last_kick: at, avail_idx: wrap(at + batch) as u16, ..drv }).kick_due(m)
            == Ok::<bool, MemError>(true),
        (DriverState {
            last_kick: wrap(at + batch) as u16,
            avail_idx: wrap(at + batch + more) as u16,
            ..drv
        }).kick_due(m) == Ok::<bool, MemError>(false),
{
}

/// One interrupt per batch. A driver armed the event field with the count it has collected up to,
/// which is where the device stands. Then the device owes an interrupt after the first batch of
/// completions, of whatever size; and once it has decided that, it owes none for the completions
/// that follow until the field is armed again, for less than a full turn of the counter.
pub proof fn law_one_interrupt_per_batch(
    dev: DeviceState,
    m: Seq<u8>,
    batch: Seq<(u16, u32)>,
    more: Seq<(u16, u32)>,
)
    requires
        dev.event_idx,
        dev.num_added == 0,
        dev.layout.queue_size > 0,
        dev.layout.inside(m.len()),
        dev.layout.parts_apart(),
        u16_at(m, dev.layout.used_event_addr()) == Ok::<u16, MemError>(dev.next_used),
        0 < batch.len(),
        batch.len() + more.len() < 0x1_0000,
    ensures
        ({
            let first = complete_all(dev, m, batch);
            let decided = DeviceState { num_added: 0, ..first.dev };
            let second = complete_all(decided, first.mem, more);
            &&& first.dev.interrupt_due(first.mem) == Ok::<bool, MemError>(true)
            &&& second.dev.interrupt_due(second.mem) == Ok::<bool, MemError>(false)
        }),
{
    let first = complete_all(dev, m, batch);
    let decided = DeviceState { num_added: 0, ..first.dev };
    let second = complete_all(decided, first.mem, more);
    lemma_event_kept(dev, m, batch);
    lemma_event_kept(decided, first.mem, more);
    lemma_interrupt_due(first.dev, first.mem, dev.next_used);
    lemma_interrupt_due(second.dev, second.mem, dev.next_used);
    lemma_two_batches(dev.next_used, batch.len() as int, more.len() as int);
}

/// Two batches one behind the other: the first crosses the value that the counter stood at, and the
/// second does not.
proof fn lemma_two_batches(at: u16, batch: int, more: int)
    requires
        1 <= batch,
        0 <= more,
        batch + more < 0x1_0000,
    ensures
        ({
            let mid = wrap(at + batch) as u16;
            let end = wrap(mid + more) as u16;
            &&& crossed(at, mid, wrap(mid - wrap(batch) as u16) as u16)
            &&& !crossed(at, end, wrap(end - wrap(more) as u16) as u16)
        }),
{
    law_one_event_per_arming(at, batch, more);
    lemma_counter_distance(at as int, batch);
    lemma_counter_distance(at + batch, more);
    lemma_wrap_near(at as int);
}

/// A counter that went `n` further stands where it stood, less `n`.
pub proof fn lemma_counter_distance(from: int, n: int)
    requires
        0 <= n < 0x1_0000,
    ensures
        wrap(wrap(from + n) - wrap(n)) == wrap(from),
        wrap(wrap(from) + n) == wrap(from + n),
{
}

/// What `interrupt_due` says where the event field reads `event`.
pub proof fn lemma_interrupt_due(dev: DeviceState, m: Seq<u8>, event: u16)
    requires
        dev.event_idx,
        u16_at(m, dev.layout.used_event_addr()) == Ok::<u16, MemError>(event),
    ensures
        dev.interrupt_due(m) == Ok::<bool, MemError>(
            crossed(event, dev.next_used, wrap(dev.next_used - dev.num_added) as u16),
        ),
{
}

/// Completions leave the driver's event field alone.
proof fn lemma_event_kept(dev: DeviceState, m: Seq<u8>, done: Seq<(u16, u32)>)
    requires
        dev.num_added == 0,
        dev.layout.queue_size > 0,
        dev.layout.inside(m.len()),
        dev.layout.parts_apart(),
    ensures
        ({
            let c = complete_all(dev, m, done);
            &&& c.dev == DeviceState {
                next_used: wrap(dev.next_used + done.len()) as u16,
                num_added: wrap(done.len() as int) as u16,
                ..dev
            }
            &&& c.mem.len() == m.len()
            &&& u16_at(c.mem, dev.layout.used_event_addr()) == u16_at(
                m,
                dev.layout.used_event_addr(),
            )
        }),
{
    let at = dev.layout.used_event_addr();
    law_fields_inside_parts(dev.layout, 0);
    law_batch_is_counted(dev, m, done);
    let c = complete_all(dev, m, done);
    assert(agree(m, c.mem, at, 2)) by {
        assert forall|i: int| at <= i < at + 2 && 0 <= i < m.len() implies m[i] == c.mem[i] by {}
    }
    lemma_agree_reads(m, c.mem, at, 2);
}

/// The buffer shares no byte with any part of the queue.
pub open spec fn off_the_queue(l: VirtqLayout, b: (u64, u32)) -> bool {
    &&& apart(b.0 as int, b.1 as nat, l.desc_table.0 as int, l.desc_bytes())
    &&& apart(b.0 as int, b.1 as nat, l.avail_ring.0 as int, l.avail_bytes())
    &&& apart(b.0 as int, b.1 as nat, l.used_ring.0 as int, l.used_bytes())
}

/// Each of the buffers is off the queue.
pub open spec fn all_off_the_queue(l: VirtqLayout, bufs: Seq<(u64, u32)>) -> bool {
    forall|j: int| 0 <= j < bufs.len() ==> off_the_queue(l, #[trigger] bufs[j])
}

/// Buffers whose bytes are the same in both regions are gathered to the same bytes.
proof fn lemma_gathered_agrees(m: Seq<u8>, k: Seq<u8>, bufs: Seq<(u64, u32)>)
    requires
        m.len() == k.len(),
        forall|i: int| 0 <= i < m.len() && #[trigger] covered(bufs, i) ==> m[i] == k[i],
    ensures
        gathered(m, bufs) == gathered(k, bufs),
    decreases bufs.len(),
{
    if bufs.len() > 0 {
        let some = bufs.drop_last();
        let last = bufs.last();
        assert forall|i: int| 0 <= i < m.len() && #[trigger] covered(some, i) implies m[i]
            == k[i] by {
            let j = choose|j: int|
                0 <= j < some.len() && (#[trigger] some[j]).0 <= i && i < some[j].0 + some[j].1;
            assert(bufs[j] == some[j]);
            assert(covered(bufs, i));
        }
        lemma_gathered_agrees(m, k, some);
        assert(agree(m, k, last.0 as int, last.1 as nat)) by {
            assert forall|i: int|
                last.0 <= i < last.0 + last.1 && 0 <= i < m.len() implies m[i] == k[i] by {
                assert(bufs[bufs.len() - 1] == last);
                assert(covered(bufs, i));
            }
        }
        lemma_agree_reads(m, k, last.0 as int, last.1 as nat);
    }
}

/// A position in a buffer that is off the queue is in none of its parts.
pub proof fn lemma_covered_off_queue(l: VirtqLayout, bufs: Seq<(u64, u32)>, i: int)
    requires
        all_off_the_queue(l, bufs),
        covered(bufs, i),
    ensures
        !(l.desc_table.0 <= i < l.desc_table.0 + l.desc_bytes()),
        !(l.avail_ring.0 <= i < l.avail_ring.0 + l.avail_bytes()),
        !(l.used_ring.0 <= i < l.used_ring.0 + l.used_bytes()),
{
    let j = choose|j: int|
        0 <= j < bufs.len() && (#[trigger] bufs[j]).0 <= i && i < bufs[j].0 + bufs[j].1;
    assert(off_the_queue(l, bufs[j]));
}

/// The device that stands where a chain was just published takes that chain next.
proof fn lemma_sent_is_next(dev: DeviceState, m: Seq<u8>, head: u16)
    requires
        u16_at(m, dev.layout.avail_ring.0 + 2) == Ok::<u16, MemError>(
            wrap(dev.next_avail + 1) as u16,
        ),
        u16_at(m, dev.layout.avail_slot_addr(dev.next_avail as int)) == Ok::<u16, MemError>(head),
    ensures
        dev.pending(m) == Ok::<u16, MemError>(1),
        dev.next_head(m) == Ok::<Option<u16>, MemError>(Some(head)),
{
}

/// The writable buffers of a chain hold less than 2^32 bytes.
proof fn lemma_total_bounds_capacity(descs: Seq<Descriptor>)
    requires
        total_len(descs) <= u32::MAX,
    ensures
        capacity(buffers(descs, true)) <= u32::MAX,
{
    lemma_buffers_split(descs);
}

/// Completing a chain leaves its answer in the buffers.
proof fn lemma_answer_kept(
    dev: DeviceState,
    p: Pass,
    scattered_mem: Seq<u8>,
    reached: Seq<(u64, u32)>,
    data: Seq<u8>,
)
    requires
        p.dev == dev,
        p.has_next(),
        dev.layout.queue_size > 0,
        dev.layout.inside(p.mem.len()),
        p.refusal(data) is None,
        reached == stretches(buffers(p.chain().descs, true), data.len()),
        scattered_mem == scattered(p.mem, buffers(p.chain().descs, true), data).mem,
        all_off_the_queue(dev.layout, reached),
    ensures
        gathered(p.step(data).mem, reached) == gathered(scattered_mem, reached),
{
    let writable = buffers(p.chain().descs, true);
    let s = scattered(p.mem, writable, data);
    law_scatter_stays_in_buffers(p.mem, writable, data);
    law_completion_is_seen(dev.popped(), s.mem, p.head(), s.written as u32);
    let q = p.step(data);
    assert(q.mem == dev.popped().complete(s.mem, p.head(), s.written as u32).mem);
    assert forall|i: int| 0 <= i < q.mem.len() && #[trigger] covered(reached, i) implies q.mem[i]
        == s.mem[i] by {
        lemma_covered_off_queue(dev.layout, reached, i);
        assert(s.mem[i] == q.mem[i]);
    }
    lemma_gathered_agrees(q.mem, s.mem, reached);
}

/// Dealing with a chain whose answer stays off the queue leaves the avail ring as it was, so that
/// nothing else is pending.
proof fn lemma_avail_untouched(p: Pass, data: Seq<u8>, q: Pass, reached: Seq<(u64, u32)>)
    requires
        p.dev.layout.queue_size > 0,
        p.dev.layout.inside(p.mem.len()),
        p.dev.layout.parts_apart(),
        p.chain().error is None,
        reached == stretches(buffers(p.chain().descs, true), data.len()),
        all_off_the_queue(p.dev.layout, reached),
        p.dev.pending(p.mem) == Ok::<u16, MemError>(1),
        q.dev.layout == p.dev.layout,
        q.dev.next_avail == wrap(p.dev.next_avail + 1),
        q.mem.len() == p.mem.len(),
        forall|i: int|
            0 <= i < p.mem.len() && !(#[trigger] may_change(p, data, i)) ==> q.mem[i] == p.mem[i],
    ensures
        !q.has_next(),
{
    let l = p.dev.layout;
    let at = l.avail_ring.0 + 2;
    assert(agree(p.mem, q.mem, at, 2)) by {
        assert forall|i: int| at <= i < at + 2 && 0 <= i < p.mem.len() implies p.mem[i]
            == q.mem[i] by {
            if may_change(p, data, i) {
                lemma_covered_off_queue(l, reached, i);
            }
        }
    }
    lemma_agree_reads(p.mem, q.mem, at, 2);
}

/// A driver that published one chain and finds its completion next collects it, and has as many
/// descriptors free as before.
proof fn lemma_one_comes_back(
    drv: DriverState,
    m: Seq<u8>,
    bufs: Seq<Buffer>,
    after: Seq<u8>,
    written: u32,
)
    requires
        drv.wf(),
        0 < bufs.len() <= drv.free.len(),
        drv.publish(m, bufs).result is Ok,
        completion_at(after, drv.layout, drv.last_used) == Ok::<(u16, u32), MemError>(
            (drv.publish(m, bufs).result->Ok_0, written),
        ),
    ensures
        ({
            let sent = drv.publish(m, bufs);
            let back = sent.drv.collect(after, 1);
            &&& back.error is None
            &&& back.out == seq![(sent.result->Ok_0, written)]
            &&& back.drv.free.len() == drv.free.len()
        }),
{
    let sent = drv.publish(m, bufs);
    let head = sent.result->Ok_0;
    reveal_with_fuel(DriverState::collect, 2);
    assert(sent.drv.outstanding == drv.reserved(bufs.len()).outstanding);
    assert(sent.drv.outstanding.contains_key(head));
    assert(sent.drv.outstanding[head].len() == bufs.len());
    assert(Seq::<(u16, u32)>::empty().push((head, written)) =~= seq![(head, written)]);
}

/// The round trip of a request. The driver publishes a chain whose readable buffers, and as much of
/// its writable ones as the answer reaches, lie inside the region and off the queue, the latter apart
/// from one another; the device, which has seen everything before it, deals with it and answers
/// `data`; the driver collects. Then
/// - the request that the device saw is the contents of the readable buffers, one behind the other;
/// - the driver collects exactly this chain, with the number of bytes of the answer that there was
///   room for;
/// - what the answer reaches of the writable buffers, in order, holds that many bytes of it;
/// - as many descriptors are free as before.
pub proof fn law_request_round_trip(
    drv: DriverState,
    dev: DeviceState,
    m: Seq<u8>,
    bufs: Seq<Buffer>,
    data: Seq<u8>,
)
    requires
        drv.wf(),
        drv.layout == dev.layout,
        drv.avail_idx == dev.next_avail,
        drv.last_used == dev.next_used,
        is_power_of_two(dev.layout.queue_size as int),
        dev.layout.inside(m.len()),
        dev.layout.parts_apart(),
        0 < bufs.len() <= drv.free.len(),
        readable_first(bufs),
        total_len(links(bufs, drv.next_descs(bufs.len()))) <= u32::MAX,
        ({
            let descs = links(bufs, drv.next_descs(bufs.len()));
            let reached = stretches(buffers(descs, true), data.len());
            &&& all_off_the_queue(dev.layout, buffers(descs, false))
            &&& all_off_the_queue(dev.layout, reached)
            &&& all_inside(m.len(), buffers(descs, false))
            &&& all_inside(m.len(), reached)
            &&& all_apart(reached)
        }),
    ensures
        ({
            let descs = links(bufs, drv.next_descs(bufs.len()));
            let writable = buffers(descs, true);
            let sent = drv.publish(m, bufs);
            let p = pass_from(dev, sent.mem);
            let q = p.step(data);
            let back = sent.drv.collect(q.mem, 1);
            let written = least(capacity(writable), data.len());
            &&& sent.result is Ok
            &&& p.has_next()
            &&& p.head() == sent.result->Ok_0
            &&& p.refusal(data) is None
            &&& p.request() == gathered(m, buffers(descs, false))
            &&& q.failed is None
            &&& !q.has_next()
            &&& back.error is None
            &&& back.out == seq![(sent.result->Ok_0, written as u32)]
            &&& gathered(q.mem, stretches(writable, data.len())) == data.take(written as int)
            &&& back.drv.free.len() == drv.free.len()
        }),
{
    let l = dev.layout;
    let indices = drv.next_descs(bufs.len());
    let descs = links(bufs, indices);
    let readable = buffers(descs, false);
    let writable = buffers(descs, true);
    let reached = stretches(writable, data.len());
    let sent = drv.publish(m, bufs);
    let p = pass_from(dev, sent.mem);
    lemma_power_of_two_divides(l.queue_size as int);
    law_published_chain_is_seen(drv, m, bufs);
    lemma_sent_is_next(dev, sent.mem, indices[0]);
    assert(p.chain().descs == descs && p.chain().error is None);
    lemma_none_outside(sent.mem, readable);
    lemma_none_outside(sent.mem, reached);
    assert forall|i: int| 0 <= i < m.len() && #[trigger] covered(readable, i) implies sent.mem[i]
        == m[i] by {
        lemma_covered_off_queue(l, readable, i);
    }
    lemma_gathered_agrees(sent.mem, m, readable);
    law_every_chain_is_completed(p, data);
    law_scattered_reads_back(sent.mem, writable, data);
    lemma_total_bounds_capacity(descs);
    let q = p.step(data);
    let s = scattered(sent.mem, writable, data);
    lemma_answer_kept(dev, p, s.mem, reached, data);
    lemma_one_comes_back(drv, m, bufs, q.mem, s.written as u32);
    lemma_avail_untouched(p, data, q, reached);
}


/// What the device reports of a chain that it serves is the length of the answer, or, if that is
/// less, what its device-writable buffers hold; of a refused one it is nothing.
pub proof fn law_reported_length(p: Pass, data: Seq<u8>)
    ensures
        reported(p, data) == if p.refusal(data) is Some {
            0
        } else if data.len() <= capacity(buffers(p.chain().descs, true)) {
            data.len()
        } else {
            capacity(buffers(p.chain().descs, true))
        },
{
    let bufs = buffers(p.chain().descs, true);
    if p.refusal(data) is None {
        lemma_scatter_refused(p.mem, bufs, data);
        lemma_all_goes_in(p.mem, bufs, data);
    }
}

/// A scatter that is not refused puts in all there is room for.
proof fn lemma_all_goes_in(m: Seq<u8>, bufs: Seq<(u64, u32)>, data: Seq<u8>)
    requires
        scattered(m, bufs, data).error is None,
    ensures
        scattered(m, bufs, data).written == least(capacity(bufs), data.len()),
    decreases bufs.len(),
{
    if bufs.len() > 0 && data.len() > 0 {
        let n = least(bufs[0].1 as nat, data.len());
        let m1 = put(m, bufs[0].0 as int, data.take(n as int));
        lemma_all_goes_in(m1, bufs.drop_first(), data.skip(n as int));
    }
}

} // verus!
