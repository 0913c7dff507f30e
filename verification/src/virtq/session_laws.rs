//! What holds of requests from the driver's side.

use crate::virtq::chain::{law_lengths_add_up, total_len};
use crate::virtq::device::{buffers, gathered, pass_from, DeviceState};
use crate::virtq::driver::{readable_first, Buffer, DriverState};
use crate::virtq::laws::{law_links_describe_the_buffers, law_published_chain_is_seen, links};
use crate::virtq::layout::{
    law_descriptor_flags, lemma_least_multiple, lemma_wrap_near, wrap, Descriptor,
};
use crate::virtq::mem::{bytes_at, GuestAddr, MemError};
use crate::virtq::session::{first_writable, nothing_laid, submission, Laying};
use vstd::prelude::*;

verus! {

/// The first writable buffer is that of the first descriptor that the device may write.
pub proof fn law_first_writable(descs: Seq<Descriptor>)
    ensures
        match first_writable(descs) {
            None => forall|i: int|
                0 <= i < descs.len() ==> (#[trigger] descs[i]).flags / 2 % 2 == 0,
            Some(a) => exists|i: int|
                {
                    &&& 0 <= i < descs.len()
                    &&& (#[trigger] descs[i]).flags / 2 % 2 == 1
                    &&& descs[i].addr == a
                    &&& forall|j: int|
                        0 <= j < i ==> (#[trigger] descs[j]).flags / 2 % 2 == 0
                },
        },
    decreases descs.len(),
{
    if descs.len() > 0 {
        law_descriptor_flags(descs[0]);
        let rest = descs.drop_first();
        if descs[0].writable() {
            assert(descs[0].flags / 2 % 2 == 1);
        } else {
            law_first_writable(rest);
            match first_writable(rest) {
                None => {
                    assert forall|i: int| 0 <= i < descs.len() implies (#[trigger] descs[i]).flags
                        / 2 % 2 == 0 by {
                        if i > 0 {
                            assert(descs[i] == rest[i - 1]);
                        }
                    }
                },
                Some(a) => {
                    let i = choose|i: int|
                        {
                            &&& 0 <= i < rest.len()
                            &&& (#[trigger] rest[i]).flags / 2 % 2 == 1
                            &&& rest[i].addr == a
                            &&& forall|j: int|
                                0 <= j < i ==> (#[trigger] rest[j]).flags / 2 % 2 == 0
                        };
                    assert(descs[i + 1] == rest[i]);
                    assert forall|j: int| 0 <= j < i + 1 implies (#[trigger] descs[j]).flags / 2 % 2
                        == 0 by {
                        if j > 0 {
                            assert(descs[j] == rest[j - 1]);
                        }
                    }
                },
            }
        }
    }
}

/// The parts of a request, one behind the other.
spec fn whole(parts: Seq<Vec<u8>>) -> Seq<u8>
    decreases parts.len(),
{
    if parts.len() == 0 {
        Seq::empty()
    } else {
        whole(parts.drop_last()) + parts.last()@
    }
}

/// The parts lie in their buffers, behind `from` and by `to`.
#[verifier::opaque]
spec fn laid_out(
    m: Seq<u8>,
    bufs: Seq<Buffer>,
    parts: Seq<Vec<u8>>,
    from: int,
    to: int,
) -> bool {
    &&& bufs.len() == parts.len()
    &&& forall|i: int|
        0 <= i < bufs.len() ==> {
            &&& !(#[trigger] bufs[i]).device_writable
            &&& from <= bufs[i].addr.0
            &&& bufs[i].addr.0 + bufs[i].len <= to
            &&& bufs[i].len == parts[i]@.len()
            &&& bytes_at(m, bufs[i].addr.0 as int, bufs[i].len as nat) == Ok::<Seq<u8>, MemError>(
                parts[i]@,
            )
        }
}

/// Parts that found room lie in their buffers, and nothing below the arena has changed.
proof fn lemma_parts_are_laid_out(drv: DriverState, m: Seq<u8>, parts: Seq<Vec<u8>>)
    requires
        drv.arena_end <= m.len(),
        drv.arena_end <= u64::MAX - 8,
        !nothing_laid(drv, m).with_parts(parts).full,
    ensures
        ({
            let l = nothing_laid(drv, m).with_parts(parts);
            &&& l.mem.len() == m.len()
            &&& l.drv == (DriverState { arena: l.drv.arena, ..drv })
            &&& drv.arena <= l.drv.arena
            &&& forall|i: int| 0 <= i < drv.arena && i < m.len() ==> #[trigger] l.mem[i] == m[i]
            &&& laid_out(l.mem, l.bufs, parts, drv.arena as int, l.drv.arena as int)
        }),
    decreases parts.len(),
{
    let start = nothing_laid(drv, m);
    if parts.len() == 0 {
        reveal(laid_out);
    } else {
        let some = parts.drop_last();
        let part = parts.last()@;
        let before = start.with_parts(some);
        let l = start.with_parts(parts);
        lemma_parts_are_laid_out(drv, m, some);
        lemma_least_multiple(before.drv.arena + part.len(), 8);
        assert(laid_out(l.mem, l.bufs, parts, drv.arena as int, l.drv.arena as int)) by {
            reveal(laid_out);
            assert forall|i: int| 0 <= i < l.bufs.len() implies {
                &&& !(#[trigger] l.bufs[i]).device_writable
                &&& drv.arena <= l.bufs[i].addr.0
                &&& l.bufs[i].addr.0 + l.bufs[i].len <= l.drv.arena
                &&& l.bufs[i].len == parts[i]@.len()
                &&& bytes_at(l.mem, l.bufs[i].addr.0 as int, l.bufs[i].len as nat) == Ok::<
                    Seq<u8>,
                    MemError,
                >(parts[i]@)
            } by {
                let b = l.bufs[i];
                if i < some.len() {
                    assert(b == before.bufs[i]);
                    assert(some[i] == parts[i]);
                    assert(l.mem.subrange(b.addr.0 as int, b.addr.0 + b.len)
                        =~= before.mem.subrange(b.addr.0 as int, b.addr.0 + b.len));
                } else {
                    assert(l.mem.subrange(b.addr.0 as int, b.addr.0 + b.len) =~= part);
                }
            }
        }
    }
}

/// The descriptors of the readable buffers in front of a chain.
proof fn lemma_readable_links(
    m: Seq<u8>,
    bufs: Seq<Buffer>,
    indices: Seq<u16>,
    parts: Seq<Vec<u8>>,
    n: int,
)
    requires
        0 <= n <= parts.len() <= bufs.len(),
        forall|i: int|
            0 <= i < parts.len() ==> !(#[trigger] bufs[i]).device_writable && bufs[i].len
                == parts[i]@.len() && bytes_at(m, bufs[i].addr.0 as int, bufs[i].len as nat)
                == Ok::<Seq<u8>, MemError>(parts[i]@),
    ensures
        ({
            let d = links(bufs, indices).take(n);
            &&& gathered(m, buffers(d, false)) == whole(parts.take(n))
            &&& buffers(d, true) == Seq::<(u64, u32)>::empty()
            &&& total_len(d) == whole(parts.take(n)).len()
        }),
    decreases n,
{
    let all = links(bufs, indices);
    if n > 0 {
        let d = all.take(n);
        let one = all[n - 1];
        lemma_readable_links(m, bufs, indices, parts, n - 1);
        law_links_describe_the_buffers(bufs, indices, n - 1);
        law_descriptor_flags(one);
        assert(!bufs[n - 1].device_writable);
        assert(d.drop_last() =~= all.take(n - 1));
        assert(d =~= all.take(n - 1) + seq![one]);
        law_lengths_add_up(all.take(n - 1), one, seq![one]);
        let b = buffers(d, false);
        assert(b.drop_last() =~= buffers(all.take(n - 1), false));
        assert(parts.take(n).drop_last() =~= parts.take(n - 1));
        assert(gathered(m, b) =~= whole(parts.take(n)));
    } else {
        assert(all.take(0) =~= Seq::<Descriptor>::empty());
        assert(parts.take(0) =~= Seq::<Vec<u8>>::empty());
        assert(gathered(m, Seq::<(u64, u32)>::empty()) =~= whole(parts.take(0)));
    }
}

/// The first writable descriptor behind readable ones.
proof fn lemma_first_writable_behind(a: Seq<Descriptor>, d: Descriptor)
    requires
        forall|i: int| 0 <= i < a.len() ==> !(#[trigger] a[i]).writable(),
        d.writable(),
    ensures
        first_writable(a.push(d)) == Some(d.addr),
    decreases a.len(),
{
    if a.len() > 0 {
        let rest = a.drop_first();
        assert forall|i: int| 0 <= i < rest.len() implies !(#[trigger] rest[i]).writable() by {
            assert(rest[i] == a[i + 1]);
        }
        lemma_first_writable_behind(rest, d);
        assert(a.push(d).drop_first() =~= rest.push(d));
        assert(a.push(d)[0] == a[0]);
    }
}

/// The parts one behind the other are the request.
proof fn lemma_whole_is_flat(parts: Seq<Vec<u8>>)
    ensures
        whole(parts) == parts.map_values(|v: Vec<u8>| v@).flatten(),
    decreases parts.len(),
{
    let bytes = parts.map_values(|v: Vec<u8>| v@);
    if parts.len() == 0 {
        assert(bytes.flatten() =~= Seq::<u8>::empty());
    } else {
        lemma_whole_is_flat(parts.drop_last());
        bytes.lemma_flatten_and_flatten_alt_are_equivalent();
        bytes.drop_last().lemma_flatten_and_flatten_alt_are_equivalent();
        assert(bytes.drop_last() =~= parts.drop_last().map_values(|v: Vec<u8>| v@));
        assert(bytes.last() == parts.last()@);
        assert(bytes.flatten() =~= bytes.drop_last().flatten() + bytes.last());
    }
}

/// What is submitted is what the device sees. If the parts and a reply find room, and there is a
/// descriptor for each, a request is submitted; and a device that has seen everything before it finds
/// it next, whole: the parts one behind the other, none of them cut, and one buffer to answer in, of
/// the length that was asked for, which is where the driver looks for the reply.
pub proof fn law_submitted_request_is_seen(
    drv: DriverState,
    dev: DeviceState,
    m: Seq<u8>,
    parts: Seq<Vec<u8>>,
    reply_len: u32,
)
    requires
        drv.wf(),
        drv.layout == dev.layout,
        drv.avail_idx == dev.next_avail,
        dev.layout.queue_size > 0,
        dev.layout.inside(m.len()),
        dev.layout.parts_apart(),
        dev.layout.desc_table.0 + dev.layout.desc_bytes() <= drv.arena,
        dev.layout.avail_ring.0 + dev.layout.avail_bytes() <= drv.arena,
        dev.layout.used_ring.0 + dev.layout.used_bytes() <= drv.arena,
        drv.arena_end <= m.len(),
        drv.arena_end <= u64::MAX - 8,
        parts.len() < drv.free.len(),
        parts.map_values(|v: Vec<u8>| v@).flatten().len() + reply_len <= u32::MAX,
        !nothing_laid(drv, m).with_parts(parts).full,
        nothing_laid(drv, m).with_parts(parts).drv.arena + reply_len <= drv.arena_end,
    ensures
        ({
            let s = submission(drv, m, parts, reply_len);
            let p = pass_from(dev, s.mem);
            &&& s.result matches Ok(sub) && {
                &&& p.has_next()
                &&& p.head() == sub.head
                &&& p.chain().error is None
                &&& p.chain().descs.len() == parts.len() + 1
                &&& p.request() == parts.map_values(|v: Vec<u8>| v@).flatten()
                &&& buffers(p.chain().descs, true) == seq![(sub.reply.0, reply_len)]
                &&& first_writable(p.chain().descs) == Some(sub.reply.0)
                &&& sub.reply.0 as int + reply_len <= s.drv.arena
            }
        }),
{
    let l = nothing_laid(drv, m).with_parts(parts);
    lemma_whole_is_flat(parts);
    lemma_parts_are_laid_out(drv, m, parts);
    lemma_least_multiple(l.drv.arena + reply_len, 8);
    let d = l.drv.allocated(reply_len);
    let reply = Buffer { addr: GuestAddr(l.drv.arena), len: reply_len, device_writable: true };
    let bufs = l.bufs.push(reply);
    let n = parts.len();
    let indices = d.next_descs(bufs.len());
    let all = links(bufs, indices);
    let p = d.publish(l.mem, bufs);
    reveal(laid_out);
    assert forall|i: int| 0 <= i < n implies !(#[trigger] bufs[i]).device_writable && bufs[i].len
        == parts[i]@.len() && bytes_at(l.mem, bufs[i].addr.0 as int, bufs[i].len as nat) == Ok::<
        Seq<u8>,
        MemError,
    >(parts[i]@) by {
        assert(bufs[i] == l.bufs[i]);
    }
    lemma_readable_links(l.mem, bufs, indices, parts, n as int);
    assert(parts.take(n as int) =~= parts);
    let one = all[n as int];
    law_links_describe_the_buffers(bufs, indices, n as int);
    law_descriptor_flags(one);
    let front = all.take(n as int);
    assert(all =~= front + seq![one]);
    law_lengths_add_up(front, one, seq![one]);
    assert(readable_first(bufs)) by {
        assert forall|i: int, j: int|
            0 <= i < j < bufs.len() && (#[trigger] bufs[i]).device_writable implies (
        #[trigger] bufs[j]).device_writable by {
            assert(i < n);
        }
    }
    law_published_chain_is_seen(d, l.mem, bufs);
    lemma_wrap_near(dev.next_avail + 1);
    lemma_wrap_near(wrap(dev.next_avail + 1) - dev.next_avail);
    assert(all.drop_last() =~= front);
    assert(buffers(all, true) =~= seq![(reply.addr.0, reply_len)]);
    assert(buffers(all, false) == buffers(front, false));
    assert forall|i: int| 0 <= i < n implies bytes_at(
        p.mem,
        (#[trigger] bufs[i]).addr.0 as int,
        bufs[i].len as nat,
    ) == Ok::<Seq<u8>, MemError>(parts[i]@) by {
        let b = bufs[i];
        assert(p.mem.subrange(b.addr.0 as int, b.addr.0 + b.len) =~= l.mem.subrange(
            b.addr.0 as int,
            b.addr.0 + b.len,
        ));
    }
    lemma_readable_links(p.mem, bufs, indices, parts, n as int);
    assert forall|i: int| 0 <= i < front.len() implies !(#[trigger] front[i]).writable() by {
        law_links_describe_the_buffers(bufs, indices, i);
        law_descriptor_flags(all[i]);
        assert(front[i] == all[i]);
        assert(!bufs[i].device_writable);
    }
    lemma_first_writable_behind(front, one);
    assert(front.push(one) =~= all);
}

/// Where there is no room for the parts and the reply, nothing is published, and that is said; where
/// there are not descriptors enough, the driver's refusal is handed on.
pub proof fn law_request_without_room(
    drv: DriverState,
    m: Seq<u8>,
    parts: Seq<Vec<u8>>,
    reply_len: u32,
)
    ensures
        ({
            let l = nothing_laid(drv, m).with_parts(parts);
            let s = submission(drv, m, parts, reply_len);
            let fits = !l.full && l.drv.arena + reply_len <= l.drv.arena_end;
            &&& !fits <==> (s.result matches Err(e) && e is Arena)
            &&& !fits ==> s.drv == l.drv && s.mem == l.mem
        }),
{
}

/// A part finds room exactly where it ends by the end of the arena and has less than 2^32 bytes; once
/// one has found none, none behind it is laid out.
pub proof fn law_parts_find_room(l: Laying, parts: Seq<Vec<u8>>, part: Vec<u8>)
    requires
        l.drv.arena_end <= l.mem.len(),
    ensures
        l.with_part(part@).full <==> part@.len() > u32::MAX || l.drv.arena + part@.len()
            > l.drv.arena_end,
        l.with_parts(parts.push(part)) == if l.with_parts(parts).full {
            l.with_parts(parts)
        } else {
            l.with_parts(parts).with_part(part@)
        },
        l.with_parts(Seq::<Vec<u8>>::empty()) == l,
{
    assert(parts.push(part).drop_last() =~= parts);
}

} // verus!
