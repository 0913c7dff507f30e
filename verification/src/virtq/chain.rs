//! The walk over one descriptor chain.
//!
//! A chain is a linked list whose nodes and pointers are entirely written by the guest. The host
//! must traverse it without trusting a single field, under three independent bounds: the length of
//! the walk, where it may go, and how many bytes it may ask the device to process.

use crate::virtq::layout::{law_descriptor_flags, Descriptor, VirtqLayout};
use crate::virtq::mem::{
    agree, fits, lemma_agree_reads, out_of_bounds, u16_at, u32_at, u64_at, GuestAddr, MemError,
    SharedMem,
};
use vstd::prelude::*;

verus! {

#[derive(Debug, Clone, Copy, PartialEq, Eq, Structural)]
pub enum ChainError {
    /// A `next` pointer named a descriptor outside the table.
    IndexOutOfRange { index: u16, queue_size: u16 },
    /// The chain visited more descriptors than the table holds, so it contains a cycle.
    TooLong { limit: u16 },
    /// The chain's buffers total more than 2^32 bytes (VIRTIO 1.2, 2.7.5.2).
    TooManyBytes,
    /// A descriptor's buffer is not inside the shared region.
    BadBuffer(MemError),
    /// Indirect descriptors are not implemented here.
    Indirect,
    /// A device-readable descriptor appeared after a device-writable one.
    ReadableAfterWritable,
    /// Reading the descriptor itself failed.
    Mem(MemError),
}

/// The descriptor at `addr`, or the refusal of the first of its four fields that is not in the
/// region.
pub open spec fn descriptor_at(m: Seq<u8>, addr: int) -> Result<Descriptor, MemError> {
    if !fits(m.len(), addr, 8) {
        Err(out_of_bounds(m, addr, 8))
    } else if !fits(m.len(), addr + 8, 4) {
        Err(out_of_bounds(m, addr + 8, 4))
    } else if !fits(m.len(), addr + 12, 2) {
        Err(out_of_bounds(m, addr + 12, 2))
    } else if !fits(m.len(), addr + 14, 2) {
        Err(out_of_bounds(m, addr + 14, 2))
    } else {
        Ok(
            Descriptor {
                addr: u64_at(m, addr)->Ok_0,
                len: u32_at(m, addr + 8)->Ok_0,
                flags: u16_at(m, addr + 12)->Ok_0,
                next: u16_at(m, addr + 14)->Ok_0,
            },
        )
    }
}

/// What a walk comes to: the descriptors it yields, and the error it ends in, if any.
#[verifier::ext_equal]
pub struct Walk {
    pub descs: Seq<Descriptor>,
    pub error: Option<ChainError>,
}

/// The walk from descriptor `index` on, with `ttl` descriptors left to visit, after `bytes` bytes
/// of buffers and with or without a device-writable one among them.
pub open spec fn walk(
    m: Seq<u8>,
    l: VirtqLayout,
    index: u16,
    ttl: nat,
    bytes: nat,
    seen_writable: bool,
) -> Walk
    decreases ttl,
{
    let stop = |e: ChainError| Walk { descs: Seq::empty(), error: Some(e) };
    if ttl == 0 {
        stop(ChainError::TooLong { limit: l.queue_size })
    } else if index >= l.queue_size {
        stop(ChainError::IndexOutOfRange { index, queue_size: l.queue_size })
    } else {
        match descriptor_at(m, l.desc_addr(index as int)) {
            Err(e) => stop(ChainError::Mem(e)),
            Ok(d) => if d.indirect() {
                stop(ChainError::Indirect)
            } else if bytes + d.len > u32::MAX {
                stop(ChainError::TooManyBytes)
            } else if !d.writable() && seen_writable {
                stop(ChainError::ReadableAfterWritable)
            } else if !d.chained() {
                Walk { descs: seq![d], error: None }
            } else {
                let rest = walk(
                    m,
                    l,
                    d.next,
                    (ttl - 1) as nat,
                    bytes + d.len as nat,
                    d.writable(),
                );
                Walk { descs: seq![d] + rest.descs, error: rest.error }
            },
        }
    }
}

/// The chain that starts at `head`: a walk that may visit as many descriptors as the table holds.
pub open spec fn chain_from(m: Seq<u8>, l: VirtqLayout, head: u16) -> Walk {
    walk(m, l, head, l.queue_size as nat, 0, false)
}

/// The bytes that the buffers of `descs` come to.
pub open spec fn total_len(descs: Seq<Descriptor>) -> nat
    decreases descs.len(),
{
    if descs.len() == 0 {
        0
    } else {
        descs[0].len as nat + total_len(descs.drop_first())
    }
}

/// Walks one descriptor chain, starting from its head index.
///
/// A malformed chain is told apart from a short one: the walk yields an error, once, and ends.
pub struct ChainIter<'a> {
    mem: &'a SharedMem,
    layout: VirtqLayout,
    next_index: u16,
    ttl: u16,
    yielded_bytes: u32,
    /// Once a device-writable descriptor is seen, every later one must also be writable.
    seen_writable: bool,
    done: bool,
}

impl<'a> ChainIter<'a> {
    /// The addresses the walk computes fit in 64 bits.
    pub closed spec fn wf(self) -> bool {
        self.layout.desc_addressable()
    }

    /// What is left of the walk.
    pub closed spec fn rest(self) -> Walk {
        if self.done {
            Walk { descs: Seq::empty(), error: None }
        } else {
            walk(
                self.mem@,
                self.layout,
                self.next_index,
                self.ttl as nat,
                self.yielded_bytes as nat,
                self.seen_writable,
            )
        }
    }

    /// How many more calls of `next` can yield something, at most.
    pub closed spec fn fuel(self) -> nat {
        if self.done {
            0
        } else {
            (self.ttl + 1) as nat
        }
    }

    pub fn new(mem: &'a SharedMem, layout: VirtqLayout, head: u16) -> (r: Self)
        requires
            layout.desc_addressable(),
        ensures
            r.wf(),
            r.rest() == chain_from(mem@, layout, head),
    {
        ChainIter {
            mem,
            layout,
            next_index: head,
            // A chain cannot legitimately be longer than the table it is built from, because that
            // would require visiting some descriptor twice.
            ttl: layout.queue_size,
            yielded_bytes: 0,
            seen_writable: false,
            done: false,
        }
    }

    /// The next descriptor of the chain, the error that the walk ends in, or nothing.
    pub fn next(&mut self) -> (r: Option<Result<Descriptor, ChainError>>)
        requires
            old(self).wf(),
        ensures
            final(self).wf(),
            match r {
                None => old(self).rest() == (Walk { descs: Seq::empty(), error: None })
                    && final(self).rest() == old(self).rest(),
                Some(Ok(d)) => old(self).rest() == (Walk {
                    descs: seq![d] + final(self).rest().descs,
                    error: final(self).rest().error,
                }),
                Some(Err(e)) => old(self).rest() == (Walk { descs: Seq::empty(), error: Some(e) })
                    && final(self).rest() == (Walk { descs: Seq::empty(), error: None }),
            },
            r is Some ==> final(self).fuel() < old(self).fuel(),
    {
        if self.done {
            return None;
        }
        // Bound 1: length. A cycle in the guest-written `next` pointers ends here.
        if self.ttl == 0 {
            self.done = true;
            return Some(Err(ChainError::TooLong { limit: self.layout.queue_size }));
        }
        // Bound 2: destination.
        let addr = match self.layout.desc(self.next_index) {
            Some(a) => a,
            None => {
                self.done = true;
                return Some(
                    Err(
                        ChainError::IndexOutOfRange {
                            index: self.next_index,
                            queue_size: self.layout.queue_size,
                        },
                    ),
                );
            },
        };

        let desc = match read_descriptor(self.mem, addr) {
            Ok(d) => d,
            Err(e) => {
                self.done = true;
                return Some(Err(ChainError::Mem(e)));
            },
        };

        if desc.is_indirect() {
            self.done = true;
            return Some(Err(ChainError::Indirect));
        }
        // Bound 3: total work. `checked_add` rather than a comparison, because the sum is what
        // overflows and a wrapped sum compares fine against any limit.

        match self.yielded_bytes.checked_add(desc.len) {
            Some(n) => {
                self.yielded_bytes = n;
            },
            None => {
                self.done = true;
                return Some(Err(ChainError::TooManyBytes));
            },
        }

        // Direction ordering.
        if desc.is_write_only() {
            self.seen_writable = true;
        } else if self.seen_writable {
            self.done = true;
            return Some(Err(ChainError::ReadableAfterWritable));
        }
        if desc.has_next() {
            self.next_index = desc.next;
            self.ttl -= 1;
        } else {
            self.done = true;
            assert(seq![desc] + Seq::<Descriptor>::empty() =~= seq![desc]);
        }
        Some(Ok(desc))
    }
}

fn read_descriptor(mem: &SharedMem, addr: GuestAddr) -> (r: Result<Descriptor, MemError>)
    ensures
        r == descriptor_at(mem@, addr.0 as int),
{
    let a: u64 = match mem.read_u64(addr) {
        Ok(v) => v,
        Err(e) => {
            return Err(e);
        },
    };
    // The field just read ends at or below the end of the region, so the next address fits.
    let _region_len: u64 = mem.len();
    let len: u32 = match mem.read_u32(GuestAddr(addr.0 + 8)) {
        Ok(v) => v,
        Err(e) => {
            return Err(e);
        },
    };
    let flags: u16 = match mem.read_u16(GuestAddr(addr.0 + 12)) {
        Ok(v) => v,
        Err(e) => {
            return Err(e);
        },
    };
    let next: u16 = match mem.read_u16(GuestAddr(addr.0 + 14)) {
        Ok(v) => v,
        Err(e) => {
            return Err(e);
        },
    };
    Ok(Descriptor { addr: a, len, flags, next })
}

/// Whatever the guest wrote, a walk ends: it yields at most as many descriptors as it may visit,
/// and their buffers, with those before, come to less than 2^32 bytes.
pub proof fn lemma_walk_bounded(
    m: Seq<u8>,
    l: VirtqLayout,
    index: u16,
    ttl: nat,
    bytes: nat,
    seen_writable: bool,
)
    requires
        bytes <= u32::MAX,
    ensures
        walk(m, l, index, ttl, bytes, seen_writable).descs.len() <= ttl,
        bytes + total_len(walk(m, l, index, ttl, bytes, seen_writable).descs) <= u32::MAX,
    decreases ttl,
{
    reveal_with_fuel(total_len, 2);
    let w = walk(m, l, index, ttl, bytes, seen_writable);
    if w.descs.len() > 0 {
        let d = descriptor_at(m, l.desc_addr(index as int))->Ok_0;
        assert(w.descs[0] == d);
        if d.chained() {
            let rest = walk(m, l, d.next, (ttl - 1) as nat, bytes + d.len as nat, d.writable());
            lemma_walk_bounded(m, l, d.next, (ttl - 1) as nat, bytes + d.len as nat, d.writable());
            assert(w.descs.drop_first() =~= rest.descs);
        } else {
            assert(w.descs.drop_first() =~= Seq::<Descriptor>::empty());
        }
    }
}

/// The walk keeps its direction rule: after a device-writable descriptor only device-writable ones
/// come, none of them is a table of descriptors, and every one but the last of a walk that ends
/// without an error names another.
pub proof fn lemma_walk_ordered(
    m: Seq<u8>,
    l: VirtqLayout,
    index: u16,
    ttl: nat,
    bytes: nat,
    seen_writable: bool,
)
    ensures
        ({
            let w = walk(m, l, index, ttl, bytes, seen_writable);
            &&& forall|i: int| 0 <= i < w.descs.len() ==> !(#[trigger] w.descs[i]).indirect()
            &&& seen_writable ==> forall|i: int|
                0 <= i < w.descs.len() ==> (#[trigger] w.descs[i]).writable()
            &&& forall|i: int, j: int|
                0 <= i <= j < w.descs.len() && (#[trigger] w.descs[i]).writable() ==> (
                #[trigger] w.descs[j]).writable()
            &&& forall|i: int|
                0 <= i < w.descs.len() - 1 ==> (#[trigger] w.descs[i]).chained()
            &&& w.error is None ==> w.descs.len() > 0 && !w.descs.last().chained()
        }),
    decreases ttl,
{
    let w = walk(m, l, index, ttl, bytes, seen_writable);
    if w.descs.len() > 0 {
        let d = descriptor_at(m, l.desc_addr(index as int))->Ok_0;
        assert(w.descs[0] == d);
        if d.chained() {
            let rest = walk(m, l, d.next, (ttl - 1) as nat, bytes + d.len as nat, d.writable());
            lemma_walk_ordered(m, l, d.next, (ttl - 1) as nat, bytes + d.len as nat, d.writable());
            assert(w.descs =~= seq![d] + rest.descs);
            assert forall|i: int, j: int|
                0 <= i <= j < w.descs.len() && (#[trigger] w.descs[i]).writable() implies (
            #[trigger] w.descs[j]).writable() by {
                if i > 0 {
                    assert(w.descs[i] == rest.descs[i - 1]);
                    assert(w.descs[j] == rest.descs[j - 1]);
                } else if j > 0 {
                    assert(w.descs[j] == rest.descs[j - 1]);
                }
            }
            assert forall|i: int| 0 <= i < w.descs.len() implies !(#[trigger] w.descs[i]).indirect() && (
            seen_writable ==> w.descs[i].writable()) && (i < w.descs.len() - 1
                ==> w.descs[i].chained()) by {
                if i > 0 {
                    assert(w.descs[i] == rest.descs[i - 1]);
                }
            }
            if w.error is None {
                assert(w.descs.last() == rest.descs.last());
            }
        }
    }
}

/// The device's guarantee against a hostile chain: whatever stands in memory, the chain from any
/// head yields at most as many descriptors as the table holds and less than 2^32 bytes, follows no
/// table of descriptors, and hands out every device-readable buffer before the first
/// device-writable one.
pub proof fn law_chain_is_bounded(m: Seq<u8>, l: VirtqLayout, head: u16)
    ensures
        ({
            let w = chain_from(m, l, head);
            &&& w.descs.len() <= l.queue_size
            &&& total_len(w.descs) <= u32::MAX
            &&& forall|i: int| 0 <= i < w.descs.len() ==> !(#[trigger] w.descs[i]).indirect()
            &&& forall|i: int, j: int|
                0 <= i <= j < w.descs.len() && (#[trigger] w.descs[i]).writable() ==> (
                #[trigger] w.descs[j]).writable()
            &&& w.error is None ==> w.descs.len() > 0
        }),
{
    lemma_walk_bounded(m, l, head, l.queue_size as nat, 0, false);
    lemma_walk_ordered(m, l, head, l.queue_size as nat, 0, false);
}

/// A walk reads nothing but the descriptor table: regions that agree there have the same chains.
pub proof fn lemma_walk_reads_table(
    m: Seq<u8>,
    k: Seq<u8>,
    l: VirtqLayout,
    index: u16,
    ttl: nat,
    bytes: nat,
    seen_writable: bool,
)
    requires
        agree(m, k, l.desc_table.0 as int, l.desc_bytes()),
    ensures
        walk(m, l, index, ttl, bytes, seen_writable) == walk(
            k,
            l,
            index,
            ttl,
            bytes,
            seen_writable,
        ),
    decreases ttl,
{
    if ttl > 0 && index < l.queue_size {
        let at = l.desc_addr(index as int);
        lemma_descriptor_agrees(m, k, at);
        match descriptor_at(m, at) {
            Ok(d) => {
                lemma_walk_reads_table(
                    m,
                    k,
                    l,
                    d.next,
                    (ttl - 1) as nat,
                    bytes + d.len as nat,
                    d.writable(),
                );
            },
            Err(e) => {},
        }
    }
}

/// Regions that agree on the sixteen bytes of a descriptor hold the same descriptor there.
pub proof fn lemma_descriptor_agrees(m: Seq<u8>, k: Seq<u8>, at: int)
    requires
        agree(m, k, at, 16),
    ensures
        descriptor_at(m, at) == descriptor_at(k, at),
{
    lemma_agree_reads(m, k, at, 8);
    lemma_agree_reads(m, k, at + 8, 4);
    lemma_agree_reads(m, k, at + 12, 2);
    lemma_agree_reads(m, k, at + 14, 2);
}


/// The descriptor at an address is the four little-endian fields that stand there: the address of its
/// buffer, its length, its flags and the next. It is there exactly where its sixteen bytes are.
pub proof fn law_descriptor_fields(m: Seq<u8>, at: int)
    requires
        0 <= at,
    ensures
        descriptor_at(m, at) is Ok <==> at + 16 <= m.len(),
        descriptor_at(m, at) matches Ok(d) ==> {
            &&& u64_at(m, at) == Ok::<u64, MemError>(d.addr)
            &&& u32_at(m, at + 8) == Ok::<u32, MemError>(d.len)
            &&& u16_at(m, at + 12) == Ok::<u16, MemError>(d.flags)
            &&& u16_at(m, at + 14) == Ok::<u16, MemError>(d.next)
        },
{
}

/// The entry that a walk from `head` comes to with the `i`-th of the descriptors it yields, and,
/// behind them all, the one it comes to next.
spec fn comes_to(head: u16, descs: Seq<Descriptor>, i: int) -> u16 {
    if i == 0 {
        head
    } else {
        descs[i - 1].next
    }
}

/// The `i`-th descriptor is the one that stands in the table where the walk comes to.
spec fn stands_there(
    m: Seq<u8>,
    l: VirtqLayout,
    head: u16,
    descs: Seq<Descriptor>,
    i: int,
) -> bool {
    let at = comes_to(head, descs, i);
    at < l.queue_size && descriptor_at(m, l.desc_table.0 + 16 * at) == Ok::<Descriptor, MemError>(
        descs[i],
    )
}

/// Why a walk that began at `head` and has yielded `descs` goes no further: in this order, that it
/// ended, that it was as long as the table, that the next entry is not in the table, that it is not
/// in the region, that it is a table itself, that its buffer makes it too many bytes, or that it is
/// readable behind a writable one.
spec fn ends_here(
    m: Seq<u8>,
    l: VirtqLayout,
    head: u16,
    descs: Seq<Descriptor>,
    ttl: nat,
    bytes: nat,
    seen_writable: bool,
    error: Option<ChainError>,
) -> bool {
    let at = comes_to(head, descs, descs.len() as int);
    let writable_before = if descs.len() == 0 {
        seen_writable
    } else {
        descs.last().writable()
    };
    if descs.len() > 0 && !descs.last().chained() {
        error is None
    } else if descs.len() == ttl {
        error == Some(ChainError::TooLong { limit: l.queue_size })
    } else if at >= l.queue_size {
        error == Some(ChainError::IndexOutOfRange { index: at, queue_size: l.queue_size })
    } else {
        match descriptor_at(m, l.desc_table.0 + 16 * at) {
            Err(e) => error == Some(ChainError::Mem(e)),
            Ok(d) => {
                if d.flags / 4 % 2 == 1 {
                    error == Some(ChainError::Indirect)
                } else if bytes + total_len(descs) + d.len > 0xffff_ffff {
                    error == Some(ChainError::TooManyBytes)
                } else {
                    &&& error == Some(ChainError::ReadableAfterWritable)
                    &&& writable_before
                    &&& d.flags / 2 % 2 == 0
                }
            },
        }
    }
}

/// What a walk yields, step by step.
proof fn lemma_walk_yields(
    m: Seq<u8>,
    l: VirtqLayout,
    index: u16,
    ttl: nat,
    bytes: nat,
    seen_writable: bool,
)
    ensures
        ({
            let w = walk(m, l, index, ttl, bytes, seen_writable);
            forall|i: int|
                0 <= i < w.descs.len() ==> #[trigger] stands_there(m, l, index, w.descs, i)
        }),
    decreases ttl,
{
    let w = walk(m, l, index, ttl, bytes, seen_writable);
    if w.descs.len() > 0 {
        let d = descriptor_at(m, l.desc_addr(index as int))->Ok_0;
        assert(w.descs[0] == d);
        assert(stands_there(m, l, index, w.descs, 0));
        if d.chained() {
            let rest = walk(m, l, d.next, (ttl - 1) as nat, bytes + d.len as nat, d.writable());
            lemma_walk_yields(m, l, d.next, (ttl - 1) as nat, bytes + d.len as nat, d.writable());
            assert(w.descs == seq![d] + rest.descs);
            assert forall|i: int| 0 <= i < w.descs.len() implies #[trigger] stands_there(
                m,
                l,
                index,
                w.descs,
                i,
            ) by {
                if i > 0 {
                    assert(stands_there(m, l, d.next, rest.descs, i - 1));
                    assert(w.descs[i] == rest.descs[i - 1]);
                    assert(i > 1 ==> w.descs[i - 1] == rest.descs[i - 2]);
                }
            }
        }
    }
}

/// Why a walk ends.
proof fn lemma_walk_ends(
    m: Seq<u8>,
    l: VirtqLayout,
    index: u16,
    ttl: nat,
    bytes: nat,
    seen_writable: bool,
)
    ensures
        ({
            let w = walk(m, l, index, ttl, bytes, seen_writable);
            ends_here(m, l, index, w.descs, ttl, bytes, seen_writable, w.error)
        }),
    decreases ttl,
{
    let w = walk(m, l, index, ttl, bytes, seen_writable);
    let at = l.desc_addr(index as int);
    reveal_with_fuel(total_len, 2);
    if ttl > 0 && index < l.queue_size && descriptor_at(m, at) is Ok {
        let d = descriptor_at(m, at)->Ok_0;
        law_descriptor_flags(d);
        if w.descs.len() > 0 {
            assert(w.descs[0] == d);
            if d.chained() {
                let rest = walk(m, l, d.next, (ttl - 1) as nat, bytes + d.len as nat, d.writable());
                lemma_walk_ends(m, l, d.next, (ttl - 1) as nat, bytes + d.len as nat, d.writable());
                assert(w.descs == seq![d] + rest.descs);
                assert(w.descs.drop_first() =~= rest.descs);
                lemma_ends_behind(
                    m,
                    l,
                    index,
                    d,
                    rest.descs,
                    ttl,
                    bytes,
                    seen_writable,
                    w.error,
                );
            } else {
                assert(w.descs == seq![d]);
            }
        }
    }
}

/// A walk ends where the rest of it does.
proof fn lemma_ends_behind(
    m: Seq<u8>,
    l: VirtqLayout,
    index: u16,
    d: Descriptor,
    rest: Seq<Descriptor>,
    ttl: nat,
    bytes: nat,
    seen_writable: bool,
    error: Option<ChainError>,
)
    requires
        ttl > 0,
        d.chained(),
        ends_here(
            m,
            l,
            d.next,
            rest,
            (ttl - 1) as nat,
            bytes + d.len as nat,
            d.writable(),
            error,
        ),
    ensures
        ends_here(m, l, index, seq![d] + rest, ttl, bytes, seen_writable, error),
{
    let all = seq![d] + rest;
    reveal_with_fuel(total_len, 2);
    assert(all.drop_first() =~= rest);
    if rest.len() > 0 {
        assert(all.last() == rest.last());
        assert(rest[rest.len() - 1] == rest.last());
        assert(all[all.len() - 1] == all.last());
    } else {
        assert(all.last() == d);
    }
}

/// A walk follows the links of a chain: it begins with the entry of its head, and each that follows
/// is the one that the one before names. All of them stand in the table.
pub proof fn law_chain_follows_its_links(m: Seq<u8>, l: VirtqLayout, head: u16, i: int)
    requires
        0 <= i < chain_from(m, l, head).descs.len(),
    ensures
        ({
            let descs = chain_from(m, l, head).descs;
            let at = if i == 0 {
                head
            } else {
                descs[i - 1].next
            };
            at < l.queue_size && descriptor_at(m, l.desc_table.0 + 16 * at) == Ok::<
                Descriptor,
                MemError,
            >(descs[i])
        }),
{
    lemma_walk_yields(m, l, head, l.queue_size as nat, 0, false);
    assert(stands_there(m, l, head, chain_from(m, l, head).descs, i));
}

/// A walk ends for a reason: well, with a descriptor that names no other; and else with the error for
/// what it came to instead of one. So a chain is refused for what is wrong with it, for nothing else,
/// and for the first thing that is.
pub proof fn law_chain_ends_for_a_reason(m: Seq<u8>, l: VirtqLayout, head: u16)
    ensures
        ({
            let w = chain_from(m, l, head);
            let n = w.descs.len();
            let at = if n == 0 {
                head
            } else {
                w.descs[n - 1].next
            };
            let next = descriptor_at(m, l.desc_table.0 + 16 * at);
            if n > 0 && w.descs[n - 1].flags % 2 == 0 {
                w.error is None
            } else if n == l.queue_size {
                w.error == Some(ChainError::TooLong { limit: l.queue_size })
            } else if at >= l.queue_size {
                w.error == Some(
                    ChainError::IndexOutOfRange { index: at, queue_size: l.queue_size },
                )
            } else if next is Err {
                w.error == Some(ChainError::Mem(next->Err_0))
            } else if next->Ok_0.flags / 4 % 2 == 1 {
                w.error == Some(ChainError::Indirect)
            } else if total_len(w.descs) + next->Ok_0.len > 0xffff_ffff {
                w.error == Some(ChainError::TooManyBytes)
            } else {
                &&& w.error == Some(ChainError::ReadableAfterWritable)
                &&& next->Ok_0.flags / 2 % 2 == 0
                &&& n > 0 && w.descs[n - 1].flags / 2 % 2 == 1
            }
        }),
{
    let w = chain_from(m, l, head);
    lemma_walk_ends(m, l, head, l.queue_size as nat, 0, false);
    lemma_reasons_are_plain(m, l, head, w.descs, w.error);
}

/// The reasons for the end of a walk, from its head.
proof fn lemma_reasons_are_plain(
    m: Seq<u8>,
    l: VirtqLayout,
    head: u16,
    descs: Seq<Descriptor>,
    error: Option<ChainError>,
)
    requires
        ends_here(m, l, head, descs, l.queue_size as nat, 0, false, error),
    ensures
        ({
            let n = descs.len();
            let at = if n == 0 {
                head
            } else {
                descs[n - 1].next
            };
            let next = descriptor_at(m, l.desc_table.0 + 16 * at);
            if n > 0 && descs[n - 1].flags % 2 == 0 {
                error is None
            } else if n == l.queue_size {
                error == Some(ChainError::TooLong { limit: l.queue_size })
            } else if at >= l.queue_size {
                error == Some(ChainError::IndexOutOfRange { index: at, queue_size: l.queue_size })
            } else if next is Err {
                error == Some(ChainError::Mem(next->Err_0))
            } else if next->Ok_0.flags / 4 % 2 == 1 {
                error == Some(ChainError::Indirect)
            } else if total_len(descs) + next->Ok_0.len > 0xffff_ffff {
                error == Some(ChainError::TooManyBytes)
            } else {
                &&& error == Some(ChainError::ReadableAfterWritable)
                &&& next->Ok_0.flags / 2 % 2 == 0
                &&& n > 0 && descs[n - 1].flags / 2 % 2 == 1
            }
        }),
{
    if descs.len() > 0 {
        law_descriptor_flags(descs[descs.len() - 1]);
    }
}

/// The bytes of descriptors are the sum of their lengths.
pub proof fn law_lengths_add_up(a: Seq<Descriptor>, d: Descriptor, b: Seq<Descriptor>)
    ensures
        total_len(a + b) == total_len(a) + total_len(b),
        total_len(seq![d]) == d.len,
        total_len(Seq::<Descriptor>::empty()) == 0,
    decreases a.len(),
{
    reveal_with_fuel(total_len, 2);
    assert(seq![d].drop_first() =~= Seq::<Descriptor>::empty());
    if a.len() == 0 {
        assert(a + b =~= b);
    } else {
        law_lengths_add_up(a.drop_first(), d, b);
        assert((a + b).drop_first() =~= a.drop_first() + b);
    }
}

} // verus!
