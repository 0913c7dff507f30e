//! Requests from the driver's side: laying one out and publishing it, finding its reply, and what a
//! walk over it comes to.

use crate::virtq::chain::{chain_from, law_chain_is_bounded, total_len, ChainError};
use crate::virtq::device::{Device, ProcessStats};
use crate::virtq::driver::{
    desc_stores, store_all, write_descriptor, Buffer, Driver, DriverError, DriverState,
};
use crate::virtq::layout::{least_multiple, lemma_least_multiple, Descriptor, VirtqLayout};
use crate::virtq::mem::{write_at, GuestAddr, MemError, SharedMem};
use vstd::prelude::*;

verus! {

/// Write one descriptor straight into the table, as a guest that does not run the driver does.
/// Returns `None` where the table has no such entry.
pub fn write_desc(
    m: &mut SharedMem,
    layout: VirtqLayout,
    index: u16,
    addr: u64,
    len: u32,
    flags: u16,
    next: u16,
) -> (r: Option<Result<(), MemError>>)
    requires
        layout.desc_addressable(),
    ensures
        r is Some <==> index < layout.queue_size,
        r is None ==> final(m)@ == old(m)@,
        r matches Some(outcome) ==> {
            let s = store_all(
                old(m)@,
                desc_stores(
                    layout.desc_addr(index as int),
                    Descriptor { addr, len, flags, next },
                ),
            );
            &&& final(m)@ == s.mem
            &&& match s.error {
                Some(e) => outcome == Err::<(), MemError>(e),
                None => outcome == Ok::<(), MemError>(()),
            }
        },
{
    match layout.desc(index) {
        Some(at) => Some(write_descriptor(m, at, Descriptor { addr, len, flags, next })),
        None => None,
    }
}

/// The address of the first device-writable descriptor among those a walk yields, if there is one.
pub open spec fn first_writable(descs: Seq<Descriptor>) -> Option<u64>
    decreases descs.len(),
{
    if descs.len() == 0 {
        None
    } else if descs[0].writable() {
        Some(descs[0].addr)
    } else {
        first_writable(descs.drop_first())
    }
}

/// Where the reply to chain `head` went: the first device-writable buffer of the chain.
pub fn reply_buffer(device: &Device, mem: &SharedMem, head: u16) -> (r: Option<u64>)
    requires
        device@.layout.desc_addressable(),
    ensures
        r == first_writable(chain_from(mem@, device@.layout, head).descs),
{
    let ghost all = chain_from(mem@, device@.layout, head).descs;
    let mut chain = device.chain(mem, head);
    loop
        invariant
            chain.wf(),
            first_writable(all) == first_writable(chain.rest().descs),
            all == chain_from(mem@, device@.layout, head).descs,
        decreases chain.fuel(),
    {
        match chain.next() {
            Some(Ok(d)) => {
                assert((seq![d] + chain.rest().descs).drop_first() =~= chain.rest().descs);
                if d.is_write_only() {
                    return Some(d.addr);
                }
            },
            _ => {
                return None;
            },
        }
    }
}

/// The bytes that the buffers of chain `head` come to, or the error of its walk.
pub fn walk_bytes(device: &Device, mem: &SharedMem, head: u16) -> (r: Result<u64, ChainError>)
    requires
        device@.layout.desc_addressable(),
    ensures
        match chain_from(mem@, device@.layout, head).error {
            None => r matches Ok(n) && n == total_len(
                chain_from(mem@, device@.layout, head).descs,
            ),
            Some(e) => r matches Err(f) && f == e,
        },
{
    let ghost w = chain_from(mem@, device@.layout, head);
    proof {
        law_chain_is_bounded(mem@, device@.layout, head);
    }
    let mut total: u64 = 0;
    let mut chain = device.chain(mem, head);
    loop
        invariant
            chain.wf(),
            w == chain_from(mem@, device@.layout, head),
            total_len(w.descs) <= u32::MAX,
            total_len(w.descs) == total + total_len(chain.rest().descs),
            w.error == chain.rest().error,
        decreases chain.fuel(),
    {
        match chain.next() {
            Some(Ok(d)) => {
                assert((seq![d] + chain.rest().descs).drop_first() =~= chain.rest().descs);
                total += d.len as u64;
            },
            Some(Err(e)) => {
                return Err(e);
            },
            None => {
                return Ok(total);
            },
        }
    }
}

/// Why a request could not be submitted.
#[derive(Debug, Clone, Copy, PartialEq, Eq, Structural)]
pub enum SubmitError {
    /// The arena has no room, or the memory does not hold it.
    Arena,
    /// The driver refused the chain.
    Driver(DriverError),
}

/// A request that is in flight.
#[derive(Debug, Clone, Copy, PartialEq, Eq, Structural)]
pub struct Submitted {
    /// The head of its chain.
    pub head: u16,
    /// Where the reply goes.
    pub reply: GuestAddr,
}

/// Driver and region, with the buffers that were laid out, in the course of submitting a request.
#[verifier::ext_equal]
pub struct Laying {
    pub drv: DriverState,
    pub mem: Seq<u8>,
    pub bufs: Seq<Buffer>,
    pub full: bool,
}

impl Laying {
    /// One part more: space for it, and its bytes, in a device-readable buffer.
    pub open spec fn with_part(self, part: Seq<u8>) -> Laying {
        let len = part.len() as u32;
        if part.len() > u32::MAX || !self.drv.arena_takes(len) {
            Laying { full: true, ..self }
        } else {
            match write_at(self.mem, self.drv.arena as int, part) {
                Ok(m) => Laying {
                    drv: self.drv.allocated(len),
                    mem: m,
                    bufs: self.bufs.push(
                        Buffer { addr: GuestAddr(self.drv.arena), len, device_writable: false },
                    ),
                    full: false,
                },
                Err(e) => Laying { drv: self.drv.allocated(len), full: true, ..self },
            }
        }
    }

    /// The parts laid out in order, as far as there is room.
    pub open spec fn with_parts(self, parts: Seq<Vec<u8>>) -> Laying
        decreases parts.len(),
    {
        if parts.len() == 0 {
            self
        } else {
            let before = self.with_parts(parts.drop_last());
            if before.full {
                before
            } else {
                before.with_part(parts.last()@)
            }
        }
    }
}

/// Nothing laid out yet.
pub open spec fn nothing_laid(drv: DriverState, m: Seq<u8>) -> Laying {
    Laying { drv, mem: m, bufs: Seq::empty(), full: false }
}

/// Room for the arithmetic of the arena: whatever is handed out ends far enough below 2^64 to be
/// rounded up.
pub open spec fn arena_bounded(d: DriverState) -> bool {
    d.arena_end <= u64::MAX - 7
}

/// What submitting a request comes to.
pub struct Submission {
    pub drv: DriverState,
    pub mem: Seq<u8>,
    pub result: Result<Submitted, SubmitError>,
}

/// A request of these parts, with room for a reply of `reply_len` bytes behind them, laid out and
/// published.
pub open spec fn submission(
    drv: DriverState,
    m: Seq<u8>,
    parts: Seq<Vec<u8>>,
    reply_len: u32,
) -> Submission {
    let l = nothing_laid(drv, m).with_parts(parts);
    if l.full || !l.drv.arena_takes(reply_len) {
        Submission { drv: l.drv, mem: l.mem, result: Err(SubmitError::Arena) }
    } else {
        let reply = GuestAddr(l.drv.arena);
        let p = l.drv.allocated(reply_len).publish(
            l.mem,
            l.bufs.push(Buffer { addr: reply, len: reply_len, device_writable: true }),
        );
        Submission {
            drv: p.drv,
            mem: p.mem,
            result: match p.result {
                Ok(head) => Ok(Submitted { head, reply }),
                Err(e) => Err(SubmitError::Driver(e)),
            },
        }
    }
}

/// Laying out parts changes nothing of the driver but its arena, and lays out readable buffers only.
proof fn lemma_laying_keeps(start: Laying, parts: Seq<Vec<u8>>)
    requires
        forall|i: int| 0 <= i < start.bufs.len() ==> !(#[trigger] start.bufs[i]).device_writable,
    ensures
        ({
            let l = start.with_parts(parts);
            &&& l.drv == (DriverState { arena: l.drv.arena, ..start.drv })
            &&& forall|i: int| 0 <= i < l.bufs.len() ==> !(#[trigger] l.bufs[i]).device_writable
        }),
    decreases parts.len(),
{
    if parts.len() > 0 {
        lemma_laying_keeps(start, parts.drop_last());
    }
}

/// Parts behind one that found no room are not laid out.
proof fn lemma_laying_stops(start: Laying, parts: Seq<Vec<u8>>, n: int)
    requires
        0 <= n <= parts.len(),
        start.with_parts(parts.take(n)).full,
    ensures
        start.with_parts(parts) == start.with_parts(parts.take(n)),
    decreases parts.len(),
{
    if n < parts.len() {
        assert(parts.drop_last().take(n) =~= parts.take(n));
        lemma_laying_stops(start, parts.drop_last(), n);
    } else {
        assert(parts.take(n) =~= parts);
    }
}

/// Submit a request: one device-readable buffer for each of its parts, which need not be contiguous,
/// and one device-writable buffer for the reply.
pub fn submit(
    driver: &mut Driver,
    mem: &mut SharedMem,
    parts: &Vec<Vec<u8>>,
    reply_len: u32,
) -> (r: Result<Submitted, SubmitError>)
    requires
        old(driver)@.wf(),
        old(driver)@.layout.desc_addressable(),
        old(driver)@.layout.avail_addressable(),
        arena_bounded(old(driver)@),
    ensures
        final(driver)@.wf(),
        (Submission { drv: final(driver)@, mem: final(mem)@, result: r }) == submission(
            old(driver)@,
            old(mem)@,
            parts@,
            reply_len,
        ),
{
    let ghost start = nothing_laid(driver@, mem@);
    let mut bufs: Vec<Buffer> = Vec::new();
    let mut i: usize = 0;
    assert(parts@.take(0) =~= Seq::empty());
    while i < parts.len()
        invariant
            i <= parts@.len(),
            start == nothing_laid(old(driver)@, old(mem)@),
            old(driver)@.wf(),
            arena_bounded(old(driver)@),
            start.with_parts(parts@.take(i as int)) == (Laying {
                drv: driver@,
                mem: mem@,
                bufs: bufs@,
                full: false,
            }),
        decreases parts@.len() - i,
    {
        proof {
            assert(parts@.take(i + 1).drop_last() =~= parts@.take(i as int));
            assert(parts@.take(i + 1).last() == parts@[i as int]);
            lemma_laying_keeps(start, parts@.take(i as int));
            lemma_arena_room(driver@, parts@[i as int]@.len() as u32);
        }
        match driver.alloc_init(mem, parts[i].as_slice()) {
            Some(addr) => {
                let len: u32 = parts[i].len() as u32;
                bufs.push(Buffer { addr, len, device_writable: false });
            },
            None => {
                proof {
                    lemma_laying_keeps(start, parts@.take(i + 1));
                    lemma_laying_stops(start, parts@, i + 1);
                }
                return Err(SubmitError::Arena);
            },
        }
        i += 1;
    }
    proof {
        assert(parts@.take(i as int) =~= parts@);
        lemma_laying_keeps(start, parts@);
        lemma_arena_room(driver@, reply_len);
    }
    let reply = match driver.alloc_uninit(reply_len) {
        Some(addr) => addr,
        None => {
            return Err(SubmitError::Arena);
        },
    };
    bufs.push(Buffer { addr: reply, len: reply_len, device_writable: true });
    match driver.add_chain(mem, bufs.as_slice()) {
        Ok(head) => Ok(Submitted { head, reply }),
        Err(e) => Err(SubmitError::Driver(e)),
    }
}

/// What the arena hands out can be rounded up.
proof fn lemma_arena_room(d: DriverState, len: u32)
    requires
        arena_bounded(d),
    ensures
        d.arena_takes(len) ==> least_multiple(d.arena + len, 8) <= u64::MAX,
{
    lemma_least_multiple(d.arena + len, 8);
}

/// What was wrong with a round of requests.
#[derive(Debug, Clone, Copy, PartialEq, Eq, Structural)]
pub enum RoundError {
    /// A reply was not what it should have been.
    Mismatch,
    /// Not every descriptor came back.
    Leak,
    /// The device refused a well-formed chain.
    Rejected,
}

/// Check a round of requests that are all answered: that every reply matched, then that every
/// descriptor of the queue is free again, then that the device refused nothing.
pub fn check_round(
    all_matched: bool,
    driver: &Driver,
    stats: &ProcessStats,
) -> (r: Result<(), RoundError>)
    ensures
        r == if !all_matched {
            Err::<(), RoundError>(RoundError::Mismatch)
        } else if driver@.free.len() != driver@.layout.queue_size {
            Err::<(), RoundError>(RoundError::Leak)
        } else if stats@.rejected.len() != 0 {
            Err::<(), RoundError>(RoundError::Rejected)
        } else {
            Ok::<(), RoundError>(())
        },
{
    if !all_matched {
        return Err(RoundError::Mismatch);
    }
    if driver.free_descriptors() != driver.queue_size() as usize {
        return Err(RoundError::Leak);
    }
    if stats.errors() != 0 {
        return Err(RoundError::Rejected);
    }
    Ok(())
}

} // verus!
