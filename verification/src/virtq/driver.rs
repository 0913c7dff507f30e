//! The driver side of the virtqueue: the half that lives inside the guest.
//!
//! The notification-suppression logic is a negotiation - each side publishes a threshold the other
//! reads - and the driver's decision to kick is the same function as the device's decision to
//! interrupt, with the two rings swapped.

use crate::le::{encode_u64, le_bytes, lemma_le_bytes_len};
use crate::virtq::layout::{
    align_up, crossed, law_fields_inside_parts, least_multiple, lemma_least_multiple, need_event,
    wrap, Descriptor, VirtqLayout, VIRTQ_DESC_F_NEXT, VIRTQ_DESC_F_WRITE,
};
use crate::virtq::mem::{stored, u16_at, u32_at, write_at, GuestAddr, MemError, SharedMem};
use std::collections::HashMap;
use vstd::prelude::*;

verus! {

broadcast use vstd::std_specs::hash::group_hash_axioms;

/// One buffer the driver wants in a chain.
#[derive(Debug, Clone, Copy)]
pub struct Buffer {
    pub addr: GuestAddr,
    pub len: u32,
    /// True if the device may write here. The driver is making a promise about its own memory.
    pub device_writable: bool,
}

#[derive(Debug, Clone, Copy, PartialEq, Eq, Structural)]
pub enum DriverError {
    OutOfDescriptors,
    Mem(MemError),
}

impl From<MemError> for DriverError {
    fn from(e: MemError) -> (r: Self) {
        DriverError::Mem(e)
    }
}

impl vstd::std_specs::convert::FromSpecImpl<MemError> for DriverError {
    open spec fn obeys_from_spec() -> bool {
        true
    }

    open spec fn from_spec(e: MemError) -> Self {
        DriverError::Mem(e)
    }
}

/// The driver half of one virtqueue, plus a bump allocator for buffers.
pub struct Driver {
    pub layout: VirtqLayout,
    pub ledger: Ledger,
}

/// What a driver keeps to itself: its counters, the descriptors and the arena.
pub struct Ledger {
    /// Free-running count of chains published. This is `avail.idx`.
    avail_idx: u16,
    /// The value of `avail.idx` at the previous notification decision.
    last_kick: u16,
    /// Free-running count of completions collected. Compared against the device's `used.idx`.
    last_used: u16,
    /// Descriptor table slots not currently in use.
    free_descs: Vec<u16>,
    /// Chains published but not yet completed, keyed by head index, holding the descriptors to
    /// return to the free list: the used ring gives back only the head.
    outstanding: HashMap<u16, Vec<u16>>,
    /// Bump pointer for buffer space, which begins after the rings.
    arena: u64,
    arena_end: u64,
    event_idx: bool,
}

/// What a driver knows.
#[verifier::ext_equal]
pub struct DriverState {
    pub layout: VirtqLayout,
    pub avail_idx: u16,
    pub last_kick: u16,
    pub last_used: u16,
    /// The free list; the next descriptor to hand out is its last.
    pub free: Seq<u16>,
    /// The descriptors of each chain in flight, by its head.
    pub outstanding: Map<u16, Seq<u16>>,
    pub arena: u64,
    pub arena_end: u64,
    pub event_idx: bool,
}

impl View for Driver {
    type V = DriverState;

    open spec fn view(&self) -> DriverState {
        DriverState { layout: self.layout, ..self.ledger@ }
    }
}

impl View for Ledger {
    type V = DriverState;

    /// The driver of a queue that is laid out in no way in particular.
    closed spec fn view(&self) -> DriverState {
        DriverState {
            layout: arbitrary(),
            avail_idx: self.avail_idx,
            last_kick: self.last_kick,
            last_used: self.last_used,
            free: self.free_descs@,
            outstanding: self.outstanding@.map_values(|v: Vec<u16>| v@),
            arena: self.arena,
            arena_end: self.arena_end,
            event_idx: self.event_idx,
        }
    }
}

/// Descriptor `i` belongs to the chain in flight that is filed under `k`.
pub open spec fn in_flight(outstanding: Map<u16, Seq<u16>>, k: u16, i: u16) -> bool {
    outstanding.contains_key(k) && outstanding[k].contains(i)
}

/// No descriptor is lost and none is handed out twice: every one of a table of `size` is either on
/// the free list, once, or in exactly one chain in flight, once; and a chain in flight is filed
/// under its first descriptor.
#[verifier::opaque]
pub open spec fn accounted(free: Seq<u16>, outstanding: Map<u16, Seq<u16>>, size: u16) -> bool {
    &&& free.no_duplicates()
    &&& forall|j: int| 0 <= j < free.len() ==> #[trigger] free[j] < size
    &&& forall|k: u16| #[trigger]
        outstanding.contains_key(k) ==> outstanding[k].len() > 0 && outstanding[k][0] == k
            && outstanding[k].no_duplicates()
    &&& forall|k: u16, i: u16| #[trigger]
        in_flight(outstanding, k, i) ==> i < size && !free.contains(i)
    &&& forall|k: u16, j: u16, i: u16| #[trigger]
        in_flight(outstanding, k, i) && #[trigger] in_flight(outstanding, j, i) ==> k == j
    &&& forall|i: u16|
        i < size && !(#[trigger] free.contains(i)) ==> exists|k: u16| #[trigger]
            in_flight(outstanding, k, i)
}

impl DriverState {
    /// The account of the descriptors is in order.
    pub open spec fn wf(self) -> bool {
        accounted(self.free, self.outstanding, self.layout.queue_size)
    }
}

impl Driver {
    /// A driver with every descriptor free. They are handed out as 0, 1, 2 and so on.
    pub fn new(layout: VirtqLayout, arena_end: u64, event_idx: bool) -> (r: Self)
        requires
            layout.desc_table.0 <= layout.used_ring.0 + layout.used_bytes(),
            least_multiple(layout.used_ring.0 + layout.used_bytes(), 16) <= u64::MAX,
        ensures
            r@ == (DriverState {
                layout,
                avail_idx: 0,
                last_kick: 0,
                last_used: 0,
                free: Seq::new(
                    layout.queue_size as nat,
                    |j: int| (layout.queue_size - 1 - j) as u16,
                ),
                outstanding: Map::empty(),
                arena: least_multiple(layout.used_ring.0 + layout.used_bytes(), 16) as u64,
                arena_end,
                event_idx,
            }),
            r@.wf(),
    {
        proof {
            lemma_least_multiple(layout.used_ring.0 + layout.used_bytes(), 16);
        }
        let mut free_descs: Vec<u16> = Vec::new();
        let mut left: u16 = layout.queue_size;
        while left > 0
            invariant
                left <= layout.queue_size,
                free_descs@ =~= Seq::new(
                    (layout.queue_size - left) as nat,
                    |j: int| (layout.queue_size - 1 - j) as u16,
                ),
            decreases left,
        {
            left -= 1;
            free_descs.push(left);
        }
        let ledger = Ledger {
            avail_idx: 0,
            last_kick: 0,
            last_used: 0,
            free_descs,
            outstanding: HashMap::new(),
            arena: align_up(layout.end().0, 16),
            arena_end,
            event_idx,
        };
        let r = Driver { layout, ledger };
        proof {
            reveal(accounted);
            let f = r@.free;
            assert(r@.outstanding =~= Map::<u16, Seq<u16>>::empty());
            assert forall|i: u16| i < layout.queue_size implies #[trigger] f.contains(i) by {
                assert(f[layout.queue_size - 1 - i] == i);
            }
        }
        r
    }

    pub fn avail_idx(&self) -> (r: u16)
        ensures
            r == self@.avail_idx,
    {
        self.ledger.avail_idx
    }

    pub(crate) fn queue_size(&self) -> (r: u16)
        ensures
            r == self@.layout.queue_size,
    {
        self.layout.queue_size
    }

    pub fn free_descriptors(&self) -> (r: usize)
        ensures
            r == self@.free.len(),
    {
        self.ledger.free_descs.len()
    }
}

impl DriverState {
    /// Where the next buffer of `len` bytes would go, if the arena has room for it.
    pub open spec fn arena_takes(self, len: u32) -> bool {
        self.arena + len <= self.arena_end
    }

    /// The driver after it handed out `len` bytes: the next buffer starts at a multiple of eight.
    pub open spec fn allocated(self, len: u32) -> DriverState {
        DriverState { arena: least_multiple(self.arena + len, 8) as u64, ..self }
    }
}

impl Driver {
    /// Allocate buffer space for `data` and fill it. A buffer has less than 2^32 bytes, so longer
    /// data gets none. The space is lost if `data` does not go in.
    pub fn alloc_init(&mut self, mem: &mut SharedMem, data: &[u8]) -> (r: Option<GuestAddr>)
        requires
            data@.len() <= u32::MAX && old(self)@.arena_takes(data@.len() as u32)
                ==> least_multiple(old(self)@.arena + data@.len(), 8) <= u64::MAX,
        ensures
            ({
                let len = data@.len() as u32;
                if data@.len() > u32::MAX || !old(self)@.arena_takes(len) {
                    r is None && final(self)@ == old(self)@ && final(mem)@ == old(mem)@
                } else {
                    &&& final(self)@ == old(self)@.allocated(len)
                    &&& match write_at(old(mem)@, old(self)@.arena as int, data@) {
                        Ok(m) => r == Some(GuestAddr(old(self)@.arena)) && final(mem)@ == m,
                        Err(e) => r is None && final(mem)@ == old(mem)@,
                    }
                }
            }),
    {
        if data.len() as u64 > u32::MAX as u64 {
            return None;
        }
        let len: u32 = data.len() as u32;
        let addr = match self.alloc_uninit(len) {
            Some(a) => a,
            None => {
                return None;
            },
        };
        match mem.write_slice(addr, data) {
            Ok(()) => Some(addr),
            Err(_) => None,
        }
    }

    /// Allocate `len` bytes without initialising them - for buffers the device will fill.
    pub fn alloc_uninit(&mut self, len: u32) -> (r: Option<GuestAddr>)
        requires
            old(self)@.arena_takes(len) ==> least_multiple(old(self)@.arena + len, 8) <= u64::MAX,
        ensures
            r == if old(self)@.arena_takes(len) {
                Some(GuestAddr(old(self)@.arena))
            } else {
                None
            },
            final(self)@ == if old(self)@.arena_takes(len) {
                old(self)@.allocated(len)
            } else {
                old(self)@
            },
    {
        let addr: u64 = self.ledger.arena;
        let end: u64 = match addr.checked_add(len as u64) {
            Some(end) => end,
            None => {
                return None;
            },
        };
        if end > self.ledger.arena_end {
            return None;
        }
        self.ledger.arena = align_up(end, 8);
        Some(GuestAddr(addr))
    }

    /// Should the driver kick the device?
    ///
    /// The mirror image of the device's `needs_notification`, using `avail_event` instead of
    /// `used_event` and the avail counter instead of the used one.
    pub fn needs_kick(&mut self, mem: &SharedMem) -> (r: Result<bool, MemError>)
        requires
            old(self)@.event_idx ==> old(self)@.layout.avail_event_addr() <= u64::MAX,
        ensures
            r == old(self)@.kick_due(mem@),
            final(self)@ == (DriverState { last_kick: old(self)@.avail_idx, ..old(self)@ }),
    {
        let new: u16 = self.ledger.avail_idx;
        let last: u16 = self.ledger.last_kick;
        self.ledger.last_kick = new;
        if !self.ledger.event_idx {
            return Ok(true);
        }
        match mem.load_relaxed(self.layout.avail_event()) {
            Ok(avail_event) => Ok(need_event(avail_event, new, last)),
            Err(e) => Err(e),
        }
    }

    /// Tell the device which completion to interrupt us on: the next one.
    pub fn arm_used_event(&self, mem: &mut SharedMem) -> (r: Result<(), MemError>)
        requires
            self@.layout.used_event_addr() <= u64::MAX,
        ensures
            stored(
                old(mem)@,
                self@.layout.used_event_addr(),
                le_bytes(self@.last_used as nat, 2),
                final(mem)@,
                r,
            ),
    {
        mem.write_u16(self.layout.used_event(), self.ledger.last_used)
    }
}

impl DriverState {
    /// Whether the device is owed a kick for the chains since the last decision.
    pub open spec fn kick_due(self, m: Seq<u8>) -> Result<bool, MemError> {
        if !self.event_idx {
            Ok(true)
        } else {
            match u16_at(m, self.layout.avail_event_addr()) {
                Ok(event) => Ok(crossed(event, self.avail_idx, self.last_kick)),
                Err(e) => Err(e),
            }
        }
    }
}

/// The completion that was published when the counter stood at `i`: the head of a chain and how
/// many bytes the device wrote into it. Of the 32-bit `id` the low sixteen bits count.
pub open spec fn completion_at(m: Seq<u8>, l: VirtqLayout, i: u16) -> Result<(u16, u32), MemError> {
    match u32_at(m, l.used_elem_addr(i as int)) {
        Err(e) => Err(e),
        Ok(id) => match u32_at(m, l.used_elem_addr(i as int) + 4) {
            Err(e) => Err(e),
            Ok(len) => Ok(((id % 0x1_0000) as u16, len)),
        },
    }
}

/// What collecting completions comes to.
#[verifier::ext_equal]
pub struct Collected {
    pub drv: DriverState,
    pub out: Seq<(u16, u32)>,
    pub error: Option<MemError>,
}

impl DriverState {
    /// The driver after the chain of head `id`, if it has one in flight, came back: all its
    /// descriptors are free again.
    pub open spec fn reclaimed(self, id: u16) -> DriverState {
        if self.outstanding.contains_key(id) {
            DriverState {
                free: self.free + self.outstanding[id],
                outstanding: self.outstanding.remove(id),
                ..self
            }
        } else {
            self
        }
    }

    /// The next `n` completions in order. One that cannot be read ends it.
    pub open spec fn collect(self, m: Seq<u8>, n: nat) -> Collected
        decreases n,
    {
        if n == 0 {
            Collected { drv: self, out: Seq::empty(), error: None }
        } else {
            let c = self.collect(m, (n - 1) as nat);
            if c.error is Some {
                c
            } else {
                match completion_at(m, self.layout, c.drv.last_used) {
                    Err(e) => Collected { error: Some(e), ..c },
                    Ok(done) => Collected {
                        drv: DriverState {
                            last_used: wrap(c.drv.last_used + 1) as u16,
                            ..c.drv.reclaimed(done.0)
                        },
                        out: c.out.push(done),
                        error: None,
                    },
                }
            }
        }
    }
}

/// Taking a chain back keeps the account of the descriptors.
pub proof fn lemma_reclaimed_wf(d: DriverState, id: u16)
    requires
        d.wf(),
    ensures
        d.reclaimed(id).wf(),
{
    reveal(accounted);
    let r = d.reclaimed(id);
    if d.outstanding.contains_key(id) {
        let chain = d.outstanding[id];
        assert forall|i: int| 0 <= i < chain.len() implies in_flight(d.outstanding, id, #[trigger] chain[i]) by {}
        assert forall|i: int, j: int|
            0 <= i < j < r.free.len() implies r.free[i] != r.free[j] by {
            if j >= d.free.len() {
                assert(r.free[j] == chain[j - d.free.len()]);
                assert(in_flight(d.outstanding, id, chain[j - d.free.len()]));
                if i >= d.free.len() {
                    assert(r.free[i] == chain[i - d.free.len()]);
                } else {
                    assert(d.free.contains(d.free[i]));
                }
            }
        }
        assert forall|j: int|
            0 <= j < r.free.len() implies #[trigger] r.free[j] < r.layout.queue_size by {
            if j >= d.free.len() {
                assert(in_flight(d.outstanding, id, chain[j - d.free.len()]));
            }
        }
        assert forall|k: u16, i: u16| #[trigger]
            in_flight(r.outstanding, k, i) implies i < r.layout.queue_size && !r.free.contains(i) by {
            assert(in_flight(d.outstanding, k, i));
            if r.free.contains(i) {
                let j = choose|j: int| 0 <= j < r.free.len() && r.free[j] == i;
                if j < d.free.len() {
                    assert(d.free.contains(i));
                } else {
                    assert(chain[j - d.free.len()] == i);
                    assert(in_flight(d.outstanding, id, i));
                }
            }
        }
        assert forall|k: u16, j: u16, i: u16| #[trigger]
            in_flight(r.outstanding, k, i) && #[trigger] in_flight(r.outstanding, j, i) implies k == j by {
            assert(in_flight(d.outstanding, k, i) && in_flight(d.outstanding, j, i));
        }
        assert forall|i: u16|
            i < r.layout.queue_size && !(#[trigger] r.free.contains(i)) implies exists|k: u16|
            #[trigger] in_flight(r.outstanding, k, i) by {
            if d.free.contains(i) {
                let j = choose|j: int| 0 <= j < d.free.len() && d.free[j] == i;
                assert(r.free[j] == i);
            }
            let k = choose|k: u16| #[trigger] in_flight(d.outstanding, k, i);
            if k == id {
                let j = choose|j: int| 0 <= j < chain.len() && chain[j] == i;
                assert(r.free[d.free.len() + j] == i);
            }
            assert(in_flight(r.outstanding, k, i));
        }
    }
}

/// Collecting keeps the account of the descriptors, the layout and what is not about completions.
pub proof fn lemma_collect_wf(d: DriverState, m: Seq<u8>, n: nat)
    requires
        d.wf(),
    ensures
        d.collect(m, n).drv.wf(),
        d.collect(m, n).drv.layout == d.layout,
        d.collect(m, n).drv.avail_idx == d.avail_idx,
        d.collect(m, n).drv.last_kick == d.last_kick,
        d.collect(m, n).drv.event_idx == d.event_idx,
        d.collect(m, n).out.len() <= n,
        d.collect(m, n).error is None ==> d.collect(m, n).out.len() == n,
        d.collect(m, n).drv.last_used == wrap(d.last_used + d.collect(m, n).out.len()),
    decreases n,
{
    if n > 0 {
        lemma_collect_wf(d, m, (n - 1) as nat);
        let c = d.collect(m, (n - 1) as nat);
        match completion_at(m, d.layout, c.drv.last_used) {
            Ok(done) => {
                lemma_reclaimed_wf(c.drv, done.0);
            },
            Err(e) => {},
        }
    }
}

/// What `collect` comes to over `n` completions, said of its parts.
#[verifier::opaque]
spec fn collected(
    d: DriverState,
    m: Seq<u8>,
    n: nat,
    drv: DriverState,
    out: Seq<(u16, u32)>,
    error: Option<MemError>,
) -> bool {
    d.collect(m, n) == (Collected { drv, out, error })
}

proof fn lemma_collected_more(
    d: DriverState,
    m: Seq<u8>,
    n: nat,
    drv: DriverState,
    out: Seq<(u16, u32)>,
)
    requires
        collected(d, m, n, drv, out, None),
        drv.layout == d.layout,
        completion_at(m, d.layout, drv.last_used) is Ok,
    ensures
        ({
            let done = completion_at(m, d.layout, drv.last_used)->Ok_0;
            collected(
                d,
                m,
                n + 1,
                DriverState {
                    last_used: wrap(drv.last_used + 1) as u16,
                    ..drv.reclaimed(done.0)
                },
                out.push(done),
                None,
            )
        }),
{
    reveal(collected);
}

proof fn lemma_collected_error(
    d: DriverState,
    m: Seq<u8>,
    n: nat,
    total: nat,
    drv: DriverState,
    out: Seq<(u16, u32)>,
)
    requires
        collected(d, m, n, drv, out, None),
        n < total,
        drv.layout == d.layout,
        completion_at(m, d.layout, drv.last_used) is Err,
    ensures
        collected(
            d,
            m,
            total,
            drv,
            out,
            Some(completion_at(m, d.layout, drv.last_used)->Err_0),
        ),
{
    reveal(collected);
    lemma_collect_error_stays(d, m, n + 1, total);
}

proof fn lemma_collected(
    d: DriverState,
    m: Seq<u8>,
    n: nat,
    drv: DriverState,
    out: Seq<(u16, u32)>,
    error: Option<MemError>,
)
    requires
        d.wf(),
        collected(d, m, n, drv, out, error),
    ensures
        drv.wf(),
        d.collect(m, n) == (Collected { drv, out, error }),
{
    reveal(collected);
    lemma_collect_wf(d, m, n);
}

impl Driver {
    /// Take the chain of head `id` back, if it is in flight.
    fn reclaim(&mut self, id: u16)
        ensures
            final(self)@ == old(self)@.reclaimed(id),
    {
        match self.ledger.outstanding.remove(&id) {
            Some(mut descs) => {
                self.ledger.free_descs.append(&mut descs);
            },
            None => {},
        }
        assert(self@.outstanding =~= old(self)@.reclaimed(id).outstanding);
    }

    /// Collect the next completion.
    fn collect_one(&mut self, mem: &SharedMem) -> (r: Result<(u16, u32), MemError>)
        requires
            old(self)@.layout.used_addressable(),
        ensures
            r == completion_at(mem@, old(self)@.layout, old(self)@.last_used),
            final(self)@ == match r {
                Ok(done) => DriverState {
                    last_used: wrap(old(self)@.last_used + 1) as u16,
                    ..old(self)@.reclaimed(done.0)
                },
                Err(_) => old(self)@,
            },
    {
        proof {
            law_fields_inside_parts(self.layout, self.ledger.last_used as int);
        }
        let (id_addr, len_addr) = self.layout.used_slot(self.ledger.last_used);
        let id: u16 = match mem.read_u32(id_addr) {
            Ok(v) => (v % 0x1_0000) as u16,
            Err(e) => {
                return Err(e);
            },
        };
        let len: u32 = match mem.read_u32(len_addr) {
            Ok(v) => v,
            Err(e) => {
                return Err(e);
            },
        };
        self.reclaim(id);
        self.ledger.last_used = self.ledger.last_used.wrapping_add(1);
        Ok((id, len))
    }

    /// Collect every completion the device has published since the last call.
    ///
    /// Returns `(head_index, bytes_written)` per completion, and frees the descriptors of the whole
    /// chain: the used ring reports only the head.
    pub fn collect_used(&mut self, mem: &SharedMem) -> (r: Result<Vec<(u16, u32)>, MemError>)
        requires
            old(self)@.layout.used_addressable(),
            old(self)@.wf(),
        ensures
            final(self)@.wf(),
            match u16_at(mem@, old(self)@.layout.used_ring.0 + 2) {
                Err(e) => r matches Err(f) && f == e && final(self)@ == old(self)@,
                Ok(idx) => {
                    let c = old(self)@.collect(mem@, wrap(idx - old(self)@.last_used) as nat);
                    &&& final(self)@ == c.drv
                    &&& match c.error {
                        None => r matches Ok(out) && out@ == c.out,
                        Some(e) => r matches Err(f) && f == e,
                    }
                },
            },
    {
        let used_idx: u16 = match mem.load_idx_acquire(self.layout.used_idx()) {
            Ok(v) => v,
            Err(e) => {
                return Err(e);
            },
        };
        let ghost total = wrap(used_idx - self.ledger.last_used) as nat;
        let ghost mut n: nat = 0;
        let mut out: Vec<(u16, u32)> = Vec::new();
        proof {
            reveal(collected);
        }
        while self.ledger.last_used != used_idx
            invariant
                old(self)@.wf(),
                old(self)@.layout.used_addressable(),
                self@.layout == old(self)@.layout,
                u16_at(mem@, old(self)@.layout.used_ring.0 + 2) == Ok::<u16, MemError>(used_idx),
                total == wrap(used_idx - old(self)@.last_used),
                n <= total,
                wrap(used_idx - self.ledger.last_used) == total - n,
                collected(old(self)@, mem@, n, self@, out@, None),
            decreases total - n,
        {
            let ghost before = self@;
            let ghost sofar = out@;
            match self.collect_one(mem) {
                Ok(done) => {
                    proof {
                        lemma_collected_more(old(self)@, mem@, n, before, sofar);
                    }
                    out.push(done);
                },
                Err(e) => {
                    proof {
                        lemma_collected_error(old(self)@, mem@, n, total, before, sofar);
                        lemma_collected(old(self)@, mem@, total, self@, out@, Some(e));
                    }
                    return Err(e);
                },
            }
            proof {
                n = n + 1;
            }
        }
        proof {
            lemma_collected(old(self)@, mem@, total, self@, out@, None);
        }
        Ok(out)
    }
}

/// Once a completion could not be read, asking for more changes nothing.
proof fn lemma_collect_error_stays(d: DriverState, m: Seq<u8>, n: nat, more: nat)
    requires
        n <= more,
    ensures
        d.collect(m, n).error is Some ==> d.collect(m, more) == d.collect(m, n),
    decreases more,
{
    if n < more {
        lemma_collect_error_stays(d, m, n, (more - 1) as nat);
    }
}

/// What a run of stores comes to: the region, and the refusal that ended it, if any.
#[verifier::ext_equal]
pub struct Stores {
    pub mem: Seq<u8>,
    pub error: Option<MemError>,
}

/// The stores made in order, up to the first that is refused.
pub open spec fn store_all(m: Seq<u8>, stores: Seq<(int, Seq<u8>)>) -> Stores
    decreases stores.len(),
{
    if stores.len() == 0 {
        Stores { mem: m, error: None }
    } else {
        let s = store_all(m, stores.drop_last());
        if s.error is Some {
            s
        } else {
            match write_at(s.mem, stores.last().0, stores.last().1) {
                Ok(m1) => Stores { mem: m1, error: None },
                Err(e) => Stores { mem: s.mem, error: Some(e) },
            }
        }
    }
}

/// The four fields of descriptor `d` at `at`.
pub open spec fn desc_stores(at: int, d: Descriptor) -> Seq<(int, Seq<u8>)> {
    seq![
        (at, le_bytes(d.addr as nat, 8)),
        (at + 8, le_bytes(d.len as nat, 4)),
        (at + 12, le_bytes(d.flags as nat, 2)),
        (at + 14, le_bytes(d.next as nat, 2)),
    ]
}

/// The descriptor of buffer `i` of a chain over the table entries `indices`: it carries the
/// buffer's direction, and all but the last name the entry of the next.
pub open spec fn link(bufs: Seq<Buffer>, indices: Seq<u16>, i: int) -> Descriptor {
    let last = i + 1 == bufs.len();
    let write = if bufs[i].device_writable {
        VIRTQ_DESC_F_WRITE
    } else {
        0
    };
    let next = if last {
        0
    } else {
        VIRTQ_DESC_F_NEXT
    };
    Descriptor {
        addr: bufs[i].addr.0,
        len: bufs[i].len,
        flags: (write + next) as u16,
        next: if last {
            0
        } else {
            indices[i + 1]
        },
    }
}

/// The fields of the first `n` descriptors of a chain, in table order of `indices`.
pub open spec fn chain_stores(
    l: VirtqLayout,
    bufs: Seq<Buffer>,
    indices: Seq<u16>,
    n: nat,
) -> Seq<(int, Seq<u8>)>
    decreases n,
{
    if n == 0 {
        Seq::empty()
    } else {
        chain_stores(l, bufs, indices, (n - 1) as nat) + desc_stores(
            l.desc_addr(indices[n - 1] as int),
            link(bufs, indices, n - 1),
        )
    }
}

/// All device-readable buffers come before all device-writable ones (VIRTIO 1.2, 2.7.5.3).
pub open spec fn readable_first(bufs: Seq<Buffer>) -> bool {
    forall|i: int, j: int|
        0 <= i < j < bufs.len() && (#[trigger] bufs[i]).device_writable ==> (
        #[trigger] bufs[j]).device_writable
}

/// What publishing a chain comes to.
pub struct Published {
    pub drv: DriverState,
    pub mem: Seq<u8>,
    pub result: Result<u16, DriverError>,
}

impl DriverState {
    /// The next `n` descriptors that the free list hands out.
    pub open spec fn next_descs(self, n: nat) -> Seq<u16> {
        Seq::new(n, |i: int| self.free[self.free.len() - 1 - i])
    }

    /// The driver once a chain of the next `n` descriptors is in flight.
    pub open spec fn reserved(self, n: nat) -> DriverState {
        DriverState {
            free: self.free.take(self.free.len() - n),
            outstanding: self.outstanding.insert(self.next_descs(n)[0], self.next_descs(n)),
            ..self
        }
    }

    /// Publishing a chain over `bufs`: the descriptors, then the ring slot of this position, then
    /// the index, which alone makes the chain visible. A refused store leaves what came before it,
    /// and the descriptors in flight.
    pub open spec fn publish(self, m: Seq<u8>, bufs: Seq<Buffer>) -> Published {
        let n = bufs.len();
        if n > self.free.len() {
            Published { drv: self, mem: m, result: Err(DriverError::OutOfDescriptors) }
        } else {
            let indices = self.next_descs(n);
            let head = indices[0];
            let slot = (
                self.layout.avail_slot_addr(self.avail_idx as int),
                le_bytes(head as nat, 2),
            );
            let s = store_all(m, chain_stores(self.layout, bufs, indices, n).push(slot));
            match s.error {
                Some(e) => Published {
                    drv: self.reserved(n),
                    mem: s.mem,
                    result: Err(DriverError::Mem(e)),
                },
                None => {
                    let idx = wrap(self.avail_idx + 1) as u16;
                    let drv = DriverState { avail_idx: idx, ..self.reserved(n) };
                    match write_at(s.mem, self.layout.avail_ring.0 + 2, le_bytes(idx as nat, 2)) {
                        Err(e) => Published {
                            drv,
                            mem: s.mem,
                            result: Err(DriverError::Mem(e)),
                        },
                        Ok(m1) => Published { drv, mem: m1, result: Ok(head) },
                    }
                },
            }
        }
    }
}

/// Stores one behind the other are the first run, then the second on what it left.
pub proof fn lemma_store_all_append(
    m: Seq<u8>,
    a: Seq<(int, Seq<u8>)>,
    b: Seq<(int, Seq<u8>)>,
)
    ensures
        store_all(m, a + b) == if store_all(m, a).error is Some {
            store_all(m, a)
        } else {
            store_all(store_all(m, a).mem, b)
        },
    decreases b.len(),
{
    if b.len() == 0 {
        assert(a + b =~= a);
    } else {
        lemma_store_all_append(m, a, b.drop_last());
        assert((a + b).drop_last() =~= a + b.drop_last());
        assert((a + b).last() == b.last());
    }
}

pub(crate) fn write_descriptor(mem: &mut SharedMem, at: GuestAddr, d: Descriptor) -> (r: Result<
    (),
    MemError,
>)
    ensures
        final(mem)@ == store_all(old(mem)@, desc_stores(at.0 as int, d)).mem,
        match store_all(old(mem)@, desc_stores(at.0 as int, d)).error {
            Some(e) => r == Err::<(), MemError>(e),
            None => r == Ok::<(), MemError>(()),
        },
{
    proof {
        let ws = desc_stores(at.0 as int, d);
        reveal_with_fuel(store_all, 5);
        assert(ws.drop_last() =~= ws.take(3));
        assert(ws.take(3).drop_last() =~= ws.take(2));
        assert(ws.take(2).drop_last() =~= ws.take(1));
        assert(ws.take(1).drop_last() =~= Seq::<(int, Seq<u8>)>::empty());
        lemma_le_bytes_len(d.addr as nat, 8);
        lemma_le_bytes_len(d.len as nat, 4);
        lemma_le_bytes_len(d.flags as nat, 2);
    }
    // Each field that goes in ends at or below the end of the region, so the next address fits.
    let _region_len: u64 = mem.len();
    match mem.write_slice(at, &encode_u64(d.addr)) {
        Ok(()) => {},
        Err(e) => {
            return Err(e);
        },
    }
    match mem.write_u32(GuestAddr(at.0 + 8), d.len) {
        Ok(()) => {},
        Err(e) => {
            return Err(e);
        },
    }
    match mem.write_u16(GuestAddr(at.0 + 12), d.flags) {
        Ok(()) => {},
        Err(e) => {
            return Err(e);
        },
    }
    mem.write_u16(GuestAddr(at.0 + 14), d.next)
}

/// Handing out descriptors keeps the account of them.
pub proof fn lemma_reserved_wf(d: DriverState, n: nat)
    requires
        d.wf(),
        1 <= n <= d.free.len(),
    ensures
        d.reserved(n).wf(),
        forall|i: int| 0 <= i < n ==> #[trigger] d.next_descs(n)[i] < d.layout.queue_size,
        d.next_descs(n).no_duplicates(),
        !d.outstanding.contains_key(d.next_descs(n)[0]),
{
    reveal(accounted);
    let r = d.reserved(n);
    let chain = d.next_descs(n);
    let head = chain[0];
    let kept = d.free.len() - n;
    assert(d.free.contains(head)) by {
        assert(d.free[d.free.len() - 1] == head);
    }
    if d.outstanding.contains_key(head) {
        assert(d.outstanding[head].contains(head)) by {
            assert(d.outstanding[head][0] == head);
        }
        assert(in_flight(d.outstanding, head, head));
    }
    assert forall|i: int, j: int| 0 <= i < n && 0 <= j < n && i != j implies chain[i] != chain[j] by {
        assert(d.free[d.free.len() - 1 - i] != d.free[d.free.len() - 1 - j]);
    }
    assert forall|k: u16, i: u16| in_flight(r.outstanding, k, i) implies if k == head {
        chain.contains(i)
    } else {
        in_flight(d.outstanding, k, i)
    } by {}
    assert forall|i: u16| #[trigger] chain.contains(i) implies d.free.contains(i)
        && !r.free.contains(i) && i < d.layout.queue_size by {
        let j = choose|j: int| 0 <= j < n && chain[j] == i;
        assert(d.free[d.free.len() - 1 - j] == i);
        if r.free.contains(i) {
            let t = choose|t: int| 0 <= t < kept && r.free[t] == i;
            assert(d.free[t] == i);
        }
    }
    assert forall|i: u16| #[trigger] r.free.contains(i) implies d.free.contains(i) by {
        let t = choose|t: int| 0 <= t < kept && r.free[t] == i;
        assert(d.free[t] == i);
    }
    assert forall|k: u16, i: u16| #[trigger]
        in_flight(r.outstanding, k, i) implies i < r.layout.queue_size && !r.free.contains(i) by {
        if k != head {
            assert(in_flight(d.outstanding, k, i));
        }
    }
    assert forall|k: u16, j: u16, i: u16| #[trigger]
        in_flight(r.outstanding, k, i) && #[trigger] in_flight(
            r.outstanding,
            j,
            i,
        ) implies k == j by {
        if k != head && j != head {
            assert(in_flight(d.outstanding, k, i) && in_flight(d.outstanding, j, i));
        } else if k == head && j != head {
            assert(in_flight(d.outstanding, j, i));
            assert(chain.contains(i));
        } else if k != head {
            assert(in_flight(d.outstanding, k, i));
            assert(chain.contains(i));
        }
    }
    assert forall|i: u16|
        i < r.layout.queue_size && !(#[trigger] r.free.contains(i)) implies exists|k: u16|
        #[trigger] in_flight(r.outstanding, k, i) by {
        if d.free.contains(i) {
            let j = choose|j: int| 0 <= j < d.free.len() && d.free[j] == i;
            if j < kept {
                assert(r.free[j] == i);
            } else {
                assert(chain[d.free.len() - 1 - j] == i);
                assert(in_flight(r.outstanding, head, i));
            }
        } else {
            let k = choose|k: u16| #[trigger] in_flight(d.outstanding, k, i);
            if k == head {
                assert(in_flight(d.outstanding, head, head));
            }
            assert(in_flight(r.outstanding, k, i));
        }
    }
}

impl Driver {
    /// Put a chain of the next `n` descriptors in flight.
    fn reserve(&mut self, n: usize) -> (r: Vec<u16>)
        requires
            1 <= n <= old(self)@.free.len(),
        ensures
            r@ == old(self)@.next_descs(n as nat),
            final(self)@ == old(self)@.reserved(n as nat),
    {
        let total: usize = self.ledger.free_descs.len();
        let mut indices: Vec<u16> = Vec::new();
        let mut kept: Vec<u16> = Vec::new();
        let mut i: usize = 0;
        while i < n
            invariant
                i <= n <= total,
                self == old(self),
                total == self.ledger.free_descs@.len(),
                indices@ =~= old(self)@.next_descs(i as nat),
                kept@ == indices@,
            decreases n - i,
        {
            let d: u16 = self.ledger.free_descs[total - 1 - i];
            indices.push(d);
            kept.push(d);
            i += 1;
        }
        self.ledger.free_descs.truncate(total - n);
        self.ledger.outstanding.insert(indices[0], kept);
        assert(self@.outstanding =~= old(self)@.reserved(n as nat).outstanding);
        indices
    }

    /// Build a descriptor chain from `buffers` and make it available to the device.
    ///
    /// Returns the head descriptor index, which is the identifier the device will hand back in the
    /// used ring. Every descriptor is written first, then the avail ring slot; then comes the
    /// release fence, and only the bump of `avail.idx` behind it makes the chain visible.
    pub fn add_chain(&mut self, mem: &mut SharedMem, buffers: &[Buffer]) -> (r: Result<
        u16,
        DriverError,
    >)
        requires
            old(self)@.wf(),
            old(self)@.layout.desc_addressable(),
            old(self)@.layout.avail_addressable(),
            buffers@.len() > 0,
            buffers@.len() <= old(self)@.free.len() ==> readable_first(buffers@),
        ensures
            final(self)@.wf(),
            (Published { drv: final(self)@, mem: final(mem)@, result: r }) == old(self)@.publish(
                old(mem)@,
                buffers@,
            ),
    {
        if buffers.len() > self.ledger.free_descs.len() {
            return Err(DriverError::OutOfDescriptors);
        }
        let ghost n = buffers@.len();
        proof {
            lemma_reserved_wf(self@, n);
            law_fields_inside_parts(self.layout, self.ledger.avail_idx as int);
        }
        let indices = self.reserve(buffers.len());
        let head: u16 = indices[0];
        let ghost slot = (
            self.layout.avail_slot_addr(self.ledger.avail_idx as int),
            le_bytes(head as nat, 2),
        );
        let ghost all = chain_stores(self.layout, buffers@, indices@, n);
        let mut i: usize = 0;
        while i < buffers.len()
            invariant
                self@ == old(self)@.reserved(n),
                self@.wf(),
                self@.layout.desc_addressable(),
                n == buffers@.len(),
                n > 0,
                n <= old(self)@.free.len(),
                i <= n,
                indices@ == old(self)@.next_descs(n),
                forall|j: int| 0 <= j < n ==> #[trigger] indices@[j] < self@.layout.queue_size,
                all == chain_stores(self@.layout, buffers@, indices@, n),
                slot == (
                    self@.layout.avail_slot_addr(self@.avail_idx as int),
                    le_bytes(indices@[0] as nat, 2),
                ),
                store_all(
                    old(mem)@,
                    chain_stores(self@.layout, buffers@, indices@, i as nat),
                ) == (Stores { mem: mem@, error: None }),
            decreases n - i,
        {
            let buf = &buffers[i];
            let idx: u16 = indices[i];
            let last: bool = i + 1 == buffers.len();
            let mut flags: u16 = 0;
            if buf.device_writable {
                assert(0u16 | 2u16 == 2u16) by (bit_vector);
                flags = flags | VIRTQ_DESC_F_WRITE;
            }
            if !last {
                assert(0u16 | 1u16 == 1u16 && 2u16 | 1u16 == 3u16) by (bit_vector);
                flags = flags | VIRTQ_DESC_F_NEXT;
            }
            let next: u16 = if last {
                0
            } else {
                indices[i + 1]
            };
            let d = Descriptor { addr: buf.addr.0, len: buf.len, flags, next };
            proof {
                assert(d == link(buffers@, indices@, i as int));
                lemma_store_all_append(
                    old(mem)@,
                    chain_stores(self@.layout, buffers@, indices@, i as nat),
                    desc_stores(self@.layout.desc_addr(idx as int), d),
                );
            }
            let at = self.layout.desc(idx).unwrap();
            match write_descriptor(mem, at, d) {
                Ok(()) => {},
                Err(e) => {
                    proof {
                        lemma_chain_stores_error(
                            self@.layout,
                            buffers@,
                            indices@,
                            (i + 1) as nat,
                            n,
                            old(mem)@,
                        );
                        lemma_store_all_append(old(mem)@, all, seq![slot]);
                        assert(all + seq![slot] =~= all.push(slot));
                    }
                    return Err(DriverError::from(e));
                },
            }
            i += 1;
        }
        assert(all.push(slot).drop_last() =~= all);
        // Publish the head index into the ring slot for this position.
        match mem.write_u16(self.layout.avail_slot(self.ledger.avail_idx), head) {
            Ok(()) => {},
            Err(e) => {
                return Err(DriverError::from(e));
            },
        }
        // The release fence and the bump, together.
        self.ledger.avail_idx = self.ledger.avail_idx.wrapping_add(1);
        match mem.store_idx_release(self.layout.avail_idx(), self.ledger.avail_idx) {
            Ok(()) => Ok(head),
            Err(e) => Err(DriverError::from(e)),
        }
    }
}

/// A store that is refused while a chain is written ends the whole chain.
proof fn lemma_chain_stores_error(
    l: VirtqLayout,
    bufs: Seq<Buffer>,
    indices: Seq<u16>,
    i: nat,
    n: nat,
    m: Seq<u8>,
)
    requires
        i <= n,
    ensures
        store_all(m, chain_stores(l, bufs, indices, i)).error is Some ==> store_all(
            m,
            chain_stores(l, bufs, indices, n),
        ) == store_all(m, chain_stores(l, bufs, indices, i)),
    decreases n,
{
    if i < n {
        lemma_chain_stores_error(l, bufs, indices, i, (n - 1) as nat, m);
        lemma_store_all_append(
            m,
            chain_stores(l, bufs, indices, (n - 1) as nat),
            desc_stores(l.desc_addr(indices[n - 1] as int), link(bufs, indices, n - 1)),
        );
    }
}

} // verus!
