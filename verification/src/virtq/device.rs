//! The device side of the virtqueue: the half that lives in the VMM, outside the guest.
//!
//! It reads chains the driver made available, does what they ask, writes results into the used
//! ring, and notifies only when it has to. Everything it reads is written by the thing it is
//! isolating: every buffer has its direction checked, and an error ends a chain instead of being
//! ignored.

use crate::le::le_bytes;
use crate::virtq::chain::{chain_from, lemma_walk_bounded, total_len, ChainError, ChainIter, Walk};
use crate::virtq::layout::{
    crossed, law_fields_inside_parts, need_event, wrap, Descriptor, VirtqLayout,
    VIRTQ_USED_F_NO_NOTIFY,
};
use crate::virtq::mem::{
    bytes_at, fits, full_barrier, u16_at, write_at, GuestAddr, MemError, SharedMem,
};
use vstd::prelude::*;

verus! {

/// The device half of one virtqueue. It holds only indices, never a borrow of memory: the memory
/// is shared with something else, so a device may not hold a long-lived reference into it.
pub struct Device {
    pub layout: VirtqLayout,
    pub rings: Rings,
}

/// Where a device stands in both rings. Only the device moves it.
pub struct Rings {
    /// The next entry of the avail ring this device has not yet consumed. Free-running.
    next_avail: u16,
    /// The next slot of the used ring this device will write. Free-running.
    next_used: u16,
    /// Completions added since the last `needs_notification` call.
    num_added: u16,
    event_idx: bool,
}

/// What a device knows.
#[verifier::ext_equal]
pub struct DeviceState {
    pub layout: VirtqLayout,
    pub next_avail: u16,
    pub next_used: u16,
    pub num_added: u16,
    pub event_idx: bool,
}

impl View for Device {
    type V = DeviceState;

    open spec fn view(&self) -> DeviceState {
        DeviceState { layout: self.layout, ..self.rings@ }
    }
}

impl View for Rings {
    type V = DeviceState;

    /// The device of a queue that is laid out in no way in particular.
    closed spec fn view(&self) -> DeviceState {
        DeviceState {
            layout: arbitrary(),
            next_avail: self.next_avail,
            next_used: self.next_used,
            num_added: self.num_added,
            event_idx: self.event_idx,
        }
    }
}


/// What publishing a completion comes to.
pub struct Completion {
    pub dev: DeviceState,
    pub mem: Seq<u8>,
    pub result: Result<(), MemError>,
}

impl DeviceState {
    /// How many chains the driver has made available that the device has not consumed: the
    /// distance from its own position to the published index, in wrapping arithmetic.
    pub open spec fn pending(self, m: Seq<u8>) -> Result<u16, MemError> {
        match u16_at(m, self.layout.avail_ring.0 + 2) {
            Ok(idx) => Ok(wrap(idx - self.next_avail) as u16),
            Err(e) => Err(e),
        }
    }

    /// The head of the next available chain, if there is one.
    pub open spec fn next_head(self, m: Seq<u8>) -> Result<Option<u16>, MemError> {
        match self.pending(m) {
            Err(e) => Err(e),
            Ok(n) => if n == 0 {
                Ok(None)
            } else {
                match u16_at(m, self.layout.avail_slot_addr(self.next_avail as int)) {
                    Ok(head) => Ok(Some(head)),
                    Err(e) => Err(e),
                }
            },
        }
    }

    /// The device after it took one chain.
    pub open spec fn popped(self) -> DeviceState {
        DeviceState { next_avail: wrap(self.next_avail + 1) as u16, ..self }
    }

    /// The device after it counted one completion.
    pub open spec fn counted(self) -> DeviceState {
        DeviceState {
            next_used: wrap(self.next_used + 1) as u16,
            num_added: wrap(self.num_added + 1) as u16,
            ..self
        }
    }

    /// Publishing that chain `head` is finished with `len` bytes written: first the two fields of
    /// the used element, then the count, then the index that makes them visible. A refused write
    /// leaves what came before it.
    pub open spec fn complete(self, m: Seq<u8>, head: u16, len: u32) -> Completion {
        let elem = self.layout.used_elem_addr(self.next_used as int);
        match write_at(m, elem, le_bytes(head as nat, 4)) {
            Err(e) => Completion { dev: self, mem: m, result: Err(e) },
            Ok(m1) => match write_at(m1, elem + 4, le_bytes(len as nat, 4)) {
                Err(e) => Completion { dev: self, mem: m1, result: Err(e) },
                Ok(m2) => {
                    let idx = le_bytes(self.counted().next_used as nat, 2);
                    match write_at(m2, self.layout.used_ring.0 + 2, idx) {
                        Err(e) => Completion { dev: self.counted(), mem: m2, result: Err(e) },
                        Ok(m3) => Completion { dev: self.counted(), mem: m3, result: Ok(()) },
                    }
                },
            },
        }
    }
}

impl Device {
    pub fn new(layout: VirtqLayout, event_idx: bool) -> (r: Self)
        ensures
            r@ == (DeviceState { layout, next_avail: 0, next_used: 0, num_added: 0, event_idx }),
    {
        let rings = Rings { next_avail: 0, next_used: 0, num_added: 0, event_idx };
        Device { layout, rings }
    }

    pub fn next_used(&self) -> (r: u16)
        ensures
            r == self@.next_used,
    {
        self.rings.next_used
    }

    /// How many chains the driver has made available that this device has not consumed.
    pub fn available(&self, mem: &SharedMem) -> (r: Result<u16, MemError>)
        requires
            self@.layout.avail_ring.0 + 2 <= u64::MAX,
        ensures
            r == self@.pending(mem@),
    {
        match mem.load_idx_acquire(self.layout.avail_idx()) {
            Ok(idx) => Ok(idx.wrapping_sub(self.rings.next_avail)),
            Err(e) => Err(e),
        }
    }

    /// Take the head index of the next available chain, or `None` if there is nothing to do.
    pub fn pop_chain_head(&mut self, mem: &SharedMem) -> (r: Result<Option<u16>, MemError>)
        requires
            old(self)@.layout.avail_addressable(),
        ensures
            r == old(self)@.next_head(mem@),
            final(self)@ == if r matches Ok(Some(_)) {
                old(self)@.popped()
            } else {
                old(self)@
            },
    {
        proof {
            law_fields_inside_parts(self.layout, self.rings.next_avail as int);
        }
        match self.available(mem) {
            Ok(0) => {
                return Ok(None);
            },
            Ok(_) => {},
            Err(e) => {
                return Err(e);
            },
        }
        match mem.read_u16(self.layout.avail_slot(self.rings.next_avail)) {
            Ok(head) => {
                self.rings.next_avail = self.rings.next_avail.wrapping_add(1);
                Ok(Some(head))
            },
            Err(e) => Err(e),
        }
    }

    /// Iterate the descriptors of a chain.
    pub fn chain<'a>(&self, mem: &'a SharedMem, head: u16) -> (r: ChainIter<'a>)
        requires
            self@.layout.desc_addressable(),
        ensures
            r.wf(),
            r.rest() == chain_from(mem@, self@.layout, head),
    {
        ChainIter::new(mem, self.layout, head)
    }

    /// Publish a completion: chain `head` is finished and the device wrote `len` bytes into it.
    ///
    /// `len` is the number of bytes actually written, not the size of the writable buffers the
    /// driver provided: the driver takes it as the length of valid data.
    pub fn add_used(&mut self, mem: &mut SharedMem, head: u16, len: u32) -> (r: Result<
        (),
        MemError,
    >)
        requires
            old(self)@.layout.used_addressable(),
        ensures
            (Completion { dev: final(self)@, mem: final(mem)@, result: r }) == old(self)@.complete(
                old(mem)@,
                head,
                len,
            ),
    {
        proof {
            law_fields_inside_parts(self.layout, self.rings.next_used as int);
        }
        let (id_addr, len_addr) = self.layout.used_slot(self.rings.next_used);
        match mem.write_u32(id_addr, head as u32) {
            Ok(()) => {},
            Err(e) => {
                return Err(e);
            },
        }
        match mem.write_u32(len_addr, len) {
            Ok(()) => {},
            Err(e) => {
                return Err(e);
            },
        }

        self.rings.next_used = self.rings.next_used.wrapping_add(1);
        self.rings.num_added = self.rings.num_added.wrapping_add(1);

        // Release: the used element above must be visible before the index that advertises it.
        mem.store_idx_release(self.layout.used_idx(), self.rings.next_used)
    }

    /// Should the device interrupt the driver?
    ///
    /// Without `EVENT_IDX`, always. With it, only when the used index has crossed the value the
    /// driver asked about. The answer is about every completion since the last call.
    pub fn needs_notification(&mut self, mem: &SharedMem) -> (r: Result<bool, MemError>)
        requires
            old(self)@.event_idx ==> old(self)@.layout.used_event_addr() <= u64::MAX,
        ensures
            r == old(self)@.interrupt_due(mem@),
            final(self)@ == if r is Ok {
                DeviceState { num_added: 0, ..old(self)@ }
            } else {
                old(self)@
            },
    {
        if !self.rings.event_idx {
            self.rings.num_added = 0;
            return Ok(true);
        }
        let used_event: u16 = match mem.load_relaxed(self.layout.used_event()) {
            Ok(v) => v,
            Err(e) => {
                return Err(e);
            },
        };
        let old_used: u16 = self.rings.next_used.wrapping_sub(self.rings.num_added);
        self.rings.num_added = 0;
        Ok(need_event(used_event, self.rings.next_used, old_used))
    }
}

impl DeviceState {
    /// Whether the driver is owed an interrupt for the completions since the last decision.
    pub open spec fn interrupt_due(self, m: Seq<u8>) -> Result<bool, MemError> {
        if !self.event_idx {
            Ok(true)
        } else {
            match u16_at(m, self.layout.used_event_addr()) {
                Ok(event) => Ok(
                    crossed(
                        event,
                        self.next_used,
                        wrap(self.next_used - self.num_added) as u16,
                    ),
                ),
                Err(e) => Err(e),
            }
        }
    }
}

impl DeviceState {
    /// The region once the device has asked to be notified. With `EVENT_IDX` it publishes "tell me
    /// when `avail.idx` passes where I stopped"; without, it clears the driver's no-notify hint.
    pub open spec fn notifications_on(self, m: Seq<u8>) -> Result<Seq<u8>, MemError> {
        if self.event_idx {
            write_at(m, self.layout.avail_event_addr(), le_bytes(self.next_avail as nat, 2))
        } else {
            match u16_at(m, self.layout.used_ring.0 as int) {
                Ok(flags) => write_at(
                    m,
                    self.layout.used_ring.0 as int,
                    le_bytes((flags & !VIRTQ_USED_F_NO_NOTIFY) as nat, 2),
                ),
                Err(e) => Err(e),
            }
        }
    }

    /// The region once the device has asked not to be notified. With `EVENT_IDX` there is nothing
    /// to do: the mechanism is one-shot already.
    pub open spec fn notifications_off(self, m: Seq<u8>) -> Result<Seq<u8>, MemError> {
        if self.event_idx {
            Ok(m)
        } else {
            match u16_at(m, self.layout.used_ring.0 as int) {
                Ok(flags) => write_at(
                    m,
                    self.layout.used_ring.0 as int,
                    le_bytes((flags | VIRTQ_USED_F_NO_NOTIFY) as nat, 2),
                ),
                Err(e) => Err(e),
            }
        }
    }
}

impl Device {
    /// Ask the driver to notify us again, and report whether work arrived while we were not
    /// looking.
    ///
    /// Between the device deciding it has drained the queue and actually re-enabling notifications,
    /// the driver may have added a chain and skipped the kick. The device would then sleep with
    /// work pending, and nothing would ever wake it. So the avail index is read again after
    /// enabling: on `true` the caller must loop instead of sleeping.
    pub fn enable_notification(&mut self, mem: &mut SharedMem) -> (r: Result<bool, MemError>)
        requires
            old(self)@.layout.avail_ring.0 + 2 <= u64::MAX,
            old(self)@.event_idx ==> old(self)@.layout.avail_event_addr() <= u64::MAX,
        ensures
            final(self)@ == old(self)@,
            match old(self)@.notifications_on(old(mem)@) {
                Err(e) => r == Err::<bool, MemError>(e) && final(mem)@ == old(mem)@,
                Ok(m) => final(mem)@ == m && match old(self)@.pending(m) {
                    Ok(n) => r == Ok::<bool, MemError>(n != 0),
                    Err(e) => r == Err::<bool, MemError>(e),
                },
            },
    {
        let published = if self.rings.event_idx {
            // Publish "tell me when avail.idx passes where I stopped".
            mem.write_u16(self.layout.avail_event(), self.rings.next_avail)
        } else {
            match mem.read_u16(self.layout.used_flags()) {
                Ok(flags) => mem.write_u16(
                    self.layout.used_flags(),
                    flags & !VIRTQ_USED_F_NO_NOTIFY,
                ),
                Err(e) => Err(e),
            }
        };
        match published {
            Ok(()) => {},
            Err(e) => {
                return Err(e);
            },
        }
        // The store above must not be reordered after the load below. If it were, the load could
        // observe the world before the store and miss exactly the race this method closes.
        full_barrier();
        match self.available(mem) {
            Ok(n) => Ok(n != 0),
            Err(e) => Err(e),
        }
    }

    /// Ask the driver not to notify us.
    pub fn disable_notification(&mut self, mem: &mut SharedMem) -> (r: Result<(), MemError>)
        ensures
            final(self)@ == old(self)@,
            match old(self)@.notifications_off(old(mem)@) {
                Ok(m) => r == Ok::<(), MemError>(()) && final(mem)@ == m,
                Err(e) => r == Err::<(), MemError>(e) && final(mem)@ == old(mem)@,
            },
    {
        if self.rings.event_idx {
            Ok(())
        } else {
            match mem.read_u16(self.layout.used_flags()) {
                Ok(flags) => mem.write_u16(self.layout.used_flags(), flags | VIRTQ_USED_F_NO_NOTIFY),
                Err(e) => Err(e),
            }
        }
    }
}

/// Why the device refused a chain.
#[derive(Debug, Clone, Copy, PartialEq, Eq, Structural)]
pub enum RejectReason {
    /// The chain itself was malformed.
    Chain(ChainError),
    /// The chain was well-formed but one of its buffers was not inside the shared region, where it
    /// was to be read or the answer came to it.
    Buffer(MemError),
}

/// Counters for a processing pass. Rejections are returned, not logged: the VMM decides what one
/// means.
#[derive(Debug, Clone, PartialEq, Eq)]
pub struct ProcessStats {
    pub chains: u64,
    pub descriptors: u64,
    pub bytes_read: u64,
    pub bytes_written: u64,
    /// One entry per chain the device refused, with the head index and the reason.
    pub rejected: Vec<(u16, RejectReason)>,
}

/// The counters of a pass, as numbers.
#[verifier::ext_equal]
pub struct Tally {
    pub chains: nat,
    pub descriptors: nat,
    pub bytes_read: nat,
    pub bytes_written: nat,
    pub rejected: Seq<(u16, RejectReason)>,
}

impl View for ProcessStats {
    type V = Tally;

    open spec fn view(&self) -> Tally {
        Tally {
            chains: self.chains as nat,
            descriptors: self.descriptors as nat,
            bytes_read: self.bytes_read as nat,
            bytes_written: self.bytes_written as nat,
            rejected: self.rejected@,
        }
    }
}

/// The counters before the first chain.
pub open spec fn nothing_done() -> Tally {
    Tally {
        chains: 0,
        descriptors: 0,
        bytes_read: 0,
        bytes_written: 0,
        rejected: Seq::empty(),
    }
}

impl Default for ProcessStats {
    fn default() -> (r: Self)
        ensures
            r@ == nothing_done(),
    {
        let r = ProcessStats {
            chains: 0,
            descriptors: 0,
            bytes_read: 0,
            bytes_written: 0,
            rejected: Vec::new(),
        };
        assert(r@ =~= nothing_done());
        r
    }
}

impl ProcessStats {
    /// How many chains the device refused.
    pub fn errors(&self) -> (r: usize)
        ensures
            r == self@.rejected.len(),
    {
        self.rejected.len()
    }
}

/// The buffers, as `(addr, len)`, of the device-writable or of the device-readable descriptors
/// among `descs`.
pub open spec fn buffers(descs: Seq<Descriptor>, writable: bool) -> Seq<(u64, u32)>
    decreases descs.len(),
{
    if descs.len() == 0 {
        Seq::empty()
    } else {
        let before = buffers(descs.drop_last(), writable);
        let d = descs.last();
        if d.writable() == writable {
            before.push((d.addr, d.len))
        } else {
            before
        }
    }
}

/// The contents of the buffers, one behind the other, without those outside the region.
pub open spec fn gathered(m: Seq<u8>, bufs: Seq<(u64, u32)>) -> Seq<u8>
    decreases bufs.len(),
{
    if bufs.len() == 0 {
        Seq::empty()
    } else {
        let before = gathered(m, bufs.drop_last());
        match bytes_at(m, bufs.last().0 as int, bufs.last().1 as nat) {
            Ok(b) => before + b,
            Err(e) => before,
        }
    }
}

/// The refusal of the first of the buffers that is not inside the region, if there is one.
pub open spec fn first_outside(m: Seq<u8>, bufs: Seq<(u64, u32)>) -> Option<MemError>
    decreases bufs.len(),
{
    if bufs.len() == 0 {
        None
    } else {
        match bytes_at(m, bufs[0].0 as int, bufs[0].1 as nat) {
            Ok(b) => first_outside(m, bufs.drop_first()),
            Err(e) => Some(e),
        }
    }
}

/// The buffers all lie inside a region of `region_len` bytes.
pub open spec fn all_inside(region_len: nat, bufs: Seq<(u64, u32)>) -> bool {
    forall|j: int|
        0 <= j < bufs.len() ==> fits(region_len, (#[trigger] bufs[j]).0 as int, bufs[j].1 as nat)
}

/// No buffer is refused exactly where all lie inside the region.
pub proof fn lemma_none_outside(m: Seq<u8>, bufs: Seq<(u64, u32)>)
    ensures
        first_outside(m, bufs) is None <==> all_inside(m.len(), bufs),
    decreases bufs.len(),
{
    if bufs.len() > 0 {
        let rest = bufs.drop_first();
        lemma_none_outside(m, rest);
        if all_inside(m.len(), bufs) {
            assert forall|j: int| 0 <= j < rest.len() implies fits(
                m.len(),
                (#[trigger] rest[j]).0 as int,
                rest[j].1 as nat,
            ) by {
                assert(rest[j] == bufs[j + 1]);
            }
        }
        if first_outside(m, bufs) is None {
            assert forall|j: int| 0 <= j < bufs.len() implies fits(
                m.len(),
                (#[trigger] bufs[j]).0 as int,
                bufs[j].1 as nat,
            ) by {
                if j > 0 {
                    assert(bufs[j] == rest[j - 1]);
                }
            }
        }
    }
}

/// What scattering a response comes to: the region, how many bytes of the response went in, and the
/// refusal it ended in, if any.
#[verifier::ext_equal]
pub struct Scatter {
    pub mem: Seq<u8>,
    pub written: nat,
    pub error: Option<MemError>,
}

pub open spec fn least(a: nat, b: nat) -> nat {
    if a <= b {
        a
    } else {
        b
    }
}

/// `data` put into the buffers in order, each filled before the next, until the data, the buffers
/// or the region runs out.
pub open spec fn scattered(m: Seq<u8>, bufs: Seq<(u64, u32)>, data: Seq<u8>) -> Scatter
    decreases bufs.len(),
{
    if bufs.len() == 0 || data.len() == 0 {
        Scatter { mem: m, written: 0, error: None }
    } else {
        let n = least(bufs[0].1 as nat, data.len());
        match write_at(m, bufs[0].0 as int, data.take(n as int)) {
            Err(e) => Scatter { mem: m, written: 0, error: Some(e) },
            Ok(m1) => {
                let rest = scattered(m1, bufs.drop_first(), data.skip(n as int));
                Scatter { mem: rest.mem, written: n + rest.written, error: rest.error }
            },
        }
    }
}

/// The stretch of each buffer that `n` bytes reach, put in in order, each buffer filled before the
/// next. A buffer that is not come to has none.
pub open spec fn stretches(bufs: Seq<(u64, u32)>, n: nat) -> Seq<(u64, u32)>
    decreases bufs.len(),
{
    if bufs.len() == 0 || n == 0 {
        Seq::empty()
    } else {
        let k = least(bufs[0].1 as nat, n);
        seq![(bufs[0].0, k as u32)] + stretches(bufs.drop_first(), (n - k) as nat)
    }
}

/// The first stretch, and those behind it.
pub proof fn lemma_stretches_first(bufs: Seq<(u64, u32)>, n: nat)
    requires
        bufs.len() > 0,
        n > 0,
    ensures
        ({
            let k = least(bufs[0].1 as nat, n);
            &&& stretches(bufs, n).len() > 0
            &&& stretches(bufs, n)[0] == (bufs[0].0, k as u32)
            &&& stretches(bufs, n).drop_first() == stretches(bufs.drop_first(), (n - k) as nat)
        }),
{
    let k = least(bufs[0].1 as nat, n);
    assert(stretches(bufs, n).drop_first() =~= stretches(bufs.drop_first(), (n - k) as nat));
}

/// Whether a buffer is refused rests on the length of the region alone.
proof fn lemma_outside_by_length(m: Seq<u8>, k: Seq<u8>, bufs: Seq<(u64, u32)>)
    requires
        m.len() == k.len(),
    ensures
        first_outside(m, bufs) == first_outside(k, bufs),
    decreases bufs.len(),
{
    if bufs.len() > 0 {
        lemma_outside_by_length(m, k, bufs.drop_first());
    }
}

/// A scatter is refused for the first of its stretches that is not inside the region, and only then.
pub proof fn lemma_scatter_refused(m: Seq<u8>, bufs: Seq<(u64, u32)>, data: Seq<u8>)
    ensures
        scattered(m, bufs, data).error == first_outside(m, stretches(bufs, data.len())),
    decreases bufs.len(),
{
    if bufs.len() > 0 && data.len() > 0 {
        let n = least(bufs[0].1 as nat, data.len());
        let rest = bufs.drop_first();
        lemma_stretches_first(bufs, data.len());
        match write_at(m, bufs[0].0 as int, data.take(n as int)) {
            Ok(m1) => {
                lemma_scatter_refused(m1, rest, data.skip(n as int));
                lemma_outside_by_length(m1, m, stretches(rest, (data.len() - n) as nat));
            },
            Err(e) => {},
        }
    }
}

/// The bytes that the buffers come to.
pub open spec fn capacity(bufs: Seq<(u64, u32)>) -> nat
    decreases bufs.len(),
{
    if bufs.len() == 0 {
        0
    } else {
        bufs[0].1 as nat + capacity(bufs.drop_first())
    }
}

/// Look for a buffer that is not inside the region.
fn find_outside(mem: &SharedMem, bufs: &Vec<(u64, u32)>) -> (r: Option<MemError>)
    ensures
        r == first_outside(mem@, bufs@),
{
    let mut i: usize = 0;
    assert(bufs@.skip(0) =~= bufs@);
    while i < bufs.len()
        invariant
            i <= bufs@.len(),
            first_outside(mem@, bufs@) == first_outside(mem@, bufs@.skip(i as int)),
        decreases bufs@.len() - i,
    {
        proof {
            assert(bufs@.skip(i as int)[0] == bufs@[i as int]);
            assert(bufs@.skip(i as int).drop_first() =~= bufs@.skip(i + 1));
        }
        let (addr, len) = bufs[i];
        match mem.read_slice(GuestAddr(addr), len as u64) {
            Ok(_) => {},
            Err(e) => {
                return Some(e);
            },
        }
        i += 1;
    }
    None
}

/// Gather the buffers, one behind the other.
fn gather(mem: &SharedMem, bufs: &Vec<(u64, u32)>) -> (r: Vec<u8>)
    ensures
        r@ == gathered(mem@, bufs@),
{
    let mut request: Vec<u8> = Vec::new();
    let mut i: usize = 0;
    assert(bufs@.take(0) =~= Seq::empty());
    while i < bufs.len()
        invariant
            i <= bufs@.len(),
            request@ == gathered(mem@, bufs@.take(i as int)),
        decreases bufs@.len() - i,
    {
        proof {
            assert(bufs@.take(i + 1).drop_last() =~= bufs@.take(i as int));
            assert(bufs@.take(i + 1).last() == bufs@[i as int]);
        }
        let (addr, len) = bufs[i];
        match mem.read_slice(GuestAddr(addr), len as u64) {
            Ok(s) => request.extend_from_slice(s),
            Err(_) => {},
        }
        i += 1;
    }
    assert(bufs@.take(i as int) =~= bufs@);
    request
}

/// The stretch of each buffer that `n` bytes reach.
fn reach(bufs: &Vec<(u64, u32)>, n: usize) -> (r: Vec<(u64, u32)>)
    ensures
        r@ == stretches(bufs@, n as nat),
{
    let mut out: Vec<(u64, u32)> = Vec::new();
    let mut left: usize = n;
    let mut i: usize = 0;
    proof {
        assert(bufs@.skip(0) =~= bufs@);
        assert(out@ + stretches(bufs@, n as nat) =~= stretches(bufs@, n as nat));
    }
    while i < bufs.len() && left > 0
        invariant
            i <= bufs@.len(),
            stretches(bufs@, n as nat) == out@ + stretches(bufs@.skip(i as int), left as nat),
        decreases bufs@.len() - i,
    {
        let (addr, len) = bufs[i];
        let k: u32 = if len as u64 <= left as u64 {
            len
        } else {
            left as u32
        };
        proof {
            let rest = stretches(bufs@.skip(i + 1), (left - k) as nat);
            assert(bufs@.skip(i as int)[0] == bufs@[i as int]);
            assert(bufs@.skip(i as int).drop_first() =~= bufs@.skip(i + 1));
            assert(out@ + (seq![(addr, k)] + rest) =~= out@.push((addr, k)) + rest);
        }
        out.push((addr, k));
        left -= k as usize;
        i += 1;
    }
    assert(out@ + Seq::<(u64, u32)>::empty() =~= out@);
    out
}

/// Scatter a response over buffers of which the stretches that it reaches lie inside the region: how
/// many bytes went in.
fn scatter(mem: &mut SharedMem, bufs: &Vec<(u64, u32)>, data: &Vec<u8>) -> (written: u32)
    requires
        capacity(bufs@) <= u32::MAX,
        scattered(old(mem)@, bufs@, data@).error is None,
    ensures
        final(mem)@ == scattered(old(mem)@, bufs@, data@).mem,
        written == scattered(old(mem)@, bufs@, data@).written,
{
    let ghost all = scattered(mem@, bufs@, data@);
    let mut written: u32 = 0;
    let mut cursor: usize = 0;
    let mut i: usize = 0;
    proof {
        assert(bufs@.skip(0) =~= bufs@);
        assert(data@.skip(0) =~= data@);
    }
    // Truncating is correct; overrunning a buffer because the response was longer than it would be
    // a write into guest memory at an offset the guest did not agree to.
    while i < bufs.len() && cursor < data.len()
        invariant
            i <= bufs@.len(),
            cursor <= data@.len(),
            cursor == written,
            written + capacity(bufs@.skip(i as int)) <= u32::MAX,
            all == scattered(old(mem)@, bufs@, data@),
            ({
                let rest = scattered(mem@, bufs@.skip(i as int), data@.skip(cursor as int));
                &&& all.mem == rest.mem
                &&& all.written == cursor + rest.written
                &&& rest.error is None
            }),
        decreases bufs@.len() - i,
    {
        let (addr, len) = bufs[i];
        let left: usize = data.len() - cursor;
        let n: usize = if (len as usize) <= left {
            len as usize
        } else {
            left
        };
        proof {
            assert(bufs@.skip(i as int)[0] == bufs@[i as int]);
            assert(bufs@.skip(i as int).drop_first() =~= bufs@.skip(i + 1));
            assert(data@.skip(cursor as int).take(n as int) =~= data@.subrange(
                cursor as int,
                cursor + n,
            ));
            assert(data@.skip(cursor as int).skip(n as int) =~= data@.skip(cursor + n));
        }
        mem.write_slice(GuestAddr(addr), &data[cursor..cursor + n]).unwrap();
        cursor += n;
        written += n as u32;
        i += 1;
    }
    written
}

/// Appending a descriptor adds its length.
proof fn lemma_total_len_push(descs: Seq<Descriptor>, d: Descriptor)
    ensures
        total_len(descs.push(d)) == total_len(descs) + d.len,
    decreases descs.len(),
{
    reveal_with_fuel(total_len, 2);
    if descs.len() == 0 {
        assert(descs.push(d).drop_first() =~= Seq::<Descriptor>::empty());
    } else {
        lemma_total_len_push(descs.drop_first(), d);
        assert(descs.push(d).drop_first() =~= descs.drop_first().push(d));
    }
}

/// Appending a buffer adds its length.
proof fn lemma_capacity_push(bufs: Seq<(u64, u32)>, b: (u64, u32))
    ensures
        capacity(bufs.push(b)) == capacity(bufs) + b.1,
    decreases bufs.len(),
{
    reveal_with_fuel(capacity, 2);
    if bufs.len() == 0 {
        assert(bufs.push(b).drop_first() =~= Seq::<(u64, u32)>::empty());
    } else {
        lemma_capacity_push(bufs.drop_first(), b);
        assert(bufs.push(b).drop_first() =~= bufs.drop_first().push(b));
    }
}

/// The readable and the writable buffers of a chain together come to what its descriptors do.
pub proof fn lemma_buffers_split(descs: Seq<Descriptor>)
    ensures
        capacity(buffers(descs, true)) + capacity(buffers(descs, false)) == total_len(descs),
    decreases descs.len(),
{
    if descs.len() > 0 {
        let d = descs.last();
        lemma_buffers_split(descs.drop_last());
        assert(descs.drop_last().push(d) =~= descs);
        lemma_total_len_push(descs.drop_last(), d);
        lemma_capacity_push(buffers(descs.drop_last(), true), (d.addr, d.len));
        lemma_capacity_push(buffers(descs.drop_last(), false), (d.addr, d.len));
    }
}

/// What is gathered is no more than the buffers hold.
pub proof fn lemma_gathered_len(m: Seq<u8>, bufs: Seq<(u64, u32)>)
    ensures
        gathered(m, bufs).len() <= capacity(bufs),
    decreases bufs.len(),
{
    if bufs.len() > 0 {
        lemma_gathered_len(m, bufs.drop_last());
        lemma_capacity_push(bufs.drop_last(), bufs.last());
        assert(bufs.drop_last().push(bufs.last()) =~= bufs);
    }
}

/// The device, the region and the counters in the course of a pass. Once a completion could not be
/// published, `failed` says why and the pass is over.
#[verifier::ext_equal]
pub struct Pass {
    pub dev: DeviceState,
    pub mem: Seq<u8>,
    pub tally: Tally,
    pub failed: Option<MemError>,
}

impl Pass {
    /// The head of the chain that comes next, where one does.
    pub open spec fn head(self) -> u16 {
        self.dev.next_head(self.mem)->Ok_0->Some_0
    }

    /// The chain that comes next.
    pub open spec fn chain(self) -> Walk {
        chain_from(self.mem, self.dev.layout, self.head())
    }

    /// The request that the next chain carries: its device-readable bytes.
    pub open spec fn request(self) -> Seq<u8> {
        gathered(self.mem, buffers(self.chain().descs, false))
    }

    /// What the device has against the next chain, if anything: that it is malformed, or else that
    /// one of its device-readable buffers, the first such, is not inside the region.
    pub open spec fn objection(self) -> Option<RejectReason> {
        let w = self.chain();
        match w.error {
            Some(e) => Some(RejectReason::Chain(e)),
            None => match first_outside(self.mem, buffers(w.descs, false)) {
                Some(e) => Some(RejectReason::Buffer(e)),
                None => None,
            },
        }
    }

    /// Why the next chain, if its request is answered with `data`, is refused, if it is: the device
    /// has something against it, or else `data` reaches a byte outside the region.
    pub open spec fn refusal(self, data: Seq<u8>) -> Option<RejectReason> {
        match self.objection() {
            Some(reason) => Some(reason),
            None => match first_outside(
                self.mem,
                stretches(buffers(self.chain().descs, true), data.len()),
            ) {
                Some(e) => Some(RejectReason::Buffer(e)),
                None => None,
            },
        }
    }

    /// The chain `head` is refused: logged, and completed with nothing written.
    pub open spec fn refused(self, head: u16, reason: RejectReason) -> Pass {
        Pass {
            tally: Tally { rejected: self.tally.rejected.push((head, reason)), ..self.tally },
            ..self
        }.finished(head, 0)
    }

    /// The chain `head` is completed with `len` bytes written.
    pub open spec fn finished(self, head: u16, len: u32) -> Pass {
        let c = self.dev.complete(self.mem, head, len);
        match c.result {
            Ok(()) => Pass {
                dev: c.dev,
                mem: c.mem,
                tally: Tally { chains: self.tally.chains + 1, ..self.tally },
                failed: None,
            },
            Err(e) => Pass { dev: c.dev, mem: c.mem, tally: self.tally, failed: Some(e) },
        }
    }

    /// The next chain is taken and walked. One that the device has something against is refused. Of
    /// any other the request is gathered.
    pub open spec fn taken(self) -> Pass {
        let walked = Pass {
            dev: self.dev.popped(),
            tally: Tally {
                descriptors: self.tally.descriptors + self.chain().descs.len(),
                ..self.tally
            },
            ..self
        };
        match self.objection() {
            Some(reason) => walked.refused(self.head(), reason),
            None => Pass {
                tally: Tally {
                    bytes_read: self.tally.bytes_read + self.request().len(),
                    ..walked.tally
                },
                ..walked
            },
        }
    }

    /// The response `data` to chain `head` is scattered over `bufs` and the chain completed with
    /// the number of bytes that went in. If a stretch that the response reaches is not inside the
    /// region, nothing is written and the chain is refused. What it does not reach is not looked at.
    pub open spec fn answered(self, head: u16, bufs: Seq<(u64, u32)>, data: Seq<u8>) -> Pass {
        match first_outside(self.mem, stretches(bufs, data.len())) {
            Some(e) => self.refused(head, RejectReason::Buffer(e)),
            None => {
                let s = scattered(self.mem, bufs, data);
                Pass {
                    mem: s.mem,
                    tally: Tally {
                        bytes_written: self.tally.bytes_written + s.written,
                        ..self.tally
                    },
                    ..self
                }.finished(head, s.written as u32)
            },
        }
    }

    /// The next chain is dealt with, given the response `data` to its request if it has one.
    pub open spec fn step(self, data: Seq<u8>) -> Pass {
        if self.objection() is Some {
            self.taken()
        } else {
            self.taken().answered(self.head(), buffers(self.chain().descs, true), data)
        }
    }
}

/// One request that the device has taken and not yet answered.
pub struct Request {
    /// The head of its chain.
    pub head: u16,
    /// The bytes of its device-readable buffers, one behind the other.
    pub data: Vec<u8>,
    /// Its device-writable buffers, as `(addr, len)`.
    pub writable: Vec<(u64, u32)>,
}

/// What taking the next chain came to.
pub enum Taken {
    /// There is none.
    Idle,
    /// It was refused, and has been completed with nothing written.
    Refused,
    /// It carries a request, which is to be answered.
    Ready(Request),
}

/// The counters can take in one more chain of a queue of `queue_size` without passing 2^64.
pub open spec fn has_room(t: Tally, queue_size: u16) -> bool {
    &&& t.chains < u64::MAX
    &&& t.descriptors + queue_size <= u64::MAX
    &&& t.bytes_read + u32::MAX <= u64::MAX
}

impl Device {
    /// Walk chain `head` to its end: its readable and its writable buffers, how many descriptors
    /// it yielded, and the error it ended in.
    fn collect_chain(&self, mem: &SharedMem, head: u16) -> (r: (
        Vec<(u64, u32)>,
        Vec<(u64, u32)>,
        u64,
        Option<ChainError>,
    ))
        requires
            self@.layout.desc_addressable(),
        ensures
            ({
                let w = chain_from(mem@, self@.layout, head);
                &&& r.0@ == buffers(w.descs, false)
                &&& r.1@ == buffers(w.descs, true)
                &&& r.2 == w.descs.len()
                &&& r.3 == w.error
            }),
    {
        let ghost w = chain_from(mem@, self.layout, head);
        proof {
            lemma_walk_bounded(mem@, self.layout, head, self.layout.queue_size as nat, 0, false);
        }
        let mut readable: Vec<(u64, u32)> = Vec::new();
        let mut writable: Vec<(u64, u32)> = Vec::new();
        let mut count: u64 = 0;
        let mut chain = self.chain(mem, head);
        let ghost mut done: Seq<Descriptor> = Seq::empty();
        assert(w =~= Walk { descs: done + chain.rest().descs, error: chain.rest().error });
        loop
            invariant
                chain.wf(),
                w == chain_from(mem@, self@.layout, head),
                w.descs.len() <= self@.layout.queue_size,
                w == (Walk { descs: done + chain.rest().descs, error: chain.rest().error }),
                readable@ == buffers(done, false),
                writable@ == buffers(done, true),
                count == done.len(),
            decreases chain.fuel(),
        {
            match chain.next() {
                None => {
                    assert(done + Seq::<Descriptor>::empty() =~= done);
                    return (readable, writable, count, None);
                },
                Some(Err(e)) => {
                    assert(done + Seq::<Descriptor>::empty() =~= done);
                    return (readable, writable, count, Some(e));
                },
                Some(Ok(d)) => {
                    proof {
                        let rest = chain.rest().descs;
                        assert(done + (seq![d] + rest) =~= done.push(d) + rest);
                        assert(done.push(d).drop_last() =~= done);
                        assert(w.descs[done.len() as int] == d);
                        done = done.push(d);
                    }
                    count += 1;
                    if d.is_write_only() {
                        writable.push((d.addr, d.len));
                    } else {
                        readable.push((d.addr, d.len));
                    }
                },
            }
        }
    }

    /// Take the next available chain and gather its request.
    ///
    /// The chain is collected first and acted on afterwards: a device that acted as it walked would
    /// already have written to buffers by the time it discovered the chain was malformed. Such a
    /// chain, and one with a readable buffer that is not in the region, is refused, and still
    /// completed, with zero bytes written. Silently dropping it would leak its descriptors: the driver
    /// would wait forever for the completion.
    pub fn take_request(&mut self, mem: &mut SharedMem, stats: &mut ProcessStats) -> (r: Result<
        Taken,
        MemError,
    >)
        requires
            old(self)@.layout.addressable(),
            has_room(old(stats)@, old(self)@.layout.queue_size),
        ensures
            ({
                let p = Pass {
                    dev: old(self)@,
                    mem: old(mem)@,
                    tally: old(stats)@,
                    failed: None,
                };
                match p.dev.next_head(p.mem) {
                    Ok(Some(head)) => {
                        &&& final(self)@ == p.taken().dev
                        &&& final(mem)@ == p.taken().mem
                        &&& final(stats)@ == p.taken().tally
                        &&& if p.objection() is None {
                            &&& r matches Ok(Taken::Ready(q))
                            &&& q.head == head
                            &&& q.data@ == p.request()
                            &&& q.writable@ == buffers(p.chain().descs, true)
                        } else {
                            match p.taken().failed {
                                Some(e) => r matches Err(f) && e == f,
                                None => r matches Ok(Taken::Refused),
                            }
                        }
                    },
                    Ok(None) => {
                        &&& r matches Ok(Taken::Idle)
                        &&& final(self)@ == p.dev && final(mem)@ == p.mem && final(stats)@
                            == p.tally
                    },
                    Err(e) => {
                        &&& r matches Err(f) && e == f
                        &&& final(self)@ == p.dev && final(mem)@ == p.mem && final(stats)@
                            == p.tally
                    },
                }
            }),
    {
        let ghost p = Pass { dev: self@, mem: mem@, tally: stats@, failed: None };
        let head: u16 = match self.pop_chain_head(mem) {
            Ok(Some(head)) => head,
            Ok(None) => {
                return Ok(Taken::Idle);
            },
            Err(e) => {
                return Err(e);
            },
        };
        let (readable, writable, count, error) = self.collect_chain(mem, head);
        proof {
            lemma_walk_bounded(mem@, self.layout, head, self.layout.queue_size as nat, 0, false);
            lemma_buffers_split(p.chain().descs);
            lemma_gathered_len(mem@, readable@);
        }
        stats.descriptors += count;
        let objection: Option<RejectReason> = match error {
            Some(e) => Some(RejectReason::Chain(e)),
            None => match find_outside(mem, &readable) {
                Some(e) => Some(RejectReason::Buffer(e)),
                None => None,
            },
        };
        match objection {
            Some(reason) => match self.refuse(mem, stats, head, reason) {
                Ok(()) => Ok(Taken::Refused),
                Err(e) => Err(e),
            },
            None => {
                let data = gather(mem, &readable);
                stats.bytes_read += data.len() as u64;
                Ok(Taken::Ready(Request { head, data, writable }))
            },
        }
    }

    /// Refuse chain `head`: log it once, and complete it with nothing written.
    fn refuse(
        &mut self,
        mem: &mut SharedMem,
        stats: &mut ProcessStats,
        head: u16,
        reason: RejectReason,
    ) -> (r: Result<(), MemError>)
        requires
            old(self)@.layout.used_addressable(),
            old(stats)@.chains < u64::MAX,
        ensures
            ({
                let p = Pass {
                    dev: old(self)@,
                    mem: old(mem)@,
                    tally: old(stats)@,
                    failed: None,
                }.refused(head, reason);
                &&& final(self)@ == p.dev
                &&& final(mem)@ == p.mem
                &&& final(stats)@ == p.tally
                &&& match p.failed {
                    Some(e) => r == Err::<(), MemError>(e),
                    None => r == Ok::<(), MemError>(()),
                }
            }),
    {
        stats.rejected.push((head, reason));
        match self.add_used(mem, head, 0) {
            Ok(()) => {
                stats.chains += 1;
                Ok(())
            },
            Err(e) => Err(e),
        }
    }

    /// Scatter the response to a request across its writable buffers, in order, stopping when
    /// either runs out, and complete its chain with the number of bytes that went in. A chain in
    /// which the response reaches a byte that is not in the region is refused instead.
    pub fn answer(
        &mut self,
        mem: &mut SharedMem,
        stats: &mut ProcessStats,
        request: &Request,
        response: &Vec<u8>,
    ) -> (r: Result<(), MemError>)
        requires
            old(self)@.layout.used_addressable(),
            old(stats)@.chains < u64::MAX,
            old(stats)@.bytes_written + u32::MAX <= u64::MAX,
            capacity(request.writable@) <= u32::MAX,
        ensures
            ({
                let p = Pass {
                    dev: old(self)@,
                    mem: old(mem)@,
                    tally: old(stats)@,
                    failed: None,
                }.answered(request.head, request.writable@, response@);
                &&& final(self)@ == p.dev
                &&& final(mem)@ == p.mem
                &&& final(stats)@ == p.tally
                &&& match p.failed {
                    Some(e) => r == Err::<(), MemError>(e),
                    None => r == Ok::<(), MemError>(()),
                }
            }),
    {
        match find_outside(mem, &reach(&request.writable, response.len())) {
            Some(e) => {
                return self.refuse(mem, stats, request.head, RejectReason::Buffer(e));
            },
            None => {},
        }
        proof {
            lemma_scatter_refused(mem@, request.writable@, response@);
        }
        let written: u32 = scatter(mem, &request.writable, response);
        stats.bytes_written += written as u64;
        match self.add_used(mem, request.head, written) {
            Ok(()) => {
                stats.chains += 1;
                Ok(())
            },
            Err(e) => Err(e),
        }
    }
}

impl Pass {
    /// The pass after as many chains as there are responses.
    pub open spec fn after(self, responses: Seq<Seq<u8>>) -> Pass
        decreases responses.len(),
    {
        if responses.len() == 0 {
            self
        } else {
            self.after(responses.drop_last()).step(responses.last())
        }
    }

    /// There is a chain to deal with.
    pub open spec fn has_next(self) -> bool {
        self.failed is None && self.dev.next_head(self.mem) matches Ok(Some(_))
    }

    /// A run of the pass: there is a chain for each response, and the response to each that
    /// carries a request is one that `work` gives to that request.
    pub open spec fn runs<F: FnMut(&[u8]) -> Vec<u8>>(
        self,
        work: F,
        responses: Seq<Seq<u8>>,
    ) -> bool {
        forall|i: int|
            0 <= i < responses.len() ==> {
                let p = #[trigger] self.after(responses.take(i));
                &&& p.has_next()
                &&& if p.objection() is None {
                    answers(work, p.request(), responses[i])
                } else {
                    responses[i] == Seq::<u8>::empty()
                }
            }
    }

    /// Every run ends, within `limit` chains.
    pub open spec fn drains<F: FnMut(&[u8]) -> Vec<u8>>(self, work: F, limit: nat) -> bool {
        forall|responses: Seq<Seq<u8>>| #[trigger]
            self.runs(work, responses) ==> responses.len() <= limit
    }
}

/// `work` can give `response` to `request`.
pub open spec fn answers<F: FnMut(&[u8]) -> Vec<u8>>(
    work: F,
    request: Seq<u8>,
    response: Seq<u8>,
) -> bool {
    exists|s: &[u8], v: Vec<u8>|
        s@ == request && v@ == response && #[trigger] work.ensures((s,), v)
}

/// A pass that starts with nothing counted.
pub open spec fn pass_from(dev: DeviceState, m: Seq<u8>) -> Pass {
    Pass { dev, mem: m, tally: nothing_done(), failed: None }
}

/// As many chains as one pass may deal with before its byte counters could pass 2^64: each carries
/// less than 2^32 bytes.
pub const PASS_LIMIT: u64 = 0x1_0000_0000;

/// One more response extends a run, if it belongs to the next chain.
proof fn lemma_run_extends<F: FnMut(&[u8]) -> Vec<u8>>(
    p: Pass,
    work: F,
    responses: Seq<Seq<u8>>,
    data: Seq<u8>,
)
    requires
        p.runs(work, responses),
        p.after(responses).has_next(),
        if p.after(responses).objection() is None {
            answers(work, p.after(responses).request(), data)
        } else {
            data == Seq::<u8>::empty()
        },
    ensures
        p.runs(work, responses.push(data)),
        p.after(responses.push(data)) == p.after(responses).step(data),
{
    let more = responses.push(data);
    assert(more.drop_last() =~= responses);
    assert forall|i: int| 0 <= i < more.len() implies {
        let q = #[trigger] p.after(more.take(i));
        &&& q.has_next()
        &&& if q.objection() is None {
            answers(work, q.request(), more[i])
        } else {
            more[i] == Seq::<u8>::empty()
        }
    } by {
        if i < responses.len() {
            assert(more.take(i) =~= responses.take(i));
            assert(p.after(responses.take(i)).has_next());
        } else {
            assert(more.take(i) =~= responses);
        }
    }
}

/// The pass that began at `start` has come to `p` by a run over `responses`.
#[verifier::opaque]
spec fn reached<F: FnMut(&[u8]) -> Vec<u8>>(
    start: Pass,
    work: F,
    responses: Seq<Seq<u8>>,
    p: Pass,
) -> bool {
    &&& start.runs(work, responses)
    &&& start.after(responses) == p
    &&& p.failed is None
    &&& p.tally.chains <= responses.len()
    &&& p.tally.descriptors <= 0xffff * responses.len()
    &&& p.tally.bytes_read <= 0xffff_ffff * responses.len()
    &&& p.tally.bytes_written <= 0xffff_ffff * responses.len()
}

/// The pass that began at `start` was at `before` and has taken `request`, which leaves it at `p`.
#[verifier::opaque]
spec fn asked(before: Pass, request: Request, p: Pass) -> bool {
    &&& before.has_next()
    &&& before.objection() is None
    &&& request.head == before.head()
    &&& request.data@ == before.request()
    &&& request.writable@ == buffers(before.chain().descs, true)
    &&& p == before.taken()
}

/// The pass that began at `start` has come out as `r`.
#[verifier::opaque]
spec fn concluded<F: FnMut(&[u8]) -> Vec<u8>>(
    start: Pass,
    work: F,
    dev: DeviceState,
    m: Seq<u8>,
    r: Result<ProcessStats, MemError>,
) -> bool {
    exists|responses: Seq<Seq<u8>>| #[trigger]
        start.runs(work, responses) && start.after(responses).ended(dev, m, r)
}

/// Every chain that is dealt with adds to the counters what one chain can hold, and keeps the
/// layout.
proof fn lemma_step_bounds(p: Pass, data: Seq<u8>)
    requires
        p.has_next(),
    ensures
        capacity(buffers(p.chain().descs, true)) <= u32::MAX,
        p.taken().dev.layout == p.dev.layout,
        p.taken().tally.chains <= p.tally.chains + 1,
        p.objection() is None ==> p.taken().tally.chains == p.tally.chains,
        p.taken().tally.descriptors <= p.tally.descriptors + 0xffff,
        p.taken().tally.bytes_read <= p.tally.bytes_read + 0xffff_ffff,
        p.taken().tally.bytes_written == p.tally.bytes_written,
        p.step(data).dev.layout == p.dev.layout,
        p.step(data).tally.chains <= p.tally.chains + 1,
        p.step(data).tally.descriptors <= p.tally.descriptors + 0xffff,
        p.step(data).tally.bytes_read <= p.tally.bytes_read + 0xffff_ffff,
        p.step(data).tally.bytes_written <= p.tally.bytes_written + 0xffff_ffff,
{
    let l = p.dev.layout;
    lemma_walk_bounded(p.mem, l, p.head(), l.queue_size as nat, 0, false);
    lemma_buffers_split(p.chain().descs);
    lemma_gathered_len(p.mem, buffers(p.chain().descs, false));
    lemma_scattered_len(p.taken().mem, buffers(p.chain().descs, true), data);
}

/// A scatter writes no more than the buffers hold.
pub proof fn lemma_scattered_len(m: Seq<u8>, bufs: Seq<(u64, u32)>, data: Seq<u8>)
    ensures
        scattered(m, bufs, data).written <= capacity(bufs),
        scattered(m, bufs, data).written <= data.len(),
        scattered(m, bufs, data).mem.len() == m.len(),
    decreases bufs.len(),
{
    if bufs.len() > 0 && data.len() > 0 {
        let n = least(bufs[0].1 as nat, data.len());
        match write_at(m, bufs[0].0 as int, data.take(n as int)) {
            Ok(m1) => {
                lemma_scattered_len(m1, bufs.drop_first(), data.skip(n as int));
            },
            Err(e) => {},
        }
    }
}

/// What `concluded` says.
proof fn lemma_concluded<F: FnMut(&[u8]) -> Vec<u8>>(
    start: Pass,
    work: F,
    dev: DeviceState,
    m: Seq<u8>,
    r: Result<ProcessStats, MemError>,
)
    requires
        concluded(start, work, dev, m, r),
    ensures
        exists|responses: Seq<Seq<u8>>| #[trigger]
            start.runs(work, responses) && start.after(responses).ended(dev, m, r),
{
    reveal(concluded);
}

/// A pass that ended well has logged no more chains than it dealt with.
proof fn lemma_log_within<F: FnMut(&[u8]) -> Vec<u8>>(
    start: Pass,
    work: F,
    dev: DeviceState,
    m: Seq<u8>,
    stats: ProcessStats,
)
    requires
        start.tally == nothing_done(),
        concluded(start, work, dev, m, Ok(stats)),
    ensures
        stats@.rejected.len() <= stats@.chains,
{
    reveal(concluded);
    let responses = choose|responses: Seq<Seq<u8>>| #[trigger]
        start.runs(work, responses) && start.after(responses).ended(dev, m, Ok(stats));
    lemma_ended_log(start, work, responses);
}

/// No run is longer than the bound on all of them.
proof fn lemma_within<F: FnMut(&[u8]) -> Vec<u8>>(
    start: Pass,
    work: F,
    limit: nat,
    responses: Seq<Seq<u8>>,
    p: Pass,
)
    requires
        start.drains(work, limit),
        reached(start, work, responses, p),
    ensures
        responses.len() <= limit,
{
    reveal(reached);
}

impl Pass {
    /// The log of a pass over as many chains as there are responses: one entry for each that is
    /// refused when its turn comes, and none for any other.
    pub open spec fn refusals(self, responses: Seq<Seq<u8>>) -> Seq<(u16, RejectReason)>
        decreases responses.len(),
    {
        if responses.len() == 0 {
            Seq::empty()
        } else {
            let before = self.refusals(responses.drop_last());
            let p = self.after(responses.drop_last());
            match p.refusal(responses.last()) {
                Some(reason) => before.push((p.head(), reason)),
                None => before,
            }
        }
    }
}

/// One entry per refused chain. Whatever is wrong with a chain, and with however many of its
/// buffers, the log of a pass has one entry for it if it is refused, and none otherwise; so there
/// are never more entries than chains.
pub proof fn law_one_entry_per_refused_chain(p: Pass, responses: Seq<Seq<u8>>)
    requires
        forall|i: int|
            0 <= i <= responses.len() ==> (#[trigger] p.after(responses.take(i))).failed is None,
    ensures
        p.after(responses).tally.rejected == p.tally.rejected + p.refusals(responses),
        p.refusals(responses).len() <= responses.len(),
        p.after(responses).tally.chains == p.tally.chains + responses.len(),
        p.tally.rejected.len() <= p.tally.chains ==> p.after(responses).tally.rejected.len()
            <= p.after(responses).tally.chains,
    decreases responses.len(),
{
    if responses.len() == 0 {
        assert(p.tally.rejected + Seq::<(u16, RejectReason)>::empty() =~= p.tally.rejected);
    } else {
        let some = responses.drop_last();
        let q = p.after(some);
        assert forall|i: int| 0 <= i <= some.len() implies (#[trigger] p.after(
            some.take(i),
        )).failed is None by {
            assert(some.take(i) =~= responses.take(i));
            assert(p.after(responses.take(i)).failed is None);
        }
        law_one_entry_per_refused_chain(p, some);
        assert(responses.take(responses.len() as int) =~= responses);
        assert(p.after(responses).failed is None);
        assert(q.step(responses.last()).tally.chains == q.tally.chains + 1);
        assert(p.after(responses).tally.rejected =~= p.tally.rejected + p.refusals(responses));
    }
}

/// The log of a pass that ended well is no longer than its chains.
proof fn lemma_ended_log<F: FnMut(&[u8]) -> Vec<u8>>(
    p: Pass,
    work: F,
    responses: Seq<Seq<u8>>,
)
    requires
        p.tally == nothing_done(),
        p.runs(work, responses),
        p.after(responses).failed is None,
    ensures
        p.after(responses).tally.chains == responses.len(),
        p.after(responses).tally.rejected == p.refusals(responses),
        p.refusals(responses).len() <= responses.len(),
{
    assert forall|i: int| 0 <= i <= responses.len() implies (#[trigger] p.after(
        responses.take(i),
    )).failed is None by {
        if i < responses.len() {
            assert(p.after(responses.take(i)).has_next());
        } else {
            assert(responses.take(i) =~= responses);
        }
    }
    law_one_entry_per_refused_chain(p, responses);
    assert(Seq::<(u16, RejectReason)>::empty() + p.refusals(responses) =~= p.refusals(responses));
}

impl Device {
    /// `take_request` within a pass.
    fn take_in_pass<F: FnMut(&[u8]) -> Vec<u8>>(
        &mut self,
        mem: &mut SharedMem,
        stats: &mut ProcessStats,
        Ghost(start): Ghost<Pass>,
        Ghost(work): Ghost<F>,
        Ghost(responses): Ghost<Seq<Seq<u8>>>,
    ) -> (r: Result<Taken, MemError>)
        requires
            old(self)@.layout.addressable(),
            responses.len() <= PASS_LIMIT,
            reached(
                start,
                work,
                responses,
                (Pass { dev: old(self)@, mem: old(mem)@, tally: old(stats)@, failed: None }),
            ),
        ensures
            final(self)@.layout == old(self)@.layout,
            ({
                let before = Pass {
                    dev: old(self)@,
                    mem: old(mem)@,
                    tally: old(stats)@,
                    failed: None,
                };
                let now = Pass {
                    dev: final(self)@,
                    mem: final(mem)@,
                    tally: final(stats)@,
                    failed: None,
                };
                match r {
                    Ok(Taken::Idle) => forall|s: ProcessStats|
                        s@ == final(stats)@ ==> #[trigger] concluded(
                            start,
                            work,
                            final(self)@,
                            final(mem)@,
                            Ok(s),
                        ),
                    Ok(Taken::Refused) => reached(
                        start,
                        work,
                        responses.push(Seq::empty()),
                        now,
                    ),
                    Ok(Taken::Ready(request)) => asked(before, request, now),
                    Err(e) => concluded(start, work, final(self)@, final(mem)@, Err(e)),
                }
            }),
    {
        let ghost before = Pass { dev: self@, mem: mem@, tally: stats@, failed: None };
        proof {
            reveal(reached);
            reveal(asked);
            reveal(concluded);
            if before.has_next() {
                lemma_step_bounds(before, Seq::empty());
                if before.objection() is Some {
                    lemma_run_extends(start, work, responses, Seq::empty());
                }
            }
        }
        self.take_request(mem, stats)
    }

    /// `answer` within a pass.
    fn answer_in_pass<F: FnMut(&[u8]) -> Vec<u8>>(
        &mut self,
        mem: &mut SharedMem,
        stats: &mut ProcessStats,
        request: &Request,
        response: &Vec<u8>,
        Ghost(start): Ghost<Pass>,
        Ghost(work): Ghost<F>,
        Ghost(responses): Ghost<Seq<Seq<u8>>>,
        Ghost(before): Ghost<Pass>,
    ) -> (r: Result<(), MemError>)
        requires
            old(self)@.layout.addressable(),
            responses.len() <= PASS_LIMIT,
            reached(start, work, responses, before),
            asked(
                before,
                *request,
                (Pass { dev: old(self)@, mem: old(mem)@, tally: old(stats)@, failed: None }),
            ),
            answers(work, request.data@, response@),
        ensures
            final(self)@.layout == old(self)@.layout,
            match r {
                Ok(()) => reached(
                    start,
                    work,
                    responses.push(response@),
                    (Pass {
                        dev: final(self)@,
                        mem: final(mem)@,
                        tally: final(stats)@,
                        failed: None,
                    }),
                ),
                Err(e) => concluded(start, work, final(self)@, final(mem)@, Err(e)),
            },
    {
        proof {
            reveal(reached);
            reveal(asked);
            reveal(concluded);
            lemma_step_bounds(before, response@);
            lemma_run_extends(start, work, responses, response@);
            assert(start.runs(work, responses.push(response@)));
        }
        self.answer(mem, stats, request, response)
    }

    /// Drain every available chain, applying `work` to each.
    ///
    /// `work` receives the concatenated device-readable bytes and returns the bytes to place in the
    /// device-writable buffers. This is the shape of every virtio device: gather the request,
    /// produce a response, scatter it back.
    ///
    /// A guest whose writable buffers cover its own avail ring can keep a pass going for ever; the
    /// caller answers for it that this one ends. Otherwise use `process_at_most`.
    pub fn process<F>(&mut self, mem: &mut SharedMem, work: F) -> (r: Result<
        ProcessStats,
        MemError,
    >) where F: FnMut(&[u8]) -> Vec<u8>
        requires
            old(self)@.layout.addressable(),
            forall|s: &[u8]| #[trigger] work.requires((s,)),
            exists|limit: nat|
                limit <= PASS_LIMIT && #[trigger] pass_from(old(self)@, old(mem)@).drains(
                    work,
                    limit,
                ),
        ensures
            exists|responses: Seq<Seq<u8>>| #[trigger]
                pass_from(old(self)@, old(mem)@).runs(work, responses) && pass_from(
                    old(self)@,
                    old(mem)@,
                ).after(responses).ended(final(self)@, final(mem)@, r),
            r matches Ok(stats) ==> stats@.rejected.len() <= stats@.chains,
    {
        let mut stats = ProcessStats::default();
        let ghost start = pass_from(self@, mem@);
        let mut worker = work;
        let ghost limit = choose|limit: nat|
            limit <= PASS_LIMIT && #[trigger] start.drains(work, limit);
        let ghost mut responses: Seq<Seq<u8>> = Seq::empty();
        proof {
            reveal(reached);
        }
        loop
            invariant
                worker == work,
                self@.layout.addressable(),
                forall|s: &[u8]| #[trigger] work.requires((s,)),
                start == pass_from(old(self)@, old(mem)@),
                start.drains(work, limit),
                limit <= PASS_LIMIT,
                reached(
                    start,
                    work,
                    responses,
                    (Pass { dev: self@, mem: mem@, tally: stats@, failed: None }),
                ),
            decreases limit - responses.len(),
        {
            let ghost before = Pass { dev: self@, mem: mem@, tally: stats@, failed: None };
            proof {
                lemma_within(start, work, limit, responses, before);
            }
            match self.take_in_pass::<F>(
                mem,
                &mut stats,
                Ghost(start),
                Ghost(work),
                Ghost(responses),
            ) {
                Ok(Taken::Idle) => {
                    proof {
                        lemma_concluded(start, work, self@, mem@, Ok(stats));
                        lemma_log_within(start, work, self@, mem@, stats);
                    }
                    return Ok(stats);
                },
                Ok(Taken::Refused) => {
                    proof {
                        responses = responses.push(Seq::empty());
                        let now = Pass { dev: self@, mem: mem@, tally: stats@, failed: None };
                        lemma_within(start, work, limit, responses, now);
                    }
                },
                Ok(Taken::Ready(request)) => {
                    let response = worker(request.data.as_slice());
                    match self.answer_in_pass::<F>(
                        mem,
                        &mut stats,
                        &request,
                        &response,
                        Ghost(start),
                        Ghost(work),
                        Ghost(responses),
                        Ghost(before),
                    ) {
                        Ok(()) => {
                            proof {
                                responses = responses.push(response@);
                                let now = Pass {
                                    dev: self@,
                                    mem: mem@,
                                    tally: stats@,
                                    failed: None,
                                };
                                lemma_within(start, work, limit, responses, now);
                            }
                        },
                        Err(e) => {
                            proof {
                                lemma_concluded(start, work, self@, mem@, Err(e));
                            }
                            return Err(e);
                        },
                    }
                },
                Err(e) => {
                    proof {
                        lemma_concluded(start, work, self@, mem@, Err(e));
                    }
                    return Err(e);
                },
            }
        }
    }
}

/// A pass that stopped short of its end: it has dealt with one chain per response, and nothing has
/// failed.
pub open spec fn stopped_at(
    p: Pass,
    responses: Seq<Seq<u8>>,
    dev: DeviceState,
    m: Seq<u8>,
    t: Tally,
) -> bool {
    &&& p.after(responses).failed is None
    &&& dev == p.after(responses).dev
    &&& m == p.after(responses).mem
    &&& t == p.after(responses).tally
}

/// What `reached` says.
proof fn lemma_reached<F: FnMut(&[u8]) -> Vec<u8>>(
    start: Pass,
    work: F,
    responses: Seq<Seq<u8>>,
    p: Pass,
)
    requires
        reached(start, work, responses, p),
    ensures
        start.runs(work, responses) && stopped_at(start, responses, p.dev, p.mem, p.tally),
{
    reveal(reached);
}

impl Device {
    /// Drain the available chains as `process` does, but no more than `limit` of them, whatever the
    /// guest does. Also says whether the queue was found empty; if not, `limit` chains were dealt
    /// with.
    pub fn process_at_most<F>(&mut self, mem: &mut SharedMem, limit: u32, work: F) -> (r: Result<
        (ProcessStats, bool),
        MemError,
    >) where F: FnMut(&[u8]) -> Vec<u8>
        requires
            old(self)@.layout.addressable(),
            forall|s: &[u8]| #[trigger] work.requires((s,)),
        ensures
            ({
                let start = pass_from(old(self)@, old(mem)@);
                match r {
                    Ok((stats, true)) => exists|responses: Seq<Seq<u8>>| #[trigger]
                        start.runs(work, responses) && start.after(responses).ended(
                            final(self)@,
                            final(mem)@,
                            Ok(stats),
                        ),
                    Ok((stats, false)) => exists|responses: Seq<Seq<u8>>| #[trigger]
                        start.runs(work, responses) && responses.len() == limit && stopped_at(
                            start,
                            responses,
                            final(self)@,
                            final(mem)@,
                            stats@,
                        ),
                    Err(e) => exists|responses: Seq<Seq<u8>>| #[trigger]
                        start.runs(work, responses) && start.after(responses).ended(
                            final(self)@,
                            final(mem)@,
                            Err(e),
                        ),
                }
            }),
            r matches Ok((stats, _)) ==> stats@.rejected.len() <= stats@.chains,
    {
        let mut stats = ProcessStats::default();
        let ghost start = pass_from(self@, mem@);
        let mut worker = work;
        let mut done: u32 = 0;
        let ghost mut responses: Seq<Seq<u8>> = Seq::empty();
        proof {
            reveal(reached);
        }
        while done < limit
            invariant
                done <= limit,
                done == responses.len(),
                worker == work,
                self@.layout.addressable(),
                forall|s: &[u8]| #[trigger] work.requires((s,)),
                start == pass_from(old(self)@, old(mem)@),
                reached(
                    start,
                    work,
                    responses,
                    (Pass { dev: self@, mem: mem@, tally: stats@, failed: None }),
                ),
            decreases limit - done,
        {
            let ghost before = Pass { dev: self@, mem: mem@, tally: stats@, failed: None };
            match self.take_in_pass::<F>(
                mem,
                &mut stats,
                Ghost(start),
                Ghost(work),
                Ghost(responses),
            ) {
                Ok(Taken::Idle) => {
                    proof {
                        lemma_concluded(start, work, self@, mem@, Ok(stats));
                        lemma_log_within(start, work, self@, mem@, stats);
                    }
                    return Ok((stats, true));
                },
                Ok(Taken::Refused) => {
                    proof {
                        responses = responses.push(Seq::empty());
                    }
                },
                Ok(Taken::Ready(request)) => {
                    let response = worker(request.data.as_slice());
                    match self.answer_in_pass::<F>(
                        mem,
                        &mut stats,
                        &request,
                        &response,
                        Ghost(start),
                        Ghost(work),
                        Ghost(responses),
                        Ghost(before),
                    ) {
                        Ok(()) => {
                            proof {
                                responses = responses.push(response@);
                            }
                        },
                        Err(e) => {
                            proof {
                                lemma_concluded(start, work, self@, mem@, Err(e));
                            }
                            return Err(e);
                        },
                    }
                },
                Err(e) => {
                    proof {
                        lemma_concluded(start, work, self@, mem@, Err(e));
                    }
                    return Err(e);
                },
            }
            done += 1;
        }
        proof {
            let now = Pass { dev: self@, mem: mem@, tally: stats@, failed: None };
            lemma_reached(start, work, responses, now);
            lemma_ended_log(start, work, responses);
        }
        Ok((stats, false))
    }
}

impl Pass {
    /// How a pass comes out, for the device, the region and the caller. It ends well when no chain
    /// is left. It ends in an error when a completion could not be published, or when the avail
    /// ring could not be read.
    pub open spec fn ended(
        self,
        dev: DeviceState,
        m: Seq<u8>,
        r: Result<ProcessStats, MemError>,
    ) -> bool {
        &&& dev == self.dev
        &&& m == self.mem
        &&& match r {
            Ok(stats) => {
                &&& self.failed is None
                &&& self.dev.next_head(self.mem) == Ok::<Option<u16>, MemError>(None)
                &&& stats@ == self.tally
            },
            Err(e) => match self.failed {
                Some(f) => e == f,
                None => self.dev.next_head(self.mem) == Err::<Option<u16>, MemError>(e),
            },
        }
    }
}

} // verus!
