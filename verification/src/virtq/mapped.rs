//! The device half of the same virtqueue on the crates `virtio-queue` and `vm-memory`.
//!
//! `virtio-queue` provides the layout, the walk over a chain and the ring counters; `vm-memory` a
//! region of mapped guest memory. What a request means, how it is gathered, what is written back and
//! how many bytes that was is this device's own.

use crate::virtq::backing::{
    accessible, add_used, chain_mapping, chain_place, decided, decides, device_of, first_step,
    from_ranges, head_index, inside_part, mapping_of, mock_driver, mock_memory, mock_queue,
    mock_stores, needs_notification, next_buffer, next_step, own_rest, publishable, queue_fields,
    ram_contents, read_slice, readable, set_event_idx, steps_left, steps_on, table_at, take_chains,
    unwalked, visible, walk_mapping, walk_place, writable, write_slice,
};
use crate::virtq::chain::{chain_from, descriptor_at, lemma_walk_reads_table, walk};
use crate::virtq::device::{buffers, least, DeviceState};
use crate::virtq::driver::store_all;
use crate::virtq::layout::{
    align_up, is_power_of_two, law_fields_inside_parts, least_multiple, lemma_least_multiple,
    lemma_power_of_two_divides, wrap, Descriptor, VirtqLayout, VIRTQ_DESC_F_NEXT,
    VIRTQ_DESC_F_WRITE,
};
use crate::virtq::mem::{agree, apart, put, u16_at};
use std::sync::Arc;
use vstd::prelude::*;

verus! {

/// What went wrong on the way to a mapped device or in it.
#[derive(Debug, Clone, Copy, PartialEq, Eq, Structural)]
pub enum MappedError {
    /// The memory could not be mapped.
    Mapping,
    /// An access to the memory was refused.
    Memory,
    /// The queue refused an operation.
    Queue,
    /// The chains could not be published.
    Driver,
}

/// Mapped guest memory, one region from address 0 on. Nobody else holds it.
pub struct GuestRam {
    mem: Arc<vm_memory::GuestMemoryMmap<()>>,
}

impl View for GuestRam {
    type V = Seq<u8>;

    closed spec fn view(&self) -> Seq<u8> {
        ram_contents(*self.mem)
    }
}

impl GuestRam {
    /// Which mapping it is: every memory that `new` made is one.
    pub closed spec fn mapping(self) -> Option<int> {
        mapping_of(*self.mem)
    }

    /// Map `len` bytes.
    pub fn new(len: usize) -> (r: Result<GuestRam, MappedError>)
        ensures
            match r {
                Ok(ram) => ram@ == Seq::new(len as nat, |i: int| 0u8) && ram.mapping() is Some,
                Err(e) => e == MappedError::Mapping,
            },
    {
        match from_ranges(len) {
            Ok(mem) => Ok(GuestRam { mem }),
            Err(_) => Err(MappedError::Mapping),
        }
    }

    /// The `len` bytes at `addr`.
    pub fn read(&self, addr: u64, len: u32) -> (r: Result<Vec<u8>, MappedError>)
        requires
            self.mapping() is Some,
        ensures
            match r {
                Ok(bytes) => accessible(self@.len(), addr as int, len as nat) && bytes@ == visible(
                    self@,
                    addr as int,
                    len as nat,
                ),
                Err(e) => !accessible(self@.len(), addr as int, len as nat) && e
                    == MappedError::Memory,
            },
    {
        let mut buf: Vec<u8> = vec![0u8; len as usize];
        match read_slice(&self.mem, buf.as_mut_slice(), addr) {
            Ok(()) => {
                assert(buf@ =~= visible(self@, addr as int, len as nat));
                Ok(buf)
            },
            Err(_) => Err(MappedError::Memory),
        }
    }

    /// Store `data` at `addr`. Where not all of it lies inside the memory, what does is stored, and
    /// the rest refused.
    pub fn write(&mut self, addr: u64, data: &[u8]) -> (r: Result<(), MappedError>)
        requires
            old(self).mapping() is Some,
        ensures
            final(self)@ == stored_part(old(self)@, addr as int, data@),
            final(self).mapping() == old(self).mapping(),
            r == if accessible(old(self)@.len(), addr as int, data@.len()) {
                Ok::<(), MappedError>(())
            } else {
                Err::<(), MappedError>(MappedError::Memory)
            },
    {
        match write_slice(&mut self.mem, data, addr) {
            Ok(()) => Ok(()),
            Err(_) => Err(MappedError::Memory),
        }
    }
}

/// The memory with as much of `data` at `addr` as it holds.
pub open spec fn stored_part(ram: Seq<u8>, addr: int, data: Seq<u8>) -> Seq<u8> {
    put(ram, addr, data.take(inside_part(ram.len(), addr, data.len()) as int))
}

/// What gathering over mapped memory comes to.
#[verifier::ext_equal]
pub struct MappedGather {
    pub data: Seq<u8>,
    /// How many buffers were looked at.
    pub visited: nat,
    pub refused: bool,
}

/// The contents of the buffers, one behind the other, up to the first that cannot be read.
pub open spec fn mapped_gathered(ram: Seq<u8>, bufs: Seq<(u64, u32)>) -> MappedGather
    decreases bufs.len(),
{
    if bufs.len() == 0 {
        MappedGather { data: Seq::empty(), visited: 0, refused: false }
    } else if !accessible(ram.len(), bufs[0].0 as int, bufs[0].1 as nat) {
        MappedGather { data: Seq::empty(), visited: 1, refused: true }
    } else {
        let rest = mapped_gathered(ram, bufs.drop_first());
        MappedGather {
            data: visible(ram, bufs[0].0 as int, bufs[0].1 as nat) + rest.data,
            visited: 1 + rest.visited,
            refused: rest.refused,
        }
    }
}

/// What is gathered along a walk.
pub open spec fn walk_gathered(
    ram: Seq<u8>,
    place: (u64, u16, u16, u16, u32, bool, bool),
) -> MappedGather
    decreases steps_left(place),
{
    let (item, next) = next_step(ram, place);
    match item {
        Some(b) => if !steps_on(place, b, next) {
            MappedGather { data: Seq::empty(), visited: 0, refused: false }
        } else if !accessible(ram.len(), b.0 as int, b.1 as nat) {
            MappedGather { data: Seq::empty(), visited: 1, refused: true }
        } else {
            let rest = walk_gathered(ram, next);
            MappedGather {
                data: visible(ram, b.0 as int, b.1 as nat) + rest.data,
                visited: 1 + rest.visited,
                refused: rest.refused,
            }
        },
        None => MappedGather { data: Seq::empty(), visited: 0, refused: false },
    }
}

/// What scattering over mapped memory comes to.
#[verifier::ext_equal]
pub struct MappedScatter {
    pub ram: Seq<u8>,
    pub written: nat,
    /// How many buffers were looked at: those written to, and the one at which there was nothing
    /// left to write.
    pub visited: nat,
    pub refused: bool,
}

/// `data` put into the buffers in order, each filled before the next, until the data, the buffers or
/// the memory runs out.
pub open spec fn mapped_scattered(
    ram: Seq<u8>,
    bufs: Seq<(u64, u32)>,
    data: Seq<u8>,
) -> MappedScatter
    decreases bufs.len(),
{
    if bufs.len() == 0 {
        MappedScatter { ram, written: 0, visited: 0, refused: false }
    } else if data.len() == 0 {
        MappedScatter { ram, written: 0, visited: 1, refused: false }
    } else {
        let n = least(bufs[0].1 as nat, data.len());
        let piece = data.take(n as int);
        let after = stored_part(ram, bufs[0].0 as int, piece);
        if !accessible(ram.len(), bufs[0].0 as int, n) {
            MappedScatter { ram: after, written: 0, visited: 1, refused: true }
        } else {
            let rest = mapped_scattered(after, bufs.drop_first(), data.skip(n as int));
            MappedScatter {
                ram: rest.ram,
                written: n + rest.written,
                visited: 1 + rest.visited,
                refused: rest.refused,
            }
        }
    }
}

/// `data` scattered along a walk. The walk reads on in the memory as it is after each store.
pub open spec fn walk_scattered(
    ram: Seq<u8>,
    place: (u64, u16, u16, u16, u32, bool, bool),
    data: Seq<u8>,
) -> MappedScatter
    decreases steps_left(place),
{
    let (item, next) = next_step(ram, place);
    match item {
        Some(b) => if !steps_on(place, b, next) {
            MappedScatter { ram, written: 0, visited: 0, refused: false }
        } else if data.len() == 0 {
            MappedScatter { ram, written: 0, visited: 1, refused: false }
        } else {
            let n = least(b.1 as nat, data.len());
            let after = stored_part(ram, b.0 as int, data.take(n as int));
            if !accessible(ram.len(), b.0 as int, n) {
                MappedScatter { ram: after, written: 0, visited: 1, refused: true }
            } else {
                let rest = walk_scattered(after, next, data.skip(n as int));
                MappedScatter {
                    ram: rest.ram,
                    written: n + rest.written,
                    visited: 1 + rest.visited,
                    refused: rest.refused,
                }
            }
        },
        None => MappedScatter { ram, written: 0, visited: 0, refused: false },
    }
}

impl GuestRam {
    /// Gather one buffer behind what was gathered before.
    pub fn gather(&self, request: &mut Vec<u8>, addr: u64, len: u32) -> (r: Result<
        (),
        MappedError,
    >)
        requires
            self.mapping() is Some,
        ensures
            if accessible(self@.len(), addr as int, len as nat) {
                &&& r == Ok::<(), MappedError>(())
                &&& final(request)@ == old(request)@ + visible(self@, addr as int, len as nat)
            } else {
                &&& r == Err::<(), MappedError>(MappedError::Memory)
                &&& final(request)@ == old(request)@
            },
    {
        match self.read(addr, len) {
            Ok(mut bytes) => {
                request.append(&mut bytes);
                Ok(())
            },
            Err(e) => Err(e),
        }
    }

    /// Put as much of a response from `cursor` on into one buffer as it takes: how much that was.
    ///
    /// The device controls the response, the driver controls the length of the buffer: writing more
    /// than the driver offered would be a write that the guest never agreed to.
    pub fn scatter(&mut self, response: &Vec<u8>, cursor: usize, addr: u64, len: u32) -> (r: Result<
        usize,
        MappedError,
    >)
        requires
            old(self).mapping() is Some,
            cursor <= response@.len(),
        ensures
            final(self).mapping() == old(self).mapping(),
            ({
                let n = least(len as nat, (response@.len() - cursor) as nat);
                &&& final(self)@ == stored_part(
                    old(self)@,
                    addr as int,
                    response@.skip(cursor as int).take(n as int),
                )
                &&& if accessible(old(self)@.len(), addr as int, n) {
                    r matches Ok(k) && k == n
                } else {
                    r matches Err(e) && e == MappedError::Memory
                }
            }),
    {
        let left: usize = response.len() - cursor;
        let n: usize = if (len as usize) <= left {
            len as usize
        } else {
            left
        };
        assert(response@.skip(cursor as int).take(n as int) =~= response@.subrange(
            cursor as int,
            cursor + n,
        ));
        match self.write(addr, &response[cursor..cursor + n]) {
            Ok(()) => Ok(n),
            Err(e) => Err(e),
        }
    }
}

/// An ASCII letter in upper case; any other byte as it is.
pub open spec fn upper(b: u8) -> u8 {
    if 0x61 <= b <= 0x7a {
        (b - 0x20) as u8
    } else {
        b
    }
}

/// The bytes with every ASCII letter in upper case: the work of the demo device.
pub fn to_upper(bytes: &[u8]) -> (r: Vec<u8>)
    ensures
        r@ == bytes@.map_values(|b: u8| upper(b)),
{
    let mut out: Vec<u8> = Vec::new();
    let mut i: usize = 0;
    while i < bytes.len()
        invariant
            i <= bytes@.len(),
            out@ =~= bytes@.take(i as int).map_values(|b: u8| upper(b)),
        decreases bytes@.len() - i,
    {
        let b: u8 = bytes[i];
        if 0x61 <= b && b <= 0x7a {
            out.push(b - 0x20);
        } else {
            out.push(b);
        }
        i += 1;
    }
    assert(bytes@.take(i as int) =~= bytes@);
    out
}

/// A device on mapped memory.
pub struct MappedDevice {
    ram: GuestRam,
    queue: virtio_queue::Queue,
}

/// What a device on mapped memory holds.
#[verifier::ext_equal]
pub struct MappedState {
    pub dev: DeviceState,
    pub ram: Seq<u8>,
}

impl View for MappedDevice {
    type V = MappedState;

    closed spec fn view(&self) -> MappedState {
        MappedState { dev: device_of(queue_fields(self.queue)), ram: self.ram@ }
    }
}

impl MappedDevice {
    /// Which mapping its memory is: the one that it was made over.
    pub closed spec fn mapping(self) -> Option<int> {
        self.ram.mapping()
    }
}

/// What serving one chain comes to.
#[verifier::ext_equal]
pub struct Served {
    pub state: MappedState,
    /// The bytes written and the descriptors looked at.
    pub result: Result<(u32, nat), MappedError>,
}

impl MappedState {
    /// The queue is one that can be used: it has entries, its rings are aligned and lie inside the
    /// memory.
    pub open spec fn wf(self) -> bool {
        &&& self.dev.layout.queue_size > 0
        &&& self.dev.layout.avail_ring.0 > 0
        &&& self.dev.layout.avail_ring.0 % 2 == 0
        &&& self.dev.layout.used_ring.0 % 4 == 0
        &&& self.dev.layout.inside(self.ram.len())
    }

    /// The chain of `head` once its request is gathered and the response to it, the same in upper
    /// case, is scattered: if both went through, it is completed with the number of bytes that went
    /// in.
    pub open spec fn concluded(self, head: u16, g: MappedGather, s: MappedScatter) -> Served {
        if g.refused {
            Served { state: self, result: Err(MappedError::Memory) }
        } else if s.refused {
            Served { state: MappedState { ram: s.ram, ..self }, result: Err(MappedError::Memory) }
        } else if head >= self.dev.layout.queue_size {
            Served { state: MappedState { ram: s.ram, ..self }, result: Err(MappedError::Queue) }
        } else {
            let c = self.dev.complete(s.ram, head, s.written as u32);
            Served {
                state: MappedState { dev: c.dev, ram: c.mem },
                result: Ok((s.written as u32, g.visited + s.visited)),
            }
        }
    }

    /// Where a walk over the chain of `head` starts.
    pub open spec fn start(self, head: u16, writable: bool) -> (
        u64,
        u16,
        u16,
        u16,
        u32,
        bool,
        bool,
    ) {
        first_step((self.dev.layout.desc_table.0, self.dev.layout.queue_size, head), writable)
    }

    /// The chain of `head` is served, along the walks of `virtio-queue`.
    #[verifier::opaque]
    pub open spec fn served(self, head: u16) -> Served {
        let g = walk_gathered(self.ram, self.start(head, false));
        let s = walk_scattered(
            self.ram,
            self.start(head, true),
            g.data.map_values(|b: u8| upper(b)),
        );
        self.concluded(head, g, s)
    }

    /// The chain of `head` is served over these buffers.
    #[verifier::opaque]
    pub open spec fn served_over(
        self,
        head: u16,
        readable: Seq<(u64, u32)>,
        writable: Seq<(u64, u32)>,
    ) -> Served {
        let g = mapped_gathered(self.ram, readable);
        let s = mapped_scattered(self.ram, writable, g.data.map_values(|b: u8| upper(b)));
        self.concluded(head, g, s)
    }

    /// This library's own walk finds nothing wrong with the chain of `head`, and no answer to it can
    /// reach the descriptor table.
    pub open spec fn plain_chain(self, head: u16) -> bool {
        let w = chain_from(self.ram, self.dev.layout, head);
        &&& w.error is None
        &&& forall|j: int|
            0 <= j < buffers(w.descs, true).len() ==> off_the_table(
                self.dev.layout,
                #[trigger] buffers(w.descs, true)[j],
            )
    }

    /// The chain of `head` is served over the buffers that this library's own walk finds.
    pub open spec fn served_plainly(self, head: u16) -> Served {
        let w = chain_from(self.ram, self.dev.layout, head);
        self.served_over(head, buffers(w.descs, false), buffers(w.descs, true))
    }

    /// The chains of `heads` served in order, up to the first that fails.
    pub open spec fn run(self, heads: Seq<u16>) -> Run
        decreases heads.len(),
    {
        if heads.len() == 0 {
            Run { state: self, out: Seq::empty(), descriptors: 0, error: None }
        } else {
            let before = self.run(heads.drop_last());
            if before.error is Some {
                before
            } else {
                before.and(heads.last(), before.state.served(heads.last()))
            }
        }
    }

    /// The chains of `heads` served in order over the buffers that this library's own walk finds.
    pub open spec fn run_plainly(self, heads: Seq<u16>) -> Run
        decreases heads.len(),
    {
        if heads.len() == 0 {
            Run { state: self, out: Seq::empty(), descriptors: 0, error: None }
        } else {
            let before = self.run_plainly(heads.drop_last());
            if before.error is Some {
                before
            } else {
                before.and(heads.last(), before.state.served_plainly(heads.last()))
            }
        }
    }

    /// Each of the chains of `heads` is a plain one when its turn comes.
    pub open spec fn all_plain(self, heads: Seq<u16>) -> bool
        decreases heads.len(),
    {
        heads.len() == 0 || (self.all_plain(heads.drop_last()) && self.run_plainly(
            heads.drop_last(),
        ).state.plain_chain(heads.last()))
    }

    /// The heads of the pending chains, in order.
    pub open spec fn pending_heads(self) -> Seq<u16> {
        Seq::new(
            self.dev.pending(self.ram)->Ok_0 as nat,
            |i: int|
                u16_at(
                    self.ram,
                    self.dev.layout.avail_slot_addr(wrap(self.dev.next_avail + i)),
                )->Ok_0,
        )
    }

    /// The device once it has taken `n` entries.
    pub open spec fn took(self, n: nat) -> MappedState {
        MappedState {
            dev: DeviceState { next_avail: wrap(self.dev.next_avail + n) as u16, ..self.dev },
            ..self
        }
    }
}

/// What serving a run of chains comes to.
#[verifier::ext_equal]
pub struct Run {
    pub state: MappedState,
    pub out: Seq<(u16, u32)>,
    pub descriptors: nat,
    pub error: Option<MappedError>,
}

impl Run {
    /// The run with one more chain.
    pub open spec fn and(self, head: u16, s: Served) -> Run {
        match s.result {
            Ok((written, looked)) => Run {
                state: s.state,
                out: self.out.push((head, written)),
                descriptors: self.descriptors + looked,
                error: None,
            },
            Err(e) => Run { state: s.state, error: Some(e), ..self },
        }
    }
}

/// A buffer of no bytes, or one that shares none with the descriptor table.
pub open spec fn off_the_table(l: VirtqLayout, b: (u64, u32)) -> bool {
    b.1 == 0 || apart(b.0 as int, b.1 as nat, l.desc_table.0 as int, l.desc_bytes())
}

/// What a pass of a device on mapped memory did.
pub struct MappedPass {
    /// The head of each chain that was served, with the bytes written into it.
    pub completions: Vec<(u16, u32)>,
    /// How many descriptors were looked at.
    pub descriptors: u64,
}

/// Completing a chain of a queue inside the memory keeps the memory's size and the queue's place.
proof fn lemma_complete_keeps(dev: DeviceState, ram: Seq<u8>, head: u16, len: u32)
    ensures
        dev.complete(ram, head, len).mem.len() == ram.len(),
        dev.complete(ram, head, len).dev.layout == dev.layout,
        dev.complete(ram, head, len).dev.event_idx == dev.event_idx,
{
}

impl GuestRam {
    /// Publish the descriptors through a driver's side that stands in for a guest, and make the
    /// device over them.
    pub fn into_device(self, size: u16, descs: &Vec<Descriptor>) -> (r: Result<
        MappedDevice,
        MappedError,
    >)
        requires
            self.mapping() is Some,
            mock_queue(size).layout.inside(self@.len()),
        ensures
            match r {
                Ok(d) => publishable(size, descs@.len()) && d@.wf() && d.mapping()
                    == self.mapping() && d@ == (MappedState {
                    dev: mock_queue(size),
                    ram: mock_memory(self@, size, descs@),
                }),
                Err(e) => !publishable(size, descs@.len()) && e == MappedError::Driver,
            },
    {
        let mut ram = self;
        match mock_driver(&mut ram.mem, size, descs) {
            Ok(queue) => {
                proof {
                    lemma_mock_queue(size);
                    lemma_store_all_len(self@, mock_stores(size, descs@));
                }
                Ok(MappedDevice { ram, queue })
            },
            Err(_) => Err(MappedError::Driver),
        }
    }
}

/// Stores keep the size of the memory.
proof fn lemma_store_all_len(m: Seq<u8>, stores: Seq<(int, Seq<u8>)>)
    ensures
        store_all(m, stores).mem.len() == m.len(),
    decreases stores.len(),
{
    if stores.len() > 0 {
        lemma_store_all_len(m, stores.drop_last());
    }
}

/// The rings of the mock are aligned.
proof fn lemma_mock_queue(size: u16)
    requires
        is_power_of_two(size as int),
        size <= 32768,
    ensures
        mock_queue(size).layout.queue_size > 0,
        mock_queue(size).layout.avail_ring.0 > 0,
        mock_queue(size).layout.avail_ring.0 % 2 == 0,
        mock_queue(size).layout.used_ring.0 % 4 == 0,
{
    lemma_power_of_two_divides(size as int);
    lemma_least_multiple(16 * size + 4 + size, 4);
}

impl MappedDevice {
    /// Turn `EVENT_IDX` on or off.
    pub fn set_event_idx(&mut self, enabled: bool)
        ensures
            final(self).mapping() == old(self).mapping(),
            final(self)@ == (MappedState {
                dev: DeviceState { event_idx: enabled, ..old(self)@.dev },
                ..old(self)@
            }),
    {
        set_event_idx(&mut self.queue, enabled);
    }

    /// Should the device interrupt the driver?
    pub fn needs_notification(&mut self) -> (r: Result<bool, MappedError>)
        requires
            old(self).mapping() is Some,
            old(self)@.wf(),
        ensures
            final(self).mapping() == old(self).mapping(),
            r matches Ok(due) && decides(old(self)@.dev, old(self)@.ram, due),
            final(self)@ == (MappedState { dev: decided(old(self)@.dev), ..old(self)@ }),
    {
        match needs_notification(&mut self.queue, &self.ram.mem) {
            Ok(due) => Ok(due),
            Err(_) => Err(MappedError::Queue),
        }
    }

    /// The `len` bytes at `addr` of the memory.
    pub fn read(&self, addr: u64, len: u32) -> (r: Result<Vec<u8>, MappedError>)
        requires
            self.mapping() is Some,
        ensures
            match r {
                Ok(bytes) => accessible(self@.ram.len(), addr as int, len as nat) && bytes@
                    == visible(self@.ram, addr as int, len as nat),
                Err(e) => !accessible(self@.ram.len(), addr as int, len as nat) && e
                    == MappedError::Memory,
            },
    {
        self.ram.read(addr, len)
    }

    /// Complete the chain of `head`, with `written` bytes in it.
    pub fn complete(&mut self, head: u16, written: u32) -> (r: Result<(), MappedError>)
        requires
            old(self).mapping() is Some,
            old(self)@.wf(),
        ensures
            final(self)@.wf(),
            final(self).mapping() == old(self).mapping(),
            if head < old(self)@.dev.layout.queue_size {
                let c = old(self)@.dev.complete(old(self)@.ram, head, written);
                &&& r == Ok::<(), MappedError>(())
                &&& final(self)@ == (MappedState { dev: c.dev, ram: c.mem })
            } else {
                &&& r == Err::<(), MappedError>(MappedError::Queue)
                &&& final(self)@ == old(self)@
            },
    {
        proof {
            lemma_complete_keeps(self@.dev, self@.ram, head, written);
        }
        match add_used(&mut self.queue, &mut self.ram.mem, head, written) {
            Ok(()) => Ok(()),
            Err(_) => Err(MappedError::Queue),
        }
    }

    /// Gather the request of a chain: its bytes, and how many descriptors were looked at.
    fn gather_chain(
        &self,
        chain: &virtio_queue::DescriptorChain<Arc<vm_memory::GuestMemoryMmap<()>>>,
        Ghost(own): Ghost<Seq<(u64, u32)>>,
    ) -> (r: Result<(Vec<u8>, u64), MappedError>)
        requires
            self.mapping() is Some,
            unwalked(*chain),
            chain_mapping(*chain) == self.mapping(),
        ensures
            ({
                let start = first_step(chain_place(*chain), false);
                let g = walk_gathered(self@.ram, start);
                &&& match r {
                    Ok((data, n)) => !g.refused && data@ == g.data && n == g.visited && n
                        <= 0x2_0000,
                    Err(e) => g.refused && e == MappedError::Memory,
                }
                &&& own_rest(self@.ram, start) == Some(own) ==> g == mapped_gathered(
                    self@.ram,
                    own,
                )
            }),
    {
        let ghost ram = self@.ram;
        let ghost start = first_step(chain_place(*chain), false);
        let ghost g = walk_gathered(ram, start);
        let ghost alike = own_rest(ram, start) == Some(own);
        let ghost o = mapped_gathered(ram, own);
        let ghost mut left = own;
        let mut request: Vec<u8> = Vec::new();
        let mut n: u64 = 0;
        let mut walk = readable(chain);
        assert(Seq::<u8>::empty() + g.data =~= g.data);
        assert(Seq::<u8>::empty() + o.data =~= o.data);
        loop
            invariant
                ram == self@.ram,
                self.mapping() is Some,
                walk_mapping(walk) == self.mapping(),
                start == first_step(chain_place(*chain), false),
                g == walk_gathered(ram, start),
                o == mapped_gathered(ram, own),
                alike == (own_rest(ram, start) == Some(own)),
                n + steps_left(walk_place(walk)) <= steps_left(start),
                gathering(g, walk_gathered(ram, walk_place(walk)), request@, n as nat),
                alike ==> own_rest(ram, walk_place(walk)) == Some(left),
                alike ==> gathering(o, mapped_gathered(ram, left), request@, n as nat),
            decreases steps_left(walk_place(walk)),
        {
            let ghost place = walk_place(walk);
            match next_buffer(&mut walk, &self.ram.mem) {
                Some((addr, len)) => {
                    n += 1;
                    let ghost before = request@;
                    match self.ram.gather(&mut request, addr, len) {
                        Ok(()) => {
                            proof {
                                let bytes = visible(ram, addr as int, len as nat);
                                lemma_gathered_on(
                                    g,
                                    walk_gathered(ram, place),
                                    walk_gathered(ram, walk_place(walk)),
                                    before,
                                    bytes,
                                    (n - 1) as nat,
                                );
                                if alike {
                                    lemma_gathered_on(
                                        o,
                                        mapped_gathered(ram, left),
                                        mapped_gathered(ram, left.drop_first()),
                                        before,
                                        bytes,
                                        (n - 1) as nat,
                                    );
                                    left = left.drop_first();
                                }
                            }
                        },
                        Err(e) => {
                            assert(g.visited == n && g.refused);
                            assert(alike ==> g =~= o);
                            return Err(e);
                        },
                    }
                },
                None => {
                    assert(request@ + Seq::<u8>::empty() =~= request@);
                    assert(alike ==> g =~= o);
                    return Ok((request, n));
                },
            }
        }
    }

    /// Scatter a response over a chain: the bytes that went in, and how many descriptors were looked
    /// at.
    fn scatter_chain(
        &mut self,
        chain: &virtio_queue::DescriptorChain<Arc<vm_memory::GuestMemoryMmap<()>>>,
        response: &Vec<u8>,
        Ghost(own): Ghost<Seq<(u64, u32)>>,
    ) -> (r: Result<(u32, u64), MappedError>)
        requires
            old(self).mapping() is Some,
            unwalked(*chain),
            chain_mapping(*chain) == old(self).mapping(),
        ensures
            final(self).mapping() == old(self).mapping(),
            final(self)@.dev == old(self)@.dev,
            final(self)@.ram.len() == old(self)@.ram.len(),
            ({
                let start = first_step(chain_place(*chain), true);
                let s = walk_scattered(old(self)@.ram, start, response@);
                &&& final(self)@.ram == s.ram
                &&& match r {
                    Ok((written, n)) => !s.refused && written == s.written && n == s.visited && n
                        <= 0x2_0000,
                    Err(e) => s.refused && e == MappedError::Memory,
                }
                &&& own_rest(old(self)@.ram, start) == Some(own) && stay_off(
                    table_at(start.0, start.1),
                    own,
                ) ==> s == mapped_scattered(old(self)@.ram, own, response@)
            }),
    {
        let ghost ram = self@.ram;
        let ghost start = first_step(chain_place(*chain), true);
        let ghost table = table_at(start.0, start.1);
        let ghost s = walk_scattered(ram, start, response@);
        let ghost alike = own_rest(ram, start) == Some(own) && stay_off(table, own);
        let ghost o = mapped_scattered(ram, own, response@);
        let ghost mut left = own;
        let mut cursor: usize = 0;
        let mut written: u32 = 0;
        let mut n: u64 = 0;
        let mut walk = writable(chain);
        assert(response@.skip(0) =~= response@);
        loop
            invariant
                ram == old(self)@.ram,
                walk_mapping(walk) == self.mapping(),
                self.mapping() == old(self).mapping(),
                self.mapping() is Some,
                self@.dev == old(self)@.dev,
                self@.ram.len() == ram.len(),
                start == first_step(chain_place(*chain), true),
                table == table_at(start.0, start.1),
                s == walk_scattered(ram, start, response@),
                o == mapped_scattered(ram, own, response@),
                alike == (own_rest(ram, start) == Some(own) && stay_off(table, own)),
                n + steps_left(walk_place(walk)) <= steps_left(start),
                cursor <= response@.len(),
                cursor == written,
                written <= walk_place(walk).4,
                scattering(
                    s,
                    walk_scattered(self@.ram, walk_place(walk), response@.skip(cursor as int)),
                    written as nat,
                    n as nat,
                ),
                alike ==> {
                    &&& walk_place(walk).0 == start.0
                    &&& walk_place(walk).1 == start.1
                    &&& own_rest(self@.ram, walk_place(walk)) == Some(left)
                    &&& stay_off(table, left)
                    &&& scattering(
                        o,
                        mapped_scattered(self@.ram, left, response@.skip(cursor as int)),
                        written as nat,
                        n as nat,
                    )
                },
            decreases steps_left(walk_place(walk)),
        {
            let ghost before = self@.ram;
            match next_buffer(&mut walk, &self.ram.mem) {
                Some((addr, len)) => {
                    n += 1;
                    if cursor >= response.len() {
                        assert(alike ==> s =~= o);
                        return Ok((written, n));
                    }
                    match self.ram.scatter(response, cursor, addr, len) {
                        Ok(k) => {
                            proof {
                                let data = response@.skip(cursor as int);
                                assert(data.skip(k as int) =~= response@.skip(cursor + k));
                                if alike {
                                    assert(left[0] == (addr, len));
                                    lemma_stay_off_rest(table, left);
                                    lemma_store_off_table(
                                        before,
                                        addr,
                                        data.take(k as int),
                                        len,
                                        table,
                                    );
                                    lemma_own_rest_kept(before, self@.ram, walk_place(walk));
                                    left = left.drop_first();
                                }
                            }
                            cursor += k;
                            written += k as u32;
                        },
                        Err(e) => {
                            assert(alike ==> s =~= o);
                            return Err(e);
                        },
                    }
                },
                None => {
                    assert(alike ==> s =~= o);
                    return Ok((written, n));
                },
            }
        }
    }

    /// Serve one chain: its head, the bytes that went into it, and how many descriptors were looked
    /// at.
    fn serve(
        &mut self,
        chain: &virtio_queue::DescriptorChain<Arc<vm_memory::GuestMemoryMmap<()>>>,
    ) -> (r: Result<(u16, u32, u64), MappedError>)
        requires
            old(self)@.wf(),
            old(self).mapping() is Some,
            unwalked(*chain),
            chain_mapping(*chain) == old(self).mapping(),
            chain_place(*chain).0 == old(self)@.dev.layout.desc_table.0,
            chain_place(*chain).1 == old(self)@.dev.layout.queue_size,
        ensures
            final(self)@.wf(),
            final(self).mapping() == old(self).mapping(),
            final(self)@.dev.layout == old(self)@.dev.layout,
            ({
                let head = chain_place(*chain).2;
                let s = old(self)@.served(head);
                &&& final(self)@ == s.state
                &&& match s.result {
                    Ok((written, looked)) => r matches Ok((h, w, l)) && h == head && w == written
                        && l == looked && l <= 0x4_0000,
                    Err(e) => r matches Err(f) && f == e,
                }
                &&& old(self)@.plain_chain(head) ==> s == old(self)@.served_plainly(head)
            }),
    {
        let ghost before = self@;
        let head: u16 = head_index(chain);
        let ghost w = chain_from(before.ram, before.dev.layout, head);
        proof {
            reveal(MappedState::served);
            reveal(MappedState::served_over);
            if before.plain_chain(head) {
                lemma_plain_chain(before, head);
            }
        }
        let (request, looked) = match self.gather_chain(
            chain,
            Ghost(buffers(w.descs, false)),
        ) {
            Ok(gathered) => gathered,
            Err(e) => {
                return Err(e);
            },
        };
        let response = to_upper(request.as_slice());
        let (written, visited) = match self.scatter_chain(
            chain,
            &response,
            Ghost(buffers(w.descs, true)),
        ) {
            Ok(done) => done,
            Err(e) => {
                return Err(e);
            },
        };
        proof {
            lemma_complete_keeps(self@.dev, self@.ram, head, written);
        }
        // What was written, not the size of the buffers.
        match self.complete(head, written) {
            Ok(()) => Ok((head, written, looked + visited)),
            Err(e) => Err(e),
        }
    }

    /// Serve every chain that is available, in order. The chains are taken first: each is walked
    /// when its turn comes, and its writable buffers as they are filled.
    pub fn process(&mut self) -> (r: Result<MappedPass, MappedError>)
        requires
            old(self).mapping() is Some,
            old(self)@.wf(),
        ensures
            final(self).mapping() == old(self).mapping(),
            final(self)@.wf(),
            ({
                let before = old(self)@;
                let heads = before.pending_heads();
                let start = before.took(heads.len());
                let run = start.run(heads);
                if heads.len() > before.dev.layout.queue_size {
                    &&& final(self)@ == before
                    &&& r matches Err(e) && e == MappedError::Queue
                } else {
                    &&& final(self)@ == run.state
                    &&& match run.error {
                        None => r matches Ok(pass) && pass.completions@ == run.out
                            && pass.descriptors == run.descriptors,
                        Some(e) => r matches Err(f) && f == e,
                    }
                    &&& start.all_plain(heads) ==> run == start.run_plainly(heads)
                }
            }),
    {
        let ghost before = self@;
        let ghost heads = before.pending_heads();
        let ghost start = before.took(heads.len());
        proof {
            law_fields_inside_parts(self@.dev.layout, 0);
        }
        let chains = match take_chains(&mut self.queue, &self.ram.mem) {
            Ok(chains) => chains,
            Err(_) => {
                return Err(MappedError::Queue);
            },
        };
        let mut completions: Vec<(u16, u32)> = Vec::new();
        let mut descriptors: u64 = 0;
        let mut i: usize = 0;
        assert(self@ =~= start);
        assert(heads.take(0) =~= Seq::empty());
        while i < chains.len()
            invariant
                i <= chains@.len(),
                chains@.len() == heads.len(),
                heads.len() <= before.dev.layout.queue_size,
                heads == before.pending_heads(),
                before == old(self)@,
                start == before.took(heads.len()),
                self@.wf(),
                self.mapping() is Some,
                self.mapping() == old(self).mapping(),
                self@.dev.layout == before.dev.layout,
                forall|k: int|
                    0 <= k < heads.len() ==> chain_place(#[trigger] chains@[k]) == (
                        before.dev.layout.desc_table.0,
                        before.dev.layout.queue_size,
                        heads[k],
                    ) && unwalked(chains@[k]) && chain_mapping(chains@[k]) == self.mapping(),
                descriptors <= 0x4_0000 * i,
                start.run(heads.take(i as int)) == (Run {
                    state: self@,
                    out: completions@,
                    descriptors: descriptors as nat,
                    error: None,
                }),
                start.all_plain(heads.take(i as int)) ==> start.run(heads.take(i as int))
                    == start.run_plainly(heads.take(i as int)),
            decreases chains@.len() - i,
        {
            proof {
                assert(heads.take(i + 1).drop_last() =~= heads.take(i as int));
                assert(heads.take(i + 1).last() == heads[i as int]);
                assert(chain_place(chains@[i as int]).2 == heads[i as int]);
            }
            match self.serve(&chains[i]) {
                Ok((head, written, looked)) => {
                    assert(i < 0x1_0000);
                    descriptors += looked;
                    completions.push((head, written));
                },
                Err(e) => {
                    proof {
                        lemma_run_stops(start, heads, i + 1);
                    }
                    return Err(e);
                },
            }
            i += 1;
        }
        assert(heads.take(i as int) =~= heads);
        Ok(MappedPass { completions, descriptors })
    }
}

/// What was gathered so far, and what is still to come, make the whole.
spec fn gathering(all: MappedGather, rest: MappedGather, so_far: Seq<u8>, n: nat) -> bool {
    &&& all.data == so_far + rest.data
    &&& all.visited == n + rest.visited
    &&& all.refused == rest.refused
}

proof fn lemma_gathered_on(
    all: MappedGather,
    rest: MappedGather,
    next: MappedGather,
    so_far: Seq<u8>,
    bytes: Seq<u8>,
    n: nat,
)
    requires
        gathering(all, rest, so_far, n),
        rest == (MappedGather {
            data: bytes + next.data,
            visited: 1 + next.visited,
            refused: next.refused,
        }),
    ensures
        gathering(all, next, so_far + bytes, n + 1),
{
    assert(so_far + (bytes + next.data) =~= so_far + bytes + next.data);
}

/// What was scattered so far, and what is still to come, make the whole.
spec fn scattering(all: MappedScatter, rest: MappedScatter, written: nat, n: nat) -> bool {
    &&& all.ram == rest.ram
    &&& all.written == written + rest.written
    &&& all.visited == n + rest.visited
    &&& all.refused == rest.refused
}

/// Each of the buffers is off the table.
spec fn stay_off(l: VirtqLayout, bufs: Seq<(u64, u32)>) -> bool {
    forall|j: int| 0 <= j < bufs.len() ==> off_the_table(l, #[trigger] bufs[j])
}

proof fn lemma_stay_off_rest(l: VirtqLayout, bufs: Seq<(u64, u32)>)
    requires
        stay_off(l, bufs),
        bufs.len() > 0,
    ensures
        off_the_table(l, bufs[0]),
        stay_off(l, bufs.drop_first()),
{
    assert forall|j: int| 0 <= j < bufs.drop_first().len() implies off_the_table(
        l,
        #[trigger] bufs.drop_first()[j],
    ) by {
        assert(bufs.drop_first()[j] == bufs[j + 1]);
    }
}

/// A store into a buffer that is off the table leaves the table.
proof fn lemma_store_off_table(
    ram: Seq<u8>,
    addr: u64,
    data: Seq<u8>,
    len: u32,
    l: VirtqLayout,
)
    requires
        off_the_table(l, (addr, len)),
        data.len() <= len,
    ensures
        agree(
            ram,
            stored_part(ram, addr as int, data),
            l.desc_table.0 as int,
            l.desc_bytes(),
        ),
{
}

/// What is left of a walk is the same in every memory with the same table.
proof fn lemma_own_rest_kept(
    m: Seq<u8>,
    k: Seq<u8>,
    place: (u64, u16, u16, u16, u32, bool, bool),
)
    requires
        agree(
            m,
            k,
            table_at(place.0, place.1).desc_table.0 as int,
            table_at(place.0, place.1).desc_bytes(),
        ),
    ensures
        own_rest(m, place) == own_rest(k, place),
{
    lemma_walk_reads_table(
        m,
        k,
        table_at(place.0, place.1),
        place.2,
        place.3 as nat,
        place.4 as nat,
        false,
    );
}

/// A walk over a plain chain starts with all the buffers of this library's own walk to come.
proof fn lemma_plain_chain(s: MappedState, head: u16)
    requires
        s.wf(),
        s.plain_chain(head),
    ensures
        ({
            let w = chain_from(s.ram, s.dev.layout, head);
            let l = table_at(s.dev.layout.desc_table.0, s.dev.layout.queue_size);
            &&& own_rest(s.ram, s.start(head, false)) == Some(buffers(w.descs, false))
            &&& own_rest(s.ram, s.start(head, true)) == Some(buffers(w.descs, true))
            &&& stay_off(l, buffers(w.descs, true))
        }),
{
    let l = table_at(s.dev.layout.desc_table.0, s.dev.layout.queue_size);
    lemma_walk_table_alone(
        s.ram,
        s.dev.layout,
        l,
        head,
        s.dev.layout.queue_size as nat,
        0,
        false,
    );
    let bufs = buffers(chain_from(s.ram, s.dev.layout, head).descs, true);
    assert forall|j: int| 0 <= j < bufs.len() implies off_the_table(l, #[trigger] bufs[j]) by {
        assert(off_the_table(s.dev.layout, bufs[j]));
    }
}

/// A walk does not care where the rings are.
proof fn lemma_walk_table_alone(
    m: Seq<u8>,
    l: VirtqLayout,
    k: VirtqLayout,
    index: u16,
    ttl: nat,
    bytes: nat,
    seen_writable: bool,
)
    requires
        l.queue_size == k.queue_size,
        l.desc_table == k.desc_table,
    ensures
        walk(m, l, index, ttl, bytes, seen_writable) == walk(
            m,
            k,
            index,
            ttl,
            bytes,
            seen_writable,
        ),
    decreases ttl,
{
    if ttl > 0 && index < l.queue_size {
        match descriptor_at(m, l.desc_addr(index as int)) {
            Ok(d) => {
                lemma_walk_table_alone(
                    m,
                    l,
                    k,
                    d.next,
                    (ttl - 1) as nat,
                    bytes + d.len as nat,
                    d.writable(),
                );
            },
            Err(e) => {},
        }
    }
}

/// A chain that fails ends the run.
proof fn lemma_run_stops(s: MappedState, heads: Seq<u16>, n: int)
    requires
        0 <= n <= heads.len(),
        s.run(heads.take(n)).error is Some,
        s.all_plain(heads.take(n)) ==> s.run(heads.take(n)) == s.run_plainly(heads.take(n)),
    ensures
        s.run(heads) == s.run(heads.take(n)),
        s.all_plain(heads) ==> s.run(heads) == s.run_plainly(heads),
    decreases heads.len(),
{
    if n < heads.len() {
        assert(heads.drop_last().take(n) =~= heads.take(n));
        lemma_run_stops(s, heads.drop_last(), n);
    } else {
        assert(heads.take(n) =~= heads);
    }
}


/// Where part `i` of a request goes, if the first goes to `arena`: each behind the one before, at a
/// multiple of eight.
pub open spec fn part_addr(arena: int, lens: Seq<u32>, i: int) -> int
    decreases i,
{
    if i <= 0 {
        arena
    } else {
        least_multiple(part_addr(arena, lens, i - 1) + lens[i - 1], 8)
    }
}

/// The descriptors of a request whose parts have these lengths, from table entry `first` on: one
/// readable buffer for each part, linked to the next, and one writable buffer for the reply.
pub open spec fn request_descs(
    arena: int,
    lens: Seq<u32>,
    first: int,
    reply_len: u32,
) -> Seq<Descriptor> {
    Seq::new(
        lens.len() + 1,
        |i: int|
            if i < lens.len() {
                Descriptor {
                    addr: part_addr(arena, lens, i) as u64,
                    len: lens[i],
                    flags: VIRTQ_DESC_F_NEXT,
                    next: (first + i + 1) as u16,
                }
            } else {
                Descriptor {
                    addr: part_addr(arena, lens, i) as u64,
                    len: reply_len,
                    flags: VIRTQ_DESC_F_WRITE,
                    next: 0,
                }
            },
    )
}

/// A request laid out in guest memory.
pub struct RequestPlan {
    /// Its descriptors.
    pub descs: Vec<Descriptor>,
    /// Where the reply goes.
    pub reply: u64,
    /// The first address behind it.
    pub end: u64,
}

/// A later part lies no lower.
pub proof fn lemma_parts_ascend(arena: int, lens: Seq<u32>, i: int, j: int)
    requires
        0 <= i <= j <= lens.len(),
    ensures
        part_addr(arena, lens, i) <= part_addr(arena, lens, j),
    decreases j,
{
    if i < j {
        lemma_parts_ascend(arena, lens, i, j - 1);
        lemma_least_multiple(part_addr(arena, lens, j - 1) + lens[j - 1], 8);
    }
}

/// Lay out a request whose parts have these lengths, from `arena` on and over the table from entry
/// `first` on.
pub fn plan_request(arena: u64, lens: &Vec<u32>, first: u16, reply_len: u32) -> (r: RequestPlan)
    requires
        first + lens@.len() <= u16::MAX,
        part_addr(arena as int, lens@, lens@.len() as int) + reply_len <= u64::MAX,
    ensures
        r.descs@ == request_descs(arena as int, lens@, first as int, reply_len),
        r.reply == part_addr(arena as int, lens@, lens@.len() as int),
        r.end == r.reply + reply_len,
{
    let mut descs: Vec<Descriptor> = Vec::new();
    let mut at: u64 = arena;
    let mut i: usize = 0;
    let ghost all = request_descs(arena as int, lens@, first as int, reply_len);
    while i < lens.len()
        invariant
            i <= lens@.len(),
            first + lens@.len() <= u16::MAX,
            at == part_addr(arena as int, lens@, i as int),
            part_addr(arena as int, lens@, lens@.len() as int) + reply_len <= u64::MAX,
            all == request_descs(arena as int, lens@, first as int, reply_len),
            descs@ =~= all.take(i as int),
        decreases lens@.len() - i,
    {
        proof {
            lemma_parts_ascend(arena as int, lens@, i + 1, lens@.len() as int);
            lemma_least_multiple(at + lens@[i as int], 8);
        }
        descs.push(
            Descriptor {
                addr: at,
                len: lens[i],
                flags: VIRTQ_DESC_F_NEXT,
                next: first + i as u16 + 1,
            },
        );
        at = align_up(at + lens[i] as u64, 8);
        i += 1;
    }
    descs.push(Descriptor { addr: at, len: reply_len, flags: VIRTQ_DESC_F_WRITE, next: 0 });
    assert(descs@ =~= all);
    RequestPlan { descs, reply: at, end: at + reply_len as u64 }
}

} // verus!
