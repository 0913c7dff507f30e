//! The decisions of the VMM: how a VM is brought up, what a vCPU starts from, and what each exit of
//! the guest means.
//!
//! Nothing here talks to the kernel. A program opens `/dev/kvm`, makes the calls that each `Step` asks
//! for and hands back what they returned; it enters the guest and hands what came back to
//! `service_entry`, together with the bytes of the shared `kvm_run` page.

use crate::kvm::device::{filled, DeviceModel, Devices, MMIO_BASE, MMIO_LEN};
use crate::kvm::kvm_sys::{
    kvm_regs, kvm_run_header, kvm_run_io, kvm_run_mmio, kvm_segment, kvm_sregs,
    kvm_userspace_memory_region, KVM_CAP_USER_MEMORY, KVM_CHECK_EXTENSION, KVM_CREATE_VCPU,
    KVM_CREATE_VM, KVM_EXIT_HLT, KVM_EXIT_INTR, KVM_EXIT_IO, KVM_EXIT_IO_IN, KVM_EXIT_IO_OUT,
    KVM_EXIT_MMIO, KVM_GET_API_VERSION, KVM_GET_VCPU_MMAP_SIZE, KVM_RUN_UNION_OFFSET,
    KVM_SET_TSS_ADDR, KVM_SET_USER_MEMORY_REGION,
};
use crate::le::{
    decode_u16, decode_u32, decode_u64, law_fields_byte_by_byte, le_value, lemma_le_bounds,
    lemma_le_value_bound,
};
use crate::virtq::mem::put;
use vstd::prelude::*;

verus! {

/// Guest physical address of the scratch pages KVM may use to emulate real mode on older Intel
/// parts, somewhere the guest will not use.
pub const TSS_ADDR: u64 = 0xfffb_d000;

/// The API version KVM has reported since 2007. A different value means the fd is not KVM.
pub const EXPECTED_API_VERSION: u64 = 12;

/// The page size of guest memory.
pub const PAGE_SIZE: usize = 4096;

/// The number of the error that a system call interrupted by a signal fails with.
pub const EINTR: i32 = 4;

/// The bytes of the shared page that hold the header and the longest of the two exit records.
pub const KVM_RUN_MIN: usize = 56;

/// What one run observed.
#[derive(Debug, Clone, Copy, PartialEq, Eq, Structural)]
pub struct RunSummary {
    pub exits: u64,
    pub io_exits: u64,
    pub mmio_exits: u64,
    /// The host interrupted the vCPU. Not an error, but a sample that a benchmark must discard: it
    /// measures the host's interruption and not an exit.
    pub interrupted: u64,
}

impl Default for RunSummary {
    fn default() -> (r: Self)
        ensures
            r == (RunSummary { exits: 0, io_exits: 0, mmio_exits: 0, interrupted: 0 }),
    {
        RunSummary { exits: 0, io_exits: 0, mmio_exits: 0, interrupted: 0 }
    }
}

impl RunSummary {
    /// The counters can take one more exit.
    pub open spec fn has_room(self) -> bool {
        &&& self.exits < u64::MAX
        &&& self.io_exits < u64::MAX
        &&& self.mmio_exits < u64::MAX
        &&& self.interrupted < u64::MAX
    }
}

/// Knobs for a single run.
pub struct RunOptions<'a> {
    /// Print one line per exit.
    pub trace: bool,
    /// If present, one sample is appended per round trip: its nanoseconds, and what came back.
    pub timings: Option<&'a mut Vec<(u64, EntryKind)>>,
}

/// What came back from entering the guest.
#[derive(Debug, Clone, Copy, PartialEq, Eq, Structural)]
pub enum EntryKind {
    /// A port access.
    Io,
    /// An access to an unbacked address.
    Mmio,
    /// The guest halted.
    Halt,
    /// The host interrupted the vCPU, before or after the guest ran.
    Interrupted,
    /// Anything else.
    Other,
}

/// Why a run ended other than by the guest halting.
#[derive(Debug, Clone, Copy, PartialEq, Eq, Structural)]
pub enum RunError {
    /// Entering the guest failed with this error number.
    Entry(i32),
    /// The payload of a port access is not inside the shared page.
    PayloadOutOfBounds,
    /// A port access is neither in nor out.
    BadDirection(u8),
    /// The guest touched an address that neither memory nor a device answers for.
    Unmapped(u64),
    /// An exit that this VMM does not handle.
    Unhandled(u32),
}

/// What to do next.
#[derive(Debug, Clone, Copy, PartialEq, Eq, Structural)]
pub enum Flow {
    /// Enter the guest again.
    Resume,
    /// The guest halted; the run is over.
    Halted,
}

/// The little-endian field of `n` bytes at `at` of the shared page.
pub open spec fn field(page: Seq<u8>, at: int, n: nat) -> nat {
    le_value(page.subrange(at, at + n))
}

/// Why the guest exited.
pub open spec fn exit_reason(page: Seq<u8>) -> u32 {
    field(page, 8, 4) as u32
}

/// What came back, from what the entry returned and the page.
pub open spec fn kind_of(entry: Result<(), i32>, page: Seq<u8>) -> EntryKind {
    match entry {
        Err(errno) => if errno == EINTR {
            EntryKind::Interrupted
        } else {
            EntryKind::Other
        },
        Ok(()) => if exit_reason(page) == KVM_EXIT_IO {
            EntryKind::Io
        } else if exit_reason(page) == KVM_EXIT_MMIO {
            EntryKind::Mmio
        } else if exit_reason(page) == KVM_EXIT_HLT {
            EntryKind::Halt
        } else if exit_reason(page) == KVM_EXIT_INTR {
            EntryKind::Interrupted
        } else {
            EntryKind::Other
        },
    }
}

/// Tell what came back from entering the guest.
pub fn entry_kind(entry: Result<(), i32>, page: &[u8]) -> (r: EntryKind)
    requires
        page@.len() >= KVM_RUN_UNION_OFFSET,
    ensures
        r == kind_of(entry, page@),
{
    match entry {
        Err(errno) => {
            if errno == EINTR {
                EntryKind::Interrupted
            } else {
                EntryKind::Other
            }
        },
        Ok(()) => match header(page).exit_reason {
            KVM_EXIT_IO => EntryKind::Io,
            KVM_EXIT_MMIO => EntryKind::Mmio,
            KVM_EXIT_HLT => EntryKind::Halt,
            KVM_EXIT_INTR => EntryKind::Interrupted,
            _ => EntryKind::Other,
        },
    }
}

fn byte_at(page: &[u8], at: usize) -> (r: u8)
    requires
        at < page@.len(),
    ensures
        r == page@[at as int],
{
    page[at]
}

fn u16_field(page: &[u8], at: usize) -> (r: u16)
    requires
        at <= 48,
        at + 2 <= page@.len(),
    ensures
        r == field(page@, at as int, 2),
{
    decode_u16(&page[at..at + 2])
}

fn u32_field(page: &[u8], at: usize) -> (r: u32)
    requires
        at <= 48,
        at + 4 <= page@.len(),
    ensures
        r == field(page@, at as int, 4),
{
    decode_u32(&page[at..at + 4])
}

fn u64_field(page: &[u8], at: usize) -> (r: u64)
    requires
        at <= 48,
        at + 8 <= page@.len(),
    ensures
        r == field(page@, at as int, 8),
{
    decode_u64(&page[at..at + 8])
}

/// Read the fixed header of the shared communication page.
pub fn header(page: &[u8]) -> (r: kvm_run_header)
    requires
        page@.len() >= KVM_RUN_UNION_OFFSET,
    ensures
        r.request_interrupt_window == page@[0],
        r.immediate_exit == page@[1],
        r.padding1@ == page@.subrange(2, 8),
        r.exit_reason == exit_reason(page@),
        r.ready_for_interrupt_injection == page@[12],
        r.if_flag == page@[13],
        r.flags == field(page@, 14, 2),
        r.cr8 == field(page@, 16, 8),
        r.apic_base == field(page@, 24, 8),
{
    let padding1: [u8; 6] = [page[2], page[3], page[4], page[5], page[6], page[7]];
    assert(padding1@ =~= page@.subrange(2, 8));
    kvm_run_header {
        request_interrupt_window: byte_at(page, 0),
        immediate_exit: byte_at(page, 1),
        padding1,
        exit_reason: u32_field(page, 8),
        ready_for_interrupt_injection: byte_at(page, 12),
        if_flag: byte_at(page, 13),
        flags: u16_field(page, 14),
        cr8: u64_field(page, 16),
        apic_base: u64_field(page, 24),
    }
}

/// Read the record of a port access.
pub fn io_record(page: &[u8]) -> (r: kvm_run_io)
    requires
        page@.len() >= KVM_RUN_UNION_OFFSET + 16,
    ensures
        r.direction == page@[32],
        r.size == page@[33],
        r.port == field(page@, 34, 2),
        r.count == field(page@, 36, 4),
        r.data_offset == field(page@, 40, 8),
{
    kvm_run_io {
        direction: byte_at(page, 32),
        size: byte_at(page, 33),
        port: u16_field(page, 34),
        count: u32_field(page, 36),
        data_offset: u64_field(page, 40),
    }
}

/// Read the record of an access to an unbacked address.
pub fn mmio_record(page: &[u8]) -> (r: kvm_run_mmio)
    requires
        page@.len() >= KVM_RUN_MIN,
    ensures
        r.phys_addr == field(page@, 32, 8),
        r.data@ == page@.subrange(40, 48),
        r.len == field(page@, 48, 4),
        r.is_write == page@[52],
{
    let data: [u8; 8] = [
        page[40],
        page[41],
        page[42],
        page[43],
        page[44],
        page[45],
        page[46],
        page[47],
    ];
    assert(data@ =~= page@.subrange(40, 48));
    kvm_run_mmio {
        phys_addr: u64_field(page, 32),
        data,
        len: u32_field(page, 48),
        is_write: byte_at(page, 52),
    }
}

/// The bytes of a port access: `size` for each of `count` items.
pub open spec fn payload_len(io: kvm_run_io) -> nat {
    (io.size * io.count) as nat
}

/// Where the payload of a port access lies in a page of `page_len` bytes, from and to. The offset
/// is from the start of the page, not from the record.
pub fn io_payload(io: &kvm_run_io, page_len: usize) -> (r: Result<(usize, usize), RunError>)
    ensures
        match r {
            Ok((from, to)) => from == io.data_offset && to == io.data_offset + payload_len(*io)
                && to <= page_len,
            Err(e) => e == RunError::PayloadOutOfBounds && io.data_offset + payload_len(*io)
                > page_len,
        },
{
    assert(io.size * io.count <= 0xff * 0xffff_ffff) by (nonlinear_arith)
        requires
            io.size <= 0xff,
            io.count <= 0xffff_ffff,
    ;
    let len: u64 = io.size as u64 * io.count as u64;
    match io.data_offset.checked_add(len) {
        Some(end) if end <= page_len as u64 => Ok((io.data_offset as usize, end as usize)),
        _ => Err(RunError::PayloadOutOfBounds),
    }
}

/// The bytes of an access to an unbacked address: at most eight.
pub open spec fn mmio_len(len: u32) -> nat {
    if len <= 8 {
        len as nat
    } else {
        8
    }
}

/// The run between two entries: its counters, the devices, and the shared page.
#[verifier::ext_equal]
pub struct Machine {
    pub summary: RunSummary,
    pub devices: DeviceModel,
    pub page: Seq<u8>,
}

/// What servicing an entry comes to.
pub struct Serviced {
    pub machine: Machine,
    pub result: Result<Flow, RunError>,
}

/// The answer to a load of `n` bytes, as it stands in the eight bytes of the record.
pub open spec fn answer_bytes(value: Seq<u8>) -> Seq<u8> {
    Seq::new(
        8,
        |i: int|
            if i < value.len() {
                value[i]
            } else {
                0
            },
    )
}

impl Machine {
    /// A port access: the devices take what the guest wrote, or fill what it reads.
    pub open spec fn port_access(self) -> Serviced {
        let size = self.page[33];
        let port = field(self.page, 34, 2) as u16;
        let count = field(self.page, 36, 4) as u32;
        let off = field(self.page, 40, 8) as int;
        let len = (size * count) as nat;
        if off + len > self.page.len() {
            Serviced { machine: self, result: Err(RunError::PayloadOutOfBounds) }
        } else if self.page[32] == KVM_EXIT_IO_OUT {
            Serviced {
                machine: Machine {
                    devices: self.devices.port_written(
                        port,
                        self.page.subrange(off, off + len),
                    ),
                    ..self
                },
                result: Ok(Flow::Resume),
            }
        } else if self.page[32] == KVM_EXIT_IO_IN {
            Serviced {
                machine: Machine {
                    devices: self.devices.port_read(),
                    page: put(self.page, off, filled(len, 0xff)),
                    ..self
                },
                result: Ok(Flow::Resume),
            }
        } else {
            Serviced { machine: self, result: Err(RunError::BadDirection(self.page[32])) }
        }
    }

    /// An access to an unbacked address. It only says that nothing is mapped there; if the toy
    /// device's window does not hold the address, nobody answers for it.
    pub open spec fn memory_access(self) -> Serviced {
        let addr = field(self.page, 32, 8) as u64;
        let len = mmio_len(field(self.page, 48, 4) as u32);
        if !(MMIO_BASE <= addr < MMIO_BASE + MMIO_LEN) {
            Serviced { machine: self, result: Err(RunError::Unmapped(addr)) }
        } else if self.page[52] != 0 {
            Serviced {
                machine: Machine {
                    devices: self.devices.stored(addr, self.page.subrange(40, 40int + len)),
                    ..self
                },
                result: Ok(Flow::Resume),
            }
        } else {
            Serviced {
                machine: Machine {
                    devices: self.devices.loaded(addr, len),
                    page: put(self.page, 40, answer_bytes(self.devices.load_value(addr, len))),
                    ..self
                },
                result: Ok(Flow::Resume),
            }
        }
    }

    /// The guest exited, for the reason that the page gives.
    pub open spec fn exited(self) -> Serviced {
        let reason = exit_reason(self.page);
        let counted = RunSummary { exits: (self.summary.exits + 1) as u64, ..self.summary };
        if reason == KVM_EXIT_IO {
            Machine {
                summary: RunSummary { io_exits: (counted.io_exits + 1) as u64, ..counted },
                ..self
            }.port_access()
        } else if reason == KVM_EXIT_MMIO {
            Machine {
                summary: RunSummary { mmio_exits: (counted.mmio_exits + 1) as u64, ..counted },
                ..self
            }.memory_access()
        } else if reason == KVM_EXIT_HLT {
            Serviced {
                machine: Machine { summary: counted, ..self },
                result: Ok(Flow::Halted),
            }
        } else if reason == KVM_EXIT_INTR {
            Serviced {
                machine: Machine {
                    summary: RunSummary {
                        interrupted: (counted.interrupted + 1) as u64,
                        ..counted
                    },
                    ..self
                },
                result: Ok(Flow::Resume),
            }
        } else {
            Serviced {
                machine: Machine { summary: counted, ..self },
                result: Err(RunError::Unhandled(reason)),
            }
        }
    }

    /// What came back from entering the guest. An interruption by a signal is normal: the guest's
    /// state is intact and entering again resumes it.
    pub open spec fn entered(self, entry: Result<(), i32>) -> Serviced {
        match entry {
            Err(errno) => if errno == EINTR {
                Serviced {
                    machine: Machine {
                        summary: RunSummary {
                            interrupted: (self.summary.interrupted + 1) as u64,
                            ..self.summary
                        },
                        ..self
                    },
                    result: Ok(Flow::Resume),
                }
            } else {
                Serviced { machine: self, result: Err(RunError::Entry(errno)) }
            },
            Ok(()) => self.exited(),
        }
    }
}

fn service_port_access(devices: &mut Devices, page: &mut [u8]) -> (r: Result<Flow, RunError>)
    requires
        old(devices)@.has_room(),
        old(page)@.len() >= KVM_RUN_MIN,
    ensures
        forall|summary: RunSummary|
            ({
                let s = #[trigger] (Machine {
                    summary,
                    devices: old(devices)@,
                    page: old(page)@,
                }).port_access();
                &&& s.machine.summary == summary
                &&& s.machine.devices == final(devices)@
                &&& s.machine.page == final(page)@
                &&& s.result == r
            }),
{
    let io = io_record(page);
    let (from, to) = match io_payload(&io, page.len()) {
        Ok(range) => range,
        Err(e) => {
            return Err(e);
        },
    };
    match io.direction {
        KVM_EXIT_IO_OUT => {
            devices.pio_write(io.port, &page[from..to]);
            Ok(Flow::Resume)
        },
        KVM_EXIT_IO_IN => {
            let ghost before = page@;
            let (_head, rest) = page.split_at_mut(from);
            let (data, _tail) = rest.split_at_mut(to - from);
            devices.pio_read(io.port, data);
            assert(page@ =~= put(before, from as int, filled((to - from) as nat, 0xff)));
            Ok(Flow::Resume)
        },
        d => Err(RunError::BadDirection(d)),
    }
}

fn service_memory_access(devices: &mut Devices, page: &mut [u8]) -> (r: Result<Flow, RunError>)
    requires
        old(devices)@.has_room(),
        old(page)@.len() >= KVM_RUN_MIN,
    ensures
        forall|summary: RunSummary|
            ({
                let s = #[trigger] (Machine {
                    summary,
                    devices: old(devices)@,
                    page: old(page)@,
                }).memory_access();
                &&& s.machine.summary == summary
                &&& s.machine.devices == final(devices)@
                &&& s.machine.page == final(page)@
                &&& s.result == r
            }),
{
    let m = mmio_record(page);
    let len: usize = if m.len <= 8 {
        m.len as usize
    } else {
        8
    };
    if !Devices::owns_mmio(m.phys_addr) {
        return Err(RunError::Unmapped(m.phys_addr));
    }
    if m.is_write != 0 {
        assert(page@.subrange(40, 48).subrange(0, len as int) =~= page@.subrange(40, 40 + len));
        devices.mmio_write(m.phys_addr, &page[40..40 + len]);
    } else {
        // What is put into the record is not a message to the kernel: it is the value the guest's
        // load returns.
        let ghost before = page@;
        let mut buf: [u8; 8] = [0, 0, 0, 0, 0, 0, 0, 0];
        let (answer, _rest) = buf.split_at_mut(len);
        devices.mmio_read(m.phys_addr, answer);
        let ghost value = old(devices)@.load_value(m.phys_addr, len as nat);
        assert(buf@ =~= answer_bytes(value));
        let mut i: usize = 0;
        while i < 8
            invariant
                i <= 8,
                page@.len() == before.len(),
                before.len() >= KVM_RUN_MIN,
                page@ == put(before, 40, buf@.take(i as int)),
            decreases 8 - i,
        {
            page[40 + i] = buf[i];
            i += 1;
            assert(page@ =~= put(before, 40, buf@.take(i as int)));
        }
        assert(buf@.take(8) =~= buf@);
    }
    Ok(Flow::Resume)
}

/// Service what came back from entering the guest: count it, let the devices answer it, and say
/// whether to enter again.
pub fn service_entry(
    summary: &mut RunSummary,
    devices: &mut Devices,
    entry: Result<(), i32>,
    page: &mut [u8],
) -> (r: Result<Flow, RunError>)
    requires
        old(summary).has_room(),
        old(devices)@.has_room(),
        old(page)@.len() >= KVM_RUN_MIN,
    ensures
        (Serviced {
            machine: Machine {
                summary: *final(summary),
                devices: final(devices)@,
                page: final(page)@,
            },
            result: r,
        }) == (Machine {
            summary: *old(summary),
            devices: old(devices)@,
            page: old(page)@,
        }).entered(entry),
{
    match entry {
        Err(errno) => {
            if errno == EINTR {
                summary.interrupted += 1;
                return Ok(Flow::Resume);
            }
            return Err(RunError::Entry(errno));
        },
        Ok(()) => {},
    }
    summary.exits += 1;
    let hdr = header(page);
    match hdr.exit_reason {
        KVM_EXIT_IO => {
            summary.io_exits += 1;
            service_port_access(devices, page)
        },
        KVM_EXIT_MMIO => {
            summary.mmio_exits += 1;
            service_memory_access(devices, page)
        },
        KVM_EXIT_HLT => Ok(Flow::Halted),
        KVM_EXIT_INTR => {
            summary.interrupted += 1;
            Ok(Flow::Resume)
        },
        reason => Err(RunError::Unhandled(reason)),
    }
}

/// An exit that is told apart already, as bindings to the system calls hand it out.
#[derive(Debug, Clone, Copy, PartialEq, Eq, Structural)]
pub enum GuestExit {
    /// The guest wrote to a port.
    PortOut(u16),
    /// The guest read from a port.
    PortIn(u16),
    /// The guest stored to an unbacked address.
    Store(u64),
    /// The guest loaded from an unbacked address.
    Load(u64),
    /// The guest halted.
    Halt,
}

/// What servicing such an exit comes to.
pub struct Answered {
    pub devices: DeviceModel,
    pub answer: Seq<u8>,
    pub result: Result<Flow, RunError>,
}

impl GuestExit {
    /// Service the exit: `written` is what the guest wrote, and an answer takes the place of the
    /// bytes in `room`.
    pub open spec fn serviced(self, d: DeviceModel, written: Seq<u8>, room: Seq<u8>) -> Answered {
        match self {
            GuestExit::PortOut(port) => Answered {
                devices: d.port_written(port, written),
                answer: room,
                result: Ok(Flow::Resume),
            },
            GuestExit::PortIn(_) => Answered {
                devices: d.port_read(),
                answer: filled(room.len(), 0xff),
                result: Ok(Flow::Resume),
            },
            GuestExit::Store(addr) => if MMIO_BASE <= addr < MMIO_BASE + MMIO_LEN {
                Answered {
                    devices: d.stored(addr, written),
                    answer: room,
                    result: Ok(Flow::Resume),
                }
            } else {
                Answered { devices: d, answer: room, result: Err(RunError::Unmapped(addr)) }
            },
            GuestExit::Load(addr) => if MMIO_BASE <= addr < MMIO_BASE + MMIO_LEN {
                Answered {
                    devices: d.loaded(addr, room.len()),
                    answer: d.load_value(addr, room.len()),
                    result: Ok(Flow::Resume),
                }
            } else {
                Answered { devices: d, answer: room, result: Err(RunError::Unmapped(addr)) }
            },
            GuestExit::Halt => Answered { devices: d, answer: room, result: Ok(Flow::Halted) },
        }
    }
}

/// Service an exit that is told apart already: let the devices take `written`, or fill `answer`, and
/// say whether to enter again.
pub fn service_exit(
    devices: &mut Devices,
    exit: GuestExit,
    written: &[u8],
    answer: &mut [u8],
) -> (r: Result<Flow, RunError>)
    requires
        old(devices)@.has_room(),
    ensures
        (Answered { devices: final(devices)@, answer: final(answer)@, result: r })
            == exit.serviced(old(devices)@, written@, old(answer)@),
{
    match exit {
        GuestExit::PortOut(port) => {
            devices.pio_write(port, written);
        },
        GuestExit::PortIn(port) => {
            devices.pio_read(port, answer);
        },
        GuestExit::Store(addr) => {
            if !Devices::owns_mmio(addr) {
                return Err(RunError::Unmapped(addr));
            }
            devices.mmio_write(addr, written);
        },
        GuestExit::Load(addr) => {
            if !Devices::owns_mmio(addr) {
                return Err(RunError::Unmapped(addr));
            }
            devices.mmio_read(addr, answer);
        },
        GuestExit::Halt => {
            return Ok(Flow::Halted);
        },
    }
    Ok(Flow::Resume)
}

/// It does not matter who tells the exits apart: an exit that is read from the shared page does to
/// the devices, and gives back to the guest, what the same exit does that was handed out as such.
pub proof fn law_exits_are_serviced_alike(m: Machine)
    requires
        m.page.len() >= KVM_RUN_MIN,
    ensures
        ({
            let s = m.entered(Ok(()));
            let reason = exit_reason(m.page);
            let port = field(m.page, 34, 2) as u16;
            let off = field(m.page, 40, 8) as int;
            let len = m.page[33] * field(m.page, 36, 4);
            let payload = m.page.subrange(off, off + len);
            let addr = field(m.page, 32, 8) as u64;
            let data = m.page.subrange(40, 40int + mmio_len(field(m.page, 48, 4) as u32));
            let alike = |a: Answered|
                s.machine.devices == a.devices && s.result == a.result;
            &&& reason == KVM_EXIT_IO && off + len <= m.page.len() && m.page[32]
                == KVM_EXIT_IO_OUT ==> alike(
                GuestExit::PortOut(port).serviced(m.devices, payload, Seq::empty()),
            ) && s.machine.page == m.page
            &&& reason == KVM_EXIT_IO && off + len <= m.page.len() && m.page[32]
                == KVM_EXIT_IO_IN ==> {
                let a = GuestExit::PortIn(port).serviced(m.devices, Seq::empty(), payload);
                alike(a) && s.machine.page == put(m.page, off, a.answer)
            }
            &&& reason == KVM_EXIT_MMIO && m.page[52] != 0 ==> alike(
                GuestExit::Store(addr).serviced(m.devices, data, Seq::empty()),
            ) && s.machine.page == m.page
            &&& reason == KVM_EXIT_MMIO && m.page[52] == 0 ==> {
                let a = GuestExit::Load(addr).serviced(m.devices, Seq::empty(), data);
                alike(a) && s.machine.page == if a.result is Ok {
                    put(m.page, 40, answer_bytes(a.answer))
                } else {
                    m.page
                }
            }
            &&& reason == KVM_EXIT_HLT ==> alike(
                GuestExit::Halt.serviced(m.devices, Seq::empty(), Seq::empty()),
            ) && s.machine.page == m.page
        }),
{
    lemma_le_value_bound(m.page.subrange(36, 40));
    lemma_le_bounds();
    let count = field(m.page, 36, 4);
    assert(m.page[33] * count >= 0) by (nonlinear_arith)
        requires
            m.page[33] >= 0,
            count >= 0,
    ;
}

/// Whatever comes back from an entry is counted, and under one heading only: every exit as an exit,
/// the port and the memory accesses among them each in their own count, and every interruption,
/// whether the entry was interrupted or the exit reported it.
pub proof fn law_exits_are_counted_once(m: Machine, entry: Result<(), i32>)
    requires
        m.summary.has_room(),
    ensures
        ({
            let s = m.entered(entry).machine.summary;
            let port = kind_of(entry, m.page) == EntryKind::Io;
            let memory = kind_of(entry, m.page) == EntryKind::Mmio;
            let interrupted = kind_of(entry, m.page) == EntryKind::Interrupted;
            &&& s.exits == m.summary.exits + if entry is Ok { 1int } else { 0 }
            &&& s.io_exits == m.summary.io_exits + if port { 1int } else { 0 }
            &&& s.mmio_exits == m.summary.mmio_exits + if memory { 1int } else { 0 }
            &&& s.interrupted == m.summary.interrupted + if interrupted { 1int } else { 0 }
        }),
{
}

impl Machine {
    /// The run over these entries, each with what it returned and the shared page as the kernel left
    /// it, as long as the guest is to be entered again.
    pub open spec fn run(self, entries: Seq<(Result<(), i32>, Seq<u8>)>) -> Serviced
        decreases entries.len(),
    {
        if entries.len() == 0 {
            Serviced { machine: self, result: Ok(Flow::Resume) }
        } else {
            let before = self.run(entries.drop_last());
            if before.result == Ok::<Flow, RunError>(Flow::Resume) {
                let (entry, page) = entries.last();
                (Machine { page, ..before.machine }).entered(entry)
            } else {
                before
            }
        }
    }
}

/// A run that came to the guest's halt adds up: each time the guest was entered counts as one port
/// access, one memory access or one interruption, and the last as the halt.
pub proof fn law_halted_run_adds_up(m: Machine, entries: Seq<(Result<(), i32>, Seq<u8>)>)
    requires
        m.summary == (RunSummary { exits: 0, io_exits: 0, mmio_exits: 0, interrupted: 0 }),
        0 < entries.len() < u64::MAX,
        m.run(entries.drop_last()).result == Ok::<Flow, RunError>(Flow::Resume),
        m.run(entries).result == Ok::<Flow, RunError>(Flow::Halted),
    ensures
        ({
            let s = m.run(entries).machine.summary;
            &&& entries.len() == s.io_exits + s.mmio_exits + s.interrupted + 1
            &&& s.io_exits + s.mmio_exits < s.exits <= entries.len()
        }),
{
    lemma_resumed_run_adds_up(m, entries.drop_last());
}

/// As long as the guest is entered again, each entry was a port access, a memory access or an
/// interruption.
pub proof fn lemma_resumed_run_adds_up(m: Machine, entries: Seq<(Result<(), i32>, Seq<u8>)>)
    requires
        m.summary == (RunSummary { exits: 0, io_exits: 0, mmio_exits: 0, interrupted: 0 }),
        entries.len() < u64::MAX,
        m.run(entries).result == Ok::<Flow, RunError>(Flow::Resume),
    ensures
        ({
            let s = m.run(entries).machine.summary;
            &&& entries.len() == s.io_exits + s.mmio_exits + s.interrupted
            &&& s.io_exits + s.mmio_exits <= s.exits <= entries.len()
        }),
    decreases entries.len(),
{
    if entries.len() > 0 {
        let some = entries.drop_last();
        lemma_resumed_run_adds_up(m, some);
        let (entry, page) = entries.last();
        let before = Machine { page, ..m.run(some).machine };
        law_exits_are_counted_once(before, entry);
    }
}

/// An interruption changes nothing that the guest can see, and is always resumed.
pub proof fn law_interruptions_are_resumed(m: Machine)
    ensures
        m.entered(Err(EINTR)).result == Ok::<Flow, RunError>(Flow::Resume),
        m.entered(Err(EINTR)).machine.devices == m.devices,
        m.entered(Err(EINTR)).machine.page == m.page,
        exit_reason(m.page) == KVM_EXIT_INTR ==> m.entered(Ok(())).result == Ok::<Flow, RunError>(
            Flow::Resume,
        ) && m.entered(Ok(())).machine.devices == m.devices && m.entered(Ok(())).machine.page
            == m.page,
{
}

/// The VMM answers in the shared page only where the exit left room for an answer: outside the
/// payload of a port read, and outside the eight data bytes of a memory read, no byte changes.
pub proof fn law_page_changes_only_where_asked(m: Machine, i: int)
    requires
        0 <= i < m.page.len(),
        m.page.len() >= KVM_RUN_MIN,
    ensures
        ({
            let reason = exit_reason(m.page);
            let off = field(m.page, 40, 8);
            let len = m.page[33] * field(m.page, 36, 4);
            let in_port_read = reason == KVM_EXIT_IO && m.page[32] == KVM_EXIT_IO_IN && off <= i
                < off + len;
            let in_memory_read = reason == KVM_EXIT_MMIO && m.page[52] == 0 && 40 <= i < 48;
            !in_port_read && !in_memory_read ==> m.entered(Ok(())).machine.page[i] == m.page[i]
        }),
{
    lemma_le_value_bound(m.page.subrange(36, 40));
    lemma_le_value_bound(m.page.subrange(40, 48));
    lemma_le_bounds();
    assert(m.page.subrange(36, 40).len() == 4);
    assert(m.page.subrange(40, 48).len() == 8);
}

/// Why a load into guest memory was refused.
#[derive(Debug, Clone, Copy, PartialEq, Eq, Structural)]
pub struct LoadError {
    pub len: usize,
    pub gpa: u64,
    pub mem_size: usize,
}

/// Copy bytes into guest physical memory, or change nothing where they do not fit. This is the
/// whole of "loading a kernel".
pub fn load(ram: &mut [u8], gpa: u64, bytes: &[u8]) -> (r: Result<(), LoadError>)
    ensures
        match r {
            Ok(()) => gpa + bytes@.len() <= old(ram)@.len() && final(ram)@ == put(
                old(ram)@,
                gpa as int,
                bytes@,
            ),
            Err(e) => gpa + bytes@.len() > old(ram)@.len() && final(ram)@ == old(ram)@ && e == (
            LoadError { len: bytes@.len() as usize, gpa, mem_size: old(ram)@.len() as usize }),
        },
{
    let mem_size: usize = ram.len();
    if gpa > mem_size as u64 || bytes.len() > mem_size - gpa as usize {
        return Err(LoadError { len: bytes.len(), gpa, mem_size });
    }
    let start: usize = gpa as usize;
    let mut i: usize = 0;
    assert(put(ram@, gpa as int, bytes@.take(0)) =~= ram@);
    while i < bytes.len()
        invariant
            i <= bytes@.len(),
            start == gpa,
            start + bytes@.len() <= mem_size,
            mem_size == old(ram)@.len(),
            ram@.len() == old(ram)@.len(),
            ram@ == put(old(ram)@, gpa as int, bytes@.take(i as int)),
        decreases bytes@.len() - i,
    {
        ram[start + i] = bytes[i];
        i += 1;
        assert(ram@ =~= put(old(ram)@, gpa as int, bytes@.take(i as int)));
    }
    assert(bytes@.take(i as int) =~= bytes@);
    Ok(())
}

/// The segment with base and selector zero and everything else kept.
pub open spec fn flat(seg: kvm_segment) -> kvm_segment {
    kvm_segment { base: 0, selector: 0, ..seg }
}

/// Flattening a segment moves its base and its selector to zero, and leaves the limit, the type and
/// every other field as it was.
pub proof fn law_flat_segment(seg: kvm_segment)
    ensures
        flat(seg).base == 0,
        flat(seg).selector == 0,
        flat(seg).limit == seg.limit,
        flat(seg).type_ == seg.type_,
        flat(seg).present == seg.present,
        flat(seg).dpl == seg.dpl,
        flat(seg).db == seg.db,
        flat(seg).s == seg.s,
        flat(seg).l == seg.l,
        flat(seg).g == seg.g,
        flat(seg).avl == seg.avl,
        flat(seg).unusable == seg.unusable,
        flat(seg).padding == seg.padding,
{
}

/// `seg` with its base and its selector at zero: all else is as in `before`.
pub open spec fn moved_to_zero(before: kvm_segment, seg: kvm_segment) -> bool {
    &&& seg.base == 0 && seg.selector == 0
    &&& seg.limit == before.limit && seg.type_ == before.type_ && seg.present == before.present
    &&& seg.dpl == before.dpl && seg.db == before.db && seg.s == before.s && seg.l == before.l
    &&& seg.g == before.g && seg.avl == before.avl && seg.unusable == before.unusable
    &&& seg.padding == before.padding
}

/// The special registers with every segment flattened.
pub open spec fn flattened(sregs: kvm_sregs) -> kvm_sregs {
    kvm_sregs {
        cs: flat(sregs.cs),
        ds: flat(sregs.ds),
        es: flat(sregs.es),
        fs: flat(sregs.fs),
        gs: flat(sregs.gs),
        ss: flat(sregs.ss),
        ..sregs
    }
}

/// Flattening touches the six segments that code and data are addressed through, each in its base
/// and selector alone, and no other register.
pub proof fn law_flattening_touches_bases_and_selectors(sregs: kvm_sregs)
    ensures
        ({
            let r = flattened(sregs);
            &&& r.cs == flat(sregs.cs) && r.ds == flat(sregs.ds) && r.es == flat(sregs.es)
            &&& r.fs == flat(sregs.fs) && r.gs == flat(sregs.gs) && r.ss == flat(sregs.ss)
            &&& moved_to_zero(sregs.cs, r.cs)
            &&& moved_to_zero(sregs.ds, r.ds)
            &&& moved_to_zero(sregs.es, r.es)
            &&& moved_to_zero(sregs.fs, r.fs)
            &&& moved_to_zero(sregs.gs, r.gs)
            &&& moved_to_zero(sregs.ss, r.ss)
            &&& r.tr == sregs.tr && r.ldt == sregs.ldt && r.gdt == sregs.gdt && r.idt == sregs.idt
            &&& r.cr0 == sregs.cr0 && r.cr2 == sregs.cr2 && r.cr3 == sregs.cr3
            &&& r.cr4 == sregs.cr4 && r.cr8 == sregs.cr8 && r.efer == sregs.efer
            &&& r.apic_base == sregs.apic_base
            &&& r.interrupt_bitmap == sregs.interrupt_bitmap
        }),
{
}

/// Flatten every segment, so that a guest offset is a guest physical address. The type, presence
/// and limit of the reset state are kept: they describe a usable 64 KiB real-mode segment.
pub fn flatten_segments(sregs: kvm_sregs) -> (r: kvm_sregs)
    ensures
        r == (kvm_sregs {
            cs: flat(sregs.cs),
            ds: flat(sregs.ds),
            es: flat(sregs.es),
            fs: flat(sregs.fs),
            gs: flat(sregs.gs),
            ss: flat(sregs.ss),
            ..sregs
        }),
        r == flattened(sregs),
{
    let mut r = sregs;
    r.cs = flatten(r.cs);
    r.ds = flatten(r.ds);
    r.es = flatten(r.es);
    r.fs = flatten(r.fs);
    r.gs = flatten(r.gs);
    r.ss = flatten(r.ss);
    r
}

fn flatten(seg: kvm_segment) -> (r: kvm_segment)
    ensures
        r == flat(seg),
{
    let mut r = seg;
    r.base = 0;
    r.selector = 0;
    r
}

/// The general-purpose registers a vCPU starts from: `rip` at `entry`, the reserved bit of `rflags`
/// that is architecturally always set, and nothing else.
pub fn entry_regs(entry: u64) -> (r: kvm_regs)
    ensures
        r.rip == entry,
        r.rflags == 2,
        (kvm_regs { rip: 0, rflags: 0, ..r }).zeroed(),
{
    let mut r = kvm_regs::default();
    r.rip = entry;
    r.rflags = 0x2;
    r
}

/// The steps of bringing a VM up, in the order that the fd hierarchy forces: `/dev/kvm`, the VM fd,
/// the vCPU fd, with memory installed on the VM fd and the communication page mapped from the vCPU
/// fd.
#[derive(Debug, Clone, Copy)]
pub enum Step {
    /// Open `/dev/kvm`.
    OpenKvm,
    /// Ask for the API version.
    ApiVersion,
    /// Ask whether userspace may supply its own memory.
    UserMemory,
    /// Create the VM.
    CreateVm,
    /// Set the real-mode scratch address.
    TssAddr,
    /// Allocate guest RAM in this process.
    MapRam,
    /// Hand the range to KVM.
    SetRegion(kvm_userspace_memory_region),
    /// Create vCPU 0.
    CreateVcpu,
    /// Ask for the size of the communication page.
    RunSize,
    /// Map this many bytes of it.
    MapRun(u64),
    /// All done.
    Ready,
}

/// Why a VM could not be brought up.
#[derive(Debug, Clone, Copy, PartialEq, Eq, Structural)]
pub enum BringUpError {
    /// A call failed with this error number.
    Os(i32),
    /// The fd is not the KVM that this code was written against.
    ApiVersion(u64),
    /// Userspace may not supply memory.
    NoUserMemory,
    /// The communication page could not even hold its header.
    RunSize(u64),
}

/// Guest memory is a non-zero multiple of the page size.
pub fn valid_mem_size(mem_size: usize) -> (r: bool)
    ensures
        r == (mem_size as int % PAGE_SIZE as int == 0 && mem_size > 0),
{
    mem_size % PAGE_SIZE == 0 && mem_size > 0
}

/// RAM of `mem_size` bytes at guest physical address 0, backed from `userspace_addr` on.
pub open spec fn ram_region(mem_size: u64, userspace_addr: u64) -> kvm_userspace_memory_region {
    kvm_userspace_memory_region {
        slot: 0,
        flags: 0,
        guest_phys_addr: 0,
        memory_size: mem_size,
        userspace_addr,
    }
}

impl Step {
    /// The step that follows, given the value that this one returned or the number of the error it
    /// failed with. A failure to set the scratch address is not fatal: hardware that does not need
    /// it runs the guest all the same.
    pub open spec fn then_comes(
        self,
        mem_size: u64,
        reply: Result<u64, i32>,
    ) -> Result<Step, BringUpError> {
        match reply {
            Err(errno) => if self is TssAddr {
                Ok(Step::MapRam)
            } else {
                Err(BringUpError::Os(errno))
            },
            Ok(v) => match self {
                Step::OpenKvm => Ok(Step::ApiVersion),
                Step::ApiVersion => if v == EXPECTED_API_VERSION {
                    Ok(Step::UserMemory)
                } else {
                    Err(BringUpError::ApiVersion(v))
                },
                Step::UserMemory => if v != 0 {
                    Ok(Step::CreateVm)
                } else {
                    Err(BringUpError::NoUserMemory)
                },
                Step::CreateVm => Ok(Step::TssAddr),
                Step::TssAddr => Ok(Step::MapRam),
                Step::MapRam => Ok(Step::SetRegion(ram_region(mem_size, v))),
                Step::SetRegion(_) => Ok(Step::CreateVcpu),
                Step::CreateVcpu => Ok(Step::RunSize),
                Step::RunSize => if v >= KVM_RUN_UNION_OFFSET {
                    Ok(Step::MapRun(v))
                } else {
                    Err(BringUpError::RunSize(v))
                },
                Step::MapRun(_) => Ok(Step::Ready),
                Step::Ready => Ok(Step::Ready),
            },
        }
    }

    /// The step that follows. See `then_comes`.
    pub fn next(self, mem_size: u64, reply: Result<u64, i32>) -> (r: Result<Step, BringUpError>)
        ensures
            r == self.then_comes(mem_size, reply),
    {
        let v: u64 = match reply {
            Ok(v) => v,
            Err(errno) => {
                return match self {
                    Step::TssAddr => Ok(Step::MapRam),
                    _ => Err(BringUpError::Os(errno)),
                };
            },
        };
        match self {
            Step::OpenKvm => Ok(Step::ApiVersion),
            Step::ApiVersion => {
                if v != EXPECTED_API_VERSION {
                    return Err(BringUpError::ApiVersion(v));
                }
                Ok(Step::UserMemory)
            },
            Step::UserMemory => {
                if v == 0 {
                    return Err(BringUpError::NoUserMemory);
                }
                Ok(Step::CreateVm)
            },
            Step::CreateVm => Ok(Step::TssAddr),
            Step::TssAddr => Ok(Step::MapRam),
            Step::MapRam => Ok(
                Step::SetRegion(
                    kvm_userspace_memory_region {
                        slot: 0,
                        flags: 0,
                        guest_phys_addr: 0,
                        memory_size: mem_size,
                        userspace_addr: v,
                    },
                ),
            ),
            Step::SetRegion(_) => Ok(Step::CreateVcpu),
            Step::CreateVcpu => Ok(Step::RunSize),
            Step::RunSize => {
                if v < KVM_RUN_UNION_OFFSET as u64 {
                    return Err(BringUpError::RunSize(v));
                }
                Ok(Step::MapRun(v))
            },
            Step::MapRun(_) => Ok(Step::Ready),
            Step::Ready => Ok(Step::Ready),
        }
    }

    /// The ioctl that the step makes, with its integer argument, if it makes one. For the memory
    /// region the argument is the structure that the step carries.
    pub fn request(&self) -> (r: Option<(u64, u64)>)
        ensures
            r == match *self {
                Step::ApiVersion => Some((KVM_GET_API_VERSION, 0u64)),
                Step::UserMemory => Some((KVM_CHECK_EXTENSION, KVM_CAP_USER_MEMORY)),
                Step::CreateVm => Some((KVM_CREATE_VM, 0u64)),
                Step::TssAddr => Some((KVM_SET_TSS_ADDR, TSS_ADDR)),
                Step::SetRegion(_) => Some((KVM_SET_USER_MEMORY_REGION, 0u64)),
                Step::CreateVcpu => Some((KVM_CREATE_VCPU, 0u64)),
                Step::RunSize => Some((KVM_GET_VCPU_MMAP_SIZE, 0u64)),
                _ => None,
            },
    {
        match self {
            Step::ApiVersion => Some((KVM_GET_API_VERSION, 0)),
            Step::UserMemory => Some((KVM_CHECK_EXTENSION, KVM_CAP_USER_MEMORY)),
            Step::CreateVm => Some((KVM_CREATE_VM, 0)),
            Step::TssAddr => Some((KVM_SET_TSS_ADDR, TSS_ADDR)),
            Step::SetRegion(_) => Some((KVM_SET_USER_MEMORY_REGION, 0)),
            Step::CreateVcpu => Some((KVM_CREATE_VCPU, 0)),
            Step::RunSize => Some((KVM_GET_VCPU_MMAP_SIZE, 0)),
            _ => None,
        }
    }

    /// Where the step stands in the order.
    pub open spec fn position(self) -> nat {
        match self {
            Step::OpenKvm => 0,
            Step::ApiVersion => 1,
            Step::UserMemory => 2,
            Step::CreateVm => 3,
            Step::TssAddr => 4,
            Step::MapRam => 5,
            Step::SetRegion(_) => 6,
            Step::CreateVcpu => 7,
            Step::RunSize => 8,
            Step::MapRun(_) => 9,
            Step::Ready => 10,
        }
    }

    /// The step after these replies, as long as none of them ended the bring-up.
    pub open spec fn after(self, mem_size: u64, replies: Seq<Result<u64, i32>>) -> Result<
        Step,
        BringUpError,
    >
        decreases replies.len(),
    {
        if replies.len() == 0 {
            Ok(self)
        } else {
            match self.after(mem_size, replies.drop_last()) {
                Ok(s) => s.then_comes(mem_size, replies.last()),
                Err(e) => Err(e),
            }
        }
    }
}

/// The bring-up takes its ten steps in order and skips none, and it comes to its end only if the API
/// version was the expected one, userspace may supply memory, and the page can hold its header.
pub proof fn law_bring_up_is_in_order(mem_size: u64, replies: Seq<Result<u64, i32>>)
    requires
        replies.len() <= 10,
    ensures
        Step::OpenKvm.after(mem_size, replies) matches Ok(s) ==> {
            &&& s.position() == replies.len()
            &&& forall|i: int|
                0 <= i < replies.len() && i != 4 ==> (#[trigger] replies[i]) is Ok
            &&& replies.len() > 1 ==> replies[1] == Ok::<u64, i32>(EXPECTED_API_VERSION)
            &&& replies.len() > 2 ==> replies[2]->Ok_0 != 0
            &&& replies.len() > 8 ==> replies[8]->Ok_0 >= KVM_RUN_UNION_OFFSET
            &&& s matches Step::SetRegion(region) ==> region == ram_region(
                mem_size,
                replies[5]->Ok_0,
            )
            &&& s matches Step::MapRun(size) ==> size == replies[8]->Ok_0
        },
    decreases replies.len(),
{
    if replies.len() > 0 {
        let some = replies.drop_last();
        law_bring_up_is_in_order(mem_size, some);
        match Step::OpenKvm.after(mem_size, some) {
            Ok(s) => {
                assert(s.position() == some.len());
                assert(forall|i: int|
                    0 <= i < some.len() && i != 4 ==> (#[trigger] some[i]) is Ok);
                assert forall|i: int|
                    0 <= i < replies.len() && i != 4 && Step::OpenKvm.after(
                        mem_size,
                        replies,
                    ) is Ok implies (#[trigger] replies[i]) is Ok by {
                    if i < some.len() {
                        assert(some[i] == replies[i]);
                    }
                }
            },
            Err(e) => {},
        }
    }
}


/// What comes back from an entry, by its error number and by the number of its exit reason.
pub proof fn law_entries_are_told_apart(entry: Result<(), i32>, page: Seq<u8>)
    requires
        page.len() >= 12,
    ensures
        exit_reason(page) == page[8] + 0x100 * page[9] + 0x1_0000 * page[10] + 0x100_0000
            * page[11],
        kind_of(entry, page) is Io <==> entry is Ok && exit_reason(page) == 2,
        kind_of(entry, page) is Mmio <==> entry is Ok && exit_reason(page) == 6,
        kind_of(entry, page) is Halt <==> entry is Ok && exit_reason(page) == 5,
        kind_of(entry, page) is Interrupted <==> match entry {
            Ok(_) => exit_reason(page) == 10,
            Err(e) => e == 4,
        },
{
    law_fields_byte_by_byte(page.subrange(8, 12));
}

/// The fields of the shared page are little-endian.
pub proof fn law_page_fields(page: Seq<u8>, at: int)
    requires
        0 <= at,
    ensures
        at + 2 <= page.len() ==> field(page, at, 2) == page[at] + 0x100 * page[at + 1],
        at + 4 <= page.len() ==> field(page, at, 4) == page[at] + 0x100 * page[at + 1] + 0x1_0000
            * page[at + 2] + 0x100_0000 * page[at + 3],
        at + 8 <= page.len() ==> field(page, at, 8) == page[at] + 0x100 * page[at + 1] + 0x1_0000
            * page[at + 2] + 0x100_0000 * page[at + 3] + 0x1_0000_0000 * page[at + 4]
            + 0x100_0000_0000 * page[at + 5] + 0x1_0000_0000_0000 * page[at + 6]
            + 0x100_0000_0000_0000 * page[at + 7],
{
    if at + 2 <= page.len() {
        law_fields_byte_by_byte(page.subrange(at, at + 2));
    }
    if at + 4 <= page.len() {
        law_fields_byte_by_byte(page.subrange(at, at + 4));
    }
    if at + 8 <= page.len() {
        law_fields_byte_by_byte(page.subrange(at, at + 8));
    }
}

/// What an entry comes to by what came back. An interruption is resumed and the halt ends the run,
/// and neither changes the devices or the page. An entry that failed, and an exit that is not
/// handled, end the run with their number, and change nothing but that an exit is counted.
pub proof fn law_entries_end_or_resume(m: Machine, entry: Result<(), i32>)
    ensures
        ({
            let s = m.entered(entry);
            let same = s.machine.devices == m.devices && s.machine.page == m.page;
            match entry {
                Err(e) => same && s.result == if e == 4 {
                    Ok::<Flow, RunError>(Flow::Resume)
                } else {
                    Err::<Flow, RunError>(RunError::Entry(e))
                },
                Ok(_) => {
                    let reason = exit_reason(m.page);
                    &&& reason == 5 ==> same && s.result == Ok::<Flow, RunError>(Flow::Halted)
                    &&& reason == 10 ==> same && s.result == Ok::<Flow, RunError>(Flow::Resume)
                    &&& reason != 2 && reason != 5 && reason != 6 && reason != 10 ==> same
                        && s.result == Err::<Flow, RunError>(RunError::Unhandled(reason))
                },
            }
        }),
{
}

/// A port access that makes no sense ends the run, and changes neither the devices nor the page: one
/// whose payload is not in the page, and one that is neither in nor out.
pub proof fn law_senseless_port_accesses(m: Machine)
    requires
        m.page.len() >= KVM_RUN_MIN,
        exit_reason(m.page) == 2,
    ensures
        ({
            let s = m.entered(Ok(()));
            let end = field(m.page, 40, 8) + m.page[33] * field(m.page, 36, 4);
            &&& end > m.page.len() ==> s.result == Err::<Flow, RunError>(
                RunError::PayloadOutOfBounds,
            ) && s.machine.devices == m.devices && s.machine.page == m.page
            &&& end <= m.page.len() && m.page[32] > 1 ==> s.result == Err::<Flow, RunError>(
                RunError::BadDirection(m.page[32]),
            ) && s.machine.devices == m.devices && s.machine.page == m.page
            &&& end <= m.page.len() && m.page[32] <= 1 ==> s.result == Ok::<Flow, RunError>(
                Flow::Resume,
            )
        }),
{
    lemma_le_value_bound(m.page.subrange(36, 40));
    lemma_le_bounds();
}

/// What an exit that is told apart does: what the guest wrote goes to the devices, what it reads comes
/// from them; an address outside the window of the toy device is answered by nobody; and the halt
/// ends the run.
pub proof fn law_exits_by_kind(e: GuestExit, d: DeviceModel, written: Seq<u8>, room: Seq<u8>)
    ensures
        ({
            let a = e.serviced(d, written, room);
            let resumed = a.result == Ok::<Flow, RunError>(Flow::Resume);
            let nothing = a.devices == d && a.answer == room;
            match e {
                GuestExit::PortOut(port) => resumed && a.devices == d.port_written(port, written)
                    && a.answer == room,
                GuestExit::PortIn(_) => resumed && a.devices == d.port_read() && a.answer.len()
                    == room.len() && forall|i: int|
                    0 <= i < room.len() ==> #[trigger] a.answer[i] == 0xff,
                GuestExit::Store(addr) => if 0x8000 <= addr < 0x9000 {
                    resumed && a.devices == d.stored(addr, written) && a.answer == room
                } else {
                    nothing && a.result == Err::<Flow, RunError>(RunError::Unmapped(addr))
                },
                GuestExit::Load(addr) => if 0x8000 <= addr < 0x9000 {
                    resumed && a.devices == d.loaded(addr, room.len()) && a.answer == d.load_value(
                        addr,
                        room.len(),
                    )
                } else {
                    nothing && a.result == Err::<Flow, RunError>(RunError::Unmapped(addr))
                },
                GuestExit::Halt => nothing && a.result == Ok::<Flow, RunError>(Flow::Halted),
            }
        }),
{
}

/// An access to an unbacked address carries at most eight bytes, and its answer stands first in the
/// eight of the record, with zeros behind it.
pub proof fn law_memory_accesses_are_short(len: u32, value: Seq<u8>)
    ensures
        mmio_len(len) <= 8 && mmio_len(len) <= len && (mmio_len(len) == 8 || mmio_len(len) == len),
        answer_bytes(value).len() == 8,
        forall|i: int|
            0 <= i < 8 ==> #[trigger] answer_bytes(value)[i] == if i < value.len() {
                value[i]
            } else {
                0
            },
{
}

/// The bytes of a port access are its items, each of its size.
pub proof fn law_payload_is_all_items(io: kvm_run_io)
    ensures
        payload_len(io) == io.size * io.count,
{
    assert(io.size * io.count >= 0) by (nonlinear_arith)
        requires
            io.size >= 0,
            io.count >= 0,
    ;
}

/// How each step of the bring-up can fail: with the number of the error of its call, all but that of
/// the scratch address; with a version that is not the expected one; without leave to supply memory;
/// and with a page too small for its header. What does not fail goes on to the next step.
pub proof fn law_bring_up_failures(s: Step, mem_size: u64, reply: Result<u64, i32>)
    ensures
        match reply {
            Err(e) => if s is TssAddr {
                s.then_comes(mem_size, reply) is Ok
            } else {
                s.then_comes(mem_size, reply) == Err::<Step, BringUpError>(BringUpError::Os(e))
            },
            Ok(v) => {
                let next = s.then_comes(mem_size, reply);
                &&& s is ApiVersion && v != 12 ==> next == Err::<Step, BringUpError>(
                    BringUpError::ApiVersion(v),
                )
                &&& s is UserMemory && v == 0 ==> next == Err::<Step, BringUpError>(
                    BringUpError::NoUserMemory,
                )
                &&& s is RunSize && v < 32 ==> next == Err::<Step, BringUpError>(
                    BringUpError::RunSize(v),
                )
                &&& next is Err ==> (s is ApiVersion && v != 12) || (s is UserMemory && v == 0) || (
                s is RunSize && v < 32)
                &&& next matches Ok(n) ==> n.position() == if s is Ready {
                    10nat
                } else {
                    s.position() + 1
                }
            },
        },
        s is TssAddr ==> (s.then_comes(mem_size, reply) matches Ok(n) && n is MapRam),
        s.then_comes(mem_size, reply) matches Ok(n) ==> match s {
            Step::OpenKvm => n is ApiVersion,
            Step::ApiVersion => n is UserMemory,
            Step::UserMemory => n is CreateVm,
            Step::CreateVm => n is TssAddr,
            Step::TssAddr => n is MapRam,
            Step::MapRam => n == Step::SetRegion(ram_region(mem_size, reply->Ok_0)),
            Step::SetRegion(_) => n is CreateVcpu,
            Step::CreateVcpu => n is RunSize,
            Step::RunSize => n == Step::MapRun(reply->Ok_0),
            Step::MapRun(_) => n is Ready,
            Step::Ready => n is Ready,
        },
{
}

/// The RAM of the guest is one region from guest physical address zero on, as large as asked for, and
/// writable.
pub proof fn law_ram_region(mem_size: u64, userspace_addr: u64)
    ensures
        ({
            let r = ram_region(mem_size, userspace_addr);
            &&& r.slot == 0 && r.flags == 0 && r.guest_phys_addr == 0
            &&& r.memory_size == mem_size && r.userspace_addr == userspace_addr
        }),
{
}

} // verus!
