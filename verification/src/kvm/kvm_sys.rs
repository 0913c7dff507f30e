//! The KVM ABI: ioctl request numbers, and the structures they carry, as
//! `include/uapi/linux/kvm.h` has them.
//!
//! Linux packs four things into the 32-bit ioctl request number:
//!
//! ```text
//!    31 30 29                16 15             8 7              0
//!   +-----+--------------------+----------------+---------------+
//!   | dir |        size        |      type      |      nr       |
//!   +-----+--------------------+----------------+---------------+
//! ```
//!
//! The size field is where a mismatched structure definition gets caught: a request that encodes
//! the wrong size is rejected by the kernel. The sizes that the numbers below encode are the
//! `SIZE_OF_` constants; a program that hands these structures to the kernel declares them with C
//! layout and checks its sizes against them.

#![allow(non_camel_case_types)]

use vstd::prelude::*;

verus! {

pub const IOC_NRBITS: u32 = 8;

pub const IOC_TYPEBITS: u32 = 8;

pub const IOC_SIZEBITS: u32 = 14;

pub const IOC_NRSHIFT: u32 = 0;

pub const IOC_TYPESHIFT: u32 = 8;

pub const IOC_SIZESHIFT: u32 = 16;

pub const IOC_DIRSHIFT: u32 = 30;

pub const IOC_NONE: u32 = 0;

/// Userspace writes, i.e. the kernel reads the structure.
pub const IOC_WRITE: u32 = 1;

/// Userspace reads, i.e. the kernel fills the structure.
pub const IOC_READ: u32 = 2;

pub const KVMIO: u32 = 0xAE;

/// The request number with these four fields in their places.
pub open spec fn request(dir: u32, ty: u32, nr: u32, size: u32) -> u64 {
    ((dir << IOC_DIRSHIFT) | (size << IOC_SIZESHIFT) | (ty << IOC_TYPESHIFT) | (nr
        << IOC_NRSHIFT)) as u64
}

pub fn ioc(dir: u32, ty: u32, nr: u32, size: u32) -> (r: u64)
    ensures
        r == request(dir, ty, nr, size),
{
    ((dir << IOC_DIRSHIFT) | (size << IOC_SIZESHIFT) | (ty << IOC_TYPESHIFT) | (nr
        << IOC_NRSHIFT)) as u64
}

/// Each of the four fields of a request number can be read back: fields that fit do not overlap.
pub proof fn law_request_fields(dir: u32, ty: u32, nr: u32, size: u32)
    requires
        dir < 4,
        ty < 0x100,
        nr < 0x100,
        size < 0x4000,
    ensures
        request(dir, ty, nr, size) == dir * 0x4000_0000 + size * 0x1_0000 + ty * 0x100 + nr,
        request(dir, ty, nr, size) / 0x4000_0000 == dir,
        request(dir, ty, nr, size) / 0x1_0000 % 0x4000 == size,
        request(dir, ty, nr, size) / 0x100 % 0x100 == ty,
        request(dir, ty, nr, size) % 0x100 == nr,
{
    assert(((dir << 30u32) | (size << 16u32) | (ty << 8u32) | (nr << 0u32)) as u64 == dir
        * 0x4000_0000 + size * 0x1_0000 + ty * 0x100 + nr) by (bit_vector)
        requires
            dir < 4,
            ty < 0x100,
            nr < 0x100,
            size < 0x4000,
    ;
}

/// No payload; the third `ioctl` argument is a plain integer, not a pointer.
pub fn io(nr: u32) -> (r: u64)
    ensures
        r == request(IOC_NONE, KVMIO, nr, 0),
{
    ioc(IOC_NONE, KVMIO, nr, 0)
}

/// Userspace passes a structure in; the kernel reads it.
pub fn iow(nr: u32, size: usize) -> (r: u64)
    ensures
        r == request(IOC_WRITE, KVMIO, nr, size as u32),
{
    ioc(IOC_WRITE, KVMIO, nr, size as u32)
}

/// Userspace passes a buffer in; the kernel fills it.
pub fn ior(nr: u32, size: usize) -> (r: u64)
    ensures
        r == request(IOC_READ, KVMIO, nr, size as u32),
{
    ioc(IOC_READ, KVMIO, nr, size as u32)
}

/// Issued on the `/dev/kvm` fd. Must return exactly 12: the cheapest possible check that the fd
/// really is KVM.
pub const KVM_GET_API_VERSION: u64 = 0xAE00;

/// `/dev/kvm` fd -> a new VM fd. The third argument is the "machine type", 0 for the default.
pub const KVM_CREATE_VM: u64 = 0xAE01;

/// Query whether an optional feature exists.
pub const KVM_CHECK_EXTENSION: u64 = 0xAE03;

/// Size of the shared `kvm_run` communication page, in bytes. Issued on the `/dev/kvm` fd.
pub const KVM_GET_VCPU_MMAP_SIZE: u64 = 0xAE04;

/// VM fd. Installs one region of host memory as guest physical memory.
pub const KVM_SET_USER_MEMORY_REGION: u64 = 0x4020_AE46;

/// VM fd. Tells KVM where in guest physical space it may place the scratch pages it needs to
/// emulate real mode on older parts.
pub const KVM_SET_TSS_ADDR: u64 = 0xAE47;

/// VM fd -> a new vCPU fd. The third argument is the vCPU id.
pub const KVM_CREATE_VCPU: u64 = 0xAE41;

/// vCPU fd. Enter guest mode. Returns when the guest exits for a reason userspace must handle.
pub const KVM_RUN: u64 = 0xAE80;

pub const KVM_GET_REGS: u64 = 0x8090_AE81;

pub const KVM_SET_REGS: u64 = 0x4090_AE82;

pub const KVM_GET_SREGS: u64 = 0x8138_AE83;

pub const KVM_SET_SREGS: u64 = 0x4138_AE84;

/// Capability id for user-allocated memory slots.
pub const KVM_CAP_USER_MEMORY: u64 = 3;

/// Bytes of a `kvm_segment` with C layout.
pub const SIZE_OF_SEGMENT: usize = 24;

/// Bytes of a `kvm_dtable` with C layout.
pub const SIZE_OF_DTABLE: usize = 16;

/// Bytes of a `kvm_sregs` with C layout.
pub const SIZE_OF_SREGS: usize = 312;

/// Bytes of a `kvm_regs` with C layout.
pub const SIZE_OF_REGS: usize = 144;

/// Bytes of a `kvm_userspace_memory_region` with C layout.
pub const SIZE_OF_MEMORY_REGION: usize = 32;

/// The request numbers are the encodings of their direction, command and structure size.
pub proof fn law_request_numbers()
    ensures
        KVM_GET_API_VERSION == request(IOC_NONE, KVMIO, 0x00, 0),
        KVM_CREATE_VM == request(IOC_NONE, KVMIO, 0x01, 0),
        KVM_CHECK_EXTENSION == request(IOC_NONE, KVMIO, 0x03, 0),
        KVM_GET_VCPU_MMAP_SIZE == request(IOC_NONE, KVMIO, 0x04, 0),
        KVM_SET_USER_MEMORY_REGION == request(
            IOC_WRITE,
            KVMIO,
            0x46,
            SIZE_OF_MEMORY_REGION as u32,
        ),
        KVM_SET_TSS_ADDR == request(IOC_NONE, KVMIO, 0x47, 0),
        KVM_CREATE_VCPU == request(IOC_NONE, KVMIO, 0x41, 0),
        KVM_RUN == request(IOC_NONE, KVMIO, 0x80, 0),
        KVM_GET_REGS == request(IOC_READ, KVMIO, 0x81, SIZE_OF_REGS as u32),
        KVM_SET_REGS == request(IOC_WRITE, KVMIO, 0x82, SIZE_OF_REGS as u32),
        KVM_GET_SREGS == request(IOC_READ, KVMIO, 0x83, SIZE_OF_SREGS as u32),
        KVM_SET_SREGS == request(IOC_WRITE, KVMIO, 0x84, SIZE_OF_SREGS as u32),
{
    law_request_fields(IOC_NONE, KVMIO, 0x00, 0);
    law_request_fields(IOC_NONE, KVMIO, 0x01, 0);
    law_request_fields(IOC_NONE, KVMIO, 0x03, 0);
    law_request_fields(IOC_NONE, KVMIO, 0x04, 0);
    law_request_fields(IOC_WRITE, KVMIO, 0x46, 32);
    law_request_fields(IOC_NONE, KVMIO, 0x47, 0);
    law_request_fields(IOC_NONE, KVMIO, 0x41, 0);
    law_request_fields(IOC_NONE, KVMIO, 0x80, 0);
    law_request_fields(IOC_READ, KVMIO, 0x81, 144);
    law_request_fields(IOC_WRITE, KVMIO, 0x82, 144);
    law_request_fields(IOC_READ, KVMIO, 0x83, 312);
    law_request_fields(IOC_WRITE, KVMIO, 0x84, 312);
}

// Only the exit reasons that this VMM can encounter are named. The rest are reported numerically:
// an unexpected exit reason is a bug in the VMM, not something to swallow.

pub const KVM_EXIT_UNKNOWN: u32 = 0;

pub const KVM_EXIT_IO: u32 = 2;

pub const KVM_EXIT_HLT: u32 = 5;

pub const KVM_EXIT_MMIO: u32 = 6;

pub const KVM_EXIT_SHUTDOWN: u32 = 8;

pub const KVM_EXIT_FAIL_ENTRY: u32 = 9;

pub const KVM_EXIT_INTR: u32 = 10;

pub const KVM_EXIT_INTERNAL_ERROR: u32 = 17;

pub const KVM_EXIT_IO_IN: u8 = 0;

pub const KVM_EXIT_IO_OUT: u8 = 1;

/// What an exit reason is called.
pub open spec fn reason_text(r: u32) -> Seq<char> {
    if r == KVM_EXIT_UNKNOWN {
        "KVM_EXIT_UNKNOWN"@
    } else if r == KVM_EXIT_IO {
        "KVM_EXIT_IO"@
    } else if r == KVM_EXIT_HLT {
        "KVM_EXIT_HLT"@
    } else if r == KVM_EXIT_MMIO {
        "KVM_EXIT_MMIO"@
    } else if r == KVM_EXIT_SHUTDOWN {
        "KVM_EXIT_SHUTDOWN"@
    } else if r == KVM_EXIT_FAIL_ENTRY {
        "KVM_EXIT_FAIL_ENTRY"@
    } else if r == KVM_EXIT_INTR {
        "KVM_EXIT_INTR"@
    } else if r == KVM_EXIT_INTERNAL_ERROR {
        "KVM_EXIT_INTERNAL_ERROR"@
    } else {
        "unhandled exit reason"@
    }
}

pub fn exit_reason_name(r: u32) -> (name: &'static str)
    ensures
        name@ == reason_text(r),
{
    match r {
        KVM_EXIT_UNKNOWN => "KVM_EXIT_UNKNOWN",
        KVM_EXIT_IO => "KVM_EXIT_IO",
        KVM_EXIT_HLT => "KVM_EXIT_HLT",
        KVM_EXIT_MMIO => "KVM_EXIT_MMIO",
        KVM_EXIT_SHUTDOWN => "KVM_EXIT_SHUTDOWN",
        KVM_EXIT_FAIL_ENTRY => "KVM_EXIT_FAIL_ENTRY",
        KVM_EXIT_INTR => "KVM_EXIT_INTR",
        KVM_EXIT_INTERNAL_ERROR => "KVM_EXIT_INTERNAL_ERROR",
        _ => "unhandled exit reason",
    }
}

/// One guest-physical memory region, backed by a host userspace mapping: the host virtual range
/// from `userspace_addr` on is the guest physical range from `guest_phys_addr` on. Whatever the
/// guest touches that no region covers exits to userspace as an MMIO access.
#[derive(Debug, Clone, Copy)]
pub struct kvm_userspace_memory_region {
    /// Slot index; reusing one replaces the region.
    pub slot: u32,
    pub flags: u32,
    /// Where this appears in guest physical address space. Page-aligned.
    pub guest_phys_addr: u64,
    /// Size in bytes, a multiple of the page size.
    pub memory_size: u64,
    /// Host virtual address of the backing mapping. Page-aligned.
    pub userspace_addr: u64,
}

impl kvm_userspace_memory_region {
    /// Every field is zero.
    pub open spec fn zeroed(self) -> bool {
        &&& self.slot == 0
        &&& self.flags == 0
        &&& self.guest_phys_addr == 0
        &&& self.memory_size == 0
        &&& self.userspace_addr == 0
    }
}

impl Default for kvm_userspace_memory_region {
    fn default() -> (r: Self)
        ensures
            r.zeroed(),
    {
        kvm_userspace_memory_region {
            slot: 0,
            flags: 0,
            guest_phys_addr: 0,
            memory_size: 0,
            userspace_addr: 0,
        }
    }
}

/// One x86 segment register, with its hidden descriptor cache.
#[derive(Debug, Clone, Copy)]
pub struct kvm_segment {
    pub base: u64,
    pub limit: u32,
    pub selector: u16,
    pub type_: u8,
    pub present: u8,
    pub dpl: u8,
    pub db: u8,
    pub s: u8,
    pub l: u8,
    pub g: u8,
    pub avl: u8,
    /// Set to mark a segment as unusable.
    pub unusable: u8,
    pub padding: u8,
}

impl kvm_segment {
    /// Every field is zero.
    pub open spec fn zeroed(self) -> bool {
        &&& self.base == 0
        &&& self.limit == 0
        &&& self.selector == 0
        &&& self.type_ == 0
        &&& self.present == 0
        &&& self.dpl == 0
        &&& self.db == 0
        &&& self.s == 0
        &&& self.l == 0
        &&& self.g == 0
        &&& self.avl == 0
        &&& self.unusable == 0
        &&& self.padding == 0
    }
}

impl Default for kvm_segment {
    fn default() -> (r: Self)
        ensures
            r.zeroed(),
    {
        kvm_segment {
            base: 0,
            limit: 0,
            selector: 0,
            type_: 0,
            present: 0,
            dpl: 0,
            db: 0,
            s: 0,
            l: 0,
            g: 0,
            avl: 0,
            unusable: 0,
            padding: 0,
        }
    }
}

/// A descriptor-table register: base and limit, no selector.
#[derive(Debug, Clone, Copy)]
pub struct kvm_dtable {
    pub base: u64,
    pub limit: u16,
    pub padding: [u16; 3],
}

impl kvm_dtable {
    /// Every field is zero.
    pub open spec fn zeroed(self) -> bool {
        &&& self.base == 0
        &&& self.limit == 0
        &&& self.padding@[0] == 0 && self.padding@[1] == 0 && self.padding@[2] == 0
    }
}

impl Default for kvm_dtable {
    fn default() -> (r: Self)
        ensures
            r.zeroed(),
    {
        kvm_dtable {
            base: 0,
            limit: 0,
            padding: [0, 0, 0],
        }
    }
}

/// The "special" registers: segmentation, control registers, and the pending-interrupt bitmap.
/// Field order is ABI.
#[derive(Debug, Clone, Copy)]
pub struct kvm_sregs {
    pub cs: kvm_segment,
    pub ds: kvm_segment,
    pub es: kvm_segment,
    pub fs: kvm_segment,
    pub gs: kvm_segment,
    pub ss: kvm_segment,
    pub tr: kvm_segment,
    pub ldt: kvm_segment,
    pub gdt: kvm_dtable,
    pub idt: kvm_dtable,
    pub cr0: u64,
    pub cr2: u64,
    pub cr3: u64,
    pub cr4: u64,
    pub cr8: u64,
    pub efer: u64,
    pub apic_base: u64,
    /// One bit per interrupt vector.
    pub interrupt_bitmap: [u64; 4],
}

impl kvm_sregs {
    /// Every field is zero.
    pub open spec fn zeroed(self) -> bool {
        &&& self.cs.zeroed()
        &&& self.ds.zeroed()
        &&& self.es.zeroed()
        &&& self.fs.zeroed()
        &&& self.gs.zeroed()
        &&& self.ss.zeroed()
        &&& self.tr.zeroed()
        &&& self.ldt.zeroed()
        &&& self.gdt.zeroed()
        &&& self.idt.zeroed()
        &&& self.cr0 == 0
        &&& self.cr2 == 0
        &&& self.cr3 == 0
        &&& self.cr4 == 0
        &&& self.cr8 == 0
        &&& self.efer == 0
        &&& self.apic_base == 0
        &&& self.interrupt_bitmap@[0] == 0
        &&& self.interrupt_bitmap@[1] == 0
        &&& self.interrupt_bitmap@[2] == 0
        &&& self.interrupt_bitmap@[3] == 0
    }
}

impl Default for kvm_sregs {
    fn default() -> (r: Self)
        ensures
            r.zeroed(),
    {
        kvm_sregs {
            cs: kvm_segment::default(),
            ds: kvm_segment::default(),
            es: kvm_segment::default(),
            fs: kvm_segment::default(),
            gs: kvm_segment::default(),
            ss: kvm_segment::default(),
            tr: kvm_segment::default(),
            ldt: kvm_segment::default(),
            gdt: kvm_dtable::default(),
            idt: kvm_dtable::default(),
            cr0: 0,
            cr2: 0,
            cr3: 0,
            cr4: 0,
            cr8: 0,
            efer: 0,
            apic_base: 0,
            interrupt_bitmap: [0, 0, 0, 0],
        }
    }
}

/// The general-purpose registers plus `rip` and `rflags`. Field order is ABI.
#[derive(Debug, Clone, Copy)]
pub struct kvm_regs {
    pub rax: u64,
    pub rbx: u64,
    pub rcx: u64,
    pub rdx: u64,
    pub rsi: u64,
    pub rdi: u64,
    pub rsp: u64,
    pub rbp: u64,
    pub r8: u64,
    pub r9: u64,
    pub r10: u64,
    pub r11: u64,
    pub r12: u64,
    pub r13: u64,
    pub r14: u64,
    pub r15: u64,
    pub rip: u64,
    pub rflags: u64,
}

impl kvm_regs {
    /// Every field is zero.
    pub open spec fn zeroed(self) -> bool {
        &&& self.rax == 0
        &&& self.rbx == 0
        &&& self.rcx == 0
        &&& self.rdx == 0
        &&& self.rsi == 0
        &&& self.rdi == 0
        &&& self.rsp == 0
        &&& self.rbp == 0
        &&& self.r8 == 0
        &&& self.r9 == 0
        &&& self.r10 == 0
        &&& self.r11 == 0
        &&& self.r12 == 0
        &&& self.r13 == 0
        &&& self.r14 == 0
        &&& self.r15 == 0
        &&& self.rip == 0
        &&& self.rflags == 0
    }
}

impl Default for kvm_regs {
    fn default() -> (r: Self)
        ensures
            r.zeroed(),
    {
        kvm_regs {
            rax: 0,
            rbx: 0,
            rcx: 0,
            rdx: 0,
            rsi: 0,
            rdi: 0,
            rsp: 0,
            rbp: 0,
            r8: 0,
            r9: 0,
            r10: 0,
            r11: 0,
            r12: 0,
            r13: 0,
            r14: 0,
            r15: 0,
            rip: 0,
            rflags: 0,
        }
    }
}

/// The header of the shared `kvm_run` page, which is the only communication channel between KVM and
/// the VMM that takes no system call.
#[derive(Debug, Clone, Copy)]
pub struct kvm_run_header {
    /// In: ask KVM to exit as soon as the guest can accept an interrupt.
    pub request_interrupt_window: u8,
    /// In: force an immediate exit.
    pub immediate_exit: u8,
    pub padding1: [u8; 6],
    /// Out: why `KVM_RUN` returned.
    pub exit_reason: u32,
    pub ready_for_interrupt_injection: u8,
    pub if_flag: u8,
    pub flags: u16,
    pub cr8: u64,
    pub apic_base: u64,
}

impl kvm_run_header {
    /// Every field is zero.
    pub open spec fn zeroed(self) -> bool {
        &&& self.request_interrupt_window == 0
        &&& self.immediate_exit == 0
        &&& self.padding1@[0] == 0 && self.padding1@[1] == 0 && self.padding1@[2] == 0
        &&& self.padding1@[3] == 0 && self.padding1@[4] == 0 && self.padding1@[5] == 0
        &&& self.exit_reason == 0
        &&& self.ready_for_interrupt_injection == 0
        &&& self.if_flag == 0
        &&& self.flags == 0
        &&& self.cr8 == 0
        &&& self.apic_base == 0
    }
}

impl Default for kvm_run_header {
    fn default() -> (r: Self)
        ensures
            r.zeroed(),
    {
        kvm_run_header {
            request_interrupt_window: 0,
            immediate_exit: 0,
            padding1: [0, 0, 0, 0, 0, 0],
            exit_reason: 0,
            ready_for_interrupt_injection: 0,
            if_flag: 0,
            flags: 0,
            cr8: 0,
            apic_base: 0,
        }
    }
}

/// Byte offset of the exit-information union inside the `kvm_run` page: the size of the header.
pub const KVM_RUN_UNION_OFFSET: usize = 32;

/// `KVM_EXIT_IO` variant of the union. The payload is elsewhere in the shared page: at
/// `data_offset` bytes from the start of the mapping, not from this structure.
#[derive(Debug, Clone, Copy)]
pub struct kvm_run_io {
    /// `KVM_EXIT_IO_IN` or `KVM_EXIT_IO_OUT`, from the guest's point of view.
    pub direction: u8,
    /// Bytes per item: 1, 2 or 4.
    pub size: u8,
    pub port: u16,
    /// Number of items. Greater than 1 only for string I/O instructions.
    pub count: u32,
    /// Offset of the payload from the start of the `kvm_run` mapping.
    pub data_offset: u64,
}

/// `KVM_EXIT_MMIO` variant of the union. The payload is inline: on a write, `data[..len]` is what
/// the guest stored; on a read, the VMM fills it.
#[derive(Debug, Clone, Copy)]
pub struct kvm_run_mmio {
    pub phys_addr: u64,
    pub data: [u8; 8],
    pub len: u32,
    pub is_write: u8,
}


/// The exit reasons that have names, by their numbers. Any other has none of its own.
pub proof fn law_reason_names(r: u32)
    ensures
        r == 0 ==> reason_text(r) == "KVM_EXIT_UNKNOWN"@,
        r == 2 ==> reason_text(r) == "KVM_EXIT_IO"@,
        r == 5 ==> reason_text(r) == "KVM_EXIT_HLT"@,
        r == 6 ==> reason_text(r) == "KVM_EXIT_MMIO"@,
        r == 8 ==> reason_text(r) == "KVM_EXIT_SHUTDOWN"@,
        r == 9 ==> reason_text(r) == "KVM_EXIT_FAIL_ENTRY"@,
        r == 10 ==> reason_text(r) == "KVM_EXIT_INTR"@,
        r == 17 ==> reason_text(r) == "KVM_EXIT_INTERNAL_ERROR"@,
        r != 0 && r != 2 && r != 5 && r != 6 && r != 8 && r != 9 && r != 10 && r != 17
            ==> reason_text(r) == "unhandled exit reason"@,
{
}


/// Registers that are zeroed are zero, every one of them.
pub proof fn law_zeroed_registers(r: kvm_regs)
    requires
        r.zeroed(),
    ensures
        r.rax == 0,
        r.rbx == 0,
        r.rcx == 0,
        r.rdx == 0,
        r.rsi == 0,
        r.rdi == 0,
        r.rsp == 0,
        r.rbp == 0,
        r.r8 == 0,
        r.r9 == 0,
        r.r10 == 0,
        r.r11 == 0,
        r.r12 == 0,
        r.r13 == 0,
        r.r14 == 0,
        r.r15 == 0,
        r.rip == 0,
        r.rflags == 0,
{
}

/// A segment that is zeroed is zero in every field.
pub proof fn law_zeroed_segment(seg: kvm_segment)
    requires
        seg.zeroed(),
    ensures
        seg.base == 0,
        seg.limit == 0,
        seg.selector == 0,
        seg.type_ == 0,
        seg.present == 0,
        seg.dpl == 0,
        seg.db == 0,
        seg.s == 0,
        seg.l == 0,
        seg.g == 0,
        seg.avl == 0,
        seg.unusable == 0,
        seg.padding == 0,
{
}

/// Special registers that are zeroed are zero, every segment, table and register of them.
pub proof fn law_zeroed_special_registers(r: kvm_sregs)
    requires
        r.zeroed(),
    ensures
        r.cs.zeroed() && r.ds.zeroed() && r.es.zeroed() && r.fs.zeroed(),
        r.gs.zeroed() && r.ss.zeroed() && r.tr.zeroed() && r.ldt.zeroed(),
        r.gdt.base == 0 && r.gdt.limit == 0 && r.idt.base == 0 && r.idt.limit == 0,
        forall|i: int| 0 <= i < 3 ==> #[trigger] r.gdt.padding@[i] == 0 && r.idt.padding@[i] == 0,
        r.cr0 == 0 && r.cr2 == 0 && r.cr3 == 0 && r.cr4 == 0 && r.cr8 == 0,
        r.efer == 0 && r.apic_base == 0,
        forall|i: int| 0 <= i < 4 ==> #[trigger] r.interrupt_bitmap@[i] == 0,
{
}

/// A region that is zeroed, and a header that is, are zero in every field.
pub proof fn law_zeroed_records(r: kvm_userspace_memory_region, h: kvm_run_header)
    requires
        r.zeroed(),
        h.zeroed(),
    ensures
        r.slot == 0 && r.flags == 0 && r.guest_phys_addr == 0,
        r.memory_size == 0 && r.userspace_addr == 0,
        h.request_interrupt_window == 0 && h.immediate_exit == 0 && h.exit_reason == 0,
        h.ready_for_interrupt_injection == 0 && h.if_flag == 0 && h.flags == 0,
        h.cr8 == 0 && h.apic_base == 0,
        forall|i: int| 0 <= i < 6 ==> #[trigger] h.padding1@[i] == 0,
{
}

/// A request number is its fields, each shifted to its place, whatever they hold.
pub proof fn law_request_bits(dir: u32, ty: u32, nr: u32, size: u32)
    ensures
        request(dir, ty, nr, size) == ((dir << 30u32) | (size << 16u32) | (ty << 8u32) | (nr
            << 0u32)) as u64,
{
}

} // verus!
