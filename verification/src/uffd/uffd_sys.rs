//! The `userfaultfd` ABI: the ioctl numbers and the structures they carry, as
//! `include/uapi/linux/userfaultfd.h` has them.
//!
//! A userfaultfd is a file descriptor that receives page faults. With a region registered in
//! missing mode, the kernel parks a thread that touches an absent page and publishes a message on
//! the fd. Some other thread reads it, decides what should be at that address and installs the page
//! with `UFFDIO_COPY`, and the faulting thread resumes as though memory had always been there.

#![allow(non_camel_case_types)]

use vstd::prelude::*;

verus! {

pub const IOC_NRSHIFT: u32 = 0;

pub const IOC_TYPESHIFT: u32 = 8;

pub const IOC_SIZESHIFT: u32 = 16;

pub const IOC_DIRSHIFT: u32 = 30;

pub const IOC_READ: u32 = 2;

pub const IOC_WRITE: u32 = 1;

/// The type byte `userfaultfd` owns.
pub const UFFDIO: u32 = 0xAA;

/// The request number with these three fields, and the type byte, in their places.
pub open spec fn request(dir: u32, nr: u32, size: u32) -> u64 {
    ((dir << IOC_DIRSHIFT) | (size << IOC_SIZESHIFT) | (UFFDIO << IOC_TYPESHIFT) | (nr
        << IOC_NRSHIFT)) as u64
}

pub fn ioc(dir: u32, nr: u32, size: usize) -> (r: u64)
    ensures
        r == request(dir, nr, size as u32),
{
    ((dir << IOC_DIRSHIFT) | ((size as u32) << IOC_SIZESHIFT) | (UFFDIO << IOC_TYPESHIFT) | (nr
        << IOC_NRSHIFT)) as u64
}

/// Kernel reads the structure and writes back into it.
pub fn iowr(nr: u32, size: usize) -> (r: u64)
    ensures
        r == request(IOC_READ | IOC_WRITE, nr, size as u32),
{
    ioc(IOC_READ | IOC_WRITE, nr, size)
}

/// Kernel reads the structure. The direction bits are as the kernel's header has them.
pub fn ior(nr: u32, size: usize) -> (r: u64)
    ensures
        r == request(IOC_READ, nr, size as u32),
{
    ioc(IOC_READ, nr, size)
}

/// Each field of a request number can be read back: fields that fit do not overlap.
pub proof fn law_request_fields(dir: u32, nr: u32, size: u32)
    requires
        dir < 4,
        nr < 0x100,
        size < 0x4000,
    ensures
        request(dir, nr, size) == dir * 0x4000_0000 + size * 0x1_0000 + UFFDIO * 0x100 + nr,
        request(dir, nr, size) / 0x4000_0000 == dir,
        request(dir, nr, size) / 0x1_0000 % 0x4000 == size,
        request(dir, nr, size) / 0x100 % 0x100 == UFFDIO,
        request(dir, nr, size) % 0x100 == nr,
{
    assert(((dir << 30u32) | (size << 16u32) | (0xAAu32 << 8u32) | (nr << 0u32)) as u64 == dir
        * 0x4000_0000 + size * 0x1_0000 + 0xAA00 + nr) by (bit_vector)
        requires
            dir < 4,
            nr < 0x100,
            size < 0x4000,
    ;
}

/// Restrict the fd to faults taken in user mode. Where `vm.unprivileged_userfaultfd` is 0, an
/// unprivileged process may create a userfaultfd only with this flag.
pub const UFFD_USER_MODE_ONLY: i32 = 1;

/// Bytes of a `uffdio_api` with C layout.
pub const SIZE_OF_API: usize = 24;

/// Bytes of a `uffdio_range` with C layout.
pub const SIZE_OF_RANGE: usize = 16;

/// Bytes of a `uffdio_register` with C layout.
pub const SIZE_OF_REGISTER: usize = 32;

/// Bytes of a `uffdio_copy` with C layout.
pub const SIZE_OF_COPY: usize = 40;

/// Bytes of a `uffdio_zeropage` with C layout.
pub const SIZE_OF_ZEROPAGE: usize = 32;

/// Bytes of a `uffd_msg` with C layout: what the kernel writes per message.
pub const SIZE_OF_MSG: usize = 32;

/// Handshake. Must be the first ioctl on the fd.
pub const UFFDIO_API: u64 = 0xC018_AA3F;

/// Start reporting faults for a range.
pub const UFFDIO_REGISTER: u64 = 0xC020_AA00;

pub const UFFDIO_UNREGISTER: u64 = 0x8010_AA01;

/// Wake threads parked on a range without installing anything.
pub const UFFDIO_WAKE: u64 = 0x8010_AA02;

/// Install page content at a faulting address and, by default, wake whoever was waiting.
pub const UFFDIO_COPY: u64 = 0xC028_AA03;

/// Install zeroed pages.
pub const UFFDIO_ZEROPAGE: u64 = 0xC020_AA04;

/// The request numbers are the encodings of their direction, command and structure size.
pub proof fn law_request_numbers()
    ensures
        UFFDIO_API == request(IOC_READ | IOC_WRITE, 0x3F, SIZE_OF_API as u32),
        UFFDIO_REGISTER == request(IOC_READ | IOC_WRITE, 0x00, SIZE_OF_REGISTER as u32),
        UFFDIO_UNREGISTER == request(IOC_READ, 0x01, SIZE_OF_RANGE as u32),
        UFFDIO_WAKE == request(IOC_READ, 0x02, SIZE_OF_RANGE as u32),
        UFFDIO_COPY == request(IOC_READ | IOC_WRITE, 0x03, SIZE_OF_COPY as u32),
        UFFDIO_ZEROPAGE == request(IOC_READ | IOC_WRITE, 0x04, SIZE_OF_ZEROPAGE as u32),
{
    assert(2u32 | 1u32 == 3u32) by (bit_vector);
    law_request_fields(3, 0x3F, 24);
    law_request_fields(3, 0x00, 32);
    law_request_fields(2, 0x01, 16);
    law_request_fields(2, 0x02, 16);
    law_request_fields(3, 0x03, 40);
    law_request_fields(3, 0x04, 32);
}

/// The API version.
pub const UFFD_API: u64 = 0xAA;

/// Report faults on pages that have no backing yet.
pub const UFFDIO_REGISTER_MODE_MISSING: u64 = 1;

/// Report faults on writes to present pages.
pub const UFFDIO_REGISTER_MODE_WP: u64 = 2;

/// Install the page but do not wake the faulting thread yet.
pub const UFFDIO_COPY_MODE_DONTWAKE: u64 = 1;

pub const UFFD_EVENT_PAGEFAULT: u8 = 0x12;

/// The fault was a write. Absent, it was a read.
pub const UFFD_PAGEFAULT_FLAG_WRITE: u64 = 1;

/// The API handshake.
#[derive(Debug, Clone, Copy, PartialEq, Eq, Structural)]
pub struct uffdio_api {
    /// In: the version userspace speaks.
    pub api: u64,
    /// In: features requested. Out: features the kernel supports.
    pub features: u64,
    /// Out: which ioctls this fd supports.
    pub ioctls: u64,
}

impl Default for uffdio_api {
    fn default() -> (r: Self)
        ensures
            r == (uffdio_api {
                api: 0,
                features: 0,
                ioctls: 0,
            }),
    {
        uffdio_api {
            api: 0,
            features: 0,
            ioctls: 0,
        }
    }
}

/// A range of addresses.
#[derive(Debug, Clone, Copy, PartialEq, Eq, Structural)]
pub struct uffdio_range {
    pub start: u64,
    pub len: u64,
}

impl Default for uffdio_range {
    fn default() -> (r: Self)
        ensures
            r == (uffdio_range {
                start: 0,
                len: 0,
            }),
    {
        uffdio_range {
            start: 0,
            len: 0,
        }
    }
}

/// A range to watch.
#[derive(Debug, Clone, Copy, PartialEq, Eq, Structural)]
pub struct uffdio_register {
    pub range: uffdio_range,
    /// In: `UFFDIO_REGISTER_MODE_` bits.
    pub mode: u64,
    /// Out: which ioctls are valid for this range.
    pub ioctls: u64,
}

impl Default for uffdio_register {
    fn default() -> (r: Self)
        ensures
            r == (uffdio_register {
                range: uffdio_range { start: 0, len: 0 },
                mode: 0,
                ioctls: 0,
            }),
    {
        uffdio_register {
            range: uffdio_range { start: 0, len: 0 },
            mode: 0,
            ioctls: 0,
        }
    }
}

/// Page content to install.
#[derive(Debug, Clone, Copy, PartialEq, Eq, Structural)]
pub struct uffdio_copy {
    /// Destination in the registered region. Page-aligned.
    pub dst: u64,
    /// Source, anywhere in this process.
    pub src: u64,
    /// Length, a multiple of the page size.
    pub len: u64,
    pub mode: u64,
    /// Out: bytes copied, or a negative error number. A negative value here is not an ioctl failure.
    pub copy: i64,
}

impl Default for uffdio_copy {
    fn default() -> (r: Self)
        ensures
            r == (uffdio_copy {
                dst: 0,
                src: 0,
                len: 0,
                mode: 0,
                copy: 0,
            }),
    {
        uffdio_copy {
            dst: 0,
            src: 0,
            len: 0,
            mode: 0,
            copy: 0,
        }
    }
}

/// A range to fill with zero pages.
#[derive(Debug, Clone, Copy, PartialEq, Eq, Structural)]
pub struct uffdio_zeropage {
    pub range: uffdio_range,
    pub mode: u64,
    /// Out: bytes zeroed, or a negative error number.
    pub zeropage: i64,
}

impl Default for uffdio_zeropage {
    fn default() -> (r: Self)
        ensures
            r == (uffdio_zeropage {
                range: uffdio_range { start: 0, len: 0 },
                mode: 0,
                zeropage: 0,
            }),
    {
        uffdio_zeropage {
            range: uffdio_range { start: 0, len: 0 },
            mode: 0,
            zeropage: 0,
        }
    }
}

/// A message read from the userfaultfd. Of the kernel's union only the page-fault variant is here.
#[derive(Debug, Clone, Copy, PartialEq, Eq, Structural)]
pub struct uffd_msg {
    pub event: u8,
    pub reserved1: u8,
    pub reserved2: u16,
    pub reserved3: u32,
    /// `UFFD_PAGEFAULT_FLAG_` bits.
    pub pagefault_flags: u64,
    /// The faulting address, rounded down to a page boundary by the kernel.
    pub pagefault_address: u64,
    /// Faulting thread id, where that was asked for.
    pub pagefault_ptid: u32,
    pub _pad: u32,
}

impl Default for uffd_msg {
    fn default() -> (r: Self)
        ensures
            r == (uffd_msg {
                event: 0,
                reserved1: 0,
                reserved2: 0,
                reserved3: 0,
                pagefault_flags: 0,
                pagefault_address: 0,
                pagefault_ptid: 0,
                _pad: 0,
            }),
    {
        uffd_msg {
            event: 0,
            reserved1: 0,
            reserved2: 0,
            reserved3: 0,
            pagefault_flags: 0,
            pagefault_address: 0,
            pagefault_ptid: 0,
            _pad: 0,
        }
    }
}


/// A request number is its fields, each shifted to its place, whatever they hold.
pub proof fn law_request_bits(dir: u32, nr: u32, size: u32)
    ensures
        request(dir, nr, size) == ((dir << 30u32) | (size << 16u32) | (0xAAu32 << 8u32) | (nr
            << 0u32)) as u64,
{
}

} // verus!
