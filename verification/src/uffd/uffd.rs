//! The decisions of a demand pager: how the fd is obtained, what each answer of the kernel means,
//! and what a fault handler installs for a fault.
//!
//! Nothing here talks to the kernel. A program makes the system calls and hands back the numbers
//! they returned.

use crate::le::{decode_u16, decode_u32, decode_u64, law_fields_byte_by_byte, le_value};
use crate::uffd::uffd_sys::{
    uffd_msg, uffdio_api, uffdio_copy, uffdio_range, uffdio_register, SIZE_OF_MSG,
    UFFDIO_COPY_MODE_DONTWAKE, UFFDIO_REGISTER_MODE_MISSING, UFFD_API, UFFD_EVENT_PAGEFAULT,
    UFFD_PAGEFAULT_FLAG_WRITE, UFFD_USER_MODE_ONLY,
};
use crate::virtq::mem::put;
use vstd::prelude::*;

verus! {

/// 4 KiB.
pub const PAGE: usize = 4096;

/// Error number: operation not permitted.
pub const EPERM: i32 = 1;

/// Error number: interrupted by a signal.
pub const EINTR: i32 = 4;

/// Error number: nothing to read now.
pub const EAGAIN: i32 = 11;

/// Error number: the page is already there.
pub const EEXIST: i32 = 17;

/// Close the fd when another program is executed.
pub const O_CLOEXEC: i32 = 0x8_0000;

/// Reads of the fd do not wait.
pub const O_NONBLOCK: i32 = 0x800;

/// The flags that a userfaultfd is created with.
pub open spec fn creation_flags(non_blocking: bool, restricted: bool) -> int {
    O_CLOEXEC + if non_blocking {
        O_NONBLOCK as int
    } else {
        0
    } + if restricted {
        UFFD_USER_MODE_ONLY as int
    } else {
        0
    }
}

/// The flags to create a userfaultfd with.
pub fn open_flags(non_blocking: bool, restricted: bool) -> (r: i32)
    ensures
        r == creation_flags(non_blocking, restricted),
{
    let mut flags: i32 = O_CLOEXEC;
    if non_blocking {
        assert(0x8_0000i32 | 0x800i32 == 0x8_0800i32) by (bit_vector);
        flags = flags | O_NONBLOCK;
    }
    if restricted {
        assert(0x8_0000i32 | 1i32 == 0x8_0001i32 && 0x8_0800i32 | 1i32 == 0x8_0801i32)
            by (bit_vector);
        flags = flags | UFFD_USER_MODE_ONLY;
    }
    flags
}

/// What to do after an attempt to create a userfaultfd.
#[derive(Debug, Clone, Copy, PartialEq, Eq, Structural)]
pub enum Opened {
    /// It is there; go on to the handshake.
    Handshake,
    /// Only the restricted form is permitted; try that.
    TryRestricted,
    /// It cannot be had, for this error number.
    Failed(i32),
}

/// What an attempt to create a userfaultfd comes to.
pub open spec fn opening(restricted: bool, outcome: Result<(), i32>) -> Opened {
    match outcome {
        Ok(_) => Opened::Handshake,
        Err(e) => if e == EPERM && !restricted {
            Opened::TryRestricted
        } else {
            Opened::Failed(e)
        },
    }
}

/// The restricted form is tried where, and only where, the plain one is not permitted; any other
/// failure is one, with its own number, and success is success.
pub proof fn law_openings(restricted: bool, outcome: Result<(), i32>)
    ensures
        opening(restricted, outcome) is Handshake <==> outcome is Ok,
        opening(restricted, outcome) is TryRestricted <==> !restricted && outcome
            == Err::<(), i32>(1),
        opening(restricted, outcome) matches Opened::Failed(e) ==> outcome == Err::<(), i32>(e),
{
}

/// Judge an attempt to create a userfaultfd. The restricted form is tried second, and only where
/// the plain one is not permitted: the restricted fd cannot do everything the other can.
pub fn after_open(restricted: bool, outcome: Result<(), i32>) -> (r: Opened)
    ensures
        r == match outcome {
            Ok(_) => Opened::Handshake,
            Err(e) => if e == EPERM && !restricted {
                Opened::TryRestricted
            } else {
                Opened::Failed(e)
            },
        },
        r == opening(restricted, outcome),
{
    match outcome {
        Ok(()) => Opened::Handshake,
        Err(e) => {
            if e == EPERM && !restricted {
                Opened::TryRestricted
            } else {
                Opened::Failed(e)
            }
        },
    }
}

/// The handshake: the version, and no features asked for, which makes it a pure query.
pub fn handshake() -> (r: uffdio_api)
    ensures
        r == (uffdio_api { api: UFFD_API, features: 0, ioctls: 0 }),
{
    uffdio_api { api: UFFD_API, features: 0, ioctls: 0 }
}

/// Ask for missing-page faults on the `len` bytes from `start` on.
pub fn register_missing(start: u64, len: u64) -> (r: uffdio_register)
    ensures
        r == (uffdio_register {
            range: uffdio_range { start, len },
            mode: UFFDIO_REGISTER_MODE_MISSING,
            ioctls: 0,
        }),
{
    uffdio_register {
        range: uffdio_range { start, len },
        mode: UFFDIO_REGISTER_MODE_MISSING,
        ioctls: 0,
    }
}

/// Install `len` bytes from `src` at `dst`, and wake whoever waits for them or not.
pub fn copy(dst: u64, src: u64, len: u64, wake: bool) -> (r: uffdio_copy)
    ensures
        r == (uffdio_copy {
            dst,
            src,
            len,
            mode: if wake {
                0
            } else {
                UFFDIO_COPY_MODE_DONTWAKE
            },
            copy: 0,
        }),
{
    uffdio_copy {
        dst,
        src,
        len,
        mode: if wake {
            0
        } else {
            UFFDIO_COPY_MODE_DONTWAKE
        },
        copy: 0,
    }
}

/// Wake the threads parked in the `len` bytes from `start` on, without installing anything.
pub fn wake(start: u64, len: u64) -> (r: uffdio_range)
    ensures
        r == (uffdio_range { start, len }),
{
    uffdio_range { start, len }
}

/// How many bytes were put in place, from what the ioctl returned and what it left behind.
pub open spec fn bytes_in_place(ioctl: Result<(), i32>, copied: i64) -> Result<u64, i32> {
    match ioctl {
        Err(e) => if e == EEXIST {
            Ok(0)
        } else {
            Err(e)
        },
        Ok(_) => if copied >= 0 {
            Ok(copied as u64)
        } else if copied == -EEXIST {
            Ok(0)
        } else {
            Err((-copied) as i32)
        },
    }
}

/// An install that went through put in place what it says, and one that came second put in nothing;
/// no other is taken for one that went through, and its error is the one that was reported.
pub proof fn law_installs_are_not_taken_for_granted(ioctl: Result<(), i32>, copied: i64)
    requires
        i32::MIN < copied,
    ensures
        match bytes_in_place(ioctl, copied) {
            Ok(n) => match ioctl {
                Ok(_) => n == copied || (n == 0 && copied == -17),
                Err(e) => n == 0 && e == 17,
            },
            Err(n) => n != 17 && match ioctl {
                Ok(_) => copied < 0 && n == -copied,
                Err(e) => n == e,
            },
        },
{
}

/// How many bytes an install put in place, from what the ioctl returned and, if it went through,
/// from what it left in the out-parameter.
///
/// That the page is already there, reported either way, means that another thread installed it
/// first, which is normal and counts as zero bytes. Every other negative value of the
/// out-parameter is an error, although the ioctl itself succeeded: a handler that missed it would
/// leave the faulting thread waiting forever.
pub fn copy_outcome(ioctl: Result<(), i32>, copied: i64) -> (r: Result<u64, i32>)
    requires
        copied > i64::MIN,
    ensures
        r == match ioctl {
            Err(e) => if e == EEXIST {
                Ok(0u64)
            } else {
                Err(e)
            },
            Ok(_) => if copied >= 0 {
                Ok(copied as u64)
            } else if copied == -EEXIST {
                Ok(0u64)
            } else {
                Err((-copied) as i32)
            },
        },
        r == bytes_in_place(ioctl, copied),
{
    match ioctl {
        Err(e) => {
            if e == EEXIST {
                return Ok(0);
            }
            return Err(e);
        },
        Ok(()) => {},
    }
    if copied < 0 {
        if copied == -(EEXIST as i64) {
            return Ok(0);
        }
        return Err((-copied) as i32);
    }
    Ok(copied as u64)
}

/// What to do after waiting for the fd.
#[derive(Debug, Clone, Copy, PartialEq, Eq, Structural)]
pub enum Polled {
    /// There is something to read.
    Read,
    /// Nothing came: the time ran out, or a signal interrupted the wait.
    Nothing,
    /// Waiting failed with this error number.
    Failed(i32),
}

/// What waiting for the fd comes to.
pub open spec fn waiting(n: i32, errno: i32) -> Polled {
    if n < 0 {
        if errno == EINTR {
            Polled::Nothing
        } else {
            Polled::Failed(errno)
        }
    } else if n == 0 {
        Polled::Nothing
    } else {
        Polled::Read
    }
}

/// There is something to read exactly where `poll` counts a descriptor; waiting fails exactly where
/// it reports an error other than an interruption, and with that error.
pub proof fn law_waits(n: i32, errno: i32)
    ensures
        waiting(n, errno) is Read <==> n > 0,
        waiting(n, errno) is Failed <==> n < 0 && errno != 4,
        waiting(n, errno) matches Polled::Failed(e) ==> e == errno,
{
}

/// Judge what `poll` returned, with the error number if that is negative.
pub fn after_poll(n: i32, errno: i32) -> (r: Polled)
    ensures
        r == if n < 0 {
            if errno == EINTR {
                Polled::Nothing
            } else {
                Polled::Failed(errno)
            }
        } else if n == 0 {
            Polled::Nothing
        } else {
            Polled::Read
        },
        r == waiting(n, errno),
{
    if n < 0 {
        if errno == EINTR {
            return Polled::Nothing;
        }
        return Polled::Failed(errno);
    }
    if n == 0 {
        return Polled::Nothing;
    }
    Polled::Read
}

/// What a read of the fd came to.
#[derive(Debug, Clone, Copy, PartialEq, Eq, Structural)]
pub enum ReadResult {
    /// A whole message.
    Message,
    /// Another handler thread got there first.
    Nothing,
    /// Reading failed with this error number.
    Failed(i32),
    /// The kernel wrote something other than one message.
    Short(i64),
}

/// What reading the fd comes to.
pub open spec fn reading(got: i64, errno: i32) -> ReadResult {
    if got < 0 {
        if errno == EAGAIN {
            ReadResult::Nothing
        } else {
            ReadResult::Failed(errno)
        }
    } else if got != SIZE_OF_MSG {
        ReadResult::Short(got)
    } else {
        ReadResult::Message
    }
}

/// A message is there exactly where all its bytes are; a read that gave others is short by what it
/// gave; and one that failed, other than for want of a message, failed with its number.
pub proof fn law_reads_of_messages(got: i64, errno: i32)
    ensures
        reading(got, errno) is Message <==> got == 32,
        reading(got, errno) is Short <==> got >= 0 && got != 32,
        reading(got, errno) matches ReadResult::Short(n) ==> n == got,
        reading(got, errno) is Nothing <==> got < 0 && errno == 11,
        reading(got, errno) matches ReadResult::Failed(e) ==> e == errno,
{
}

/// Judge what `read` returned, with the error number if that is negative.
pub fn after_read(got: i64, errno: i32) -> (r: ReadResult)
    ensures
        r == if got < 0 {
            if errno == EAGAIN {
                ReadResult::Nothing
            } else {
                ReadResult::Failed(errno)
            }
        } else if got != SIZE_OF_MSG {
            ReadResult::Short(got)
        } else {
            ReadResult::Message
        },
        r == reading(got, errno),
{
    if got < 0 {
        if errno == EAGAIN {
            return ReadResult::Nothing;
        }
        return ReadResult::Failed(errno);
    }
    if got != SIZE_OF_MSG as i64 {
        return ReadResult::Short(got);
    }
    ReadResult::Message
}

/// What to do after a read of a handler that never sleeps.
#[derive(Debug, Clone, Copy, PartialEq, Eq, Structural)]
pub enum Spun {
    /// A whole message.
    Message,
    /// Nothing yet: hint to the core that this is a spin loop, and read again.
    Relax,
    /// Read again.
    Again,
    /// Reading failed with this error number.
    Failed(i32),
}

/// What a read of a handler that never sleeps comes to.
pub open spec fn spinning(got: i64, errno: i32) -> Spun {
    if got == SIZE_OF_MSG {
        Spun::Message
    } else if got >= 0 || errno == EINTR {
        Spun::Again
    } else if errno == EAGAIN {
        Spun::Relax
    } else {
        Spun::Failed(errno)
    }
}

/// A handler that never sleeps takes a whole message and nothing less, reads again where it was
/// interrupted or given something else, relaxes where there is nothing yet, and else has failed.
pub proof fn law_spins(got: i64, errno: i32)
    ensures
        spinning(got, errno) is Message <==> got == 32,
        spinning(got, errno) is Relax <==> got < 0 && errno == 11,
        spinning(got, errno) is Failed <==> got < 0 && errno != 11 && errno != 4,
        spinning(got, errno) matches Spun::Failed(e) ==> e == errno,
{
}

/// Judge what `read` returned to a handler that never sleeps.
pub fn after_spin(got: i64, errno: i32) -> (r: Spun)
    ensures
        r == if got == SIZE_OF_MSG {
            Spun::Message
        } else if got >= 0 || errno == EINTR {
            Spun::Again
        } else if errno == EAGAIN {
            Spun::Relax
        } else {
            Spun::Failed(errno)
        },
        r == spinning(got, errno),
{
    if got == SIZE_OF_MSG as i64 {
        return Spun::Message;
    }
    if got < 0 {
        if errno == EAGAIN {
            return Spun::Relax;
        }
        if errno != EINTR {
            return Spun::Failed(errno);
        }
    }
    Spun::Again
}

/// The message that 32 bytes hold.
pub open spec fn message_in(bytes: Seq<u8>) -> uffd_msg {
    uffd_msg {
        event: bytes[0],
        reserved1: bytes[1],
        reserved2: le_value(bytes.subrange(2, 4)) as u16,
        reserved3: le_value(bytes.subrange(4, 8)) as u32,
        pagefault_flags: le_value(bytes.subrange(8, 16)) as u64,
        pagefault_address: le_value(bytes.subrange(16, 24)) as u64,
        pagefault_ptid: le_value(bytes.subrange(24, 28)) as u32,
        _pad: le_value(bytes.subrange(28, 32)) as u32,
    }
}

/// Where the kernel puts the event, the flags of a fault, and its address: in the first byte, and in
/// the eight from the eighth and from the sixteenth on, little-endian.
pub proof fn law_message_fields(b: Seq<u8>)
    requires
        b.len() == 32,
    ensures
        message_in(b).event == b[0],
        message_in(b).pagefault_flags == b[8] + 0x100 * b[9] + 0x1_0000 * b[10] + 0x100_0000 * b[11]
            + 0x1_0000_0000 * b[12] + 0x100_0000_0000 * b[13] + 0x1_0000_0000_0000 * b[14]
            + 0x100_0000_0000_0000 * b[15],
        message_in(b).pagefault_address == b[16] + 0x100 * b[17] + 0x1_0000 * b[18] + 0x100_0000
            * b[19] + 0x1_0000_0000 * b[20] + 0x100_0000_0000 * b[21] + 0x1_0000_0000_0000 * b[22]
            + 0x100_0000_0000_0000 * b[23],
        message_in(b).pagefault_ptid == b[24] + 0x100 * b[25] + 0x1_0000 * b[26] + 0x100_0000
            * b[27],
{
    law_fields_byte_by_byte(b.subrange(8, 16));
    law_fields_byte_by_byte(b.subrange(16, 24));
    law_fields_byte_by_byte(b.subrange(24, 28));
}

/// The message that stands in the 32 bytes the kernel wrote.
pub fn decode_msg(bytes: &[u8]) -> (r: uffd_msg)
    requires
        bytes@.len() == SIZE_OF_MSG,
    ensures
        r == (uffd_msg {
            event: bytes@[0],
            reserved1: bytes@[1],
            reserved2: le_value(bytes@.subrange(2, 4)) as u16,
            reserved3: le_value(bytes@.subrange(4, 8)) as u32,
            pagefault_flags: le_value(bytes@.subrange(8, 16)) as u64,
            pagefault_address: le_value(bytes@.subrange(16, 24)) as u64,
            pagefault_ptid: le_value(bytes@.subrange(24, 28)) as u32,
            _pad: le_value(bytes@.subrange(28, 32)) as u32,
        }),
        r == message_in(bytes@),
{
    uffd_msg {
        event: bytes[0],
        reserved1: bytes[1],
        reserved2: decode_u16(&bytes[2..4]),
        reserved3: decode_u32(&bytes[4..8]),
        pagefault_flags: decode_u64(&bytes[8..16]),
        pagefault_address: decode_u64(&bytes[16..24]),
        pagefault_ptid: decode_u32(&bytes[24..28]),
        _pad: decode_u32(&bytes[28..32]),
    }
}

/// A mapping of whole pages.
#[derive(Debug)]
pub struct Region {
    start: usize,
    len: usize,
}

impl Region {
    /// The address of its first byte.
    pub closed spec fn start_addr(self) -> usize {
        self.start
    }

    /// Its size in bytes.
    pub closed spec fn byte_len(self) -> usize {
        self.len
    }

    /// The region that a mapping of `pages` pages at `start` makes.
    pub fn new(start: usize, pages: usize) -> (r: Self)
        requires
            pages * PAGE <= usize::MAX,
        ensures
            r.start_addr() == start,
            r.byte_len() == pages * PAGE,
    {
        Region { start, len: pages * PAGE }
    }

    /// The address of its first byte.
    pub fn ptr(&self) -> (r: usize)
        ensures
            r == self.start_addr(),
    {
        self.start
    }

    pub fn len(&self) -> (r: usize)
        ensures
            r == self.byte_len(),
    {
        self.len
    }

    pub fn is_empty(&self) -> (r: bool)
        ensures
            r == (self.byte_len() == 0),
    {
        self.len == 0
    }

    pub fn pages(&self) -> (r: usize)
        ensures
            r == self.byte_len() as int / PAGE as int,
    {
        self.len / PAGE
    }

    /// The address of the first byte of page `page`, which is the one to touch.
    pub fn page_addr(&self, page: usize) -> (r: usize)
        requires
            page < self.byte_len() as int / PAGE as int,
            self.start_addr() + self.byte_len() <= usize::MAX,
        ensures
            r == self.start_addr() + page * PAGE,
    {
        self.start + page * PAGE
    }
}

/// What one handler did.
#[derive(Debug, Clone, Copy, PartialEq, Eq, Structural)]
pub struct HandlerStats {
    pub faults: u64,
    pub pages_installed: u64,
    pub write_faults: u64,
}

impl Default for HandlerStats {
    fn default() -> (r: Self)
        ensures
            r == (HandlerStats { faults: 0, pages_installed: 0, write_faults: 0 }),
    {
        HandlerStats { faults: 0, pages_installed: 0, write_faults: 0 }
    }
}

/// What a fault handler knows: where the region is, and how many pages to install per fault. One is
/// pure demand paging; more is speculative prefaulting.
#[derive(Debug, Clone, Copy, PartialEq, Eq, Structural)]
pub struct Handler {
    pub region_start: usize,
    pub region_pages: usize,
    pub batch_pages: usize,
}

/// What a handler does about a message.
#[derive(Debug, Clone, Copy, PartialEq, Eq, Structural)]
pub enum FaultAction {
    /// An event that was not asked for.
    Ignore { event: u8 },
    /// Install `len` bytes of the image, from `offset` on, at address `dst`, for the fault on `page`.
    Install { page: usize, dst: usize, offset: usize, len: usize },
}

/// How many pages are installed for a fault on `page`: a batch, as far as the region goes.
pub open spec fn run_pages(page: int, pages: int, batch: int) -> int {
    if batch <= pages - page {
        batch
    } else {
        pages - page
    }
}

impl Handler {
    /// The region lies below the end of the address space, and starts at a page.
    pub open spec fn wf(self) -> bool {
        &&& self.region_start + self.region_pages * PAGE <= usize::MAX
        &&& self.region_start as int % PAGE as int == 0
    }

    /// The page of the region that holds `addr`.
    pub open spec fn page_of(self, addr: int) -> int {
        (addr - self.region_start) / PAGE as int
    }

    /// What is installed for a fault at `addr`: the page that holds it and those behind it, at their
    /// own place, from their own place in the image.
    pub open spec fn install(self, addr: int) -> FaultAction {
        let page = self.page_of(addr);
        let run = run_pages(page, self.region_pages as int, self.batch_pages as int);
        FaultAction::Install {
            page: page as usize,
            dst: (self.region_start + page * PAGE) as usize,
            offset: (page * PAGE) as usize,
            len: (run * PAGE) as usize,
        }
    }

    /// What a handler has counted once it has read a message.
    pub open spec fn noted(stats: HandlerStats, msg: uffd_msg) -> HandlerStats {
        if msg.event != UFFD_EVENT_PAGEFAULT {
            stats
        } else {
            HandlerStats {
                faults: (stats.faults + 1) as u64,
                write_faults: if msg.pagefault_flags & UFFD_PAGEFAULT_FLAG_WRITE != 0 {
                    (stats.write_faults + 1) as u64
                } else {
                    stats.write_faults
                },
                ..stats
            }
        }
    }

    /// Decide about a message: count it, and say what to install.
    pub fn on_message(&self, stats: &mut HandlerStats, msg: &uffd_msg) -> (r: FaultAction)
        requires
            self.wf(),
            msg.event == UFFD_EVENT_PAGEFAULT ==> self.region_start <= msg.pagefault_address
                < self.region_start + self.region_pages * PAGE,
            old(stats).faults < u64::MAX,
            old(stats).write_faults < u64::MAX,
        ensures
            if msg.event != UFFD_EVENT_PAGEFAULT {
                r == (FaultAction::Ignore { event: msg.event }) && *final(stats) == *old(stats)
            } else {
                &&& r == self.install(msg.pagefault_address as int)
                &&& *final(stats) == HandlerStats {
                    faults: (old(stats).faults + 1) as u64,
                    write_faults: if msg.pagefault_flags & UFFD_PAGEFAULT_FLAG_WRITE != 0 {
                        (old(stats).write_faults + 1) as u64
                    } else {
                        old(stats).write_faults
                    },
                    ..*old(stats)
                }
            },
            *final(stats) == Self::noted(*old(stats), *msg),
    {
        if msg.event != UFFD_EVENT_PAGEFAULT {
            return FaultAction::Ignore { event: msg.event };
        }
        stats.faults += 1;
        if msg.pagefault_flags & UFFD_PAGEFAULT_FLAG_WRITE != 0 {
            stats.write_faults += 1;
        }
        let ghost a = msg.pagefault_address as int;
        // The kernel reports the address rounded down to a page boundary. Rounding it again is free
        // insurance: an unaligned destination would be refused, and the faulting thread would hang.
        let addr: usize = msg.pagefault_address as usize / PAGE * PAGE;
        proof {
            lemma_same_page(self.region_start as int, self.region_pages as int, a);
        }
        let page: usize = (addr - self.region_start) / PAGE;
        let left: usize = self.region_pages - page;
        let run: usize = if self.batch_pages <= left {
            self.batch_pages
        } else {
            left
        };
        FaultAction::Install { page, dst: addr, offset: page * PAGE, len: run * PAGE }
    }

    /// Count what an install came to, or stop the handler with the error number.
    pub fn on_installed(stats: &mut HandlerStats, outcome: Result<u64, i32>) -> (r: Result<(), i32>)
        requires
            outcome matches Ok(n) ==> old(stats).pages_installed + n / PAGE as u64 <= u64::MAX,
        ensures
            match outcome {
                Ok(n) => r == Ok::<(), i32>(()) && *final(stats) == (HandlerStats {
                    pages_installed: (old(stats).pages_installed + n / PAGE as u64) as u64,
                    ..*old(stats)
                }),
                Err(e) => r == Err::<(), i32>(e) && *final(stats) == *old(stats),
            },
    {
        match outcome {
            Ok(n) => {
                stats.pages_installed += n / PAGE as u64;
                Ok(())
            },
            Err(e) => Err(e),
        }
    }
}

/// Rounding an address of a region that starts at a page down to a page keeps it in the region, at
/// its own page.
proof fn lemma_same_page(start: int, pages: int, a: int)
    requires
        0 <= start,
        start % PAGE as int == 0,
        start <= a < start + pages * PAGE,
    ensures
        start <= a / PAGE as int * PAGE,
        (a / PAGE as int * PAGE - start) / PAGE as int == (a - start) / PAGE as int,
        a / PAGE as int * PAGE == start + (a - start) / PAGE as int * PAGE,
        0 <= (a - start) / PAGE as int,
        (a - start) / PAGE as int <= pages - 1,
{
}

/// Every page restores its own content. For a fault at any address of the region, what is installed
/// is whole pages, starts with the page of the fault, stays inside the region and inside an image
/// of the same size, and puts every byte of the image at its own place in the region.
pub proof fn law_pages_restore_their_own_content(
    h: Handler,
    addr: int,
    image: Seq<u8>,
    region: Seq<u8>,
)
    requires
        h.wf(),
        h.batch_pages > 0,
        h.region_start <= addr < h.region_start + h.region_pages * PAGE,
        image.len() == h.region_pages * PAGE,
        region.len() == image.len(),
    ensures
        ({
            let page = h.page_of(addr);
            h.install(addr) matches FaultAction::Install { page: p, dst, offset, len } && {
                let after = put(
                    region,
                    dst - h.region_start,
                    image.subrange(offset as int, offset + len),
                );
                &&& p == page
                &&& dst as int % PAGE as int == 0
                &&& len as int % PAGE as int == 0
                &&& len >= PAGE
                &&& dst <= addr < dst + PAGE
                &&& dst == h.region_start + offset
                &&& offset + len <= image.len()
                &&& forall|i: int|
                    0 <= i < image.len() ==> #[trigger] after[i] == if offset <= i < offset + len {
                        image[i]
                    } else {
                        region[i]
                    }
            }
        }),
{
    lemma_same_page(h.region_start as int, h.region_pages as int, addr);
    let page = h.page_of(addr);
    let run = run_pages(page, h.region_pages as int, h.batch_pages as int);
    assert(page + run <= h.region_pages);
    assert(1 <= run);
}

/// A fault installs a batch. For a fault at any address of the region, wherever in a batch its page
/// stands, what is installed begins with that page, is never more than a batch and never goes past
/// the end of the region, and is less than a batch only where it goes up to that end.
pub proof fn law_fault_installs_a_batch(h: Handler, addr: int)
    requires
        h.wf(),
        h.region_start <= addr < h.region_start + h.region_pages * PAGE,
    ensures
        h.install(addr) matches FaultAction::Install { page, dst, offset, len } && {
            &&& page < h.region_pages
            &&& h.region_start + page * PAGE <= addr < h.region_start + (page + 1) * PAGE
            &&& dst == h.region_start + page * PAGE
            &&& offset == page * PAGE
            &&& len <= h.batch_pages * PAGE
            &&& page * PAGE + len <= h.region_pages * PAGE
            &&& len == h.batch_pages * PAGE || page * PAGE + len == h.region_pages * PAGE
        },
{
    lemma_same_page(h.region_start as int, h.region_pages as int, addr);
    let page = h.page_of(addr);
    let run = run_pages(page, h.region_pages as int, h.batch_pages as int);
    assert(run <= h.batch_pages && page + run <= h.region_pages);
}

/// Every page fault is counted, once, and once more if it is of a write, which the lowest bit of its
/// flags says; nothing else is counted, and no page is before it is installed.
pub proof fn law_faults_are_counted(stats: HandlerStats, msg: uffd_msg)
    requires
        stats.faults < u64::MAX,
        stats.write_faults < u64::MAX,
    ensures
        ({
            let after = Handler::noted(stats, msg);
            let fault = msg.event == 0x12;
            let write = fault && msg.pagefault_flags % 2 == 1;
            &&& after.faults == stats.faults + if fault {
                1int
            } else {
                0
            }
            &&& after.write_faults == stats.write_faults + if write {
                1int
            } else {
                0
            }
            &&& after.pages_installed == stats.pages_installed
        }),
{
    let f = msg.pagefault_flags;
    assert((f & 1 != 0) == (f % 2 == 1)) by (bit_vector);
}

/// The flags of a userfaultfd: it is closed when another program is executed, reads of it wait unless
/// asked not to, and it is restricted to faults of user mode only if asked to be.
pub proof fn law_creation_flags(non_blocking: bool, restricted: bool)
    ensures
        creation_flags(non_blocking, restricted) / 0x8_0000 == 1,
        creation_flags(non_blocking, restricted) % 0x8_0000 == match (non_blocking, restricted) {
            (false, false) => 0int,
            (false, true) => 1,
            (true, false) => 0x800,
            (true, true) => 0x801,
        },
{
}

/// Demand paging in the abstract: which pages of a region are there, and how many faults that took.
#[verifier::ext_equal]
pub struct Pager {
    pub pages: int,
    pub batch: int,
    pub installed: Set<int>,
    pub faults: nat,
}

impl Pager {
    /// A newly registered region: nothing is there.
    pub open spec fn fresh(pages: int, batch: int) -> Pager {
        Pager { pages, batch, installed: Set::empty(), faults: 0 }
    }

    /// Every page is dropped, and will fault again.
    pub open spec fn reset(self) -> Pager {
        Pager { installed: Set::empty(), ..self }
    }

    /// Touching a page that is there is an ordinary access. Touching one that is not faults once,
    /// and the handler installs a run from it on.
    pub open spec fn touch(self, page: int) -> Pager {
        if self.installed.contains(page) {
            self
        } else {
            let run = run_pages(page, self.pages, self.batch);
            Pager {
                installed: self.installed.union(
                    Set::new(|p: int| page <= p < page + run),
                ),
                faults: self.faults + 1,
                ..self
            }
        }
    }

    /// The pages touched one after the other.
    pub open spec fn touch_all(self, order: Seq<int>) -> Pager
        decreases order.len(),
    {
        if order.len() == 0 {
            self
        } else {
            self.touch_all(order.drop_last()).touch(order.last())
        }
    }

    /// The first `n` pages touched in order.
    pub open spec fn walk(self, n: nat) -> Pager
        decreases n,
    {
        if n == 0 {
            self
        } else {
            self.walk((n - 1) as nat).touch(n - 1)
        }
    }
}

/// Touching a page that is missing takes one fault and brings in that page and those behind it, a
/// batch of them as far as the region goes; it takes none away. Touching one that is there does
/// nothing, and neither does a reset but take all away.
pub proof fn law_touch_brings_in_a_batch(p: Pager, page: int, i: int)
    requires
        0 <= page < p.pages,
        p.batch > 0,
    ensures
        ({
            let q = p.touch(page);
            &&& q.pages == p.pages && q.batch == p.batch
            &&& p.installed.contains(page) ==> q == p
            &&& !p.installed.contains(page) ==> {
                &&& q.faults == p.faults + 1
                &&& q.installed.contains(i) <==> p.installed.contains(i) || (page <= i < p.pages
                    && i < page + p.batch)
            }
        }),
        p.reset().pages == p.pages && p.reset().batch == p.batch && p.reset().faults == p.faults,
        !p.reset().installed.contains(i),
        !Pager::fresh(p.pages, p.batch).installed.contains(i),
        Pager::fresh(p.pages, p.batch).faults == 0,
{
}

/// A page faults once no matter how often it is touched: once it is installed it is ordinary memory.
pub proof fn law_page_faults_once(p: Pager, page: int, order: Seq<int>)
    requires
        0 <= page < p.pages,
        p.batch > 0,
        forall|i: int| 0 <= i < order.len() ==> 0 <= #[trigger] order[i] < p.pages,
    ensures
        p.touch(page).installed.contains(page),
        p.touch(page).faults <= p.faults + 1,
        p.touch(page).touch_all(order).touch(page) == p.touch(page).touch_all(order),
{
    lemma_touches_keep(p.touch(page), order);
}

/// Touching pages takes none away.
proof fn lemma_touches_keep(p: Pager, order: Seq<int>)
    ensures
        p.installed.subset_of(p.touch_all(order).installed),
        p.touch_all(order).pages == p.pages,
        p.touch_all(order).batch == p.batch,
    decreases order.len(),
{
    if order.len() > 0 {
        lemma_touches_keep(p, order.drop_last());
    }
}

/// The number of batches that `n` pages come to.
pub open spec fn batches(n: int, batch: int) -> int {
    (n + batch - 1) / batch
}

/// As few batches as will do: with one fewer, some page would be left over.
pub proof fn law_batches_are_as_few_as_will_do(n: int, batch: int)
    requires
        0 <= n,
        0 < batch,
    ensures
        n <= batches(n, batch) * batch,
        batches(n, batch) * batch < n + batch,
{
    vstd::arithmetic::div_mod::lemma_fundamental_div_mod(n + batch - 1, batch);
    vstd::arithmetic::div_mod::lemma_mod_bound(n + batch - 1, batch);
    assert(batches(n, batch) * batch == batch * batches(n, batch)) by (nonlinear_arith);
}

/// Batching reduces the fault count exactly: a forward walk over the whole of a fresh region takes
/// one fault per batch, and afterwards every page is there.
pub proof fn law_sequential_walk_faults(pages: int, batch: int)
    requires
        0 <= pages,
        0 < batch,
    ensures
        Pager::fresh(pages, batch).walk(pages as nat).faults == batches(pages, batch),
        forall|p: int|
            0 <= p < pages ==> #[trigger] Pager::fresh(pages, batch).walk(
                pages as nat,
            ).installed.contains(p),
{
    lemma_walk_so_far(Pager::fresh(pages, batch), pages as nat);
}

/// A reset re-arms the faults: whatever was there before, a walk over the whole region takes as many
/// faults again as one over a fresh region does.
pub proof fn law_reset_re_arms(p: Pager)
    requires
        0 <= p.pages,
        0 < p.batch,
    ensures
        p.reset().walk(p.pages as nat).faults == p.faults + batches(p.pages, p.batch),
        forall|i: int|
            0 <= i < p.pages ==> #[trigger] p.reset().walk(p.pages as nat).installed.contains(i),
{
    lemma_walk_so_far(p.reset(), p.pages as nat);
}

/// What the handler installs for a fault is what touching a missing page comes to.
pub proof fn law_install_is_a_touch(h: Handler, p: Pager, addr: int)
    requires
        h.wf(),
        h.region_start <= addr < h.region_start + h.region_pages * PAGE,
        p.pages == h.region_pages,
        p.batch == h.batch_pages,
        !p.installed.contains(h.page_of(addr)),
    ensures
        p.touch(h.page_of(addr)).faults == p.faults + 1,
        h.install(addr) matches FaultAction::Install { page, dst, offset, len } && page
            == h.page_of(addr) && (forall|i: int| #[trigger]
            p.touch(page as int).installed.contains(i) <==> p.installed.contains(i) || offset <= i
                * PAGE < offset + len),
{
    lemma_same_page(h.region_start as int, h.region_pages as int, addr);
    let page = h.page_of(addr);
    let run = run_pages(page, h.region_pages as int, h.batch_pages as int);
    assert(0 <= run && page + run <= h.region_pages);
    assert(run * PAGE >= 0);
}

/// After the first `n` pages of a walk over a region of which nothing was there, the batches that
/// they begin are there, as far as the region goes.
proof fn lemma_walk_so_far(start: Pager, n: nat)
    requires
        n <= start.pages,
        0 < start.batch,
        start.installed =~= Set::empty(),
    ensures
        ({
            let pages = start.pages;
            let batch = start.batch;
            let p = start.walk(n);
            let k = batches(n as int, batch);
            &&& p.pages == pages && p.batch == batch
            &&& p.faults == start.faults + k
            &&& n <= k * batch
            &&& k * batch < n + batch
            &&& forall|i: int|
                #[trigger] p.installed.contains(i) <==> 0 <= i < pages && i < k * batch
        }),
    decreases n,
{
    let batch = start.batch;
    let k = batches(n as int, batch);
    vstd::arithmetic::div_mod::lemma_fundamental_div_mod(n + batch - 1, batch);
    vstd::arithmetic::div_mod::lemma_mod_bound(n + batch - 1, batch);
    assert(k * batch == batch * k) by (nonlinear_arith);
    if n == 0 {
        assert(k == 0) by {
            vstd::arithmetic::div_mod::lemma_basic_div(batch - 1, batch);
        }
        assert(k * batch == 0) by (nonlinear_arith)
            requires
                k == 0,
        ;
    } else {
        let m = (n - 1) as nat;
        lemma_walk_so_far(start, m);
        let j = batches(m as int, batch);
        if m < j * batch {
            // The page is there already.
            assert(k == j) by (nonlinear_arith)
                requires
                    batch > 0,
                    m < j * batch,
                    j * batch < m + batch,
                    n == m + 1,
                    n <= k * batch,
                    k * batch < n + batch,
            ;
        } else {
            // The page begins the next batch.
            assert(j * batch == m);
            assert(k == j + 1) by (nonlinear_arith)
                requires
                    batch > 0,
                    j * batch == m,
                    n == m + 1,
                    n <= k * batch,
                    k * batch < n + batch,
            ;
            assert((j + 1) * batch == j * batch + batch) by (nonlinear_arith);
        }
    }
}

/// Without prefaulting, whatever the order of the touches and however often they repeat, each page
/// that is touched faults exactly once.
pub proof fn law_distinct_pages_fault_once(pages: int, order: Seq<int>)
    requires
        forall|i: int| 0 <= i < order.len() ==> 0 <= #[trigger] order[i] < pages,
    ensures
        Pager::fresh(pages, 1).touch_all(order).faults == order.to_set().len(),
        Pager::fresh(pages, 1).touch_all(order).installed == order.to_set(),
    decreases order.len(),
{
    if order.len() == 0 {
        assert(order.to_set() =~= Set::<int>::empty());
    } else {
        let some = order.drop_last();
        let last = order.last();
        law_distinct_pages_fault_once(pages, some);
        lemma_touches_keep(Pager::fresh(pages, 1), some);
        lemma_to_set_push(some, last);
        assert(some.push(last) =~= order);
        let p = Pager::fresh(pages, 1).touch_all(some);

        if p.installed.contains(last) {
            assert(some.to_set().insert(last) =~= some.to_set());
        } else {
            assert(0 <= order[order.len() - 1] < pages);
            assert(p.touch(last).installed =~= some.to_set().insert(last));
        }
    }
}

proof fn lemma_to_set_push<A>(s: Seq<A>, a: A)
    ensures
        s.push(a).to_set() == s.to_set().insert(a),
        s.to_set().finite(),
{
    assert forall|x: A| s.push(a).to_set().contains(x) <==> s.to_set().insert(a).contains(x) by {
        if s.contains(x) {
            let i = choose|i: int| 0 <= i < s.len() && s[i] == x;
            assert(s.push(a)[i] == x);
        }
        if x == a {
            assert(s.push(a)[s.len() as int] == x);
        }
    }
    assert(s.push(a).to_set() =~= s.to_set().insert(a));
    vstd::seq_lib::seq_to_set_is_finite(s);
}

/// How many different pages were touched.
pub fn distinct(order: &Vec<usize>) -> (r: usize)
    ensures
        r == order@.to_set().len(),
{
    let mut count: usize = 0;
    let mut i: usize = 0;
    assert(order@.take(0).to_set() =~= Set::<usize>::empty());
    while i < order.len()
        invariant
            i <= order@.len(),
            count <= i,
            count == order@.take(i as int).to_set().len(),
        decreases order@.len() - i,
    {
        let mut seen: bool = false;
        let mut j: usize = 0;
        while j < i
            invariant
                j <= i < order@.len(),
                seen == exists|k: int| 0 <= k < j && order@[k] == order@[i as int],
            decreases i - j,
        {
            if order[j] == order[i] {
                seen = true;
            }
            j += 1;
        }
        proof {
            let some = order@.take(i as int);
            lemma_to_set_push(some, order@[i as int]);
            assert(some.push(order@[i as int]) =~= order@.take(i + 1));
            if seen {
                let k = choose|k: int| 0 <= k < i && order@[k] == order@[i as int];
                assert(some[k] == order@[i as int]);
                assert(some.to_set().insert(order@[i as int]) =~= some.to_set());
            } else {
                assert(!some.contains(order@[i as int]));
            }
        }
        if !seen {
            count += 1;
        }
        i += 1;
    }
    assert(order@.take(i as int) =~= order@);
    count
}

/// The image of a demo of `pages` pages.
pub open spec fn demo_image(pages: int) -> Seq<u8> {
    Seq::new((pages * PAGE) as nat, |i: int| (i / PAGE as int % 256) as u8)
}

/// Every byte of page N of the image is N, counted round at 256.
pub proof fn law_image_tells_its_pages_apart(pages: int, page: int, i: int)
    requires
        0 <= page < pages,
        0 <= i < 4096,
    ensures
        demo_image(pages).len() == pages * 4096,
        demo_image(pages)[page * 4096 + i] == page % 256,
{
    assert(0 <= page * 4096 + i < pages * 4096);
    assert((page * 4096 + i) / 4096 == page);
}

/// The image of a demo: page N filled with byte N. Recognisable, so a wrong page is obvious rather
/// than merely wrong.
pub fn snapshot_image(pages: usize) -> (r: Vec<u8>)
    requires
        pages * PAGE <= usize::MAX,
    ensures
        r@ == Seq::new((pages * PAGE) as nat, |i: int| (i / PAGE as int % 256) as u8),
        r@ == demo_image(pages as int),
{
    let total: usize = pages * PAGE;
    let mut image: Vec<u8> = Vec::new();
    let mut i: usize = 0;
    while i < total
        invariant
            i <= total,
            image@ =~= Seq::new(i as nat, |k: int| (k / PAGE as int % 256) as u8),
        decreases total - i,
    {
        image.push((i / PAGE % 256) as u8);
        i += 1;
    }
    image
}

/// Check a demo's fault count: one for each distinct page that was touched. On a mismatch, what was
/// expected.
pub fn check_faults(order: &Vec<usize>, faults: u64) -> (r: Result<usize, usize>)
    ensures
        r == if faults == order@.to_set().len() {
            Ok::<usize, usize>(order@.to_set().len() as usize)
        } else {
            Err::<usize, usize>(order@.to_set().len() as usize)
        },
{
    let expected: usize = distinct(order);
    if faults != expected as u64 {
        return Err(expected);
    }
    Ok(expected)
}

} // verus!
