//! The errors of the queue in words.

use crate::text::{decimal, hexadecimal, push_decimal, push_hexadecimal};
use crate::virtq::chain::ChainError;
use crate::virtq::device::RejectReason;
use crate::virtq::driver::DriverError;
use crate::virtq::mem::{GuestAddr, MemError};
use vstd::prelude::*;
use vstd::string::StringExecFns;

verus! {

impl GuestAddr {
    /// The address in hexadecimal.
    pub fn describe(&self) -> (r: String)
        ensures
            r@ == hexadecimal(self.0 as nat),
    {
        let mut s = String::new();
        push_hexadecimal(&mut s, self.0);
        assert(s@ =~= hexadecimal(self.0 as nat));
        s
    }
}

impl MemError {
    pub open spec fn words(self) -> Seq<char> {
        match self {
            MemError::OutOfBounds { addr, len, region_len } => "access of "@ + decimal(len as nat)
                + " bytes at "@ + hexadecimal(addr as nat) + " is outside the "@ + hexadecimal(
                region_len as nat,
            ) + "-byte region"@,
        }
    }

    pub fn describe(&self) -> (r: String)
        ensures
            r@ == self.words(),
    {
        match self {
            MemError::OutOfBounds { addr, len, region_len } => {
                let mut s = String::from_str("access of ");
                push_decimal(&mut s, *len);
                s.append(" bytes at ");
                push_hexadecimal(&mut s, *addr);
                s.append(" is outside the ");
                push_hexadecimal(&mut s, *region_len);
                s.append("-byte region");
                s
            },
        }
    }
}

impl ChainError {
    pub open spec fn words(self) -> Seq<char> {
        match self {
            ChainError::IndexOutOfRange { index, queue_size } => "descriptor index "@ + decimal(
                index as nat,
            ) + " is outside a table of "@ + decimal(queue_size as nat),
            ChainError::TooLong { limit } => "chain longer than "@ + decimal(limit as nat)
                + " descriptors: it contains a cycle"@,
            ChainError::TooManyBytes => "chain describes more than 2^32 bytes"@,
            ChainError::BadBuffer(e) => "descriptor buffer is not in the region: "@ + e.words(),
            ChainError::Indirect => "indirect descriptors are not implemented"@,
            ChainError::ReadableAfterWritable =>
                "device-readable descriptor after a device-writable one"@,
            ChainError::Mem(e) => "reading the descriptor table failed: "@ + e.words(),
        }
    }

    pub fn describe(&self) -> (r: String)
        ensures
            r@ == self.words(),
    {
        match self {
            ChainError::IndexOutOfRange { index, queue_size } => {
                let mut s = String::from_str("descriptor index ");
                push_decimal(&mut s, *index as u64);
                s.append(" is outside a table of ");
                push_decimal(&mut s, *queue_size as u64);
                s
            },
            ChainError::TooLong { limit } => {
                let mut s = String::from_str("chain longer than ");
                push_decimal(&mut s, *limit as u64);
                s.append(" descriptors: it contains a cycle");
                s
            },
            ChainError::TooManyBytes => String::from_str("chain describes more than 2^32 bytes"),
            ChainError::BadBuffer(e) => {
                let mut s = String::from_str("descriptor buffer is not in the region: ");
                s.append(e.describe().as_str());
                s
            },
            ChainError::Indirect => String::from_str("indirect descriptors are not implemented"),
            ChainError::ReadableAfterWritable => String::from_str(
                "device-readable descriptor after a device-writable one",
            ),
            ChainError::Mem(e) => {
                let mut s = String::from_str("reading the descriptor table failed: ");
                s.append(e.describe().as_str());
                s
            },
        }
    }
}

impl RejectReason {
    pub open spec fn words(self) -> Seq<char> {
        match self {
            RejectReason::Chain(e) => e.words(),
            RejectReason::Buffer(e) => "buffer rejected: "@ + e.words(),
        }
    }

    pub fn describe(&self) -> (r: String)
        ensures
            r@ == self.words(),
    {
        match self {
            RejectReason::Chain(e) => e.describe(),
            RejectReason::Buffer(e) => {
                let mut s = String::from_str("buffer rejected: ");
                s.append(e.describe().as_str());
                s
            },
        }
    }
}

impl DriverError {
    pub open spec fn words(self) -> Seq<char> {
        match self {
            DriverError::OutOfDescriptors =>
                "no free descriptors: the queue is full until the device completes something"@,
            DriverError::Mem(e) => e.words(),
        }
    }

    pub fn describe(&self) -> (r: String)
        ensures
            r@ == self.words(),
    {
        match self {
            DriverError::OutOfDescriptors => String::from_str(
                "no free descriptors: the queue is full until the device completes something",
            ),
            DriverError::Mem(e) => e.describe(),
        }
    }
}


/// An error is described with the numbers it carries, and with the error that it came of.
pub proof fn law_queue_errors_are_described(
    e: MemError,
    c: ChainError,
    index: u16,
    queue_size: u16,
    addr: u64,
    len: u64,
    region_len: u64,
)
    ensures
        (MemError::OutOfBounds { addr, len, region_len }).words() == "access of "@ + decimal(
            len as nat,
        ) + " bytes at "@ + hexadecimal(addr as nat) + " is outside the "@ + hexadecimal(
            region_len as nat,
        ) + "-byte region"@,
        (ChainError::IndexOutOfRange { index, queue_size }).words() == "descriptor index "@
            + decimal(index as nat) + " is outside a table of "@ + decimal(queue_size as nat),
        (ChainError::TooLong { limit: queue_size }).words() == "chain longer than "@ + decimal(
            queue_size as nat,
        ) + " descriptors: it contains a cycle"@,
        ChainError::TooManyBytes.words() == "chain describes more than 2^32 bytes"@,
        ChainError::BadBuffer(e).words() == "descriptor buffer is not in the region: "@ + e.words(),
        ChainError::Indirect.words() == "indirect descriptors are not implemented"@,
        ChainError::ReadableAfterWritable.words()
            == "device-readable descriptor after a device-writable one"@,
        ChainError::Mem(e).words() == "reading the descriptor table failed: "@ + e.words(),
        RejectReason::Chain(c).words() == c.words(),
        RejectReason::Buffer(e).words() == "buffer rejected: "@ + e.words(),
        DriverError::OutOfDescriptors.words()
            == "no free descriptors: the queue is full until the device completes something"@,
        DriverError::Mem(e).words() == e.words(),
{
}

} // verus!
