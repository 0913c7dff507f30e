//! The shared memory both sides of a virtqueue live in.
//!
//! In a real system this is guest RAM: the driver inside the guest writes to it with ordinary
//! stores and the device outside the guest reads it through a host pointer into the same physical
//! pages. Here it is a vector of bytes indexed by guest physical address.
//!
//! Addresses inside a virtqueue come from the driver, which is the thing being isolated. Every read
//! and write below is therefore checked against the region, with arithmetic that cannot wrap an
//! out-of-range access back into range.
//!
//! The mathematical model of a region is the sequence of its bytes. Integers on the wire are
//! little-endian whatever the host is.

use crate::le::{
    decode_u16, decode_u32, decode_u64, encode_u16, encode_u32, law_fields_byte_by_byte, le_bound,
    le_bytes, le_value, lemma_le_bytes_len, lemma_le_round_trip,
};
use std::sync::atomic::Ordering;
use vstd::prelude::*;

verus! {

/// A guest physical address. A newtype rather than a bare `u64`, so that a guest-supplied value
/// cannot be passed where a host offset is expected without saying so.
#[derive(Debug, Clone, Copy, PartialEq, Eq, PartialOrd, Ord, Structural)]
pub struct GuestAddr(pub u64);

impl GuestAddr {
    /// Checked addition: `None` exactly where the sum does not fit in 64 bits.
    pub fn checked_add(self, n: u64) -> (r: Option<GuestAddr>)
        ensures
            r is Some <==> self.0 + n <= u64::MAX,
            r matches Some(sum) ==> sum.0 == self.0 + n,
    {
        match self.0.checked_add(n) {
            Some(sum) => Some(GuestAddr(sum)),
            None => None,
        }
    }
}

#[derive(Debug, Clone, Copy, PartialEq, Eq, Structural)]
pub enum MemError {
    /// The access ran off the end of the region, or `addr + len` overflowed.
    OutOfBounds { addr: u64, len: u64, region_len: u64 },
}

/// The `n` bytes at `addr` lie inside a region of `region_len` bytes.
pub open spec fn fits(region_len: nat, addr: int, n: nat) -> bool {
    0 <= addr && addr + n <= region_len
}

/// The error that an access of `n` bytes at `addr` outside the region `m` comes back with.
pub open spec fn out_of_bounds(m: Seq<u8>, addr: int, n: nat) -> MemError {
    MemError::OutOfBounds { addr: addr as u64, len: n as u64, region_len: m.len() as u64 }
}

/// The bytes at `addr`, where they lie inside the region.
pub open spec fn bytes_at(m: Seq<u8>, addr: int, n: nat) -> Result<Seq<u8>, MemError> {
    if fits(m.len(), addr, n) {
        Ok(m.subrange(addr, addr + n))
    } else {
        Err(out_of_bounds(m, addr, n))
    }
}

/// The little-endian 16-bit field at `addr`.
pub open spec fn u16_at(m: Seq<u8>, addr: int) -> Result<u16, MemError> {
    match bytes_at(m, addr, 2) {
        Ok(b) => Ok(le_value(b) as u16),
        Err(e) => Err(e),
    }
}

/// The little-endian 32-bit field at `addr`.
pub open spec fn u32_at(m: Seq<u8>, addr: int) -> Result<u32, MemError> {
    match bytes_at(m, addr, 4) {
        Ok(b) => Ok(le_value(b) as u32),
        Err(e) => Err(e),
    }
}

/// The little-endian 64-bit field at `addr`.
pub open spec fn u64_at(m: Seq<u8>, addr: int) -> Result<u64, MemError> {
    match bytes_at(m, addr, 8) {
        Ok(b) => Ok(le_value(b) as u64),
        Err(e) => Err(e),
    }
}

/// The region with `data` in place of the bytes from `addr` on.
pub open spec fn put(m: Seq<u8>, addr: int, data: Seq<u8>) -> Seq<u8> {
    Seq::new(
        m.len(),
        |i: int|
            if addr <= i < addr + data.len() {
                data[i - addr]
            } else {
                m[i]
            },
    )
}

/// The outcome of storing `data` at `addr`: the new region, or the refusal.
pub open spec fn write_at(m: Seq<u8>, addr: int, data: Seq<u8>) -> Result<Seq<u8>, MemError> {
    if fits(m.len(), addr, data.len()) {
        Ok(put(m, addr, data))
    } else {
        Err(out_of_bounds(m, addr, data.len()))
    }
}

/// What a store of `data` at `addr` does: it goes through and leaves the region `after`, or it is
/// refused with the error of the access and changes nothing.
pub open spec fn stored(
    before: Seq<u8>,
    addr: int,
    data: Seq<u8>,
    after: Seq<u8>,
    r: Result<(), MemError>,
) -> bool {
    match write_at(before, addr, data) {
        Ok(m) => r == Ok::<(), MemError>(()) && after == m,
        Err(e) => r == Err::<(), MemError>(e) && after == before,
    }
}

/// The bytes of `m` and `k` agree on the `n` positions from `addr` on.
pub open spec fn agree(m: Seq<u8>, k: Seq<u8>, addr: int, n: nat) -> bool {
    &&& m.len() == k.len()
    &&& forall|i: int| addr <= i < addr + n && 0 <= i < m.len() ==> m[i] == k[i]
}

/// Two byte ranges have no position in common.
pub open spec fn apart(a: int, a_len: nat, b: int, b_len: nat) -> bool {
    a + a_len <= b || b + b_len <= a
}

/// A read gives back what was just written there.
pub proof fn lemma_read_back(m: Seq<u8>, addr: int, data: Seq<u8>)
    requires
        fits(m.len(), addr, data.len()),
    ensures
        write_at(m, addr, data) == Ok::<Seq<u8>, MemError>(put(m, addr, data)),
        bytes_at(put(m, addr, data), addr, data.len()) == Ok::<Seq<u8>, MemError>(data),
{
    assert(put(m, addr, data).subrange(addr, addr + data.len()) =~= data);
}

/// A write leaves every range apart from it as it was.
pub proof fn lemma_write_frame(m: Seq<u8>, addr: int, data: Seq<u8>, other: int, n: nat)
    requires
        apart(addr, data.len(), other, n),
    ensures
        agree(m, put(m, addr, data), other, n),
        bytes_at(put(m, addr, data), other, n) == bytes_at(m, other, n),
{
    if fits(m.len(), other, n) {
        assert(put(m, addr, data).subrange(other, other + n) =~= m.subrange(other, other + n));
    }
}

/// Regions that agree on a range read the same there.
pub proof fn lemma_agree_reads(m: Seq<u8>, k: Seq<u8>, addr: int, n: nat)
    requires
        agree(m, k, addr, n),
    ensures
        bytes_at(m, addr, n) == bytes_at(k, addr, n),
{
    if fits(m.len(), addr, n) {
        assert(m.subrange(addr, addr + n) =~= k.subrange(addr, addr + n));
    }
}

/// A field written little-endian reads back as the number that was written.
pub proof fn lemma_field_read_back(m: Seq<u8>, addr: int, v: nat, n: nat)
    requires
        fits(m.len(), addr, n),
        v < le_bound(n),
    ensures
        write_at(m, addr, le_bytes(v, n)) == Ok::<Seq<u8>, MemError>(put(m, addr, le_bytes(v, n))),
        bytes_at(put(m, addr, le_bytes(v, n)), addr, n) matches Ok(b) && le_value(b) == v,
{
    lemma_le_bytes_len(v, n);
    lemma_read_back(m, addr, le_bytes(v, n));
    lemma_le_round_trip(v, n);
}

/// `std::sync::atomic::fence` with an ordering other than `Relaxed`, on which it panics. The fence
/// orders memory accesses between threads; it returns nothing and changes no value that one thread
/// can see, so nothing is claimed of it.
pub assume_specification[ std::sync::atomic::fence ](order: Ordering)
    requires
        order != Ordering::Relaxed,
;

/// Nothing after this is ordered before a load that came before it.
fn acquire() {
    std::sync::atomic::fence(Ordering::Acquire);
}

/// Nothing before this is ordered after a store that comes after it.
fn release() {
    std::sync::atomic::fence(Ordering::Release);
}

/// No store before this is ordered after a load that comes after it.
pub(crate) fn full_barrier() {
    std::sync::atomic::fence(Ordering::SeqCst);
}

/// A flat region of memory shared by the driver and the device.
pub struct SharedMem {
    buf: Vec<u8>,
}

impl View for SharedMem {
    type V = Seq<u8>;

    closed spec fn view(&self) -> Seq<u8> {
        self.buf@
    }
}

impl SharedMem {
    /// A region of `len` zero bytes.
    pub fn new(len: usize) -> (r: Self)
        ensures
            r@ == Seq::new(len as nat, |i: int| 0u8),
    {
        SharedMem { buf: vec![0; len] }
    }

    pub fn len(&self) -> (r: u64)
        ensures
            r == self@.len(),
    {
        self.buf.len() as u64
    }

    pub fn is_empty(&self) -> (r: bool)
        ensures
            r <==> self@.len() == 0,
    {
        self.buf.len() == 0
    }

    /// The one bounds check every accessor funnels through.
    fn range(&self, addr: GuestAddr, len: u64) -> (r: Result<(usize, usize), MemError>)
        ensures
            r matches Ok((start, end)) ==> fits(self@.len(), addr.0 as int, len as nat) && start
                == addr.0 && end == addr.0 + len,
            r matches Err(e) ==> !fits(self@.len(), addr.0 as int, len as nat) && e
                == out_of_bounds(self@, addr.0 as int, len as nat),
    {
        let region_len: usize = self.buf.len();
        match addr.checked_add(len) {
            Some(end) if end.0 <= region_len as u64 => Ok((addr.0 as usize, end.0 as usize)),
            _ => Err(MemError::OutOfBounds { addr: addr.0, len, region_len: region_len as u64 }),
        }
    }

    /// The `len` bytes at `addr`.
    pub fn read_slice(&self, addr: GuestAddr, len: u64) -> (r: Result<&[u8], MemError>)
        ensures
            match r {
                Ok(s) => bytes_at(self@, addr.0 as int, len as nat) == Ok::<Seq<u8>, MemError>(s@),
                Err(e) => bytes_at(self@, addr.0 as int, len as nat) == Err::<Seq<u8>, MemError>(e),
            },
    {
        match self.range(addr, len) {
            Ok((start, end)) => Ok(&self.buf[start..end]),
            Err(e) => Err(e),
        }
    }

    /// Store `data` at `addr`, or change nothing.
    pub fn write_slice(&mut self, addr: GuestAddr, data: &[u8]) -> (r: Result<(), MemError>)
        ensures
            stored(old(self)@, addr.0 as int, data@, final(self)@, r),
    {
        let (start, end) = match self.range(addr, data.len() as u64) {
            Ok(r) => r,
            Err(e) => {
                return Err(e);
            },
        };
        let mut i: usize = 0;
        while i < data.len()
            invariant
                i <= data@.len(),
                start == addr.0,
                end == addr.0 + data@.len(),
                fits(old(self)@.len(), addr.0 as int, data@.len()),
                self@ == put(old(self)@, addr.0 as int, data@.take(i as int)),
            decreases data@.len() - i,
        {
            let k: usize = start + i;
            self.buf[k] = data[i];
            i += 1;
            assert(self@ =~= put(old(self)@, addr.0 as int, data@.take(i as int)));
        }
        assert(data@.take(i as int) =~= data@);
        Ok(())
    }

    pub fn read_u16(&self, addr: GuestAddr) -> (r: Result<u16, MemError>)
        ensures
            r == u16_at(self@, addr.0 as int),
    {
        match self.read_slice(addr, 2) {
            Ok(b) => Ok(decode_u16(b)),
            Err(e) => Err(e),
        }
    }

    pub fn read_u32(&self, addr: GuestAddr) -> (r: Result<u32, MemError>)
        ensures
            r == u32_at(self@, addr.0 as int),
    {
        match self.read_slice(addr, 4) {
            Ok(b) => Ok(decode_u32(b)),
            Err(e) => Err(e),
        }
    }

    pub fn read_u64(&self, addr: GuestAddr) -> (r: Result<u64, MemError>)
        ensures
            r == u64_at(self@, addr.0 as int),
    {
        match self.read_slice(addr, 8) {
            Ok(b) => Ok(decode_u64(b)),
            Err(e) => Err(e),
        }
    }

    pub fn write_u16(&mut self, addr: GuestAddr, v: u16) -> (r: Result<(), MemError>)
        ensures
            stored(old(self)@, addr.0 as int, le_bytes(v as nat, 2), final(self)@, r),
    {
        self.write_slice(addr, &encode_u16(v))
    }

    pub fn write_u32(&mut self, addr: GuestAddr, v: u32) -> (r: Result<(), MemError>)
        ensures
            stored(old(self)@, addr.0 as int, le_bytes(v as nat, 4), final(self)@, r),
    {
        self.write_slice(addr, &encode_u32(v))
    }

    // What a plain access does not give is ordering. The places that need it:
    //
    //   Driver, publishing a chain:      write descriptors  ->  RELEASE  ->  bump avail.idx
    //   Device, consuming a chain:       read avail.idx     ->  ACQUIRE  ->  read descriptors
    //
    //   Device, completing a chain:      write used elem    ->  RELEASE  ->  bump used.idx
    //   Driver, collecting a completion: read used.idx      ->  ACQUIRE  ->  read used elem

    /// Read an index field with the ordering a consumer needs: the `Acquire` fence after the read
    /// makes every store the producer made before publishing the index visible here.
    pub fn load_idx_acquire(&self, addr: GuestAddr) -> (r: Result<u16, MemError>)
        ensures
            r == u16_at(self@, addr.0 as int),
    {
        match self.read_u16(addr) {
            Ok(v) => {
                acquire();
                Ok(v)
            },
            Err(e) => Err(e),
        }
    }

    /// Write an index field with the ordering a producer needs: the `Release` fence before the
    /// write makes what the index advertises visible before the index is.
    pub fn store_idx_release(&mut self, addr: GuestAddr, v: u16) -> (r: Result<(), MemError>)
        ensures
            stored(old(self)@, addr.0 as int, le_bytes(v as nat, 2), final(self)@, r),
    {
        release();
        self.write_u16(addr, v)
    }

    /// Read a field with no ordering requirement: the notification hints, which are advisory. A
    /// stale one costs at most one unnecessary notification.
    pub fn load_relaxed(&self, addr: GuestAddr) -> (r: Result<u16, MemError>)
        ensures
            r == u16_at(self@, addr.0 as int),
    {
        self.read_u16(addr)
    }
}


/// A read is refused exactly where it would leave the region, with the access and the size of the
/// region as its reason; any other gives the bytes that stand there.
pub proof fn law_reads_stay_inside(m: Seq<u8>, addr: u64, n: nat)
    requires
        n <= u64::MAX,
        m.len() <= u64::MAX,
    ensures
        match bytes_at(m, addr as int, n) {
            Ok(b) => addr + n <= m.len() && b.len() == n && forall|i: int|
                0 <= i < n ==> #[trigger] b[i] == m[addr + i],
            Err(MemError::OutOfBounds { addr: a, len, region_len }) => addr + n > m.len() && a
                == addr && len == n && region_len == m.len(),
        },
{
}

/// A write is refused exactly where it would leave the region, and changes nothing then; any other
/// puts its bytes where it was told to and changes no other.
pub proof fn law_writes_stay_inside(
    m: Seq<u8>,
    addr: u64,
    data: Seq<u8>,
    after: Seq<u8>,
    r: Result<(), MemError>,
)
    requires
        data.len() <= u64::MAX,
        m.len() <= u64::MAX,
        stored(m, addr as int, data, after, r),
    ensures
        after.len() == m.len(),
        match r {
            Ok(_) => addr + data.len() <= m.len() && forall|i: int|
                0 <= i < m.len() ==> #[trigger] after[i] == if addr <= i < addr + data.len() {
                    data[i - addr]
                } else {
                    m[i]
                },
            Err(MemError::OutOfBounds { addr: a, len, region_len }) => addr + data.len() > m.len()
                && a == addr && len == data.len() && region_len == m.len() && after == m,
        },
{
}

/// The fields of the region are little-endian, whatever the host is.
pub proof fn law_fields_are_little_endian(m: Seq<u8>, a: int)
    requires
        0 <= a,
    ensures
        a + 2 <= m.len() ==> u16_at(m, a) == Ok::<u16, MemError>(
            (m[a] + 0x100 * m[a + 1]) as u16,
        ),
        a + 4 <= m.len() ==> u32_at(m, a) == Ok::<u32, MemError>(
            (m[a] + 0x100 * m[a + 1] + 0x1_0000 * m[a + 2] + 0x100_0000 * m[a + 3]) as u32,
        ),
        a + 8 <= m.len() ==> u64_at(m, a) == Ok::<u64, MemError>(
            (m[a] + 0x100 * m[a + 1] + 0x1_0000 * m[a + 2] + 0x100_0000 * m[a + 3] + 0x1_0000_0000
                * m[a + 4] + 0x100_0000_0000 * m[a + 5] + 0x1_0000_0000_0000 * m[a + 6]
                + 0x100_0000_0000_0000 * m[a + 7]) as u64,
        ),
        a + 2 > m.len() ==> u16_at(m, a) is Err,
        a + 4 > m.len() ==> u32_at(m, a) is Err,
        a + 8 > m.len() ==> u64_at(m, a) is Err,
{
    if a + 2 <= m.len() {
        law_fields_byte_by_byte(m.subrange(a, a + 2));
    }
    if a + 4 <= m.len() {
        law_fields_byte_by_byte(m.subrange(a, a + 4));
    }
    if a + 8 <= m.len() {
        law_fields_byte_by_byte(m.subrange(a, a + 8));
    }
}

} // verus!
