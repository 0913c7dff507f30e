//! The device model: two devices, both of them one line of logic.
//!
//! Emulating a device means answering the question what should have happened when the guest touched
//! this address. The guest does not know it is being answered by a program.

use crate::kvm::guest::BENCH_PORT;
use vstd::prelude::*;

verus! {

/// Base of the toy MMIO device in guest physical space, immediately above the single RAM slot. It
/// is a device because nothing maps it: the guest's access exits because the address is not backed.
pub const MMIO_BASE: u64 = 0x0000_8000;

/// Length of the device's window. One page, of which one byte is implemented.
pub const MMIO_LEN: u64 = 0x1000;

/// COM1 data register. There is no UART here; a byte written is a byte printed.
pub const SERIAL_PORT: u16 = 0x03f8;

/// A one-register device plus a write-only serial port.
#[derive(Debug)]
pub struct Devices {
    /// Everything the guest has written to the serial port, in order.
    pub serial_out: Vec<u8>,
    /// The single implemented MMIO register: written by the guest, read back by the guest.
    pub latch: Latch,
    pub pio_writes: u64,
    pub pio_reads: u64,
    pub mmio_writes: u64,
    pub mmio_reads: u64,
    /// Accesses this model does not implement. A non-zero value at the end of a run is a finding:
    /// the guest saw a value the VMM invented.
    pub unhandled: u64,
}

/// A register of one byte, which only the devices touch.
#[derive(Debug)]
pub struct Latch {
    value: u8,
}

impl View for Latch {
    type V = u8;

    closed spec fn view(&self) -> u8 {
        self.value
    }
}

/// What the devices hold.
#[verifier::ext_equal]
pub struct DeviceModel {
    pub serial_out: Seq<u8>,
    pub latch: u8,
    pub pio_writes: nat,
    pub pio_reads: nat,
    pub mmio_writes: nat,
    pub mmio_reads: nat,
    pub unhandled: nat,
}

impl View for Devices {
    type V = DeviceModel;

    open spec fn view(&self) -> DeviceModel {
        DeviceModel {
            serial_out: self.serial_out@,
            latch: self.latch@,
            pio_writes: self.pio_writes as nat,
            pio_reads: self.pio_reads as nat,
            mmio_writes: self.mmio_writes as nat,
            mmio_reads: self.mmio_reads as nat,
            unhandled: self.unhandled as nat,
        }
    }
}

/// `n` bytes of `b`.
pub open spec fn filled(n: nat, b: u8) -> Seq<u8> {
    Seq::new(n, |i: int| b)
}

impl DeviceModel {
    /// Devices that nobody has touched.
    pub open spec fn fresh() -> DeviceModel {
        DeviceModel {
            serial_out: Seq::empty(),
            latch: 0,
            pio_writes: 0,
            pio_reads: 0,
            mmio_writes: 0,
            mmio_reads: 0,
            unhandled: 0,
        }
    }

    /// The counters can take one more access.
    pub open spec fn has_room(self) -> bool {
        &&& self.pio_writes < u64::MAX
        &&& self.pio_reads < u64::MAX
        &&& self.mmio_writes < u64::MAX
        &&& self.mmio_reads < u64::MAX
        &&& self.unhandled < u64::MAX
    }

    /// After the guest wrote `data` to `port`: the serial port keeps it, the benchmark port discards
    /// it, any other is unhandled.
    pub open spec fn port_written(self, port: u16, data: Seq<u8>) -> DeviceModel {
        let counted = DeviceModel { pio_writes: self.pio_writes + 1, ..self };
        if port == SERIAL_PORT {
            DeviceModel { serial_out: self.serial_out + data, ..counted }
        } else if port == BENCH_PORT {
            counted
        } else {
            DeviceModel { unhandled: self.unhandled + 1, ..counted }
        }
    }

    /// After the guest read a port: no port is readable.
    pub open spec fn port_read(self) -> DeviceModel {
        DeviceModel { pio_reads: self.pio_reads + 1, unhandled: self.unhandled + 1, ..self }
    }

    /// After the guest stored `data` at `addr`: the first byte of the window latches the first byte
    /// of the data, anything else is unhandled.
    pub open spec fn stored(self, addr: u64, data: Seq<u8>) -> DeviceModel {
        let counted = DeviceModel { mmio_writes: self.mmio_writes + 1, ..self };
        if addr == MMIO_BASE && data.len() > 0 {
            DeviceModel { latch: data[0], ..counted }
        } else {
            DeviceModel { unhandled: self.unhandled + 1, ..counted }
        }
    }

    /// After the guest loaded `n` bytes from `addr`.
    pub open spec fn loaded(self, addr: u64, n: nat) -> DeviceModel {
        let counted = DeviceModel { mmio_reads: self.mmio_reads + 1, ..self };
        if addr == MMIO_BASE && n > 0 {
            counted
        } else {
            DeviceModel { unhandled: self.unhandled + 1, ..counted }
        }
    }

    /// What a load of `n` bytes from `addr` returns: the latch, zero-extended, from the first byte
    /// of the window; all ones, as from an unterminated bus, from anywhere else.
    pub open spec fn load_value(self, addr: u64, n: nat) -> Seq<u8> {
        if addr == MMIO_BASE && n > 0 {
            filled(n, 0).update(0, self.latch)
        } else {
            filled(n, 0xff)
        }
    }
}

impl Default for Devices {
    fn default() -> (r: Self)
        ensures
            r@ == DeviceModel::fresh(),
    {
        let r = Devices {
            serial_out: Vec::new(),
            latch: Latch { value: 0 },
            pio_writes: 0,
            pio_reads: 0,
            mmio_writes: 0,
            mmio_reads: 0,
            unhandled: 0,
        };
        assert(r@ =~= DeviceModel::fresh());
        r
    }
}

fn fill(data: &mut [u8], b: u8)
    ensures
        final(data)@ == filled(old(data)@.len(), b),
{
    let mut i: usize = 0;
    while i < data.len()
        invariant
            i <= data@.len(),
            data@.len() == old(data)@.len(),
            forall|j: int| 0 <= j < i ==> data@[j] == b,
        decreases data@.len() - i,
    {
        data[i] = b;
        i += 1;
    }
    assert(data@ =~= filled(old(data)@.len(), b));
}

impl Devices {
    /// Guest executed `out`. `data` is what it wrote.
    pub fn pio_write(&mut self, port: u16, data: &[u8])
        requires
            old(self)@.has_room(),
        ensures
            final(self)@ == old(self)@.port_written(port, data@),
    {
        self.pio_writes += 1;
        match port {
            SERIAL_PORT => self.serial_out.extend_from_slice(data),
            // Deliberately empty: the handler must not contribute to the measurement.
            BENCH_PORT => {},
            _ => {
                self.unhandled += 1;
            },
        }
    }

    /// Guest executed `in`. No port is readable, so this is counted as unhandled, and reads all
    /// ones: an absent device on real hardware does, and drivers take that as "not present".
    pub fn pio_read(&mut self, _port: u16, data: &mut [u8])
        requires
            old(self)@.has_room(),
        ensures
            final(self)@ == old(self)@.port_read(),
            final(data)@ == filled(old(data)@.len(), 0xff),
    {
        self.pio_reads += 1;
        self.unhandled += 1;
        fill(data, 0xff);
    }

    /// Guest stored to an unbacked guest physical address of the device's window.
    pub fn mmio_write(&mut self, addr: u64, data: &[u8])
        requires
            old(self)@.has_room(),
            addr >= MMIO_BASE,
        ensures
            final(self)@ == old(self)@.stored(addr, data@),
    {
        self.mmio_writes += 1;
        if addr - MMIO_BASE == 0 && data.len() > 0 {
            self.latch.value = data[0];
        } else {
            self.unhandled += 1;
        }
    }

    /// Guest loaded from an unbacked guest physical address of the device's window. Whatever this
    /// leaves in `data` is placed into the guest's destination register when the vCPU resumes.
    pub fn mmio_read(&mut self, addr: u64, data: &mut [u8])
        requires
            old(self)@.has_room(),
            addr >= MMIO_BASE,
        ensures
            final(self)@ == old(self)@.loaded(addr, old(data)@.len()),
            final(data)@ == old(self)@.load_value(addr, old(data)@.len()),
    {
        self.mmio_reads += 1;
        if addr - MMIO_BASE == 0 && data.len() > 0 {
            fill(data, 0);
            data[0] = self.latch.value;
        } else {
            self.unhandled += 1;
            fill(data, 0xff);
        }
    }

    /// Is `text` everything that was printed?
    pub(crate) fn printed(&self, text: &[u8]) -> (r: bool)
        ensures
            r == (self@.serial_out == text@),
    {
        if self.serial_out.len() != text.len() {
            return false;
        }
        let mut i: usize = 0;
        while i < text.len()
            invariant
                i <= text@.len(),
                self.serial_out@.len() == text@.len(),
                forall|j: int| 0 <= j < i ==> self.serial_out@[j] == text@[j],
            decreases text@.len() - i,
        {
            if self.serial_out[i] != text[i] {
                assert(self.serial_out@[i as int] != text@[i as int]);
                return false;
            }
            i += 1;
        }
        assert(self.serial_out@ =~= text@);
        true
    }

    /// Is `addr` inside the toy device's window?
    pub fn owns_mmio(addr: u64) -> (r: bool)
        ensures
            r == (MMIO_BASE <= addr < MMIO_BASE + MMIO_LEN),
    {
        MMIO_BASE <= addr && addr < MMIO_BASE + MMIO_LEN
    }
}

/// The latch round-trips: a load from the first byte of the window returns the first byte that was
/// last stored there, zero-extended, whatever else the guest did to ports and to the rest of the
/// window in between, and neither access is counted as unhandled.
pub proof fn law_latch_round_trips(d: DeviceModel, data: Seq<u8>, n: nat)
    requires
        data.len() > 0,
        n > 0,
    ensures
        d.stored(MMIO_BASE, data).load_value(MMIO_BASE, n)[0] == data[0],
        forall|i: int|
            0 < i < n ==> #[trigger] d.stored(MMIO_BASE, data).load_value(MMIO_BASE, n)[i] == 0,
        d.stored(MMIO_BASE, data).unhandled == d.unhandled,
        d.loaded(MMIO_BASE, n).unhandled == d.unhandled,
        d.loaded(MMIO_BASE, n).latch == d.latch,
        forall|port: u16, out: Seq<u8>| #[trigger] d.port_written(port, out).latch == d.latch,
        d.port_read().latch == d.latch,
        forall|addr: u64, other: Seq<u8>|
            addr != MMIO_BASE ==> #[trigger] d.stored(addr, other).latch == d.latch,
{
}

/// An access that the model does not describe is counted, once, and reads all ones.
pub proof fn law_absent_devices_read_all_ones(d: DeviceModel, addr: u64, n: nat)
    requires
        addr != MMIO_BASE,
    ensures
        d.load_value(addr, n) == filled(n, 0xff),
        d.loaded(addr, n).unhandled == d.unhandled + 1,
        d.port_read().unhandled == d.unhandled + 1,
{
}

/// The devices after each of `writes` was sent to the serial port.
pub open spec fn all_printed(d: DeviceModel, writes: Seq<Seq<u8>>) -> DeviceModel
    decreases writes.len(),
{
    if writes.len() == 0 {
        d
    } else {
        all_printed(d, writes.drop_last()).port_written(SERIAL_PORT, writes.last())
    }
}

/// The serial port accumulates what is written, in order, and nothing else.
pub proof fn law_serial_accumulates(d: DeviceModel, writes: Seq<Seq<u8>>)
    ensures
        all_printed(d, writes).serial_out == d.serial_out + writes.flatten(),
        all_printed(d, writes).unhandled == d.unhandled,
        all_printed(d, writes).pio_writes == d.pio_writes + writes.len(),
    decreases writes.len(),
{
    if writes.len() == 0 {
        assert(writes.flatten() =~= Seq::<u8>::empty());
        assert(d.serial_out + writes.flatten() =~= d.serial_out);
    } else {
        law_serial_accumulates(d, writes.drop_last());
        let last = writes.last();
        writes.lemma_flatten_and_flatten_alt_are_equivalent();
        writes.drop_last().lemma_flatten_and_flatten_alt_are_equivalent();
        assert(writes.flatten() =~= writes.drop_last().flatten() + last);
        assert(all_printed(d, writes).serial_out =~= d.serial_out + writes.flatten());
    }
}


/// What a write to a port does: to the serial port, its bytes are kept behind those before; to the
/// benchmark port, nothing; to any other, it is counted as unhandled. Each is counted, and nothing
/// else changes.
pub proof fn law_port_writes(d: DeviceModel, port: u16, data: Seq<u8>)
    ensures
        ({
            let e = d.port_written(port, data);
            &&& e.pio_writes == d.pio_writes + 1
            &&& e.serial_out.len() == d.serial_out.len() + if port == 0x3f8 {
                data.len()
            } else {
                0
            }
            &&& forall|i: int|
                0 <= i < d.serial_out.len() ==> #[trigger] e.serial_out[i] == d.serial_out[i]
            &&& forall|i: int|
                d.serial_out.len() <= i < e.serial_out.len() ==> #[trigger] e.serial_out[i]
                    == data[i - d.serial_out.len()]
            &&& e.unhandled == d.unhandled + if port == 0x3f8 || port == 0x80 {
                0int
            } else {
                1
            }
            &&& e.latch == d.latch && e.pio_reads == d.pio_reads
            &&& e.mmio_writes == d.mmio_writes && e.mmio_reads == d.mmio_reads
        }),
{
}

/// A read of a port, whichever it is, is counted, as unhandled too, and changes nothing else.
pub proof fn law_port_reads(d: DeviceModel)
    ensures
        ({
            let e = d.port_read();
            &&& e.pio_reads == d.pio_reads + 1 && e.unhandled == d.unhandled + 1
            &&& e.serial_out == d.serial_out && e.latch == d.latch
            &&& e.pio_writes == d.pio_writes
            &&& e.mmio_writes == d.mmio_writes && e.mmio_reads == d.mmio_reads
        }),
{
}

/// What a store to the window does: to its first byte, it leaves the first byte of the data in the
/// latch; to any other, or without data, it is counted as unhandled. Each is counted, and nothing
/// else changes.
pub proof fn law_stores(d: DeviceModel, addr: u64, data: Seq<u8>)
    ensures
        ({
            let e = d.stored(addr, data);
            let known = addr == 0x8000 && data.len() > 0;
            &&& e.mmio_writes == d.mmio_writes + 1
            &&& e.latch == if known {
                data[0]
            } else {
                d.latch
            }
            &&& e.unhandled == d.unhandled + if known {
                0int
            } else {
                1
            }
            &&& e.serial_out == d.serial_out && e.mmio_reads == d.mmio_reads
            &&& e.pio_writes == d.pio_writes && e.pio_reads == d.pio_reads
        }),
{
}

/// What a load from the window does: from its first byte, it gives the latch and zeros behind it; from
/// any other, or of no bytes, all ones, and it is counted as unhandled. Each is counted, and nothing
/// else changes.
pub proof fn law_loads(d: DeviceModel, addr: u64, n: nat)
    ensures
        ({
            let e = d.loaded(addr, n);
            let v = d.load_value(addr, n);
            let known = addr == 0x8000 && n > 0;
            &&& v.len() == n
            &&& forall|i: int|
                0 <= i < n ==> #[trigger] v[i] == if !known {
                    0xff
                } else if i == 0 {
                    d.latch
                } else {
                    0
                }
            &&& e.mmio_reads == d.mmio_reads + 1
            &&& e.unhandled == d.unhandled + if known {
                0int
            } else {
                1
            }
            &&& e.latch == d.latch && e.serial_out == d.serial_out
            &&& e.mmio_writes == d.mmio_writes
            &&& e.pio_writes == d.pio_writes && e.pio_reads == d.pio_reads
        }),
{
}

/// Devices that nobody has touched have printed nothing, hold zero, and have counted nothing.
pub proof fn law_fresh_devices()
    ensures
        ({
            let d = DeviceModel::fresh();
            &&& d.serial_out.len() == 0 && d.latch == 0 && d.unhandled == 0
            &&& d.pio_writes == 0 && d.pio_reads == 0 && d.mmio_writes == 0 && d.mmio_reads == 0
        }),
{
}


/// The fields that a caller reads are those that the laws speak of.
pub proof fn law_devices_are_what_they_say(d: Devices)
    ensures
        d@.serial_out == d.serial_out@,
        d@.latch == d.latch@,
        d@.pio_writes == d.pio_writes,
        d@.pio_reads == d.pio_reads,
        d@.mmio_writes == d.mmio_writes,
        d@.mmio_reads == d.mmio_reads,
        d@.unhandled == d.unhandled,
{
}

} // verus!
