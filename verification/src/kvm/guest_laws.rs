//! What the guest programs do, instruction by instruction.

use crate::kvm::device::DeviceModel;
use crate::kvm::guest::{patched, BENCH_TEMPLATE, DEMO_EXPECTED_OUTPUT, DEMO_PROGRAM};
use vstd::prelude::*;

verus! {

/// As much of a real-mode CPU as the guest programs use, with the devices it exits to.
#[verifier::ext_equal]
pub struct Cpu {
    /// How far into the program it is.
    pub ip: int,
    pub al: u8,
    pub dx: u16,
    pub cx: u16,
    pub devices: DeviceModel,
    pub halted: bool,
}

/// The 16-bit operand at `at`.
pub open spec fn operand(program: Seq<u8>, at: int) -> int {
    program[at] + 0x100 * program[at + 1]
}

impl Cpu {
    /// A CPU at the start of a program.
    pub open spec fn at_start(devices: DeviceModel) -> Cpu {
        Cpu { ip: 0, al: 0, dx: 0, cx: 0, devices, halted: false }
    }

    /// One instruction: `mov dx`, `mov cx` and `mov al` of an immediate, `out dx, al`, `mov` of `al` to
    /// and from memory that no RAM backs, `loop`, and `hlt`, which any other byte is taken for too.
    pub open spec fn next(self, program: Seq<u8>) -> Cpu {
        let op = program[self.ip];
        if op == 0xBA {
            Cpu { dx: operand(program, self.ip + 1) as u16, ip: self.ip + 3, ..self }
        } else if op == 0xB9 {
            Cpu { cx: operand(program, self.ip + 1) as u16, ip: self.ip + 3, ..self }
        } else if op == 0xB0 {
            Cpu { al: program[self.ip + 1], ip: self.ip + 2, ..self }
        } else if op == 0xEE {
            Cpu {
                devices: self.devices.port_written(self.dx, seq![self.al]),
                ip: self.ip + 1,
                ..self
            }
        } else if op == 0xA2 {
            Cpu {
                devices: self.devices.stored(
                    operand(program, self.ip + 1) as u64,
                    seq![self.al],
                ),
                ip: self.ip + 3,
                ..self
            }
        } else if op == 0xA0 {
            let at = operand(program, self.ip + 1) as u64;
            Cpu {
                al: self.devices.load_value(at, 1)[0],
                devices: self.devices.loaded(at, 1),
                ip: self.ip + 3,
                ..self
            }
        } else if op == 0xE2 {
            let left = (self.cx - 1) % 0x1_0000;
            let by = program[self.ip + 1];
            Cpu {
                cx: left as u16,
                ip: if left == 0 {
                    self.ip + 2
                } else if by < 0x80 {
                    self.ip + 2 + by
                } else {
                    self.ip + 2 + by - 0x100
                },
                ..self
            }
        } else {
            Cpu { halted: true, ..self }
        }
    }

    /// The CPU after `n` instructions, or when it halted.
    pub open spec fn after(self, program: Seq<u8>, n: nat) -> Cpu
        decreases n,
    {
        if n == 0 || self.halted {
            self
        } else {
            self.next(program).after(program, (n - 1) as nat)
        }
    }
}

/// The instructions of the demo program, byte by byte.
proof fn lemma_demo_bytes()
    ensures
        DEMO_PROGRAM@ == seq![
            0xBAu8, 0xF8, 0x03, 0xB0, 0x4B, 0xEE, 0xB0, 0x56, 0xEE, 0xB0, 0x4D, 0xEE, 0xB0, 0x0A,
            0xEE, 0xB0, 0x42, 0xA2, 0x00, 0x80, 0xA0, 0x00, 0x80, 0xEE, 0xB0, 0x0A, 0xEE, 0xF4,
        ],
        DEMO_EXPECTED_OUTPUT@ == seq![0x4Bu8, 0x56, 0x4D, 0x0A, 0x42, 0x0A],
{
    assert(DEMO_PROGRAM@ =~= seq![
        0xBAu8, 0xF8, 0x03, 0xB0, 0x4B, 0xEE, 0xB0, 0x56, 0xEE, 0xB0, 0x4D, 0xEE, 0xB0, 0x0A,
        0xEE, 0xB0, 0x42, 0xA2, 0x00, 0x80, 0xA0, 0x00, 0x80, 0xEE, 0xB0, 0x0A, 0xEE, 0xF4,
    ]);
    assert(DEMO_EXPECTED_OUTPUT@ =~= seq![0x4Bu8, 0x56, 0x4D, 0x0A, 0x42, 0x0A]);
}

/// The instructions of the benchmark program, but for its count.
proof fn lemma_bench_bytes()
    ensures
        BENCH_TEMPLATE@ == seq![0xBAu8, 0x80, 0x00, 0xB9, 0x00, 0x00, 0xEE, 0xE2, 0xFD, 0xF4],
{
    assert(BENCH_TEMPLATE@ =~= seq![
        0xBAu8, 0x80, 0x00, 0xB9, 0x00, 0x00, 0xEE, 0xE2, 0xFD, 0xF4,
    ]);
}

/// One more letter to the serial port.
proof fn lemma_letter(c: Cpu, program: Seq<u8>, letter: u8)
    requires
        !c.halted,
        c.dx == 0x3f8,
        program[c.ip] == 0xB0,
        program[c.ip + 1] == letter,
        program[c.ip + 2] == 0xEE,
    ensures
        c.after(program, 2) == (Cpu {
            ip: c.ip + 3,
            al: letter,
            devices: DeviceModel {
                serial_out: c.devices.serial_out.push(letter),
                pio_writes: c.devices.pio_writes + 1,
                ..c.devices
            },
            ..c
        }),
{
    reveal_with_fuel(Cpu::after, 3);
    let a = c.next(program);
    assert(a.devices.serial_out + seq![letter] =~= a.devices.serial_out.push(letter));
}

/// Instructions one behind the other.
proof fn lemma_after_after(c: Cpu, program: Seq<u8>, n: nat, k: nat)
    ensures
        c.after(program, n).after(program, k) == c.after(program, n + k),
    decreases n,
{
    if n > 0 && !c.halted {
        lemma_after_after(c.next(program), program, (n - 1) as nat, k);
    }
}

/// The demo program prints what it should, on any devices, and halts: the four letters of its first
/// line, then, through the register of the toy device and back, the fifth, and the end of its line.
/// It accesses nothing that the devices do not describe.
pub proof fn law_demo_program_prints(d: DeviceModel)
    ensures
        ({
            let c = Cpu::at_start(d).after(DEMO_PROGRAM@, 16);
            &&& c.halted
            &&& c.devices.serial_out == d.serial_out + DEMO_EXPECTED_OUTPUT@
            &&& c.devices.unhandled == d.unhandled
            &&& c.devices.latch == 0x42
            &&& c.devices.pio_writes == d.pio_writes + 6 && c.devices.pio_reads == d.pio_reads
            &&& c.devices.mmio_writes == d.mmio_writes + 1
            &&& c.devices.mmio_reads == d.mmio_reads + 1
        }),
{
    lemma_demo_bytes();
    let p = DEMO_PROGRAM@;
    let c0 = Cpu::at_start(d);
    let c1 = c0.after(p, 1);
    assert(c1.ip == 3 && c1.dx == 0x3f8 && c1.devices == d && !c1.halted) by {
        reveal_with_fuel(Cpu::after, 2);
    }
    lemma_letter(c1, p, 0x4B);
    let c2 = c1.after(p, 2);
    lemma_letter(c2, p, 0x56);
    let c3 = c2.after(p, 2);
    lemma_letter(c3, p, 0x4D);
    let c4 = c3.after(p, 2);
    lemma_letter(c4, p, 0x0A);
    let c5 = c4.after(p, 2);
    let c6 = c5.after(p, 4);
    let e = c5.devices;
    assert(c6.ip == 24 && c6.dx == 0x3f8 && !c6.halted && c6.devices == (DeviceModel {
        serial_out: e.serial_out.push(0x42),
        latch: 0x42,
        pio_writes: e.pio_writes + 1,
        mmio_writes: e.mmio_writes + 1,
        mmio_reads: e.mmio_reads + 1,
        ..e
    })) by {
        reveal_with_fuel(Cpu::after, 5);
        let a = c5.next(p);
        let b = a.next(p);
        let c = b.next(p);
        assert(a.ip == 17 && a.al == 0x42);
        assert(b.ip == 20 && b.devices.latch == 0x42);
        assert(c.ip == 23 && c.al == 0x42);
        assert(c.devices.serial_out + seq![0x42u8] =~= e.serial_out.push(0x42));
        assert(c6 == c.next(p));
    }
    lemma_letter(c6, p, 0x0A);
    let c7 = c6.after(p, 2);
    assert(c7.after(p, 1).halted && c7.after(p, 1).devices == c7.devices) by {
        reveal_with_fuel(Cpu::after, 2);
    }
    lemma_after_after(c0, p, 1, 2);
    lemma_after_after(c0, p, 3, 2);
    lemma_after_after(c0, p, 5, 2);
    lemma_after_after(c0, p, 7, 2);
    lemma_after_after(c0, p, 9, 4);
    lemma_after_after(c0, p, 13, 2);
    lemma_after_after(c0, p, 15, 1);
    assert(c7.devices.serial_out =~= d.serial_out + DEMO_EXPECTED_OUTPUT@);
}

/// The loop of the benchmark program, with `k` iterations left.
proof fn lemma_bench_loop(c: Cpu, program: Seq<u8>, k: nat)
    requires
        !c.halted,
        c.ip == 6,
        c.dx == 0x80,
        c.cx == k,
        0 < k,
        program[6] == 0xEE,
        program[7] == 0xE2,
        program[8] == 0xFD,
    ensures
        c.after(program, 2 * k) == (Cpu {
            ip: 9,
            cx: 0,
            devices: DeviceModel { pio_writes: c.devices.pio_writes + k, ..c.devices },
            ..c
        }),
    decreases k,
{
    reveal_with_fuel(Cpu::after, 3);
    let b = c.next(program).next(program);
    assert(c.after(program, 2) == b);
    if k > 1 {
        lemma_bench_loop(b, program, (k - 1) as nat);
        lemma_after_after(c, program, 2, 2 * (k - 1) as nat);
    }
}

/// The benchmark program exits through its port exactly as often as it was asked to, for every count
/// it takes, and then halts; it accesses nothing else.
pub proof fn law_bench_program_exits_count_times(d: DeviceModel, count: u32)
    requires
        1 <= count <= 65535,
    ensures
        ({
            let c = Cpu::at_start(d).after(patched(count), (2 * count + 3) as nat);
            &&& c.halted
            &&& c.devices == (DeviceModel { pio_writes: d.pio_writes + count as nat, ..d })
        }),
{
    lemma_bench_bytes();
    let p = patched(count);
    let c0 = Cpu::at_start(d);
    let c1 = c0.after(p, 2);
    assert(c1.ip == 6 && c1.dx == 0x80 && c1.cx == count && c1.devices == d && !c1.halted) by {
        reveal_with_fuel(Cpu::after, 3);
        assert(c0.next(p).ip == 3);
    }
    lemma_bench_loop(c1, p, count as nat);
    let c2 = c1.after(p, (2 * count) as nat);
    assert(c2.after(p, 1).halted && c2.after(p, 1).devices == c2.devices) by {
        reveal_with_fuel(Cpu::after, 2);
    }
    lemma_after_after(c0, p, 2, (2 * count) as nat);
    lemma_after_after(c0, p, (2 * count + 2) as nat, 1);
}

} // verus!
