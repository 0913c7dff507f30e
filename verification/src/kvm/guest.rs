//! The guest programs, hand-assembled: 16-bit real-mode x86 machine code, placed at an agreed guest
//! physical address with the instruction pointer aimed at it.
//!
//! Real-mode addresses are normally `segment << 4 + offset`. This VMM sets every segment's hidden
//! base to 0, so that an offset in the code is a guest physical address directly. Every address a
//! program touches fits inside a real-mode segment, whose limit is 64 KiB: that is why guest RAM is
//! 32 KiB and the toy device sits at 0x8000.

use crate::kvm::device::Devices;
use crate::kvm::vmm::{
    kind_of, law_exits_are_counted_once, lemma_resumed_run_adds_up, EntryKind, Flow, Machine,
    RunError, RunSummary,
};
use vstd::prelude::*;

verus! {

/// Guest physical address the programs are loaded at, and the initial `rip`. Not zero, because
/// guest physical page 0 is where the real-mode interrupt vector table lives.
pub const LOAD_ADDR: u64 = 0x1000;

/// The demo program.
///
/// ```text
///  offset  bytes            instruction          exit produced
///  ------  ---------------  -------------------  ---------------------------------
///  0x00    BA F8 03         mov dx, 0x3f8        -
///  0x03    B0 4B            mov al, 'K'          -
///  0x05    EE               out dx, al           KVM_EXIT_IO   (out, port 0x3f8)
///  0x06    B0 56            mov al, 'V'          -
///  0x08    EE               out dx, al           KVM_EXIT_IO
///  0x09    B0 4D            mov al, 'M'          -
///  0x0B    EE               out dx, al           KVM_EXIT_IO
///  0x0C    B0 0A            mov al, 0x0a         -
///  0x0E    EE               out dx, al           KVM_EXIT_IO
///  0x0F    B0 42            mov al, 0x42         -
///  0x11    A2 00 80         mov [0x8000], al     KVM_EXIT_MMIO (write, 1 byte)
///  0x14    A0 00 80         mov al, [0x8000]     KVM_EXIT_MMIO (read,  1 byte)
///  0x17    EE               out dx, al           KVM_EXIT_IO
///  0x18    B0 0A            mov al, 0x0a         -
///  0x1A    EE               out dx, al           KVM_EXIT_IO
///  0x1B    F4               hlt                  KVM_EXIT_HLT
/// ```
///
/// The store followed by a load of the same address makes the round trip through the device
/// visible: `0x42` is ASCII `B`, and it only appears in the output because the VMM's read handler
/// returned the byte that its write handler latched.
pub const DEMO_PROGRAM: [u8; 28] = [
    0xBA,
    0xF8,
    0x03,
    0xB0,
    0x4B,
    0xEE,
    0xB0,
    0x56,
    0xEE,
    0xB0,
    0x4D,
    0xEE,
    0xB0,
    0x0A,
    0xEE,
    0xB0,
    0x42,
    0xA2,
    0x00,
    0x80,
    0xA0,
    0x00,
    0x80,
    0xEE,
    0xB0,
    0x0A,
    0xEE,
    0xF4,
];

/// What the demo program prints if every exit was handled correctly: `KVM`, a newline, `B` and a
/// newline.
pub const DEMO_EXPECTED_OUTPUT: [u8; 6] = [0x4B, 0x56, 0x4D, 0x0A, 0x42, 0x0A];

/// Offset within the benchmark program of the 16-bit iteration count.
pub const BENCH_COUNT_OFFSET: usize = 4;

/// Port the benchmark exits through: the BIOS POST diagnostic port. Writes to it are meaningless to
/// any real device, so that the measurement is of the exit round trip and not of the handler.
pub const BENCH_PORT: u16 = 0x0080;

/// The exit-cost program: `count` iterations of a single `out`, then halt.
///
/// ```text
///  offset  bytes             instruction        note
///  ------  ----------------  -----------------  ---------------------------------------------
///  0x00    BA 80 00          mov dx, 0x80       diagnostic port; the VMM discards writes
///  0x03    B9 <lo> <hi>      mov cx, count      patched by `bench_program`
///  0x06    EE                out dx, al         one VM exit per iteration
///  0x07    E2 FD             loop 0x06          dec cx; jump if cx != 0  (displacement -3)
///  0x09    F4                hlt                KVM_EXIT_HLT, once, at the end
/// ```
pub const BENCH_TEMPLATE: [u8; 10] = [0xBA, 0x80, 0x00, 0xB9, 0x00, 0x00, 0xEE, 0xE2, 0xFD, 0xF4];

/// Maximum exits obtainable from one entry into the benchmark program.
pub const BENCH_MAX_PER_ROUND: u32 = 65535;

/// The benchmark program of `count` iterations.
pub open spec fn patched(count: u32) -> Seq<u8> {
    BENCH_TEMPLATE@.update(BENCH_COUNT_OFFSET as int, (count % 256) as u8).update(
        BENCH_COUNT_OFFSET + 1,
        (count / 256) as u8,
    )
}

/// The program loads the count that was asked for, and is the template in every other byte.
pub proof fn law_count_is_patched(count: u32)
    requires
        1 <= count <= 65535,
    ensures
        patched(count).len() == 10,
        patched(count)[4] + 256 * patched(count)[5] == count,
        forall|i: int|
            0 <= i < 10 && i != 4 && i != 5 ==> #[trigger] patched(count)[i] == BENCH_TEMPLATE@[i],
{
}

/// Build the benchmark program with the iteration count patched in, little-endian.
///
/// The count is at least 1: `loop` decrements first, so a count of 0 would wrap and run the maximum
/// number of iterations.
pub fn bench_program(count: u32) -> (prog: Vec<u8>)
    requires
        1 <= count <= BENCH_MAX_PER_ROUND,
    ensures
        prog@ == BENCH_TEMPLATE@.update(BENCH_COUNT_OFFSET as int, (count % 256) as u8).update(
            BENCH_COUNT_OFFSET + 1,
            (count / 256) as u8,
        ),
        prog@ == patched(count),
{
    let mut prog: Vec<u8> = Vec::new();
    let template = BENCH_TEMPLATE;
    let mut i: usize = 0;
    while i < 10
        invariant
            i <= 10,
            template == BENCH_TEMPLATE,
            prog@ == template@.take(i as int),
        decreases 10 - i,
    {
        prog.push(template[i]);
        i += 1;
        assert(prog@ =~= template@.take(i as int));
    }
    assert(template@.take(10) =~= template@);
    prog[BENCH_COUNT_OFFSET] = (count % 256) as u8;
    prog[BENCH_COUNT_OFFSET + 1] = (count / 256) as u8;
    prog
}

/// How many exits each round of a benchmark of `samples` asks for: full rounds, then what is left.
pub open spec fn round_plan(samples: nat) -> Seq<u32>
    decreases samples,
{
    if samples == 0 {
        Seq::empty()
    } else if samples <= BENCH_MAX_PER_ROUND {
        seq![samples as u32]
    } else {
        seq![BENCH_MAX_PER_ROUND] + round_plan((samples - BENCH_MAX_PER_ROUND) as nat)
    }
}

/// Split `samples` exits into rounds. One entry into the guest tops out at 65,535 exits, because
/// the guest's loop counter has 16 bits; more are collected by resetting the vCPU and re-entering.
pub fn rounds(samples: u32) -> (r: Vec<u32>)
    ensures
        r@ == round_plan(samples as nat),
{
    let mut out: Vec<u32> = Vec::new();
    let mut remaining: u32 = samples;
    while remaining > 0
        invariant
            round_plan(samples as nat) == out@ + round_plan(remaining as nat),
        decreases remaining,
    {
        let chunk: u32 = if remaining <= BENCH_MAX_PER_ROUND {
            remaining
        } else {
            BENCH_MAX_PER_ROUND
        };
        proof {
            let rest = round_plan((remaining - chunk) as nat);
            assert(round_plan(remaining as nat) =~= seq![chunk] + rest);
            assert(out@ + (seq![chunk] + rest) =~= out@.push(chunk) + rest);
        }
        out.push(chunk);
        remaining -= chunk;
    }
    assert(out@ + round_plan(0) =~= out@);
    out
}

/// The sum of the rounds.
pub open spec fn total_exits(rounds: Seq<u32>) -> nat
    decreases rounds.len(),
{
    if rounds.len() == 0 {
        0
    } else {
        rounds[0] as nat + total_exits(rounds.drop_first())
    }
}

/// The rounds of a plan come to the samples that were asked for, and each is a count that
/// `bench_program` takes.
pub proof fn law_rounds_add_up(samples: nat)
    ensures
        total_exits(round_plan(samples)) == samples,
        forall|i: int|
            0 <= i < round_plan(samples).len() ==> 1 <= #[trigger] round_plan(samples)[i]
                <= BENCH_MAX_PER_ROUND,
    decreases samples,
{
    reveal_with_fuel(total_exits, 2);
    if samples > BENCH_MAX_PER_ROUND {
        let rest = round_plan((samples - BENCH_MAX_PER_ROUND) as nat);
        law_rounds_add_up((samples - BENCH_MAX_PER_ROUND) as nat);
        assert(round_plan(samples).drop_first() =~= rest);
    } else if samples > 0 {
        assert(round_plan(samples).drop_first() =~= Seq::<u32>::empty());
    }
}

/// The times of the samples that are of an I/O exit, in order.
pub open spec fn io_times(samples: Seq<(u64, EntryKind)>) -> Seq<u64> {
    samples.filter(|s: (u64, EntryKind)| s.1 == EntryKind::Io).map_values(
        |s: (u64, EntryKind)| s.0,
    )
}

proof fn lemma_io_times_push(samples: Seq<(u64, EntryKind)>, sample: (u64, EntryKind))
    ensures
        io_times(samples.push(sample)) == if sample.1 == EntryKind::Io {
            io_times(samples).push(sample.0)
        } else {
            io_times(samples)
        },
{
    reveal(Seq::filter);
    assert(samples.push(sample).drop_last() =~= samples);
    assert(io_times(samples.push(sample)) =~= if sample.1 == EntryKind::Io {
        io_times(samples).push(sample.0)
    } else {
        io_times(samples)
    });
}

/// Keep the samples that measure an I/O exit. The halt takes a different exit path from the `out`
/// exits, and an interruption measures the host: leaving them in would put differently-shaped samples
/// into one distribution.
pub fn io_samples(samples: &Vec<(u64, EntryKind)>) -> (r: Vec<u64>)
    ensures
        r@ == io_times(samples@),
{
    let mut out: Vec<u64> = Vec::new();
    let mut i: usize = 0;
    proof {
        reveal(Seq::filter);
        assert(out@ =~= io_times(samples@.take(0)));
    }
    while i < samples.len()
        invariant
            i <= samples@.len(),
            out@ == io_times(samples@.take(i as int)),
        decreases samples@.len() - i,
    {
        let sample = samples[i];
        proof {
            lemma_io_times_push(samples@.take(i as int), sample);
            assert(samples@.take(i + 1) =~= samples@.take(i as int).push(sample));
        }
        if sample.1 == EntryKind::Io {
            out.push(sample.0);
        }
        i += 1;
    }
    assert(samples@.take(i as int) =~= samples@);
    out
}

/// A benchmark measures I/O exits and nothing else. Where each sample of a run is marked with what
/// came back of its entry, as many are kept as the run counted I/O exits.
pub proof fn law_kept_samples_are_the_io_exits(
    m: Machine,
    entries: Seq<(Result<(), i32>, Seq<u8>)>,
    samples: Seq<(u64, EntryKind)>,
)
    requires
        m.summary == (RunSummary { exits: 0, io_exits: 0, mmio_exits: 0, interrupted: 0 }),
        entries.len() < u64::MAX,
        entries.len() > 0 ==> m.run(entries.drop_last()).result == Ok::<Flow, RunError>(
            Flow::Resume,
        ),
        samples.len() == entries.len(),
        forall|i: int|
            0 <= i < samples.len() ==> (#[trigger] samples[i]).1 == kind_of(
                entries[i].0,
                entries[i].1,
            ),
    ensures
        io_times(samples).len() == m.run(entries).machine.summary.io_exits,
    decreases entries.len(),
{
    if entries.len() == 0 {
        reveal(Seq::filter);
    } else {
        let some = entries.drop_last();
        law_kept_samples_are_the_io_exits(m, some, samples.drop_last());
        lemma_resumed_run_adds_up(m, some);
        lemma_io_times_push(samples.drop_last(), samples.last());
        assert(samples.drop_last().push(samples.last()) =~= samples);
        let (entry, page) = entries.last();
        law_exits_are_counted_once(Machine { page, ..m.run(some).machine }, entry);
    }
}

/// What was wrong with a run of the demo program.
#[derive(Debug, Clone, Copy, PartialEq, Eq, Structural)]
pub enum DemoError {
    /// The guest did not print what it should have.
    OutputMismatch,
    /// The guest performed accesses that the device model does not describe.
    Unhandled,
}

/// Check what the devices saw of a run of the demo program: the output first, then that nothing was
/// left unhandled.
pub fn check_demo(devices: &Devices) -> (r: Result<(), DemoError>)
    ensures
        r == if devices@.serial_out != DEMO_EXPECTED_OUTPUT@ {
            Err::<(), DemoError>(DemoError::OutputMismatch)
        } else if devices@.unhandled != 0 {
            Err::<(), DemoError>(DemoError::Unhandled)
        } else {
            Ok::<(), DemoError>(())
        },
{
    if !devices.printed(&DEMO_EXPECTED_OUTPUT) {
        return Err(DemoError::OutputMismatch);
    }
    if devices.unhandled != 0 {
        return Err(DemoError::Unhandled);
    }
    Ok(())
}


/// Every round but the last is a full one, so that there are as few as will do.
pub proof fn law_rounds_are_full(samples: nat)
    ensures
        forall|i: int|
            0 <= i < round_plan(samples).len() - 1 ==> #[trigger] round_plan(samples)[i] == 65535,
        samples > 0 ==> 65535 * (round_plan(samples).len() - 1) < samples <= 65535 * round_plan(
            samples,
        ).len(),
        samples > 0 ==> round_plan(samples).last() == samples - 65535 * (round_plan(samples).len()
            - 1),
        samples == 0 ==> round_plan(samples).len() == 0,
    decreases samples,
{
    if samples > BENCH_MAX_PER_ROUND {
        let rest = round_plan((samples - BENCH_MAX_PER_ROUND) as nat);
        law_rounds_are_full((samples - BENCH_MAX_PER_ROUND) as nat);
        assert(round_plan(samples).last() == rest.last());
        assert forall|i: int| 0 <= i < round_plan(samples).len() - 1 implies #[trigger] round_plan(
            samples,
        )[i] == 65535 by {
            if i > 0 {
                assert(round_plan(samples)[i] == rest[i - 1]);
            }
        }
    }
}

/// Of samples one behind the other, those of the first are kept before those of the second; of a
/// single one, its time if it is of an I/O exit, and else nothing.
pub proof fn law_samples_are_kept_one_by_one(
    a: Seq<(u64, EntryKind)>,
    one: (u64, EntryKind),
    b: Seq<(u64, EntryKind)>,
)
    ensures
        io_times(a + b) == io_times(a) + io_times(b),
        io_times(seq![one]) == if one.1 is Io {
            seq![one.0]
        } else {
            Seq::<u64>::empty()
        },
        io_times(Seq::<(u64, EntryKind)>::empty()) == Seq::<u64>::empty(),
    decreases b.len(),
{
    let none = Seq::<(u64, EntryKind)>::empty();
    assert(io_times(none) =~= Seq::<u64>::empty()) by {
        reveal(Seq::filter);
    }
    lemma_io_times_push(none, one);
    assert(none.push(one) =~= seq![one]);
    assert(Seq::<u64>::empty().push(one.0) =~= seq![one.0]);
    if b.len() == 0 {
        assert(a + b =~= a);
        assert(b =~= none);
        assert(io_times(a) + io_times(b) =~= io_times(a));
    } else {
        let some = b.drop_last();
        law_samples_are_kept_one_by_one(a, one, some);
        lemma_io_times_push(a + some, b.last());
        lemma_io_times_push(some, b.last());
        assert((a + some).push(b.last()) =~= a + b);
        assert(some.push(b.last()) =~= b);
        assert(io_times(a + b) =~= io_times(a) + io_times(b));
    }
}

} // verus!
