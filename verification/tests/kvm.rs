//! The virtual machine: its devices, its guests, and the exits in between.

use systems_study::kvm::device::{Devices, MMIO_BASE, MMIO_LEN, SERIAL_PORT};
use systems_study::kvm::guest::{
    bench_program, check_demo, io_samples, rounds, DemoError, BENCH_COUNT_OFFSET,
    BENCH_MAX_PER_ROUND, BENCH_PORT, BENCH_TEMPLATE, DEMO_EXPECTED_OUTPUT, DEMO_PROGRAM, LOAD_ADDR,
};
use systems_study::kvm::kvm_sys::{
    exit_reason_name, io, ioc, ior, iow, kvm_sregs, IOC_READ, IOC_WRITE, KVMIO,
    KVM_CAP_USER_MEMORY, KVM_CHECK_EXTENSION, KVM_CREATE_VCPU, KVM_CREATE_VM, KVM_EXIT_FAIL_ENTRY,
    KVM_EXIT_HLT, KVM_EXIT_INTERNAL_ERROR, KVM_EXIT_INTR, KVM_EXIT_IO, KVM_EXIT_IO_IN,
    KVM_EXIT_IO_OUT, KVM_EXIT_MMIO, KVM_EXIT_SHUTDOWN, KVM_EXIT_UNKNOWN, KVM_GET_API_VERSION,
    KVM_GET_REGS, KVM_GET_SREGS, KVM_GET_VCPU_MMAP_SIZE, KVM_RUN, KVM_RUN_UNION_OFFSET,
    KVM_SET_REGS, KVM_SET_SREGS, KVM_SET_TSS_ADDR, KVM_SET_USER_MEMORY_REGION,
};
use systems_study::kvm::vmm::{
    entry_kind, entry_regs, flatten_segments, header, io_payload, io_record, load, mmio_record,
    service_entry, service_exit, valid_mem_size, BringUpError, EntryKind, Flow, GuestExit,
    LoadError, RunError, RunSummary, Step, EINTR, EXPECTED_API_VERSION, TSS_ADDR,
};

const GUEST_RAM: usize = 32 * 1024;

/// Where the kernel puts the payload of a port access.
const PAYLOAD: usize = 1024;

fn blank_page() -> Vec<u8> {
    vec![0u8; 4096]
}

fn set_reason(page: &mut [u8], reason: u32) {
    page[8..12].copy_from_slice(&reason.to_le_bytes());
}

/// A port access of `data.len()` one-byte items.
fn port_exit(direction: u8, port: u16, data: &[u8]) -> Vec<u8> {
    let mut page = blank_page();
    set_reason(&mut page, KVM_EXIT_IO);
    page[32] = direction;
    page[33] = 1;
    page[34..36].copy_from_slice(&port.to_le_bytes());
    page[36..40].copy_from_slice(&(data.len() as u32).to_le_bytes());
    page[40..48].copy_from_slice(&(PAYLOAD as u64).to_le_bytes());
    page[PAYLOAD..PAYLOAD + data.len()].copy_from_slice(data);
    page
}

fn memory_exit(addr: u64, data: [u8; 8], len: u32, is_write: u8) -> Vec<u8> {
    let mut page = blank_page();
    set_reason(&mut page, KVM_EXIT_MMIO);
    page[32..40].copy_from_slice(&addr.to_le_bytes());
    page[40..48].copy_from_slice(&data);
    page[48..52].copy_from_slice(&len.to_le_bytes());
    page[52] = is_write;
    page
}

fn other_exit(reason: u32) -> Vec<u8> {
    let mut page = blank_page();
    set_reason(&mut page, reason);
    page
}

#[test]
fn latch_round_trips() {
    let mut d = Devices::default();
    d.mmio_write(MMIO_BASE, &[0x42]);
    let mut buf = [0u8; 1];
    d.mmio_read(MMIO_BASE, &mut buf);
    assert_eq!(buf[0], 0x42);
    assert_eq!(d.unhandled, 0);
}

#[test]
fn unimplemented_mmio_offset_reads_all_ones_and_is_counted() {
    let mut d = Devices::default();
    let mut buf = [0u8; 1];
    d.mmio_read(MMIO_BASE + 8, &mut buf);
    assert_eq!(buf[0], 0xff);
    assert_eq!(d.unhandled, 1);
}

#[test]
fn serial_accumulates_in_order() {
    let mut d = Devices::default();
    d.pio_write(SERIAL_PORT, b"KV");
    d.pio_write(SERIAL_PORT, b"M");
    assert_eq!(d.serial_out, b"KVM");
}

#[test]
fn bench_count_is_patched_little_endian() {
    let p = bench_program(0x1234);
    assert_eq!(&p[BENCH_COUNT_OFFSET..BENCH_COUNT_OFFSET + 2], &[0x34, 0x12]);
}

#[test]
fn demo_program_ends_in_hlt() {
    assert_eq!(*DEMO_PROGRAM.last().unwrap(), 0xF4);
}

#[test]
fn loading_past_the_end_of_guest_ram_is_refused() {
    let mut ram = vec![0u8; GUEST_RAM];
    assert!(load(&mut ram, GUEST_RAM as u64 - 2, &[0u8; 16]).is_err());
}

#[test]
fn a_refused_load_says_what_it_was_and_changes_nothing() {
    let mut ram = vec![7u8; 4096];
    let e = load(&mut ram, 4094, &[1, 2, 3]).unwrap_err();
    assert_eq!(e, LoadError { len: 3, gpa: 4094, mem_size: 4096 });
    assert_eq!(e.describe(), "load of 3 bytes at 0xffe exceeds 4096 bytes of guest RAM");
    assert_eq!(ram, vec![7u8; 4096]);
    let e = load(&mut ram, u64::MAX, &[1, 2]).unwrap_err();
    assert_eq!(e, LoadError { len: 2, gpa: u64::MAX, mem_size: 4096 });
    assert!(load(&mut ram, u64::MAX, &[]).is_err());
    assert_eq!(load(&mut ram, 4097, &[]), Err(LoadError { len: 0, gpa: 4097, mem_size: 4096 }));
    assert_eq!(load(&mut ram, 4096, &[]), Ok(()));
    assert_eq!(ram, vec![7u8; 4096]);
}

#[test]
fn a_load_that_just_fits_is_copied() {
    let mut ram = vec![7u8; 4096];
    assert!(load(&mut ram, 4093, &[1, 2, 3]).is_ok());
    assert_eq!(&ram[4092..], &[7, 1, 2, 3]);
    assert!(load(&mut ram, LOAD_ADDR - 4096, &DEMO_PROGRAM).is_ok());
    assert_eq!(&ram[..28], &DEMO_PROGRAM);
    assert_eq!(ram[28], 7);
}

#[test]
fn ports_count_their_accesses() {
    let mut d = Devices::default();
    d.pio_write(BENCH_PORT, &[1, 2]);
    assert_eq!(d.pio_writes, 1);
    assert!(d.serial_out.is_empty());
    assert_eq!(d.unhandled, 0);
    d.pio_write(0x1234, &[1]);
    assert_eq!(d.unhandled, 1);
    let mut buf = [0u8; 3];
    d.pio_read(0x60, &mut buf);
    assert_eq!(buf, [0xff; 3]);
    assert_eq!((d.pio_writes, d.pio_reads), (2, 1));
}

#[test]
fn the_device_window_has_two_ends() {
    assert!(!Devices::owns_mmio(MMIO_BASE - 1));
    assert!(Devices::owns_mmio(MMIO_BASE));
    assert!(Devices::owns_mmio(MMIO_BASE + MMIO_LEN - 1));
    assert!(!Devices::owns_mmio(MMIO_BASE + MMIO_LEN));
}

#[test]
fn the_demo_guest_prints_what_it_read_back() {
    let mut devices = Devices::default();
    let mut summary = RunSummary::default();
    for c in b"KVM\n" {
        let mut page = port_exit(KVM_EXIT_IO_OUT, SERIAL_PORT, &[*c]);
        let before = page.clone();
        let flow = service_entry(&mut summary, &mut devices, Ok(()), &mut page);
        assert_eq!(flow, Ok(Flow::Resume));
        assert_eq!(page, before);
    }
    let mut store = memory_exit(MMIO_BASE, [0x42, 0, 0, 0, 0, 0, 0, 0], 1, 1);
    assert_eq!(service_entry(&mut summary, &mut devices, Ok(()), &mut store), Ok(Flow::Resume));
    let mut read = memory_exit(MMIO_BASE, [9; 8], 1, 0);
    assert_eq!(service_entry(&mut summary, &mut devices, Ok(()), &mut read), Ok(Flow::Resume));
    assert_eq!(&read[40..48], &[0x42, 0, 0, 0, 0, 0, 0, 0]);
    for c in [read[40], b'\n'] {
        let mut page = port_exit(KVM_EXIT_IO_OUT, SERIAL_PORT, &[c]);
        assert_eq!(service_entry(&mut summary, &mut devices, Ok(()), &mut page), Ok(Flow::Resume));
    }
    let mut halt = other_exit(KVM_EXIT_HLT);
    assert_eq!(service_entry(&mut summary, &mut devices, Ok(()), &mut halt), Ok(Flow::Halted));

    assert_eq!(devices.serial_out, DEMO_EXPECTED_OUTPUT);
    assert_eq!(devices.serial_out, b"KVM\nB\n");
    assert_eq!(
        summary,
        RunSummary { exits: 9, io_exits: 6, mmio_exits: 2, interrupted: 0 }
    );
    assert_eq!(check_demo(&devices), Ok(()));
}

#[test]
fn a_run_that_prints_something_else_is_refused() {
    let mut devices = Devices::default();
    assert_eq!(check_demo(&devices), Err(DemoError::OutputMismatch));
    devices.pio_write(SERIAL_PORT, b"KVM\nB\n");
    assert_eq!(check_demo(&devices), Ok(()));
    devices.pio_write(0x77, b"x");
    assert_eq!(check_demo(&devices), Err(DemoError::Unhandled));
    devices.pio_write(SERIAL_PORT, b"!");
    assert_eq!(check_demo(&devices), Err(DemoError::OutputMismatch));
}

#[test]
fn a_port_read_is_answered_in_the_shared_page() {
    let mut devices = Devices::default();
    let mut summary = RunSummary::default();
    let mut page = port_exit(KVM_EXIT_IO_IN, 0x60, &[1, 2, 3]);
    let mut expected = page.clone();
    expected[PAYLOAD..PAYLOAD + 3].copy_from_slice(&[0xff; 3]);
    assert_eq!(service_entry(&mut summary, &mut devices, Ok(()), &mut page), Ok(Flow::Resume));
    assert_eq!(page, expected);
    assert_eq!(devices.pio_reads, 1);
}

#[test]
fn a_payload_outside_the_page_is_refused() {
    let mut devices = Devices::default();
    let mut summary = RunSummary::default();
    let mut page = port_exit(KVM_EXIT_IO_OUT, SERIAL_PORT, b"x");
    page[40..48].copy_from_slice(&4096u64.to_le_bytes());
    let e = service_entry(&mut summary, &mut devices, Ok(()), &mut page).unwrap_err();
    assert_eq!(e, RunError::PayloadOutOfBounds);
    assert_eq!(e.describe().unwrap(), "kvm_run io payload out of bounds");
    assert_eq!(summary.io_exits, 1);
    assert!(devices.serial_out.is_empty());

    let mut huge = port_exit(KVM_EXIT_IO_OUT, SERIAL_PORT, b"x");
    huge[40..48].copy_from_slice(&u64::MAX.to_le_bytes());
    assert_eq!(io_payload(&io_record(&huge), 4096), Err(RunError::PayloadOutOfBounds));
    let last = port_exit(KVM_EXIT_IO_OUT, SERIAL_PORT, b"xyz");
    assert_eq!(io_payload(&io_record(&last), PAYLOAD + 3), Ok((PAYLOAD, PAYLOAD + 3)));
    assert_eq!(io_payload(&io_record(&last), PAYLOAD + 2), Err(RunError::PayloadOutOfBounds));
}

#[test]
fn a_direction_that_is_neither_is_refused() {
    let mut devices = Devices::default();
    let mut summary = RunSummary::default();
    let mut page = port_exit(7, SERIAL_PORT, b"x");
    let e = service_entry(&mut summary, &mut devices, Ok(()), &mut page).unwrap_err();
    assert_eq!(e, RunError::BadDirection(7));
    assert_eq!(e.describe().unwrap(), "bad io direction 7");
}

#[test]
fn an_address_that_no_device_answers_for_is_refused() {
    let mut devices = Devices::default();
    let mut summary = RunSummary::default();
    let mut page = memory_exit(0x9000, [0; 8], 4, 1);
    let e = service_entry(&mut summary, &mut devices, Ok(()), &mut page).unwrap_err();
    assert_eq!(e, RunError::Unmapped(0x9000));
    assert_eq!(
        e.describe().unwrap(),
        "guest touched unmapped, undeviced guest physical address 0x9000"
    );
    assert_eq!(summary.mmio_exits, 1);
}

#[test]
fn a_memory_access_is_cut_to_the_eight_bytes_of_its_record() {
    let mut devices = Devices::default();
    let mut summary = RunSummary::default();
    let mut page = memory_exit(MMIO_BASE + 8, [5; 8], 200, 0);
    assert_eq!(service_entry(&mut summary, &mut devices, Ok(()), &mut page), Ok(Flow::Resume));
    assert_eq!(&page[40..48], &[0xff; 8]);
    assert_eq!(devices.unhandled, 1);
}

#[test]
fn interruptions_are_counted_and_resumed() {
    let mut devices = Devices::default();
    let mut summary = RunSummary::default();
    let mut page = blank_page();
    let flow = service_entry(&mut summary, &mut devices, Err(EINTR), &mut page);
    assert_eq!(flow, Ok(Flow::Resume));
    assert_eq!(summary, RunSummary { exits: 0, io_exits: 0, mmio_exits: 0, interrupted: 1 });
    let mut page = other_exit(KVM_EXIT_INTR);
    let flow = service_entry(&mut summary, &mut devices, Ok(()), &mut page);
    assert_eq!(flow, Ok(Flow::Resume));
    assert_eq!(summary, RunSummary { exits: 1, io_exits: 0, mmio_exits: 0, interrupted: 2 });
}

#[test]
fn a_failed_entry_ends_the_run() {
    let mut devices = Devices::default();
    let mut summary = RunSummary::default();
    let mut page = blank_page();
    let e = service_entry(&mut summary, &mut devices, Err(14), &mut page).unwrap_err();
    assert_eq!(e, RunError::Entry(14));
    assert_eq!(e.describe(), None);
    assert_eq!(summary, RunSummary::default());
}

#[test]
fn an_exit_that_is_not_handled_ends_the_run() {
    let mut devices = Devices::default();
    let mut summary = RunSummary::default();
    let mut page = other_exit(KVM_EXIT_SHUTDOWN);
    let e = service_entry(&mut summary, &mut devices, Ok(()), &mut page).unwrap_err();
    assert_eq!(e, RunError::Unhandled(8));
    assert_eq!(e.describe().unwrap(), "unhandled KVM_EXIT_SHUTDOWN (8)");
    let e = RunError::Unhandled(99);
    assert_eq!(e.describe().unwrap(), "unhandled unhandled exit reason (99)");
    assert_eq!(summary.exits, 1);
}

#[test]
fn the_records_of_the_shared_page_are_little_endian() {
    let mut page = blank_page();
    for (i, b) in page.iter_mut().enumerate() {
        *b = i as u8;
    }
    let h = header(&page);
    assert_eq!(h.exit_reason, 0x0b0a_0908);
    assert_eq!(h.cr8, u64::from_le_bytes([16, 17, 18, 19, 20, 21, 22, 23]));
    let io = io_record(&page);
    assert_eq!((io.direction, io.size, io.port), (32, 33, 0x2322));
    assert_eq!(io.count, 0x2726_2524);
    assert_eq!(io.data_offset, u64::from_le_bytes([40, 41, 42, 43, 44, 45, 46, 47]));
    let mmio = mmio_record(&page);
    assert_eq!(mmio.phys_addr, u64::from_le_bytes([32, 33, 34, 35, 36, 37, 38, 39]));
    assert_eq!(mmio.data, [40, 41, 42, 43, 44, 45, 46, 47]);
    assert_eq!((mmio.len, mmio.is_write), (0x3332_3130, 52));
}

#[test]
fn the_bench_program_is_the_template_with_a_count() {
    let mut expected = BENCH_TEMPLATE.to_vec();
    expected[4] = 0xff;
    expected[5] = 0xff;
    assert_eq!(bench_program(BENCH_MAX_PER_ROUND), expected);
    assert_eq!(bench_program(1)[4..6], [1, 0]);
}

#[test]
fn rounds_come_to_the_samples_asked_for() {
    assert_eq!(rounds(0), Vec::<u32>::new());
    assert_eq!(rounds(1000), vec![1000]);
    assert_eq!(rounds(65535), vec![65535]);
    assert_eq!(rounds(200_000), vec![65535, 65535, 65535, 3395]);
}

#[test]
fn only_the_samples_of_io_exits_are_kept() {
    let samples = vec![
        (10, EntryKind::Io),
        (9000, EntryKind::Interrupted),
        (20, EntryKind::Io),
        (50, EntryKind::Mmio),
        (7, EntryKind::Other),
        (20, EntryKind::Io),
        (30, EntryKind::Halt),
    ];
    assert_eq!(io_samples(&samples), vec![10, 20, 20]);
    assert!(io_samples(&vec![(30, EntryKind::Halt)]).is_empty());
    assert!(io_samples(&vec![]).is_empty());
}

#[test]
fn entries_are_told_apart() {
    let port = port_exit(KVM_EXIT_IO_OUT, BENCH_PORT, b"x");
    assert_eq!(entry_kind(Ok(()), &port), EntryKind::Io);
    assert_eq!(entry_kind(Err(EINTR), &port), EntryKind::Interrupted);
    assert_eq!(entry_kind(Err(14), &port), EntryKind::Other);
    assert_eq!(entry_kind(Ok(()), &memory_exit(MMIO_BASE, [0; 8], 1, 0)), EntryKind::Mmio);
    assert_eq!(entry_kind(Ok(()), &other_exit(KVM_EXIT_HLT)), EntryKind::Halt);
    assert_eq!(entry_kind(Ok(()), &other_exit(KVM_EXIT_INTR)), EntryKind::Interrupted);
    assert_eq!(entry_kind(Ok(()), &other_exit(KVM_EXIT_SHUTDOWN)), EntryKind::Other);
}

#[test]
fn as_many_samples_are_kept_as_there_were_io_exits() {
    let mut devices = Devices::default();
    let mut summary = RunSummary::default();
    let mut samples = Vec::new();
    let entries = vec![
        (Ok(()), port_exit(KVM_EXIT_IO_OUT, BENCH_PORT, b"x")),
        (Err(EINTR), blank_page()),
        (Ok(()), other_exit(KVM_EXIT_INTR)),
        (Ok(()), port_exit(KVM_EXIT_IO_OUT, BENCH_PORT, b"y")),
        (Ok(()), other_exit(KVM_EXIT_HLT)),
    ];
    let mut flow = Flow::Resume;
    for (ns, (entry, mut page)) in entries.into_iter().enumerate() {
        assert_eq!(flow, Flow::Resume);
        samples.push((ns as u64, entry_kind(entry, &page)));
        flow = service_entry(&mut summary, &mut devices, entry, &mut page).unwrap();
    }
    assert_eq!(flow, Flow::Halted);
    assert_eq!(summary, RunSummary { exits: 4, io_exits: 2, mmio_exits: 0, interrupted: 2 });
    assert_eq!(io_samples(&samples), vec![0, 3]);
}

#[test]
fn exits_that_are_told_apart_are_serviced_alike() {
    let mut devices = Devices::default();
    let resume = Ok(Flow::Resume);
    let none: &mut [u8] = &mut [];
    assert_eq!(service_exit(&mut devices, GuestExit::PortOut(SERIAL_PORT), b"hi", none), resume);
    assert_eq!(devices.serial_out, b"hi");
    let mut answer = [0u8; 3];
    assert_eq!(service_exit(&mut devices, GuestExit::PortIn(0x60), b"", &mut answer), resume);
    assert_eq!(answer, [0xff; 3]);
    assert_eq!(service_exit(&mut devices, GuestExit::Store(MMIO_BASE), &[0x42, 1], none), resume);
    assert_eq!(service_exit(&mut devices, GuestExit::Load(MMIO_BASE), b"", &mut answer), resume);
    assert_eq!(answer, [0x42, 0, 0]);
    assert_eq!(service_exit(&mut devices, GuestExit::Halt, b"", none), Ok(Flow::Halted));
    assert_eq!((devices.pio_writes, devices.pio_reads), (1, 1));
    assert_eq!((devices.mmio_writes, devices.mmio_reads, devices.unhandled), (1, 1, 1));

    let outside = MMIO_BASE + MMIO_LEN;
    let refused = Err(RunError::Unmapped(outside));
    assert_eq!(service_exit(&mut devices, GuestExit::Store(outside), &[7], none), refused);
    assert_eq!(service_exit(&mut devices, GuestExit::Load(outside), b"", &mut answer), refused);
    assert_eq!(answer, [0x42, 0, 0]);
    assert_eq!((devices.mmio_writes, devices.mmio_reads, devices.unhandled), (1, 1, 1));
}

#[test]
fn request_numbers_are_those_of_the_kernel_headers() {
    assert_eq!(KVM_GET_API_VERSION, io(0x00));
    assert_eq!(KVM_CREATE_VM, io(0x01));
    assert_eq!(KVM_CHECK_EXTENSION, io(0x03));
    assert_eq!(KVM_GET_VCPU_MMAP_SIZE, io(0x04));
    assert_eq!(KVM_CREATE_VCPU, io(0x41));
    assert_eq!(KVM_SET_USER_MEMORY_REGION, iow(0x46, 32));
    assert_eq!(KVM_SET_TSS_ADDR, io(0x47));
    assert_eq!(KVM_RUN, io(0x80));
    assert_eq!(KVM_GET_REGS, ior(0x81, 144));
    assert_eq!(KVM_SET_REGS, iow(0x82, 144));
    assert_eq!(KVM_GET_SREGS, ior(0x83, 312));
    assert_eq!(KVM_SET_SREGS, iow(0x84, 312));
    assert_eq!(KVM_RUN, 0xae80);
    assert_eq!(ioc(IOC_WRITE, KVMIO, 0x46, 32), 0x4020_ae46);
    assert_eq!(ioc(IOC_READ | IOC_WRITE, 0xff, 0xff, 0x3fff), 0xffff_ffff);
}

#[test]
fn exit_reasons_have_names() {
    assert_eq!(exit_reason_name(KVM_EXIT_UNKNOWN), "KVM_EXIT_UNKNOWN");
    assert_eq!(exit_reason_name(KVM_EXIT_IO), "KVM_EXIT_IO");
    assert_eq!(exit_reason_name(KVM_EXIT_HLT), "KVM_EXIT_HLT");
    assert_eq!(exit_reason_name(KVM_EXIT_MMIO), "KVM_EXIT_MMIO");
    assert_eq!(exit_reason_name(KVM_EXIT_SHUTDOWN), "KVM_EXIT_SHUTDOWN");
    assert_eq!(exit_reason_name(KVM_EXIT_FAIL_ENTRY), "KVM_EXIT_FAIL_ENTRY");
    assert_eq!(exit_reason_name(KVM_EXIT_INTR), "KVM_EXIT_INTR");
    assert_eq!(exit_reason_name(KVM_EXIT_INTERNAL_ERROR), "KVM_EXIT_INTERNAL_ERROR");
    assert_eq!(exit_reason_name(3), "unhandled exit reason");
}

#[test]
fn bring_up_goes_through_its_steps() {
    let size = GUEST_RAM as u64;
    let mut step = Step::OpenKvm;
    let mut requests = Vec::new();
    for reply in [0, EXPECTED_API_VERSION, 1, 5, 0, 0x7f00_0000, 0, 6, 4096, 0] {
        requests.push(step.request());
        step = step.next(size, Ok(reply)).unwrap();
        if let Step::SetRegion(region) = step {
            assert_eq!(region.slot, 0);
            assert_eq!(region.guest_phys_addr, 0);
            assert_eq!(region.memory_size, size);
            assert_eq!(region.userspace_addr, 0x7f00_0000);
        }
        if let Step::MapRun(n) = step {
            assert_eq!(n, 4096);
        }
    }
    assert!(matches!(step, Step::Ready));
    assert_eq!(
        requests,
        vec![
            None,
            Some((KVM_GET_API_VERSION, 0)),
            Some((KVM_CHECK_EXTENSION, KVM_CAP_USER_MEMORY)),
            Some((KVM_CREATE_VM, 0)),
            Some((KVM_SET_TSS_ADDR, TSS_ADDR)),
            None,
            Some((KVM_SET_USER_MEMORY_REGION, 0)),
            Some((KVM_CREATE_VCPU, 0)),
            Some((KVM_GET_VCPU_MMAP_SIZE, 0)),
            None,
        ]
    );
}

#[test]
fn bring_up_fails_where_it_must() {
    let e = Step::OpenKvm.next(4096, Err(13)).unwrap_err();
    assert_eq!(e, BringUpError::Os(13));
    assert_eq!(e.describe(), None);
    let e = Step::ApiVersion.next(4096, Ok(11)).unwrap_err();
    assert_eq!(e, BringUpError::ApiVersion(11));
    assert_eq!(e.describe().unwrap(), "unexpected KVM API version 11, expected 12");
    let e = Step::UserMemory.next(4096, Ok(0)).unwrap_err();
    assert_eq!(e, BringUpError::NoUserMemory);
    assert_eq!(e.describe().unwrap(), "KVM_CAP_USER_MEMORY unsupported");
    let e = Step::RunSize.next(4096, Ok(KVM_RUN_UNION_OFFSET as u64 - 1)).unwrap_err();
    assert_eq!(e, BringUpError::RunSize(31));
    assert_eq!(e.describe().unwrap(), "implausible kvm_run size 31");
    assert!(matches!(Step::RunSize.next(4096, Ok(32)), Ok(Step::MapRun(32))));
    // Hardware that does not need the scratch address refuses it and runs the guest all the same.
    assert!(matches!(Step::TssAddr.next(4096, Err(22)), Ok(Step::MapRam)));
}

#[test]
fn guest_memory_comes_in_whole_pages() {
    assert!(valid_mem_size(GUEST_RAM));
    assert!(valid_mem_size(4096));
    assert!(!valid_mem_size(0));
    assert!(!valid_mem_size(4095));
}

#[test]
fn the_vcpu_starts_in_real_mode_at_the_entry() {
    let mut sregs = kvm_sregs::default();
    sregs.cs.base = 0xffff_0000;
    sregs.cs.selector = 0xf000;
    sregs.ds.selector = 3;
    sregs.cr0 = 0x6000_0010;
    let flat = flatten_segments(sregs);
    assert_eq!((flat.cs.base, flat.cs.selector), (0, 0));
    assert_eq!((flat.ds.base, flat.ds.selector), (0, 0));
    assert_eq!((flat.es.selector, flat.fs.selector, flat.gs.selector, flat.ss.selector), (0, 0, 0, 0));
    assert_eq!(flat.cr0, 0x6000_0010);
    let regs = entry_regs(LOAD_ADDR);
    assert_eq!(regs.rip, 0x1000);
    assert_eq!(regs.rflags, 2);
    assert_eq!(regs.rax, 0);
}
