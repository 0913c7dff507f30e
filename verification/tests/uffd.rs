//! The demand pager: its messages, its decisions, and where its handler runs.

use systems_study::uffd::sweep::{skipped, sweep};
use systems_study::uffd::topology::{
    core_id_path, online_cpus, read_first, read_list, siblings_path, white_space, Placement,
    Topology,
};
use systems_study::uffd::uffd::{
    after_open, after_poll, after_read, after_spin, check_faults, copy, copy_outcome, decode_msg,
    distinct, handshake, open_flags, register_missing, snapshot_image, wake, FaultAction, Handler,
    HandlerStats, Opened, Polled, ReadResult, Region, Spun, EAGAIN, EEXIST, EINTR, EPERM,
    O_CLOEXEC, O_NONBLOCK, PAGE,
};
use systems_study::uffd::uffd_sys::{
    ior, iowr, UFFDIO_API, UFFDIO_COPY, UFFDIO_COPY_MODE_DONTWAKE, UFFDIO_REGISTER,
    UFFDIO_REGISTER_MODE_MISSING, UFFDIO_UNREGISTER, UFFDIO_WAKE, UFFDIO_ZEROPAGE, UFFD_API,
    UFFD_EVENT_PAGEFAULT, UFFD_PAGEFAULT_FLAG_WRITE,
};

const START: usize = 0x7f00_0000_0000;

/// A registered region whose missing pages are filled by the handler's decisions.
struct Machine {
    region: Region,
    handler: Handler,
    image: Vec<u8>,
    memory: Vec<u8>,
    resident: Vec<bool>,
    stats: HandlerStats,
}

impl Machine {
    fn new(pages: usize, batch: usize) -> Machine {
        Machine {
            region: Region::new(START, pages),
            handler: Handler { region_start: START, region_pages: pages, batch_pages: batch },
            image: snapshot_image(pages),
            memory: vec![0u8; pages * PAGE],
            resident: vec![false; pages],
            stats: HandlerStats::default(),
        }
    }

    /// The message that the kernel writes for a fault on `addr`.
    fn message(addr: usize, write: bool) -> Vec<u8> {
        let mut bytes = vec![0u8; 32];
        bytes[0] = UFFD_EVENT_PAGEFAULT;
        let flags: u64 = if write { UFFD_PAGEFAULT_FLAG_WRITE } else { 0 };
        bytes[8..16].copy_from_slice(&flags.to_le_bytes());
        bytes[16..24].copy_from_slice(&(addr as u64).to_le_bytes());
        bytes
    }

    /// Access the first byte of a page, with a fault if the page is missing.
    fn access(&mut self, page: usize, write: bool) -> &mut u8 {
        let addr = self.region.page_addr(page);
        if !self.resident[page] {
            let msg = decode_msg(&Machine::message(addr, write));
            match self.handler.on_message(&mut self.stats, &msg) {
                FaultAction::Install { page: p, dst, offset, len } => {
                    assert_eq!(p, page);
                    let to = dst - self.region.ptr();
                    self.memory[to..to + len].copy_from_slice(&self.image[offset..offset + len]);
                    for r in self.resident[p..p + len / PAGE].iter_mut() {
                        *r = true;
                    }
                    let outcome = copy_outcome(Ok(()), len as i64);
                    assert_eq!(Handler::on_installed(&mut self.stats, outcome), Ok(()));
                }
                FaultAction::Ignore { event } => panic!("ignored event {event}"),
            }
        }
        assert!(self.resident[page]);
        &mut self.memory[page * PAGE]
    }

    fn touch(&mut self, page: usize) -> u8 {
        *self.access(page, false)
    }

    /// Drop every page, which re-arms the notification.
    fn reset(&mut self) {
        for r in self.resident.iter_mut() {
            *r = false;
        }
    }
}

#[test]
fn every_page_restores_its_own_content() {
    const PAGES: usize = 64;
    let mut m = Machine::new(PAGES, 1);
    for p in [7usize, 0, 63, 31, 32, 1, 45, 12] {
        assert_eq!(m.touch(p), p as u8, "page {p} restored the wrong content");
    }
    assert_eq!(m.stats.faults, 8);
    assert_eq!(m.stats.write_faults, 0);
    assert_eq!(m.stats.pages_installed, 8);
}

#[test]
fn a_page_faults_once_no_matter_how_often_it_is_touched() {
    const PAGES: usize = 8;
    let mut m = Machine::new(PAGES, 1);
    for _ in 0..1000 {
        assert_eq!(m.touch(3), 3);
    }
    assert_eq!(m.stats.faults, 1);
}

#[test]
fn batching_reduces_the_fault_count_exactly() {
    const PAGES: usize = 64;
    for batch in [1usize, 2, 4, 8, 16] {
        let mut m = Machine::new(PAGES, batch);
        for p in 0..PAGES {
            assert_eq!(m.touch(p), p as u8, "batch={batch} page={p}");
        }
        assert_eq!(m.stats.faults as usize, PAGES / batch, "batch={batch}");
        assert_eq!(m.stats.pages_installed as usize, PAGES);
    }
}

#[test]
fn reset_re_arms_the_fault() {
    const PAGES: usize = 4;
    let mut m = Machine::new(PAGES, 1);
    for round in 1..=5u64 {
        m.reset();
        for p in 0..PAGES {
            assert_eq!(m.touch(p), p as u8);
        }
        assert_eq!(m.stats.faults, round * PAGES as u64);
    }
}

#[test]
fn a_write_fault_is_reported_as_a_write() {
    const PAGES: usize = 4;
    let mut m = Machine::new(PAGES, 1);
    *m.access(2, true) = 0xEE;
    assert_eq!(m.stats.faults, 1);
    assert_eq!(m.stats.write_faults, 1);
    assert_eq!(*m.access(2, false), 0xEE);
    assert_eq!(m.stats.faults, 1);
}

#[test]
fn the_last_run_of_a_batch_is_cut_at_the_end_of_the_region() {
    let h = Handler { region_start: START, region_pages: 10, batch_pages: 4 };
    let mut stats = HandlerStats::default();
    let msg = decode_msg(&Machine::message(START + 8 * PAGE + 123, false));
    assert_eq!(
        h.on_message(&mut stats, &msg),
        FaultAction::Install {
            page: 8,
            dst: START + 8 * PAGE,
            offset: 8 * PAGE,
            len: 2 * PAGE
        }
    );
}

#[test]
fn an_event_that_is_no_page_fault_is_ignored() {
    let h = Handler { region_start: START, region_pages: 4, batch_pages: 1 };
    let mut stats = HandlerStats::default();
    let mut bytes = Machine::message(0, false);
    bytes[0] = 0x13;
    let msg = decode_msg(&bytes);
    assert_eq!(h.on_message(&mut stats, &msg), FaultAction::Ignore { event: 0x13 });
    assert_eq!(stats, HandlerStats::default());
}

#[test]
fn a_failed_install_is_passed_on() {
    let mut stats = HandlerStats::default();
    assert_eq!(Handler::on_installed(&mut stats, Err(14)), Err(14));
    assert_eq!(stats, HandlerStats::default());
    assert_eq!(Handler::on_installed(&mut stats, Ok(3 * PAGE as u64)), Ok(()));
    assert_eq!(stats.pages_installed, 3);
}

#[test]
fn messages_are_little_endian() {
    let bytes: Vec<u8> = (0..32).collect();
    let msg = decode_msg(&bytes);
    assert_eq!(msg.event, 0);
    assert_eq!(msg.reserved1, 1);
    assert_eq!(msg.reserved2, 0x0302);
    assert_eq!(msg.reserved3, 0x0706_0504);
    assert_eq!(msg.pagefault_flags, 0x0f0e_0d0c_0b0a_0908);
    assert_eq!(msg.pagefault_address, 0x1716_1514_1312_1110);
    assert_eq!(msg.pagefault_ptid, 0x1b1a_1918);
    assert_eq!(msg._pad, 0x1f1e_1d1c);
}

#[test]
fn the_restricted_form_is_tried_second() {
    assert_eq!(after_open(false, Ok(())), Opened::Handshake);
    assert_eq!(after_open(false, Err(EPERM)), Opened::TryRestricted);
    assert_eq!(after_open(true, Err(EPERM)), Opened::Failed(EPERM));
    assert_eq!(after_open(false, Err(38)), Opened::Failed(38));
    assert_eq!(open_flags(true, false), libc::O_CLOEXEC | libc::O_NONBLOCK);
    assert_eq!(open_flags(false, false), libc::O_CLOEXEC);
    assert_eq!(open_flags(true, true), libc::O_CLOEXEC | libc::O_NONBLOCK | 1);
    assert_eq!(open_flags(false, true), libc::O_CLOEXEC | 1);
}

#[test]
fn the_numbers_are_those_of_the_system() {
    assert_eq!(EPERM, libc::EPERM);
    assert_eq!(EINTR, libc::EINTR);
    assert_eq!(EAGAIN, libc::EAGAIN);
    assert_eq!(EEXIST, libc::EEXIST);
    assert_eq!(O_CLOEXEC, libc::O_CLOEXEC);
    assert_eq!(O_NONBLOCK, libc::O_NONBLOCK);
    assert_eq!(systems_study::kvm::vmm::EINTR, libc::EINTR);
}

#[test]
fn ioctl_numbers_are_those_of_the_kernel_headers() {
    assert_eq!(UFFDIO_API, iowr(0x3f, 24));
    assert_eq!(UFFDIO_REGISTER, iowr(0x00, 32));
    assert_eq!(UFFDIO_UNREGISTER, ior(0x01, 16));
    assert_eq!(UFFDIO_WAKE, ior(0x02, 16));
    assert_eq!(UFFDIO_COPY, iowr(0x03, 40));
    assert_eq!(UFFDIO_ZEROPAGE, iowr(0x04, 32));
    assert_eq!(UFFDIO_COPY, 0xc028_aa03);
}

#[test]
fn requests_carry_what_they_are_about() {
    let api = handshake();
    assert_eq!((api.api, api.features, api.ioctls), (UFFD_API, 0, 0));
    let reg = register_missing(0x1000, 0x2000);
    assert_eq!((reg.range.start, reg.range.len), (0x1000, 0x2000));
    assert_eq!((reg.mode, reg.ioctls), (UFFDIO_REGISTER_MODE_MISSING, 0));
    let c = copy(1, 2, 3, true);
    assert_eq!((c.dst, c.src, c.len, c.mode, c.copy), (1, 2, 3, 0, 0));
    assert_eq!(copy(1, 2, 3, false).mode, UFFDIO_COPY_MODE_DONTWAKE);
    let w = wake(5, 6);
    assert_eq!((w.start, w.len), (5, 6));
}

#[test]
fn a_page_that_is_there_already_counts_as_nothing_installed() {
    assert_eq!(copy_outcome(Ok(()), 8192), Ok(8192));
    assert_eq!(copy_outcome(Err(EEXIST), 0), Ok(0));
    assert_eq!(copy_outcome(Ok(()), -(EEXIST as i64)), Ok(0));
    assert_eq!(copy_outcome(Err(14), 0), Err(14));
    assert_eq!(copy_outcome(Ok(()), -14), Err(14));
}

#[test]
fn waiting_and_reading_are_judged() {
    assert_eq!(after_poll(1, 0), Polled::Read);
    assert_eq!(after_poll(0, 0), Polled::Nothing);
    assert_eq!(after_poll(-1, EINTR), Polled::Nothing);
    assert_eq!(after_poll(-1, 9), Polled::Failed(9));
    assert_eq!(after_read(32, 0), ReadResult::Message);
    assert_eq!(after_read(-1, EAGAIN), ReadResult::Nothing);
    assert_eq!(after_read(-1, 9), ReadResult::Failed(9));
    assert_eq!(after_read(16, 0), ReadResult::Short(16));
    assert_eq!(after_spin(32, 0), Spun::Message);
    assert_eq!(after_spin(-1, EAGAIN), Spun::Relax);
    assert_eq!(after_spin(-1, EINTR), Spun::Again);
    assert_eq!(after_spin(-1, 9), Spun::Failed(9));
    assert_eq!(after_spin(0, 0), Spun::Again);
}

#[test]
fn regions_are_measured_in_pages() {
    let r = Region::new(START, 3);
    assert_eq!(r.ptr(), START);
    assert_eq!(r.len(), 3 * PAGE);
    assert_eq!(r.pages(), 3);
    assert!(!r.is_empty());
    assert_eq!(r.page_addr(2), START + 2 * PAGE);
    assert!(Region::new(START, 0).is_empty());
}

#[test]
fn the_demo_expects_one_fault_per_distinct_page() {
    assert_eq!(distinct(&vec![]), 0);
    assert_eq!(distinct(&vec![5, 1, 5, 5, 2, 1]), 3);
    assert_eq!(check_faults(&vec![5, 1, 5], 2), Ok(2));
    assert_eq!(check_faults(&vec![5, 1, 5], 3), Err(2));
}

#[test]
fn the_image_numbers_its_pages() {
    let image = snapshot_image(300);
    assert_eq!(image.len(), 300 * PAGE);
    assert_eq!(image[PAGE - 1], 0);
    assert_eq!(image[PAGE], 1);
    assert_eq!(image[255 * PAGE], 255);
    assert_eq!(image[256 * PAGE], 0);
    assert_eq!(image[300 * PAGE - 1], 43);
}

#[test]
fn cpu_lists_are_read_as_the_kernel_writes_them() {
    assert_eq!(read_list(Some("0,4\n")), vec![0, 4]);
    assert_eq!(read_list(Some("0-3\n")), vec![0, 1, 2, 3]);
    assert_eq!(read_list(Some("0-1,8-9")), vec![0, 1, 8, 9]);
    assert_eq!(read_list(Some(" 5 ")), vec![5]);
    assert_eq!(read_list(Some("x,7,-,3-y")), vec![7]);
    assert_eq!(read_list(Some("4-2,1")), vec![1]);
    assert_eq!(read_list(Some("")), Vec::<usize>::new());
    assert_eq!(read_list(None), Vec::<usize>::new());
    assert_eq!(read_list(Some("18446744073709551616,2")), vec![2]);
    assert_eq!(read_list(Some("18446744073709551615")), vec![usize::MAX]);
    assert_eq!(read_first(Some("6-7")), Some(6));
    assert_eq!(read_first(Some("\n")), None);
    assert_eq!(read_first(None), None);
}

#[test]
fn white_space_is_what_unicode_says() {
    for n in 0..=0x10_ffffu32 {
        if let Some(c) = char::from_u32(n) {
            assert_eq!(white_space(c), c.is_whitespace(), "{n:#x}");
        }
    }
}

#[test]
fn numbers_are_read_as_the_standard_library_reads_them() {
    for text in ["0", "+4", "007", "-1", "+", "", "1_0", "٣", "4 ", "9\u{2003}", "12a"] {
        let expected: Vec<usize> = match text.trim().parse::<usize>() {
            Ok(n) => vec![n],
            Err(_) => vec![],
        };
        if !text.contains('-') {
            assert_eq!(read_list(Some(text)), expected, "{text:?}");
        }
    }
}

#[test]
fn placements_are_picked_from_the_topology() {
    let cores: Vec<Option<String>> = ["0\n", "1\n", "0\n", "1\n"]
        .into_iter()
        .map(|s| Some(String::from(s)))
        .collect();
    let t = Topology::detect(0, Some("0,2\n"), Some("0\n"), &cores);
    assert_eq!(t, Topology { faulter: 0, smt_sibling: Some(2), other_core: Some(1) });
    assert_eq!(t.cpu_for(Placement::SameCpu), Some(0));
    assert_eq!(t.cpu_for(Placement::SmtSibling), Some(2));
    assert_eq!(t.cpu_for(Placement::OtherCore), Some(1));

    let alone = Topology::detect(0, Some("0\n"), Some("0\n"), &vec![Some(String::from("0\n"))]);
    assert_eq!(alone, Topology { faulter: 0, smt_sibling: None, other_core: None });
    assert_eq!(skipped(&alone), vec![Placement::OtherCore, Placement::SmtSibling]);
    assert_eq!(skipped(&t), vec![]);
}

#[test]
fn a_core_that_is_not_known_is_no_other_core() {
    let cores = vec![Some(String::from("0")), None];
    let t = Topology::detect(0, None, Some("0"), &cores);
    assert_eq!(t, Topology { faulter: 0, smt_sibling: None, other_core: None });
    let t = Topology::detect(0, None, None, &vec![None, None]);
    assert_eq!(t.other_core, None);
    let t = Topology::detect(0, None, None, &vec![None, Some(String::from("1"))]);
    assert_eq!(t.other_core, None);
    let t = Topology::detect(0, None, Some("0"), &vec![
        Some(String::from("0")),
        Some(String::from("\n")),
        Some(String::from("7")),
    ]);
    assert_eq!(t.other_core, Some(2));
}

#[test]
fn placements_have_names() {
    assert_eq!(Placement::SameCpu.name(), "same logical CPU");
    assert_eq!(Placement::SmtSibling.name(), "SMT sibling");
    assert_eq!(Placement::OtherCore.name(), "different physical core");
}

#[test]
fn topology_files_are_those_of_the_kernel() {
    assert_eq!(
        siblings_path(3),
        "/sys/devices/system/cpu/cpu3/topology/thread_siblings_list"
    );
    assert_eq!(core_id_path(120), "/sys/devices/system/cpu/cpu120/topology/core_id");
    assert_eq!(online_cpus(8), 8);
    assert_eq!(online_cpus(0), 1);
    assert_eq!(online_cpus(-1), 1);
}

#[test]
fn the_sweep_has_a_baseline_every_placement_and_the_batches() {
    let t = Topology { faulter: 0, smt_sibling: Some(2), other_core: Some(1) };
    let configs = sweep(&t, false);
    let rows: Vec<(&str, Option<usize>, usize, bool)> = configs
        .iter()
        .map(|c| (c.label.as_str(), c.handler_cpu, c.batch, c.spin))
        .collect();
    assert_eq!(
        rows,
        vec![
            ("no uffd (kernel anon fault)", None, 0, false),
            ("uffd batch=1, different physical core (poll)", Some(1), 1, false),
            ("uffd batch=1, different physical core (spin)", Some(1), 1, true),
            ("uffd batch=1, SMT sibling (poll)", Some(2), 1, false),
            ("uffd batch=1, SMT sibling (spin)", Some(2), 1, true),
            ("uffd batch=1, same logical CPU (poll)", Some(0), 1, false),
            ("uffd batch=1, same logical CPU (spin)", Some(0), 1, true),
            ("uffd batch=2, different physical core (poll)", Some(1), 2, false),
            ("uffd batch=4, different physical core (poll)", Some(1), 4, false),
            ("uffd batch=8, different physical core (poll)", Some(1), 8, false),
            ("uffd batch=16, different physical core (poll)", Some(1), 16, false),
            ("uffd batch=64, different physical core (poll)", Some(1), 64, false),
        ]
    );
    let mut back: Vec<String> = sweep(&t, true).into_iter().map(|c| c.label).collect();
    back.reverse();
    assert_eq!(back, rows.iter().map(|r| r.0).collect::<Vec<&str>>());

    let few = Topology { faulter: 0, smt_sibling: None, other_core: None };
    let labels: Vec<String> = sweep(&few, false).into_iter().map(|c| c.label).collect();
    assert_eq!(
        labels,
        vec![
            "no uffd (kernel anon fault)",
            "uffd batch=1, same logical CPU (poll)",
            "uffd batch=1, same logical CPU (spin)",
        ]
    );
}
