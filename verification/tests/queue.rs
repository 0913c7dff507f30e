//! Requests from end to end, what goes wrong with them, and how often each side is notified.

use systems_study::virtq::chain::ChainError;
use systems_study::virtq::device::{Device, ProcessStats, RejectReason, Taken};
use systems_study::virtq::driver::{Buffer, Driver, DriverError};
use systems_study::virtq::hostile::{confront, Hostile};
use systems_study::virtq::layout::{VirtqLayout, VIRTQ_DESC_F_NEXT, VIRTQ_DESC_F_WRITE};
use systems_study::virtq::mem::{GuestAddr, MemError, SharedMem};
use systems_study::virtq::notify::{count_notifications, Notifications};
use systems_study::virtq::session::{
    check_round, reply_buffer, submit, walk_bytes, write_desc, RoundError, SubmitError, Submitted,
};

const REGION: usize = 64 * 1024;
const QUEUE_SIZE: u16 = 8;

fn setup(event_idx: bool) -> (SharedMem, Driver, Device) {
    let layout = VirtqLayout::new(GuestAddr(0), QUEUE_SIZE);
    (
        SharedMem::new(REGION),
        Driver::new(layout, REGION as u64, event_idx),
        Device::new(layout, event_idx),
    )
}

fn bytes(parts: &[&str]) -> Vec<Vec<u8>> {
    parts.iter().map(|p| p.as_bytes().to_vec()).collect()
}

#[test]
fn three_requests_go_round() {
    let (mut mem, mut driver, mut device) = setup(true);
    let requests: [&[&str]; 3] = [&["hello virtio"], &["scatter ", "gather"], &["third"]];
    let mut sent: Vec<Submitted> = Vec::new();
    for parts in requests {
        sent.push(submit(&mut driver, &mut mem, &bytes(parts), 64).unwrap());
    }
    assert_eq!(sent.iter().map(|s| s.head).collect::<Vec<u16>>(), vec![0, 2, 5]);
    assert_eq!(driver.avail_idx(), 3);
    assert_eq!(driver.needs_kick(&mem), Ok(true));

    let stats = device.process(&mut mem, |req| req.to_ascii_uppercase()).unwrap();
    assert_eq!((stats.chains, stats.descriptors), (3, 7));
    assert_eq!((stats.bytes_read, stats.bytes_written), (31, 31));
    assert_eq!(device.needs_notification(&mem), Ok(true));

    let done = driver.collect_used(&mem).unwrap();
    assert_eq!(done, vec![(0, 12), (2, 14), (5, 5)]);
    let mut all_matched = true;
    for (i, (head, len)) in done.iter().enumerate() {
        let reply = reply_buffer(&device, &mem, *head).unwrap();
        assert_eq!(GuestAddr(reply), sent[i].reply);
        let got = mem.read_slice(GuestAddr(reply), *len as u64).unwrap();
        all_matched &= got == requests[i].concat().to_ascii_uppercase().as_bytes();
    }
    assert_eq!(check_round(all_matched, &driver, &stats), Ok(()));
    assert_eq!(driver.free_descriptors(), QUEUE_SIZE as usize);
}

#[test]
fn a_round_is_checked_for_replies_then_leaks_then_refusals() {
    let (mut mem, mut driver, _) = setup(false);
    let mut stats = ProcessStats::default();
    assert_eq!(check_round(true, &driver, &stats), Ok(()));
    stats.rejected.push((0, RejectReason::Chain(ChainError::Indirect)));
    assert_eq!(check_round(true, &driver, &stats), Err(RoundError::Rejected));
    submit(&mut driver, &mut mem, &bytes(&["x"]), 8).unwrap();
    assert_eq!(check_round(true, &driver, &stats), Err(RoundError::Leak));
    assert_eq!(check_round(false, &driver, &stats), Err(RoundError::Mismatch));
}

#[test]
fn a_request_that_does_not_fit_is_not_submitted() {
    let (mut mem, mut driver, _) = setup(false);
    let big = vec![vec![0u8; REGION]];
    assert_eq!(submit(&mut driver, &mut mem, &big, 8), Err(SubmitError::Arena));
    assert_eq!(
        submit(&mut driver, &mut mem, &bytes(&["a"]), REGION as u32),
        Err(SubmitError::Arena)
    );
    let many = bytes(&["a", "b", "c", "d", "e", "f", "g", "h"]);
    assert_eq!(
        submit(&mut driver, &mut mem, &many, 8),
        Err(SubmitError::Driver(DriverError::OutOfDescriptors))
    );
    assert_eq!(driver.free_descriptors(), 8);
    assert_eq!(driver.avail_idx(), 0);
}

#[test]
fn walks_come_to_the_bytes_of_their_buffers() {
    let (mut mem, mut driver, device) = setup(false);
    let s = submit(&mut driver, &mut mem, &bytes(&["abc", "de"]), 64).unwrap();
    assert_eq!(walk_bytes(&device, &mem, s.head), Ok(69));
    assert_eq!(
        walk_bytes(&device, &mem, 8),
        Err(ChainError::IndexOutOfRange { index: 8, queue_size: 8 })
    );
    assert_eq!(reply_buffer(&device, &mem, 8), None);
}

#[test]
fn descriptors_are_written_where_the_table_has_them() {
    let layout = VirtqLayout::new(GuestAddr(0), 2);
    let mut mem = SharedMem::new(256);
    assert_eq!(write_desc(&mut mem, layout, 1, 0x0102, 3, 4, 5), Some(Ok(())));
    assert_eq!(mem.read_u64(GuestAddr(16)), Ok(0x0102));
    assert_eq!(mem.read_u32(GuestAddr(24)), Ok(3));
    assert_eq!(mem.read_u16(GuestAddr(28)), Ok(4));
    assert_eq!(mem.read_u16(GuestAddr(30)), Ok(5));
    assert_eq!(write_desc(&mut mem, layout, 2, 0, 0, 0, 0), None);
    let mut small = SharedMem::new(20);
    assert_eq!(
        write_desc(&mut small, layout, 1, 0, 0, 0, 0),
        Some(Err(MemError::OutOfBounds { addr: 16, len: 8, region_len: 20 }))
    );
}

#[test]
fn hostile_chains_are_refused_and_completed() {
    let said: Vec<(u64, u64, String)> = [
        Hostile::SelfLoop,
        Hostile::Cycle,
        Hostile::NextOutside,
        Hostile::BufferOutside,
        Hostile::ReadableAfterWritable,
    ]
    .into_iter()
    .map(|case| {
        let stats = confront(case);
        assert_eq!(stats.rejected.len(), 1);
        assert_eq!(stats.rejected[0].0, 0);
        (stats.chains, stats.bytes_written, stats.rejected[0].1.describe())
    })
    .collect();
    let words = [
        "chain longer than 8 descriptors: it contains a cycle",
        "chain longer than 8 descriptors: it contains a cycle",
        "descriptor index 60000 is outside a table of 8",
        "buffer rejected: access of 4096 bytes at 0xfffffffffffffff7 is outside the 0x10000-byte region",
        "device-readable descriptor after a device-writable one",
    ];
    for (got, want) in said.iter().zip(words) {
        assert_eq!((got.0, got.1), (1, 0));
        assert_eq!(got.2, want);
    }
}

#[test]
fn errors_have_words() {
    let e = MemError::OutOfBounds { addr: 16, len: 8, region_len: 20 };
    assert_eq!(e.describe(), "access of 8 bytes at 0x10 is outside the 0x14-byte region");
    assert_eq!(GuestAddr(0x2a).describe(), "0x2a");
    assert_eq!(
        ChainError::TooManyBytes.describe(),
        "chain describes more than 2^32 bytes"
    );
    assert_eq!(
        ChainError::BadBuffer(e).describe(),
        "descriptor buffer is not in the region: access of 8 bytes at 0x10 is outside the 0x14-byte region"
    );
    assert_eq!(ChainError::Indirect.describe(), "indirect descriptors are not implemented");
    assert_eq!(
        ChainError::Mem(e).describe(),
        "reading the descriptor table failed: access of 8 bytes at 0x10 is outside the 0x14-byte region"
    );
    assert_eq!(
        RejectReason::Chain(ChainError::Indirect).describe(),
        "indirect descriptors are not implemented"
    );
    assert_eq!(
        DriverError::OutOfDescriptors.describe(),
        "no free descriptors: the queue is full until the device completes something"
    );
    assert_eq!(
        DriverError::Mem(e).describe(),
        "access of 8 bytes at 0x10 is outside the 0x14-byte region"
    );
    assert_eq!(DriverError::from(e), DriverError::Mem(e));
}

#[test]
fn notifications_are_counted_exactly() {
    for batch in [1u32, 2, 4, 8, 16, 32, 64] {
        let rounds = u64::from(4096 / batch);
        assert_eq!(
            count_notifications(4096, batch, false),
            Notifications { kicks: 4096, interrupts: rounds }
        );
        assert_eq!(
            count_notifications(4096, batch, true),
            Notifications { kicks: rounds, interrupts: rounds }
        );
    }
    assert_eq!(
        count_notifications(100, 64, true),
        Notifications { kicks: 2, interrupts: 2 }
    );
    assert_eq!(
        count_notifications(0, 5, true),
        Notifications { kicks: 0, interrupts: 0 }
    );
}

#[test]
fn notifications_are_counted_across_the_wrap_of_the_counters() {
    assert_eq!(
        count_notifications(200_000, 60, true),
        Notifications { kicks: 3334, interrupts: 3334 }
    );
}

#[test]
fn requests_can_be_taken_and_answered_one_by_one() {
    let (mut mem, mut driver, mut device) = setup(false);
    let mut stats = ProcessStats::default();
    assert!(matches!(device.take_request(&mut mem, &mut stats), Ok(Taken::Idle)));
    let s = submit(&mut driver, &mut mem, &bytes(&["ab", "c"]), 4).unwrap();
    match device.take_request(&mut mem, &mut stats) {
        Ok(Taken::Ready(request)) => {
            assert_eq!(request.head, s.head);
            assert_eq!(request.data, b"abc");
            assert_eq!(request.writable, vec![(s.reply.0, 4)]);
            let response = b"a long answer".to_vec();
            device.answer(&mut mem, &mut stats, &request, &response).unwrap();
        }
        _ => panic!("the request was not taken"),
    }
    assert_eq!(mem.read_slice(s.reply, 4).unwrap(), b"a lo");
    assert_eq!(stats.bytes_written, 4);
    assert_eq!(driver.collect_used(&mem).unwrap(), vec![(s.head, 4)]);

    let layout = VirtqLayout::new(GuestAddr(0), QUEUE_SIZE);
    write_desc(&mut mem, layout, 0, 0, 1, VIRTQ_DESC_F_NEXT, 0).unwrap().unwrap();
    mem.write_u16(layout.avail_slot(1), 0).unwrap();
    mem.store_idx_release(layout.avail_idx(), 2).unwrap();
    assert!(matches!(device.take_request(&mut mem, &mut stats), Ok(Taken::Refused)));
    assert_eq!(stats.rejected, vec![(0, RejectReason::Chain(ChainError::TooLong { limit: 8 }))]);
    assert_eq!(stats.chains, 2);
}

#[test]
fn a_pass_can_be_kept_short() {
    let (mut mem, mut driver, mut device) = setup(false);
    for text in ["a", "b", "c"] {
        submit(&mut driver, &mut mem, &bytes(&[text]), 4).unwrap();
    }
    let (stats, empty) = device.process_at_most(&mut mem, 2, |r| r.to_vec()).unwrap();
    assert_eq!((stats.chains, empty), (2, false));
    assert_eq!(device.available(&mem), Ok(1));
    let (stats, empty) = device.process_at_most(&mut mem, 2, |r| r.to_vec()).unwrap();
    assert_eq!((stats.chains, empty), (1, true));
    assert_eq!(driver.collect_used(&mem).unwrap().len(), 3);
}

#[test]
fn a_guest_that_feeds_itself_is_cut_off() {
    // The reply lies over the avail index, and what is written there makes another chain available.
    let (mut mem, _, mut device) = setup(false);
    let layout = VirtqLayout::new(GuestAddr(0), QUEUE_SIZE);
    write_desc(&mut mem, layout, 0, layout.avail_idx().0, 2, VIRTQ_DESC_F_WRITE, 0)
        .unwrap()
        .unwrap();
    mem.store_idx_release(layout.avail_idx(), 1).unwrap();
    let mut next = 1u16;
    let answer = |_: &[u8]| {
        next = next.wrapping_add(1);
        next.to_le_bytes().to_vec()
    };
    let (stats, empty) = device.process_at_most(&mut mem, 1000, answer).unwrap();
    assert_eq!((stats.chains, empty), (1000, false));
    assert_eq!(device.available(&mem), Ok(1));
}

#[test]
fn an_indirect_descriptor_is_refused() {
    let (mut mem, _, mut device) = setup(false);
    let layout = VirtqLayout::new(GuestAddr(0), QUEUE_SIZE);
    write_desc(&mut mem, layout, 0, 0x2000, 16, 4, 0).unwrap().unwrap();
    mem.store_idx_release(layout.avail_idx(), 1).unwrap();
    let stats = device.process(&mut mem, |r| r.to_vec()).unwrap();
    assert_eq!(stats.rejected, vec![(0, RejectReason::Chain(ChainError::Indirect))]);
}

#[test]
fn an_answer_that_cannot_be_stored_is_refused() {
    let (mut mem, _, mut device) = setup(false);
    let layout = VirtqLayout::new(GuestAddr(0), QUEUE_SIZE);
    let end = REGION as u64;
    write_desc(&mut mem, layout, 0, end - 2, 8, VIRTQ_DESC_F_WRITE, 0).unwrap().unwrap();
    mem.store_idx_release(layout.avail_idx(), 1).unwrap();
    let stats = device.process(&mut mem, |_| b"12345678".to_vec()).unwrap();
    assert_eq!(
        stats.rejected,
        vec![(
            0,
            RejectReason::Buffer(MemError::OutOfBounds { addr: end - 2, len: 8, region_len: end })
        )]
    );
    assert_eq!((stats.chains, stats.bytes_written), (1, 0));
}

/// The first element of the used ring: its head and its length.
fn first_used(mem: &SharedMem, layout: VirtqLayout) -> (u32, u32) {
    let (id, len) = layout.used_slot(0);
    (mem.read_u32(id).unwrap(), mem.read_u32(len).unwrap())
}

#[test]
fn a_chain_that_starts_outside_the_region_is_refused_whole() {
    let (mut mem, _, mut device) = setup(false);
    let layout = VirtqLayout::new(GuestAddr(0), QUEUE_SIZE);
    let wild = u64::MAX - 8;
    write_desc(&mut mem, layout, 0, wild, 16, VIRTQ_DESC_F_NEXT, 1).unwrap().unwrap();
    write_desc(&mut mem, layout, 1, 0x2000, 16, VIRTQ_DESC_F_WRITE, 0).unwrap().unwrap();
    mem.store_idx_release(layout.avail_idx(), 1).unwrap();
    let mut called = false;
    let stats = device
        .process(&mut mem, |_| {
            called = true;
            b"ok".to_vec()
        })
        .unwrap();
    assert!(!called);
    assert_eq!((stats.chains, stats.bytes_read, stats.bytes_written), (1, 0, 0));
    let error = MemError::OutOfBounds { addr: wild, len: 16, region_len: REGION as u64 };
    assert_eq!(stats.rejected, vec![(0, RejectReason::Buffer(error))]);
    assert_eq!(first_used(&mem, layout), (0, 0));
    assert_eq!(mem.read_slice(GuestAddr(0x2000), 2).unwrap(), [0, 0]);
}

#[test]
fn two_buffers_outside_the_region_are_one_refusal() {
    let (mut mem, _, mut device) = setup(false);
    let layout = VirtqLayout::new(GuestAddr(0), QUEUE_SIZE);
    let wild = u64::MAX - 8;
    write_desc(&mut mem, layout, 0, wild, 16, VIRTQ_DESC_F_NEXT, 1).unwrap().unwrap();
    write_desc(&mut mem, layout, 1, wild, 16, 0, 0).unwrap().unwrap();
    mem.store_idx_release(layout.avail_idx(), 1).unwrap();
    let stats = device.process(&mut mem, |r| r.to_vec()).unwrap();
    assert_eq!(stats.errors(), 1);
    assert_eq!(stats.chains, 1);
    assert_eq!(first_used(&mem, layout), (0, 0));
}

#[test]
fn a_second_buffer_outside_the_region_leaves_the_first_unwritten() {
    let (mut mem, _, mut device) = setup(false);
    let layout = VirtqLayout::new(GuestAddr(0), QUEUE_SIZE);
    let flags = VIRTQ_DESC_F_WRITE | VIRTQ_DESC_F_NEXT;
    write_desc(&mut mem, layout, 0, 0x2000, 2, flags, 1).unwrap().unwrap();
    write_desc(&mut mem, layout, 1, REGION as u64, 2, VIRTQ_DESC_F_WRITE, 0).unwrap().unwrap();
    mem.store_idx_release(layout.avail_idx(), 1).unwrap();
    let stats = device.process(&mut mem, |_| b"1234".to_vec()).unwrap();
    assert_eq!((stats.chains, stats.errors(), stats.bytes_written), (1, 1, 0));
    assert_eq!(mem.read_slice(GuestAddr(0x2000), 2).unwrap(), [0, 0]);
    assert_eq!(first_used(&mem, layout), (0, 0));
}

#[test]
fn an_answer_that_stops_short_of_the_end_of_the_region_goes_in() {
    let layout = VirtqLayout::new(GuestAddr(0), QUEUE_SIZE);
    let at = REGION as u64 - 2;
    for (answer, refused) in [("", false), ("a", false), ("ab", false), ("abc", true)] {
        let (mut mem, _, mut device) = setup(false);
        write_desc(&mut mem, layout, 0, at, 8, VIRTQ_DESC_F_WRITE, 0).unwrap().unwrap();
        mem.store_idx_release(layout.avail_idx(), 1).unwrap();
        let mut calls = 0;
        let stats = device
            .process(&mut mem, |_| {
                calls += 1;
                answer.as_bytes().to_vec()
            })
            .unwrap();
        assert_eq!((stats.chains, calls), (1, 1));
        if refused {
            let error = MemError::OutOfBounds { addr: at, len: 3, region_len: REGION as u64 };
            assert_eq!(stats.rejected, vec![(0, RejectReason::Buffer(error))]);
            assert_eq!(stats.bytes_written, 0);
            assert_eq!(first_used(&mem, layout), (0, 0));
            assert_eq!(mem.read_slice(GuestAddr(at), 2).unwrap(), [0, 0]);
        } else {
            let n = answer.len() as u64;
            assert_eq!(stats.errors(), 0);
            assert_eq!(stats.bytes_written, n);
            assert_eq!(first_used(&mem, layout), (0, n as u32));
            assert_eq!(mem.read_slice(GuestAddr(at), n).unwrap(), answer.as_bytes());
        }
    }
}

#[test]
fn a_buffer_that_the_answer_does_not_come_to_is_not_looked_at() {
    let (mut mem, _, mut device) = setup(false);
    let layout = VirtqLayout::new(GuestAddr(0), QUEUE_SIZE);
    let flags = VIRTQ_DESC_F_WRITE | VIRTQ_DESC_F_NEXT;
    write_desc(&mut mem, layout, 0, 0x3000, 3, VIRTQ_DESC_F_NEXT, 1).unwrap().unwrap();
    write_desc(&mut mem, layout, 1, 0x2000, 3, flags, 2).unwrap().unwrap();
    write_desc(&mut mem, layout, 2, u64::MAX - 8, 16, VIRTQ_DESC_F_WRITE, 0).unwrap().unwrap();
    mem.write_slice(GuestAddr(0x3000), b"abc").unwrap();
    mem.store_idx_release(layout.avail_idx(), 1).unwrap();
    let stats = device.process(&mut mem, |r| r.to_ascii_uppercase()).unwrap();
    assert_eq!(stats.errors(), 0);
    assert_eq!((stats.chains, stats.bytes_read, stats.bytes_written), (1, 3, 3));
    assert_eq!(mem.read_slice(GuestAddr(0x2000), 3).unwrap(), b"ABC");
    assert_eq!(first_used(&mem, layout), (0, 3));
}

#[test]
fn an_answer_to_a_buffer_outside_the_region_writes_nothing() {
    let (mut mem, mut driver, mut device) = setup(false);
    let mut stats = ProcessStats::default();
    let s = submit(&mut driver, &mut mem, &bytes(&["x"]), 4).unwrap();
    let outside = REGION as u64 - 1;
    match device.take_request(&mut mem, &mut stats) {
        Ok(Taken::Ready(mut request)) => {
            request.writable.push((outside, 4));
            let response = b"12345678".to_vec();
            device.answer(&mut mem, &mut stats, &request, &response).unwrap();
        }
        _ => panic!("the request was not taken"),
    }
    let error = MemError::OutOfBounds { addr: outside, len: 4, region_len: REGION as u64 };
    assert_eq!(stats.rejected, vec![(s.head, RejectReason::Buffer(error))]);
    assert_eq!((stats.chains, stats.bytes_written), (1, 0));
    assert_eq!(mem.read_slice(s.reply, 4).unwrap(), [0; 4]);
    assert_eq!(driver.collect_used(&mem).unwrap(), vec![(s.head, 0)]);
}

#[test]
fn refused_chains_are_logged_once_each_among_those_that_are_served() {
    let (mut mem, mut driver, mut device) = setup(false);
    let wild = Buffer { addr: GuestAddr(u64::MAX - 8), len: 16, device_writable: false };
    let bad = driver.add_chain(&mut mem, &[wild, wild]).unwrap();
    let good = submit(&mut driver, &mut mem, &bytes(&["hi"]), 8).unwrap();
    let worse = driver.add_chain(&mut mem, &[wild, wild, wild]).unwrap();
    let stats = device.process(&mut mem, |r| r.to_ascii_uppercase()).unwrap();
    assert_eq!(stats.chains, 3);
    let heads: Vec<u16> = stats.rejected.iter().map(|r| r.0).collect();
    assert_eq!(heads, vec![bad, worse]);
    assert_eq!(
        driver.collect_used(&mem).unwrap(),
        vec![(bad, 0), (good.head, 2), (worse, 0)]
    );
}

#[test]
fn buffers_are_handed_out_apart() {
    let (mut mem, mut driver, _) = setup(false);
    let layout = VirtqLayout::new(GuestAddr(0), QUEUE_SIZE);
    let mut from = layout.used_ring.0 + 6 + 8 * QUEUE_SIZE as u64;
    for len in [5u32, 0, 8, 1, 60_000, 70_000, 17] {
        match driver.alloc_uninit(len) {
            Some(a) => {
                assert_ne!(len, 70_000);
                assert_eq!(a.0 % 8, 0);
                assert!(a.0 >= from);
                from = a.0 + len as u64;
                assert!(from <= REGION as u64);
            }
            None => assert_eq!(len, 70_000),
        }
    }
    let a = driver.alloc_init(&mut mem, b"data").unwrap();
    assert!(a.0 >= from);
    assert_eq!(mem.read_slice(a, 4).unwrap(), b"data");
    assert_eq!(mem.read_slice(GuestAddr(a.0 + 4), 4).unwrap(), [0; 4]);
    assert_eq!(driver.alloc_init(&mut mem, &[1u8; 10_000]), None);
    assert_eq!(mem.read_slice(GuestAddr(a.0 + 4), 4).unwrap(), [0; 4]);
    assert_eq!(driver.alloc_uninit(1), Some(GuestAddr(a.0 + 8)));
}

#[test]
fn what_was_published_earlier_stays() {
    let (mut mem, mut driver, device) = setup(false);
    let first = submit(&mut driver, &mut mem, &bytes(&["ab", "c"]), 16).unwrap();
    let second = submit(&mut driver, &mut mem, &bytes(&["defg"]), 32).unwrap();
    assert_eq!(walk_bytes(&device, &mem, first.head), Ok(19));
    assert_eq!(reply_buffer(&device, &mem, first.head), Some(first.reply.0));
    let third = submit(&mut driver, &mut mem, &bytes(&["h", "i"]), 64).unwrap();
    assert_eq!(driver.free_descriptors(), 0);
    assert_eq!(walk_bytes(&device, &mem, first.head), Ok(19));
    assert_eq!(walk_bytes(&device, &mem, second.head), Ok(36));
    assert_eq!(walk_bytes(&device, &mem, third.head), Ok(66));
    assert_eq!(reply_buffer(&device, &mem, second.head), Some(second.reply.0));
}

#[test]
fn descriptors_add_up_and_completions_are_collected_once() {
    let (mut mem, mut driver, mut device) = setup(false);
    submit(&mut driver, &mut mem, &bytes(&["a", "b"]), 8).unwrap();
    submit(&mut driver, &mut mem, &bytes(&["c"]), 8).unwrap();
    assert_eq!(driver.free_descriptors() + 3 + 2, QUEUE_SIZE as usize);
    let (stats, _) = device.process_at_most(&mut mem, 1, |r| r.to_vec()).unwrap();
    assert_eq!(stats.chains, 1);
    assert_eq!(driver.collect_used(&mem).unwrap().len(), 1);
    assert_eq!(driver.free_descriptors() + 2, QUEUE_SIZE as usize);
    assert!(driver.collect_used(&mem).unwrap().is_empty());
    assert_eq!(driver.free_descriptors() + 2, QUEUE_SIZE as usize);
}

#[test]
fn a_sleeping_device_is_woken_by_the_next_chain() {
    let (mut mem, mut driver, mut device) = setup(true);
    assert_eq!(device.enable_notification(&mut mem), Ok(false));
    submit(&mut driver, &mut mem, &bytes(&["x"]), 8).unwrap();
    assert_eq!(driver.needs_kick(&mem), Ok(true));
    submit(&mut driver, &mut mem, &bytes(&["y"]), 8).unwrap();
    assert_eq!(driver.needs_kick(&mem), Ok(false));
    // Work that arrived in between is reported.
    assert_eq!(device.enable_notification(&mut mem), Ok(true));
    assert_eq!(device.available(&mem), Ok(2));
}

#[test]
fn without_event_idx_the_flag_is_the_hint() {
    let (mut mem, mut driver, mut device) = setup(false);
    let layout = VirtqLayout::new(GuestAddr(0), QUEUE_SIZE);
    device.disable_notification(&mut mem).unwrap();
    assert_eq!(mem.read_u16(layout.used_flags()), Ok(1));
    device.enable_notification(&mut mem).unwrap();
    assert_eq!(mem.read_u16(layout.used_flags()), Ok(0));
    assert_eq!(driver.needs_kick(&mem), Ok(true));
    assert_eq!(device.needs_notification(&mem), Ok(true));
}

#[test]
fn a_queue_outside_its_region_is_refused() {
    let layout = VirtqLayout::new(GuestAddr(0), QUEUE_SIZE);
    let mut mem = SharedMem::new(64);
    let mut driver = Driver::new(layout, 64, true);
    let mut device = Device::new(layout, true);
    let refused = MemError::OutOfBounds { addr: 130, len: 2, region_len: 64 };
    assert_eq!(device.available(&mem), Err(refused));
    assert_eq!(device.pop_chain_head(&mem), Err(refused));
    let b = Buffer { addr: GuestAddr(0), len: 1, device_writable: false };
    assert_eq!(
        driver.add_chain(&mut mem, &[b]),
        Err(DriverError::Mem(MemError::OutOfBounds { addr: 132, len: 2, region_len: 64 }))
    );
    assert!(driver.arm_used_event(&mut mem).is_err());
    assert!(driver.needs_kick(&mem).is_err());
    assert!(driver.collect_used(&mem).is_err());
    assert!(device.add_used(&mut mem, 0, 0).is_err());
    assert!(device.needs_notification(&mem).is_err());
    assert!(device.enable_notification(&mut mem).is_err());
}
