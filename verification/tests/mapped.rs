//! The device on `virtio-queue` and `vm-memory`.

use systems_study::virtq::device::Device;
use systems_study::virtq::driver::Driver;
use systems_study::virtq::layout::{
    Descriptor, VirtqLayout, VIRTQ_DESC_F_NEXT, VIRTQ_DESC_F_WRITE,
};
use systems_study::virtq::mapped::{plan_request, to_upper, GuestRam, MappedError};
use systems_study::virtq::mem::{GuestAddr, SharedMem};
use systems_study::virtq::session::submit;

const REGION: usize = 0x20_0000;
const QUEUE_SIZE: u16 = 8;
const ARENA: u64 = 0x10_0000;

/// Write the requests into the memory and plan their chains.
fn publish(ram: &mut GuestRam, requests: &[&[&str]], reply_len: u32) -> (Vec<Descriptor>, Vec<u64>) {
    let mut descs: Vec<Descriptor> = Vec::new();
    let mut replies = Vec::new();
    let mut arena = ARENA;
    for parts in requests {
        let lens: Vec<u32> = parts.iter().map(|p| p.len() as u32).collect();
        let plan = plan_request(arena, &lens, descs.len() as u16, reply_len);
        for (part, d) in parts.iter().zip(&plan.descs) {
            ram.write(d.addr, part.as_bytes()).unwrap();
        }
        replies.push(plan.reply);
        arena = plan.end;
        descs.extend(plan.descs);
    }
    (descs, replies)
}

#[test]
fn the_same_three_requests_give_the_same_bytes() {
    let mut ram = GuestRam::new(REGION).unwrap();
    let requests: [&[&str]; 3] = [&["hello virtio"], &["scatter ", "gather"], &["third"]];
    let (descs, replies) = publish(&mut ram, &requests, 64);
    let mut device = ram.into_device(QUEUE_SIZE, &descs).unwrap();
    device.set_event_idx(true);
    let pass = device.process().unwrap();
    assert_eq!(pass.completions, vec![(0, 12), (2, 14), (5, 5)]);
    assert_eq!(pass.descriptors, 7);
    for (i, (_, len)) in pass.completions.iter().enumerate() {
        let got = device.read(replies[i], *len).unwrap();
        assert_eq!(got, requests[i].concat().to_ascii_uppercase().as_bytes());
    }
    let again = device.process().unwrap();
    assert!(again.completions.is_empty());
    assert_eq!(again.descriptors, 0);
}

#[test]
fn what_is_written_is_not_the_size_of_the_buffer() {
    let mut ram = GuestRam::new(REGION).unwrap();
    let (descs, replies) = publish(&mut ram, &[&["abcdef"]], 4);
    let mut device = ram.into_device(QUEUE_SIZE, &descs).unwrap();
    let pass = device.process().unwrap();
    assert_eq!(pass.completions, vec![(0, 4)]);
    assert_eq!(device.read(replies[0], 6).unwrap(), b"ABCD\0\0");
    // The completion stands in the used ring, behind flags and index.
    assert_eq!(device.read(140, 12).unwrap(), [0, 0, 1, 0, 0, 0, 0, 0, 4, 0, 0, 0]);
}

#[test]
fn without_event_idx_every_pass_interrupts() {
    let mut ram = GuestRam::new(REGION).unwrap();
    let (descs, _) = publish(&mut ram, &[&["x"]], 8);
    let mut device = ram.into_device(QUEUE_SIZE, &descs).unwrap();
    device.process().unwrap();
    assert_eq!(device.needs_notification(), Ok(true));
    assert_eq!(device.needs_notification(), Ok(true));
}

#[test]
fn with_event_idx_the_threshold_decides() {
    // The element of the first completion lies over the threshold: its length, here none, is what
    // the device reads there.
    let ram = GuestRam::new(REGION).unwrap();
    let d = Descriptor { addr: ARENA, len: 8, flags: VIRTQ_DESC_F_WRITE, next: 0 };
    let mut device = ram.into_device(QUEUE_SIZE, &vec![d]).unwrap();
    device.set_event_idx(true);
    assert_eq!(device.process().unwrap().completions, vec![(0, 0)]);
    assert_eq!(device.read(148, 2).unwrap(), [0, 0]);
    assert_eq!(device.needs_notification(), Ok(true));
    assert_eq!(device.needs_notification(), Ok(false));

    let mut ram = GuestRam::new(REGION).unwrap();
    let (descs, _) = publish(&mut ram, &[&["x"]], 8);
    let mut device = ram.into_device(QUEUE_SIZE, &descs).unwrap();
    device.set_event_idx(true);
    device.process().unwrap();
    assert_eq!(device.read(148, 2).unwrap(), [1, 0]);
    assert_eq!(device.needs_notification(), Ok(false));
}

#[test]
fn memory_reads_back_what_was_written() {
    let mut ram = GuestRam::new(4096).unwrap();
    assert_eq!(ram.read(0, 4).unwrap(), [0; 4]);
    ram.write(10, b"abc").unwrap();
    assert_eq!(ram.read(9, 5).unwrap(), b"\0abc\0");
    assert_eq!(ram.read(4096, 0).unwrap(), b"");
    assert_eq!(ram.read(9999, 0).unwrap(), b"");
    assert_eq!(ram.read(4096, 1), Err(MappedError::Memory));
    assert_eq!(ram.read(4090, 7), Err(MappedError::Memory));
    assert_eq!(ram.read(u64::MAX, 2), Err(MappedError::Memory));
    // A store that reaches past the end stores what goes in.
    assert_eq!(ram.write(4094, b"xyz"), Err(MappedError::Memory));
    assert_eq!(ram.read(4094, 2).unwrap(), b"xy");
    assert_eq!(ram.write(4096, b"x"), Err(MappedError::Memory));
    assert_eq!(ram.write(5000, b""), Ok(()));
}

#[test]
fn no_memory_cannot_be_mapped() {
    assert!(matches!(GuestRam::new(0), Err(MappedError::Mapping)));
}

#[test]
fn buffers_are_gathered_one_behind_the_other() {
    let mut ram = GuestRam::new(4096).unwrap();
    ram.write(100, b"hello").unwrap();
    ram.write(200, b"world").unwrap();
    let mut request = Vec::new();
    ram.gather(&mut request, 100, 5).unwrap();
    ram.gather(&mut request, 200, 5).unwrap();
    assert_eq!(request, b"helloworld");
    assert_eq!(ram.gather(&mut request, 4095, 5), Err(MappedError::Memory));
    assert_eq!(request, b"helloworld");
    ram.gather(&mut request, 9999, 0).unwrap();
    assert_eq!(request, b"helloworld");
}

#[test]
fn buffers_take_no_more_than_they_hold() {
    let mut ram = GuestRam::new(4096).unwrap();
    let answer = b"0123456789".to_vec();
    assert_eq!(ram.scatter(&answer, 0, 300, 4), Ok(4));
    assert_eq!(ram.scatter(&answer, 4, 400, 4), Ok(4));
    assert_eq!(ram.scatter(&answer, 8, 500, 9), Ok(2));
    assert_eq!(ram.scatter(&answer, 10, 600, 9), Ok(0));
    assert_eq!(ram.read(300, 5).unwrap(), b"0123\0");
    assert_eq!(ram.read(400, 5).unwrap(), b"4567\0");
    assert_eq!(ram.read(500, 3).unwrap(), b"89\0");
    assert_eq!(ram.scatter(&answer, 0, 4090, 16), Err(MappedError::Memory));
    assert_eq!(ram.read(4090, 6).unwrap(), b"012345");
}

#[test]
fn a_chain_is_walked_as_it_is_filled() {
    // The first writable buffer lies over the descriptor of the second, and what is written there
    // is a descriptor.
    let mut ram = GuestRam::new(REGION).unwrap();
    let mut request = vec![0, 1, 0x10, 0, 0, 0, 0, 0, 4, 0, 0, 0, 2, 0, 0, 0];
    request.extend_from_slice(b"WXYZ");
    ram.write(ARENA, &request).unwrap();
    let descs = vec![
        Descriptor { addr: ARENA, len: 20, flags: VIRTQ_DESC_F_NEXT, next: 1 },
        Descriptor { addr: 32, len: 16, flags: VIRTQ_DESC_F_NEXT | VIRTQ_DESC_F_WRITE, next: 2 },
        Descriptor { addr: ARENA + 0x200, len: 4, flags: VIRTQ_DESC_F_WRITE, next: 0 },
    ];
    let mut device = ram.into_device(QUEUE_SIZE, &descs).unwrap();
    let pass = device.process().unwrap();
    assert_eq!(pass.completions, vec![(0, 20)]);
    assert_eq!(pass.descriptors, 3);
    assert_eq!(device.read(ARENA + 0x100, 4).unwrap(), b"WXYZ");
    assert_eq!(device.read(ARENA + 0x200, 4).unwrap(), [0; 4]);
}

#[test]
fn an_indirect_table_is_followed() {
    let mut ram = GuestRam::new(REGION).unwrap();
    ram.write(ARENA, b"abc").unwrap();
    // A table of two descriptors at 0x8000: the request, and the reply.
    let mut table = vec![0, 0, 0x10, 0, 0, 0, 0, 0, 3, 0, 0, 0, 1, 0, 1, 0];
    table.extend_from_slice(&[0, 1, 0x10, 0, 0, 0, 0, 0, 8, 0, 0, 0, 2, 0, 0, 0]);
    ram.write(0x8000, &table).unwrap();
    let d = Descriptor { addr: 0x8000, len: 32, flags: 4, next: 0 };
    let mut device = ram.into_device(QUEUE_SIZE, &vec![d]).unwrap();
    assert_eq!(device.process().unwrap().completions, vec![(0, 3)]);
    assert_eq!(device.read(ARENA + 0x100, 4).unwrap(), b"ABC\0");
}

#[test]
fn the_device_does_as_the_library_s_own_does() {
    let requests: [&[&str]; 3] = [&["hello virtio"], &["scatter ", "gather"], &["third"]];
    let mut ram = GuestRam::new(REGION).unwrap();
    let (descs, replies) = publish(&mut ram, &requests, 64);
    let mut mapped = ram.into_device(QUEUE_SIZE, &descs).unwrap();
    let pass = mapped.process().unwrap();

    let layout = VirtqLayout::new(GuestAddr(0), QUEUE_SIZE);
    let mut mem = SharedMem::new(64 * 1024);
    let mut driver = Driver::new(layout, 64 * 1024, false);
    let mut own = Device::new(layout, false);
    let mut sent = Vec::new();
    for parts in requests {
        let bytes: Vec<Vec<u8>> = parts.iter().map(|p| p.as_bytes().to_vec()).collect();
        sent.push(submit(&mut driver, &mut mem, &bytes, 64).unwrap());
    }
    own.process(&mut mem, to_upper).unwrap();
    assert_eq!(driver.collect_used(&mem).unwrap(), pass.completions);
    for i in 0..3 {
        assert_eq!(
            mapped.read(replies[i], 64).unwrap(),
            mem.read_slice(sent[i].reply, 64).unwrap()
        );
    }
}

#[test]
fn more_descriptors_than_the_table_holds_are_not_published() {
    let d = Descriptor { addr: ARENA, len: 1, flags: 0, next: 0 };
    let ram = GuestRam::new(REGION).unwrap();
    assert!(matches!(ram.into_device(2, &vec![d; 3]), Err(MappedError::Driver)));
    let ram = GuestRam::new(REGION).unwrap();
    assert!(matches!(ram.into_device(3, &vec![d]), Err(MappedError::Driver)));
    let ram = GuestRam::new(REGION).unwrap();
    assert!(matches!(ram.into_device(0, &vec![]), Err(MappedError::Driver)));
    let ram = GuestRam::new(REGION).unwrap();
    assert!(ram.into_device(2, &vec![d; 2]).is_ok());
}

#[test]
fn the_stand_in_for_a_guest_leaves_its_chains_in_memory() {
    let mut ram = GuestRam::new(REGION).unwrap();
    ram.write(120, &[9u8; 200]).unwrap();
    let a = Descriptor { addr: 0x1122_3344_5566_7788, len: 0x99aa_bbcc, flags: VIRTQ_DESC_F_NEXT, next: 1 };
    let b = Descriptor { addr: 2, len: 3, flags: VIRTQ_DESC_F_WRITE, next: 0 };
    let device = ram.into_device(QUEUE_SIZE, &vec![a, b, b, a]).unwrap();
    assert_eq!(
        device.read(0, 16).unwrap(),
        [0x88, 0x77, 0x66, 0x55, 0x44, 0x33, 0x22, 0x11, 0xcc, 0xbb, 0xaa, 0x99, 1, 0, 1, 0]
    );
    assert_eq!(device.read(16, 16).unwrap(), [2, 0, 0, 0, 0, 0, 0, 0, 3, 0, 0, 0, 2, 0, 0, 0]);
    // Three chains, from entries 0, 2 and 3; the used ring starts at 140, inside the avail ring.
    assert_eq!(device.read(128, 12).unwrap(), [0, 0, 3, 0, 0, 0, 2, 0, 3, 0, 9, 9]);
    assert_eq!(device.read(140, 8).unwrap(), [0, 0, 0, 0, 9, 9, 9, 9]);
    assert_eq!(device.read(148, 2).unwrap(), [0, 0]);
    assert_eq!(device.read(160, 2).unwrap(), [0, 0]);
    assert_eq!(device.read(162, 2).unwrap(), [9, 9]);
}

#[test]
fn a_buffer_outside_the_memory_ends_the_pass() {
    let ram = GuestRam::new(REGION).unwrap();
    let d = Descriptor { addr: u64::MAX - 8, len: 64, flags: 0, next: 0 };
    let mut device = ram.into_device(QUEUE_SIZE, &vec![d]).unwrap();
    assert!(matches!(device.process(), Err(MappedError::Memory)));
}

#[test]
fn a_head_outside_the_table_cannot_be_completed() {
    let ram = GuestRam::new(REGION).unwrap();
    let mut device = ram.into_device(QUEUE_SIZE, &vec![]).unwrap();
    assert_eq!(device.complete(8, 5), Err(MappedError::Queue));
    assert_eq!(device.read(142, 2).unwrap(), [0, 0]);
    assert_eq!(device.complete(7, 5), Ok(()));
    assert_eq!(device.read(142, 10).unwrap(), [1, 0, 7, 0, 0, 0, 5, 0, 0, 0]);
}

#[test]
fn letters_and_nothing_else_are_put_into_upper_case() {
    let all: Vec<u8> = (0..=255).collect();
    assert_eq!(to_upper(&all), all.to_ascii_uppercase());
}

#[test]
fn requests_are_laid_out_at_multiples_of_eight() {
    let plan = plan_request(ARENA, &vec![8, 6], 1, 64);
    assert_eq!(
        plan.descs
            .iter()
            .map(|d| (d.addr - ARENA, d.len, d.flags, d.next))
            .collect::<Vec<(u64, u32, u16, u16)>>(),
        vec![
            (0, 8, VIRTQ_DESC_F_NEXT, 2),
            (8, 6, VIRTQ_DESC_F_NEXT, 3),
            (16, 64, VIRTQ_DESC_F_WRITE, 0),
        ]
    );
    assert_eq!((plan.reply, plan.end), (ARENA + 16, ARENA + 80));
}
