//! Tests of the ring layout and of the shared memory.

use systems_study::virtq::layout::{
    need_event, VirtqLayout, AVAIL_ALIGN, DESC_ALIGN, DESC_SIZE, USED_ALIGN,
};
use systems_study::virtq::mem::{GuestAddr, MemError, SharedMem};

#[test]
fn layout_alignment_is_satisfied() {
    for qs in [1u16, 2, 8, 256, 32768] {
        let l = VirtqLayout::new(GuestAddr(3), qs); // deliberately misaligned base
        assert_eq!(l.desc_table.0 % DESC_ALIGN, 0);
        assert_eq!(l.avail_ring.0 % AVAIL_ALIGN, 0);
        assert_eq!(l.used_ring.0 % USED_ALIGN, 0);
    }
}

#[test]
fn rings_do_not_overlap() {
    let l = VirtqLayout::new(GuestAddr(0), 8);
    assert!(l.desc_table.0 + DESC_SIZE * 8 <= l.avail_ring.0);
    assert!(l.used_event().0 + 2 <= l.used_ring.0);
    assert!(l.avail_event().0 + 2 <= l.end().0);
}

#[test]
fn ring_slots_wrap_at_queue_size_not_at_the_counter() {
    let l = VirtqLayout::new(GuestAddr(0), 8);
    assert_eq!(l.avail_slot(0), l.avail_slot(8));
    assert_eq!(l.avail_slot(3), l.avail_slot(11));
}

#[test]
fn need_event_fires_exactly_once_on_crossing() {
    // The driver asked to be told when the counter reaches 5 (i.e. event = 4).
    assert!(!need_event(4, 4, 3), "not there yet");
    assert!(need_event(4, 5, 4), "crossed");
    assert!(!need_event(4, 6, 5), "already told");
}

#[test]
fn need_event_is_correct_across_the_16_bit_wrap() {
    // This is the case a naive `new > event` comparison gets wrong, and it happens once every
    // 65,536 operations - often enough to be a real bug, rare enough to survive testing.
    assert!(need_event(0xffff, 0x0000, 0xffff), "wrapped past the event value");
    assert!(!need_event(0x0002, 0x0001, 0x0000), "event is still ahead of us");
}

#[test]
fn need_event_handles_a_batch_stepping_over_the_target() {
    // Six completions added between two checks, with the target in the middle. The simple
    // `idx == event + 1` rule would miss this entirely; the inequality catches it.
    assert!(need_event(100, 106, 100));
}

#[test]
fn addresses_of_a_small_queue() {
    let l = VirtqLayout::new(GuestAddr(0), 8);
    assert_eq!(l.desc_table, GuestAddr(0));
    assert_eq!(l.avail_ring, GuestAddr(128));
    assert_eq!(l.used_ring, GuestAddr(152));
    assert_eq!(l.total_size(), 222);
    assert_eq!(l.end(), GuestAddr(222));
    assert_eq!(l.desc(7), Some(GuestAddr(112)));
    assert_eq!(l.desc(8), None);
    assert_eq!(l.avail_flags(), GuestAddr(128));
    assert_eq!(l.avail_idx(), GuestAddr(130));
    assert_eq!(l.avail_slot(9), GuestAddr(134));
    assert_eq!(l.used_event(), GuestAddr(148));
    assert_eq!(l.used_flags(), GuestAddr(152));
    assert_eq!(l.used_idx(), GuestAddr(154));
    assert_eq!(l.used_slot(9), (GuestAddr(164), GuestAddr(168)));
    assert_eq!(l.avail_event(), GuestAddr(220));
}

#[test]
fn splitting_a_stretch_fires_exactly_once() {
    for event in [0u16, 5, 9, 0xfffe, 0xffff] {
        for old in [0u16, 4, 0xfff0] {
            for a in [0u16, 1, 7, 30] {
                for b in [0u16, 1, 7, 30] {
                    let mid = old.wrapping_add(a);
                    let new = mid.wrapping_add(b);
                    let whole = need_event(event, new, old);
                    let first = need_event(event, mid, old);
                    let second = need_event(event, new, mid);
                    assert_eq!(whole, first || second);
                    assert!(!(first && second));
                }
            }
        }
    }
}

#[test]
fn out_of_bounds_is_refused() {
    let m = SharedMem::new(64);
    assert!(m.read_u32(GuestAddr(60)).is_ok());
    assert!(m.read_u32(GuestAddr(61)).is_err());
    assert!(m.read_slice(GuestAddr(0), 65).is_err());
}

#[test]
fn address_overflow_does_not_wrap_into_a_pass() {
    // The check that matters most. `addr + len` overflowing u64 would produce a small `end`
    // that compares fine against the region length, turning a wild access into an accepted one.
    let m = SharedMem::new(64);
    assert!(m.read_slice(GuestAddr(u64::MAX - 1), 8).is_err());
}

#[test]
fn little_endian_on_the_wire() {
    let mut m = SharedMem::new(16);
    m.write_u32(GuestAddr(0), 0x1234_5678).unwrap();
    assert_eq!(m.read_slice(GuestAddr(0), 4).unwrap(), &[0x78, 0x56, 0x34, 0x12]);
}

#[test]
fn a_refused_access_says_what_it_wanted() {
    let mut m = SharedMem::new(64);
    assert_eq!(
        m.read_u16(GuestAddr(63)),
        Err(MemError::OutOfBounds { addr: 63, len: 2, region_len: 64 })
    );
    assert_eq!(
        m.write_slice(GuestAddr(62), &[1, 2, 3]),
        Err(MemError::OutOfBounds { addr: 62, len: 3, region_len: 64 })
    );
    assert_eq!(m.read_slice(GuestAddr(60), 4).unwrap(), &[0, 0, 0, 0]);
}

#[test]
fn fields_read_back_and_leave_the_rest() {
    let mut m = SharedMem::new(32);
    assert_eq!(m.len(), 32);
    assert!(!m.is_empty());
    assert!(SharedMem::new(0).is_empty());
    m.write_u16(GuestAddr(3), 0xbeef).unwrap();
    m.write_u32(GuestAddr(8), 0xdead_c0de).unwrap();
    m.write_slice(GuestAddr(16), &0x0123_4567_89ab_cdefu64.to_le_bytes()).unwrap();
    assert_eq!(m.read_u16(GuestAddr(3)), Ok(0xbeef));
    assert_eq!(m.read_u32(GuestAddr(8)), Ok(0xdead_c0de));
    assert_eq!(m.read_u64(GuestAddr(16)), Ok(0x0123_4567_89ab_cdef));
    assert_eq!(m.read_slice(GuestAddr(0), 3).unwrap(), &[0, 0, 0]);
    assert_eq!(m.read_slice(GuestAddr(5), 3).unwrap(), &[0, 0, 0]);
    m.store_idx_release(GuestAddr(30), 0x0102).unwrap();
    assert_eq!(m.load_idx_acquire(GuestAddr(30)), Ok(0x0102));
    assert_eq!(m.load_relaxed(GuestAddr(30)), Ok(0x0102));
}

#[test]
fn checked_addition_stops_at_the_top() {
    assert_eq!(GuestAddr(u64::MAX).checked_add(1), None);
    assert_eq!(GuestAddr(u64::MAX - 1).checked_add(1), Some(GuestAddr(u64::MAX)));
}
