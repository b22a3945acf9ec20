use udp_capture::{
    check_recv_buffer, count, drop_marker, is_power_of_two, Capture, Error, PayloadRecycle,
    Placement,
};

const P: usize = 16;
const B: usize = 4;
const K: usize = 4;

fn payload(c: u64) -> Vec<u8> {
    let mut p = vec![0xAAu8; P];
    p[0..8].copy_from_slice(&c.to_be_bytes());
    p
}

fn payloads(counts: &[u64]) -> Vec<Vec<u8>> {
    counts.iter().map(|&c| payload(c)).collect()
}

fn block() -> Vec<Vec<u8>> {
    PayloadRecycle::new(P, B).new_element()
}

fn counts_of(block: &[Vec<u8>]) -> Vec<u64> {
    block.iter().map(|p| count(p)).collect()
}

fn is_marker(p: &[u8], c: u64) -> bool {
    p[0..8] == c.to_be_bytes() && p[8..].iter().all(|&b| b == 0)
}

#[test]
fn in_order_no_loss() {
    let mut cap = Capture::new(P, B, K).unwrap();
    let mut slot = block();
    cap.capture_next_block(&mut slot, &payloads(&[0, 1, 2, 3])).unwrap();
    assert_eq!(counts_of(&slot), vec![0, 1, 2, 3]);
    assert_eq!(slot[2], payload(2));
    cap.capture_next_block(&mut slot, &payloads(&[4, 5, 6, 7])).unwrap();
    assert_eq!(counts_of(&slot), vec![4, 5, 6, 7]);
    assert_eq!(cap.drops(), 0);
    assert_eq!(cap.processed(), 8);
}

#[test]
fn bounded_reorder() {
    let mut cap = Capture::new(P, B, K).unwrap();
    let mut slot = block();
    cap.capture_next_block(&mut slot, &payloads(&[0, 2, 1, 3])).unwrap();
    assert_eq!(counts_of(&slot), vec![0, 1, 2, 3]);
    assert_eq!(slot[1], payload(1));
    assert_eq!(slot[2], payload(2));
    cap.capture_next_block(&mut slot, &payloads(&[4, 5, 6, 7])).unwrap();
    assert_eq!(counts_of(&slot), vec![4, 5, 6, 7]);
    assert_eq!(cap.drops(), 0);
    assert_eq!(cap.processed(), 8);
}

#[test]
fn lost_packet() {
    // Four payloads per block, as they come off the wire: 0, 1, 3, 4 | 5, 6, 7.
    let mut cap = Capture::new(P, B, K).unwrap();
    let mut slot = block();
    cap.capture_next_block(&mut slot, &payloads(&[0, 1, 3, 4])).unwrap();
    assert_eq!(counts_of(&slot), vec![0, 1, 2, 3]);
    assert_eq!(slot[0], payload(0));
    assert_eq!(slot[1], payload(1));
    assert_eq!(slot[3], payload(3));
    let mut marker = vec![0u8; P];
    marker[7] = 2;
    assert_eq!(slot[2], marker);
    assert_eq!(cap.drops(), 1);
    let mut next = block();
    for c in [5u64, 6, 7] {
        assert!(matches!(cap.sort_payload(&mut next, &payload(c)), Ok(Placement::Slot(_))));
    }
    assert_eq!(cap.drops(), 1);
    assert_eq!(cap.processed(), 6);
    assert_eq!(cap.backlog_len(), 1);
    cap.finish_block(&mut next).unwrap();
    assert_eq!(counts_of(&next), vec![4, 5, 6, 7]);
    assert_eq!(next[0], payload(4));
    assert_eq!(cap.processed(), 7);
}

#[test]
fn past_packet_after_window_advance() {
    let mut cap = Capture::new(P, B, K).unwrap();
    let mut slot = block();
    cap.capture_next_block(&mut slot, &payloads(&[0, 1, 2, 3])).unwrap();
    cap.capture_next_block(&mut slot, &payloads(&[4, 0, 5, 6, 7])).unwrap();
    assert_eq!(counts_of(&slot), vec![4, 5, 6, 7]);
    assert!(slot.iter().zip(4u64..).all(|(p, c)| *p == payload(c)));
    assert_eq!(cap.drops(), 1);
    assert_eq!(cap.processed(), 8);
}

#[test]
fn far_future_packet_within_backlog() {
    let mut cap = Capture::new(P, B, K).unwrap();
    let mut slot = block();
    cap.capture_next_block(&mut slot, &payloads(&[0, 1, 2, 3])).unwrap();
    cap.capture_next_block(&mut slot, &payloads(&[9, 4, 5, 6])).unwrap();
    assert_eq!(counts_of(&slot), vec![4, 5, 6, 7]);
    assert!(is_marker(&slot[3], 7));
    assert_eq!(cap.backlog_len(), 1);
    let mut third = block();
    assert_eq!(cap.sort_payload(&mut third, &payload(7)), Ok(Placement::Past));
    assert_eq!(cap.sort_payload(&mut third, &payload(8)), Ok(Placement::Slot(0)));
    assert_eq!(cap.drops(), 2);
    assert_eq!(cap.processed(), 8);
    cap.finish_block(&mut third).unwrap();
    assert_eq!(third[0], payload(8));
    assert_eq!(third[1], payload(9));
    assert_eq!(counts_of(&third), vec![8, 9, 10, 11]);
    assert_eq!(cap.processed(), 9);
    assert_eq!(cap.drops(), 4);
    assert_eq!(cap.backlog_len(), 0);
}

#[test]
fn backlog_overflow() {
    let mut cap = Capture::new(P, B, 2).unwrap();
    let mut slot = block();
    assert_eq!(cap.sort_payload(&mut slot, &payload(0)), Ok(Placement::Slot(0)));
    assert_eq!(cap.sort_payload(&mut slot, &payload(100)), Ok(Placement::Future));
    assert_eq!(cap.sort_payload(&mut slot, &payload(101)), Ok(Placement::Future));
    assert_eq!(
        cap.sort_payload(&mut slot, &payload(102)),
        Err(Error::BacklogOverflow { count: 102, capacity: 2 })
    );
    assert_eq!(cap.backlog_len(), 2);
}

#[test]
fn backlog_overflow_in_block() {
    let mut cap = Capture::new(P, B, 2).unwrap();
    let mut slot = block();
    assert_eq!(
        cap.capture_next_block(&mut slot, &payloads(&[0, 100, 101, 102])),
        Err(Error::BacklogOverflow { count: 102, capacity: 2 })
    );
}

#[test]
fn known_future_count_does_not_overflow_backlog() {
    let mut cap = Capture::new(P, B, 1).unwrap();
    let mut slot = block();
    cap.sort_payload(&mut slot, &payload(0)).unwrap();
    assert_eq!(cap.sort_payload(&mut slot, &payload(50)), Ok(Placement::Future));
    assert_eq!(cap.sort_payload(&mut slot, &payload(50)), Ok(Placement::Future));
    assert_eq!(cap.backlog_len(), 1);
}

#[test]
fn unused_backlog_entries_leave_with_their_block() {
    let mut cap = Capture::new(P, B, 1).unwrap();
    let mut slot = block();
    cap.capture_next_block(&mut slot, &payloads(&[0, 5, 1, 2, 3])).unwrap();
    assert_eq!(cap.backlog_len(), 1);
    // A second copy of 5 arrives in its own window: the backlog copy is never used.
    cap.capture_next_block(&mut slot, &payloads(&[4, 5, 6, 7])).unwrap();
    assert_eq!(slot[1], payload(5));
    assert_eq!(cap.backlog_len(), 0);
    assert_eq!(cap.sort_payload(&mut slot, &payload(20)), Ok(Placement::Future));
}

#[test]
fn every_slot_carries_its_count() {
    let mut cap = Capture::new(P, 8, 8).unwrap();
    let mut slot = PayloadRecycle::new(P, 8).new_element();
    cap.capture_next_block(&mut slot, &payloads(&[10, 12, 11, 17, 20, 14])).unwrap();
    assert_eq!(counts_of(&slot), (10u64..18).collect::<Vec<_>>());
    for (i, c) in (10u64..18).enumerate() {
        let live = [10u64, 11, 12, 14, 17].contains(&c);
        assert_eq!(slot[i] == payload(c), live);
        assert_eq!(is_marker(&slot[i], c), !live);
    }
    cap.capture_next_block(&mut slot, &payloads(&[18, 19, 21])).unwrap();
    assert_eq!(counts_of(&slot), (18u64..26).collect::<Vec<_>>());
    assert_eq!(slot[2], payload(20));
}

#[test]
fn block_base_moves_by_block_size() {
    let mut cap = Capture::new(P, B, K).unwrap();
    let mut slot = block();
    assert_eq!(cap.block_base(), 0);
    cap.capture_next_block(&mut slot, &payloads(&[1000, 1001])).unwrap();
    assert_eq!(cap.block_base(), 1004);
    cap.capture_next_block(&mut slot, &payloads(&[])).unwrap();
    assert_eq!(cap.block_base(), 1008);
    assert_eq!(counts_of(&slot), vec![1004, 1005, 1006, 1007]);
    cap.capture_next_block(&mut slot, &payloads(&[1013, 1009])).unwrap();
    assert_eq!(cap.block_base(), 1012);
    assert_eq!(counts_of(&slot), vec![1008, 1009, 1010, 1011]);
}

#[test]
fn drops_and_processed_cover_every_slot() {
    let mut cap = Capture::new(P, B, K).unwrap();
    let mut slot = block();
    let blocks: [&[u64]; 4] = [&[0, 2, 3], &[5, 9, 4], &[], &[12, 15, 13]];
    for (k, counts) in blocks.iter().enumerate() {
        cap.capture_next_block(&mut slot, &payloads(counts)).unwrap();
        assert_eq!(cap.drops() + cap.processed(), 4 * (k as u64 + 1));
    }
    assert_eq!(cap.processed(), 9);
    assert_eq!(cap.drops(), 7);
}

#[test]
fn late_and_repeated_payloads_are_counted() {
    let mut cap = Capture::new(P, B, K).unwrap();
    let mut slot = block();
    cap.capture_next_block(&mut slot, &payloads(&[4, 5, 5, 6, 7])).unwrap();
    assert_eq!(cap.processed(), 5);
    assert_eq!(cap.drops(), 0);
    cap.capture_next_block(&mut slot, &payloads(&[8, 1, 9, 10, 11])).unwrap();
    assert_eq!(cap.processed(), 9);
    assert_eq!(cap.drops(), 1);
}

#[test]
fn fill_gaps_twice_changes_nothing() {
    let mut cap = Capture::new(P, B, K).unwrap();
    let mut slot = block();
    cap.sort_payload(&mut slot, &payload(0)).unwrap();
    cap.sort_payload(&mut slot, &payload(6)).unwrap();
    cap.sort_payload(&mut slot, &payload(3)).unwrap();
    assert_eq!(cap.pending(), 2);
    cap.fill_gaps(&mut slot);
    assert_eq!(cap.pending(), 0);
    let first = slot.clone();
    let (d, p, b) = (cap.drops(), cap.processed(), cap.backlog_len());
    assert_eq!((d, p, b), (2, 2, 1));
    cap.fill_gaps(&mut slot);
    assert_eq!(slot, first);
    assert_eq!((cap.drops(), cap.processed(), cap.backlog_len()), (d, p, b));
    assert_eq!(cap.block_base(), 0);
}

#[test]
fn drop_marker_round_trip() {
    for c in [0u64, 2, 255, 256, 0x0102_0304_0506_0708, u64::MAX] {
        let m = drop_marker(c, P);
        assert_eq!(m.len(), P);
        assert_eq!(count(&m), c);
        assert!(is_marker(&m, c));
    }
    assert_eq!(drop_marker(2, 8), vec![0, 0, 0, 0, 0, 0, 0, 2]);
}

#[test]
fn count_reads_big_endian() {
    assert_eq!(count(&[0, 0, 0, 0, 0, 0, 1, 2, 9, 9]), 258);
    assert_eq!(count(&[1, 2, 3, 4, 5, 6, 7, 8]), 0x0102_0304_0506_0708);
    assert_eq!(count(&[0xff; 8]), u64::MAX);
}

#[test]
fn wrong_size_payloads_are_skipped() {
    let mut cap = Capture::new(P, B, K).unwrap();
    let mut slot = block();
    assert_eq!(cap.capture(P), Ok(()));
    assert_eq!(cap.capture(P - 1), Err(Error::SizeMismatch(P - 1)));
    let short = vec![0u8; 10];
    assert_eq!(cap.sort_payload(&mut slot, &short), Err(Error::SizeMismatch(10)));
    assert_eq!(cap.drops() + cap.processed(), 0);
    let mut ds = payloads(&[0, 1]);
    ds.insert(1, vec![0u8; P + 1]);
    ds.push(payload(2));
    ds.push(payload(3));
    cap.capture_next_block(&mut slot, &ds).unwrap();
    assert_eq!(counts_of(&slot), vec![0, 1, 2, 3]);
    assert_eq!(cap.processed(), 4);
    assert_eq!(cap.drops(), 0);
}

#[test]
fn first_payload_sets_block_base() {
    let mut cap = Capture::new(P, B, K).unwrap();
    let mut slot = block();
    assert_eq!(cap.sort_payload(&mut slot, &payload(42)), Ok(Placement::Slot(0)));
    assert_eq!(cap.block_base(), 42);
    assert_eq!(cap.sort_payload(&mut slot, &payload(41)), Ok(Placement::Past));
    assert_eq!(cap.sort_payload(&mut slot, &payload(45)), Ok(Placement::Slot(3)));
    assert_eq!(cap.sort_payload(&mut slot, &payload(46)), Ok(Placement::Future));
}

#[test]
fn invalid_configuration() {
    assert_eq!(Capture::new(P, 3, K).err(), Some(Error::InvalidBlockSize(3)));
    assert_eq!(Capture::new(P, 0, K).err(), Some(Error::InvalidBlockSize(0)));
    assert_eq!(Capture::new(7, B, K).err(), Some(Error::InvalidPayloadSize(7)));
    let cap = Capture::new(8200, 32768, 1024).unwrap();
    assert_eq!(cap.block_size(), 32768);
    assert_eq!(cap.payload_size(), 8200);
    assert_eq!(cap.pending(), 32768);
}

#[test]
fn power_of_two_check() {
    assert!(is_power_of_two(1));
    assert!(is_power_of_two(4));
    assert!(is_power_of_two(1 << 15));
    assert!(!is_power_of_two(0));
    assert!(!is_power_of_two(6));
    assert!(!is_power_of_two(usize::MAX));
}

#[test]
fn count_near_the_top_is_refused() {
    let mut cap = Capture::new(P, B, K).unwrap();
    let mut slot = block();
    assert_eq!(
        cap.sort_payload(&mut slot, &payload(u64::MAX - 2)),
        Err(Error::CountOverflow(u64::MAX - 2))
    );
    let mut cap = Capture::new(P, B, K).unwrap();
    let base = u64::MAX - 7;
    cap.sort_payload(&mut slot, &payload(base)).unwrap();
    assert_eq!(
        cap.finish_block(&mut slot),
        Err(Error::CountOverflow(base + 4))
    );
    assert_eq!(counts_of(&slot), vec![base, base + 1, base + 2, base + 3]);
}

#[test]
fn recv_buffer_check() {
    let req = 256 * 1024 * 1024;
    assert_eq!(check_recv_buffer(req, 2 * req), Ok(()));
    assert_eq!(
        check_recv_buffer(req, req),
        Err(Error::SetRecvBufferFailed { expected: 2 * req, found: req })
    );
}

#[test]
fn recycled_blocks() {
    let r = PayloadRecycle::new(P, B);
    let mut b = r.new_element();
    assert_eq!(b.len(), B);
    assert!(b.iter().all(|p| p.len() == P && p.iter().all(|&x| x == 0)));
    b[1][3] = 7;
    let before = b.clone();
    r.recycle(&mut b);
    assert_eq!(b, before);
}

#[test]
fn slot_fits_capture() {
    let mut cap = Capture::new(P, B, K).unwrap();
    let mut slot = block();
    assert!(cap.fits(&slot));
    assert!(!cap.fits(&PayloadRecycle::new(P, 2 * B).new_element()));
    assert!(!cap.fits(&PayloadRecycle::new(P + 1, B).new_element()));
    cap.sort_payload(&mut slot, &payload(5)).unwrap();
    assert!(cap.fits(&slot));
    assert!(!cap.fits(&block()));
}

#[test]
fn shuffled_blocks_come_out_ordered() {
    let block_size = 8usize;
    let mut state: u64 = 0x9E37_79B9_7F4A_7C15;
    let mut next = || {
        state = state
            .wrapping_mul(6364136223846793005)
            .wrapping_add(1442695040888963407);
        (state >> 33) as usize
    };
    let mut cap = Capture::new(P, block_size, 8).unwrap();
    let mut slot = PayloadRecycle::new(P, block_size).new_element();
    for b in 0..32u64 {
        let mut counts: Vec<u64> = (b * 8..b * 8 + 8).collect();
        // The first payload fixes the block base, so the first block comes in order.
        for i in (1..counts.len()).rev().filter(|_| b > 0) {
            counts.swap(i, next() % (i + 1));
        }
        cap.capture_next_block(&mut slot, &payloads(&counts)).unwrap();
        assert_eq!(counts_of(&slot), (b * 8..b * 8 + 8).collect::<Vec<_>>());
        assert!(slot.iter().zip(b * 8..).all(|(p, c)| *p == payload(c)));
        assert_eq!(cap.block_base(), b * 8 + 8);
    }
    assert_eq!(cap.drops(), 0);
    assert_eq!(cap.processed(), 256);
    assert_eq!(cap.backlog_len(), 0);
}
