use voice_bridge::queue::{AudioQueue, DecodeRequest, Error, TakeStep};
use voice_bridge::window::SlidingWindowMinimum;

/// A stand-in decoder: each stereo sample of a payload carries its first byte,
/// a recovered frame carries -2 and a concealed one -1.
fn fake_decode(req: &DecodeRequest) -> Vec<i16> {
    let v: i16 = match &req.packet {
        Some(_) if req.fec => -2,
        Some(p) => p[0] as i16,
        None => -1,
    };
    vec![v; 2 * req.samples]
}

/// Takes `len` samples, decoding with the stand-in; records each request as
/// (first payload byte or -1, fec).
fn take(q: &mut AudioQueue, len: usize, log: &mut Vec<(i16, bool)>) -> (Vec<i16>, bool) {
    let mut step = q.get_next_data(len);
    loop {
        match step {
            TakeStep::Waiting => return (Vec::new(), false),
            TakeStep::Decode(req) => {
                let first = req.packet.as_ref().map(|p| p[0] as i16).unwrap_or(-1);
                log.push((first, req.fec));
                let v = fake_decode(&req);
                q.complete_decode(Some(v));
                step = q.next_step(len);
            }
            TakeStep::Ready => return (q.finish_take(len, false), false),
            TakeStep::Ended => return (q.finish_take(len, true), true),
        }
    }
}

fn pkt(tag: u8) -> Vec<u8> {
    vec![tag, 0xAA, 0xBB]
}

#[test]
fn wrap_around_insertion() {
    let mut q = AudioQueue::new(65534, pkt(1), Some(1920)).ok().unwrap();
    assert_eq!(q.add_packet(65535, pkt(2), Some(1920)), Ok(()));
    assert_eq!(q.add_packet(0, pkt(3), Some(1920)), Ok(()));
    assert_eq!(q.add_packet(1, pkt(4), Some(1920)), Ok(()));
    assert_eq!(q.queued_sequences(), vec![65534, 65535, 0, 1]);
    let mut log = Vec::new();
    for tag in 1..=4i16 {
        let (pcm, ended) = take(&mut q, 1920 * 2, &mut log);
        assert!(!ended);
        assert_eq!(pcm.len(), 1920 * 2);
        assert!(pcm.iter().all(|s| *s == tag));
    }
    assert_eq!(q.next_sequence(), 2);
    assert_eq!(log, vec![(1, false), (2, false), (3, false), (4, false)]);
}

#[test]
fn out_of_order_insertion_sorts() {
    let mut q = AudioQueue::new(100, pkt(0), Some(960)).ok().unwrap();
    assert_eq!(q.add_packet(104, pkt(4), Some(960)), Ok(()));
    assert_eq!(q.add_packet(102, pkt(2), Some(960)), Ok(()));
    assert_eq!(q.add_packet(101, pkt(1), Some(960)), Ok(()));
    assert_eq!(q.add_packet(103, pkt(3), Some(960)), Ok(()));
    assert_eq!(q.queued_sequences(), vec![100, 101, 102, 103, 104]);
    assert_eq!(q.buffered_samples(), 5 * 960);
}

#[test]
fn duplicate_is_refused_and_changes_nothing() {
    let mut q = AudioQueue::new(10, pkt(10), Some(960)).ok().unwrap();
    assert_eq!(q.add_packet(11, pkt(11), Some(960)), Ok(()));
    let before = (q.queued_sequences(), q.buffered_samples(), q.buffering_samples(), q.next_sequence());
    assert_eq!(q.add_packet(10, pkt(10), Some(960)), Err(Error::Duplicate(10)));
    assert_eq!(q.queued_sequences().len(), 2);
    let after = (q.queued_sequences(), q.buffered_samples(), q.buffering_samples(), q.next_sequence());
    assert_eq!(before, after);
}

#[test]
fn fec_recovery_then_normal_decode() {
    // Expect 51 while 52 is the front: 52 rebuilds 51 and stays queued.
    let mut q = AudioQueue::new(50, pkt(50), Some(960)).ok().unwrap();
    let mut log = Vec::new();
    let (pcm, _) = take(&mut q, 1920, &mut log);
    assert!(pcm.iter().all(|s| *s == 50));
    assert_eq!(q.next_sequence(), 51);
    assert_eq!(q.add_packet(52, pkt(52), Some(960)), Ok(()));
    log.clear();
    let (pcm, ended) = take(&mut q, 1920, &mut log);
    assert!(!ended);
    assert!(pcm.iter().all(|s| *s == -2));
    assert_eq!(log, vec![(52, true)]);
    assert_eq!(q.queued_sequences(), vec![52]);
    assert_eq!(q.next_sequence(), 52);
    log.clear();
    let (pcm, _) = take(&mut q, 1920, &mut log);
    assert!(pcm.iter().all(|s| *s == 52));
    assert_eq!(log, vec![(52, false)]);
    assert_eq!(q.next_sequence(), 53);
}

#[test]
fn gap_of_two_conceals_then_recovers() {
    // Expect 50 with 52 at the front: 50 is concealed, 51 rebuilt from 52, then 52 plays.
    let mut q = AudioQueue::new(49, pkt(49), Some(960)).ok().unwrap();
    let mut log = Vec::new();
    take(&mut q, 1920, &mut log);
    assert_eq!(q.next_sequence(), 50);
    assert_eq!(q.add_packet(52, pkt(52), Some(960)), Ok(()));
    log.clear();
    let (pcm, _) = take(&mut q, 1920 * 3, &mut log);
    assert_eq!(log, vec![(-1, false), (52, true), (52, false)]);
    assert_eq!(pcm.len(), 1920 * 3);
    assert_eq!(q.next_sequence(), 53);
    assert_eq!(q.packet_loss_num(), 0);
}

#[test]
fn end_marker_ends_stream() {
    let mut q = AudioQueue::new(100, vec![0u8], Some(960)).ok().unwrap();
    let mut log = Vec::new();
    let (pcm, ended) = take(&mut q, 1920, &mut log);
    assert!(ended);
    assert!(pcm.len() < 1920);
    assert!(log.is_empty());
}

#[test]
fn errors_on_insert() {
    assert!(matches!(AudioQueue::new(1, pkt(1), None), Err(Error::GetPacketSample)));
    assert!(matches!(AudioQueue::new(1, pkt(1), Some(24001)), Err(Error::TooManySamples)));
    let mut q = AudioQueue::new(1000, pkt(0), Some(960)).ok().unwrap();
    assert_eq!(q.add_packet(1001, pkt(1), None), Err(Error::GetPacketSample));
    assert_eq!(q.add_packet(1001, pkt(1), Some(24001)), Err(Error::TooManySamples));
    assert_eq!(q.add_packet(1051, pkt(1), Some(960)), Err(Error::TooLate { wanted: 1000, got: 1051 }));
    assert_eq!(q.add_packet(999, pkt(1), Some(960)), Err(Error::TooLate { wanted: 1000, got: 999 }));
    assert_eq!(q.add_packet(1050, pkt(1), Some(960)), Ok(()));
    for s in 1001..1049u16 {
        assert_eq!(q.add_packet(s, pkt(1), Some(960)), Ok(()));
    }
    assert_eq!(q.queued_sequences().len(), 50);
    assert_eq!(q.add_packet(1020, pkt(1), Some(960)), Err(Error::QueueFull));
}

#[test]
fn end_marker_needs_no_sample_count() {
    let mut q = AudioQueue::new(5, pkt(5), Some(960)).ok().unwrap();
    assert_eq!(q.add_packet(6, vec![], None), Ok(()));
    assert_eq!(q.buffered_samples(), 960);
}

#[test]
fn prebuffer_counts_down_with_arrivals() {
    let mut q = AudioQueue::new(0, pkt(0), Some(960)).ok().unwrap();
    q.set_buffering_samples(5000);
    // One packet past the back, and one missing before it at 960.
    assert_eq!(q.add_packet(2, pkt(2), Some(960)), Ok(()));
    assert_eq!(q.buffering_samples(), 5000 - 960 - 960);
    // Filling the hole is not past the back.
    assert_eq!(q.add_packet(1, pkt(1), Some(960)), Ok(()));
    assert_eq!(q.buffering_samples(), 5000 - 1920);
}

#[test]
fn prebuffer_gate_and_watchdog() {
    let mut q = AudioQueue::new(0, pkt(7), Some(960)).ok().unwrap();
    q.set_buffering_samples(100_000);
    let mut log = Vec::new();
    for _ in 0..12 {
        let (pcm, ended) = take(&mut q, 1920, &mut log);
        assert!(pcm.is_empty());
        assert!(!ended);
    }
    // 12 * 1920 = 23040 < 24000: still waiting; 13 * 1920 reaches it.
    let (pcm, _) = take(&mut q, 1920, &mut log);
    assert!(pcm.is_empty());
    let (pcm, _) = take(&mut q, 1920, &mut log);
    assert_eq!(pcm.len(), 1920);
    assert!(pcm.iter().all(|s| *s == 7));
    assert_eq!(q.buffering_samples(), 0);
}

#[test]
fn losses_are_counted_and_reset() {
    let mut q = AudioQueue::new(0, pkt(3), Some(960)).ok().unwrap();
    let mut log = Vec::new();
    take(&mut q, 1920, &mut log);
    assert_eq!(q.packet_loss_num(), 0);
    for n in 1..=3usize {
        let (pcm, _) = take(&mut q, 1920, &mut log);
        assert_eq!(pcm.len(), 1920);
        assert!(pcm.iter().all(|s| *s == -1));
        assert_eq!(q.packet_loss_num(), n);
    }
    assert_eq!(q.add_packet(1, pkt(4), Some(960)), Ok(()));
    take(&mut q, 1920, &mut log);
    assert_eq!(q.packet_loss_num(), 0);
}

#[test]
fn failed_decode_gives_silence() {
    let mut q = AudioQueue::new(0, pkt(3), Some(960)).ok().unwrap();
    assert!(q.begin_take(1920));
    match q.next_step(1920) {
        TakeStep::Decode(req) => {
            assert_eq!(req.samples, 960);
            q.complete_decode(None);
        }
        _ => panic!("expected a decode"),
    }
    assert!(matches!(q.next_step(1920), TakeStep::Ready));
    let pcm = q.finish_take(1920, false);
    assert_eq!(pcm, vec![0i16; 1920]);
    assert_eq!(q.packet_loss_num(), 1);
    assert_eq!(q.last_frame_samples(), 960);
}

#[test]
fn oversized_decode_result_gives_silence() {
    let mut q = AudioQueue::new(0, pkt(3), Some(960)).ok().unwrap();
    assert!(q.begin_take(1920));
    assert!(matches!(q.next_step(1920), TakeStep::Decode(_)));
    q.complete_decode(Some(vec![5i16; 1921]));
    assert!(matches!(q.next_step(1920), TakeStep::Ready));
    assert_eq!(q.finish_take(1920, false), vec![0i16; 1920]);
}

#[test]
fn leftover_samples_carry_over() {
    let mut q = AudioQueue::new(0, pkt(1), Some(960)).ok().unwrap();
    assert_eq!(q.add_packet(1, pkt(2), Some(960)), Ok(()));
    let mut log = Vec::new();
    let (a, _) = take(&mut q, 1000, &mut log);
    assert_eq!(a.len(), 1000);
    assert!(a.iter().all(|s| *s == 1));
    let (b, _) = take(&mut q, 1000, &mut log);
    assert_eq!(b.len(), 1000);
    assert!(b[..920].iter().all(|s| *s == 1));
    assert!(b[920..].iter().all(|s| *s == 2));
    assert_eq!(log.len(), 2);
}

#[test]
fn in_order_drain_yields_all_decoded_samples() {
    let mut q = AudioQueue::new(0, pkt(1), Some(960)).ok().unwrap();
    for s in 1..10u16 {
        assert_eq!(q.add_packet(s, pkt(1), Some(960)), Ok(()));
    }
    assert_eq!(q.add_packet(10, vec![0u8], None), Ok(()));
    let mut log = Vec::new();
    let mut total = 0usize;
    loop {
        let (pcm, ended) = take(&mut q, 1000, &mut log);
        total += pcm.len();
        if ended {
            break;
        }
    }
    assert_eq!(total, 10 * 960 * 2);
}

#[test]
fn speed_up_after_window_fills() {
    let mut q = AudioQueue::new(0, pkt(1), Some(960)).ok().unwrap();
    let mut next: u16 = 1;
    for _ in 0..11 {
        assert_eq!(q.add_packet(next, pkt(1), Some(960)), Ok(()));
        next += 1;
    }
    for k in 1..=300usize {
        assert!(q.begin_take(1_000_000));
        match q.next_step(1_000_000) {
            TakeStep::Decode(req) => {
                let v = fake_decode(&req);
                q.complete_decode(Some(v));
            }
            _ => panic!("expected a decode"),
        }
        let frame = q.finish_take(0, true);
        if k >= 255 {
            assert_eq!(frame.len(), 2 * (960 - 960 / 100), "decode {}", k);
        } else {
            assert_eq!(frame.len(), 2 * 960, "decode {}", k);
        }
        assert_eq!(q.min_buffer_size(), if k >= 255 { 10 } else { 0 });
        if k % 2 == 0 {
            for _ in 0..2 {
                assert_eq!(q.add_packet(next, pkt(1), Some(960)), Ok(()));
                next += 1;
            }
        }
    }
}

#[test]
fn truncate_after_window_fills() {
    let mut q = AudioQueue::new(0, pkt(1), Some(960)).ok().unwrap();
    let mut next: u16 = 1;
    for _ in 0..30 {
        assert_eq!(q.add_packet(next, pkt(1), Some(960)), Ok(()));
        next += 1;
    }
    let mut log = Vec::new();
    for _ in 0..256 {
        take(&mut q, 1920, &mut log);
        assert_eq!(q.add_packet(next, pkt(1), Some(960)), Ok(()));
        next += 1;
    }
    assert_eq!(q.min_buffer_size(), 30);
    // A burst: 45 packets queued, the next decode keeps 30 frames' worth.
    while q.queued_sequences().len() < 46 {
        assert_eq!(q.add_packet(next, pkt(1), Some(960)), Ok(()));
        next += 1;
    }
    take(&mut q, 1920, &mut log);
    let ids = q.queued_sequences();
    assert_eq!(ids.len(), 30);
    assert_eq!(ids[29], next - 1);
    assert_eq!(q.next_sequence(), ids[0]);
    assert_eq!(q.buffered_samples(), 30 * 960);
}

#[test]
fn window_tracks_minimum_of_last_values() {
    let mut w = SlidingWindowMinimum::new(3);
    assert_eq!(w.get_min(), 0);
    let values = [5u8, 3, 8, 9, 7, 1, 4, 6, 6, 2];
    let mut seen: Vec<u8> = Vec::new();
    for v in values {
        w.push(v);
        seen.push(v);
        let start = seen.len().saturating_sub(3);
        let expected = *seen[start..].iter().min().unwrap();
        assert_eq!(w.get_min(), expected);
    }
}

#[test]
fn window_of_full_size_wraps_its_clock() {
    let mut w = SlidingWindowMinimum::new(255);
    for i in 0..600usize {
        w.push((i % 251) as u8 + 3);
        let lo = if i + 1 > 255 { i + 1 - 255 } else { 0 };
        let expected = (lo..=i).map(|k| (k % 251) as u8 + 3).min().unwrap();
        assert_eq!(w.get_min(), expected);
    }
}

#[test]
fn window_of_size_zero_is_empty() {
    let mut w = SlidingWindowMinimum::new(0);
    w.push(9);
    assert_eq!(w.get_min(), 0);
}
