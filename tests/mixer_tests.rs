use voice_bridge::mixer::{mix_into, AudioHandler, FillStep};
use voice_bridge::pacer::{clip_frame, encoded_frame, silent_frame, STEREO_20MS};
use voice_bridge::queue::Error;

/// Runs a whole fill pass with a stand-in decoder that plays each payload's
/// first byte and conceals with -1.
fn fill(h: &mut AudioHandler, buf: &mut Vec<i32>) -> Vec<u64> {
    let mut step = h.fill_buffer(buf);
    loop {
        match step {
            FillStep::Decode { id: _, request } => {
                let v: i16 = match &request.packet {
                    Some(p) => p[0] as i16,
                    None => -1,
                };
                step = h.resume_fill(buf, Some(vec![v; 2 * request.samples]));
            }
            FillStep::Finished(removed) => return removed,
        }
    }
}

fn pkt(tag: u8) -> Vec<u8> {
    vec![tag, 0x11]
}

#[test]
fn new_speakers_are_reported() {
    let mut h = AudioHandler::new();
    assert_eq!(h.handle_packet(7, 0, pkt(1), Some(960)), Ok(Some(7)));
    assert_eq!(h.handle_packet(7, 1, pkt(1), Some(960)), Ok(None));
    assert_eq!(h.handle_packet(7, 1, pkt(1), Some(960)), Err(Error::Duplicate(1)));
    assert_eq!(h.handle_packet(8, 0, pkt(1), None), Err(Error::GetPacketSample));
    assert_eq!(h.handle_packet(8, 0, pkt(1), Some(960)), Ok(Some(8)));
}

#[test]
fn fill_sums_speakers() {
    let mut h = AudioHandler::new();
    assert_eq!(h.handle_packet(1, 0, pkt(10), Some(960)), Ok(Some(1)));
    assert_eq!(h.handle_packet(2, 0, pkt(20), Some(960)), Ok(Some(2)));
    let mut buf = vec![5i32; 1920];
    let removed = fill(&mut h, &mut buf);
    assert!(removed.is_empty());
    // The second speaker's queue waits for the average prebuffer first.
    assert!(buf.iter().all(|s| *s == 15));
}

#[test]
fn lost_speaker_is_removed_by_next_fill() {
    let mut h = AudioHandler::new();
    assert_eq!(h.handle_packet(3, 0, pkt(9), Some(960)), Ok(Some(3)));
    let mut buf = vec![0i32; 1920];
    assert!(fill(&mut h, &mut buf).is_empty());
    assert!(buf.iter().all(|s| *s == 9));
    for _ in 0..3 {
        let mut buf = vec![0i32; 1920];
        assert!(fill(&mut h, &mut buf).is_empty());
        assert!(buf.iter().all(|s| *s == -1));
    }
    let mut buf = vec![0i32; 1920];
    assert_eq!(fill(&mut h, &mut buf), vec![3]);
    assert!(buf.iter().all(|s| *s == 0));
    // A returning speaker gets a fresh queue.
    assert_eq!(h.handle_packet(3, 40, pkt(9), Some(960)), Ok(Some(3)));
}

#[test]
fn ended_speaker_is_removed() {
    let mut h = AudioHandler::new();
    assert_eq!(h.handle_packet(4, 0, pkt(2), Some(960)), Ok(Some(4)));
    assert_eq!(h.handle_packet(4, 1, vec![0u8], None), Ok(None));
    let mut buf = vec![0i32; 1920];
    assert!(fill(&mut h, &mut buf).is_empty());
    let mut buf = vec![0i32; 1920];
    assert_eq!(fill(&mut h, &mut buf), vec![4]);
}

#[test]
fn new_queue_prebuffer_is_frame_plus_mean_minimum() {
    let mut h = AudioHandler::new();
    assert_eq!(h.avg_buffer_samples(), 0);
    assert_eq!(h.handle_packet(1, 0, pkt(1), Some(960)), Ok(Some(1)));
    assert_eq!(h.avg_buffer_samples(), 0);
    assert_eq!(h.handle_packet(2, 0, pkt(1), Some(960)), Ok(Some(2)));
    assert_eq!(h.avg_buffer_samples(), 960);
}

#[test]
fn volume_applies_to_new_queues() {
    let mut h = AudioHandler::new();
    h.set_volume(50);
    assert_eq!(h.handle_packet(1, 0, pkt(10), Some(960)), Ok(Some(1)));
    let mut buf = vec![0i32; 1920];
    fill(&mut h, &mut buf);
    assert!(buf.iter().all(|s| *s == 5));
}

#[test]
fn ended_speaker_still_mixes_what_it_had() {
    let mut h = AudioHandler::new();
    assert_eq!(h.handle_packet(4, 0, pkt(2), Some(960)), Ok(Some(4)));
    assert_eq!(h.handle_packet(4, 1, vec![0u8], None), Ok(None));
    let mut buf = vec![0i32; 1000];
    assert!(fill(&mut h, &mut buf).is_empty());
    assert!(buf.iter().all(|s| *s == 2));
    let mut buf = vec![0i32; 1000];
    assert_eq!(fill(&mut h, &mut buf), vec![4]);
    assert!(buf[..920].iter().all(|s| *s == 2));
    assert!(buf[920..].iter().all(|s| *s == 0));
}

#[test]
fn reset_drops_all_queues() {
    let mut h = AudioHandler::new();
    assert_eq!(h.handle_packet(1, 0, pkt(1), Some(960)), Ok(Some(1)));
    h.reset();
    assert_eq!(h.handle_packet(1, 0, pkt(1), Some(960)), Ok(Some(1)));
}

#[test]
fn mixing_scales_and_clamps() {
    let mut buf = vec![0i32, 10, i32::MAX - 1, i32::MIN + 1, 7];
    mix_into(&mut buf, &vec![100i16, -101, 32767, -32768], 150);
    assert_eq!(buf, vec![150, 10 - 151, i32::MAX, i32::MIN, 7]);
    let mut buf = vec![0i32; 2];
    mix_into(&mut buf, &vec![3i16, -3], 50);
    assert_eq!(buf, vec![1, -1]);
}

#[test]
fn pacer_frame_is_clipped() {
    let f = silent_frame();
    assert_eq!(f.len(), STEREO_20MS);
    assert!(f.iter().all(|s| *s == 0));
    assert_eq!(clip_frame(&vec![40000, -40000, 12, -12]), vec![32767i16, -32768, 12, -12]);
    assert_eq!(encoded_frame(vec![1u8; 1275], 3), Some(vec![1u8; 3]));
    assert_eq!(encoded_frame(vec![1u8; 1275], 1276), None);
}
