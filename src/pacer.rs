//! The paced sender's frame: 20 ms of mixed audio, clipped for the encoder.
use vstd::prelude::*;

verus! {

/// Interleaved stereo samples in one 20 ms frame at 48 kHz.
pub const STEREO_20MS: usize = 1920;
/// The largest Opus frame, in bytes.
pub const MAX_OPUS_FRAME_SIZE: usize = 1275;

/// `v` clamped to the range of `i16`.
pub open spec fn clip(v: i32) -> i16 {
    if v > i16::MAX {
        i16::MAX
    } else if v < i16::MIN {
        i16::MIN
    } else {
        v as i16
    }
}

/// The mixed samples clamped to 16 bits, ready for the encoder.
pub fn clip_frame(mixed: &Vec<i32>) -> (r: Vec<i16>)
    ensures
        r@.len() == mixed@.len(),
        forall|i: int| 0 <= i < mixed@.len() ==> #[trigger] r@[i] == clip(mixed@[i]),
{
    let mut r: Vec<i16> = Vec::new();
    let mut i: usize = 0;
    while i < mixed.len()
        invariant
            i <= mixed@.len(),
            r@.len() == i,
            forall|j: int| 0 <= j < i ==> #[trigger] r@[j] == clip(mixed@[j]),
        decreases mixed@.len() - i,
    {
        let v = mixed[i];
        let c: i16 = if v > i16::MAX as i32 {
            i16::MAX
        } else if v < i16::MIN as i32 {
            i16::MIN
        } else {
            v as i16
        };
        r.push(c);
        i = i + 1;
    }
    r
}

/// A silent frame to mix into.
pub fn silent_frame() -> (r: Vec<i32>)
    ensures
        r@.len() == STEREO_20MS,
        forall|i: int| 0 <= i < STEREO_20MS ==> #[trigger] r@[i] == 0,
{
    let mut r: Vec<i32> = Vec::new();
    let mut i: usize = 0;
    while i < STEREO_20MS
        invariant
            i <= STEREO_20MS,
            r@.len() == i,
            forall|j: int| 0 <= j < i ==> #[trigger] r@[j] == 0,
        decreases STEREO_20MS - i,
    {
        r.push(0);
        i = i + 1;
    }
    r
}

/// The encoder wrote `written` bytes into a buffer of `MAX_OPUS_FRAME_SIZE`:
/// the frame to send, or `None` where the count cannot be right.
pub fn encoded_frame(buf: Vec<u8>, written: usize) -> (r: Option<Vec<u8>>)
    ensures
        (written <= buf@.len() && written <= MAX_OPUS_FRAME_SIZE) ==> (r matches Some(f) && f@ == buf@.subrange(0, written as int)),
        !(written <= buf@.len() && written <= MAX_OPUS_FRAME_SIZE) ==> r is None,
{
    if written <= buf.len() && written <= MAX_OPUS_FRAME_SIZE {
        let mut b = buf;
        b.truncate(written);
        Some(b)
    } else {
        None
    }
}

} // verus!
