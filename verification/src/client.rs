//! The client audio pipeline's ring discipline: two bounded stereo rings
//! bridge the audio-driver callbacks to the network loop. The capture side
//! drops the oldest sample pair when full and writes silence while muted;
//! the playback side pops one sample per slot, silence when empty or
//! deafened; the network side drains whole frames in order. Samples pass
//! through as opaque 32-bit images, as on the server side.

use vstd::prelude::*;

verus! {

/// Pushes one captured stereo pair. When the ring is full the oldest pair
/// makes room first, and a muted microphone contributes silence instead of
/// its samples. A mono capture passes the same image for both sides.
pub fn ring_push_capture(ring: &mut Vec<u32>, cap: usize, left: u32, right: u32, muted: bool)
    requires
        2 <= cap,
        cap % 2 == 0,
        old(ring)@.len() <= cap,
        old(ring)@.len() % 2 == 0,
    ensures
        final(ring)@.len() <= cap,
        final(ring)@.len() % 2 == 0,
        old(ring)@.len() + 2 <= cap ==> final(ring)@ == old(ring)@ + seq![
            (if muted { 0u32 } else { left }),
            (if muted { 0u32 } else { right }),
        ],
        old(ring)@.len() + 2 > cap ==> final(ring)@ == old(ring)@.skip(2) + seq![
            (if muted { 0u32 } else { left }),
            (if muted { 0u32 } else { right }),
        ],
{
    if ring.len() > cap - 2 {
        ring.remove(0);
        ring.remove(0);
        proof {
            assert(ring@ =~= old(ring)@.skip(2));
        }
    }
    let l: u32 = if muted {
        0
    } else {
        left
    };
    let r: u32 = if muted {
        0
    } else {
        right
    };
    ring.push(l);
    ring.push(r);
    proof {
        if old(ring)@.len() + 2 <= cap {
            assert(ring@ =~= old(ring)@ + seq![l, r]);
        } else {
            assert(ring@ =~= old(ring)@.skip(2) + seq![l, r]);
        }
    }
}

/// Pops the next playback sample: silence while deafened (leaving the ring
/// untouched) or when the ring is empty, otherwise the oldest sample.
pub fn ring_pop_or_zero(ring: &mut Vec<u32>, deafened: bool) -> (r: u32)
    ensures
        deafened ==> r == 0 && *final(ring) == *old(ring),
        !deafened && old(ring)@.len() == 0 ==> r == 0 && *final(ring) == *old(ring),
        !deafened && old(ring)@.len() > 0 ==> r == old(ring)@[0] && final(ring)@ == old(
            ring,
        )@.skip(1),
{
    if deafened {
        return 0;
    }
    if ring.len() == 0 {
        return 0;
    }
    let r = ring.remove(0);
    proof {
        assert(ring@ =~= old(ring)@.skip(1));
    }
    r
}

/// Takes one whole frame off the front of the capture ring, exactly when a
/// whole frame is buffered; the samples leave in capture order.
pub fn ring_drain_frame(ring: &mut Vec<u32>, frame_len: usize) -> (r: Option<Vec<u32>>)
    ensures
        r is Some <==> old(ring)@.len() >= frame_len,
        r matches Some(frame) ==> frame@ == old(ring)@.take(frame_len as int) && final(ring)@
            == old(ring)@.skip(frame_len as int),
        r is None ==> *final(ring) == *old(ring),
{
    if ring.len() < frame_len {
        return None;
    }
    let mut frame: Vec<u32> = Vec::new();
    let mut i: usize = 0;
    while i < frame_len
        invariant
            i <= frame_len,
            frame_len <= old(ring)@.len(),
            frame@ == old(ring)@.take(i as int),
            ring@ == old(ring)@.skip(i as int),
        decreases frame_len - i,
    {
        let s = ring.remove(0);
        proof {
            assert(s == old(ring)@[i as int]);
            assert(ring@ =~= old(ring)@.skip(i + 1));
            assert(frame@.push(s) =~= old(ring)@.take(i + 1));
        }
        frame.push(s);
        i = i + 1;
    }
    Some(frame)
}

} // verus!
