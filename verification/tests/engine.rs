use audi8::error::InsufficientInputError;
use audi8::time_scaler::TimeScaler;

/// Fixed-point Hann window of length `n` (even): coefficient `i` is the
/// nearest multiple of 1/32768 of 0.5 * (1 - cos(2*pi*i/n)), built so that
/// coefficients half a window apart sum to exactly 32768.
fn hann_q15(n: usize) -> Vec<i64> {
    let half = n / 2;
    let mut w = vec![0i64; n];
    for i in 0..half {
        let x = std::f64::consts::PI * 2.0 * (i as f64) / (n as f64);
        let c = (16384.0 * x.cos()).round() as i64;
        w[i] = 16384 - c;
        w[i + half] = 16384 + c;
    }
    w
}

fn ramp(n: usize) -> Vec<i16> {
    (0..n).map(|i| ((i as i64 * 37 % 20000) - 10000) as i16).collect()
}

#[test]
fn identity_stretch_mono() {
    // scaling factor 1.0: synth_hop == hop; settled output equals input
    // scaled by the fixed-point unit weight, bit-exact.
    let block = 8usize;
    let hop = 4usize;
    let mut ts = TimeScaler::new(block, hop, hop, 1, hann_q15(block));
    let input = ramp(32);
    ts.push_block(&vec![input.clone()]);
    // steps = (32 - 8) / 4 + 1 = 7, boundary = 7 * 4 = 28
    assert_eq!(ts.available_frames(), 28);
    let out = ts.pop_frames(28).unwrap();
    assert_eq!(out.len(), 1);
    assert_eq!(out[0].len(), 28);
    for j in hop..28 {
        assert_eq!(out[0][j], input[j] as i64 * 32768, "settled sample {j}");
    }
    // the fade-in head carries a single window's weight, not unity
    assert_eq!(out[0][0], 0);
}

#[test]
fn identity_stretch_stereo() {
    // the identity holds on every channel independently
    let block = 8usize;
    let hop = 4usize;
    let mut ts = TimeScaler::new(block, hop, hop, 2, hann_q15(block));
    let left = ramp(40);
    let right: Vec<i16> = ramp(40).iter().map(|s| -s).collect();
    ts.push_block(&vec![left.clone(), right.clone()]);
    // steps = (40 - 8) / 4 + 1 = 9, boundary = 36
    assert_eq!(ts.available_frames(), 36);
    let out = ts.pop_frames(36).unwrap();
    for j in hop..36 {
        assert_eq!(out[0][j], left[j] as i64 * 32768);
        assert_eq!(out[1][j], right[j] as i64 * 32768);
    }
}

#[test]
fn constant_gain_preserved() {
    // a constant-amplitude signal at 50% overlap and scaling factor 1.0
    // comes out with the same amplitude: no periodic gain ripple.
    let block = 64usize;
    let hop = 32usize;
    let mut ts = TimeScaler::new(block, hop, hop, 1, hann_q15(block));
    let amp = 1000i16;
    ts.push_block(&vec![vec![amp; 1024]]);
    let avail = ts.available_frames();
    assert_eq!(avail, ((1024 - block) / hop + 1) * hop);
    let out = ts.pop_frames(avail).unwrap();
    for j in hop..avail {
        assert_eq!(out[0][j], amp as i64 * 32768, "ripple at {j}");
    }
}

#[test]
fn pop_frames_boundary_behaviour() {
    // pop_frames(n) never fails for n <= boundary and always fails with
    // InsufficientInputError for n above it, leaving the engine unchanged.
    let block = 8usize;
    let hop = 4usize;
    let mut ts = TimeScaler::new(block, hop, hop, 1, hann_q15(block));
    ts.push_block(&vec![ramp(32)]);
    let avail = ts.available_frames();
    assert_eq!(avail, 28);
    let r = ts.pop_frames(avail + 1);
    assert_eq!(r, Err(InsufficientInputError));
    assert_eq!(ts.available_frames(), avail);
    let ok = ts.pop_frames(avail).unwrap();
    assert_eq!(ok[0].len(), avail);
    assert_eq!(ts.available_frames(), 0);
    // with nothing finalized, even one frame is refused, but zero is owed
    assert_eq!(ts.pop_frames(1), Err(InsufficientInputError));
    assert_eq!(ts.pop_frames(0).unwrap()[0].len(), 0);
}

#[test]
fn pop_block_pops_one_window() {
    let block = 8usize;
    let hop = 4usize;
    let mut ts = TimeScaler::new(block, hop, hop, 1, hann_q15(block));
    ts.push_block(&vec![ramp(32)]);
    let before = ts.available_frames();
    let out = ts.pop_block().unwrap();
    assert_eq!(out[0].len(), block);
    assert_eq!(ts.available_frames(), before - block);
}

#[test]
fn output_length_scaling() {
    // an N-sample input, N a multiple of the window length, settles
    // (N/hop - 1) synthesis hops: one synthesis hop short of N scaled.
    let block = 8usize;
    let hop = 4usize;
    let synth_hop = 6usize; // scaling factor 1.5
    let mut ts = TimeScaler::new(block, hop, synth_hop, 1, hann_q15(block));
    let n = 32usize;
    ts.push_block(&vec![ramp(n)]);
    let total = ts.available_frames();
    assert_eq!(total, (n / hop - 1) * synth_hop);
    assert_eq!((n / hop) * synth_hop - total, synth_hop);
}

#[test]
fn pop_in_pieces_preserves_order() {
    // draining in two pops yields the same samples as one big pop
    let block = 8usize;
    let hop = 4usize;
    let mut one = TimeScaler::new(block, hop, hop, 1, hann_q15(block));
    let mut two = TimeScaler::new(block, hop, hop, 1, hann_q15(block));
    let input = ramp(32);
    one.push_block(&vec![input.clone()]);
    two.push_block(&vec![input]);
    let whole = one.pop_frames(28).unwrap();
    let first = two.pop_frames(13).unwrap();
    let second = two.pop_frames(15).unwrap();
    let mut glued = first[0].clone();
    glued.extend_from_slice(&second[0]);
    assert_eq!(whole[0], glued);
}

#[test]
fn error_message_text() {
    assert_eq!(
        InsufficientInputError.message(),
        "not enough input samples have been provided"
    );
}
