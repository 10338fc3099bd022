use audi8::api::TransposeParams;
use audi8::window::check_window;

fn hann_q15(n: usize) -> Vec<i64> {
    let half = n / 2;
    let mut w = vec![0i64; n];
    for i in 0..half {
        let x = std::f64::consts::PI * 2.0 * (i as f64) / (n as f64);
        let c = (16384.0 * x.cos()).round() as i64;
        w[i] = 16384 - c;
        w[i + half] = 16384 + c;
    }
    w
}

#[test]
fn hann_window_is_well_formed() {
    assert!(check_window(&hann_q15(8)));
    assert!(check_window(&hann_q15(4096)));
    // first coefficient of a Hann window is zero, the middle one is full
    let w = hann_q15(8);
    assert_eq!(w[0], 0);
    assert_eq!(w[4], 32768);
}

#[test]
fn tampered_window_is_rejected() {
    let mut w = hann_q15(8);
    w[0] += 1;
    assert!(!check_window(&w));
    let mut big = hann_q15(8);
    big[3] = 40000;
    assert!(!check_window(&big));
    let odd = vec![0i64; 7];
    assert!(!check_window(&odd));
}

#[test]
fn semitone_range() {
    assert!(TransposeParams { semitones: 0 }.in_range());
    assert!(TransposeParams { semitones: 12 }.in_range());
    assert!(TransposeParams { semitones: -12 }.in_range());
    assert!(!TransposeParams { semitones: 13 }.in_range());
    assert!(!TransposeParams { semitones: -13 }.in_range());
}
