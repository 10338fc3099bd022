use std::io::Cursor;

use audi8::time_scaler::TimeScaler;
use audi8::transpose::{is_final_chunk, PitchShiftPipeline};

use rubato::Resampler;

fn hann_q15(n: usize) -> Vec<i64> {
    let half = n / 2;
    let mut w = vec![0i64; n];
    for i in 0..half {
        let x = std::f64::consts::PI * 2.0 * (i as f64) / (n as f64);
        let c = (16384.0 * x.cos()).round() as i64;
        w[i] = 16384 - c;
        w[i + half] = 16384 + c;
    }
    w
}

/// Engine output accumulators back to normalized floats: input samples were
/// 16-bit integers, settled accumulators carry an extra factor WINDOW_ONE.
fn to_float(v: i64) -> f32 {
    v as f32 / (i16::MAX as f32 * 32768.0)
}

fn encode_wav(samples: &[i16], sample_rate: u32) -> Vec<u8> {
    let spec = hound::WavSpec {
        channels: 1,
        sample_rate,
        bits_per_sample: 16,
        sample_format: hound::SampleFormat::Int,
    };
    let mut buf = Vec::new();
    {
        let mut writer = hound::WavWriter::new(Cursor::new(&mut buf), spec).unwrap();
        for &s in samples {
            writer.write_sample(s).unwrap();
        }
        writer.finalize().unwrap();
    }
    buf
}

/// Run the full mono pipeline on 16-bit samples: WAV decode, time-scale by
/// 2^(semitones/12), rate-convert by the inverse, and collect the output.
fn run_pipeline(input: &[i16], sample_rate: usize, semitones: i32) -> Vec<f32> {
    let bytes = encode_wav(input, sample_rate as u32);
    let mut reader = hound::WavReader::new(Cursor::new(bytes)).unwrap();
    let chunk_size = 4096usize;
    let hop = chunk_size / 2;
    let sampling_ratio = 2f32.powf(semitones as f32 / 12.0);
    let synth_hop = (hop as f32 * sampling_ratio) as usize;

    let mut resampler = rubato::FftFixedInOut::<f32>::new(
        sample_rate,
        (sample_rate as f32 / sampling_ratio) as usize,
        chunk_size,
        1,
    )
    .unwrap();
    let mut pipeline = PitchShiftPipeline::new(chunk_size, synth_hop, 1, hann_q15(chunk_size));

    let mut samples = reader.samples::<i16>();
    loop {
        let mut chunk: Vec<i16> = Vec::with_capacity(chunk_size);
        for _ in 0..chunk_size {
            match samples.next() {
                Some(s) => chunk.push(s.unwrap()),
                None => break,
            }
        }
        let block = vec![chunk];
        let end = pipeline.push_chunk(&block);
        if end {
            break;
        }
    }

    let mut out: Vec<f32> = Vec::new();
    loop {
        let in_frames = resampler.input_frames_next();
        match pipeline.next_frames(in_frames) {
            Some(block) => {
                let wave: Vec<Vec<f32>> =
                    vec![block[0].iter().map(|&v| to_float(v)).collect()];
                let converted = resampler.process(&wave, None).unwrap();
                out.extend_from_slice(&converted[0]);
            }
            None => break,
        }
    }
    out
}

fn sine(freq: f64, sample_rate: f64, len: usize, amp: f64) -> Vec<i16> {
    (0..len)
        .map(|i| {
            (amp * (2.0 * std::f64::consts::PI * freq * i as f64 / sample_rate).sin()) as i16
        })
        .collect()
}

/// Power of one frequency bin over a slice, by the Goertzel recurrence.
fn goertzel(samples: &[f32], freq: f64, sample_rate: f64) -> f64 {
    let w = 2.0 * std::f64::consts::PI * freq / sample_rate;
    let coeff = 2.0 * w.cos();
    let mut s_prev = 0.0f64;
    let mut s_prev2 = 0.0f64;
    for &x in samples {
        let s = x as f64 + coeff * s_prev - s_prev2;
        s_prev2 = s_prev;
        s_prev = s;
    }
    s_prev2 * s_prev2 + s_prev * s_prev - coeff * s_prev * s_prev2
}

#[test]
fn zero_shift_round_trip() {
    // sampling_ratio = 1.0: the pipeline reproduces the input on the
    // steady region, up to 16-bit quantization and converter edge effects.
    let sample_rate = 44100usize;
    let input = sine(440.0, sample_rate as f64, 22050, 12000.0);
    let out = run_pipeline(&input, sample_rate, 0);
    assert!(out.len() >= 16384);
    // find the alignment that best matches the input mid-region
    let norm: Vec<f32> = input.iter().map(|&s| s as f32 / i16::MAX as f32).collect();
    let seg = &norm[8192..12288];
    let mut best_lag = 0usize;
    let mut best_err = f64::MAX;
    for lag in 0..4096usize {
        if 8192 + lag + seg.len() > out.len() {
            break;
        }
        let mut err = 0.0f64;
        for (i, &x) in seg.iter().enumerate() {
            let d = (out[8192 + lag + i] - x) as f64;
            err += d * d;
        }
        if err < best_err {
            best_err = err;
            best_lag = lag;
        }
    }
    let rms = (best_err / seg.len() as f64).sqrt();
    assert!(
        rms < 2.0 / i16::MAX as f64,
        "round trip differs beyond quantization: rms {rms}, lag {best_lag}"
    );
}

#[test]
fn pitch_shift_octave_up() {
    // a 1-second 440 Hz sine shifted by +12 semitones keeps its duration
    // within one chunk and moves its dominant component to about 880 Hz.
    let sample_rate = 44100usize;
    let input = sine(440.0, sample_rate as f64, 44100, 12000.0);
    let out = run_pipeline(&input, sample_rate, 12);
    let diff = (out.len() as i64 - input.len() as i64).abs();
    assert!(diff <= 4096, "duration off by {diff} frames");
    let steady = &out[4096..out.len() - 4096];
    let p880 = goertzel(steady, 880.0, sample_rate as f64);
    let p440 = goertzel(steady, 440.0, sample_rate as f64);
    assert!(
        p880 > 10.0 * p440,
        "dominant component not at 880 Hz: p880 {p880}, p440 {p440}"
    );
}

#[test]
fn stereo_two_chunks_boundary() {
    // two stereo chunks of 4096 frames, block 4096, hop 2048, scaling
    // factor 1.5: the boundary equals completed_hops * floor(2048 * 1.5).
    let chunk = 4096usize;
    let hop = 2048usize;
    let synth_hop = (hop as f32 * 1.5f32) as usize;
    assert_eq!(synth_hop, 3072);
    let mut ts = TimeScaler::new(chunk, hop, synth_hop, 2, hann_q15(chunk));
    let left: Vec<i16> = (0..chunk).map(|i| (i % 1000) as i16).collect();
    let right: Vec<i16> = (0..chunk).map(|i| -((i % 800) as i16)).collect();
    ts.push_block(&vec![left.clone(), right.clone()]);
    ts.push_block(&vec![left, right]);
    // 8192 samples in: completed hops = (8192 - 4096) / 2048 + 1 = 3
    assert_eq!(ts.available_frames(), 3 * 3072);
}

#[test]
fn pipeline_stops_when_drained() {
    let chunk = 16usize;
    let mut pipeline = PitchShiftPipeline::new(chunk, 8, 1, hann_q15(chunk));
    let full = vec![vec![5i16; chunk]];
    assert!(!pipeline.push_chunk(&full));
    assert!(!pipeline.push_chunk(&full));
    let short = vec![vec![5i16; 3]];
    assert!(pipeline.push_chunk(&short));
    // 35 samples in: steps = (35 - 16) / 8 + 1 = 3, boundary = 24
    let got = pipeline.next_frames(24).unwrap();
    assert_eq!(got[0].len(), 24);
    assert!(pipeline.next_frames(1).is_none());
}

#[test]
fn final_chunk_detection() {
    let full = vec![vec![0i16; 8], vec![0i16; 8]];
    assert!(!is_final_chunk(&full, 8));
    let short = vec![vec![0i16; 8], vec![0i16; 5]];
    assert!(is_final_chunk(&short, 8));
    let empty: Vec<Vec<i16>> = Vec::new();
    assert!(!is_final_chunk(&empty, 8));
}
