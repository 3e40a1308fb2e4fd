use pwm_audio::resample::{resample, Resampler};
use pwm_audio::section::{Cascade, Op};

const COEFFS: [[[f32; 3]; 2]; 2] = [
    [
        [7.27725493e-05, 1.45545099e-04, 7.27725493e-05],
        [1.00000000e+00, -1.66200996e+00, 6.94570660e-01],
    ],
    [
        [1.00000000e+00, 2.00000000e+00, 1.00000000e+00],
        [1.00000000e+00, -1.82529778e+00, 8.61057480e-01],
    ],
];

fn single(op: Op, a: f32, b: f32) -> f32 {
    match op {
        Op::Mul => a * b,
        Op::Add => a + b,
        Op::Sub => a - b,
    }
}

fn lift(x: i32) -> f32 {
    x as f32
}

fn lower(y: f32) -> i32 {
    ((y + 128.0) as i32).saturating_sub(128)
}

fn lowpass(cascade: Cascade<f32>, x: i32) -> (Cascade<f32>, i32) {
    cascade.smooth(x, &lift, &single, &lower)
}

fn pass(state: (), x: i32) -> ((), i32) {
    (state, x)
}

fn count(n: i32, _x: i32) -> (i32, i32) {
    (n + 1, n - 128)
}

fn delay(held: i32, x: i32) -> (i32, i32) {
    (x, held)
}

#[test]
fn resample_gives_sixteen_values_per_sample() {
    let source: [u8; 5] = [1, 2, 3, 4, 5];
    assert_eq!(resample(&source, (), pass).len(), 80);
    let one: [u8; 1] = [9];
    assert_eq!(resample(&one, (), pass).len(), 16);
}

#[test]
fn resample_of_nothing_is_empty() {
    let source: [u8; 0] = [];
    assert_eq!(resample(&source, (), pass), Vec::<u8>::new());
}

#[test]
fn resample_without_smoothing_shows_the_zero_stuffed_stream() {
    let source: [u8; 3] = [130, 120, 128];
    let duties = resample(&source, (), pass);
    let mut expected: Vec<u8> = vec![128; 48];
    expected[0] = 158;
    expected[16] = 8;
    assert_eq!(duties, expected);
}

#[test]
fn resample_saturates_at_both_ends() {
    let source: [u8; 4] = [0, 255, 119, 137];
    let duties = resample(&source, (), pass);
    assert_eq!(duties[0], 0);
    assert_eq!(duties[16], 255);
    assert_eq!(duties[32], 0);
    assert_eq!(duties[48], 255);
    let inside: [u8; 2] = [120, 136];
    let duties = resample(&inside, (), pass);
    assert_eq!(duties[0], 8);
    assert_eq!(duties[16], 248);
}

#[test]
fn resample_threads_the_state_through_every_call() {
    let source: [u8; 2] = [128, 128];
    let duties = resample(&source, 0, count);
    let expected: Vec<u8> = (0u8..32).collect();
    assert_eq!(duties, expected);
    let late = resample(&source, 240, count);
    assert_eq!(late[15], 255);
    assert_eq!(late[16], 255);
    assert_eq!(late[31], 255);
}

#[test]
fn resample_hands_the_stage_each_value_in_order() {
    let source: [u8; 2] = [129, 127];
    let duties = resample(&source, 5, delay);
    let mut expected: Vec<u8> = vec![128; 32];
    expected[0] = 133;
    expected[1] = 143;
    expected[17] = 113;
    assert_eq!(duties, expected);
}

#[test]
fn resample_of_silence_stays_at_the_centre() {
    let source: [u8; 20] = [128; 20];
    let duties = resample(&source, Cascade::new(COEFFS, 0.0f32), lowpass);
    assert_eq!(duties.len(), 320);
    for duty in duties.iter() {
        assert!(126 <= *duty && *duty <= 130);
        assert_eq!(*duty, 128);
    }
}

#[test]
fn resample_smooths_a_low_and_a_high_sample() {
    let source: [u8; 8] = [0, 255, 128, 128, 128, 128, 128, 128];
    let duties = resample(&source, Cascade::new(COEFFS, 0.0f32), lowpass);
    let expected: Vec<u8> = vec![
        128, 128, 127, 126, 124, 118, 109, 97, 83, 67, 50, 34, 19, 6, 0, 0, 0, 0, 0, 0, 3, 19,
        39, 64, 92, 122, 152, 182, 209, 233, 254, 255, 255, 255, 255, 255, 255, 255, 255, 244,
        228, 212, 195, 178, 163, 148, 136, 124, 115, 107, 102, 98, 96, 95, 95, 97, 100, 103, 106,
        110, 114, 118, 122, 125, 128, 131, 133, 134, 135, 136, 136, 136, 136, 135, 134, 134, 132,
        131, 130, 129, 128, 127, 127, 126, 126, 125, 125, 125, 125, 125, 125, 126, 126, 126, 126,
        127, 127, 127, 127, 128, 128, 128, 128, 128, 128, 128, 128, 128, 128, 128, 128, 128, 128,
        128, 128, 128, 127, 127, 127, 127, 127, 127, 127, 127, 127, 127, 127, 127,
    ];
    assert_eq!(duties, expected);
    for pair in duties[64..].windows(2) {
        let step: i32 = pair[1] as i32 - pair[0] as i32;
        assert!(-3 <= step && step <= 3);
    }
    for duty in duties[64..].iter() {
        assert!(*duty >= 128 - 8 && *duty <= 128 + 8);
    }
}

#[test]
fn resample_of_the_extremes_stays_in_range() {
    let low: [u8; 3] = [0; 3];
    let duties = resample(&low, Cascade::new(COEFFS, 0.0f32), lowpass);
    let expected: Vec<u8> = vec![
        128, 128, 127, 126, 124, 118, 109, 97, 83, 67, 50, 34, 19, 6, 0, 0, 0, 0, 0, 0, 0, 0, 3,
        3, 3, 1, 0, 0, 0, 0, 0, 0, 0, 1, 7, 15, 21, 26, 28, 27, 24, 20, 14, 8, 3, 0, 0, 0,
    ];
    assert_eq!(duties, expected);
    let high: [u8; 3] = [255; 3];
    let duties = resample(&high, Cascade::new(COEFFS, 0.0f32), lowpass);
    let expected: Vec<u8> = vec![
        128, 128, 128, 129, 131, 137, 146, 158, 172, 188, 204, 220, 235, 248, 255, 255, 255, 255,
        255, 255, 255, 254, 252, 251, 251, 253, 255, 255, 255, 255, 255, 255, 255, 253, 247, 240,
        233, 229, 227, 227, 230, 234, 240, 246, 251, 255, 255, 255,
    ];
    assert_eq!(duties, expected);
}

#[test]
fn resampler_pulls_one_value_at_a_time() {
    let source: [u8; 2] = [130, 120];
    let mut resampler = Resampler::new(&source, (), pass);
    assert_eq!(resampler.next(), 158);
    for _ in 0..15 {
        assert_eq!(resampler.next(), 128);
    }
    assert_eq!(resampler.next(), 8);
}

#[test]
fn resampler_loops_over_its_source() {
    let source: [u8; 2] = [130, 120];
    let mut resampler = Resampler::new(&source, (), pass);
    let mut lap: [u8; 32] = [0; 32];
    resampler.fill(&mut lap);
    let mut again: [u8; 32] = [0; 32];
    resampler.fill(&mut again);
    assert_eq!(lap, again);
    assert_eq!(again[0], 158);
    assert_eq!(again[16], 8);
}

#[test]
fn resampler_keeps_the_state_of_its_stage() {
    let source: [u8; 1] = [128];
    let mut resampler = Resampler::new(&source, 10, count);
    assert_eq!(resampler.state(), 10);
    let mut dest: [u8; 5] = [0; 5];
    resampler.fill(&mut dest);
    assert_eq!(dest, [10, 11, 12, 13, 14]);
    assert_eq!(resampler.state(), 15);
    assert_eq!(resampler.next(), 15);
    assert_eq!(resampler.state(), 16);
}

#[test]
fn resampler_fill_agrees_with_resample() {
    let source: [u8; 8] = [0, 255, 128, 128, 128, 128, 128, 128];
    let whole = resample(&source, Cascade::new(COEFFS, 0.0f32), lowpass);
    let mut resampler = Resampler::new(&source, Cascade::new(COEFFS, 0.0f32), lowpass);
    let mut pieces: Vec<u8> = Vec::new();
    let mut chunk: [u8; 13] = [0; 13];
    while pieces.len() < whole.len() {
        resampler.fill(&mut chunk);
        pieces.extend_from_slice(&chunk);
    }
    assert_eq!(pieces[..whole.len()], whole[..]);
}

#[test]
fn loop_seam_leaves_a_short_transient() {
    let source: [u8; 4] = [0, 255, 64, 192];
    let mut resampler = Resampler::new(&source, Cascade::new(COEFFS, 0.0f32), lowpass);
    let mut cycles: Vec<[u8; 64]> = Vec::new();
    for _ in 0..6 {
        let mut cycle: [u8; 64] = [0; 64];
        resampler.fill(&mut cycle);
        cycles.push(cycle);
    }
    assert_eq!(cycles.iter().map(|cycle| cycle.len()).sum::<usize>(), 6 * 4 * 16);
    assert_eq!(
        cycles[0][..24],
        [
            128, 128, 127, 126, 124, 118, 109, 97, 83, 67, 50, 34, 19, 6, 0, 0, 0, 0, 0, 0, 3, 19,
            39, 64
        ]
    );
    assert_eq!(
        cycles[5][..24],
        [
            205, 211, 214, 213, 209, 199, 184, 165, 142, 117, 91, 66, 42, 21, 3, 0, 0, 0, 0, 0, 0,
            0, 21, 46
        ]
    );
    assert_ne!(cycles[0], cycles[1]);
    for later in 2..6 {
        for k in 0..64 {
            let apart: i32 = cycles[later][k] as i32 - cycles[later - 1][k] as i32;
            assert!(-1 <= apart && apart <= 1, "cycle {} place {}", later, k);
        }
    }
    assert_eq!(cycles[4], cycles[5]);
}
