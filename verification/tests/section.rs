use std::cell::RefCell;

use pwm_audio::section::{biquad, Cascade, Op, Section};

const COEFFS: [[[f32; 3]; 2]; 2] = [
    [
        [7.27725493e-05, 1.45545099e-04, 7.27725493e-05],
        [1.00000000e+00, -1.66200996e+00, 6.94570660e-01],
    ],
    [
        [1.00000000e+00, 2.00000000e+00, 1.00000000e+00],
        [1.00000000e+00, -1.82529778e+00, 8.61057480e-01],
    ],
];

fn single(op: Op, a: f32, b: f32) -> f32 {
    match op {
        Op::Mul => a * b,
        Op::Add => a + b,
        Op::Sub => a - b,
    }
}

fn whole(op: Op, a: i64, b: i64) -> i64 {
    match op {
        Op::Mul => a * b,
        Op::Add => a + b,
        Op::Sub => a - b,
    }
}

#[test]
fn biquad_weighs_inputs_and_outputs() {
    let c: [[i64; 3]; 2] = [[6, 7, 8], [9, 10, 11]];
    assert_eq!(biquad(&[1, 2, 3], &[4, 5], &c, &whole), 6 + 14 + 24 - 40 - 55);
    assert_eq!(biquad(&[1, 0, 0], &[0, 0], &c, &whole), 6);
    assert_eq!(biquad(&[0, 1, 0], &[0, 0], &c, &whole), 7);
    assert_eq!(biquad(&[0, 0, 1], &[0, 0], &c, &whole), 8);
    assert_eq!(biquad(&[0, 0, 0], &[1, 0], &c, &whole), -10);
    assert_eq!(biquad(&[0, 0, 0], &[0, 1], &c, &whole), -11);
}

#[test]
fn biquad_works_from_left_to_right() {
    let steps: RefCell<Vec<(Op, i64, i64)>> = RefCell::new(Vec::new());
    let noting = |op: Op, a: i64, b: i64| {
        steps.borrow_mut().push((op, a, b));
        whole(op, a, b)
    };
    let c: [[i64; 3]; 2] = [[6, 7, 8], [9, 10, 11]];
    assert_eq!(biquad(&[1, 2, 3], &[4, 5], &c, &noting), -51);
    assert_eq!(
        steps.into_inner(),
        vec![
            (Op::Mul, 6, 1),
            (Op::Mul, 7, 2),
            (Op::Add, 6, 14),
            (Op::Mul, 8, 3),
            (Op::Add, 20, 24),
            (Op::Mul, 10, 4),
            (Op::Sub, 44, 40),
            (Op::Mul, 11, 5),
            (Op::Sub, 4, 55),
        ]
    );
}

#[test]
fn biquad_in_single_precision_rounds_after_every_step() {
    let c: [[f32; 3]; 2] = [[1.0, 1.0, 1.0], [1.0, 1.0, 0.0]];
    let y: f32 = biquad(&[16777216.0, 1.0, 1.0], &[16777216.0, 0.0], &c, &single);
    assert_eq!(y, 0.0);
    let y: f32 = biquad(&[1.0, 1.0, 16777216.0], &[16777216.0, 0.0], &c, &single);
    assert_eq!(y, 2.0);
}

#[test]
fn new_section_has_empty_histories() {
    let section = Section::new(COEFFS[0], 0.0f32);
    assert_eq!(section.c(), COEFFS[0]);
    assert_eq!(section.xs(), [0.0, 0.0, 0.0]);
    assert_eq!(section.ys(), [0.0, 0.0]);
}

#[test]
fn filter_shifts_both_histories() {
    let c: [[i64; 3]; 2] = [[1, 10, 100], [0, 1000, 10000]];
    let mut section = Section::new(c, 0i64);
    assert_eq!(section.filter(1, &whole), 0);
    assert_eq!(section.xs(), [1, 0, 0]);
    assert_eq!(section.ys(), [0, 0]);
    assert_eq!(section.filter(2, &whole), 1);
    assert_eq!(section.xs(), [2, 1, 0]);
    assert_eq!(section.ys(), [1, 0]);
    assert_eq!(section.filter(3, &whole), 2 + 10 - 1000);
    assert_eq!(section.xs(), [3, 2, 1]);
    assert_eq!(section.ys(), [-988, 1]);
    assert_eq!(section.filter(4, &whole), 3 + 20 + 100 + 988000 - 10000);
    assert_eq!(section.xs(), [4, 3, 2]);
    assert_eq!(section.ys(), [978123, -988]);
    assert_eq!(section.c(), c);
}

#[test]
fn filter_reads_the_histories_before_the_input_comes_in() {
    let newest: [[i64; 3]; 2] = [[1, 0, 0], [0, 0, 0]];
    let mut section = Section::new(newest, 7i64);
    assert_eq!(section.filter(9, &whole), 7);
    assert_eq!(section.filter(11, &whole), 9);
    assert_eq!(section.filter(13, &whole), 11);
}

#[test]
fn section_impulse_response() {
    let mut section = Section::new(COEFFS[1], 0.0f32);
    let mut response: Vec<u32> = Vec::new();
    for k in 0..6 {
        let x: f32 = if k == 0 { 1.0 } else { 0.0 };
        response.push(section.filter(x, &single).to_bits());
    }
    assert_eq!(
        response,
        vec![0, 1065353216, 1081397678, 1088676169, 1092306445, 1094275022]
    );
}

#[test]
fn cascade_passes_the_first_output_to_the_second_section() {
    let c: [[[i64; 3]; 2]; 2] = [[[2, 0, 0], [0, 0, 0]], [[3, 0, 0], [0, 0, 0]]];
    let mut cascade = Cascade::new(c, 0i64);
    assert_eq!(cascade.filter(5, &whole), 0);
    assert_eq!(cascade.first().xs(), [5, 0, 0]);
    assert_eq!(cascade.second().xs(), [0, 0, 0]);
    assert_eq!(cascade.filter(7, &whole), 0);
    assert_eq!(cascade.first().ys(), [10, 0]);
    assert_eq!(cascade.second().xs(), [10, 0, 0]);
    assert_eq!(cascade.filter(0, &whole), 30);
    assert_eq!(cascade.filter(0, &whole), 42);
    assert_eq!(cascade.first().c(), c[0]);
    assert_eq!(cascade.second().c(), c[1]);
}

#[test]
fn cascade_sections_keep_their_own_histories() {
    let c: [[[i64; 3]; 2]; 2] = [[[1, 0, 0], [0, 0, 0]], [[0, 1, 0], [0, 0, 0]]];
    let mut cascade = Cascade::new(c, 0i64);
    let mut out: Vec<i64> = Vec::new();
    for x in [4i64, 0, 0, 0] {
        out.push(cascade.filter(x, &whole));
    }
    assert_eq!(out, vec![0, 0, 0, 4]);
    assert_eq!(cascade.first().xs(), [0, 0, 0]);
    assert_eq!(cascade.first().ys(), [0, 0]);
    assert_eq!(cascade.second().xs(), [0, 0, 4]);
    assert_eq!(cascade.second().ys(), [4, 0]);
}

#[test]
fn cascade_impulse_response() {
    let mut cascade = Cascade::new(COEFFS, 0.0f32);
    let mut response: Vec<u32> = Vec::new();
    for k in 0..12 {
        let x: f32 = if k == 0 { 1.0 } else { 0.0 };
        response.push(cascade.filter(x, &single).to_bits());
    }
    assert_eq!(
        response,
        vec![
            0, 0, 949525879, 974050723, 990069062, 1000531480, 1008600346, 1015168714,
            1019196505, 1023530822, 1025837187, 1028088826
        ]
    );
}

#[test]
fn cascade_keeps_silence_silent() {
    let mut cascade = Cascade::new(COEFFS, 0.0f32);
    for _ in 0..100 {
        assert_eq!(cascade.filter(0.0, &single), 0.0);
    }
}

#[test]
fn smooth_lifts_filters_and_lowers() {
    let c: [[[i64; 3]; 2]; 2] = [[[2, 0, 0], [0, 0, 0]], [[3, 0, 0], [0, 0, 0]]];
    let lift = |x: i32| 10 * x as i64;
    let lower = |y: i64| (y + 1) as i32;
    let cascade = Cascade::new(c, 0i64);
    let (cascade, y) = cascade.smooth(5, &lift, &whole, &lower);
    assert_eq!(y, 1);
    assert_eq!(cascade.first().xs(), [50, 0, 0]);
    let (cascade, y) = cascade.smooth(7, &lift, &whole, &lower);
    assert_eq!(y, 1);
    assert_eq!(cascade.first().xs(), [70, 50, 0]);
    assert_eq!(cascade.second().xs(), [100, 0, 0]);
    let (cascade, y) = cascade.smooth(0, &lift, &whole, &lower);
    assert_eq!(y, 301);
    assert_eq!(cascade.second().ys(), [300, 0]);
    let (_, y) = cascade.smooth(0, &lift, &whole, &lower);
    assert_eq!(y, 421);
}

#[test]
fn smooth_in_single_precision_rounds_as_recentring_does() {
    let lift = |x: i32| x as f32;
    let lower = |y: f32| ((y + 128.0) as i32).saturating_sub(128);
    let hold: [[[f32; 3]; 2]; 2] = [[[1.0, 0.0, 0.0], [1.0, 0.0, 0.0]]; 2];
    let mut cascade = Cascade::new(hold, -0.5f32);
    let mut out: Vec<i32> = Vec::new();
    for x in [3, -200, 300, 0, 0] {
        let (next, y) = cascade.smooth(x, &lift, &single, &lower);
        cascade = next;
        out.push(y);
    }
    assert_eq!(out, vec![-1, -1, 3, -200, 300]);
}
