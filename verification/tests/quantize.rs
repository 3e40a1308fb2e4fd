use pwm_audio::quantize::{duty_word, requantize};

#[test]
fn requantize_recentres_and_saturates() {
    assert_eq!(requantize(0), 128);
    assert_eq!(requantize(-128), 0);
    assert_eq!(requantize(-129), 0);
    assert_eq!(requantize(127), 255);
    assert_eq!(requantize(128), 255);
    assert_eq!(requantize(i32::MIN), 0);
    assert_eq!(requantize(i32::MAX), 255);
    assert_eq!(requantize(-1), 127);
}

#[test]
fn duty_word_sets_the_polarity_flag() {
    assert_eq!(duty_word(0), 0x8000);
    assert_eq!(duty_word(128), 0x8080);
    assert_eq!(duty_word(255), 0x80ff);
}
