use fft::input::{first_channel, split_freq_phase, Fields};

#[test]
fn a_pair_has_frequency_and_phase() {
    let text = b"440:90";
    let fields = split_freq_phase(text);
    assert_eq!(fields, Fields { frequency: (0, 3), phase: Some((4, 6)) });
    assert_eq!(&text[fields.frequency.0..fields.frequency.1], b"440");
    let phase = fields.phase.unwrap();
    assert_eq!(&text[phase.0..phase.1], b"90");
}

#[test]
fn the_phase_may_be_missing() {
    assert_eq!(split_freq_phase(b"5.5"), Fields { frequency: (0, 3), phase: None });
    assert_eq!(split_freq_phase(b""), Fields { frequency: (0, 0), phase: None });
}

#[test]
fn an_empty_field_is_still_a_field() {
    assert_eq!(split_freq_phase(b"5:"), Fields { frequency: (0, 1), phase: Some((2, 2)) });
    assert_eq!(split_freq_phase(b":7"), Fields { frequency: (0, 0), phase: Some((1, 2)) });
    assert_eq!(split_freq_phase(b":"), Fields { frequency: (0, 0), phase: Some((1, 1)) });
}

#[test]
fn a_third_field_belongs_to_neither() {
    assert_eq!(split_freq_phase(b"60:270:x"), Fields { frequency: (0, 2), phase: Some((3, 6)) });
    assert_eq!(split_freq_phase(b"1::2"), Fields { frequency: (0, 1), phase: Some((2, 2)) });
}

#[test]
fn first_channel_takes_every_nth_frame() {
    assert_eq!(first_channel(&[1, -1, 2, -2, 3, -3], 2), vec![1, 2, 3]);
    assert_eq!(first_channel(&[1, 2, 3, 4, 5, 6, 7], 3), vec![1, 4, 7]);
    assert_eq!(first_channel(&[1, 2, 3, 4, 5, 6], 3), vec![1, 4]);
    assert_eq!(first_channel(&[1, 2, 3], 1), vec![1, 2, 3]);
    assert_eq!(first_channel(&[1, 2, 3], 5), vec![1]);
    assert_eq!(first_channel(&[1, 2, 3], usize::MAX), vec![1]);
    assert_eq!(first_channel(&[], 2), vec![]);
}
