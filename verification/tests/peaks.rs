use fft::util::adjust_peaks;
use fft::{latest_peak, max, Complex, Phasor};

fn phasor(frequency: u64, re: i64, im: i64) -> Phasor {
    Phasor { frequency, complex: Complex { re, im } }
}

fn spectrum_of(magnitudes: &[i64]) -> Vec<Phasor> {
    magnitudes.iter().enumerate().map(|(k, &m)| phasor(k as u64, m, 0)).collect()
}

#[test]
fn max_prefers_the_later_of_two_equals() {
    let window = spectrum_of(&[1, 2, 2]);
    assert_eq!(max(&window), 2);
    // equal magnitudes on different axes tie as well
    let window = vec![phasor(1, 1, 0), phasor(2, 2, 0), phasor(3, 0, -2)];
    assert_eq!(max(&window), 2);
}

#[test]
fn max_finds_the_strongest() {
    assert_eq!(max(&spectrum_of(&[1, 3, 2])), 1);
    assert_eq!(max(&spectrum_of(&[3, 2, 1])), 0);
    assert_eq!(max(&spectrum_of(&[2, 2, 1])), 1);
    assert_eq!(max(&spectrum_of(&[0, 0, 0])), 2);
    assert_eq!(max(&spectrum_of(&[-4, 3, 2])), 0);
    assert_eq!(max(&[phasor(0, 3, 4), phasor(1, 5, 1), phasor(2, 0, 5)]), 1);
    assert_eq!(max(&[]), 0);
    assert_eq!(max(&spectrum_of(&[7])), 0);
    assert_eq!(max(&spectrum_of(&[1, 5, 2, 5, 3])), 3);
}

#[test]
fn max_takes_the_widest_values() {
    let window = vec![
        phasor(0, i64::MAX, i64::MAX),
        phasor(1, i64::MIN, i64::MIN),
        phasor(2, i64::MIN, i64::MAX),
    ];
    assert_eq!(max(&window), 1);
}

#[test]
fn latest_peak_reports_the_middle_of_the_last_three() {
    assert_eq!(latest_peak(&spectrum_of(&[1, 3, 2])), Some(1));
    assert_eq!(latest_peak(&spectrum_of(&[0, 0, 1, 3, 2])), Some(3));
    // as strong as the left neighbour is enough
    assert_eq!(latest_peak(&spectrum_of(&[3, 3, 2])), Some(1));
    // as strong as the right neighbour is not
    assert_eq!(latest_peak(&spectrum_of(&[1, 2, 2])), None);
    assert_eq!(latest_peak(&spectrum_of(&[1, 2, 3])), None);
    assert_eq!(latest_peak(&spectrum_of(&[3, 2, 1])), None);
    assert_eq!(latest_peak(&spectrum_of(&[0, 0, 0])), None);
}

#[test]
fn latest_peak_needs_three_entries() {
    assert_eq!(latest_peak(&[]), None);
    assert_eq!(latest_peak(&spectrum_of(&[5])), None);
    assert_eq!(latest_peak(&spectrum_of(&[1, 5])), None);
    assert_eq!(latest_peak(&spectrum_of(&[5, 1])), None);
}

#[test]
fn significance_needs_more_than_a_third() {
    let spectrum = spectrum_of(&[0, 9, 0, 1, 0, 3, 0]);
    assert_eq!(adjust_peaks(&spectrum, &[1, 3, 5]), vec![2]);
    // just above a third is kept: 9 * 10 > 81
    let spectrum = vec![
        phasor(0, 0, 0),
        phasor(1, 9, 0),
        phasor(2, 0, 0),
        phasor(3, 3, 1),
        phasor(4, 0, 0),
    ];
    assert_eq!(adjust_peaks(&spectrum, &[1, 3]), vec![2, 4]);
}

#[test]
fn the_ceiling_is_taken_among_the_raw_peaks_only() {
    // the entry of magnitude 90 is no raw peak and does not raise the bar
    let spectrum = spectrum_of(&[90, 9, 0, 4, 0]);
    assert_eq!(adjust_peaks(&spectrum, &[1, 3]), vec![2, 4]);
}

#[test]
fn a_peak_moves_past_its_plateau() {
    let spectrum = spectrum_of(&[0, 5, 5, 5, 1, 0]);
    assert_eq!(adjust_peaks(&spectrum, &[1]), vec![4]);
    assert_eq!(adjust_peaks(&spectrum, &[2]), vec![4]);
    assert_eq!(adjust_peaks(&spectrum, &[3]), vec![4]);
    // a plateau needs equal magnitudes, whatever the values
    let spectrum = vec![phasor(0, 0, 0), phasor(1, 3, 4), phasor(2, -5, 0), phasor(3, 4, 4)];
    assert_eq!(adjust_peaks(&spectrum, &[1]), vec![3]);
}

#[test]
fn a_plateau_may_run_to_the_end() {
    let spectrum = spectrum_of(&[0, 5, 5]);
    assert_eq!(adjust_peaks(&spectrum, &[1]), vec![3]);
    assert_eq!(adjust_peaks(&spectrum, &[2]), vec![3]);
}

#[test]
fn neighbours_that_coincide_are_reported_once() {
    let spectrum = spectrum_of(&[0, 5, 5, 5, 1, 6, 0]);
    assert_eq!(adjust_peaks(&spectrum, &[1, 2, 3, 5]), vec![4, 6]);
    // only neighbours collapse
    assert_eq!(adjust_peaks(&spectrum, &[1, 5, 2]), vec![4, 6, 4]);
}

#[test]
fn an_insignificant_peak_between_two_equal_ones_does_not_part_them() {
    // the peak at 3 is dropped before neighbours are compared
    let spectrum = spectrum_of(&[0, 9, 9, 1, 0]);
    assert_eq!(adjust_peaks(&spectrum, &[1, 3, 2]), vec![3]);
}

#[test]
fn no_raw_peaks_no_peaks() {
    assert_eq!(adjust_peaks(&spectrum_of(&[1, 2, 3]), &[]), vec![]);
    assert_eq!(adjust_peaks(&[], &[]), vec![]);
}

#[test]
fn peaks_of_a_silent_spectrum_are_dropped() {
    // nothing exceeds a third of zero
    assert_eq!(adjust_peaks(&spectrum_of(&[0, 0, 0]), &[1]), vec![]);
}
