use fft::{analyze, Complex, ConfigError, Phasor, Point, Rotor, Sweep};

fn on_axis(re: i64) -> Complex {
    Complex { re, im: 0 }
}

/// Feeds a sweep the given magnitudes, then zeros, until it is over.
fn run(mut sweep: Sweep, magnitudes: &[i64]) -> Sweep {
    let mut step = 0;
    while sweep.pending().is_some() {
        sweep.record(on_axis(magnitudes.get(step).copied().unwrap_or(0)));
        step += 1;
    }
    sweep
}

fn frequencies_of(spectrum: &[Phasor]) -> Vec<u64> {
    spectrum.iter().map(|p| p.frequency).collect()
}

#[test]
fn a_sweep_needs_a_step() {
    assert!(matches!(Sweep::new(1, 100, 0), Err(ConfigError::ZeroStep)));
    assert!(matches!(Sweep::new(5, 1, 0), Err(ConfigError::ZeroStep)));
    assert!(Sweep::new(1, 100, 1).is_ok());
    // the whole sweep refuses as well, and before it asks for any rotors
    let never = |_: u64| -> Vec<Rotor> { panic!("asked for rotors") };
    assert_eq!(analyze(&[], 1, 100, 0, never), Err(ConfigError::ZeroStep));
}

#[test]
fn sweep_visits_one_to_a_hundred() {
    let points = vec![Point { tick: 0, amplitude: 1 }];
    let spectrum = analyze(&points, 1, 100, 1, |_| vec![Rotor { re: 1, im: 0 }]).unwrap();
    assert_eq!(spectrum.len(), 100);
    assert_eq!(frequencies_of(&spectrum), (1..=100).collect::<Vec<u64>>());

    let sweep = run(Sweep::new(1, 100, 1).unwrap(), &[]);
    assert_eq!(frequencies_of(sweep.spectrum()), (1..=100).collect::<Vec<u64>>());
    assert!(sweep.is_done());
    assert_eq!(sweep.pending(), None);
}

#[test]
fn analyze_estimates_at_every_frequency() {
    let points = vec![Point { tick: 0, amplitude: 2 }, Point { tick: 1, amplitude: 4 }];
    // rotors that depend on the frequency, so that every entry shows whether
    // it was made from the rotors of its own frequency
    let rotors_at = |f: u64| {
        vec![Rotor { re: f as i32, im: 1 }, Rotor { re: -1, im: f as i32 }]
    };
    let spectrum = analyze(&points, 3, 9, 3, rotors_at).unwrap();
    // at f: mean of (2f, 2) and (-4, 4f), rounded down
    assert_eq!(
        spectrum,
        vec![
            Phasor { frequency: 3, complex: Complex { re: 1, im: 7 } },
            Phasor { frequency: 6, complex: Complex { re: 4, im: 13 } },
            Phasor { frequency: 9, complex: Complex { re: 7, im: 19 } },
        ]
    );
}

#[test]
fn sweep_includes_the_upper_bound_only_when_it_is_hit() {
    let silent = |_: u64| -> Vec<Rotor> { vec![] };
    assert_eq!(frequencies_of(&analyze(&[], 10, 20, 5, silent).unwrap()), vec![10, 15, 20]);
    assert_eq!(frequencies_of(&analyze(&[], 10, 19, 5, silent).unwrap()), vec![10, 15]);
    assert_eq!(frequencies_of(&analyze(&[], 7, 7, 3, silent).unwrap()), vec![7]);
    assert_eq!(frequencies_of(run(Sweep::new(10, 20, 5).unwrap(), &[]).spectrum()), vec![10, 15, 20]);
    assert_eq!(frequencies_of(run(Sweep::new(10, 19, 5).unwrap(), &[]).spectrum()), vec![10, 15]);
}

#[test]
fn sweep_above_its_bound_is_over_at_once() {
    let never = |_: u64| -> Vec<Rotor> { panic!("asked for rotors") };
    assert_eq!(analyze(&[], 5, 4, 1, never), Ok(vec![]));
    let mut sweep = Sweep::new(5, 4, 1).unwrap();
    assert!(sweep.is_done());
    assert_eq!(sweep.pending(), None);
    assert_eq!(sweep.record(on_axis(1)), None);
    assert!(sweep.spectrum().is_empty());
    assert!(sweep.raw_peaks().is_empty());
    assert_eq!(sweep.peaks(), vec![]);
}

#[test]
fn sweep_stops_at_the_end_of_the_number_range() {
    let silent = |_: u64| -> Vec<Rotor> { vec![] };
    let spectrum = analyze(&[], u64::MAX - 5, u64::MAX, 4, silent).unwrap();
    assert_eq!(frequencies_of(&spectrum), vec![u64::MAX - 5, u64::MAX - 1]);
    let spectrum = analyze(&[], 0, u64::MAX, u64::MAX, silent).unwrap();
    assert_eq!(frequencies_of(&spectrum), vec![0, u64::MAX]);
    let sweep = run(Sweep::new(u64::MAX - 5, u64::MAX, 4).unwrap(), &[]);
    assert_eq!(frequencies_of(sweep.spectrum()), vec![u64::MAX - 5, u64::MAX - 1]);
}

#[test]
fn record_appends_at_the_pending_frequency() {
    let mut sweep = Sweep::new(3, 9, 3).unwrap();
    assert_eq!(sweep.pending(), Some(3));
    assert_eq!(sweep.record(Complex { re: 3, im: 5 }), None);
    assert_eq!(
        sweep.spectrum(),
        &vec![Phasor { frequency: 3, complex: Complex { re: 3, im: 5 } }]
    );
    assert_eq!(sweep.pending(), Some(6));
    assert!(!sweep.is_done());
}

#[test]
fn sweep_flags_local_peaks_as_it_grows() {
    let mut sweep = Sweep::new(1, 7, 1).unwrap();
    let magnitudes = [0, 4, 1, 2, 2, 1, 0];
    let mut flagged = vec![];
    for re in magnitudes {
        flagged.push(sweep.record(on_axis(re)));
    }
    // 4 tops both neighbours; of the two equal entries the second is the peak
    assert_eq!(flagged, vec![None, None, Some(1), None, None, Some(4), None]);
    assert_eq!(sweep.raw_peaks(), &vec![1, 4]);
    assert!(sweep.is_done());
    // once over, nothing changes any more
    assert_eq!(sweep.record(on_axis(100)), None);
    assert_eq!(sweep.spectrum().len(), 7);
    assert_eq!(sweep.raw_peaks(), &vec![1, 4]);
}

#[test]
fn sweep_adjusts_its_peaks() {
    // raw peaks at 1 (magnitude 9), 4 (magnitude 1) and 6 (magnitude 3)
    let sweep = run(Sweep::new(1, 8, 1).unwrap(), &[0, 9, 0, 0, 1, 0, 3, 0]);
    assert_eq!(sweep.raw_peaks(), &vec![1, 4, 6]);
    assert_eq!(sweep.peaks(), vec![2]);
}

#[test]
fn sweep_of_an_empty_series_is_silent() {
    let spectrum = analyze(&[], 1, 5, 1, |_| vec![Rotor { re: 1, im: 1 }]).unwrap();
    assert_eq!(spectrum.len(), 5);
    assert!(spectrum.iter().all(|p| p.complex == Complex { re: 0, im: 0 }));
}

#[test]
fn final_peaks_of_a_sweep_follow_their_raw_peaks() {
    let magnitudes = [0, 5, 1, 6, 6, 2, 7, 0];
    let sweep = run(Sweep::new(1, 8, 1).unwrap(), &magnitudes);
    assert_eq!(sweep.raw_peaks(), &vec![1, 4, 6]);
    let peaks = sweep.peaks();
    assert_eq!(peaks, vec![2, 5, 7]);
    for &p in &peaks {
        assert!(p < sweep.spectrum().len());
    }
}
