use fft::layout::{circle_area, spectrum_area, waveform_area, Area};

#[test]
fn charts_on_a_common_terminal() {
    assert_eq!(circle_area(80, 24), Area { x: 0, y: 0, width: 24, height: 12 });
    assert_eq!(waveform_area(80, 24), Area { x: 24, y: 0, width: 56, height: 12 });
    assert_eq!(spectrum_area(80, 24), Area { x: 0, y: 12, width: 80, height: 12 });
}

#[test]
fn charts_on_an_odd_height() {
    assert_eq!(circle_area(80, 25), Area { x: 0, y: 0, width: 24, height: 12 });
    assert_eq!(waveform_area(80, 25), Area { x: 25, y: 0, width: 55, height: 12 });
    assert_eq!(spectrum_area(80, 25), Area { x: 0, y: 12, width: 80, height: 12 });
}

#[test]
fn charts_on_a_narrow_terminal() {
    assert_eq!(circle_area(10, 24), Area { x: 0, y: 0, width: 10, height: 12 });
    assert_eq!(waveform_area(10, 24), Area { x: 10, y: 0, width: 0, height: 12 });
    assert_eq!(spectrum_area(10, 24), Area { x: 0, y: 12, width: 10, height: 12 });
}

#[test]
fn charts_at_the_limits() {
    assert_eq!(circle_area(0, 0), Area { x: 0, y: 0, width: 0, height: 0 });
    assert_eq!(waveform_area(0, 0), Area { x: 0, y: 0, width: 0, height: 0 });
    assert_eq!(spectrum_area(0, 0), Area { x: 0, y: 0, width: 0, height: 0 });
    assert_eq!(
        circle_area(u16::MAX, u16::MAX),
        Area { x: 0, y: 0, width: u16::MAX - 1, height: u16::MAX / 2 }
    );
    assert_eq!(
        waveform_area(u16::MAX, u16::MAX),
        Area { x: u16::MAX, y: 0, width: 0, height: u16::MAX / 2 }
    );
    assert_eq!(
        spectrum_area(u16::MAX, u16::MAX),
        Area { x: 0, y: u16::MAX / 2, width: u16::MAX, height: u16::MAX / 2 }
    );
}
