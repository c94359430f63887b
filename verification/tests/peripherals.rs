use serpentine::peripherals::{Axis, Stick};

#[test]
fn axis_starts_open() {
    let a = Axis::new();
    assert_eq!(a.min_value(), u16::MAX);
    assert_eq!(a.max_value(), 0);
    assert_eq!(a.mid_value(), 0);
    assert!(!a.done());
}

#[test]
fn axis_tracks_extremes() {
    let mut a = Axis::new();
    a.feed(100);
    a.feed(4000);
    a.feed(700);
    assert_eq!(a.min_value(), 100);
    assert_eq!(a.max_value(), 4000);
    a.set_mid(2048);
    assert_eq!(a.mid_value(), 2048);
    a.set_done(true);
    assert!(a.done());
}

#[test]
fn stick_axes_are_independent() {
    let mut s = Stick::default();
    s.x_mut().feed(10);
    s.x_mut().feed(20);
    s.y_mut().feed(3000);
    assert_eq!(s.x_mut().min_value(), 10);
    assert_eq!(s.x_mut().max_value(), 20);
    assert_eq!(s.y_mut().min_value(), 3000);
    assert_eq!(s.y_mut().max_value(), 3000);
}
