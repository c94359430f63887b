use serpentine::math::{Construct, MovingAverage};

#[test]
fn empty() {
    let a = MovingAverage::<u8, 5>::default();
    let s = a.avg();
    assert_eq!(s, None);
}

#[test]
fn neg() {
    let mut a = MovingAverage::<i8, 5>::new();
    a.push(3);
    a.push(-3);
    for _ in 2..5 {
        a.push(0);
    }
    let s = a.avg();
    assert_eq!(s, Some(0));
}

#[test]
fn rollover() {
    let mut a = MovingAverage::<u8, 5>::default();
    for _ in 0..5 {
        a.push(10);
    }
    a.push(5);
    assert_eq!(a.avg(), Some(45 / 5));

    a.push(5);
    assert_eq!(a.avg(), Some(40 / 5));
}

#[test]
fn constructs_an_empty_window() {
    let mut a: MovingAverage<u8, 2> = Construct::construct();
    assert_eq!(a.avg(), None);
    a.push(2);
    a.push(4);
    assert_eq!(a.avg(), Some(3));
}

#[test]
fn fills_before_reporting() {
    let mut a = MovingAverage::<u16, 3>::new();
    a.push(6);
    assert_eq!(a.avg(), None);
    a.push(7);
    assert_eq!(a.avg(), None);
    a.push(8);
    assert_eq!(a.avg(), Some(7));
}

#[test]
fn truncates_towards_zero() {
    let mut a = MovingAverage::<i32, 4>::new();
    a.push(-1);
    a.push(-1);
    a.push(-1);
    a.push(0);
    // -3 / 4 truncates to 0, as the machine division would
    assert_eq!(a.avg(), Some(0));
}
