//! Joystick calibration state: each axis tracks the smallest, largest and
//! centre raw reading it has seen, and whether calibration has finished. The
//! rescaling of a raw reading into a signed ratio is floating-point work and
//! lives with the hardware glue, which reads the tracked bounds from here.

use vstd::prelude::*;

verus! {

/// Calibration state of one analog axis.
#[derive(Debug)]
pub struct Axis {
    min: u16,
    max: u16,
    mid: u16,
    done: bool,
}

impl Axis {
    /// Smallest raw reading seen so far.
    pub closed spec fn min_seen(self) -> u16 {
        self.min
    }

    /// Largest raw reading seen so far.
    pub closed spec fn max_seen(self) -> u16 {
        self.max
    }

    /// Centre position of the axis.
    pub closed spec fn mid_point(self) -> u16 {
        self.mid
    }

    /// Whether calibration has finished.
    pub closed spec fn is_done(self) -> bool {
        self.done
    }

    /// A fresh axis: no reading seen yet, so the tracked bounds start at the
    /// extremes that any reading will tighten.
    pub fn new() -> (a: Axis)
        ensures
            a.min_seen() == u16::MAX,
            a.max_seen() == 0,
            a.mid_point() == 0,
            !a.is_done(),
    {
        Default::default()
    }

    pub fn set_mid(&mut self, val: u16)
        ensures
            final(self).mid_point() == val,
            final(self).min_seen() == old(self).min_seen(),
            final(self).max_seen() == old(self).max_seen(),
            final(self).is_done() == old(self).is_done(),
    {
        self.mid = val;
    }

    /// Widens the tracked range to cover the reading `val`.
    pub fn feed(&mut self, val: u16)
        ensures
            final(self).min_seen() == if val < old(self).min_seen() {
                val
            } else {
                old(self).min_seen()
            },
            final(self).max_seen() == if val > old(self).max_seen() {
                val
            } else {
                old(self).max_seen()
            },
            final(self).mid_point() == old(self).mid_point(),
            final(self).is_done() == old(self).is_done(),
    {
        if val < self.min {
            self.min = val;
        }
        if val > self.max {
            self.max = val;
        }
    }

    pub fn done(&self) -> (d: bool)
        ensures
            d == self.is_done(),
    {
        self.done
    }

    pub fn set_done(&mut self, done: bool)
        ensures
            final(self).is_done() == done,
            final(self).min_seen() == old(self).min_seen(),
            final(self).max_seen() == old(self).max_seen(),
            final(self).mid_point() == old(self).mid_point(),
    {
        self.done = done;
    }

    /// Smallest raw reading seen so far, for the rescaling glue.
    pub fn min_value(&self) -> (v: u16)
        ensures
            v == self.min_seen(),
    {
        self.min
    }

    /// Largest raw reading seen so far, for the rescaling glue.
    pub fn max_value(&self) -> (v: u16)
        ensures
            v == self.max_seen(),
    {
        self.max
    }

    /// Centre position, for the rescaling glue.
    pub fn mid_value(&self) -> (v: u16)
        ensures
            v == self.mid_point(),
    {
        self.mid
    }
}

impl Default for Axis {
    fn default() -> (a: Axis)
        ensures
            a.min_seen() == u16::MAX,
            a.max_seen() == 0,
            a.mid_point() == 0,
            !a.is_done(),
    {
        let min = u16::MAX;
        let max = u16::MIN;
        Axis { min, max, mid: 0, done: false }
    }
}

/// A two-axis stick.
#[derive(Debug)]
pub struct Stick {
    x: Axis,
    y: Axis,
}

impl Stick {
    pub closed spec fn x_axis(self) -> Axis {
        self.x
    }

    pub closed spec fn y_axis(self) -> Axis {
        self.y
    }

    pub fn x_mut(&mut self) -> (a: &mut Axis)
        ensures
            *a == old(self).x_axis(),
            final(self).x_axis() == *final(a),
            final(self).y_axis() == old(self).y_axis(),
    {
        &mut self.x
    }

    pub fn y_mut(&mut self) -> (a: &mut Axis)
        ensures
            *a == old(self).y_axis(),
            final(self).y_axis() == *final(a),
            final(self).x_axis() == old(self).x_axis(),
    {
        &mut self.y
    }
}

impl Default for Stick {
    fn default() -> (s: Stick)
        ensures
            s.x_axis().min_seen() == u16::MAX,
            s.x_axis().max_seen() == 0,
            s.x_axis().mid_point() == 0,
            !s.x_axis().is_done(),
            s.y_axis().min_seen() == u16::MAX,
            s.y_axis().max_seen() == 0,
            s.y_axis().mid_point() == 0,
            !s.y_axis().is_done(),
    {
        Stick { x: Default::default(), y: Default::default() }
    }
}

} // verus!
