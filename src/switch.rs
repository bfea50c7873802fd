//! The state of the on-screen load switch.
use vstd::prelude::*;

verus! {

/// A two-position switch for the load output, with a label for each position.
#[derive(Debug, Clone, Copy)]
pub struct LoadToggleSwitch<'a> {
    pub is_on: bool,
    pub labels: (&'a str, &'a str),
}

impl<'a> LoadToggleSwitch<'a> {
    pub fn new(is_on: bool, labels: (&'a str, &'a str)) -> (r: LoadToggleSwitch<'a>)
        ensures
            r.is_on == is_on,
            r.labels == labels,
    {
        LoadToggleSwitch { is_on, labels }
    }

    /// Flips the switch and returns its new position, which is the load
    /// state to request from the device.
    pub fn toggle(&mut self) -> (r: bool)
        ensures
            final(self).is_on == !old(self).is_on,
            final(self).labels == old(self).labels,
            r == final(self).is_on,
    {
        self.is_on = !self.is_on;
        self.is_on
    }

    /// The label of the current position.
    pub fn active_label(&self) -> (r: &'a str)
        ensures
            r == (if self.is_on {
                self.labels.0
            } else {
                self.labels.1
            }),
    {
        if self.is_on {
            self.labels.0
        } else {
            self.labels.1
        }
    }
}

} // verus!
