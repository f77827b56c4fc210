//! Feedback events, which travel from the application to the devices.

use vstd::prelude::*;

verus! {

/// A change of the lights of a device.
#[derive(Clone, Copy, Debug, PartialEq, Eq)]
pub enum LedEvent {
    /// Sets one LED.
    SetLed {
        led_id: u8,
        on: bool,
        brightness: Option<u8>,
        rgb: Option<(u8, u8, u8)>,
    },
    /// Any other light effect, told apart by a number.
    Effect(u32),
}

/// One feedback event.
#[derive(Clone, Copy, Debug, PartialEq, Eq)]
pub enum FeedbackEvent {
    Led(LedEvent),
    /// Feedback other than light, told apart by a number.
    Other(u32),
}

} // verus!
