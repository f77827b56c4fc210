//! Verified core of an input relay: remapping of device events, batching of
//! packets per device and the wire protocol of a serial touch slider.

pub mod config;
pub mod device_filter;
pub mod feedback;
pub mod input;
pub mod string_map;
pub mod text;
