# input_relay

The verified core of a relay for input devices.

- `src/device_filter.rs`: key expressions, and the per-device remapping and filtering of events.
- `src/input/atomic.rs`: one queue of packets per device, in the order of their timestamps.
- `src/input/io4_serial/`: a serial touch slider: its wire protocol, the changes that a touch
  report stands for, and how the slider is started and kept going.
- `src/config.rs`, `src/feedback.rs`, `src/input/mod.rs`: the types these work on.
- `src/text.rs`, `src/string_map.rs`: text operations and a map with text keys.

Every function of `src/` states in its contract what it computes, over mathematical models of the
types; proof functions named `law_...` state what holds of several functions together. `app/` does
what the library leaves to its caller: it opens and reads the serial port, takes the time, waits,
and shares state between tasks.
