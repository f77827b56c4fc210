use input_relay::feedback::{FeedbackEvent, LedEvent};
use input_relay::input::io4_serial::serial_slider::{
    HwInfoStep, InitStep, InputReader, ReceiveError, ReceiveStep, SerialSlider, SliderCommand,
};
use input_relay::input::io4_serial::{
    led_set_events, start_frames, ReaderStep, SliderReader, SliderSerialBackend,
    SliderSerialInputStateTracker, StartupError, StartupStage,
};
use input_relay::input::{InputEvent, InputEventPacket, KeyboardEvent};

fn slider() -> SerialSlider {
    SerialSlider::new("/dev/ttyS0".to_string())
}

fn sum(bytes: &[u8]) -> u32 {
    bytes.iter().map(|b| *b as u32).sum()
}

fn press(cell: usize) -> InputEvent {
    InputEvent::Keyboard(KeyboardEvent::KeyPress {
        key: format!("CHUNIIO_SLIDER_{}", cell),
    })
}

fn release(cell: usize) -> InputEvent {
    InputEvent::Keyboard(KeyboardEvent::KeyRelease {
        key: format!("CHUNIIO_SLIDER_{}", cell),
    })
}

fn feed(reader: &mut InputReader, bytes: &[u8]) -> Option<ReceiveStep> {
    for b in bytes {
        match reader.step(Some(*b)) {
            ReceiveStep::Read => {}
            done => return Some(done),
        }
    }
    None
}

#[test]
fn the_port_keeps_its_name() {
    assert_eq!(slider().port_name(), "/dev/ttyS0");
    assert!(format!("{:?}", slider()).contains("/dev/ttyS0"));
}

#[test]
fn checksums() {
    let s = slider();
    assert_eq!(s.checksum(&[]), 0);
    assert_eq!(s.checksum(&[0xff, 0x10, 0x00]), 0xf1);
    assert_eq!(s.checksum(&[0x80, 0x80]), 0);
    assert_eq!(s.checksum(&[1]), 255);
    assert_eq!(s.checksum(&[0xff; 300]), 44);
}

#[test]
fn command_frames() {
    let s = slider();
    assert_eq!(
        s.send_command(SliderCommand::SliderInit, None),
        vec![0xff, 0x10, 0x00, 0xf1]
    );
    assert_eq!(
        s.send_command(SliderCommand::HwInfo, None),
        vec![0xff, 0xf0, 0x00, 0x11]
    );
    assert_eq!(
        s.send_command(SliderCommand::InputStart, None),
        vec![0xff, 0x03, 0x00, 0xfe]
    );
    assert_eq!(
        s.send_command(SliderCommand::LedSet, Some(&[1, 2])),
        vec![0xff, 0x02, 0x5e, 0x7f, 1, 2, 0x1f]
    );
    assert_eq!(
        SerialSlider::create_command(SliderCommand::InputStart, Some(&[9])),
        vec![0xff, 0x03, 0x00, 9]
    );
    assert_eq!(SliderCommand::LedSet.code(), 2);
}

#[test]
fn every_frame_sums_to_nothing() {
    let s = slider();
    for n in 0..40u8 {
        let data: Vec<u8> = (0..n).map(|b| b.wrapping_mul(37)).collect();
        let frame = s.send_command(SliderCommand::LedSet, Some(&data));
        assert_eq!(sum(&frame) % 256, 0);
        assert_eq!(frame[4..4 + n as usize], data[..]);
    }
}

#[test]
fn frames_tell_command_and_data() {
    let s = slider();
    let mut frames = vec![];
    for command in [
        SliderCommand::SliderInit,
        SliderCommand::HwInfo,
        SliderCommand::LedSet,
        SliderCommand::InputStart,
    ] {
        frames.push(s.send_command(command, None));
        frames.push(s.send_command(command, Some(&[0])));
        frames.push(s.send_command(command, Some(&[0x5e])));
        frames.push(s.send_command(command, Some(&[0, 0])));
    }
    for i in 0..frames.len() {
        for j in 0..i {
            assert_ne!(frames[i], frames[j]);
        }
    }
    assert_eq!(frames[0], s.send_command(SliderCommand::SliderInit, Some(&[])));
}

#[test]
fn cells_have_different_keys() {
    let mut tracker = SliderSerialInputStateTracker::new();
    let events = tracker.diff_and_packet(&[255; 32], 0).unwrap().events;
    assert_eq!(events.len(), 32);
    for i in 0..32 {
        assert_eq!(events[i], press(i));
        for j in 0..i {
            assert_ne!(events[i], events[j]);
        }
    }
}

#[test]
fn touch_is_shown_on_the_leds() {
    let mut cells = [0u8; 32];
    cells[0] = 1;
    cells[3] = 200;
    cells[31] = 5;
    let frame = slider().send_led_reactive(cells);
    assert_eq!(frame.len(), 98);
    assert_eq!(frame[..4], [0xff, 0x02, 0x5e, 0x7f]);
    let led = |x: usize| [frame[4 + 3 * x], frame[5 + 3 * x], frame[6 + 3 * x]];
    assert_eq!(led(0), [0x23, 0, 0x7f]);
    assert_eq!(led(1), [0x7f, 0x23, 0]);
    assert_eq!(led(2), [0, 0x7f, 0x23]);
    assert_eq!(led(3), [0x7f, 0x23, 0]);
    assert_eq!(led(4), [0, 0, 0]);
    assert_eq!(led(30), [0, 0x7f, 0x23]);
    assert_eq!(sum(&frame) % 256, 0);
}

#[test]
fn initialization_is_tried_four_times() {
    let s = slider();
    let good = [0xff, 0x10, 0x00, 0xf1];
    let bad = [0u8; 4];
    assert_eq!(s.init_slider(0, &good), InitStep::Finished(true));
    assert_eq!(s.init_slider(0, &bad), InitStep::Retry { counter: 1 });
    assert_eq!(s.init_slider(2, &bad), InitStep::Retry { counter: 3 });
    assert_eq!(s.init_slider(3, &bad), InitStep::Finished(false));
    assert_eq!(s.init_slider(3, &good), InitStep::Finished(true));
}

#[test]
fn hardware_info() {
    let s = slider();
    let known: [u8; 22] = [
        0xff, 0xf0, 0x12, b'1', b'5', b'3', b'3', b'0', b' ', b' ', b' ', 0xa0, b'0', b'6', b'7',
        b'1', b'2', 0xfd, 0xfe, 0x90, 0x00, b'd',
    ];
    assert_eq!(
        s.get_hw_info(0, Some(&known)),
        HwInfoStep::Info(String::from_utf8_lossy(&known).to_string())
    );
    assert_eq!(
        s.get_hw_info(0, Some(&known)),
        HwInfoStep::Info(
            "\u{fffd}\u{fffd}\u{12}15330   \u{fffd}06712\u{fffd}\u{fffd}\u{fffd}\0d".to_string()
        )
    );
    let other = *b"another slider model..";
    assert_eq!(
        s.get_hw_info(0, Some(&other)),
        HwInfoStep::Retry { counter: 1 }
    );
    assert_eq!(
        s.get_hw_info(3, Some(&other)),
        HwInfoStep::Info("another slider model..".to_string())
    );
    assert_eq!(s.get_hw_info(0, None), HwInfoStep::ReadFailed);
    assert_eq!(s.get_hw_info(3, None), HwInfoStep::ReadFailed);
}

#[test]
fn a_report_is_received() {
    let mut report = [0u8; 32];
    for i in 0..32 {
        report[i] = 0xff - i as u8;
    }
    let mut bytes = vec![0x01, 0x20, 0x00, 0xff, 0xff, 0xff, 0x01, 0x20];
    bytes.extend_from_slice(&report);
    let mut reader = slider().receive_input();
    assert_eq!(feed(&mut reader, &bytes), None);
    assert_eq!(
        reader.step(None),
        ReceiveStep::Finished(Ok(Some(report)))
    );
    // and a second one with the same reader
    assert_eq!(feed(&mut reader, &bytes[3..]), None);
    assert_eq!(
        reader.step(Some(0x77)),
        ReceiveStep::Finished(Ok(Some(report)))
    );
}

#[test]
fn silence_gives_up_the_report() {
    let bytes = [0x05, 0xff, 0xff, 0x01, 0x20, 1, 2, 3];
    for n in 0..=bytes.len() {
        let mut reader = slider().receive_input();
        assert_eq!(feed(&mut reader, &bytes[..n]), None);
        assert_eq!(reader.step(None), ReceiveStep::Finished(Ok(None)));
    }
}

#[test]
fn other_reports_are_errors() {
    let mut reader = slider().receive_input();
    assert_eq!(
        feed(&mut reader, &[0xff, 0x10]),
        Some(ReceiveStep::Finished(Err(
            ReceiveError::UnexpectedCommand(0x10)
        )))
    );
    assert_eq!(
        feed(&mut reader, &[0xff, 0x01, 0xff]),
        Some(ReceiveStep::Finished(Err(ReceiveError::UnexpectedLength(
            0xff
        ))))
    );
    assert_eq!(
        ReceiveError::UnexpectedCommand(0x10).to_string(),
        "Unexpected command type"
    );
    assert_eq!(
        ReceiveError::UnexpectedLength(0xff).to_string(),
        "Unexpected packet length"
    );
}

#[test]
fn only_changes_are_reported() {
    let mut tracker = SliderSerialInputStateTracker::new();
    let mut cells = [0u8; 32];
    assert_eq!(tracker.diff_and_packet(&cells, 1), None);
    cells[0] = 128;
    cells[12] = 255;
    cells[31] = 127;
    assert_eq!(
        tracker.diff_and_packet(&cells, 2),
        Some(InputEventPacket {
            device_id: "io4_serial".to_string(),
            timestamp: 2,
            events: vec![press(0), press(12)],
        })
    );
    cells[12] = 200;
    assert_eq!(tracker.diff_and_packet(&cells, 3), None);
    cells[0] = 127;
    cells[31] = 128;
    assert_eq!(
        tracker.diff_and_packet(&cells, 4),
        Some(InputEventPacket {
            device_id: "io4_serial".to_string(),
            timestamp: 4,
            events: vec![release(0), press(31)],
        })
    );
}

#[test]
fn reports_follow_the_cells() {
    let mut tracker = SliderSerialInputStateTracker::new();
    let mut down = vec![false; 32];
    let mut cells = [0u8; 32];
    for round in 0..50usize {
        for i in 0..32 {
            cells[i] = ((round * 37 + i * 91 + round * i * 13) % 256) as u8;
        }
        if let Some(packet) = tracker.diff_and_packet(&cells, round as u64) {
            for event in packet.events {
                for i in 0..32 {
                    if event == press(i) {
                        assert!(!down[i]);
                        down[i] = true;
                    } else if event == release(i) {
                        assert!(down[i]);
                        down[i] = false;
                    }
                }
            }
        }
        for i in 0..32 {
            assert_eq!(down[i], cells[i] >= 128);
        }
    }
}

#[test]
fn the_reader_reports_and_restarts() {
    let s = slider();
    let mut touch = [0u8; 32];
    touch[0] = 200;
    let mut reader = SliderReader::new(false);
    match reader.step(&s, Ok(Some(touch)), 5) {
        ReaderStep::Report { led_frame, packet } => {
            assert_eq!(led_frame, Some(s.send_led_reactive(touch)));
            // the first byte on the wire is the last cell
            assert_eq!(packet.unwrap().events, vec![press(31)]);
        }
        _ => panic!("expected a report"),
    }
    match reader.step(&s, Ok(Some(touch)), 6) {
        ReaderStep::Report { led_frame, packet } => {
            assert!(led_frame.is_some());
            assert!(packet.is_none());
        }
        _ => panic!("expected a report"),
    }
    let start = s.send_command(SliderCommand::InputStart, None);
    let restart = |reader: &mut SliderReader, received| match reader.step(&s, received, 7) {
        ReaderStep::Missed { restart_frame } => restart_frame,
        _ => panic!("expected a miss"),
    };
    assert_eq!(restart(&mut reader, Ok(None)), None);
    assert_eq!(
        restart(&mut reader, Err(ReceiveError::UnexpectedCommand(9))),
        Some(start.clone())
    );
    assert_eq!(restart(&mut reader, Ok(None)), None);
    // a report in between does not start the count again
    let _ = reader.step(&s, Ok(Some(touch)), 8);
    assert_eq!(restart(&mut reader, Ok(None)), Some(start));
}

#[test]
fn a_series_of_reports_and_misses() {
    let s = slider();
    for proxy in [false, true] {
        let mut reader = SliderReader::new(proxy);
        let mut last = [0u8; 32];
        for round in 0..40usize {
            if round % 3 == 2 {
                match reader.step(&s, Ok(None), round as u64) {
                    ReaderStep::Missed { restart_frame } => {
                        assert_eq!(restart_frame.is_some(), (round / 3) % 2 == 1)
                    }
                    _ => panic!("expected a miss"),
                }
                continue;
            }
            let mut touch = [0u8; 32];
            for k in 0..32 {
                touch[k] = ((round / 2 * 53 + k * 29 + round / 2 * k * 7) % 256) as u8;
            }
            let mut expected = vec![];
            for i in 0..32 {
                if last[31 - i] < 128 && touch[31 - i] >= 128 {
                    expected.push(press(i));
                } else if last[31 - i] >= 128 && touch[31 - i] < 128 {
                    expected.push(release(i));
                }
            }
            match reader.step(&s, Ok(Some(touch)), round as u64) {
                ReaderStep::Report { led_frame, packet } => {
                    assert_eq!(led_frame.is_none(), proxy);
                    match packet {
                        Some(packet) => {
                            assert_eq!(packet.device_id, "io4_serial");
                            assert_eq!(packet.timestamp, round as u64);
                            assert_eq!(packet.events, expected);
                        }
                        None => assert!(expected.is_empty()),
                    }
                }
                _ => panic!("expected a report"),
            }
            last = touch;
        }
    }
}

#[test]
fn with_a_proxy_the_leds_are_left_alone() {
    let mut touch = [0u8; 32];
    touch[31] = 128;
    let mut reader = SliderReader::new(true);
    match reader.step(&slider(), Ok(Some(touch)), 5) {
        ReaderStep::Report { led_frame, packet } => {
            assert_eq!(led_frame, None);
            assert_eq!(packet.unwrap().events, vec![press(0)]);
        }
        _ => panic!("expected a report"),
    }
}

#[test]
fn startup() {
    let ok = StartupStage::Opening.next(true);
    assert_eq!(ok, StartupStage::Initializing);
    assert_eq!(ok.next(true), StartupStage::Querying);
    assert_eq!(ok.next(true).next(true), StartupStage::Pausing);
    assert_eq!(ok.next(true).next(true).next(true), StartupStage::Running);
    assert_eq!(
        StartupStage::Opening.next(false),
        StartupStage::Failed(StartupError::Unreachable)
    );
    assert_eq!(
        ok.next(false),
        StartupStage::Failed(StartupError::NotInitialized)
    );
    assert_eq!(
        ok.next(true).next(false).next(true),
        StartupStage::Failed(StartupError::NoHwInfo)
    );
    assert_eq!(
        StartupError::Unreachable.to_string(),
        "Failed to talk to slider"
    );
    assert_eq!(
        StartupError::NotInitialized.to_string(),
        "Failed to initialize slider. Make sure it is connected"
    );
    assert_eq!(
        StartupError::NoHwInfo.to_string(),
        "Failed to get slider hardware info"
    );
}

#[test]
fn start_of_touch_input() {
    let s = slider();
    let (start, dark) = start_frames(&s);
    assert_eq!(start, vec![0xff, 0x03, 0x00, 0xfe]);
    assert_eq!(dark, s.send_led_reactive([0; 32]));
}

#[test]
fn only_led_settings_are_shown() {
    let set = |led_id| {
        FeedbackEvent::Led(LedEvent::SetLed {
            led_id,
            on: true,
            brightness: None,
            rgb: Some((1, 2, 3)),
        })
    };
    let events = vec![
        FeedbackEvent::Other(1),
        set(4),
        FeedbackEvent::Led(LedEvent::Effect(2)),
        set(3),
    ];
    assert_eq!(led_set_events(&events), vec![set(4), set(3)]);
    assert_eq!(led_set_events(&vec![]), vec![]);
}

#[test]
fn a_backend_of_its_parts() {
    let backend = SliderSerialBackend::new(true, "COM3".to_string(), 1u8, 2u16);
    assert!(backend.has_chuniio_proxy_config);
    assert_eq!(backend.serial_port, "COM3");
    assert_eq!(backend.input_stream, 1);
    assert_eq!(backend.feedback_stream, 2);
}
