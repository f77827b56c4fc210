use input_relay::input::atomic::{AtomicInputProcessor, BatchingConfig, ProcessingError};
use input_relay::input::{InputEvent, InputEventPacket, KeyboardEvent};
use std::time::{SystemTime, UNIX_EPOCH};

fn key(name: &str) -> InputEvent {
    InputEvent::Keyboard(KeyboardEvent::KeyPress {
        key: name.to_string(),
    })
}

fn packet(device_id: &str, timestamp: u64, keys: &[&str]) -> InputEventPacket {
    InputEventPacket {
        device_id: device_id.to_string(),
        timestamp,
        events: keys.iter().map(|k| key(k)).collect(),
    }
}

fn processor(max_batch_delay: u128, max_buffer_per_device: usize) -> AtomicInputProcessor {
    AtomicInputProcessor::new(BatchingConfig {
        max_batch_delay,
        max_batch_size: 1,
        max_buffer_per_device,
    })
}

#[test]
fn test_out_of_order_rejection() {
    let mut processor = AtomicInputProcessor::new(BatchingConfig::default());

    let timestamp = SystemTime::now()
        .duration_since(UNIX_EPOCH)
        .unwrap()
        .as_millis() as u64;

    let packet1 = InputEventPacket {
        device_id: "test-device".to_string(),
        timestamp: timestamp + 100,
        events: vec![],
    };
    let packet2 = InputEventPacket {
        device_id: "test-device".to_string(),
        timestamp, // Older
        events: vec![],
    };

    // Process newer packet first
    processor.process_packet(packet1, 0).unwrap();

    // Older packet should be rejected
    let result = processor.process_packet(packet2, 1).unwrap();
    assert!(result.is_none());
}

#[test]
fn default_configuration() {
    let config = BatchingConfig::default();
    assert_eq!(config.max_batch_delay, 1_000_000);
    assert_eq!(config.max_batch_size, 1);
    assert_eq!(config.max_buffer_per_device, 5);
    let copy = config.clone();
    assert_eq!(copy.max_batch_delay, 1_000_000);
    assert_eq!(copy.max_batch_size, 1);
    assert_eq!(copy.max_buffer_per_device, 5);
}

#[test]
fn packets_come_out_at_once_and_unchanged() {
    let mut p = AtomicInputProcessor::new(BatchingConfig::default());
    for (id, time, keys) in [
        ("a", 5, vec!["X", "Y"]),
        ("b", 1, vec!["Z"]),
        ("a", 5, vec!["X"]),
        ("a", 9, vec!["Q"]),
    ] {
        let sent = packet(id, time, &keys);
        assert_eq!(p.process_packet(sent.clone(), 0).unwrap(), Some(sent));
    }
    assert!(p.flush_all().is_empty());
    assert!(p.expired_devices(u128::MAX).is_empty());
}

#[test]
fn empty_packets_give_nothing_but_count() {
    let mut p = AtomicInputProcessor::new(BatchingConfig::default());
    assert_eq!(p.process_packet(packet("a", 10, &[]), 0).unwrap(), None);
    assert_eq!(p.process_packet(packet("a", 9, &["X"]), 0).unwrap(), None);
    assert_eq!(
        p.process_packet(packet("a", 10, &["X"]), 0).unwrap(),
        Some(packet("a", 10, &["X"]))
    );
}

#[test]
fn devices_do_not_interfere() {
    let mut p = AtomicInputProcessor::new(BatchingConfig::default());
    p.process_packet(packet("pad@1", 100, &["X"]), 0).unwrap();
    assert_eq!(
        p.process_packet(packet("pad@2", 50, &["Y"]), 0).unwrap(),
        Some(packet("pad@2", 50, &["Y"]))
    );
    assert!(!p.should_process_packet(&packet("pad@1", 99, &[])));
    assert!(p.should_process_packet(&packet("pad@2", 51, &[])));
}

#[test]
fn queued_packets_become_one_batch() {
    let mut p = processor(10, 5);
    p.buffer_packet(packet("a", 3, &["X"]), 0);
    p.buffer_packet(packet("a", 8, &["Y", "Z"]), 1);
    p.buffer_packet(packet("a", 5, &[]), 2);
    assert!(p.should_flush_batch("a"));
    assert!(!p.should_flush_batch("b"));
    assert_eq!(
        p.flush_device_batch("a").unwrap(),
        Some(packet("a", 8, &["X", "Y", "Z"]))
    );
    assert!(!p.should_flush_batch("a"));
    assert_eq!(p.flush_device_batch("a").unwrap(), None);
    assert_eq!(p.flush_device_batch("b").unwrap(), None);
}

#[test]
fn a_full_queue_loses_its_oldest_packet() {
    let mut p = processor(10, 2);
    p.buffer_packet(packet("a", 1, &["X"]), 0);
    p.buffer_packet(packet("a", 2, &["Y"]), 0);
    p.buffer_packet(packet("a", 3, &["Z"]), 0);
    assert_eq!(
        p.flush_device_batch("a").unwrap(),
        Some(packet("a", 3, &["Y", "Z"]))
    );
    let mut p = processor(10, 0);
    p.buffer_packet(packet("a", 1, &["X"]), 0);
    p.buffer_packet(packet("a", 2, &["Y"]), 0);
    assert_eq!(
        p.process_packet(packet("a", 4, &["Z"]), 0).unwrap(),
        Some(packet("a", 4, &["Z"]))
    );
}

#[test]
fn everything_is_flushed() {
    let mut p = processor(10, 5);
    p.buffer_packet(packet("a", 1, &["X"]), 0);
    p.buffer_packet(packet("b", 2, &[]), 0);
    p.buffer_packet(packet("c", 3, &["Y"]), 0);
    p.buffer_packet(packet("c", 2, &["Z"]), 0);
    let mut batches = p.flush_all();
    batches.sort_by(|x, y| x.device_id.cmp(&y.device_id));
    assert_eq!(
        batches,
        vec![packet("a", 1, &["X"]), packet("c", 3, &["Y", "Z"])]
    );
    assert!(p.flush_all().is_empty());
}

#[test]
fn expiry_depends_on_the_oldest_packet() {
    let mut p = processor(10, 5);
    p.buffer_packet(packet("a", 1, &["X"]), 100);
    p.buffer_packet(packet("a", 2, &["Y"]), 200);
    p.buffer_packet(packet("b", 1, &["Z"]), 105);
    assert!(p.expired_devices(109).is_empty());
    assert_eq!(p.expired_devices(110), vec!["a".to_string()]);
    assert_eq!(p.expired_devices(115).len(), 2);
    assert!(p.expired_devices(0).is_empty());
    p.flush_device_batch("a").unwrap();
    assert_eq!(p.expired_devices(1000), vec!["b".to_string()]);
}

#[test]
fn a_copy_starts_afresh() {
    let mut p = processor(10, 1);
    p.process_packet(packet("a", 50, &["X"]), 0).unwrap();
    p.buffer_packet(packet("a", 60, &["Y"]), 0);
    let mut copy = p.clone();
    assert!(!copy.should_flush_batch("a"));
    assert_eq!(
        copy.process_packet(packet("a", 1, &["Z"]), 0).unwrap(),
        Some(packet("a", 1, &["Z"]))
    );
    assert!(p.should_flush_batch("a"));
    // the copy has the same limits
    copy.buffer_packet(packet("b", 1, &["X"]), 0);
    copy.buffer_packet(packet("b", 2, &["Y"]), 5);
    assert!(copy.expired_devices(14).is_empty());
    assert_eq!(copy.expired_devices(15), vec!["b".to_string()]);
    assert_eq!(
        copy.flush_device_batch("b").unwrap(),
        Some(packet("b", 2, &["Y"]))
    );
}

#[test]
fn outputs_of_a_device_are_in_order_of_time() {
    let mut p = AtomicInputProcessor::new(BatchingConfig::default());
    let mut last = [0u64; 3];
    let mut passed = 0;
    for step in 0..200u64 {
        let device = (step % 3) as usize;
        let time = (step * 7919) % 101;
        let sent = packet(["a", "b", "c"][device], time, &["X"]);
        match p.process_packet(sent.clone(), step as u128).unwrap() {
            Some(out) => {
                assert_eq!(out, sent);
                assert!(out.timestamp >= last[device]);
                last[device] = out.timestamp;
                passed += 1;
            }
            None => assert!(time < last[device]),
        }
    }
    assert!(passed > 3);
}

#[test]
fn batches_hold_packets_of_one_device() {
    let mut p = processor(10, 5);
    p.buffer_packet(packet("a", 1, &["X"]), 0);
    p.buffer_packet(packet("b", 9, &["Y"]), 0);
    p.buffer_packet(packet("a", 2, &["Z"]), 0);
    assert_eq!(
        p.process_packet(packet("a", 3, &["W"]), 0).unwrap(),
        Some(packet("a", 3, &["X", "Z", "W"]))
    );
    assert_eq!(
        p.flush_device_batch("b").unwrap(),
        Some(packet("b", 9, &["Y"]))
    );
}

#[test]
fn errors_have_texts() {
    assert_eq!(
        ProcessingError::BufferOverflow.to_string(),
        "Device buffer overflow"
    );
    assert_eq!(
        ProcessingError::InvalidTimestamp.to_string(),
        "Invalid packet timestamp"
    );
    assert_eq!(ProcessingError::Timeout.to_string(), "Processing timeout");
}
