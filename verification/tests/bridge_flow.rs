//! Bridge assembly and inbound dispatch, end to end.

use knx_bridge::bridge::{assemble, BufferCell, BufferPolicy, DeliveryOptions, Direction,
    LinkBinding, RecordKind, RecordSpec, RecordValue};
use knx_bridge::errors::{BindingError, DecodeError};
use knx_bridge::bridge::WireFormat;

fn inbound(endpoint: &str, format: WireFormat) -> LinkBinding {
    LinkBinding {
        direction: Direction::Inbound,
        endpoint: endpoint.to_string(),
        format,
        options: DeliveryOptions { qos: 0, retain: false },
    }
}

fn outbound(endpoint: &str, format: WireFormat) -> LinkBinding {
    LinkBinding {
        direction: Direction::Outbound,
        endpoint: endpoint.to_string(),
        format,
        options: DeliveryOptions { qos: 1, retain: false },
    }
}

fn switch_spec() -> RecordSpec {
    RecordSpec {
        kind: RecordKind::State,
        address: "1/0/7".to_string(),
        policy: BufferPolicy::SingleLatest,
        inbound: Some(inbound("knx://1/0/7", WireFormat::BusBool)),
        outbound: vec![outbound("mqtt://knx/lights/state", WireFormat::Text)],
        monitor: true,
        max_subscribers: 2,
    }
}

fn control_spec() -> RecordSpec {
    RecordSpec {
        kind: RecordKind::Control,
        address: "1/0/6".to_string(),
        policy: BufferPolicy::SpmcRing { capacity: 8 },
        inbound: Some(inbound("mqtt://knx/lights/control", WireFormat::Text)),
        outbound: vec![outbound("knx://1/0/6", WireFormat::BusBool)],
        monitor: true,
        max_subscribers: 2,
    }
}

fn temperature_spec() -> RecordSpec {
    RecordSpec {
        kind: RecordKind::Reading,
        address: "9/1/0".to_string(),
        policy: BufferPolicy::SingleLatest,
        inbound: Some(inbound("knx://9/1/0", WireFormat::BusTemp)),
        outbound: vec![outbound("mqtt://knx/temperature/state", WireFormat::Text)],
        monitor: false,
        max_subscribers: 2,
    }
}

#[test]
fn end_to_end_switch_press() {
    // inbound bus payload 0x01 on the switch's source endpoint turns the
    // cell on, publishes the textual payload to the broker endpoint, and
    // the monitor logs the transition exactly once
    let mut bridge = assemble(vec![switch_spec(), temperature_spec(), control_spec()]).unwrap();
    let d = bridge.handle_inbound("knx://1/0/7", &[0x01]);
    assert!(d.routed);
    assert_eq!(d.decode_error, None);

    match &bridge.records[0].cell {
        BufferCell::Latest(c) => match c.read() {
            Some(RecordValue::State(s)) => {
                assert_eq!(s.address, "1/0/7");
                assert!(s.is_on);
            },
            other => panic!("unexpected cell content: {:?}", other),
        },
        BufferCell::Ring(_) => panic!("expected a latest-value cell"),
    }

    assert_eq!(d.publishes.len(), 1);
    assert_eq!(d.publishes[0].endpoint, "mqtt://knx/lights/state");
    assert_eq!(
        String::from_utf8(d.publishes[0].payload.clone()).unwrap(),
        "{\"address\":\"1/0/7\",\"is_on\":true,\"timestamp\":0}"
    );
    assert_eq!(d.publishes[0].options, DeliveryOptions { qos: 1, retain: false });

    assert_eq!(d.monitor_lines.len(), 1);
    assert_eq!(d.monitor_lines[0], "switch state: 1/0/7 = ON");
}

#[test]
fn malformed_bus_payload_keeps_last_known_good_value() {
    let mut bridge = assemble(vec![switch_spec()]).unwrap();
    bridge.handle_inbound("knx://1/0/7", &[0x01]);
    // a three-byte payload for a one-byte boolean datapoint is discarded
    let d = bridge.handle_inbound("knx://1/0/7", &[1, 0, 1]);
    assert!(d.routed);
    assert_eq!(d.decode_error, Some(DecodeError::LengthMismatch));
    assert!(d.publishes.is_empty());
    assert!(d.monitor_lines.is_empty());
    match &bridge.records[0].cell {
        BufferCell::Latest(c) => match c.read() {
            Some(RecordValue::State(s)) => assert!(s.is_on),
            other => panic!("unexpected cell content: {:?}", other),
        },
        BufferCell::Ring(_) => panic!("expected a latest-value cell"),
    }
}

#[test]
fn textual_command_reaches_bus_encoding() {
    let mut bridge = assemble(vec![control_spec()]).unwrap();
    let d = bridge.handle_inbound(
        "mqtt://knx/lights/control",
        b"{\"address\":\"1/0/6\",\"is_on\":true}",
    );
    assert!(d.routed);
    assert_eq!(d.decode_error, None);
    assert_eq!(d.publishes.len(), 1);
    assert_eq!(d.publishes[0].endpoint, "knx://1/0/6");
    assert_eq!(d.publishes[0].payload, vec![0x01]);
    assert_eq!(d.monitor_lines[0], "switch control: 1/0/6 = ON");
}

#[test]
fn temperature_telegram_reaches_broker() {
    let mut bridge = assemble(vec![temperature_spec()]).unwrap();
    let d = bridge.handle_inbound("knx://9/1/0", &[0x0C, 0x1A]);
    assert!(d.routed);
    assert_eq!(d.publishes.len(), 1);
    assert_eq!(
        String::from_utf8(d.publishes[0].payload.clone()).unwrap(),
        "{\"address\":\"9/1/0\",\"celsius\":21.00,\"timestamp\":0}"
    );
    // no monitor registered: no log line
    assert!(d.monitor_lines.is_empty());
}

#[test]
fn unbound_endpoint_is_ignored() {
    let mut bridge = assemble(vec![switch_spec()]).unwrap();
    let d = bridge.handle_inbound("knx://0/0/0", &[0x01]);
    assert!(!d.routed);
    assert!(d.publishes.is_empty());
    assert!(d.monitor_lines.is_empty());
    assert_eq!(d.decode_error, None);
}

#[test]
fn fanout_fires_in_registration_order_and_independently() {
    let mut spec = switch_spec();
    spec.outbound = vec![
        outbound("mqtt://a", WireFormat::Text),
        outbound("knx://1/0/9", WireFormat::BusBool),
        outbound("mqtt://b", WireFormat::Text),
    ];
    let mut bridge = assemble(vec![spec]).unwrap();
    let d = bridge.handle_inbound("knx://1/0/7", &[0x00]);
    assert_eq!(d.publishes.len(), 3);
    assert_eq!(d.publishes[0].endpoint, "mqtt://a");
    assert_eq!(d.publishes[1].endpoint, "knx://1/0/9");
    assert_eq!(d.publishes[1].payload, vec![0x00]);
    assert_eq!(d.publishes[2].endpoint, "mqtt://b");
}

#[test]
fn assembly_is_all_or_nothing() {
    // a ring of capacity zero
    let mut bad = control_spec();
    bad.policy = BufferPolicy::SpmcRing { capacity: 0 };
    assert_eq!(
        assemble(vec![switch_spec(), bad]).err().unwrap(),
        BindingError::ZeroCapacity
    );

    // an inbound binding registered with the outbound direction
    let mut bad = switch_spec();
    bad.inbound = Some(outbound("knx://1/0/7", WireFormat::BusBool));
    assert_eq!(assemble(vec![bad]).err().unwrap(), BindingError::DirectionMismatch);

    // an empty endpoint
    let mut bad = switch_spec();
    bad.inbound = Some(inbound("", WireFormat::BusBool));
    assert_eq!(assemble(vec![bad]).err().unwrap(), BindingError::EmptyEndpoint);

    // a codec that cannot carry the record's kind: a temperature telegram
    // bound to a switch record
    let mut bad = switch_spec();
    bad.inbound = Some(inbound("knx://1/0/7", WireFormat::BusTemp));
    assert_eq!(assemble(vec![bad]).err().unwrap(), BindingError::CodecMismatch);

    // a bad outbound binding is found too
    let mut bad = switch_spec();
    bad.outbound = vec![inbound("mqtt://x", WireFormat::Text)];
    assert_eq!(assemble(vec![bad]).err().unwrap(), BindingError::DirectionMismatch);
}

#[test]
fn assembled_bridge_keeps_registration_order() {
    let bridge = assemble(vec![switch_spec(), temperature_spec()]).unwrap();
    assert_eq!(bridge.records.len(), 2);
    assert_eq!(bridge.records[0].config.address, "1/0/7");
    assert_eq!(bridge.records[1].config.address, "9/1/0");
}

#[test]
fn monitor_logs_once_per_write() {
    let mut bridge = assemble(vec![switch_spec()]).unwrap();
    let d1 = bridge.handle_inbound("knx://1/0/7", &[0x01]);
    let d2 = bridge.handle_inbound("knx://1/0/7", &[0x00]);
    assert_eq!(d1.monitor_lines, vec!["switch state: 1/0/7 = ON".to_string()]);
    assert_eq!(d2.monitor_lines, vec!["switch state: 1/0/7 = OFF".to_string()]);
}

#[test]
fn temperature_log_line_renders_value() {
    let t = knx_bridge::temperature::Temperature::new("9/1/0", -5);
    assert_eq!(
        knx_bridge::temperature::temperature_log_line(&t),
        "temperature: 9/1/0 = -0.05"
    );
}
