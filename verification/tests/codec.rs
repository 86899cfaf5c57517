//! Bus and textual codec behaviour on concrete values.

use knx_bridge::dpt;
use knx_bridge::errors::{DecodeError, EncodeError};
use knx_bridge::switch::{deserialize_control, deserialize_state, serialize_control,
    serialize_state, SwitchControl, SwitchState};
use knx_bridge::temperature::{deserialize, from_knx, serialize, Temperature};

#[test]
fn bool_round_trip() {
    assert_eq!(dpt::decode_bool(&dpt::encode_bool(true)).unwrap(), true);
    assert_eq!(dpt::decode_bool(&dpt::encode_bool(false)).unwrap(), false);
}

#[test]
fn bool_encoding_bytes() {
    assert_eq!(dpt::encode_bool(true), vec![0x01]);
    assert_eq!(dpt::encode_bool(false), vec![0x00]);
    // only the least significant bit is read
    assert_eq!(dpt::decode_bool(&[0xFF]).unwrap(), true);
    assert_eq!(dpt::decode_bool(&[0xFE]).unwrap(), false);
}

#[test]
fn bool_wrong_length_is_rejected() {
    assert_eq!(dpt::decode_bool(&[]), Err(DecodeError::LengthMismatch));
    assert_eq!(dpt::decode_bool(&[1, 0, 1]), Err(DecodeError::LengthMismatch));
}

#[test]
fn temp_known_telegrams() {
    // 21.00 degrees: mantissa 1050 at scale 1 packs as 0x0C 0x1A
    assert_eq!(dpt::encode_temp(2100), vec![0x0C, 0x1A]);
    assert_eq!(dpt::decode_temp(&[0x0C, 0x1A]).unwrap(), 2100);
    // -30.00 degrees packs as 0x8A 0x24
    assert_eq!(dpt::encode_temp(-3000), vec![0x8A, 0x24]);
    assert_eq!(dpt::decode_temp(&[0x8A, 0x24]).unwrap(), -3000);
    // small magnitudes are exact at scale zero
    assert_eq!(dpt::decode_temp(&dpt::encode_temp(1)).unwrap(), 1);
    assert_eq!(dpt::decode_temp(&dpt::encode_temp(-2048)).unwrap(), -2048);
}

#[test]
fn temp_round_trip_within_resolution() {
    for &t in &[0i32, 1, -1, 2047, 2048, 2151, -2049, 123456, -654321, 67076096, -67108864] {
        let decoded = dpt::decode_temp(&dpt::encode_temp(t)).unwrap();
        let err = (decoded as i64 - t as i64).abs();
        // the step at the widest scale is 2^15; the chosen scale is the
        // least fitting one, so the error is at most half its step
        assert!(2 * err <= 32768, "t={} decoded={} err={}", t, decoded, err);
    }
    // values that need no rounding come back exactly
    assert_eq!(dpt::decode_temp(&dpt::encode_temp(2150)).unwrap(), 2150);
}

#[test]
fn temp_saturates_at_format_bounds() {
    assert_eq!(dpt::decode_temp(&dpt::encode_temp(i32::MAX)).unwrap(), 67076096);
    assert_eq!(dpt::decode_temp(&dpt::encode_temp(i32::MIN)).unwrap(), -67108864);
}

#[test]
fn temp_wrong_length_is_rejected() {
    assert_eq!(dpt::decode_temp(&[0x0C]), Err(DecodeError::LengthMismatch));
    assert_eq!(dpt::decode_temp(&[0, 0, 0]), Err(DecodeError::LengthMismatch));
}

#[test]
fn state_textual_round_trip() {
    let state = SwitchState::new("1/0/7", true);
    let bytes = serialize_state(&state).unwrap();
    assert_eq!(
        String::from_utf8(bytes.clone()).unwrap(),
        "{\"address\":\"1/0/7\",\"is_on\":true,\"timestamp\":0}"
    );
    let back = deserialize_state(&bytes).unwrap();
    assert_eq!(back, state);
}

#[test]
fn control_textual_round_trip() {
    let control = SwitchControl::new("1/0/6", false);
    let bytes = serialize_control(&control).unwrap();
    assert_eq!(
        String::from_utf8(bytes.clone()).unwrap(),
        "{\"address\":\"1/0/6\",\"is_on\":false,\"timestamp\":0}"
    );
    let back = deserialize_control(&bytes).unwrap();
    assert_eq!(back, control);
}

#[test]
fn temperature_textual_round_trip() {
    let temp = Temperature::new("9/1/0", 2150);
    let bytes = serialize(&temp).unwrap();
    assert_eq!(
        String::from_utf8(bytes.clone()).unwrap(),
        "{\"address\":\"9/1/0\",\"celsius\":21.50,\"timestamp\":0}"
    );
    let back = deserialize(&bytes).unwrap();
    assert_eq!(back, temp);
}

#[test]
fn negative_temperature_round_trips() {
    let temp = Temperature::new("9/1/0", -5);
    let bytes = serialize(&temp).unwrap();
    assert_eq!(
        String::from_utf8(bytes.clone()).unwrap(),
        "{\"address\":\"9/1/0\",\"celsius\":-0.05,\"timestamp\":0}"
    );
    assert_eq!(deserialize(&bytes).unwrap(), temp);
}

#[test]
fn missing_field_defaults_not_fails() {
    let v = deserialize_state(b"{\"address\":\"1/0/7\"}").unwrap();
    assert_eq!(v.address, "1/0/7");
    assert_eq!(v.is_on, false);
    assert_eq!(v.timestamp, 0);
}

#[test]
fn empty_object_decodes_to_all_defaults() {
    let v = deserialize_state(b"{}").unwrap();
    assert_eq!(v.address, "");
    assert_eq!(v.is_on, false);
    assert_eq!(v.timestamp, 0);
}

#[test]
fn unknown_keys_are_ignored_and_order_is_free() {
    let v = deserialize_state(
        b"{\"who\":\"me\",\"timestamp\":42,\"is_on\":true,\"address\":\"1/0/7\",\"extra\":7}",
    )
    .unwrap();
    assert_eq!(v.address, "1/0/7");
    assert_eq!(v.is_on, true);
    assert_eq!(v.timestamp, 42);
}

#[test]
fn repeated_key_keeps_last_value() {
    let v = deserialize_state(b"{\"is_on\":true,\"is_on\":false}").unwrap();
    assert_eq!(v.is_on, false);
}

#[test]
fn quoted_true_is_not_the_boolean() {
    let v = deserialize_state(b"{\"is_on\":\"true\"}").unwrap();
    assert_eq!(v.is_on, false);
}

#[test]
fn quoted_values_may_hold_commas_and_colons() {
    // the member scan respects quotes; separators inside a quoted value
    // do not split it
    let v = deserialize_state(b"{\"address\":\"1,0:7\",\"is_on\":true}").unwrap();
    assert_eq!(v.address, "1,0:7");
    assert_eq!(v.is_on, true);
}

#[test]
fn dot_without_fraction_digits_reads_as_zero() {
    assert_eq!(deserialize(b"{\"celsius\":21.}").unwrap().celsius_centi, 0);
}

#[test]
fn malformed_payloads_are_rejected() {
    assert_eq!(deserialize_state(b""), Err(DecodeError::Malformed));
    assert_eq!(deserialize_state(b"true"), Err(DecodeError::Malformed));
    assert_eq!(deserialize_state(b"{\"address\"}"), Err(DecodeError::Malformed));
    assert_eq!(deserialize_state(b"{\"a\":1,}"), Err(DecodeError::Malformed));
    assert_eq!(deserialize_state(b"{\"a\":\"unterminated}"), Err(DecodeError::Malformed));
}

#[test]
fn invalid_utf8_is_rejected() {
    assert_eq!(deserialize_state(&[0x7B, 0xFF, 0x7D]), Err(DecodeError::InvalidUtf8));
}

#[test]
fn tolerant_numbers_default_to_zero() {
    let v = deserialize_state(b"{\"timestamp\":abc}").unwrap();
    assert_eq!(v.timestamp, 0);
    // a value beyond the range reads as zero
    let v = deserialize_state(b"{\"timestamp\":99999999999999999999999}").unwrap();
    assert_eq!(v.timestamp, 0);
    let t = deserialize(b"{\"celsius\":not-a-number}").unwrap();
    assert_eq!(t.celsius_centi, 0);
}

#[test]
fn tolerant_temperature_shapes() {
    assert_eq!(deserialize(b"{\"celsius\":21.5}").unwrap().celsius_centi, 2150);
    assert_eq!(deserialize(b"{\"celsius\":21}").unwrap().celsius_centi, 2100);
    assert_eq!(deserialize(b"{\"celsius\":-0.05}").unwrap().celsius_centi, -5);
    // three fraction digits is not an accepted shape: zero default
    assert_eq!(deserialize(b"{\"celsius\":1.234}").unwrap().celsius_centi, 0);
}

#[test]
fn address_outside_alphabet_fails_encode() {
    let state = SwitchState::new("living room", true);
    assert_eq!(serialize_state(&state), Err(EncodeError::AddressNotRepresentable));
}

#[test]
fn bus_decode_stamps_group_address() {
    let s = knx_bridge::switch::deserialize_switch_state_from_knx(&[0x01], "1/0/7").unwrap();
    assert_eq!(s.address, "1/0/7");
    assert_eq!(s.is_on, true);
    assert_eq!(s.timestamp, 0);

    let t = from_knx(&[0x0C, 0x1A], "9/1/0").unwrap();
    assert_eq!(t.address, "9/1/0");
    assert_eq!(t.celsius_centi, 2100);
}

#[test]
fn control_encodes_to_bus() {
    let c = SwitchControl::new("1/0/6", true);
    let bytes = knx_bridge::switch::serialize_switch_control_to_knx(&c).unwrap();
    assert_eq!(bytes, vec![0x01]);
}
