//! Switch records: the current state of a switch actuator and the control
//! command sent to one.  Both carry a device address, an on/off flag and a
//! millisecond timestamp, and bridge between the bus's one-byte boolean
//! telegram and the broker's textual payload.

use vstd::prelude::*;
use vstd::string::StringExecFns;

use crate::dpt;
use crate::errors::{DecodeError, EncodeError};
use crate::text;
use crate::text::{
    key_address, key_is_on, key_timestamp, lit_false, lit_true, spec_field_address,
    spec_field_bool, spec_field_u64, spec_parse_object, valid_address_bytes, COLON, COMMA, LBRACE,
    QUOTE, RBRACE,
};

verus! {

/// The mathematical content of a switch record.
pub ghost struct SwitchModel {
    pub address: Seq<char>,
    pub is_on: bool,
    pub timestamp: u64,
}

/// Current state of a switch actuator (a boolean datapoint), published
/// when bus activity is observed.
#[derive(Clone, Debug, PartialEq)]
pub struct SwitchState {
    /// Device group address, e.g. `1/0/7`.
    pub address: String,
    /// Switch on/off state.
    pub is_on: bool,
    /// Timestamp of the last update, in milliseconds.
    pub timestamp: u64,
}

impl View for SwitchState {
    type V = SwitchModel;

    open spec fn view(&self) -> SwitchModel {
        SwitchModel { address: self.address@, is_on: self.is_on, timestamp: self.timestamp }
    }
}

impl SwitchState {
    /// Create a new switch state with a zero timestamp.
    pub fn new(address: &str, is_on: bool) -> (r: SwitchState)
        ensures
            r@.address == address@,
            r@.is_on == is_on,
            r@.timestamp == 0,
    {
        SwitchState { address: address.to_owned(), is_on, timestamp: 0 }
    }

    /// Broker topic on which switch state updates are published.
    pub fn mqtt_topic() -> (r: &'static str)
        ensures
            r@ == "mqtt://knx/lights/state"@,
    {
        "mqtt://knx/lights/state"
    }
}

/// A control command for a switch actuator (a boolean datapoint),
/// consumed to drive bus devices.
#[derive(Clone, Debug, PartialEq)]
pub struct SwitchControl {
    /// Device group address to control, e.g. `1/0/6`.
    pub address: String,
    /// Desired on/off state.
    pub is_on: bool,
    /// Command timestamp, in milliseconds.
    pub timestamp: u64,
}

impl View for SwitchControl {
    type V = SwitchModel;

    open spec fn view(&self) -> SwitchModel {
        SwitchModel { address: self.address@, is_on: self.is_on, timestamp: self.timestamp }
    }
}

impl SwitchControl {
    /// Create a new switch control command with a zero timestamp.
    pub fn new(address: &str, is_on: bool) -> (r: SwitchControl)
        ensures
            r@.address == address@,
            r@.is_on == is_on,
            r@.timestamp == 0,
    {
        SwitchControl { address: address.to_owned(), is_on, timestamp: 0 }
    }

    /// Broker topic on which switch control commands arrive.
    pub fn mqtt_topic() -> (r: &'static str)
        ensures
            r@ == "mqtt://knx/lights/control"@,
    {
        "mqtt://knx/lights/control"
    }
}

/// The textual payload of a switch record: its address, state and
/// timestamp members, in that fixed order.
pub open spec fn spec_encode_switch(address: Seq<char>, is_on: bool, timestamp: u64) -> Seq<u8> {
    text::three_member_payload(
        vstd::utf8::encode_utf8(address),
        key_is_on(),
        if is_on {
            lit_true()
        } else {
            lit_false()
        },
        text::dec_digits(timestamp as int),
    )
}

/// What decoding a textual switch payload yields: tolerant field reads
/// over the parsed member list, or the error naming what went wrong.
pub open spec fn spec_decode_switch(data: Seq<u8>) -> Result<SwitchModel, DecodeError> {
    if !vstd::utf8::valid_utf8(data) {
        Err(DecodeError::InvalidUtf8)
    } else {
        match spec_parse_object(data) {
            None => Err(DecodeError::Malformed),
            Some(ms) => Ok(
                SwitchModel {
                    address: spec_field_address(ms),
                    is_on: spec_field_bool(ms, key_is_on()),
                    timestamp: spec_field_u64(ms, key_timestamp()),
                },
            ),
        }
    }
}

/// Build the textual payload for switch fields; the address must be drawn
/// from the address alphabet, since it is written unescaped.
fn serialize_switch_fields(address: &String, is_on: bool, timestamp: u64) -> (r: Result<
    Vec<u8>,
    EncodeError,
>)
    ensures
        valid_address_bytes(vstd::utf8::encode_utf8(address@)) ==> (r matches Ok(v) && v@
            == spec_encode_switch(address@, is_on, timestamp)),
        !valid_address_bytes(vstd::utf8::encode_utf8(address@)) ==> (r matches Err(e) && e
            == EncodeError::AddressNotRepresentable),
{
    let ab = address.as_str().as_bytes();
    let mut k: usize = 0;
    while k < ab.len()
        invariant
            k <= ab@.len(),
            ab@ == vstd::utf8::encode_utf8(address@),
            forall|j: int| 0 <= j < k ==> 47 <= #[trigger] ab@[j] <= 57,
        decreases ab@.len() - k,
    {
        if ab[k] < 47 || ab[k] > 57 {
            return Err(EncodeError::AddressNotRepresentable);
        }
        k = k + 1;
    }
    let mut v: Vec<u8> = Vec::new();
    v.push(LBRACE);
    v.push(QUOTE);
    let ka = text::key_address_vec();
    text::append_bytes(&mut v, ka.as_slice());
    v.push(QUOTE);
    v.push(COLON);
    v.push(QUOTE);
    text::append_bytes(&mut v, ab);
    v.push(QUOTE);
    v.push(COMMA);
    v.push(QUOTE);
    let ki = text::key_is_on_vec();
    text::append_bytes(&mut v, ki.as_slice());
    v.push(QUOTE);
    v.push(COLON);
    let lit = if is_on {
        text::lit_true_vec()
    } else {
        text::lit_false_vec()
    };
    text::append_bytes(&mut v, lit.as_slice());
    v.push(COMMA);
    v.push(QUOTE);
    let kt = text::key_timestamp_vec();
    text::append_bytes(&mut v, kt.as_slice());
    v.push(QUOTE);
    v.push(COLON);
    let ts = text::format_u64(timestamp);
    text::append_bytes(&mut v, ts.as_slice());
    v.push(RBRACE);
    proof {
        assert(v@ =~= spec_encode_switch(address@, is_on, timestamp));
    }
    Ok(v)
}

/// Read the switch fields of a textual payload, tolerantly.
fn decode_switch_fields(data: &[u8]) -> (r: Result<(String, bool, u64), DecodeError>)
    ensures
        match r {
            Ok(f) => vstd::utf8::valid_utf8(data@) && (spec_parse_object(data@) matches Some(ms)
                && f.0@ == spec_field_address(ms) && f.1 == spec_field_bool(ms, key_is_on()) && f.2
                == spec_field_u64(ms, key_timestamp())),
            Err(e) => spec_switch_decode_err(data@, e),
        },
{
    if !text::utf8_valid(data) {
        return Err(DecodeError::InvalidUtf8);
    }
    let ms = match text::parse_object(data) {
        Ok(ms) => ms,
        Err(e) => {
            return Err(e);
        },
    };
    let ka = text::key_address_vec();
    let address: String = match text::lookup_value(&ms, ka.as_slice()) {
        None => String::new(),
        Some(v) => {
            let b = text::unquote_vec(v);
            match text::string_from_bytes(b) {
                Some(s) => s,
                None => String::new(),
            }
        },
    };
    let ki = text::key_is_on_vec();
    let lt = text::lit_true_vec();
    let is_on: bool = match text::lookup_value(&ms, ki.as_slice()) {
        None => false,
        Some(v) => text::bytes_eq(v.as_slice(), lt.as_slice()),
    };
    let kt = text::key_timestamp_vec();
    let timestamp: u64 = match text::lookup_value(&ms, kt.as_slice()) {
        None => 0,
        Some(v) => text::parse_u64(v.as_slice()),
    };
    Ok((address, is_on, timestamp))
}

/// The error a failed textual switch decode reports: invalid UTF-8 first,
/// else a malformed object.
pub open spec fn spec_switch_decode_err(data: Seq<u8>, e: DecodeError) -> bool {
    if !vstd::utf8::valid_utf8(data) {
        e == DecodeError::InvalidUtf8
    } else {
        spec_parse_object(data) is None && e == DecodeError::Malformed
    }
}

/// Serialize a switch state as a textual payload.
pub fn serialize_state(state: &SwitchState) -> (r: Result<Vec<u8>, EncodeError>)
    ensures
        valid_address_bytes(vstd::utf8::encode_utf8(state@.address)) ==> (r matches Ok(v) && v@
            == spec_encode_switch(state@.address, state@.is_on, state@.timestamp)),
        !valid_address_bytes(vstd::utf8::encode_utf8(state@.address)) ==> (r matches Err(e) && e
            == EncodeError::AddressNotRepresentable),
{
    serialize_switch_fields(&state.address, state.is_on, state.timestamp)
}

/// Decode a switch state from a textual payload, tolerantly: unknown
/// members are ignored, order is free, and a missing member defaults
/// (empty address, off, zero timestamp).
pub fn deserialize_state(data: &[u8]) -> (r: Result<SwitchState, DecodeError>)
    ensures
        match r {
            Ok(s) => spec_decode_switch(data@) == Ok::<SwitchModel, DecodeError>(s@),
            Err(e) => spec_decode_switch(data@) == Err::<SwitchModel, DecodeError>(e),
        },
{
    match decode_switch_fields(data) {
        Ok((address, is_on, timestamp)) => Ok(SwitchState { address, is_on, timestamp }),
        Err(e) => Err(e),
    }
}

/// Serialize a switch control command as a textual payload.
pub fn serialize_control(control: &SwitchControl) -> (r: Result<Vec<u8>, EncodeError>)
    ensures
        valid_address_bytes(vstd::utf8::encode_utf8(control@.address)) ==> (r matches Ok(v) && v@
            == spec_encode_switch(control@.address, control@.is_on, control@.timestamp)),
        !valid_address_bytes(vstd::utf8::encode_utf8(control@.address)) ==> (r matches Err(e) && e
            == EncodeError::AddressNotRepresentable),
{
    serialize_switch_fields(&control.address, control.is_on, control.timestamp)
}

/// Decode a switch control command from a textual payload, with the same
/// tolerant member handling as the state decode.
pub fn deserialize_control(data: &[u8]) -> (r: Result<SwitchControl, DecodeError>)
    ensures
        match r {
            Ok(c) => spec_decode_switch(data@) == Ok::<SwitchModel, DecodeError>(c@),
            Err(e) => spec_decode_switch(data@) == Err::<SwitchModel, DecodeError>(e),
        },
{
    match decode_switch_fields(data) {
        Ok((address, is_on, timestamp)) => Ok(SwitchControl { address, is_on, timestamp }),
        Err(e) => Err(e),
    }
}

/// Decode a switch state from a one-byte boolean bus telegram addressed
/// to `group_address`; a telegram of any other width is rejected.
pub fn deserialize_switch_state_from_knx(data: &[u8], group_address: &str) -> (r: Result<
    SwitchState,
    DecodeError,
>)
    ensures
        match r {
            Ok(s) => dpt::spec_decode_bool(data@) == Ok::<bool, DecodeError>(s@.is_on) && s@.address
                == group_address@ && s@.timestamp == 0,
            Err(e) => dpt::spec_decode_bool(data@) == Err::<bool, DecodeError>(e),
        },
{
    match dpt::decode_bool(data) {
        Ok(is_on) => Ok(SwitchState { address: group_address.to_owned(), is_on, timestamp: 0 }),
        Err(e) => Err(e),
    }
}

/// Encode a switch control command as a one-byte boolean bus telegram.
pub fn serialize_switch_control_to_knx(control: &SwitchControl) -> (r: Result<Vec<u8>, EncodeError>)
    ensures
        r matches Ok(v) && v@ == dpt::spec_encode_bool(control@.is_on),
{
    Ok(dpt::encode_bool(control.is_on))
}

/// The monitor's log line for a switch state update.
pub fn state_log_line(state: &SwitchState) -> (r: String)
    ensures
        r@ == "switch state: "@ + state@.address + (if state@.is_on {
            " = ON"@
        } else {
            " = OFF"@
        }),
{
    let mut s = String::from_str("switch state: ");
    s.append(state.address.as_str());
    if state.is_on {
        s.append(" = ON");
    } else {
        s.append(" = OFF");
    }
    s
}

/// The monitor's log line for a switch control command.
pub fn control_log_line(control: &SwitchControl) -> (r: String)
    ensures
        r@ == "switch control: "@ + control@.address + (if control@.is_on {
            " = ON"@
        } else {
            " = OFF"@
        }),
{
    let mut s = String::from_str("switch control: ");
    s.append(control.address.as_str());
    if control.is_on {
        s.append(" = ON");
    } else {
        s.append(" = OFF");
    }
    s
}

/// Law: a serialized switch record decodes back to the same model — the
/// textual codec loses nothing, timestamp included — for every address
/// drawn from the address alphabet.
pub proof fn lemma_switch_text_round_trip(address: Seq<char>, is_on: bool, timestamp: u64)
    requires
        valid_address_bytes(vstd::utf8::encode_utf8(address)),
    ensures
        spec_decode_switch(spec_encode_switch(address, is_on, timestamp)) == Ok::<
            SwitchModel,
            DecodeError,
        >(SwitchModel { address, is_on, timestamp }),
{
    let ab = vstd::utf8::encode_utf8(address);
    let lit = if is_on {
        lit_true()
    } else {
        lit_false()
    };
    let td = text::dec_digits(timestamp as int);
    text::lemma_dec_digits_val(timestamp as int);
    assert forall|k: int| 0 <= k < ab.len() implies #[trigger] ab[k] != QUOTE && ab[k] < 128 by {
        assert(47 <= ab[k] <= 57);
    }
    assert forall|k: int| 0 <= k < 5 implies key_is_on()[k] != QUOTE && key_is_on()[k] < 128 by {}
    assert forall|k: int| 0 <= k < lit.len() implies lit[k] != text::COMMA && #[trigger] lit[k]
        < 128 by {}
    assert forall|k: int| 0 <= k < td.len() implies #[trigger] td[k] != text::COMMA && td[k] != QUOTE
        && td[k] < 128 by {
        assert(text::is_digit(td[k]));
    }
    assert(text::is_digit(td[0]));
    text::lemma_parse_three_member_payload(ab, key_is_on(), lit, td);
    text::lemma_three_member_payload_ascii(ab, key_is_on(), lit, td);
    let s = spec_encode_switch(address, is_on, timestamp);
    let v1 = seq![QUOTE] + ab + seq![QUOTE];
    let ms = seq![(key_address(), v1), (key_is_on(), lit), (key_timestamp(), td)];
    assert(spec_parse_object(s) == Some(ms));
    // the three keys are pairwise distinct
    assert(key_timestamp() != key_address()) by {
        assert(key_timestamp().len() != key_address().len());
    }
    assert(key_timestamp() != key_is_on()) by {
        assert(key_timestamp().len() != key_is_on().len());
    }
    assert(key_is_on() != key_address()) by {
        assert(key_is_on().len() != key_address().len());
    }
    let ms2 = seq![(key_address(), v1), (key_is_on(), lit)];
    let ms1 = seq![(key_address(), v1)];
    assert(ms.drop_last() =~= ms2);
    assert(ms2.drop_last() =~= ms1);
    assert(text::lookup(ms, key_timestamp()) == Some(td));
    assert(text::lookup(ms2, key_is_on()) == Some(lit));
    assert(text::lookup(ms, key_is_on()) == text::lookup(ms2, key_is_on()));
    assert(text::lookup(ms1, key_address()) == Some(v1));
    assert(text::lookup(ms2, key_address()) == text::lookup(ms1, key_address()));
    assert(text::lookup(ms, key_address()) == text::lookup(ms2, key_address()));
    // the address member round-trips through its quotes and the encoding
    assert(text::unquote(v1) =~= ab);
    vstd::utf8::encode_utf8_valid_utf8(address);
    vstd::utf8::encode_utf8_decode_utf8(address);
    assert(text::spec_field_address(ms) == address);
    // the state member is the boolean literal
    assert(lit_false() != lit_true()) by {
        assert(lit_false().len() != lit_true().len());
    }
    assert(text::spec_field_bool(ms, key_is_on()) == is_on);
    // the timestamp member reads back exactly
    text::lemma_u64_round_trip(timestamp);
    assert(text::spec_field_u64(ms, key_timestamp()) == timestamp);
}

/// Law: a textual payload that parses as an object but carries no `is_on`
/// member decodes to a switch value with the state defaulted to off — the
/// missing member is not a decode failure.
pub proof fn lemma_missing_is_on_defaults(data: Seq<u8>)
    requires
        vstd::utf8::valid_utf8(data),
        spec_parse_object(data) matches Some(ms) && text::lookup(ms, key_is_on()) is None,
    ensures
        spec_decode_switch(data) matches Ok(m) && !m.is_on,
{
}

} // verus!
