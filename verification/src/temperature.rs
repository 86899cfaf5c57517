//! Temperature records: a sensor reading carrying a device address, a
//! temperature held as integer hundredths of a degree Celsius, and a
//! millisecond timestamp.  The reading bridges between the bus's two-byte
//! packed float telegram and the broker's textual payload.

use vstd::prelude::*;
use vstd::string::StringExecFns;

use crate::dpt;
use crate::errors::{DecodeError, EncodeError};
use crate::text;
use crate::text::{
    centi_digits, key_address, key_celsius, key_timestamp, spec_field_address, spec_field_centi,
    spec_field_u64, spec_parse_object, valid_address_bytes, COLON, COMMA, LBRACE, QUOTE, RBRACE,
};

verus! {

/// The mathematical content of a temperature reading.
pub ghost struct TemperatureModel {
    pub address: Seq<char>,
    pub celsius_centi: i32,
    pub timestamp: u64,
}

/// A temperature reading from a bus sensor.  The value is held in integer
/// hundredths of a degree Celsius, the resolution class of the bus format.
#[derive(Clone, Debug, PartialEq)]
pub struct Temperature {
    /// Device group address, e.g. `9/1/0`.
    pub address: String,
    /// Temperature in hundredths of a degree Celsius.
    pub celsius_centi: i32,
    /// Measurement timestamp, in milliseconds.
    pub timestamp: u64,
}

impl View for Temperature {
    type V = TemperatureModel;

    open spec fn view(&self) -> TemperatureModel {
        TemperatureModel {
            address: self.address@,
            celsius_centi: self.celsius_centi,
            timestamp: self.timestamp,
        }
    }
}

impl Temperature {
    /// Create a new temperature reading with a zero timestamp.
    pub fn new(address: &str, celsius_centi: i32) -> (r: Temperature)
        ensures
            r@.address == address@,
            r@.celsius_centi == celsius_centi,
            r@.timestamp == 0,
    {
        Temperature { address: address.to_owned(), celsius_centi, timestamp: 0 }
    }

    /// Broker topic on which temperature readings are published.
    pub fn mqtt_topic() -> (r: &'static str)
        ensures
            r@ == "mqtt://knx/temperature/state"@,
    {
        "mqtt://knx/temperature/state"
    }
}

/// The textual payload of a temperature reading: its address, value and
/// timestamp members, in that fixed order.
pub open spec fn spec_encode_temperature(
    address: Seq<char>,
    celsius_centi: i32,
    timestamp: u64,
) -> Seq<u8> {
    text::three_member_payload(
        vstd::utf8::encode_utf8(address),
        key_celsius(),
        centi_digits(celsius_centi as int),
        text::dec_digits(timestamp as int),
    )
}

/// What decoding a textual temperature payload yields: tolerant field
/// reads over the parsed member list, or the error naming what went
/// wrong.
pub open spec fn spec_decode_temperature(data: Seq<u8>) -> Result<TemperatureModel, DecodeError> {
    if !vstd::utf8::valid_utf8(data) {
        Err(DecodeError::InvalidUtf8)
    } else {
        match spec_parse_object(data) {
            None => Err(DecodeError::Malformed),
            Some(ms) => Ok(
                TemperatureModel {
                    address: spec_field_address(ms),
                    celsius_centi: spec_field_centi(ms, key_celsius()),
                    timestamp: spec_field_u64(ms, key_timestamp()),
                },
            ),
        }
    }
}

/// Serialize a temperature reading as a textual payload; the address must
/// be drawn from the address alphabet, since it is written unescaped.
pub fn serialize(temp: &Temperature) -> (r: Result<Vec<u8>, EncodeError>)
    ensures
        valid_address_bytes(vstd::utf8::encode_utf8(temp@.address)) ==> (r matches Ok(v) && v@
            == spec_encode_temperature(temp@.address, temp@.celsius_centi, temp@.timestamp)),
        !valid_address_bytes(vstd::utf8::encode_utf8(temp@.address)) ==> (r matches Err(e) && e
            == EncodeError::AddressNotRepresentable),
{
    let ab = temp.address.as_str().as_bytes();
    let mut k: usize = 0;
    while k < ab.len()
        invariant
            k <= ab@.len(),
            ab@ == vstd::utf8::encode_utf8(temp@.address),
            forall|j: int| 0 <= j < k ==> 47 <= #[trigger] ab@[j] <= 57,
        decreases ab@.len() - k,
    {
        if ab[k] < 47 || ab[k] > 57 {
            return Err(EncodeError::AddressNotRepresentable);
        }
        k = k + 1;
    }
    let mut v: Vec<u8> = Vec::new();
    v.push(LBRACE);
    v.push(QUOTE);
    let ka = text::key_address_vec();
    text::append_bytes(&mut v, ka.as_slice());
    v.push(QUOTE);
    v.push(COLON);
    v.push(QUOTE);
    text::append_bytes(&mut v, ab);
    v.push(QUOTE);
    v.push(COMMA);
    v.push(QUOTE);
    let kc = text::key_celsius_vec();
    text::append_bytes(&mut v, kc.as_slice());
    v.push(QUOTE);
    v.push(COLON);
    let cd = text::format_centi(temp.celsius_centi);
    text::append_bytes(&mut v, cd.as_slice());
    v.push(COMMA);
    v.push(QUOTE);
    let kt = text::key_timestamp_vec();
    text::append_bytes(&mut v, kt.as_slice());
    v.push(QUOTE);
    v.push(COLON);
    let ts = text::format_u64(temp.timestamp);
    text::append_bytes(&mut v, ts.as_slice());
    v.push(RBRACE);
    proof {
        assert(v@ =~= spec_encode_temperature(temp@.address, temp@.celsius_centi, temp@.timestamp));
    }
    Ok(v)
}

/// Decode a temperature reading from a textual payload, tolerantly:
/// unknown members are ignored, order is free, and a missing member
/// defaults (empty address, zero value, zero timestamp).
pub fn deserialize(data: &[u8]) -> (r: Result<Temperature, DecodeError>)
    ensures
        match r {
            Ok(t) => spec_decode_temperature(data@) == Ok::<TemperatureModel, DecodeError>(t@),
            Err(e) => spec_decode_temperature(data@) == Err::<TemperatureModel, DecodeError>(e),
        },
{
    if !text::utf8_valid(data) {
        return Err(DecodeError::InvalidUtf8);
    }
    let ms = match text::parse_object(data) {
        Ok(ms) => ms,
        Err(e) => {
            return Err(e);
        },
    };
    let ka = text::key_address_vec();
    let address: String = match text::lookup_value(&ms, ka.as_slice()) {
        None => String::new(),
        Some(v) => {
            let b = text::unquote_vec(v);
            match text::string_from_bytes(b) {
                Some(s) => s,
                None => String::new(),
            }
        },
    };
    let kc = text::key_celsius_vec();
    let celsius_centi: i32 = match text::lookup_value(&ms, kc.as_slice()) {
        None => 0,
        Some(v) => text::parse_centi(v.as_slice()),
    };
    let kt = text::key_timestamp_vec();
    let timestamp: u64 = match text::lookup_value(&ms, kt.as_slice()) {
        None => 0,
        Some(v) => text::parse_u64(v.as_slice()),
    };
    Ok(Temperature { address, celsius_centi, timestamp })
}

/// Decode a temperature reading from a two-byte bus telegram addressed to
/// `group_address`; a telegram of any other width is rejected.
pub fn from_knx(data: &[u8], group_address: &str) -> (r: Result<Temperature, DecodeError>)
    ensures
        match r {
            Ok(t) => dpt::spec_decode_temp(data@) == Ok::<i32, DecodeError>(t@.celsius_centi)
                && t@.address == group_address@ && t@.timestamp == 0,
            Err(e) => dpt::spec_decode_temp(data@) == Err::<i32, DecodeError>(e),
        },
{
    match dpt::decode_temp(data) {
        Ok(celsius_centi) => Ok(
            Temperature { address: group_address.to_owned(), celsius_centi, timestamp: 0 },
        ),
        Err(e) => Err(e),
    }
}

/// Law: a serialized temperature reading decodes back to the same model —
/// the textual codec loses nothing, value in hundredths and timestamp
/// included — for every address drawn from the address alphabet.
pub proof fn lemma_temperature_text_round_trip(
    address: Seq<char>,
    celsius_centi: i32,
    timestamp: u64,
)
    requires
        valid_address_bytes(vstd::utf8::encode_utf8(address)),
    ensures
        spec_decode_temperature(spec_encode_temperature(address, celsius_centi, timestamp)) == Ok::<
            TemperatureModel,
            DecodeError,
        >(TemperatureModel { address, celsius_centi, timestamp }),
{
    let ab = vstd::utf8::encode_utf8(address);
    let cd = centi_digits(celsius_centi as int);
    let td = text::dec_digits(timestamp as int);
    text::lemma_dec_digits_val(timestamp as int);
    text::lemma_centi_digits_ascii(celsius_centi as int);
    assert forall|k: int| 0 <= k < ab.len() implies #[trigger] ab[k] != QUOTE && ab[k] < 128 by {
        assert(47 <= ab[k] <= 57);
    }
    assert forall|k: int| 0 <= k < 7 implies key_celsius()[k] != QUOTE && key_celsius()[k]
        < 128 by {}
    assert forall|k: int| 0 <= k < cd.len() implies #[trigger] cd[k] != text::COMMA && cd[k]
        != QUOTE by {
        assert(cd[k] == text::MINUS || cd[k] == text::DOT || text::is_digit(cd[k]));
    }
    assert(cd.len() > 0) by {
        let a: int = if celsius_centi < 0 {
            -(celsius_centi as int)
        } else {
            celsius_centi as int
        };
        vstd::arithmetic::div_mod::lemma_div_pos_is_pos(a, 100);
        text::lemma_dec_digits_val(a / 100);
    }
    assert(cd[0] != QUOTE);
    assert forall|k: int| 0 <= k < td.len() implies #[trigger] td[k] != text::COMMA && td[k] != QUOTE
        && td[k] < 128 by {
        assert(text::is_digit(td[k]));
    }
    text::lemma_parse_three_member_payload(ab, key_celsius(), cd, td);
    text::lemma_three_member_payload_ascii(ab, key_celsius(), cd, td);
    let s = spec_encode_temperature(address, celsius_centi, timestamp);
    let v1 = seq![QUOTE] + ab + seq![QUOTE];
    let ms = seq![(key_address(), v1), (key_celsius(), cd), (key_timestamp(), td)];
    assert(spec_parse_object(s) == Some(ms));
    assert(key_timestamp() != key_address()) by {
        assert(key_timestamp().len() != key_address().len());
    }
    assert(key_timestamp() != key_celsius()) by {
        assert(key_timestamp().len() != key_celsius().len());
    }
    assert(key_celsius() != key_address()) by {
        assert(key_celsius()[0] != key_address()[0]);
    }
    let ms2 = seq![(key_address(), v1), (key_celsius(), cd)];
    let ms1 = seq![(key_address(), v1)];
    assert(ms.drop_last() =~= ms2);
    assert(ms2.drop_last() =~= ms1);
    assert(text::lookup(ms, key_timestamp()) == Some(td));
    assert(text::lookup(ms2, key_celsius()) == Some(cd));
    assert(text::lookup(ms, key_celsius()) == text::lookup(ms2, key_celsius()));
    assert(text::lookup(ms1, key_address()) == Some(v1));
    assert(text::lookup(ms2, key_address()) == text::lookup(ms1, key_address()));
    assert(text::lookup(ms, key_address()) == text::lookup(ms2, key_address()));
    assert(text::unquote(v1) =~= ab);
    vstd::utf8::encode_utf8_valid_utf8(address);
    vstd::utf8::encode_utf8_decode_utf8(address);
    assert(text::spec_field_address(ms) == address);
    text::lemma_centi_round_trip(celsius_centi);
    assert(text::spec_field_centi(ms, key_celsius()) == celsius_centi);
    text::lemma_u64_round_trip(timestamp);
    assert(text::spec_field_u64(ms, key_timestamp()) == timestamp);
}

/// The monitor's log line for a temperature update, with the value in its
/// canonical decimal form.
pub fn temperature_log_line(temp: &Temperature) -> (r: String)
    ensures
        r@ == "temperature: "@ + temp@.address + " = "@ + centi_digits(
            temp@.celsius_centi as int,
        ).map_values(|x: u8| x as char),
{
    let mut s = String::from_str("temperature: ");
    s.append(temp.address.as_str());
    s.append(" = ");
    let digits = text::format_centi(temp.celsius_centi);
    proof {
        text::lemma_centi_digits_ascii(temp@.celsius_centi as int);
        text::lemma_ascii_bytes_utf8(digits@);
    }
    let ds = match text::string_from_bytes(digits) {
        Some(x) => x,
        None => {
            proof {
                assert(false);
            }
            String::new()
        },
    };
    s.append(ds.as_str());
    s
}

} // verus!
