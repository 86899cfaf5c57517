//! Link bindings and bridge assembly.
//!
//! A link binding is a declared, directed edge between a record and a
//! transport endpoint: inbound bindings decode payloads into the record's
//! buffer cell, outbound bindings encode every written value for their
//! endpoint.  A record specification carries its buffer policy, at most
//! one inbound binding (single writer), any number of outbound bindings
//! (fan-out, fired in registration order) and an optional monitor tap.
//!
//! Assembly is all-or-nothing: any invalid specification aborts the whole
//! bridge rather than leaving one direction of a command path silently
//! unregistered.  Dispatching an inbound payload decodes it, writes the
//! value to the record's cell on success — a failed decode leaves the
//! last known good value untouched — and produces the outbound publishes
//! and the monitor's log line.

use vstd::prelude::*;

use crate::cell::{latest_write, ring_inv, ring_write, LatestCell, RingCell};
use crate::dpt;
use crate::errors::{BindingError, DecodeError, EncodeError};
use crate::switch;
use crate::switch::{SwitchControl, SwitchModel, SwitchState};
use crate::temperature;
use crate::temperature::{Temperature, TemperatureModel};
use crate::text;
use crate::text::{centi_digits, valid_address_bytes};

verus! {

/// Direction of a link binding.
#[derive(Clone, Copy, Debug, PartialEq, Eq, Structural)]
pub enum Direction {
    Inbound,
    Outbound,
}

/// Transport delivery options carried by a binding: quality-of-service
/// level and retained flag.
#[derive(Clone, Copy, Debug, PartialEq, Eq, Structural)]
pub struct DeliveryOptions {
    pub qos: u8,
    pub retain: bool,
}

/// The wire format a binding's codec speaks.
#[derive(Clone, Copy, Debug, PartialEq, Eq, Structural)]
pub enum WireFormat {
    /// The bus's one-byte boolean telegram.
    BusBool,
    /// The bus's two-byte packed-float temperature telegram.
    BusTemp,
    /// The broker's flat textual object.
    Text,
}

/// The record kinds the bridge carries.
#[derive(Clone, Copy, Debug, PartialEq, Eq, Structural)]
pub enum RecordKind {
    /// A switch state reading.
    State,
    /// A switch control command.
    Control,
    /// A temperature reading.
    Reading,
}

/// A typed record value flowing through the bridge.
#[derive(Clone, Debug, PartialEq)]
pub enum RecordValue {
    State(SwitchState),
    Control(SwitchControl),
    Reading(Temperature),
}

/// The mathematical content of a record value.
pub ghost enum RecordModel {
    State(SwitchModel),
    Control(SwitchModel),
    Reading(TemperatureModel),
}

impl View for RecordValue {
    type V = RecordModel;

    open spec fn view(&self) -> RecordModel {
        match self {
            RecordValue::State(s) => RecordModel::State(s@),
            RecordValue::Control(c) => RecordModel::Control(c@),
            RecordValue::Reading(t) => RecordModel::Reading(t@),
        }
    }
}

pub open spec fn kind_of(m: RecordModel) -> RecordKind {
    match m {
        RecordModel::State(_) => RecordKind::State,
        RecordModel::Control(_) => RecordKind::Control,
        RecordModel::Reading(_) => RecordKind::Reading,
    }
}

/// Which record kinds a wire format can decode into.
pub open spec fn format_decodes(f: WireFormat, k: RecordKind) -> bool {
    match f {
        WireFormat::BusBool => k == RecordKind::State || k == RecordKind::Control,
        WireFormat::BusTemp => k == RecordKind::Reading,
        WireFormat::Text => true,
    }
}

/// Which record kinds a wire format can encode from.
pub open spec fn format_encodes(f: WireFormat, k: RecordKind) -> bool {
    format_decodes(f, k)
}

/// A declared, directed association between a record and a transport
/// endpoint.
#[derive(Clone, Debug)]
pub struct LinkBinding {
    pub direction: Direction,
    /// Endpoint identifier: a bus group address or a broker topic.
    pub endpoint: String,
    pub format: WireFormat,
    pub options: DeliveryOptions,
}

/// The buffering discipline of a record's cell.
#[derive(Clone, Copy, Debug, PartialEq, Eq, Structural)]
pub enum BufferPolicy {
    /// One value, overwritten by each write.
    SingleLatest,
    /// A bounded multi-consumer ring of the given capacity.
    SpmcRing { capacity: usize },
}

/// Everything the bridge needs to register one record: its kind, device
/// address, buffer policy, bindings, monitor tap and subscriber limit.
#[derive(Clone, Debug)]
pub struct RecordSpec {
    pub kind: RecordKind,
    /// The record's device address, stamped on values decoded from bus
    /// telegrams.
    pub address: String,
    pub policy: BufferPolicy,
    /// At most one inbound binding: the record has a single writer.
    pub inbound: Option<LinkBinding>,
    /// Outbound bindings fire independently, in registration order.
    pub outbound: Vec<LinkBinding>,
    /// Whether a monitor tap logs every successful write.
    pub monitor: bool,
    /// How many readers the record's cell will admit.
    pub max_subscribers: usize,
}

/// What decoding an inbound payload yields for a record of the given
/// kind: bus telegrams carry only the primary value and are stamped with
/// the record's address; textual payloads carry their own fields.
pub open spec fn spec_decode_record(
    kind: RecordKind,
    format: WireFormat,
    address: Seq<char>,
    data: Seq<u8>,
) -> Result<RecordModel, DecodeError>
    recommends
        format_decodes(format, kind),
{
    match format {
        WireFormat::BusBool => match dpt::spec_decode_bool(data) {
            Err(e) => Err(e),
            Ok(is_on) => {
                let m = SwitchModel { address, is_on, timestamp: 0 };
                if kind == RecordKind::State {
                    Ok(RecordModel::State(m))
                } else {
                    Ok(RecordModel::Control(m))
                }
            },
        },
        WireFormat::BusTemp => match dpt::spec_decode_temp(data) {
            Err(e) => Err(e),
            Ok(celsius_centi) => Ok(
                RecordModel::Reading(TemperatureModel { address, celsius_centi, timestamp: 0 }),
            ),
        },
        WireFormat::Text => match kind {
            RecordKind::State => match switch::spec_decode_switch(data) {
                Err(e) => Err(e),
                Ok(m) => Ok(RecordModel::State(m)),
            },
            RecordKind::Control => match switch::spec_decode_switch(data) {
                Err(e) => Err(e),
                Ok(m) => Ok(RecordModel::Control(m)),
            },
            RecordKind::Reading => match temperature::spec_decode_temperature(data) {
                Err(e) => Err(e),
                Ok(m) => Ok(RecordModel::Reading(m)),
            },
        },
    }
}

/// What encoding a record value for an outbound binding yields.
pub open spec fn spec_encode_record(format: WireFormat, m: RecordModel) -> Result<
    Seq<u8>,
    EncodeError,
>
    recommends
        format_encodes(format, kind_of(m)),
{
    match (format, m) {
        (WireFormat::BusBool, RecordModel::State(sm)) => Ok(dpt::spec_encode_bool(sm.is_on)),
        (WireFormat::BusBool, RecordModel::Control(sm)) => Ok(dpt::spec_encode_bool(sm.is_on)),
        (WireFormat::BusTemp, RecordModel::Reading(tm)) => Ok(
            dpt::spec_encode_temp(tm.celsius_centi as int),
        ),
        (WireFormat::Text, RecordModel::State(sm)) => if valid_address_bytes(
            vstd::utf8::encode_utf8(sm.address),
        ) {
            Ok(switch::spec_encode_switch(sm.address, sm.is_on, sm.timestamp))
        } else {
            Err(EncodeError::AddressNotRepresentable)
        },
        (WireFormat::Text, RecordModel::Control(sm)) => if valid_address_bytes(
            vstd::utf8::encode_utf8(sm.address),
        ) {
            Ok(switch::spec_encode_switch(sm.address, sm.is_on, sm.timestamp))
        } else {
            Err(EncodeError::AddressNotRepresentable)
        },
        (WireFormat::Text, RecordModel::Reading(tm)) => if valid_address_bytes(
            vstd::utf8::encode_utf8(tm.address),
        ) {
            Ok(
                temperature::spec_encode_temperature(
                    tm.address,
                    tm.celsius_centi,
                    tm.timestamp,
                ),
            )
        } else {
            Err(EncodeError::AddressNotRepresentable)
        },
        _ => Err(EncodeError::AddressNotRepresentable),
    }
}

/// Decode an inbound payload for a record of the given kind, stamping bus
/// telegrams with the record's device address.
pub fn decode_record(
    kind: RecordKind,
    format: WireFormat,
    address: &str,
    data: &[u8],
) -> (r: Result<RecordValue, DecodeError>)
    requires
        format_decodes(format, kind),
    ensures
        match r {
            Ok(v) => spec_decode_record(kind, format, address@, data@) == Ok::<
                RecordModel,
                DecodeError,
            >(v@),
            Err(e) => spec_decode_record(kind, format, address@, data@) == Err::<
                RecordModel,
                DecodeError,
            >(e),
        },
{
    match format {
        WireFormat::BusBool => {
            if kind == RecordKind::State {
                match switch::deserialize_switch_state_from_knx(data, address) {
                    Ok(s) => Ok(RecordValue::State(s)),
                    Err(e) => Err(e),
                }
            } else {
                match dpt::decode_bool(data) {
                    Ok(is_on) => Ok(
                        RecordValue::Control(
                            SwitchControl { address: address.to_owned(), is_on, timestamp: 0 },
                        ),
                    ),
                    Err(e) => Err(e),
                }
            }
        },
        WireFormat::BusTemp => match temperature::from_knx(data, address) {
            Ok(t) => Ok(RecordValue::Reading(t)),
            Err(e) => Err(e),
        },
        WireFormat::Text => match kind {
            RecordKind::State => match switch::deserialize_state(data) {
                Ok(s) => Ok(RecordValue::State(s)),
                Err(e) => Err(e),
            },
            RecordKind::Control => match switch::deserialize_control(data) {
                Ok(c) => Ok(RecordValue::Control(c)),
                Err(e) => Err(e),
            },
            RecordKind::Reading => match temperature::deserialize(data) {
                Ok(t) => Ok(RecordValue::Reading(t)),
                Err(e) => Err(e),
            },
        },
    }
}

/// The violation an outbound binding carries, or `None` when it is fit
/// for registration.
pub open spec fn check_binding_out(b: LinkBinding, kind: RecordKind) -> Option<BindingError> {
    if b.direction != Direction::Outbound {
        Some(BindingError::DirectionMismatch)
    } else if b.endpoint@.len() == 0 {
        Some(BindingError::EmptyEndpoint)
    } else if !format_encodes(b.format, kind) {
        Some(BindingError::CodecMismatch)
    } else {
        None
    }
}

/// The first violation among the outbound bindings from index `i` on.
pub open spec fn first_out_err(bs: Seq<LinkBinding>, kind: RecordKind, i: int) -> Option<
    BindingError,
>
    decreases bs.len() - i,
{
    if i < 0 || i >= bs.len() {
        None
    } else {
        match check_binding_out(bs[i], kind) {
            Some(e) => Some(e),
            None => first_out_err(bs, kind, i + 1),
        }
    }
}

/// The first violation a record specification carries, in a fixed check
/// order; `None` for a valid specification.
pub open spec fn spec_check(s: RecordSpec) -> Option<BindingError> {
    if s.policy matches BufferPolicy::SpmcRing { capacity } && capacity == 0 {
        Some(BindingError::ZeroCapacity)
    } else if s.inbound matches Some(b) && b.direction != Direction::Inbound {
        Some(BindingError::DirectionMismatch)
    } else if s.inbound matches Some(b) && b.endpoint@.len() == 0 {
        Some(BindingError::EmptyEndpoint)
    } else if s.inbound matches Some(b) && !format_decodes(b.format, s.kind) {
        Some(BindingError::CodecMismatch)
    } else {
        first_out_err(s.outbound@, s.kind, 0)
    }
}

/// A record specification the bridge accepts.
pub open spec fn spec_valid(s: RecordSpec) -> bool {
    spec_check(s) is None
}

/// The first violation among the specifications from index `i` on: the
/// error an all-or-nothing assembly reports.
pub open spec fn spec_assemble_err(specs: Seq<RecordSpec>, i: int) -> Option<BindingError>
    decreases specs.len() - i,
{
    if i < 0 || i >= specs.len() {
        None
    } else {
        match spec_check(specs[i]) {
            Some(e) => Some(e),
            None => spec_assemble_err(specs, i + 1),
        }
    }
}

proof fn lemma_first_out_err_none(bs: Seq<LinkBinding>, kind: RecordKind, i: int)
    requires
        0 <= i <= bs.len(),
        first_out_err(bs, kind, i) is None,
    ensures
        forall|k: int| i <= k < bs.len() ==> check_binding_out(#[trigger] bs[k], kind) is None,
    decreases bs.len() - i,
{
    if i < bs.len() {
        lemma_first_out_err_none(bs, kind, i + 1);
    }
}

proof fn lemma_assemble_err_none(specs: Seq<RecordSpec>, i: int)
    requires
        0 <= i <= specs.len(),
        spec_assemble_err(specs, i) is None,
    ensures
        forall|k: int| i <= k < specs.len() ==> spec_check(#[trigger] specs[k]) is None,
    decreases specs.len() - i,
{
    if i < specs.len() {
        lemma_assemble_err_none(specs, i + 1);
    }
}

fn format_decodes_exec(f: WireFormat, k: RecordKind) -> (r: bool)
    ensures
        r == format_decodes(f, k),
{
    match f {
        WireFormat::BusBool => k == RecordKind::State || k == RecordKind::Control,
        WireFormat::BusTemp => k == RecordKind::Reading,
        WireFormat::Text => true,
    }
}

fn check_binding_out_exec(b: &LinkBinding, kind: RecordKind) -> (r: Option<BindingError>)
    ensures
        r == check_binding_out(*b, kind),
{
    if b.direction != Direction::Outbound {
        Some(BindingError::DirectionMismatch)
    } else if b.endpoint.as_str().is_empty() {
        Some(BindingError::EmptyEndpoint)
    } else if !format_decodes_exec(b.format, kind) {
        Some(BindingError::CodecMismatch)
    } else {
        None
    }
}

/// Check one record specification, reporting its first violation.
pub fn check_record_spec(s: &RecordSpec) -> (r: Option<BindingError>)
    ensures
        r == spec_check(*s),
{
    match s.policy {
        BufferPolicy::SpmcRing { capacity } => {
            if capacity == 0 {
                return Some(BindingError::ZeroCapacity);
            }
        },
        BufferPolicy::SingleLatest => {},
    }
    match &s.inbound {
        Some(b) => {
            if b.direction != Direction::Inbound {
                return Some(BindingError::DirectionMismatch);
            }
            if b.endpoint.as_str().is_empty() {
                return Some(BindingError::EmptyEndpoint);
            }
            if !format_decodes_exec(b.format, s.kind) {
                return Some(BindingError::CodecMismatch);
            }
        },
        None => {},
    }
    let n = s.outbound.len();
    let mut i: usize = 0;
    while i < n
        invariant
            i <= n,
            n == s.outbound@.len(),
            spec_check(*s) == first_out_err(s.outbound@, s.kind, 0),
            first_out_err(s.outbound@, s.kind, 0) == first_out_err(s.outbound@, s.kind, i as int),
        decreases n - i,
    {
        match check_binding_out_exec(&s.outbound[i], s.kind) {
            Some(e) => {
                return Some(e);
            },
            None => {},
        }
        i = i + 1;
    }
    None
}

/// The buffer cell of one registered record, under its policy.
pub enum BufferCell {
    Latest(LatestCell<RecordValue>),
    Ring(RingCell<RecordValue>),
}

/// One registered record: its configuration and its buffer cell.
pub struct RecordRuntime {
    pub config: RecordSpec,
    pub cell: BufferCell,
}

/// The runtime invariant of one registered record: a valid configuration
/// and a cell matching its buffer policy.
pub open spec fn record_inv(r: RecordRuntime) -> bool {
    &&& spec_valid(r.config)
    &&& match r.cell {
        BufferCell::Latest(c) => r.config.policy == BufferPolicy::SingleLatest
            && c@.max_subscribers == r.config.max_subscribers as nat,
        BufferCell::Ring(c) => (r.config.policy matches BufferPolicy::SpmcRing { capacity }
            && c@.capacity == capacity as nat) && ring_inv(c@) && c@.max_subscribers
            == r.config.max_subscribers as nat,
    }
}

/// A running bridge: every record registered, with its cell.
pub struct Bridge {
    pub records: Vec<RecordRuntime>,
}

pub open spec fn bridge_inv(b: Bridge) -> bool {
    forall|i: int| 0 <= i < b.records@.len() ==> record_inv(#[trigger] b.records@[i])
}

/// A cell as assembly creates it: empty, with no subscribers, sized by
/// its record's policy and subscriber limit.
pub open spec fn fresh_cell(s: RecordSpec, c: BufferCell) -> bool {
    match c {
        BufferCell::Latest(lc) => s.policy == BufferPolicy::SingleLatest && lc@.value is None
            && lc@.pending == Seq::<bool>::empty() && lc@.max_subscribers == s.max_subscribers
            as nat,
        BufferCell::Ring(rc) => (s.policy matches BufferPolicy::SpmcRing { capacity }
            && rc@.capacity == capacity as nat) && rc@.items == Seq::<RecordValue>::empty()
            && rc@.cursors == Seq::<nat>::empty() && rc@.max_subscribers == s.max_subscribers
            as nat,
    }
}

/// Assemble a bridge from record specifications.  Assembly is
/// all-or-nothing: the first invalid specification aborts the whole
/// bridge with its error; otherwise every record gets a fresh cell under
/// its policy, in the order given.
pub fn assemble(specs: Vec<RecordSpec>) -> (r: Result<Bridge, BindingError>)
    ensures
        (r is Ok) == (spec_assemble_err(specs@, 0) is None),
        r matches Err(e) ==> spec_assemble_err(specs@, 0) == Some(e),
        r matches Ok(b) ==> bridge_inv(b) && b.records@.len() == specs@.len() && (forall|i: int|
            0 <= i < specs@.len() ==> (#[trigger] b.records@[i]).config == specs@[i] && fresh_cell(
                specs@[i],
                b.records@[i].cell,
            )),
{
    let n = specs.len();
    let mut i: usize = 0;
    while i < n
        invariant
            i <= n,
            n == specs@.len(),
            spec_assemble_err(specs@, 0) == spec_assemble_err(specs@, i as int),
        decreases n - i,
    {
        match check_record_spec(&specs[i]) {
            Some(e) => {
                return Err(e);
            },
            None => {},
        }
        i = i + 1;
    }
    proof {
        lemma_assemble_err_none(specs@, 0);
    }
    let ghost all = specs@;
    let mut remaining = specs;
    let mut records: Vec<RecordRuntime> = Vec::new();
    let mut j: usize = 0;
    while j < n
        invariant
            j <= n,
            n == all.len(),
            remaining@ == all.skip(j as int),
            records@.len() == j as nat,
            forall|k: int| 0 <= k < all.len() ==> spec_check(#[trigger] all[k]) is None,
            forall|k: int|
                0 <= k < j ==> (#[trigger] records@[k]).config == all[k] && fresh_cell(
                    all[k],
                    records@[k].cell,
                ) && record_inv(records@[k]),
        decreases n - j,
    {
        proof {
            assert(remaining@[0] == all[j as int]);
        }
        let s = remaining.remove(0);
        proof {
            assert(remaining@ =~= all.skip(j as int + 1));
        }
        let cell = match s.policy {
            BufferPolicy::SingleLatest => BufferCell::Latest(
                LatestCell::<RecordValue>::new(s.max_subscribers),
            ),
            BufferPolicy::SpmcRing { capacity } => BufferCell::Ring(
                RingCell::<RecordValue>::new(capacity, s.max_subscribers),
            ),
        };
        records.push(RecordRuntime { config: s, cell });
        j = j + 1;
    }
    Ok(Bridge { records })
}

/// Encode a record value for one outbound binding.
pub fn encode_record(format: WireFormat, value: &RecordValue) -> (r: Result<Vec<u8>, EncodeError>)
    requires
        format_encodes(format, kind_of(value@)),
    ensures
        match r {
            Ok(p) => spec_encode_record(format, value@) == Ok::<Seq<u8>, EncodeError>(p@),
            Err(e) => spec_encode_record(format, value@) == Err::<Seq<u8>, EncodeError>(e),
        },
{
    match (format, value) {
        (WireFormat::BusBool, RecordValue::State(s)) => Ok(dpt::encode_bool(s.is_on)),
        (WireFormat::BusBool, RecordValue::Control(c)) => {
            match switch::serialize_switch_control_to_knx(c) {
                Ok(p) => Ok(p),
                Err(e) => Err(e),
            }
        },
        (WireFormat::BusTemp, RecordValue::Reading(t)) => Ok(dpt::encode_temp(t.celsius_centi)),
        (WireFormat::Text, RecordValue::State(s)) => switch::serialize_state(s),
        (WireFormat::Text, RecordValue::Control(c)) => switch::serialize_control(c),
        (WireFormat::Text, RecordValue::Reading(t)) => temperature::serialize(t),
        _ => {
            proof {
                assert(false);
            }
            Err(EncodeError::AddressNotRepresentable)
        },
    }
}

/// One outbound publish produced by a dispatch: the payload for an
/// endpoint, tagged with the binding's delivery options.
pub struct Publish {
    pub endpoint: String,
    pub payload: Vec<u8>,
    pub options: DeliveryOptions,
}

pub open spec fn publishes_view(ps: Seq<Publish>) -> Seq<(Seq<char>, Seq<u8>, DeliveryOptions)> {
    ps.map_values(|p: Publish| (p.endpoint@, p.payload@, p.options))
}

/// The publishes a written value owes the outbound bindings from index
/// `i` on: one per binding whose encode succeeds, in registration order;
/// an encode failure drops that one publish only.
pub open spec fn spec_publishes(bs: Seq<LinkBinding>, m: RecordModel, i: int) -> Seq<
    (Seq<char>, Seq<u8>, DeliveryOptions),
>
    decreases bs.len() - i,
{
    if i < 0 || i >= bs.len() {
        Seq::empty()
    } else {
        let rest = spec_publishes(bs, m, i + 1);
        match spec_encode_record(bs[i].format, m) {
            Ok(p) => seq![(bs[i].endpoint@, p, bs[i].options)] + rest,
            Err(_) => rest,
        }
    }
}

/// The monitor's log line for a written value.
pub open spec fn spec_log_line(m: RecordModel) -> Seq<char> {
    match m {
        RecordModel::State(sm) => "switch state: "@ + sm.address + (if sm.is_on {
            " = ON"@
        } else {
            " = OFF"@
        }),
        RecordModel::Control(sm) => "switch control: "@ + sm.address + (if sm.is_on {
            " = ON"@
        } else {
            " = OFF"@
        }),
        RecordModel::Reading(tm) => "temperature: "@ + tm.address + " = "@ + centi_digits(
            tm.celsius_centi as int,
        ).map_values(|x: u8| x as char),
    }
}

/// How a successful decode changes the matched record's cell: the value
/// is written under the cell's discipline.
pub open spec fn cell_written(oldc: BufferCell, newc: BufferCell, v: RecordValue) -> bool {
    match (oldc, newc) {
        (BufferCell::Latest(o), BufferCell::Latest(nw)) => nw@ == latest_write(o@, v),
        (BufferCell::Ring(o), BufferCell::Ring(nw)) => nw@ == ring_write(o@, v),
        _ => false,
    }
}

/// The record an inbound endpoint addresses: the first, from index `i`
/// on, whose inbound binding names that endpoint; the record count when
/// none does.
pub open spec fn spec_route(rs: Seq<RecordRuntime>, endpoint: Seq<char>, i: int) -> int
    decreases rs.len() - i,
{
    if i < 0 || i >= rs.len() {
        rs.len() as int
    } else if rs[i].config.inbound matches Some(b) && b.endpoint@ == endpoint {
        i
    } else {
        spec_route(rs, endpoint, i + 1)
    }
}

/// Find the record an inbound endpoint addresses.
fn find_route(records: &Vec<RecordRuntime>, endpoint: &str) -> (r: usize)
    ensures
        r as int == spec_route(records@, endpoint@, 0),
        r as int <= records@.len(),
{
    let n = records.len();
    let mut i: usize = 0;
    while i < n
        invariant
            i <= n,
            n == records@.len(),
            spec_route(records@, endpoint@, 0) == spec_route(records@, endpoint@, i as int),
        decreases n - i,
    {
        let matched = match &records[i].config.inbound {
            Some(b) => text::str_eq(b.endpoint.as_str(), endpoint),
            None => false,
        };
        if matched {
            return i;
        }
        i = i + 1;
    }
    i
}

/// What one inbound delivery produced.
pub struct Dispatch {
    /// Whether some record's inbound binding names the endpoint.
    pub routed: bool,
    /// The decode failure on which the payload was discarded, if any.
    pub decode_error: Option<DecodeError>,
    /// One publish per outbound binding whose encode succeeded, in
    /// registration order.
    pub publishes: Vec<Publish>,
    /// The monitor's log line for the written value, when the record has
    /// a monitor: exactly one per successful write.
    pub monitor_lines: Vec<String>,
}

impl Bridge {
    /// Dispatch one inbound payload.  The addressed record's binding
    /// decodes it; on success the value is written to the record's cell
    /// and every outbound binding encodes it for its endpoint.  On decode
    /// failure the payload is discarded and the cell keeps its last known
    /// good value: stale-but-valid data outranks corrupted data.
    pub fn handle_inbound(&mut self, endpoint: &str, data: &[u8]) -> (r: Dispatch)
        requires
            bridge_inv(*old(self)),
        ensures
            bridge_inv(*final(self)),
            ({
                let rs = old(self).records@;
                let idx = spec_route(rs, endpoint@, 0);
                if idx == rs.len() {
                    &&& !r.routed
                    &&& final(self).records@ == rs
                    &&& r.decode_error is None
                    &&& r.publishes@.len() == 0
                    &&& r.monitor_lines@.len() == 0
                } else {
                    let rec = rs[idx];
                    let fmt = rec.config.inbound.unwrap().format;
                    let dec = spec_decode_record(rec.config.kind, fmt, rec.config.address@, data@);
                    &&& r.routed
                    &&& match dec {
                        Err(e) => final(self).records@ == rs && r.decode_error == Some(e)
                            && r.publishes@.len() == 0 && r.monitor_lines@.len() == 0,
                        Ok(m) => {
                            &&& r.decode_error is None
                            &&& final(self).records@.len() == rs.len()
                            &&& final(self).records@ == rs.update(idx, final(self).records@[idx])
                            &&& final(self).records@[idx].config == rec.config
                            &&& exists|v: RecordValue| #![auto]
                                v@ == m && cell_written(
                                    rec.cell,
                                    final(self).records@[idx].cell,
                                    v,
                                )
                            &&& publishes_view(r.publishes@) == spec_publishes(
                                rec.config.outbound@,
                                m,
                                0,
                            )
                            &&& r.monitor_lines@.map_values(|s: String| s@) == (
                            if rec.config.monitor {
                                seq![spec_log_line(m)]
                            } else {
                                Seq::<Seq<char>>::empty()
                            })
                        },
                    }
                }
            }),
    {
        let idx = find_route(&self.records, endpoint);
        if idx == self.records.len() {
            return Dispatch {
                routed: false,
                decode_error: None,
                publishes: Vec::new(),
                monitor_lines: Vec::new(),
            };
        }
        proof {
            lemma_spec_route(self.records@, endpoint@, 0);
            assert(record_inv(self.records@[idx as int]));
        }
        let rec = &self.records[idx];
        let kind = rec.config.kind;
        let format = match &rec.config.inbound {
            Some(b) => b.format,
            None => {
                proof {
                    assert(false);
                }
                WireFormat::Text
            },
        };
        let decoded = decode_record(kind, format, rec.config.address.as_str(), data);
        let value = match decoded {
            Err(e) => {
                return Dispatch {
                    routed: true,
                    decode_error: Some(e),
                    publishes: Vec::new(),
                    monitor_lines: Vec::new(),
                };
            },
            Ok(value) => value,
        };
        proof {
            lemma_first_out_err_none(rec.config.outbound@, rec.config.kind, 0);
        }
        let mut publishes: Vec<Publish> = Vec::new();
        let nb = rec.config.outbound.len();
        let mut j: usize = 0;
        while j < nb
            invariant
                j <= nb,
                nb == rec.config.outbound@.len(),
                forall|k: int|
                    0 <= k < nb ==> check_binding_out(
                        #[trigger] rec.config.outbound@[k],
                        rec.config.kind,
                    ) is None,
                kind_of(value@) == rec.config.kind,
                spec_publishes(rec.config.outbound@, value@, 0) =~= publishes_view(publishes@)
                    + spec_publishes(rec.config.outbound@, value@, j as int),
            decreases nb - j,
        {
            let b = &rec.config.outbound[j];
            let ghost pubs0 = publishes@;
            match encode_record(b.format, &value) {
                Ok(payload) => {
                    publishes.push(
                        Publish { endpoint: b.endpoint.clone(), payload, options: b.options },
                    );
                    proof {
                        assert(publishes_view(publishes@) =~= publishes_view(pubs0).push(
                            (b.endpoint@, publishes@.last().payload@, b.options),
                        ));
                        assert(publishes_view(pubs0) + spec_publishes(
                            rec.config.outbound@,
                            value@,
                            j as int,
                        ) =~= publishes_view(publishes@) + spec_publishes(
                            rec.config.outbound@,
                            value@,
                            j as int + 1,
                        ));
                    }
                },
                Err(_) => {},
            }
            j = j + 1;
        }
        let monitor_lines: Vec<String> = if rec.config.monitor {
            let line = match &value {
                RecordValue::State(s) => switch::state_log_line(s),
                RecordValue::Control(c) => switch::control_log_line(c),
                RecordValue::Reading(t) => temperature::temperature_log_line(t),
            };
            let mut ls: Vec<String> = Vec::new();
            ls.push(line);
            ls
        } else {
            Vec::new()
        };
        proof {
            assert(monitor_lines@.map_values(|s: String| s@) =~= (
            if rec.config.monitor {
                seq![spec_log_line(value@)]
            } else {
                Seq::<Seq<char>>::empty()
            }));
        }
        let ghost old_records = self.records@;
        let ghost written = value;
        let mut rr = self.records.remove(idx);
        match &mut rr.cell {
            BufferCell::Latest(c) => c.write(value),
            BufferCell::Ring(c) => c.write(value),
        }
        self.records.insert(idx, rr);
        proof {
            assert(self.records@ =~= old_records.update(idx as int, self.records@[idx as int]));
            assert(cell_written(
                old_records[idx as int].cell,
                self.records@[idx as int].cell,
                written,
            ));
            assert(record_inv(self.records@[idx as int]));
            assert(bridge_inv(*self)) by {
                assert forall|k: int| 0 <= k < self.records@.len() implies record_inv(
                    #[trigger] self.records@[k],
                ) by {
                    if k != idx as int {
                        assert(self.records@[k] == old_records[k]);
                    }
                }
            }
        }
        Dispatch { routed: true, decode_error: None, publishes, monitor_lines }
    }
}

/// A found route points at a record with an inbound binding on that
/// endpoint.
proof fn lemma_spec_route(rs: Seq<RecordRuntime>, endpoint: Seq<char>, i: int)
    requires
        0 <= i <= rs.len(),
    ensures
        i <= spec_route(rs, endpoint, i) <= rs.len(),
        spec_route(rs, endpoint, i) < rs.len() ==> (rs[spec_route(rs, endpoint, i)].config.inbound
            matches Some(b) && b.endpoint@ == endpoint),
    decreases rs.len() - i,
{
    if i < rs.len() && !(rs[i].config.inbound matches Some(b) && b.endpoint@ == endpoint) {
        lemma_spec_route(rs, endpoint, i + 1);
    }
}

} // verus!
