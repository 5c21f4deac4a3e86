//! Typed application state fed by the message router: the per-sensor
//! measurement table, the per-sensor connectivity flags, and the bounded log
//! ring. The router is the sole place where untrusted device input becomes
//! typed state: a message whose numeric fields do not parse is logged but
//! never applied.

use vstd::prelude::*;

use crate::message::{MessageModel, ParsedMessage, render_message};
use crate::numbers::{parse_uint_up_to, parses_as_uint, uint_value};
use crate::ring::LogRing;

verus! {

/// Number of sensor channels on the rig.
pub const NUM_SENSORS: usize = 8;

/// Latest known state of one sensor.
#[derive(Clone, Copy, Debug, PartialEq, Eq, Structural)]
pub struct Measurement {
    /// Sensor channel, 1-based, within `1..=NUM_SENSORS`.
    pub id: u8,
    /// Last reported liveness.
    pub connected: bool,
    /// Last reported scalar reading.
    pub value: u16,
}

/// Latest measurement per sensor, keyed by id, iterated in ascending id order.
/// An upsert replaces the whole entry (last write wins); nothing is ever
/// deleted — a sensor that goes silent keeps its stale entry.
pub struct MeasurementTable {
    slots: Vec<Option<Measurement>>,
}

impl MeasurementTable {
    /// The slot per sensor: position `i` holds sensor `i + 1`.
    pub closed spec fn slots_view(self) -> Seq<Option<Measurement>> {
        self.slots@
    }

    /// One slot per sensor; a filled slot carries its own id.
    pub open spec fn wf(self) -> bool {
        &&& self.slots_view().len() == NUM_SENSORS
        &&& forall|i: int|
            0 <= i < NUM_SENSORS ==> ((#[trigger] self.slots_view()[i]) matches Some(m) ==> m.id
                == i + 1)
    }

    /// The table as a mapping from sensor id to its latest measurement.
    pub open spec fn as_map(self) -> Map<u8, Measurement> {
        Map::new(
            |k: u8| 1 <= k <= NUM_SENSORS && self.slots_view()[k - 1] is Some,
            |k: u8| self.slots_view()[k - 1]->Some_0,
        )
    }

    /// An empty table.
    pub fn new() -> (r: MeasurementTable)
        ensures
            r.wf(),
            r.as_map() == Map::<u8, Measurement>::empty(),
    {
        let mut slots: Vec<Option<Measurement>> = Vec::new();
        let mut i: usize = 0;
        while i < NUM_SENSORS
            invariant
                i <= NUM_SENSORS,
                slots@.len() == i,
                forall|j: int| 0 <= j < i ==> (#[trigger] slots@[j]) is None,
            decreases NUM_SENSORS - i,
        {
            slots.push(None);
            i = i + 1;
        }
        let r = MeasurementTable { slots };
        proof {
            assert(r.as_map() =~= Map::<u8, Measurement>::empty());
        }
        r
    }

    /// Insert or replace the measurement of sensor `m.id` (last write wins).
    pub fn upsert(&mut self, m: Measurement)
        requires
            old(self).wf(),
            1 <= m.id <= NUM_SENSORS,
        ensures
            final(self).wf(),
            final(self).as_map() == old(self).as_map().insert(m.id, m),
    {
        let idx: usize = (m.id - 1) as usize;
        self.slots.set(idx, Some(m));
        proof {
            assert(final(self).as_map() =~= old(self).as_map().insert(m.id, m));
        }
    }

    /// The latest measurement of sensor `id`, if it has ever reported.
    pub fn get(&self, id: u8) -> (r: Option<Measurement>)
        requires
            self.wf(),
        ensures
            r == if self.as_map().contains_key(id) {
                Some(self.as_map()[id])
            } else {
                None::<Measurement>
            },
    {
        if 1 <= id && (id as usize) <= NUM_SENSORS {
            self.slots[(id - 1) as usize]
        } else {
            None
        }
    }

    /// The latest scalar value per sensor, ascending by id, 0 where a sensor
    /// has never reported.
    pub fn latest_values(&self) -> (r: Vec<u16>)
        requires
            self.wf(),
        ensures
            r@ == table_values(*self),
    {
        let mut values: Vec<u16> = Vec::new();
        let mut i: usize = 0;
        while i < NUM_SENSORS
            invariant
                i <= NUM_SENSORS,
                self.wf(),
                values@.len() == i,
                forall|j: int| 0 <= j < i ==> values@[j] == table_values(*self)[j],
            decreases NUM_SENSORS - i,
        {
            let v: u16 = match self.slots[i] {
                Some(m) => m.value,
                None => 0,
            };
            values.push(v);
            i = i + 1;
        }
        proof {
            assert(values@ =~= table_values(*self));
        }
        values
    }
}

/// The latest value per sensor, ascending by id, 0 where a sensor has never
/// reported.
pub open spec fn table_values(t: MeasurementTable) -> Seq<u16> {
    Seq::new(
        NUM_SENSORS as nat,
        |i: int|
            if t.as_map().contains_key((i + 1) as u8) {
                t.as_map()[(i + 1) as u8].value
            } else {
                0u16
            },
    )
}

/// The measurement that an `SMS` message carries, if its three fields are all
/// present and numeric and the sensor id is a real channel; otherwise nothing,
/// and the message must not touch the table.
pub open spec fn sms_measurement(m: MessageModel) -> Option<Measurement> {
    if m.command == "SMS"@ && m.fields.contains_key("ID"@) && parses_as_uint(
        m.fields["ID"@],
        u8::MAX as int,
    ) && 1 <= uint_value(m.fields["ID"@]) <= NUM_SENSORS && m.fields.contains_key("C"@)
        && parses_as_uint(m.fields["C"@], u8::MAX as int) && m.fields.contains_key("V"@)
        && parses_as_uint(m.fields["V"@], u16::MAX as int) {
        Some(
            Measurement {
                id: uint_value(m.fields["ID"@]) as u8,
                connected: uint_value(m.fields["C"@]) != 0,
                value: uint_value(m.fields["V"@]) as u16,
            },
        )
    } else {
        None
    }
}

/// The three dimension/speed tokens that a `MET` message carries, if all three
/// fields are present; their numeric reading is left to the caller.
pub open spec fn met_strings(m: MessageModel) -> Option<(Seq<char>, Seq<char>, Seq<char>)> {
    if m.command == "MET"@ && m.fields.contains_key("W"@) && m.fields.contains_key("L"@)
        && m.fields.contains_key("S"@) {
        Some((m.fields["W"@], m.fields["L"@], m.fields["S"@]))
    } else {
        None
    }
}

/// The raw dimension/speed tokens of a `MET` message, for the caller to read
/// as numbers.
pub struct MetReadout {
    pub width: String,
    pub length: String,
    pub speed: String,
}

/// What routing one message produced beyond the state change: a measurement to
/// forward to the visualization, or a `MET` readout to apply.
pub struct RouteOutcome {
    pub sample: Option<Measurement>,
    pub met: Option<MetReadout>,
}

/// State owned by the UI side of the pipeline.
pub struct GlobalState {
    /// Display strings of the recent messages, oldest first.
    pub logs: LogRing,
    /// Latest measurement per sensor.
    pub measurements: MeasurementTable,
    /// Last reported liveness per sensor, indexed by id - 1.
    pub connection_states: Vec<bool>,
    /// Device path selected by the locator; empty until a device is found.
    pub serial_port_path: String,
}

impl GlobalState {
    /// All parts hold their own invariants.
    pub open spec fn wf(self) -> bool {
        &&& self.logs.wf()
        &&& self.measurements.wf()
        &&& self.connection_states@.len() == NUM_SENSORS
    }

    /// Fresh state: nothing measured, nothing logged, no device selected.
    pub fn new() -> (r: GlobalState)
        ensures
            r.wf(),
            r.logs.history() == Seq::<Seq<char>>::empty(),
            r.measurements.as_map() == Map::<u8, Measurement>::empty(),
            forall|i: int| 0 <= i < NUM_SENSORS ==> !(#[trigger] r.connection_states@[i]),
            r.serial_port_path@ == Seq::<char>::empty(),
    {
        let mut connection_states: Vec<bool> = Vec::new();
        let mut i: usize = 0;
        while i < NUM_SENSORS
            invariant
                i <= NUM_SENSORS,
                connection_states@.len() == i,
                forall|j: int| 0 <= j < i ==> !(#[trigger] connection_states@[j]),
            decreases NUM_SENSORS - i,
        {
            connection_states.push(false);
            i = i + 1;
        }
        let r = GlobalState {
            logs: LogRing::new(),
            measurements: MeasurementTable::new(),
            connection_states,
            serial_port_path: String::new(),
        };
        r
    }

    /// Route one parsed message: log its display string, and dispatch on the
    /// command. `SMS` upserts a measurement when `ID`, `C` and `V` all parse
    /// and the id is a real channel; `MET` hands the three tokens back;
    /// anything else is logged only. A malformed message changes no state.
    pub fn route_message(&mut self, msg: &ParsedMessage) -> (r: RouteOutcome)
        requires
            old(self).wf(),
            msg.wf(),
        ensures
            final(self).wf(),
            final(self).logs.history() == old(self).logs.history().push(
                render_message(msg@.timestamp, msg@.command, msg.field_pairs()),
            ),
            final(self).serial_port_path == old(self).serial_port_path,
            match sms_measurement(msg@) {
                Some(m) => {
                    &&& final(self).measurements.as_map() == old(self).measurements.as_map().insert(
                        m.id,
                        m,
                    )
                    &&& final(self).connection_states@ == old(self).connection_states@.update(
                        m.id - 1,
                        m.connected,
                    )
                    &&& r.sample == Some(m)
                },
                None => {
                    &&& final(self).measurements.as_map() == old(self).measurements.as_map()
                    &&& final(self).connection_states@ == old(self).connection_states@
                    &&& r.sample is None
                },
            },
            match met_strings(msg@) {
                Some(t) => r.met matches Some(mr) && mr.width@ == t.0 && mr.length@ == t.1
                    && mr.speed@ == t.2,
                None => r.met is None,
            },
    {
        let line = msg.display_string();
        self.logs.append(line);
        let mut outcome = RouteOutcome { sample: None, met: None };
        proof {
            reveal_strlit("SMS");
            reveal_strlit("MET");
            assert("SMS"@[0] != "MET"@[0]);
            assert("SMS"@ != "MET"@);
        }
        if crate::text::str_eq(msg.command.as_str(), "SMS") {
            let id_parsed: Option<u16> = match msg.get_field("ID") {
                Some(s) => parse_uint_up_to(s.as_str(), 255),
                None => None,
            };
            let c_parsed: Option<u16> = match msg.get_field("C") {
                Some(s) => parse_uint_up_to(s.as_str(), 255),
                None => None,
            };
            let v_parsed: Option<u16> = match msg.get_field("V") {
                Some(s) => parse_uint_up_to(s.as_str(), 65535),
                None => None,
            };
            if let (Some(id16), Some(c16), Some(v16)) = (id_parsed, c_parsed, v_parsed) {
                if 1 <= id16 && id16 <= NUM_SENSORS as u16 {
                    let m = Measurement { id: id16 as u8, connected: c16 != 0, value: v16 };
                    self.measurements.upsert(m);
                    self.connection_states.set((id16 - 1) as usize, m.connected);
                    outcome.sample = Some(m);
                }
            }
        } else if crate::text::str_eq(msg.command.as_str(), "MET") {
            let w = match msg.get_field("W") {
                Some(s) => Some(s.clone()),
                None => None,
            };
            let l = match msg.get_field("L") {
                Some(s) => Some(s.clone()),
                None => None,
            };
            let s_field = match msg.get_field("S") {
                Some(s) => Some(s.clone()),
                None => None,
            };
            if let (Some(width), Some(length), Some(speed)) = (w, l, s_field) {
                outcome.met = Some(MetReadout { width, length, speed });
            }
        }
        outcome
    }

    /// Accessor for the presentation layer: the retained log lines.
    pub fn recent_logs(&self) -> (r: &LogRing)
        ensures
            r == self.logs,
    {
        &self.logs
    }

    /// Start command from the presentation layer: accepted, not implemented by
    /// the device protocol — an explicit no-op.
    pub fn start(&mut self)
        ensures
            *final(self) == *old(self),
    {
    }

    /// Stop command from the presentation layer: an explicit no-op.
    pub fn stop(&mut self)
        ensures
            *final(self) == *old(self),
    {
    }

    /// Calibrate command from the presentation layer: an explicit no-op.
    pub fn calibrate(&mut self)
        ensures
            *final(self) == *old(self),
    {
    }
}

impl Default for GlobalState {
    /// Same as `GlobalState::new`: nothing measured, nothing logged.
    fn default() -> (r: GlobalState)
        ensures
            r.wf(),
            r.logs.history() == Seq::<Seq<char>>::empty(),
            r.measurements.as_map() == Map::<u8, Measurement>::empty(),
            forall|i: int| 0 <= i < NUM_SENSORS ==> !(#[trigger] r.connection_states@[i]),
            r.serial_port_path@ == Seq::<char>::empty(),
    {
        GlobalState::new()
    }
}

impl Default for Measurement {
    /// Sensor zero placeholder: disconnected, reading zero.
    fn default() -> (r: Measurement)
        ensures
            r.id == 0,
            !r.connected,
            r.value == 0,
    {
        Measurement { id: 0, connected: false, value: 0 }
    }
}

/// Law: two `SMS` updates for the same sensor leave exactly the later
/// measurement — last write wins, nothing is merged.
pub proof fn lemma_upsert_last_wins(t: Map<u8, Measurement>, m1: Measurement, m2: Measurement)
    requires
        m1.id == m2.id,
    ensures
        t.insert(m1.id, m1).insert(m2.id, m2) == t.insert(m2.id, m2),
{
    assert(t.insert(m1.id, m1).insert(m2.id, m2) =~= t.insert(m2.id, m2));
}

} // verus!
