use metalstream::message::ParsedMessage;
use metalstream::numbers::parse_uint_up_to;
use metalstream::ring::LogRing;
use metalstream::state::GlobalState;

fn sms(id: &str, c: &str, v: &str) -> ParsedMessage {
    let mut m = ParsedMessage::new("12".to_string(), "SMS".to_string());
    m.insert_field("ID".to_string(), id.to_string());
    m.insert_field("C".to_string(), c.to_string());
    m.insert_field("V".to_string(), v.to_string());
    m
}

#[test]
fn sms_upsert_applies_measurement() {
    let mut st = GlobalState::new();
    let out = st.route_message(&sms("1", "1", "900"));
    let m = st.measurements.get(1).unwrap();
    assert_eq!(m.id, 1);
    assert!(m.connected);
    assert_eq!(m.value, 900);
    let s = out.sample.unwrap();
    assert_eq!(s.value, 900);
    assert!(out.met.is_none());
}

#[test]
fn sms_missing_or_malformed_fields_leave_table_unchanged() {
    let mut st = GlobalState::new();
    st.route_message(&sms("2", "1", "5"));

    // Missing V.
    let mut no_v = ParsedMessage::new("1".to_string(), "SMS".to_string());
    no_v.insert_field("ID".to_string(), "2".to_string());
    no_v.insert_field("C".to_string(), "0".to_string());
    let out = st.route_message(&no_v);
    assert!(out.sample.is_none());
    assert_eq!(st.measurements.get(2).unwrap().value, 5);
    assert!(st.measurements.get(2).unwrap().connected);

    // Non-numeric ID.
    let out = st.route_message(&sms("abc", "0", "7"));
    assert!(out.sample.is_none());
    assert_eq!(st.measurements.get(2).unwrap().value, 5);

    // Out-of-range channel ids.
    assert!(st.route_message(&sms("0", "1", "7")).sample.is_none());
    assert!(st.route_message(&sms("9", "1", "7")).sample.is_none());

    // Values too large for their types.
    assert!(st.route_message(&sms("2", "256", "7")).sample.is_none());
    assert!(st.route_message(&sms("2", "1", "65536")).sample.is_none());
    assert_eq!(st.measurements.get(2).unwrap().value, 5);
}

#[test]
fn sms_upsert_last_write_wins() {
    let mut st = GlobalState::new();
    st.route_message(&sms("3", "1", "42"));
    st.route_message(&sms("3", "0", "7"));
    let m = st.measurements.get(3).unwrap();
    assert_eq!(m.id, 3);
    assert!(!m.connected);
    assert_eq!(m.value, 7);
}

#[test]
fn sms_accepts_plus_signed_numbers() {
    let mut st = GlobalState::new();
    let out = st.route_message(&sms("+4", "+1", "+65535"));
    let s = out.sample.unwrap();
    assert_eq!(s.id, 4);
    assert!(s.connected);
    assert_eq!(s.value, 65535);
}

#[test]
fn met_hands_back_the_three_tokens() {
    let mut st = GlobalState::new();
    let mut m = ParsedMessage::new("5".to_string(), "MET".to_string());
    m.insert_field("W".to_string(), "1.5".to_string());
    m.insert_field("L".to_string(), "200".to_string());
    m.insert_field("S".to_string(), "3.25".to_string());
    let out = st.route_message(&m);
    let met = out.met.unwrap();
    assert_eq!(met.width, "1.5");
    assert_eq!(met.length, "200");
    assert_eq!(met.speed, "3.25");
    assert!(out.sample.is_none());
}

#[test]
fn met_with_missing_field_is_dropped() {
    let mut st = GlobalState::new();
    let mut m = ParsedMessage::new("5".to_string(), "MET".to_string());
    m.insert_field("W".to_string(), "1.5".to_string());
    m.insert_field("L".to_string(), "200".to_string());
    assert!(st.route_message(&m).met.is_none());
}

#[test]
fn unknown_command_is_logged_only() {
    let mut st = GlobalState::new();
    let m = ParsedMessage::new("8".to_string(), "XYZ".to_string());
    let out = st.route_message(&m);
    assert!(out.sample.is_none());
    assert!(out.met.is_none());
    assert_eq!(st.logs.len(), 1);
    assert_eq!(st.logs.get(0), "[8] XYZ ");
    assert!(st.measurements.get(1).is_none());
}

#[test]
fn every_message_is_appended_to_the_log() {
    let mut st = GlobalState::new();
    st.route_message(&sms("1", "1", "900"));
    assert_eq!(st.logs.len(), 1);
    assert_eq!(st.logs.get(0), "[12] SMS ID=1, C=1, V=900");
}

#[test]
fn log_ring_keeps_exactly_the_last_hundred() {
    let mut ring = LogRing::new();
    for i in 0..150 {
        ring.append(format!("m{}", i));
    }
    assert_eq!(ring.len(), 100);
    assert_eq!(ring.get(0), "m50");
    assert_eq!(ring.get(99), "m149");
}

#[test]
fn log_ring_below_capacity_keeps_everything() {
    let mut ring = LogRing::new();
    for i in 0..3 {
        ring.append(format!("m{}", i));
    }
    assert_eq!(ring.len(), 3);
    assert_eq!(ring.get(0), "m0");
    assert_eq!(ring.get(2), "m2");
}

#[test]
fn decimal_parsing_matches_the_grammar() {
    assert_eq!(parse_uint_up_to("900", 65535), Some(900));
    assert_eq!(parse_uint_up_to("0012", 65535), Some(12));
    assert_eq!(parse_uint_up_to("+7", 255), Some(7));
    assert_eq!(parse_uint_up_to("", 255), None);
    assert_eq!(parse_uint_up_to("+", 255), None);
    assert_eq!(parse_uint_up_to("7a", 255), None);
    assert_eq!(parse_uint_up_to("-1", 255), None);
    assert_eq!(parse_uint_up_to("256", 255), None);
    assert_eq!(parse_uint_up_to("255", 255), Some(255));
    assert_eq!(parse_uint_up_to("65536", 65535), None);
}

#[test]
fn commands_from_the_presentation_layer_are_noops() {
    let mut st = GlobalState::new();
    st.route_message(&sms("1", "1", "900"));
    st.start();
    st.stop();
    st.calibrate();
    assert_eq!(st.measurements.get(1).unwrap().value, 900);
    assert_eq!(st.logs.len(), 1);
}

#[test]
fn message_queue_is_fifo_and_drops_oldest_when_full() {
    let mut q = metalstream::queue::MessageQueue::new();
    for i in 0..(metalstream::queue::QUEUE_CAPACITY + 5) {
        q.push(ParsedMessage::new(format!("{}", i), "SMS".to_string()));
    }
    assert_eq!(q.len(), metalstream::queue::QUEUE_CAPACITY);
    // The five oldest were dropped; the rest come out in parse order.
    let first = q.pop().unwrap();
    assert_eq!(first.timestamp, "5");
    let second = q.pop().unwrap();
    assert_eq!(second.timestamp, "6");
    let mut last = second;
    while let Some(m) = q.pop() {
        last = m;
    }
    assert_eq!(last.timestamp, format!("{}", metalstream::queue::QUEUE_CAPACITY + 4));
    assert_eq!(q.len(), 0);
    assert!(q.pop().is_none());
}
