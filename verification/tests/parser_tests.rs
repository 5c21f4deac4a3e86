use metalstream::parser::{parse_body, FrameAccumulator};

#[test]
fn single_frame_is_extracted() {
    let mut acc = FrameAccumulator::new();
    let msgs = acc.push_chunk(b"$12:SMS:ID=1:C=1:V=900#");
    assert_eq!(msgs.len(), 1);
    let m = &msgs[0];
    assert_eq!(m.timestamp, "12");
    assert_eq!(m.command, "SMS");
    assert_eq!(m.get_field("ID").unwrap(), "1");
    assert_eq!(m.get_field("C").unwrap(), "1");
    assert_eq!(m.get_field("V").unwrap(), "900");
    assert_eq!(m.fields.len(), 3);
}

#[test]
fn malformed_field_is_skipped_without_aborting() {
    let mut acc = FrameAccumulator::new();
    let msgs = acc.push_chunk(b"$12:SMS:BAD:ID=7#");
    assert_eq!(msgs.len(), 1);
    let m = &msgs[0];
    assert_eq!(m.get_field("ID").unwrap(), "7");
    assert!(m.get_field("BAD").is_none());
    assert_eq!(m.fields.len(), 1);
}

#[test]
fn under_field_body_yields_no_message() {
    let mut acc = FrameAccumulator::new();
    assert_eq!(acc.push_chunk(b"$OnlyOnePart#").len(), 0);
    assert_eq!(acc.push_chunk(b"$#").len(), 0);
}

#[test]
fn two_part_body_yields_message_with_no_fields() {
    let mut acc = FrameAccumulator::new();
    let msgs = acc.push_chunk(b"$7:PING#");
    assert_eq!(msgs.len(), 1);
    assert_eq!(msgs[0].timestamp, "7");
    assert_eq!(msgs[0].command, "PING");
    assert_eq!(msgs[0].fields.len(), 0);
}

#[test]
fn multiple_frames_in_one_chunk() {
    let mut acc = FrameAccumulator::new();
    let msgs = acc.push_chunk(b"$1:A:K=x#$2:B#tail-junk");
    assert_eq!(msgs.len(), 2);
    assert_eq!(msgs[0].command, "A");
    assert_eq!(msgs[0].get_field("K").unwrap(), "x");
    assert_eq!(msgs[1].timestamp, "2");
    assert_eq!(msgs[1].command, "B");
}

#[test]
fn frame_split_across_reads_is_recognized() {
    let mut acc = FrameAccumulator::new();
    assert_eq!(acc.push_chunk(b"$12:SM").len(), 0);
    let msgs = acc.push_chunk(b"S:ID=3#");
    assert_eq!(msgs.len(), 1);
    assert_eq!(msgs[0].timestamp, "12");
    assert_eq!(msgs[0].command, "SMS");
    assert_eq!(msgs[0].get_field("ID").unwrap(), "3");
}

#[test]
fn junk_before_start_marker_is_ignored() {
    let mut acc = FrameAccumulator::new();
    let msgs = acc.push_chunk(b"noise#garbage$1:X#");
    assert_eq!(msgs.len(), 1);
    assert_eq!(msgs[0].command, "X");
}

#[test]
fn repeated_key_keeps_the_last_value() {
    let mut acc = FrameAccumulator::new();
    let msgs = acc.push_chunk(b"$1:C:K=a:K=b#");
    assert_eq!(msgs.len(), 1);
    assert_eq!(msgs[0].get_field("K").unwrap(), "b");
    assert_eq!(msgs[0].fields.len(), 1);
}

#[test]
fn invalid_utf8_is_replaced_not_rejected() {
    let mut acc = FrameAccumulator::new();
    let msgs = acc.push_chunk(b"$1:C:K=\xff#");
    assert_eq!(msgs.len(), 1);
    assert_eq!(msgs[0].get_field("K").unwrap(), "\u{FFFD}");
}

#[test]
fn value_may_be_empty_or_contain_equals() {
    let mut acc = FrameAccumulator::new();
    let msgs = acc.push_chunk(b"$1:C:K=:L=a=b#");
    assert_eq!(msgs.len(), 1);
    assert_eq!(msgs[0].get_field("K").unwrap(), "");
    assert_eq!(msgs[0].get_field("L").unwrap(), "a=b");
}

#[test]
fn parse_body_rejects_short_and_accepts_two_parts() {
    assert!(parse_body("justone").is_none());
    assert!(parse_body("").is_none());
    let m = parse_body("9:CMD:A=1").unwrap();
    assert_eq!(m.timestamp, "9");
    assert_eq!(m.command, "CMD");
    assert_eq!(m.get_field("A").unwrap(), "1");
}

#[test]
fn display_string_renders_timestamp_command_and_fields() {
    let mut acc = FrameAccumulator::new();
    let msgs = acc.push_chunk(b"$12:SMS:ID=1:C=1:V=900#");
    assert_eq!(msgs[0].display_string(), "[12] SMS ID=1, C=1, V=900");
    let msgs2 = acc.push_chunk(b"$3:PING#");
    assert_eq!(msgs2[0].display_string(), "[3] PING ");
}
