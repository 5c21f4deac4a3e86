use metalstream::locator::{find_device, PortCandidate, KNOWN_MANUFACTURER};
use metalstream::panes::{LogsTab, ResultsTab};
use metalstream::reader::{ConnectionInfo, ReadEvent, ReaderTask, BAUD_RATE};

#[test]
fn reconnect_scenario_flips_the_flag_and_replaces_the_descriptor() {
    let mut task = ReaderTask::new("/dev/ttyUSB0".to_string());
    assert!(!task.is_connected());
    assert!(task.current_connection().is_none());

    task.on_open_result(true);
    assert!(task.is_connected());
    let ci = task.current_connection().unwrap();
    assert_eq!(ci.port_path, "/dev/ttyUSB0");
    assert_eq!(ci.baudrate, BAUD_RATE);

    // A non-timeout read error drops the connection.
    let msgs = task.on_read(ReadEvent::Failed);
    assert!(msgs.is_empty());
    assert!(!task.is_connected());

    // A later successful open on another path replaces the descriptor.
    task.port_path = "/dev/ttyUSB7".to_string();
    task.on_open_result(true);
    assert!(task.is_connected());
    let ci = task.current_connection().unwrap();
    assert_eq!(ci.port_path, "/dev/ttyUSB7");
    assert_eq!(ci.baudrate, BAUD_RATE);
}

#[test]
fn failed_open_changes_nothing() {
    let mut task = ReaderTask::new("/dev/ttyUSB0".to_string());
    task.on_open_result(false);
    assert!(!task.is_connected());
    assert!(task.current_connection().is_none());
}

#[test]
fn timeouts_and_empty_reads_are_noops() {
    let mut task = ReaderTask::new("/dev/ttyUSB0".to_string());
    task.on_open_result(true);
    assert!(task.on_read(ReadEvent::Timeout).is_empty());
    assert!(task.is_connected());
    assert!(task.on_read(ReadEvent::Empty).is_empty());
    assert!(task.is_connected());
}

#[test]
fn data_events_flow_through_the_parser() {
    let mut task = ReaderTask::new("/dev/ttyUSB0".to_string());
    task.on_open_result(true);
    let msgs = task.on_read(ReadEvent::Data(b"$12:SMS:ID=1".to_vec()));
    assert!(msgs.is_empty());
    let msgs = task.on_read(ReadEvent::Data(b":C=1:V=900#".to_vec()));
    assert_eq!(msgs.len(), 1);
    assert_eq!(msgs[0].command, "SMS");
    assert_eq!(msgs[0].get_field("V").unwrap(), "900");
    assert!(task.is_connected());
}

#[test]
fn reconnect_starts_a_clean_frame_accumulator() {
    let mut task = ReaderTask::new("/dev/ttyUSB0".to_string());
    task.on_open_result(true);
    assert!(task.on_read(ReadEvent::Data(b"$half:frame".to_vec())).is_empty());
    task.on_read(ReadEvent::Failed);
    task.on_open_result(true);
    // The stale partial frame is gone: only the fresh frame arrives.
    let msgs = task.on_read(ReadEvent::Data(b"$1:NEW#".to_vec()));
    assert_eq!(msgs.len(), 1);
    assert_eq!(msgs[0].command, "NEW");
}

#[test]
fn locator_returns_the_first_matching_usb_device() {
    let ports = vec![
        PortCandidate {
            port_name: "/dev/ttyS0".to_string(),
            is_usb: false,
            manufacturer: Some("Espressif".to_string()),
        },
        PortCandidate {
            port_name: "/dev/ttyUSB0".to_string(),
            is_usb: true,
            manufacturer: Some("OtherVendor".to_string()),
        },
        PortCandidate {
            port_name: "/dev/ttyUSB1".to_string(),
            is_usb: true,
            manufacturer: None,
        },
        PortCandidate {
            port_name: "/dev/ttyUSB2".to_string(),
            is_usb: true,
            manufacturer: Some("Espressif".to_string()),
        },
        PortCandidate {
            port_name: "/dev/ttyUSB3".to_string(),
            is_usb: true,
            manufacturer: Some("Espressif".to_string()),
        },
    ];
    assert_eq!(find_device(&ports, KNOWN_MANUFACTURER).unwrap(), "/dev/ttyUSB2");
}

#[test]
fn locator_is_case_sensitive_and_may_find_nothing() {
    let ports = vec![PortCandidate {
        port_name: "/dev/ttyUSB0".to_string(),
        is_usb: true,
        manufacturer: Some("espressif".to_string()),
    }];
    assert!(find_device(&ports, KNOWN_MANUFACTURER).is_none());
    assert!(find_device(&Vec::new(), KNOWN_MANUFACTURER).is_none());
}

#[test]
fn connection_info_keeps_its_parts() {
    let ci = ConnectionInfo::new("/dev/ttyACM0".to_string(), 115200);
    assert_eq!(ci.port_path, "/dev/ttyACM0");
    assert_eq!(ci.baudrate, 115200);
}

#[test]
fn pane_titles() {
    assert_eq!(LogsTab.title(), "Logs");
    assert_eq!(ResultsTab.title(), "Results");
}
