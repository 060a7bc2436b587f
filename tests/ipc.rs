use eltrafico::ipc::{program_entry, LimitConfig, Message};

fn limits(
    download_rate: Option<&str>,
    upload_rate: Option<&str>,
    download_minimum_rate: Option<&str>,
    upload_minimum_rate: Option<&str>,
    download_priority: Option<usize>,
    upload_priority: Option<usize>,
) -> LimitConfig {
    LimitConfig {
        download_rate: download_rate.map(|s| s.to_string()),
        download_minimum_rate: download_minimum_rate.map(|s| s.to_string()),
        upload_rate: upload_rate.map(|s| s.to_string()),
        upload_minimum_rate: upload_minimum_rate.map(|s| s.to_string()),
        download_priority,
        upload_priority,
    }
}

#[test]
fn test_parse_message() {
    assert_eq!(
        Message::try_from("Program: firefox 100kbps".to_string()),
        Ok(Message::Program {
            name: "firefox".into(),
            config: LimitConfig {
                download_rate: Some("100kbps".into()),
                download_minimum_rate: None,
                upload_rate: None,
                upload_minimum_rate: None,
                download_priority: None,
                upload_priority: None,
            }
        })
    );
    assert_eq!(
        Message::try_from("Global: None 10kbps".to_string()),
        Ok(Message::Global {
            config: LimitConfig {
                download_rate: None,
                download_minimum_rate: None,
                upload_rate: Some("10kbps".into()),
                upload_minimum_rate: None,
                download_priority: None,
                upload_priority: None,
            }
        })
    );
    assert_eq!(
        Message::try_from("Interface: wlan0".to_string()),
        Ok(Message::Interface("wlan0".into()))
    );
    assert_eq!(Message::try_from("Stop".to_string()), Ok(Message::Stop));
}

#[test]
fn parse_all_six_fields_in_wire_order() {
    assert_eq!(
        Message::try_from("Global: 1mbps 2mbps 3kbps 4kbps 5 6".to_string()),
        Ok(Message::Global {
            config: limits(Some("1mbps"), Some("2mbps"), Some("3kbps"), Some("4kbps"), Some(5), Some(6))
        })
    );
    assert_eq!(
        Message::try_from("  Program: sshd None 20kbps None 1kbps None 3\n".to_string()),
        Ok(Message::Program {
            name: "sshd".into(),
            config: limits(None, Some("20kbps"), None, Some("1kbps"), None, Some(3))
        })
    );
}

#[test]
fn priority_that_is_not_a_number_is_absent() {
    assert_eq!(
        Message::try_from("Global: None None None None high +7".to_string()),
        Ok(Message::Global { config: limits(None, None, None, None, None, Some(7)) })
    );
    assert_eq!(
        Message::try_from("Global: None None None None 99999999999999999999999 -1".to_string()),
        Ok(Message::Global { config: limits(None, None, None, None, None, None) })
    );
}

#[test]
fn malformed_lines_are_errors() {
    assert_eq!(
        Message::try_from("Bogus".to_string()),
        Err("failed to parse message: Bogus".to_string())
    );
    assert_eq!(
        Message::try_from("Program: ".to_string()),
        Err("failed to parse message: Program: ".to_string())
    );
    assert_eq!(
        Message::try_from("".to_string()),
        Err("failed to parse message: ".to_string())
    );
}

#[test]
fn interface_name_is_the_rest_of_the_line() {
    assert_eq!(
        Message::try_from("Interface: eth0\n".to_string()),
        Ok(Message::Interface("eth0".into()))
    );
}

#[test]
fn encode_writes_every_field() {
    assert_eq!(Message::Stop.encode(), "Stop");
    assert_eq!(Message::Interface("wlan0".into()).encode(), "Interface: wlan0");
    assert_eq!(
        Message::Global { config: limits(None, Some("10kbps"), None, None, Some(2), None) }.encode(),
        "Global: None 10kbps None None 2 None"
    );
    assert_eq!(
        Message::Program {
            name: "firefox".into(),
            config: limits(Some("100kbps"), None, Some("8"), None, None, Some(40))
        }
        .encode(),
        "Program: firefox 100kbps None 8 None None 40"
    );
}

#[test]
fn encode_then_parse_round_trip() {
    let messages = vec![
        Message::Stop,
        Message::Interface("enp3s0".into()),
        Message::Global { config: limits(None, Some("10kbps"), Some("1kbps"), None, None, Some(1)) },
        Message::Global { config: limits(None, None, None, None, None, None) },
        Message::Program {
            name: "firefox".into(),
            config: limits(Some("100kbps"), None, None, Some("5kbps"), Some(0), None),
        },
        Message::Program {
            name: "node_exporter".into(),
            config: limits(Some("1mbit"), Some("2mbit"), Some("3mbit"), Some("4mbit"), Some(7), Some(usize::MAX)),
        },
    ];
    for m in messages {
        let line = m.encode();
        assert_eq!(Message::try_from(line), Ok(m));
    }
}

#[test]
fn duplicate_keeps_every_field() {
    let l = limits(Some("1"), Some("2"), Some("3"), Some("4"), Some(5), None);
    assert_eq!(l.duplicate(), l);
}

#[test]
fn new_program_notification() {
    assert_eq!(program_entry("firefox"), "ProgramEntry: firefox");
}

#[test]
fn round_trip_edges() {
    // an interface name may hold inner whitespace
    let m = Message::Interface("my dev".into());
    assert_eq!(Message::try_from(m.encode()), Ok(m));
    // a rate spelled `None` reads back as absent
    let m = Message::Global { config: limits(Some("None"), None, None, None, None, None) };
    assert_eq!(
        Message::try_from(m.encode()),
        Ok(Message::Global { config: limits(None, None, None, None, None, None) })
    );
    // a field ending in the keyword cuts the line short
    let m = Message::Global { config: limits(Some("xGlobal:"), Some("1kbps"), None, None, None, None) };
    assert_eq!(
        Message::try_from(m.encode()),
        Ok(Message::Global { config: limits(Some("x"), None, None, None, None, None) })
    );
}
