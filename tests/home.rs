use smart_home::device::{HomeError, InfoDeviceProvider, ProviderError, QueryableDeviceProvider};
use smart_home::home::{parse_query, split_segments, Route, SmartHome};

#[test]
fn test_construct_empty_home() {
    let home = SmartHome::new("home_1");
    assert_eq!(home.id, "home_1");
    assert_eq!(home.get_rooms(), None);
}

#[test]
fn test_construct_home_with_a_room() {
    let home = SmartHome::new("home_1").with_room("room_1", &["device_1", "device_2"]);

    assert_eq!(
        home.devices("room_1"),
        Some(&vec!["device_1".to_string(), "device_2".to_string()])
    );
}

#[test]
fn test_get_home_rooms() {
    let empty_home = SmartHome::new("home_0");
    assert_eq!(empty_home.get_rooms(), None);

    let full_home = SmartHome::new("home_1")
        .with_room("room_1", &["device_1"])
        .with_room("room_2", &["device_2"]);
    let mut rooms = full_home.get_rooms().unwrap();
    rooms.sort();
    assert_eq!(rooms, vec!["room_1", "room_2"])
}

#[test]
fn test_get_room_devices() {
    let home = SmartHome::new("home_1").with_room("room_1", &["device_1"]);

    assert_eq!(home.devices("room_1"), Some(&vec!["device_1".to_string()]));
    assert_eq!(home.devices("room_2"), None);
}

#[test]
fn with_room_replaces_a_room_of_the_same_id() {
    let home = SmartHome::new("h")
        .with_room("room_1", &["a", "b"])
        .with_room("room_2", &["c"])
        .with_room("room_1", &["d"]);
    assert_eq!(home.devices("room_1"), Some(&vec!["d".to_string()]));
    assert_eq!(home.get_rooms().unwrap(), vec!["room_1", "room_2"]);
}

fn no_device_id(r: Result<(), ProviderError>) -> String {
    match r {
        Err(ProviderError::NoDeviceError(id)) => id,
        _ => panic!("expected a NoDeviceError"),
    }
}

#[test]
fn resolve_names_the_missing_room_or_device() {
    let home = SmartHome::new("h").with_room("kitchen", &["sock_1"]);
    assert!(home.resolve("kitchen", "sock_1").is_ok());
    assert_eq!(no_device_id(home.resolve("missing_room", "sock_1")), "missing_room");
    assert_eq!(no_device_id(home.resolve("kitchen", "nonexistent")), "nonexistent");
}

#[test]
fn segments_follow_split_on_slash() {
    assert_eq!(split_segments("kitchen/sock_1/GET"), vec!["kitchen", "sock_1", "GET"]);
    assert_eq!(split_segments(""), vec![""]);
    assert_eq!(split_segments("a//"), vec!["a", "", ""]);
}

#[test]
fn parse_query_accepts_two_or_three_segments() {
    let q = parse_query("kitchen/sock_1/SET1").ok().unwrap();
    assert_eq!((q.room.as_str(), q.device.as_str()), ("kitchen", "sock_1"));
    assert_eq!(q.command, Some("SET1".to_string()));
    let q = parse_query("kitchen/sock_1").ok().unwrap();
    assert_eq!(q.command, None);
    for bad in ["kitchen", "a/b/c/d", ""] {
        match parse_query(bad) {
            Err(HomeError::QueryFormatError(s)) => assert_eq!(s, bad),
            _ => panic!("expected a QueryFormatError"),
        }
    }
}

/// A provider that records the calls it gets and fails on "broken".
struct Recorder {
    calls: Vec<String>,
}

impl InfoDeviceProvider for Recorder {
    fn status(&self, device_id: &str) -> Result<String, ProviderError> {
        if device_id == "broken" {
            Err(ProviderError::NoDeviceError(device_id.to_string()))
        } else {
            Ok(format!("ok {}", device_id))
        }
    }
}

impl QueryableDeviceProvider for Recorder {
    fn execute(&mut self, device_id: &str, command: &str) -> Result<String, ProviderError> {
        self.calls.push(format!("{}:{}", device_id, command));
        Ok(format!("done {}", command))
    }
}

#[test]
fn route_names_the_call_to_make() {
    let home = SmartHome::new("h").with_room("kitchen", &["sock_1"]);
    match home.route("kitchen/sock_1/SET1") {
        Ok(Route::Execute { device, command }) => assert_eq!((device.as_str(), command.as_str()), ("sock_1", "SET1")),
        other => panic!("unexpected {:?}", other),
    }
    match home.route("kitchen/sock_1") {
        Ok(Route::Status { device }) => assert_eq!(device, "sock_1"),
        other => panic!("unexpected {:?}", other),
    }
    assert!(matches!(home.route("kitchen/x/GET"), Err(HomeError::ProviderError(ProviderError::NoDeviceError(_)))));
    assert!(matches!(home.route("a/b/c/d"), Err(HomeError::QueryFormatError(_))));
}

#[test]
fn run_device_command_renders_the_provider_answer() {
    let home = SmartHome::new("h").with_room("kitchen", &["sock_1"]);
    let mut p = Recorder { calls: vec![] };
    assert_eq!(home.run_device_command(&mut p, "kitchen/sock_1/SET1"), "done SET1\n");
    assert_eq!(p.calls, vec!["sock_1:SET1"]);
}

#[test]
fn dispatch_routes_commands_and_status_reads() {
    let home = SmartHome::new("h").with_room("kitchen", &["sock_1"]);
    let mut p = Recorder { calls: vec![] };
    assert_eq!(home.dispatch(&mut p, "kitchen/sock_1/SET1").ok(), Some("done SET1".to_string()));
    assert_eq!(home.dispatch(&mut p, "kitchen/sock_1").ok(), Some("ok sock_1".to_string()));
    assert_eq!(p.calls, vec!["sock_1:SET1"]);
}

#[test]
fn dispatch_never_calls_the_device_on_a_bad_address() {
    let home = SmartHome::new("h").with_room("kitchen", &["sock_1"]);
    let mut p = Recorder { calls: vec![] };
    assert_eq!(
        home.run_device_command(&mut p, "kitchen/nonexistent/GET"),
        "NoDeviceError: device with id 'nonexistent' not provided!\n"
    );
    assert_eq!(
        home.run_device_command(&mut p, "missing_room/x/GET"),
        "NoDeviceError: device with id 'missing_room' not provided!\n"
    );
    assert_eq!(
        home.run_device_command(&mut p, "kitchen"),
        "QueryError: wrong query format: 'kitchen'\n"
    );
    assert_eq!(
        home.run_device_command(&mut p, "a/b"),
        "QueryError: wrong query format: 'a/b'\n"
    );
    assert_eq!(
        home.run_device_command(&mut p, "kitchen/sock_1"),
        "QueryError: wrong query format: 'kitchen/sock_1'\n"
    );
    assert!(p.calls.is_empty());
}

#[test]
fn report_has_one_line_per_device_even_when_devices_fail() {
    let home = SmartHome::new("h")
        .with_room("r1", &["a", "broken"])
        .with_room("r2", &["c", "d"])
        .with_room("r3", &["broken", "f"]);
    let p = Recorder { calls: vec![] };
    let report = home.create_report(&p);
    let lines: Vec<&str> = report.lines().collect();
    assert_eq!(lines.len(), 1 + 3 * 2);
    assert!(lines[0].starts_with("[SmartHome: h] status on "));
    assert!(lines[0].ends_with(": "));
    assert_eq!(lines[1], "[ROOM 'r1'] [DEVICE 'a'] [STATUS] ok a");
    assert_eq!(
        lines[2],
        "[ROOM 'r1'] [DEVICE 'broken'] [STATUS] NoDeviceError: device with id 'broken' not provided!"
    );
    assert_eq!(lines[6], "[ROOM 'r3'] [DEVICE 'f'] [STATUS] ok f");
}

#[test]
fn report_stamp_is_a_utc_date_and_time() {
    let home = SmartHome::new("h");
    let p = Recorder { calls: vec![] };
    let report = home.create_report(&p);
    let stamp = report
        .strip_prefix("[SmartHome: h] status on ")
        .unwrap()
        .strip_suffix(": \n")
        .unwrap();
    assert_eq!(stamp.len(), 19);
    assert_eq!(&stamp[4..5], "-");
    assert_eq!(&stamp[10..11], " ");
    assert_eq!(&stamp[13..14], ":");
}

#[test]
fn render_report_uses_the_given_outcomes() {
    let home = SmartHome::new("my_home").with_room("kitchen", &["sock_1", "sock_2"]);
    let outcomes = vec![
        Ok("fine".to_string()),
        Err(ProviderError::NoDeviceError("sock_2".to_string())),
    ];
    assert_eq!(
        home.render_report("2024-01-02 03:04:05", &outcomes),
        "[SmartHome: my_home] status on 2024-01-02 03:04:05: \n\
         [ROOM 'kitchen'] [DEVICE 'sock_1'] [STATUS] fine\n\
         [ROOM 'kitchen'] [DEVICE 'sock_2'] [STATUS] NoDeviceError: device with id 'sock_2' not provided!\n"
    );
}

#[test]
fn add_and_remove_rooms_return_the_previous_devices() {
    let mut home = SmartHome::new("h");
    assert_eq!(home.add_room("r1", &["a"]), None);
    assert_eq!(home.add_room("r1", &["b", "c"]), Some(vec!["a".to_string()]));
    assert_eq!(home.remove_room("nope"), None);
    assert_eq!(home.remove_room("r1"), Some(vec!["b".to_string(), "c".to_string()]));
    assert_eq!(home.get_rooms(), None);
}
